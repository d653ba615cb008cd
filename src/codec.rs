//! The persisted schema format and its encoder and decoder.
//!
//! ```text
//! schema := def_count:u32 def*
//! def    := name_len:u32 name:utf8 kind:u8 field_count:u32 field*
//! field  := name_len:u32 name:utf8 type_tag:u8 is_array:u8 default:width(type)
//! ```
//! Integers are little-endian. Type tags: Int 0, Float 1, Byte 2, DefRef 3.
//! A Byte default takes one byte, every other default four. The only
//! definition kind, Struct, is tag 0. An `is_array` byte is 0 or 1.
use vstd::bytes::{
    lemma_auto_spec_u32_to_from_le_bytes, spec_u32_from_le_bytes, spec_u32_to_le_bytes,
    u32_from_le_bytes, u32_to_le_bytes,
};
use vstd::prelude::*;
use vstd::slice::slice_subrange;
use vstd::utf8::{decode_utf8, encode_utf8, valid_utf8};
use crate::schema::{
    defs_model, fields_model, Def, DefKind, DefModel, Field, FieldModel, Schema, SchemaError,
    SchemaModel, TypeId,
};

verus! {

broadcast use vstd::utf8::encode_utf8_valid_utf8, vstd::utf8::encode_utf8_decode_utf8;

// ---------------------------------------------------------------------------
// Encoding, as byte sequences
// ---------------------------------------------------------------------------

pub open spec fn kind_tag(k: DefKind) -> u8 {
    0
}

pub open spec fn name_bytes(s: Seq<char>) -> Seq<u8> {
    spec_u32_to_le_bytes(encode_utf8(s).len() as u32) + encode_utf8(s)
}

pub open spec fn value_bytes(t: TypeId, v: u32) -> Seq<u8> {
    if t.spec_width() == 1 {
        seq![v as u8]
    } else {
        spec_u32_to_le_bytes(v)
    }
}

pub open spec fn flag_byte(b: bool) -> u8 {
    if b {
        1
    } else {
        0
    }
}

pub open spec fn field_bytes(f: FieldModel) -> Seq<u8> {
    name_bytes(f.name) + seq![f.type_id.spec_tag(), flag_byte(f.is_array)] + value_bytes(
        f.type_id,
        f.value,
    )
}

pub open spec fn fields_bytes(fs: Seq<FieldModel>) -> Seq<u8>
    decreases fs.len(),
{
    if fs.len() == 0 {
        seq![]
    } else {
        field_bytes(fs[0]) + fields_bytes(fs.drop_first())
    }
}

pub open spec fn def_bytes(d: DefModel) -> Seq<u8> {
    name_bytes(d.name) + seq![kind_tag(d.kind)] + spec_u32_to_le_bytes(d.fields.len() as u32)
        + fields_bytes(d.fields)
}

pub open spec fn defs_bytes(ds: Seq<DefModel>) -> Seq<u8>
    decreases ds.len(),
{
    if ds.len() == 0 {
        seq![]
    } else {
        def_bytes(ds[0]) + defs_bytes(ds.drop_first())
    }
}

/// The persisted form of a schema.
pub open spec fn schema_bytes(s: SchemaModel) -> Seq<u8> {
    spec_u32_to_le_bytes(s.defs.len() as u32) + defs_bytes(s.defs)
}

/// Every length that the format stores in a `u32` fits there.
pub open spec fn name_fits(s: Seq<char>) -> bool {
    encode_utf8(s).len() <= u32::MAX
}

impl DefModel {
    pub open spec fn encodable(self) -> bool {
        &&& name_fits(self.name)
        &&& self.fields.len() <= u32::MAX
        &&& forall|i: int| 0 <= i < self.fields.len() ==> name_fits(#[trigger] self.fields[i].name)
    }
}

impl SchemaModel {
    pub open spec fn encodable(self) -> bool {
        &&& self.defs.len() <= u32::MAX
        &&& forall|i: int| 0 <= i < self.defs.len() ==> (#[trigger] self.defs[i]).encodable()
    }
}

// ---------------------------------------------------------------------------
// Decoding, as a parser over byte sequences
// ---------------------------------------------------------------------------

pub open spec fn read_u32(b: Seq<u8>, pos: int) -> Result<(u32, int), SchemaError> {
    if 0 <= pos && pos + 4 <= b.len() {
        Ok((spec_u32_from_le_bytes(b.subrange(pos, pos + 4)), pos + 4))
    } else {
        Err(SchemaError::TruncatedInput)
    }
}

pub open spec fn read_name(b: Seq<u8>, pos: int) -> Result<(Seq<char>, int), SchemaError> {
    match read_u32(b, pos) {
        Err(e) => Err(e),
        Ok((n, p)) => if p + n > b.len() {
            Err(SchemaError::TruncatedInput)
        } else if !valid_utf8(b.subrange(p, p + n)) {
            Err(SchemaError::InvalidName)
        } else {
            Ok((decode_utf8(b.subrange(p, p + n)), p + n))
        },
    }
}

pub open spec fn read_value(b: Seq<u8>, pos: int, t: TypeId) -> Result<(u32, int), SchemaError> {
    if t.spec_width() == 1 {
        if 0 <= pos < b.len() {
            Ok((b[pos] as u32, pos + 1))
        } else {
            Err(SchemaError::TruncatedInput)
        }
    } else {
        read_u32(b, pos)
    }
}

pub open spec fn read_field(b: Seq<u8>, pos: int) -> Result<(FieldModel, int), SchemaError> {
    match read_name(b, pos) {
        Err(e) => Err(e),
        Ok((name, p)) => if p >= b.len() {
            Err(SchemaError::TruncatedInput)
        } else {
            match TypeId::spec_from_tag(b[p]) {
                None => Err(SchemaError::UnknownTag),
                Some(t) => if p + 1 >= b.len() {
                    Err(SchemaError::TruncatedInput)
                } else if b[p + 1] > 1 {
                    Err(SchemaError::UnknownTag)
                } else {
                    match read_value(b, p + 2, t) {
                        Err(e) => Err(e),
                        Ok((v, q)) => Ok(
                            (FieldModel { name, type_id: t, is_array: b[p + 1] == 1, value: v }, q),
                        ),
                    }
                },
            }
        },
    }
}

pub open spec fn read_fields(b: Seq<u8>, pos: int, n: nat, acc: Seq<FieldModel>) -> Result<
    (Seq<FieldModel>, int),
    SchemaError,
>
    decreases n,
{
    if n == 0 {
        Ok((acc, pos))
    } else {
        match read_field(b, pos) {
            Err(e) => Err(e),
            Ok((f, p)) => read_fields(b, p, (n - 1) as nat, acc.push(f)),
        }
    }
}

pub open spec fn read_def(b: Seq<u8>, pos: int) -> Result<(DefModel, int), SchemaError> {
    match read_name(b, pos) {
        Err(e) => Err(e),
        Ok((name, p)) => if p >= b.len() {
            Err(SchemaError::TruncatedInput)
        } else if b[p] != 0 {
            Err(SchemaError::UnknownTag)
        } else {
            match read_u32(b, p + 1) {
                Err(e) => Err(e),
                Ok((n, q)) => match read_fields(b, q, n as nat, seq![]) {
                    Err(e) => Err(e),
                    Ok((fs, r)) => Ok((DefModel { name, kind: DefKind::Struct, fields: fs }, r)),
                },
            }
        },
    }
}

pub open spec fn read_defs(b: Seq<u8>, pos: int, n: nat, acc: Seq<DefModel>) -> Result<
    (Seq<DefModel>, int),
    SchemaError,
>
    decreases n,
{
    if n == 0 {
        Ok((acc, pos))
    } else {
        match read_def(b, pos) {
            Err(e) => Err(e),
            Ok((d, p)) => read_defs(b, p, (n - 1) as nat, acc.push(d)),
        }
    }
}

/// What decoding `b` gives: bytes after the last definition are not read.
pub open spec fn parse_schema(b: Seq<u8>) -> Result<SchemaModel, SchemaError> {
    match read_u32(b, 0) {
        Err(e) => Err(e),
        Ok((n, p)) => match read_defs(b, p, n as nat, seq![]) {
            Err(e) => Err(e),
            Ok((ds, q)) => Ok(SchemaModel { defs: ds }),
        },
    }
}

// ---------------------------------------------------------------------------
// Encoder
// ---------------------------------------------------------------------------

proof fn lemma_fields_bytes_push(fs: Seq<FieldModel>, f: FieldModel)
    ensures
        fields_bytes(fs.push(f)) == fields_bytes(fs) + field_bytes(f),
    decreases fs.len(),
{
    if fs.len() == 0 {
        assert(fs.push(f).drop_first() =~= fs);
        assert(fields_bytes(fs.push(f)) =~= fields_bytes(fs) + field_bytes(f));
    } else {
        assert(fs.push(f).drop_first() =~= fs.drop_first().push(f));
        lemma_fields_bytes_push(fs.drop_first(), f);
        assert(fields_bytes(fs.push(f)) =~= fields_bytes(fs) + field_bytes(f));
    }
}

proof fn lemma_defs_bytes_push(ds: Seq<DefModel>, d: DefModel)
    ensures
        defs_bytes(ds.push(d)) == defs_bytes(ds) + def_bytes(d),
    decreases ds.len(),
{
    if ds.len() == 0 {
        assert(ds.push(d).drop_first() =~= ds);
        assert(defs_bytes(ds.push(d)) =~= defs_bytes(ds) + def_bytes(d));
    } else {
        assert(ds.push(d).drop_first() =~= ds.drop_first().push(d));
        lemma_defs_bytes_push(ds.drop_first(), d);
        assert(defs_bytes(ds.push(d)) =~= defs_bytes(ds) + def_bytes(d));
    }
}

fn put_bytes(out: &mut Vec<u8>, src: &[u8])
    ensures
        final(out)@ == old(out)@ + src@,
{
    let mut i: usize = 0;
    while i < src.len()
        invariant
            0 <= i <= src@.len(),
            out@ == old(out)@ + src@.subrange(0, i as int),
        decreases src@.len() - i,
    {
        out.push(src[i]);
        i += 1;
        assert(out@ =~= old(out)@ + src@.subrange(0, i as int));
    }
    assert(src@.subrange(0, i as int) =~= src@);
}

fn put_u32(out: &mut Vec<u8>, x: u32)
    ensures
        final(out)@ == old(out)@ + spec_u32_to_le_bytes(x),
{
    let bs = u32_to_le_bytes(x);
    put_bytes(out, bs.as_slice());
}

fn put_name(out: &mut Vec<u8>, s: &String)
    requires
        name_fits(s@),
    ensures
        final(out)@ == old(out)@ + name_bytes(s@),
{
    let b = s.as_str().as_bytes();
    put_u32(out, b.len() as u32);
    put_bytes(out, b);
    assert(out@ =~= old(out)@ + name_bytes(s@));
}

fn put_field(out: &mut Vec<u8>, f: &Field)
    requires
        name_fits(f.name@),
    ensures
        final(out)@ == old(out)@ + field_bytes(f@),
{
    put_name(out, &f.name);
    out.push(f.type_id.tag());
    out.push(if f.is_array { 1u8 } else { 0u8 });
    if f.type_id.width() == 1 {
        out.push(f.value as u8);
    } else {
        put_u32(out, f.value);
    }
    assert(out@ =~= old(out)@ + field_bytes(f@));
}

fn put_def(out: &mut Vec<u8>, d: &Def)
    requires
        d@.encodable(),
    ensures
        final(out)@ == old(out)@ + def_bytes(d@),
{
    let ghost fs = d@.fields;
    put_name(out, &d.name);
    out.push(0u8);
    put_u32(out, d.fields.len() as u32);
    let ghost head = out@;
    let mut i: usize = 0;
    while i < d.fields.len()
        invariant
            fs == fields_model(d.fields@),
            d@.encodable(),
            0 <= i <= d.fields@.len(),
            out@ == head + fields_bytes(fs.take(i as int)),
        decreases d.fields@.len() - i,
    {
        assert(name_fits(fs[i as int].name));
        put_field(out, &d.fields[i]);
        proof {
            assert(fs.take(i + 1) =~= fs.take(i as int).push(fs[i as int]));
            lemma_fields_bytes_push(fs.take(i as int), fs[i as int]);
        }
        i += 1;
    }
    assert(fs.take(i as int) =~= fs);
    assert(out@ =~= old(out)@ + def_bytes(d@));
}

fn name_fits_exec(s: &String) -> (r: bool)
    ensures
        r == name_fits(s@),
{
    (s.as_str().as_bytes().len() as u64) <= 0xffff_ffffu64
}

impl Schema {
    /// Whether every count and length of this schema fits the format's
    /// `u32` fields, as `encode` requires.
    pub fn fits_format(&self) -> (r: bool)
        ensures
            r == self@.encodable(),
    {
        let ghost ds = self@.defs;
        if self.defs.len() as u64 > 0xffff_ffffu64 {
            return false;
        }
        let mut i: usize = 0;
        while i < self.defs.len()
            invariant
                ds == defs_model(self.defs@),
                ds.len() <= u32::MAX,
                0 <= i <= ds.len(),
                forall|k: int| 0 <= k < i ==> (#[trigger] ds[k]).encodable(),
            decreases ds.len() - i,
        {
            let d = &self.defs[i];
            let ghost fs = ds[i as int].fields;
            if !name_fits_exec(&d.name) || d.fields.len() as u64 > 0xffff_ffffu64 {
                return false;
            }
            let mut j: usize = 0;
            while j < d.fields.len()
                invariant
                    ds == defs_model(self.defs@),
                    i < ds.len(),
                    fs == ds[i as int].fields,
                    fs == fields_model(d.fields@),
                    0 <= j <= fs.len(),
                    forall|k: int| 0 <= k < j ==> name_fits(#[trigger] fs[k].name),
                decreases fs.len() - j,
            {
                if !name_fits_exec(&d.fields[j].name) {
                    assert(fs[j as int] == d.fields@[j as int]@);
                    assert(!name_fits(fs[j as int].name));
                    assert(!ds[i as int].encodable());
                    return false;
                }
                j += 1;
            }
            i += 1;
        }
        true
    }
}

impl Schema {
    /// The persisted form of this schema.
    pub fn encode(&self) -> (r: Vec<u8>)
        requires
            self@.encodable(),
        ensures
            r@ == schema_bytes(self@),
    {
        let ghost ds = self@.defs;
        let mut out: Vec<u8> = Vec::new();
        put_u32(&mut out, self.defs.len() as u32);
        let ghost head = out@;
        let mut i: usize = 0;
        while i < self.defs.len()
            invariant
                ds == defs_model(self.defs@),
                self@.encodable(),
                0 <= i <= self.defs@.len(),
                out@ == head + defs_bytes(ds.take(i as int)),
            decreases self.defs@.len() - i,
        {
            assert(ds[i as int].encodable());
            put_def(&mut out, &self.defs[i]);
            proof {
                assert(ds.take(i + 1) =~= ds.take(i as int).push(ds[i as int]));
                lemma_defs_bytes_push(ds.take(i as int), ds[i as int]);
            }
            i += 1;
        }
        assert(ds.take(i as int) =~= ds);
        assert(out@ =~= schema_bytes(self@));
        out
    }
}

// ---------------------------------------------------------------------------
// Decoder
// ---------------------------------------------------------------------------

/// Relies on `String::from_utf8`: it succeeds exactly on well-formed UTF-8,
/// and then holds the characters that those bytes encode.
#[verifier::external_body]
fn text_of(b: &[u8]) -> (r: Option<String>)
    ensures
        r is Some <==> valid_utf8(b@),
        r matches Some(s) ==> s@ == decode_utf8(b@),
{
    String::from_utf8(b.to_vec()).ok()
}

/// An executable read result `r` is the spec read result `s`.
pub open spec fn agrees<T>(r: Result<(T, usize), SchemaError>, s: Result<(T, int), SchemaError>) -> bool {
    match r {
        Ok((x, p)) => s == Ok::<(T, int), SchemaError>((x, p as int)),
        Err(e) => s == Err::<(T, int), SchemaError>(e),
    }
}

fn get_u32(b: &[u8], pos: usize) -> (r: Result<(u32, usize), SchemaError>)
    requires
        pos <= b@.len(),
    ensures
        agrees(r, read_u32(b@, pos as int)),
        r matches Ok((_, q)) ==> q <= b@.len(),
{
    if b.len() - pos < 4 {
        return Err(SchemaError::TruncatedInput);
    }
    let x = u32_from_le_bytes(slice_subrange(b, pos, pos + 4));
    Ok((x, pos + 4))
}

fn get_name(b: &[u8], pos: usize) -> (r: Result<(String, usize), SchemaError>)
    requires
        pos <= b@.len(),
    ensures
        match r {
            Ok((s, p)) => read_name(b@, pos as int) == Ok::<(Seq<char>, int), SchemaError>(
                (s@, p as int),
            ),
            Err(e) => read_name(b@, pos as int) == Err::<(Seq<char>, int), SchemaError>(e),
        },
        r matches Ok((_, q)) ==> q <= b@.len(),
{
    let (n, p) = match get_u32(b, pos) {
        Ok(v) => v,
        Err(e) => return Err(e),
    };
    let n = n as usize;
    if b.len() - p < n {
        return Err(SchemaError::TruncatedInput);
    }
    match text_of(slice_subrange(b, p, p + n)) {
        Some(s) => Ok((s, p + n)),
        None => Err(SchemaError::InvalidName),
    }
}

pub(crate) fn get_value(b: &[u8], pos: usize, t: TypeId) -> (r: Result<(u32, usize), SchemaError>)
    requires
        pos <= b@.len(),
    ensures
        agrees(r, read_value(b@, pos as int, t)),
        r matches Ok((_, q)) ==> q <= b@.len(),
{
    if t.width() == 1 {
        if pos < b.len() {
            Ok((b[pos] as u32, pos + 1))
        } else {
            Err(SchemaError::TruncatedInput)
        }
    } else {
        get_u32(b, pos)
    }
}

fn get_field(b: &[u8], pos: usize) -> (r: Result<(Field, usize), SchemaError>)
    requires
        pos <= b@.len(),
    ensures
        match r {
            Ok((f, p)) => read_field(b@, pos as int) == Ok::<(FieldModel, int), SchemaError>(
                (f@, p as int),
            ),
            Err(e) => read_field(b@, pos as int) == Err::<(FieldModel, int), SchemaError>(e),
        },
        r matches Ok((_, q)) ==> q <= b@.len(),
{
    let (name, p) = match get_name(b, pos) {
        Ok(v) => v,
        Err(e) => return Err(e),
    };
    if p >= b.len() {
        return Err(SchemaError::TruncatedInput);
    }
    let type_id = match TypeId::from_tag(b[p]) {
        Some(t) => t,
        None => return Err(SchemaError::UnknownTag),
    };
    if p + 1 >= b.len() {
        return Err(SchemaError::TruncatedInput);
    }
    if b[p + 1] > 1 {
        return Err(SchemaError::UnknownTag);
    }
    let is_array = b[p + 1] == 1;
    match get_value(b, p + 2, type_id) {
        Ok((value, q)) => Ok((Field { name, type_id, is_array, value }, q)),
        Err(e) => Err(e),
    }
}

fn get_fields(b: &[u8], pos: usize, n: u32) -> (r: Result<(Vec<Field>, usize), SchemaError>)
    requires
        pos <= b@.len(),
    ensures
        match r {
            Ok((fs, p)) => read_fields(b@, pos as int, n as nat, seq![]) == Ok::<
                (Seq<FieldModel>, int),
                SchemaError,
            >((fields_model(fs@), p as int)),
            Err(e) => read_fields(b@, pos as int, n as nat, seq![]) == Err::<
                (Seq<FieldModel>, int),
                SchemaError,
            >(e),
        },
        r matches Ok((_, q)) ==> q <= b@.len(),
{
    let mut acc: Vec<Field> = Vec::new();
    let mut p: usize = pos;
    let mut k: u32 = n;
    assert(fields_model(acc@) =~= seq![]);
    while k > 0
        invariant
            p <= b@.len(),
            read_fields(b@, pos as int, n as nat, seq![]) == read_fields(
                b@,
                p as int,
                k as nat,
                fields_model(acc@),
            ),
        decreases k,
    {
        match get_field(b, p) {
            Ok((f, q)) => {
                proof {
                    assert(fields_model(acc@.push(f)) =~= fields_model(acc@).push(f@));
                }
                acc.push(f);
                p = q;
                k = k - 1;
            },
            Err(e) => return Err(e),
        }
    }
    Ok((acc, p))
}

fn get_def(b: &[u8], pos: usize) -> (r: Result<(Def, usize), SchemaError>)
    requires
        pos <= b@.len(),
    ensures
        match r {
            Ok((d, p)) => read_def(b@, pos as int) == Ok::<(DefModel, int), SchemaError>(
                (d@, p as int),
            ),
            Err(e) => read_def(b@, pos as int) == Err::<(DefModel, int), SchemaError>(e),
        },
        r matches Ok((_, q)) ==> q <= b@.len(),
{
    let (name, p) = match get_name(b, pos) {
        Ok(v) => v,
        Err(e) => return Err(e),
    };
    if p >= b.len() {
        return Err(SchemaError::TruncatedInput);
    }
    if b[p] != 0 {
        return Err(SchemaError::UnknownTag);
    }
    let (n, q) = match get_u32(b, p + 1) {
        Ok(v) => v,
        Err(e) => return Err(e),
    };
    match get_fields(b, q, n) {
        Ok((fields, end)) => Ok((Def { name, kind: DefKind::Struct, fields }, end)),
        Err(e) => Err(e),
    }
}

impl Schema {
    /// Reads a schema from its persisted form. Fails with `TruncatedInput`
    /// where the bytes end before the counts and lengths say, with
    /// `UnknownTag` on a tag outside the format, and with `InvalidName` on a
    /// name that is not UTF-8, whichever comes first in reading order.
    pub fn decode(b: &[u8]) -> (r: Result<Schema, SchemaError>)
        ensures
            match r {
                Ok(s) => parse_schema(b@) == Ok::<SchemaModel, SchemaError>(s@),
                Err(e) => parse_schema(b@) == Err::<SchemaModel, SchemaError>(e),
            },
    {
        let (n, p0) = match get_u32(b, 0) {
            Ok(v) => v,
            Err(e) => return Err(e),
        };
        let mut acc: Vec<Def> = Vec::new();
        let mut p: usize = p0;
        let mut k: u32 = n;
        assert(defs_model(acc@) =~= seq![]);
        while k > 0
            invariant
                p <= b@.len(),
                read_u32(b@, 0) == Ok::<(u32, int), SchemaError>((n, p0 as int)),
                read_defs(b@, p0 as int, n as nat, seq![]) == read_defs(
                    b@,
                    p as int,
                    k as nat,
                    defs_model(acc@),
                ),
            decreases k,
        {
            match get_def(b, p) {
                Ok((d, q)) => {
                    proof {
                        assert(defs_model(acc@.push(d)) =~= defs_model(acc@).push(d@));
                    }
                    acc.push(d);
                    p = q;
                    k = k - 1;
                },
                Err(e) => return Err(e),
            }
        }
        Ok(Schema { defs: acc })
    }
}

// ---------------------------------------------------------------------------
// Round trip
// ---------------------------------------------------------------------------

/// `e` stands in `b` from position `pos` on.
pub open spec fn at(b: Seq<u8>, pos: int, e: Seq<u8>) -> bool {
    0 <= pos && pos + e.len() <= b.len() && b.subrange(pos, pos + e.len()) == e
}

proof fn lemma_at_split(b: Seq<u8>, pos: int, x: Seq<u8>, y: Seq<u8>)
    requires
        at(b, pos, x + y),
    ensures
        at(b, pos, x),
        at(b, pos + x.len(), y),
{
    let whole = b.subrange(pos, pos + (x + y).len());
    assert forall|i: int| 0 <= i < x.len() implies b.subrange(pos, pos + x.len())[i] == x[i] by {
        assert(whole[i] == (x + y)[i]);
    }
    assert(b.subrange(pos, pos + x.len()) =~= x);
    assert forall|i: int| 0 <= i < y.len() implies b.subrange(
        pos + x.len(),
        pos + x.len() + y.len(),
    )[i] == y[i] by {
        assert(whole[x.len() + i] == (x + y)[x.len() + i]);
    }
    assert(b.subrange(pos + x.len(), pos + x.len() + y.len()) =~= y);
}

proof fn lemma_read_u32(b: Seq<u8>, pos: int, x: u32)
    requires
        at(b, pos, spec_u32_to_le_bytes(x)),
    ensures
        read_u32(b, pos) == Ok::<(u32, int), SchemaError>((x, pos + 4)),
{
    lemma_auto_spec_u32_to_from_le_bytes();
}

proof fn lemma_read_name(b: Seq<u8>, pos: int, s: Seq<char>)
    requires
        at(b, pos, name_bytes(s)),
        name_fits(s),
    ensures
        read_name(b, pos) == Ok::<(Seq<char>, int), SchemaError>(
            (s, pos + name_bytes(s).len()),
        ),
{
    lemma_auto_spec_u32_to_from_le_bytes();
    let e = encode_utf8(s);
    lemma_at_split(b, pos, spec_u32_to_le_bytes(e.len() as u32), e);
    lemma_read_u32(b, pos, e.len() as u32);
}

proof fn lemma_read_field(b: Seq<u8>, pos: int, f: FieldModel)
    requires
        at(b, pos, field_bytes(f)),
        name_fits(f.name),
        f.type_id.holds(f.value),
    ensures
        read_field(b, pos) == Ok::<(FieldModel, int), SchemaError>(
            (f, pos + field_bytes(f).len()),
        ),
{
    lemma_auto_spec_u32_to_from_le_bytes();
    let nb = name_bytes(f.name);
    let mid = seq![f.type_id.spec_tag(), flag_byte(f.is_array)];
    let vb = value_bytes(f.type_id, f.value);
    lemma_at_split(b, pos, nb + mid, vb);
    lemma_at_split(b, pos, nb, mid);
    lemma_read_name(b, pos, f.name);
    let p = pos + nb.len();
    assert(b[p] == b.subrange(p, p + 2)[0]);
    assert(b[p + 1] == b.subrange(p, p + 2)[1]);
    assert(TypeId::spec_from_tag(f.type_id.spec_tag()) == Some(f.type_id));
    if f.type_id.spec_width() == 1 {
        assert(b[p + 2] == b.subrange(p + 2, p + 3)[0]);
        assert(read_value(b, p + 2, f.type_id) == Ok::<(u32, int), SchemaError>(
            (f.value, p + 3),
        ));
    } else {
        lemma_read_u32(b, p + 2, f.value);
    }
}

proof fn lemma_read_fields(b: Seq<u8>, pos: int, fs: Seq<FieldModel>, acc: Seq<FieldModel>)
    requires
        at(b, pos, fields_bytes(fs)),
        forall|i: int| 0 <= i < fs.len() ==> name_fits(#[trigger] fs[i].name),
        forall|i: int| 0 <= i < fs.len() ==> (#[trigger] fs[i]).type_id.holds(fs[i].value),
    ensures
        read_fields(b, pos, fs.len() as nat, acc) == Ok::<(Seq<FieldModel>, int), SchemaError>(
            (acc + fs, pos + fields_bytes(fs).len()),
        ),
    decreases fs.len(),
{
    if fs.len() == 0 {
        assert(acc + fs =~= acc);
    } else {
        let rest = fs.drop_first();
        lemma_at_split(b, pos, field_bytes(fs[0]), fields_bytes(rest));
        lemma_read_field(b, pos, fs[0]);
        assert forall|i: int| 0 <= i < rest.len() implies name_fits(#[trigger] rest[i].name)
            && rest[i].type_id.holds(rest[i].value) by {
            assert(rest[i] == fs[i + 1]);
        }
        lemma_read_fields(b, pos + field_bytes(fs[0]).len(), rest, acc.push(fs[0]));
        assert(acc.push(fs[0]) + rest =~= acc + fs);
    }
}

proof fn lemma_read_def(b: Seq<u8>, pos: int, d: DefModel)
    requires
        at(b, pos, def_bytes(d)),
        d.encodable(),
        d.valid(),
    ensures
        read_def(b, pos) == Ok::<(DefModel, int), SchemaError>((d, pos + def_bytes(d).len())),
{
    lemma_auto_spec_u32_to_from_le_bytes();
    let nb = name_bytes(d.name);
    let cb = spec_u32_to_le_bytes(d.fields.len() as u32);
    let fb = fields_bytes(d.fields);
    lemma_at_split(b, pos, nb + seq![kind_tag(d.kind)] + cb, fb);
    lemma_at_split(b, pos, nb + seq![kind_tag(d.kind)], cb);
    lemma_at_split(b, pos, nb, seq![kind_tag(d.kind)]);
    lemma_read_name(b, pos, d.name);
    let p = pos + nb.len();
    assert(b[p] == b.subrange(p, p + 1)[0]);
    lemma_read_u32(b, p + 1, d.fields.len() as u32);
    lemma_read_fields(b, p + 5, d.fields, seq![]);
    assert(seq![] + d.fields =~= d.fields);
}

proof fn lemma_read_defs(b: Seq<u8>, pos: int, ds: Seq<DefModel>, acc: Seq<DefModel>)
    requires
        at(b, pos, defs_bytes(ds)),
        forall|i: int| 0 <= i < ds.len() ==> (#[trigger] ds[i]).encodable() && ds[i].valid(),
    ensures
        read_defs(b, pos, ds.len() as nat, acc) == Ok::<(Seq<DefModel>, int), SchemaError>(
            (acc + ds, pos + defs_bytes(ds).len()),
        ),
    decreases ds.len(),
{
    if ds.len() == 0 {
        assert(acc + ds =~= acc);
    } else {
        let rest = ds.drop_first();
        lemma_at_split(b, pos, def_bytes(ds[0]), defs_bytes(rest));
        lemma_read_def(b, pos, ds[0]);
        assert forall|i: int| 0 <= i < rest.len() implies (#[trigger] rest[i]).encodable()
            && rest[i].valid() by {
            assert(rest[i] == ds[i + 1]);
        }
        lemma_read_defs(b, pos + def_bytes(ds[0]).len(), rest, acc.push(ds[0]));
        assert(acc.push(ds[0]) + rest =~= acc + ds);
    }
}

/// Decoding the persisted form of a valid schema gives that schema back,
/// with its definitions and fields in their order.
pub proof fn lemma_round_trip(s: SchemaModel)
    requires
        s.valid(),
        s.encodable(),
    ensures
        parse_schema(schema_bytes(s)) == Ok::<SchemaModel, SchemaError>(s),
{
    lemma_auto_spec_u32_to_from_le_bytes();
    let b = schema_bytes(s);
    assert(b.subrange(0, b.len() as int) =~= b);
    lemma_at_split(b, 0, spec_u32_to_le_bytes(s.defs.len() as u32), defs_bytes(s.defs));
    lemma_read_u32(b, 0, s.defs.len() as u32);
    lemma_read_defs(b, 4, s.defs, seq![]);
    assert(seq![] + s.defs =~= s.defs);
}

/// Encoding what was decoded from an encoding gives the same bytes again.
pub proof fn lemma_encode_idempotent(s: SchemaModel)
    requires
        s.valid(),
        s.encodable(),
    ensures
        parse_schema(schema_bytes(s)) is Ok,
        schema_bytes(parse_schema(schema_bytes(s))->Ok_0) == schema_bytes(s),
{
    lemma_round_trip(s);
}

// ---------------------------------------------------------------------------
// Truncated input
// ---------------------------------------------------------------------------

/// What a read that succeeded on a buffer gives on its first `k` bytes.
pub open spec fn cut<T>(r: Result<(T, int), SchemaError>, k: int) -> Result<(T, int), SchemaError> {
    match r {
        Ok((x, q)) => if q <= k {
            r
        } else {
            Err(SchemaError::TruncatedInput)
        },
        Err(e) => r,
    }
}

proof fn lemma_cut_u32(b: Seq<u8>, pos: int, k: int)
    requires
        0 <= pos <= k <= b.len(),
        read_u32(b, pos) is Ok,
    ensures
        read_u32(b.take(k), pos) == cut(read_u32(b, pos), k),
{
    if pos + 4 <= k {
        assert(b.take(k).subrange(pos, pos + 4) =~= b.subrange(pos, pos + 4));
    }
}

proof fn lemma_cut_name(b: Seq<u8>, pos: int, k: int)
    requires
        0 <= pos <= k <= b.len(),
        read_name(b, pos) is Ok,
    ensures
        read_name(b.take(k), pos) == cut(read_name(b, pos), k),
        read_name(b, pos)->Ok_0.1 >= pos,
{
    lemma_cut_u32(b, pos, k);
    let (n, p) = read_u32(b, pos)->Ok_0;
    if p + n <= k {
        assert(b.take(k).subrange(p, p + n) =~= b.subrange(p, p + n));
    }
}

proof fn lemma_cut_value(b: Seq<u8>, pos: int, k: int, t: TypeId)
    requires
        0 <= pos <= k <= b.len(),
        read_value(b, pos, t) is Ok,
    ensures
        read_value(b.take(k), pos, t) == cut(read_value(b, pos, t), k),
{
    if t.spec_width() != 1 {
        lemma_cut_u32(b, pos, k);
    }
}

proof fn lemma_cut_field(b: Seq<u8>, pos: int, k: int)
    requires
        0 <= pos <= k <= b.len(),
        read_field(b, pos) is Ok,
    ensures
        read_field(b.take(k), pos) == cut(read_field(b, pos), k),
        read_field(b, pos)->Ok_0.1 >= pos,
        read_field(b, pos)->Ok_0.1 <= b.len(),
{
    lemma_cut_name(b, pos, k);
    let (nm, p) = read_name(b, pos)->Ok_0;
    if p < k {
        let t = TypeId::spec_from_tag(b[p])->Some_0;
        if p + 1 < k {
            lemma_cut_value(b, p + 2, k, t);
        }
    }
}

proof fn lemma_cut_fields(b: Seq<u8>, pos: int, k: int, n: nat, acc: Seq<FieldModel>)
    requires
        0 <= pos <= k <= b.len(),
        read_fields(b, pos, n, acc) is Ok,
    ensures
        read_fields(b.take(k), pos, n, acc) == cut(read_fields(b, pos, n, acc), k),
        read_fields(b, pos, n, acc)->Ok_0.1 >= pos,
        read_fields(b, pos, n, acc)->Ok_0.1 <= b.len(),
    decreases n,
{
    if n > 0 {
        lemma_cut_field(b, pos, k);
        let (f, p) = read_field(b, pos)->Ok_0;
        if p <= k {
            lemma_cut_fields(b, p, k, (n - 1) as nat, acc.push(f));
        } else {
            lemma_cut_fields(b, p, b.len() as int, (n - 1) as nat, acc.push(f));
        }
    }
}

proof fn lemma_cut_def(b: Seq<u8>, pos: int, k: int)
    requires
        0 <= pos <= k <= b.len(),
        read_def(b, pos) is Ok,
    ensures
        read_def(b.take(k), pos) == cut(read_def(b, pos), k),
        read_def(b, pos)->Ok_0.1 >= pos,
        read_def(b, pos)->Ok_0.1 <= b.len(),
{
    lemma_cut_name(b, pos, k);
    let (nm, p) = read_name(b, pos)->Ok_0;
    let (n, q) = read_u32(b, p + 1)->Ok_0;
    if p < k {
        lemma_cut_u32(b, p + 1, k);
        if q <= k {
            lemma_cut_fields(b, q, k, n as nat, seq![]);
        } else {
            lemma_cut_fields(b, q, b.len() as int, n as nat, seq![]);
        }
    } else {
        lemma_cut_fields(b, q, b.len() as int, n as nat, seq![]);
    }
}

proof fn lemma_cut_defs(b: Seq<u8>, pos: int, k: int, n: nat, acc: Seq<DefModel>)
    requires
        0 <= pos <= k <= b.len(),
        read_defs(b, pos, n, acc) is Ok,
    ensures
        read_defs(b.take(k), pos, n, acc) == cut(read_defs(b, pos, n, acc), k),
        read_defs(b, pos, n, acc)->Ok_0.1 >= pos,
        read_defs(b, pos, n, acc)->Ok_0.1 <= b.len(),
    decreases n,
{
    if n > 0 {
        lemma_cut_def(b, pos, k);
        let (d, p) = read_def(b, pos)->Ok_0;
        if p <= k {
            lemma_cut_defs(b, p, k, (n - 1) as nat, acc.push(d));
        } else {
            lemma_cut_defs(b, p, b.len() as int, (n - 1) as nat, acc.push(d));
        }
    }
}

/// Decoding any strict prefix of the persisted form of a valid schema fails
/// with `TruncatedInput`.
pub proof fn lemma_truncated_rejected(s: SchemaModel, k: int)
    requires
        s.valid(),
        s.encodable(),
        0 <= k < schema_bytes(s).len(),
    ensures
        parse_schema(schema_bytes(s).take(k)) == Err::<SchemaModel, SchemaError>(
            SchemaError::TruncatedInput,
        ),
{
    lemma_auto_spec_u32_to_from_le_bytes();
    let b = schema_bytes(s);
    assert(b.subrange(0, b.len() as int) =~= b);
    lemma_at_split(b, 0, spec_u32_to_le_bytes(s.defs.len() as u32), defs_bytes(s.defs));
    lemma_read_u32(b, 0, s.defs.len() as u32);
    lemma_read_defs(b, 4, s.defs, seq![]);
    if k >= 4 {
        lemma_cut_u32(b, 0, k);
        lemma_cut_defs(b, 4, k, s.defs.len() as nat, seq![]);
    }
}

// ---------------------------------------------------------------------------
// Unknown type tags
// ---------------------------------------------------------------------------

proof fn lemma_fields_bytes_split(fs: Seq<FieldModel>, j: int)
    requires
        0 <= j <= fs.len(),
    ensures
        fields_bytes(fs) == fields_bytes(fs.take(j)) + fields_bytes(fs.skip(j)),
    decreases j,
{
    if j == 0 {
        assert(fs.skip(0) =~= fs);
        assert(fields_bytes(fs.take(0)) =~= seq![]);
        assert(fields_bytes(fs) =~= seq![] + fields_bytes(fs));
    } else {
        let r = fs.drop_first();
        lemma_fields_bytes_split(r, j - 1);
        assert(fs.take(j).drop_first() =~= r.take(j - 1));
        assert(fs.skip(j) =~= r.skip(j - 1));
        assert(fields_bytes(fs) =~= fields_bytes(fs.take(j)) + fields_bytes(fs.skip(j)));
    }
}

proof fn lemma_defs_bytes_split(ds: Seq<DefModel>, i: int)
    requires
        0 <= i <= ds.len(),
    ensures
        defs_bytes(ds) == defs_bytes(ds.take(i)) + defs_bytes(ds.skip(i)),
    decreases i,
{
    if i == 0 {
        assert(ds.skip(0) =~= ds);
        assert(defs_bytes(ds.take(0)) =~= seq![]);
        assert(defs_bytes(ds) =~= seq![] + defs_bytes(ds));
    } else {
        let r = ds.drop_first();
        lemma_defs_bytes_split(r, i - 1);
        assert(ds.take(i).drop_first() =~= r.take(i - 1));
        assert(ds.skip(i) =~= r.skip(i - 1));
        assert(defs_bytes(ds) =~= defs_bytes(ds.take(i)) + defs_bytes(ds.skip(i)));
    }
}

proof fn lemma_fields_then(b: Seq<u8>, pos: int, i: nat, m: nat, acc: Seq<FieldModel>)
    requires
        read_fields(b, pos, i, acc) is Ok,
    ensures
        read_fields(b, pos, i + m, acc) == read_fields(
            b,
            read_fields(b, pos, i, acc)->Ok_0.1,
            m,
            read_fields(b, pos, i, acc)->Ok_0.0,
        ),
    decreases i,
{
    if i > 0 {
        let (f, p) = read_field(b, pos)->Ok_0;
        lemma_fields_then(b, p, (i - 1) as nat, m, acc.push(f));
        assert((i + m - 1) as nat == ((i - 1) as nat + m) as nat);
    }
}

proof fn lemma_defs_then(b: Seq<u8>, pos: int, i: nat, m: nat, acc: Seq<DefModel>)
    requires
        read_defs(b, pos, i, acc) is Ok,
    ensures
        read_defs(b, pos, i + m, acc) == read_defs(
            b,
            read_defs(b, pos, i, acc)->Ok_0.1,
            m,
            read_defs(b, pos, i, acc)->Ok_0.0,
        ),
    decreases i,
{
    if i > 0 {
        let (d, p) = read_def(b, pos)->Ok_0;
        lemma_defs_then(b, p, (i - 1) as nat, m, acc.push(d));
        assert((i + m - 1) as nat == ((i - 1) as nat + m) as nat);
    }
}

proof fn lemma_at_update(b: Seq<u8>, t: int, x: u8, pos: int, e: Seq<u8>)
    requires
        at(b, pos, e),
        t < pos || t >= pos + e.len(),
        0 <= t < b.len(),
    ensures
        at(b.update(t, x), pos, e),
{
    assert(b.update(t, x).subrange(pos, pos + e.len()) =~= b.subrange(pos, pos + e.len()));
}

/// Offset of the type tag of field `j` within the persisted form of `d`.
pub open spec fn tag_offset(d: DefModel, j: int) -> int {
    name_bytes(d.name).len() as int + 5 + fields_bytes(d.fields.take(j)).len() as int
        + name_bytes(d.fields[j].name).len() as int
}

/// Where the type tag of field `j` of definition `i` stands in the persisted
/// form of `s`.
pub open spec fn tag_pos(s: SchemaModel, i: int, j: int) -> int {
    4 + defs_bytes(s.defs.take(i)).len() as int + tag_offset(s.defs[i], j)
}

/// The parts of the persisted form of `d` that are read before the type tag
/// of field `j`, and that tag.
proof fn lemma_def_pieces(b: Seq<u8>, pd: int, d: DefModel, j: int)
    requires
        at(b, pd, def_bytes(d)),
        0 <= j < d.fields.len(),
    ensures
        at(b, pd, name_bytes(d.name)),
        at(b, pd + name_bytes(d.name).len(), seq![0u8]),
        at(b, pd + name_bytes(d.name).len() + 1, spec_u32_to_le_bytes(d.fields.len() as u32)),
        at(b, pd + name_bytes(d.name).len() + 5, fields_bytes(d.fields.take(j))),
        at(
            b,
            pd + name_bytes(d.name).len() + 5 + fields_bytes(d.fields.take(j)).len(),
            name_bytes(d.fields[j].name),
        ),
        pd + tag_offset(d, j) < b.len(),
        b[pd + tag_offset(d, j)] == d.fields[j].type_id.spec_tag(),
{
    let fs = d.fields;
    let f = fs[j];
    let nb = name_bytes(d.name);
    let cb = spec_u32_to_le_bytes(fs.len() as u32);
    let fbefore = fields_bytes(fs.take(j));
    let fafter = fields_bytes(fs.skip(j + 1));
    let fnb = name_bytes(f.name);
    let mid = seq![f.type_id.spec_tag(), flag_byte(f.is_array)];
    let vb = value_bytes(f.type_id, f.value);
    lemma_auto_spec_u32_to_from_le_bytes();
    lemma_fields_bytes_split(fs, j);
    assert(fs.skip(j)[0] == f);
    assert(fs.skip(j).drop_first() =~= fs.skip(j + 1));
    assert(fields_bytes(fs.skip(j)) == field_bytes(f) + fafter);
    assert(def_bytes(d) == nb + seq![kind_tag(d.kind)] + cb + (fbefore + (field_bytes(f) + fafter)));
    let pf0: int = pd + nb.len() + 5;
    let pf: int = pf0 + fbefore.len();
    lemma_at_split(b, pd, nb + seq![kind_tag(d.kind)] + cb, fbefore + (field_bytes(f) + fafter));
    lemma_at_split(b, pd, nb + seq![kind_tag(d.kind)], cb);
    lemma_at_split(b, pd, nb, seq![kind_tag(d.kind)]);
    lemma_at_split(b, pf0, fbefore, field_bytes(f) + fafter);
    lemma_at_split(b, pf, field_bytes(f), fafter);
    lemma_at_split(b, pf, fnb + mid, vb);
    lemma_at_split(b, pf, fnb, mid);
    let t = pf + fnb.len();
    assert(b[t] == b.subrange(t, t + 2)[0]);
}

/// A definition whose field `j` carries a byte that is no type tag fails to
/// read with `UnknownTag`.
proof fn lemma_bad_tag_def(c: Seq<u8>, pd: int, d: DefModel, j: int)
    requires
        d.encodable(),
        d.valid(),
        0 <= j < d.fields.len(),
        at(c, pd, name_bytes(d.name)),
        at(c, pd + name_bytes(d.name).len(), seq![0u8]),
        at(c, pd + name_bytes(d.name).len() + 1, spec_u32_to_le_bytes(d.fields.len() as u32)),
        at(c, pd + name_bytes(d.name).len() + 5, fields_bytes(d.fields.take(j))),
        at(
            c,
            pd + name_bytes(d.name).len() + 5 + fields_bytes(d.fields.take(j)).len(),
            name_bytes(d.fields[j].name),
        ),
        pd + tag_offset(d, j) < c.len(),
        TypeId::spec_from_tag(c[pd + tag_offset(d, j)]) is None,
    ensures
        read_def(c, pd) == Err::<(DefModel, int), SchemaError>(SchemaError::UnknownTag),
{
    let fs = d.fields;
    let nb = name_bytes(d.name);
    let pf0: int = pd + nb.len() + 5;
    let pf: int = pf0 + fields_bytes(fs.take(j)).len();
    lemma_read_name(c, pd, d.name);
    assert(c[pd + nb.len()] == c.subrange(pd + nb.len(), pd + nb.len() + 1)[0]);
    lemma_read_u32(c, pd + nb.len() + 1, fs.len() as u32);
    assert forall|k: int| 0 <= k < fs.take(j).len() implies name_fits(
        #[trigger] fs.take(j)[k].name,
    ) && fs.take(j)[k].type_id.holds(fs.take(j)[k].value) by {
        assert(fs.take(j)[k] == fs[k]);
    }
    lemma_read_fields(c, pf0, fs.take(j), seq![]);
    lemma_fields_then(c, pf0, j as nat, (fs.len() - j) as nat, seq![]);
    lemma_read_name(c, pf, fs[j].name);
    assert(read_field(c, pf) == Err::<(FieldModel, int), SchemaError>(SchemaError::UnknownTag));
    assert(read_fields(c, pf, (fs.len() - j) as nat, seq![] + fs.take(j)) == Err::<
        (Seq<FieldModel>, int),
        SchemaError,
    >(SchemaError::UnknownTag));
}

/// In the persisted form of a valid schema, replacing the type tag of any
/// field by a byte that is no type tag makes decoding fail with `UnknownTag`.
#[verifier::rlimit(50)]
pub proof fn lemma_unknown_type_tag_rejected(s: SchemaModel, i: int, j: int, x: u8)
    requires
        s.valid(),
        s.encodable(),
        0 <= i < s.defs.len(),
        0 <= j < s.defs[i].fields.len(),
        TypeId::spec_from_tag(x) is None,
    ensures
        schema_bytes(s)[tag_pos(s, i, j)] == s.defs[i].fields[j].type_id.spec_tag(),
        parse_schema(schema_bytes(s).update(tag_pos(s, i, j), x)) == Err::<
            SchemaModel,
            SchemaError,
        >(SchemaError::UnknownTag),
{
    lemma_auto_spec_u32_to_from_le_bytes();
    let ds = s.defs;
    let d = ds[i];
    let b = schema_bytes(s);
    let t = tag_pos(s, i, j);
    let c = b.update(t, x);
    let u = spec_u32_to_le_bytes(ds.len() as u32);
    let before = defs_bytes(ds.take(i));
    let after = defs_bytes(ds.skip(i + 1));
    let nb = name_bytes(d.name);
    lemma_defs_bytes_split(ds, i);
    assert(ds.skip(i)[0] == d);
    assert(ds.skip(i).drop_first() =~= ds.skip(i + 1));
    assert(defs_bytes(ds.skip(i)) == def_bytes(d) + after);
    assert(b == u + (before + (def_bytes(d) + after)));
    assert(b.subrange(0, b.len() as int) =~= b);
    let pd: int = 4 + before.len() as int;
    lemma_at_split(b, 0, u, before + (def_bytes(d) + after));
    lemma_at_split(b, 4, before, def_bytes(d) + after);
    lemma_at_split(b, pd, def_bytes(d), after);
    lemma_def_pieces(b, pd, d, j);
    let pf0: int = pd + nb.len() + 5;
    let pf: int = pf0 + fields_bytes(d.fields.take(j)).len();
    lemma_at_update(b, t, x, 0, u);
    lemma_at_update(b, t, x, 4, before);
    lemma_at_update(b, t, x, pd, nb);
    lemma_at_update(b, t, x, pd + nb.len(), seq![0u8]);
    lemma_at_update(b, t, x, pd + nb.len() + 1, spec_u32_to_le_bytes(d.fields.len() as u32));
    lemma_at_update(b, t, x, pf0, fields_bytes(d.fields.take(j)));
    lemma_at_update(b, t, x, pf, name_bytes(d.fields[j].name));
    lemma_read_u32(c, 0, ds.len() as u32);
    assert forall|k: int| 0 <= k < ds.take(i).len() implies (#[trigger] ds.take(i)[k]).encodable()
        && ds.take(i)[k].valid() by {
        assert(ds.take(i)[k] == ds[k]);
    }
    lemma_read_defs(c, 4, ds.take(i), seq![]);
    lemma_defs_then(c, 4, i as nat, (ds.len() - i) as nat, seq![]);
    lemma_bad_tag_def(c, pd, d, j);
    assert(read_defs(c, pd, (ds.len() - i) as nat, seq![] + ds.take(i)) == Err::<
        (Seq<DefModel>, int),
        SchemaError,
    >(SchemaError::UnknownTag));
}

} // verus!
