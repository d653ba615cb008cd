//! Reading raw value payloads against a definition of a loaded schema.
use vstd::prelude::*;
use crate::codec::{get_value, read_u32, read_value};
use crate::schema::{FieldModel, Schema, SchemaError, SchemaModel, TypeId};

verus! {

/// What one field of a payload decodes to. Four-byte types keep their bits
/// as a `u32` (a float is its IEEE-754 bit pattern); a Byte is widened.
#[derive(Clone, Debug, PartialEq, Eq)]
pub enum FieldValue {
    Scalar(u32),
    Array(Vec<u32>),
}

/// Mathematical content of a decoded field.
pub enum FieldValueModel {
    Scalar(u32),
    Array(Seq<u32>),
}

/// One decoded instance of a definition: a value per field, in field order.
#[derive(Clone, Debug, PartialEq, Eq)]
pub struct Value {
    pub fields: Vec<FieldValue>,
}

impl View for FieldValue {
    type V = FieldValueModel;

    open spec fn view(&self) -> FieldValueModel {
        match self {
            FieldValue::Scalar(x) => FieldValueModel::Scalar(*x),
            FieldValue::Array(v) => FieldValueModel::Array(v@),
        }
    }
}

pub open spec fn values_model(vs: Seq<FieldValue>) -> Seq<FieldValueModel> {
    vs.map_values(|v: FieldValue| v@)
}

impl View for Value {
    type V = Seq<FieldValueModel>;

    open spec fn view(&self) -> Seq<FieldValueModel> {
        values_model(self.fields@)
    }
}

pub open spec fn read_elems(b: Seq<u8>, pos: int, t: TypeId, n: nat, acc: Seq<u32>) -> Result<
    (Seq<u32>, int),
    SchemaError,
>
    decreases n,
{
    if n == 0 {
        Ok((acc, pos))
    } else {
        match read_value(b, pos, t) {
            Err(e) => Err(e),
            Ok((x, p)) => read_elems(b, p, t, (n - 1) as nat, acc.push(x)),
        }
    }
}

/// Reads the payload of one field: a scalar of the type's width, or a `u32`
/// element count followed by that many elements.
pub open spec fn read_slot(b: Seq<u8>, pos: int, f: FieldModel) -> Result<
    (FieldValueModel, int),
    SchemaError,
> {
    if f.type_id.spec_value_width() is None {
        Err(SchemaError::UnsupportedType)
    } else if f.is_array {
        match read_u32(b, pos) {
            Err(e) => Err(e),
            Ok((n, p)) => match read_elems(b, p, f.type_id, n as nat, seq![]) {
                Err(e) => Err(e),
                Ok((xs, q)) => Ok((FieldValueModel::Array(xs), q)),
            },
        }
    } else {
        match read_value(b, pos, f.type_id) {
            Err(e) => Err(e),
            Ok((x, p)) => Ok((FieldValueModel::Scalar(x), p)),
        }
    }
}

pub open spec fn read_slots(
    b: Seq<u8>,
    pos: int,
    fs: Seq<FieldModel>,
    acc: Seq<FieldValueModel>,
) -> Result<(Seq<FieldValueModel>, int), SchemaError>
    decreases fs.len(),
{
    if fs.len() == 0 {
        Ok((acc, pos))
    } else {
        match read_slot(b, pos, fs[0]) {
            Err(e) => Err(e),
            Ok((v, p)) => read_slots(b, p, fs.drop_first(), acc.push(v)),
        }
    }
}

/// What decoding `b` as an instance of definition `idx` of `s` gives; bytes
/// after the last field are not read.
pub open spec fn decode_value_spec(s: SchemaModel, idx: int, b: Seq<u8>) -> Result<
    Seq<FieldValueModel>,
    SchemaError,
> {
    if !(0 <= idx < s.defs.len()) {
        Err(SchemaError::UnknownDefinition)
    } else {
        match read_slots(b, 0, s.defs[idx].fields, seq![]) {
            Err(e) => Err(e),
            Ok((vs, p)) => Ok(vs),
        }
    }
}

/// The outcome of a value decode, as a model.
pub open spec fn outcome(r: Result<Value, SchemaError>) -> Result<Seq<FieldValueModel>, SchemaError> {
    match r {
        Ok(v) => Ok(v@),
        Err(e) => Err(e),
    }
}

fn get_slot(b: &[u8], pos: usize, f: &crate::schema::Field) -> (r: Result<
    (FieldValue, usize),
    SchemaError,
>)
    requires
        pos <= b@.len(),
    ensures
        match r {
            Ok((v, p)) => read_slot(b@, pos as int, f@) == Ok::<(FieldValueModel, int), SchemaError>(
                (v@, p as int),
            ),
            Err(e) => read_slot(b@, pos as int, f@) == Err::<(FieldValueModel, int), SchemaError>(e),
        },
        r matches Ok((_, q)) ==> q <= b@.len(),
{
    if f.type_id.value_width().is_none() {
        return Err(SchemaError::UnsupportedType);
    }
    if !f.is_array {
        return match get_value(b, pos, f.type_id) {
            Ok((x, p)) => Ok((FieldValue::Scalar(x), p)),
            Err(e) => Err(e),
        };
    }
    let (n, p0) = match get_value(b, pos, TypeId::Int) {
        Ok(v) => v,
        Err(e) => return Err(e),
    };
    let mut acc: Vec<u32> = Vec::new();
    let mut p: usize = p0;
    let mut k: u32 = n;
    while k > 0
        invariant
            p <= b@.len(),
            f.is_array,
            f.type_id.spec_value_width() is Some,
            read_u32(b@, pos as int) == Ok::<(u32, int), SchemaError>((n, p0 as int)),
            read_elems(b@, p0 as int, f.type_id, n as nat, seq![]) == read_elems(
                b@,
                p as int,
                f.type_id,
                k as nat,
                acc@,
            ),
        decreases k,
    {
        match get_value(b, p, f.type_id) {
            Ok((x, q)) => {
                acc.push(x);
                p = q;
                k = k - 1;
            },
            Err(e) => {
                assert(read_elems(b@, p as int, f.type_id, k as nat, acc@) == Err::<
                    (Seq<u32>, int),
                    SchemaError,
                >(e));
                return Err(e);
            },
        }
    }
    Ok((FieldValue::Array(acc), p))
}

impl Schema {
    /// Reads `bytes` as one instance of definition `def_index`, field by
    /// field in order. Fails with `UnknownDefinition` where there is no such
    /// definition, with `UnsupportedType` at a field whose type has no
    /// payload width, and with `TruncatedInput` where the bytes run out.
    pub fn decode_value(&self, def_index: usize, bytes: &[u8]) -> (r: Result<Value, SchemaError>)
        ensures
            outcome(r) == decode_value_spec(self@, def_index as int, bytes@),
            def_index >= self.defs@.len() ==> r == Err::<Value, SchemaError>(
                SchemaError::UnknownDefinition,
            ),
    {
        if def_index >= self.defs.len() {
            return Err(SchemaError::UnknownDefinition);
        }
        let fields = &self.defs[def_index].fields;
        let ghost fs = self@.defs[def_index as int].fields;
        assert(fs == crate::schema::fields_model(fields@));
        let mut acc: Vec<FieldValue> = Vec::new();
        let mut p: usize = 0;
        let mut i: usize = 0;
        assert(fs.subrange(0, fs.len() as int) =~= fs);
        assert(values_model(acc@) =~= seq![]);
        while i < fields.len()
            invariant
                fs == crate::schema::fields_model(fields@),
                fs == self@.defs[def_index as int].fields,
                def_index < self.defs@.len(),
                0 <= i <= fields@.len(),
                p <= bytes@.len(),
                read_slots(bytes@, 0, fs, seq![]) == read_slots(
                    bytes@,
                    p as int,
                    fs.subrange(i as int, fs.len() as int),
                    values_model(acc@),
                ),
            decreases fields@.len() - i,
        {
            let ghost rest = fs.subrange(i as int, fs.len() as int);
            assert(rest[0] == fs[i as int]);
            assert(rest.drop_first() =~= fs.subrange(i + 1, fs.len() as int));
            match get_slot(bytes, p, &fields[i]) {
                Ok((v, q)) => {
                    proof {
                        assert(values_model(acc@.push(v)) =~= values_model(acc@).push(v@));
                    }
                    acc.push(v);
                    p = q;
                    i += 1;
                },
                Err(e) => return Err(e),
            }
        }
        Ok(Value { fields: acc })
    }
}

/// Decoding the same definition of the same schema from the same bytes twice
/// gives the same outcome.
pub proof fn lemma_value_decode_deterministic(
    s: SchemaModel,
    idx: int,
    b: Seq<u8>,
    r1: Result<Seq<FieldValueModel>, SchemaError>,
    r2: Result<Seq<FieldValueModel>, SchemaError>,
)
    requires
        r1 == decode_value_spec(s, idx, b),
        r2 == decode_value_spec(s, idx, b),
    ensures
        r1 == r2,
{
}

} // verus!
