//! File-name conventions for textual and compiled schemas.
use vstd::prelude::*;
use vstd::utf8::encode_utf8;

verus! {

/// `x` ends `s`.
pub open spec fn has_suffix(s: Seq<u8>, x: Seq<u8>) -> bool {
    x.len() <= s.len() && s.subrange(s.len() - x.len(), s.len() as int) == x
}

/// The bytes of `.drgn`, the extension of a textual schema.
pub open spec fn schema_extension() -> Seq<u8> {
    seq![0x2eu8, 0x64u8, 0x72u8, 0x67u8, 0x6eu8]
}

/// The bytes of `.bdrgn`, the extension of a compiled schema.
pub open spec fn binary_schema_extension() -> Seq<u8> {
    seq![0x2eu8, 0x62u8, 0x64u8, 0x72u8, 0x67u8, 0x6eu8]
}

fn ends_with_bytes(s: &[u8], x: &Vec<u8>) -> (r: bool)
    ensures
        r == has_suffix(s@, x@),
{
    if x.len() > s.len() {
        return false;
    }
    let off = s.len() - x.len();
    let mut i: usize = 0;
    while i < x.len()
        invariant
            x@.len() <= s@.len(),
            off == s@.len() - x@.len(),
            0 <= i <= x@.len(),
            forall|k: int| 0 <= k < i ==> s@[off + k] == x@[k],
        decreases x@.len() - i,
    {
        let j: usize = s.len() - x.len() + i;
        if s[j] != x[i] {
            assert(s@.subrange(off as int, s@.len() as int)[i as int] != x@[i as int]);
            return false;
        }
        i += 1;
    }
    assert(s@.subrange(off as int, s@.len() as int) =~= x@);
    true
}

fn bytes_of(a: u8, b: u8, c: u8, d: u8, e: u8) -> (r: Vec<u8>)
    ensures
        r@ == seq![a, b, c, d, e],
{
    let mut v: Vec<u8> = Vec::new();
    v.push(a);
    v.push(b);
    v.push(c);
    v.push(d);
    v.push(e);
    assert(v@ =~= seq![a, b, c, d, e]);
    v
}

/// Whether `name` carries the extension of a textual schema.
pub fn is_schema(name: &str) -> (r: bool)
    ensures
        r == has_suffix(encode_utf8(name@), schema_extension()),
{
    let ext = bytes_of(0x2e, 0x64, 0x72, 0x67, 0x6e);
    ends_with_bytes(name.as_bytes(), &ext)
}

/// Whether `name` carries the extension of a compiled schema.
pub fn is_binary_schema(name: &str) -> (r: bool)
    ensures
        r == has_suffix(encode_utf8(name@), binary_schema_extension()),
{
    let mut ext: Vec<u8> = Vec::new();
    ext.push(0x2e);
    let tail = bytes_of(0x62, 0x64, 0x72, 0x67, 0x6e);
    let mut i: usize = 0;
    while i < tail.len()
        invariant
            0 <= i <= 5,
            tail@.len() == 5,
            ext@ == seq![0x2eu8] + tail@.subrange(0, i as int),
        decreases 5 - i,
    {
        ext.push(tail[i]);
        i += 1;
        assert(ext@ =~= seq![0x2eu8] + tail@.subrange(0, i as int));
    }
    assert(ext@ =~= binary_schema_extension());
    ends_with_bytes(name.as_bytes(), &ext)
}

} // verus!
