//! Turning spans of UTF-8 source bytes into owned text.
use vstd::prelude::*;
use vstd::utf8::*;

verus! {

/// Relies on `std::str::from_utf8`: bytes that are valid UTF-8 are accepted
/// and read as the text that they encode.
#[verifier::external_body]
pub(crate) fn utf8_string(b: &[u8]) -> (r: String)
    requires
        valid_utf8(b@),
    ensures
        encode_utf8(r@) == b@,
{
    match std::str::from_utf8(b) {
        Ok(s) => s.to_string(),
        Err(_) => String::new(),
    }
}

/// A copy of the bytes `[start, end)` of `source`.
pub fn copy_span(source: &[u8], start: usize, end: usize) -> (r: Vec<u8>)
    requires
        start <= end <= source@.len(),
    ensures
        r@ == source@.subrange(start as int, end as int),
{
    let mut r: Vec<u8> = Vec::new();
    let mut k: usize = start;
    while k < end
        invariant
            start <= k <= end <= source@.len(),
            r@ == source@.subrange(start as int, k as int),
        decreases end - k,
    {
        r.push(source[k]);
        k = k + 1;
        assert(r@ =~= source@.subrange(start as int, k as int));
    }
    r
}

pub open spec fn all_ascii(b: Seq<u8>) -> bool {
    forall|k: int| 0 <= k < b.len() ==> #[trigger] b[k] < 128
}

/// Where valid UTF-8 starts with an ASCII byte, what follows it is valid UTF-8 too.
pub proof fn lemma_valid_after_ascii(b: Seq<u8>)
    requires
        valid_utf8(b),
        b.len() > 0,
        b[0] < 128,
    ensures
        valid_utf8(b.subrange(1, b.len() as int)),
{
    assert(pop_first_scalar(b) =~= b.subrange(1, b.len() as int));
}

/// A sequence of ASCII bytes is valid UTF-8.
pub proof fn lemma_ascii_valid(b: Seq<u8>)
    requires
        all_ascii(b),
    ensures
        valid_utf8(b),
    decreases b.len(),
{
    if b.len() > 0 {
        let c = b[0];
        assert(c < 128);
        assert((c & 0x7f) <= 0x7f) by (bit_vector);
        let rest = b.subrange(1, b.len() as int);
        assert(pop_first_scalar(b) =~= rest);
        lemma_ascii_valid(rest);
    }
}

/// The bytes strictly between two double quotes of valid UTF-8 are valid UTF-8.
pub proof fn lemma_valid_between_quotes(b: Seq<u8>, a: int, e: int)
    requires
        valid_utf8(b),
        0 <= a < e < b.len(),
        b[a] == 34,
        b[e] == 34,
    ensures
        valid_utf8(b.subrange(a + 1, e)),
{
    is_char_boundary_iff_not_is_continuation_byte(b, a);
    valid_utf8_split(b, a);
    let tail = b.subrange(a, b.len() as int);
    lemma_valid_after_ascii(tail);
    let c = tail.subrange(1, tail.len() as int);
    assert(c =~= b.subrange(a + 1, b.len() as int));
    let k = e - a - 1;
    assert(c[k] == b[e]);
    is_char_boundary_iff_not_is_continuation_byte(c, k);
    valid_utf8_split(c, k);
    assert(c.subrange(0, k) =~= b.subrange(a + 1, e));
}

} // verus!
