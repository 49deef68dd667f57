//! Fixed-capacity descriptor names and UTF-8 helpers
//!
//! Names are held in `arrayvec::ArrayString`s; the items below are the calls
//! into `arrayvec` and `std::str` that the library makes, with the contracts
//! that their sources and documentation give.
use vstd::prelude::*;
use vstd::utf8::*;
use vstd::string::*;
use arrayvec::ArrayString;

verus! {

broadcast use vstd::utf8::encode_utf8_valid_utf8, vstd::utf8::encode_utf8_decode_utf8;

/// `arrayvec::ArrayString`, a string stored inline with a fixed byte capacity
#[verifier::external_type_specification]
#[verifier::external_body]
pub struct ExArrayString<const CAP: usize>(ArrayString<CAP>);

/// The characters that an `ArrayString<49>` holds
pub uninterp spec fn chars49(s: ArrayString<49>) -> Seq<char>;

/// The characters that an `ArrayString<50>` holds
pub uninterp spec fn chars50(s: ArrayString<50>) -> Seq<char>;

/// Number of bytes of the UTF-8 encoding of `chars`
pub open spec fn utf8_len(chars: Seq<char>) -> nat {
    encode_utf8(chars).len()
}

/// `ArrayString::<49>::new_const`: an empty string
#[verifier::external_body]
pub(crate) fn name49_new() -> (s: ArrayString<49>)
    ensures
        chars49(s) == Seq::<char>::empty(),
{
    ArrayString::new_const()
}

/// `ArrayString::<49>::clear`: the string becomes empty
#[verifier::external_body]
pub(crate) fn name49_clear(s: &mut ArrayString<49>)
    ensures
        chars49(*final(s)) == Seq::<char>::empty(),
{
    s.clear()
}

/// `ArrayString::<49>::capacity`: the capacity in bytes, 49
#[verifier::external_body]
pub(crate) fn name49_capacity(s: &ArrayString<49>) -> (cap: usize)
    ensures
        cap == 49,
{
    s.capacity()
}

/// `ArrayString::<49>::push_str`: appends `t`; it panics when the bytes do not
/// fit, which `requires` rules out
#[verifier::external_body]
pub(crate) fn name49_push_str(s: &mut ArrayString<49>, t: &str)
    requires
        utf8_len(chars49(*old(s))) + utf8_len(t@) <= 49,
    ensures
        chars49(*final(s)) == chars49(*old(s)) + t@,
{
    s.push_str(t)
}

/// `ArrayString::<49>::as_str`: the characters held, whose UTF-8 bytes fit
/// in the capacity of 49 bytes
#[verifier::external_body]
pub(crate) fn name49_as_str(s: &ArrayString<49>) -> (t: &str)
    ensures
        t@ == chars49(*s),
        utf8_len(t@) <= 49,
{
    s.as_str()
}

/// `ArrayString::<49>::from`: a string holding `t` when its UTF-8 bytes fit in
/// 49 bytes, else the capacity error (mapped to `None`)
#[verifier::external_body]
pub(crate) fn name49_from(t: &str) -> (s: Option<ArrayString<49>>)
    ensures
        s is Some <==> utf8_len(t@) <= 49,
        s matches Some(a) ==> chars49(a) == t@,
{
    ArrayString::<49>::from(t).ok()
}

/// `ArrayString::<50>::new`: an empty string
#[verifier::external_body]
pub(crate) fn name50_new() -> (s: ArrayString<50>)
    ensures
        chars50(s) == Seq::<char>::empty(),
{
    ArrayString::new()
}

/// `ArrayString::<50>::as_str`: the characters held
#[verifier::external_body]
pub(crate) fn name50_as_str(s: &ArrayString<50>) -> (t: &str)
    ensures
        t@ == chars50(*s),
{
    s.as_str()
}

/// `ArrayString::<50>::from`: a string holding `t` when its UTF-8 bytes fit in
/// 50 bytes, else the capacity error (mapped to `None`)
#[verifier::external_body]
pub(crate) fn name50_from(t: &str) -> (s: Option<ArrayString<50>>)
    ensures
        s is Some <==> utf8_len(t@) <= 50,
        s matches Some(a) ==> chars50(a) == t@,
{
    ArrayString::<50>::from(t).ok()
}

/// `ArrayString::<50>::from_byte_string`: the string of the 50 bytes when they
/// are valid UTF-8, else the UTF-8 error (mapped to `None`)
#[verifier::external_body]
pub(crate) fn name50_from_byte_string(b: &[u8; 50]) -> (s: Option<ArrayString<50>>)
    ensures
        s is Some <==> valid_utf8(b@),
        s matches Some(a) ==> chars50(a) == decode_utf8(b@),
{
    ArrayString::<50>::from_byte_string(b).ok()
}

/// `std::str::from_utf8`: the string that `bytes` encode when they are valid
/// UTF-8, else the error (mapped to `None`)
#[verifier::external_body]
pub(crate) fn str_from_utf8(bytes: &[u8]) -> (s: Option<&str>)
    ensures
        s is Some <==> valid_utf8(bytes@),
        s matches Some(t) ==> t@ == decode_utf8(bytes@),
{
    std::str::from_utf8(bytes).ok()
}

/// Index of the first zero byte of `b`, or its length when it has none
pub open spec fn first_nul(b: Seq<u8>) -> int
    decreases b.len(),
{
    if b.len() == 0 {
        0
    } else if b[0] == 0 {
        0
    } else {
        1 + first_nul(b.drop_first())
    }
}

pub proof fn lemma_first_nul(b: Seq<u8>)
    ensures
        0 <= first_nul(b) <= b.len(),
        first_nul(b) < b.len() ==> b[first_nul(b)] == 0,
        forall|i: int| 0 <= i < first_nul(b) ==> b[i] != 0,
    decreases b.len(),
{
    if b.len() > 0 && b[0] != 0 {
        lemma_first_nul(b.drop_first());
        assert forall|i: int| 0 <= i < first_nul(b) implies b[i] != 0 by {
            if i > 0 {
                assert(b[i] == b.drop_first()[i - 1]);
            }
        }
    }
}

pub proof fn lemma_first_nul_unique(b: Seq<u8>, k: int)
    requires
        0 <= k <= b.len(),
        k < b.len() ==> b[k] == 0,
        forall|i: int| 0 <= i < k ==> b[i] != 0,
    ensures
        first_nul(b) == k,
{
    lemma_first_nul(b);
    if first_nul(b) < k {
        assert(b[first_nul(b)] == 0);
    } else if k < first_nul(b) {
        assert(b[k] != 0);
    }
}

/// Find the first zero byte of `b` (or `b.len()` if none)
pub fn find_nul(b: &[u8]) -> (k: usize)
    ensures
        k == first_nul(b@),
{
    let mut k: usize = 0;
    while k < b.len() && b[k] != 0
        invariant
            k <= b@.len(),
            forall|i: int| 0 <= i < k ==> b@[i] != 0,
        decreases b@.len() - k,
    {
        k = k + 1;
    }
    proof {
        lemma_first_nul_unique(b@, k as int);
    }
    k
}

/// A `char` that is not NUL encodes to non-zero bytes
proof fn lemma_encode_scalar_nonzero(c: u32)
    requires
        is_scalar(c),
        c != 0,
    ensures
        forall|i: int| 0 <= i < encode_scalar(c).len() ==> encode_scalar(c)[i] != 0,
{
    assert(has_width_1_encoding(c) && c != 0 ==> leading_byte_width_1(c) != 0) by (bit_vector);
    assert(leading_byte_width_2(c) != 0) by (bit_vector);
    assert(leading_byte_width_3(c) != 0) by (bit_vector);
    assert(leading_byte_width_4(c) != 0) by (bit_vector);
    assert(last_continuation_byte(c) != 0) by (bit_vector);
    assert(second_last_continuation_byte(c) != 0) by (bit_vector);
    assert(third_last_continuation_byte(c) != 0) by (bit_vector);
}

/// Characters none of which is NUL encode to bytes none of which is zero
pub proof fn lemma_encode_utf8_nonzero(chars: Seq<char>)
    requires
        forall|i: int| 0 <= i < chars.len() ==> chars[i] != '\0',
    ensures
        forall|i: int| 0 <= i < encode_utf8(chars).len() ==> encode_utf8(chars)[i] != 0,
    decreases chars.len(),
{
    if chars.len() > 0 {
        let c = chars[0];
        char_is_scalar(c);
        assert(c as u32 != 0) by {
            if c as u32 == 0 {
                char_u32_cast(c, 0u32);
                assert(0u32 as char == '\0');
            }
        }
        lemma_encode_scalar_nonzero(c as u32);
        let rest = chars.drop_first();
        assert forall|i: int| 0 <= i < rest.len() implies rest[i] != '\0' by {
            assert(rest[i] == chars[i + 1]);
        }
        lemma_encode_utf8_nonzero(rest);
        let e = encode_scalar(c as u32);
        let r = encode_utf8(rest);
        assert(encode_utf8(chars) == e + r);
        assert forall|i: int| 0 <= i < encode_utf8(chars).len() implies encode_utf8(chars)[i] != 0 by {
            if i < e.len() {
                assert(encode_utf8(chars)[i] == e[i]);
            } else {
                assert(encode_utf8(chars)[i] == r[i - e.len()]);
            }
        }
    }
}

} // verus!
