//! Character-level view of strings: byte lengths and slicing helpers.
//!
//! Strings are modelled by their sequence of `char`s (`s@`). Several rules of
//! the library compare byte lengths (the length of the UTF-8 encoding), so this
//! module relates the two measures.
use vstd::prelude::*;
use vstd::utf8::*;

verus! {

/// Number of bytes in the UTF-8 encoding of `s` (what `str::len` returns).
pub open spec fn byte_len(s: Seq<char>) -> nat {
    encode_utf8(s).len()
}

/// `s` with everything from position `k` on kept; empty when `k` is past the end.
pub open spec fn skip_chars(s: Seq<char>, k: int) -> Seq<char> {
    if k >= s.len() {
        Seq::empty()
    } else {
        s.subrange(k, s.len() as int)
    }
}

/// The first `k` characters of `s`, or all of `s` when it is shorter.
pub open spec fn take_chars(s: Seq<char>, k: int) -> Seq<char> {
    if k >= s.len() {
        s
    } else {
        s.subrange(0, k)
    }
}

/// The encoding of a concatenation is the concatenation of the encodings.
proof fn lemma_encode_concat(a: Seq<char>, b: Seq<char>)
    ensures
        encode_utf8(a + b) == encode_utf8(a) + encode_utf8(b),
    decreases a.len(),
{
    if a.len() == 0 {
        assert(a + b =~= b);
        assert(encode_utf8(a) + encode_utf8(b) =~= encode_utf8(b));
    } else {
        assert((a + b).drop_first() =~= a.drop_first() + b);
        lemma_encode_concat(a.drop_first(), b);
        assert(encode_utf8(a + b) =~= encode_scalar(a[0] as u32) + encode_utf8(a.drop_first() + b));
        assert(encode_utf8(a + b) =~= encode_utf8(a) + encode_utf8(b));
    }
}

/// Byte length is additive over concatenation.
pub proof fn lemma_byte_len_concat(a: Seq<char>, b: Seq<char>)
    ensures
        byte_len(a + b) == byte_len(a) + byte_len(b),
{
    lemma_encode_concat(a, b);
}

/// The bytes of a text are those of its part before position `k` and those
/// of its part from `k` on.
pub proof fn lemma_byte_len_split(s: Seq<char>, k: int)
    requires
        0 <= k <= s.len(),
    ensures
        byte_len(s) == byte_len(s.subrange(0, k)) + byte_len(s.subrange(k, s.len() as int)),
{
    assert(s =~= s.subrange(0, k) + s.subrange(k, s.len() as int));
    lemma_byte_len_concat(s.subrange(0, k), s.subrange(k, s.len() as int));
}

/// Every character takes at least one byte.
pub proof fn lemma_byte_len_ge(s: Seq<char>)
    ensures
        byte_len(s) >= s.len(),
    decreases s.len(),
{
    if s.len() > 0 {
        lemma_byte_len_ge(s.drop_first());
    }
}

/// An ASCII text has as many bytes as characters.
pub proof fn lemma_byte_len_ascii(s: Seq<char>)
    requires
        is_ascii_chars(s),
    ensures
        byte_len(s) == s.len(),
{
    is_ascii_chars_encode_utf8(s);
}

/// The UTF-8 length of a text, computed from its byte slice.
pub fn byte_len_of(s: &str) -> (n: usize)
    ensures
        n == byte_len(s@),
{
    s.as_bytes().len()
}

/// The characters of a text, in order.
pub fn chars_of(s: &str) -> (v: Vec<char>)
    ensures
        v@ == s@,
{
    let n = s.unicode_len();
    let mut v: Vec<char> = Vec::new();
    let mut i: usize = 0;
    while i < n
        invariant
            n == s@.len(),
            i <= n,
            v@ == s@.subrange(0, i as int),
        decreases n - i,
    {
        let c = s.get_char(i);
        v.push(c);
        i = i + 1;
        assert(v@ =~= s@.subrange(0, i as int));
    }
    assert(v@ =~= s@);
    v
}

/// The characters of `s` from position `from` (inclusive) to `to` (exclusive), as a new `String`.
pub fn substring(s: &str, from: usize, to: usize) -> (r: String)
    requires
        from <= to <= s@.len(),
    ensures
        r@ == s@.subrange(from as int, to as int),
{
    String::from_str(s.substring_char(from, to))
}

/// The first `k` characters of `s` (all of `s` when it is shorter).
pub fn take_string(s: &str, k: usize) -> (r: String)
    ensures
        r@ == take_chars(s@, k as int),
{
    let n = s.unicode_len();
    if k >= n {
        String::from_str(s)
    } else {
        substring(s, 0, k)
    }
}

/// The characters of `s` from position `k` on (empty when `k` is past the end).
pub fn skip_string(s: &str, k: usize) -> (r: String)
    ensures
        r@ == skip_chars(s@, k as int),
{
    let n = s.unicode_len();
    if k >= n {
        let r = String::new();
        assert(r@ =~= Seq::<char>::empty());
        r
    } else {
        substring(s, k, n)
    }
}

/// The characters of `s` from position `i + w` on (empty when that is past the end).
pub fn skip_string_after(s: &str, i: usize, w: usize) -> (r: String)
    ensures
        r@ == skip_chars(s@, i + w),
{
    let n = s.unicode_len();
    if i >= n || w >= n - i {
        let r = String::new();
        assert(r@ =~= Seq::<char>::empty());
        r
    } else {
        substring(s, i + w, n)
    }
}

} // verus!
