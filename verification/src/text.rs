//! Positions in source text: characters, their UTF-8 byte offsets, and
//! slicing a `&str` at character positions.
use vstd::prelude::*;
use vstd::string::StringSliceAdditionalSpecFns;
use vstd::utf8::{encode_utf8, encode_scalar, is_char_boundary};

verus! {

/// Number of bytes of the UTF-8 encoding of `s`.
pub open spec fn byte_len(s: Seq<char>) -> nat {
    encode_utf8(s).len()
}

/// Number of bytes of the UTF-8 encoding of one character.
pub open spec fn char_width(c: char) -> nat {
    encode_scalar(c as u32).len()
}

pub proof fn lemma_encode_append(a: Seq<char>, b: Seq<char>)
    ensures
        encode_utf8(a + b) == encode_utf8(a) + encode_utf8(b),
    decreases a.len(),
{
    if a.len() == 0 {
        assert(a + b =~= b);
        assert(encode_utf8(a) =~= Seq::<u8>::empty());
        assert(encode_utf8(a) + encode_utf8(b) =~= encode_utf8(b));
    } else {
        lemma_encode_append(a.drop_first(), b);
        assert((a + b).drop_first() =~= a.drop_first() + b);
        assert((a + b)[0] == a[0]);
        assert(encode_utf8(a + b) =~= encode_scalar(a[0] as u32) + encode_utf8(a.drop_first() + b));
    }
}

pub proof fn lemma_byte_len_push(a: Seq<char>, c: char)
    ensures
        byte_len(a.push(c)) == byte_len(a) + char_width(c),
{
    lemma_encode_append(a, seq![c]);
    assert(a + seq![c] =~= a.push(c));
    assert(seq![c].drop_first() =~= Seq::<char>::empty());
    assert(encode_utf8(seq![c]) =~= encode_scalar(c as u32) + encode_utf8(Seq::<char>::empty()));
}

pub proof fn lemma_byte_len_take_step(s: Seq<char>, k: int)
    requires
        0 <= k < s.len(),
    ensures
        byte_len(s.take(k + 1)) == byte_len(s.take(k)) + char_width(s[k]),
{
    assert(s.take(k + 1) =~= s.take(k).push(s[k]));
    lemma_byte_len_push(s.take(k), s[k]);
}

pub proof fn lemma_char_width_pos(c: char)
    ensures
        1 <= char_width(c) <= 4,
{
    vstd::utf8::char_is_scalar(c);
}

pub proof fn lemma_byte_len_take_mono(s: Seq<char>, j: int, k: int)
    requires
        0 <= j <= k <= s.len(),
    ensures
        byte_len(s.take(j)) <= byte_len(s.take(k)) <= byte_len(s),
        j < k ==> byte_len(s.take(j)) < byte_len(s.take(k)),
    decreases k - j,
{
    if j < k {
        lemma_byte_len_take_step(s, k - 1);
        lemma_char_width_pos(s[k - 1]);
        lemma_byte_len_take_mono(s, j, k - 1);
    }
    lemma_encode_append(s.take(k), s.skip(k));
    assert(s.take(k) + s.skip(k) =~= s);
}

/// Every character index is a character boundary of the UTF-8 encoding.
pub proof fn lemma_take_is_boundary(s: Seq<char>, k: int)
    requires
        0 <= k <= s.len(),
    ensures
        is_char_boundary(encode_utf8(s), byte_len(s.take(k)) as int),
    decreases k,
{
    broadcast use vstd::utf8::encode_utf8_valid_utf8;
    if k == 0 {
        assert(s.take(0) =~= Seq::<char>::empty());
    } else {
        let bytes = encode_utf8(s);
        let t = s.drop_first();
        vstd::utf8::encode_utf8_first_scalar(s);
        let w = encode_scalar(s[0] as u32).len() as int;
        assert(bytes =~= encode_scalar(s[0] as u32) + encode_utf8(t));
        assert(vstd::utf8::pop_first_scalar(bytes) =~= encode_utf8(t));
        assert(s.take(k).drop_first() =~= t.take(k - 1));
        assert(encode_utf8(s.take(k)) =~= encode_scalar(s[0] as u32) + encode_utf8(t.take(k - 1)));
        lemma_take_is_boundary(t, k - 1);
        lemma_byte_len_take_mono(s, k, s.len() as int);
        assert(s.take(s.len() as int) =~= s);
        lemma_char_width_pos(s[0]);
    }
}

/// The UTF-8 encoding determines the characters.
pub proof fn lemma_encode_injective(a: Seq<char>, b: Seq<char>)
    requires
        encode_utf8(a) == encode_utf8(b),
    ensures
        a == b,
{
    vstd::utf8::encode_utf8_decode_utf8(a);
    vstd::utf8::encode_utf8_decode_utf8(b);
}

/// Width in bytes of the UTF-8 encoding of `c`.
pub fn utf8_width(c: char) -> (n: usize)
    ensures
        n == char_width(c),
{
    proof { vstd::utf8::char_is_scalar(c); }
    let v: u32 = c as u32;
    if v <= 0x7f {
        1
    } else if v <= 0x7ff {
        2
    } else if v <= 0xffff {
        3
    } else {
        4
    }
}

/// The piece of `src` between character positions `ca` and `cb`, given the
/// byte offsets `a` and `b` of those positions.
pub fn slice_chars<'a>(src: &'a str, a: usize, b: usize, Ghost(ca): Ghost<int>, Ghost(cb): Ghost<int>) -> (r: &'a str)
    requires
        0 <= ca <= cb <= src@.len(),
        a == byte_len(src@.take(ca)),
        b == byte_len(src@.take(cb)),
    ensures
        r@ == src@.subrange(ca, cb),
{
    let ghost s = src@;
    proof {
        lemma_take_is_boundary(s, ca);
        lemma_byte_len_take_mono(s, ca, cb);
    }
    let (_, rest) = src.split_at(a);
    let ghost t = s.skip(ca);
    proof {
        lemma_encode_append(s.take(ca), t);
        assert(s.take(ca) + t =~= s);
        assert(rest.spec_bytes() =~= encode_utf8(t));
        lemma_encode_injective(rest@, t);
        assert(t.take(cb - ca) =~= s.subrange(ca, cb));
        assert(s.take(cb) =~= s.take(ca) + s.subrange(ca, cb));
        lemma_encode_append(s.take(ca), s.subrange(ca, cb));
        lemma_take_is_boundary(t, cb - ca);
    }
    let (mid, _) = rest.split_at(b - a);
    proof {
        let u = t.take(cb - ca);
        lemma_encode_append(u, t.skip(cb - ca));
        assert(u + t.skip(cb - ca) =~= t);
        assert(mid.spec_bytes() =~= encode_utf8(u));
        lemma_encode_injective(mid@, u);
    }
    mid
}


/// Whether `c` has the Unicode `White_Space` property: the characters
/// U+0009 to U+000D, U+0020, U+0085, U+00A0, U+1680, U+2000 to U+200A,
/// U+2028, U+2029, U+202F, U+205F and U+3000.
pub open spec fn unicode_white_space(c: char) -> bool {
    let v = c as u32;
    ||| 0x09 <= v <= 0x0D
    ||| v == 0x20
    ||| v == 0x85
    ||| v == 0xA0
    ||| v == 0x1680
    ||| 0x2000 <= v <= 0x200A
    ||| v == 0x2028
    ||| v == 0x2029
    ||| v == 0x202F
    ||| v == 0x205F
    ||| v == 0x3000
}

/// Whether `c` is alphabetic or numeric in the sense of Unicode.
pub uninterp spec fn unicode_alphanumeric(c: char) -> bool;

/// Whether `c` is whitespace, the test that `char::is_whitespace` and
/// `str::trim_start` make.
pub(crate) fn char_is_whitespace(c: char) -> (r: bool)
    ensures
        r == unicode_white_space(c),
{
    let v: u32 = c as u32;
    (0x09 <= v && v <= 0x0D) || v == 0x20 || v == 0x85 || v == 0xA0 || v == 0x1680
        || (0x2000 <= v && v <= 0x200A) || v == 0x2028 || v == 0x2029 || v == 0x202F
        || v == 0x205F || v == 0x3000
}

/// Calls `char::is_alphanumeric`, which by its documentation is true
/// exactly when the character is alphabetic or numeric. The result is given
/// the name `unicode_alphanumeric`; nothing more is claimed of it.
#[verifier::external_body]
pub(crate) fn char_is_alphanumeric(c: char) -> (r: bool)
    ensures
        r == unicode_alphanumeric(c),
{
    c.is_alphanumeric()
}

/// The characters of `src`, in order.
pub fn chars_of(src: &str) -> (v: Vec<char>)
    ensures
        v@ == src@,
{
    let mut v: Vec<char> = Vec::new();
    for c in it: src.chars()
        invariant
            v@ == it.seq().take(it.index() as int),
            it.seq() == src@,
    {
        v.push(c);
    }
    v
}

/// The byte length of `src`, which is that of the UTF-8 encoding of its characters.
pub fn byte_length(src: &str) -> (n: usize)
    ensures
        n == byte_len(src@),
{
    let b = src.as_bytes();
    b.len()
}


/// Whether two strings hold the same characters.
pub fn str_eq(a: &str, b: &str) -> (r: bool)
    ensures
        r == (a@ == b@),
{
    let x = a.as_bytes();
    let y = b.as_bytes();
    if x.len() != y.len() {
        return false;
    }
    let n = x.len();
    let mut i: usize = 0;
    while i < n
        invariant
            n == x@.len(),
            n == y@.len(),
            i <= n,
            x@ == encode_utf8(a@),
            y@ == encode_utf8(b@),
            forall|j: int| 0 <= j < i ==> x@[j] == y@[j],
        decreases n - i,
    {
        if x[i] != y[i] {
            return false;
        }
        i = i + 1;
    }
    proof {
        assert(x@ =~= y@);
        lemma_encode_injective(a@, b@);
    }
    true
}

} // verus!
