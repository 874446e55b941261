//! Byte-level text helpers: every piece of text in the library (source code,
//! identifiers, string values, error messages) is held as UTF-8 bytes.
use vstd::prelude::*;

verus! {

/// The ASCII decimal digits of a natural number, most significant first.
pub open spec fn digits_of(n: nat) -> Seq<u8>
    decreases n,
{
    if n < 10 {
        seq![(48 + n) as u8]
    } else {
        digits_of(n / 10).push((48 + n % 10) as u8)
    }
}

/// The decimal text of an integer, with a leading `-` for negative values.
pub open spec fn int_text(n: int) -> Seq<u8> {
    if n < 0 {
        seq![45u8] + digits_of((-n) as nat)
    } else {
        digits_of(n as nat)
    }
}

/// The UTF-8 bytes of a string slice.
pub open spec fn str_bytes(s: &str) -> Seq<u8> {
    vstd::string::StringSliceAdditionalSpecFns::spec_bytes(s)
}

/// Appends the decimal digits of `n` to `out`.
pub fn push_digits(out: &mut Vec<u8>, n: u64)
    ensures
        final(out)@ == old(out)@ + digits_of(n as nat),
    decreases n,
{
    if n < 10 {
        out.push((48 + n) as u8);
    } else {
        push_digits(out, n / 10);
        out.push((48 + n % 10) as u8);
    }
}

/// Appends the decimal text of `n` to `out`.
pub fn push_int(out: &mut Vec<u8>, n: i64)
    ensures
        final(out)@ == old(out)@ + int_text(n as int),
{
    if n < 0 {
        out.push(45u8);
        let mag: u64 = if n == i64::MIN {
            9223372036854775808u64
        } else {
            (-n) as u64
        };
        push_digits(out, mag);
        assert(final(out)@ =~= old(out)@ + int_text(n as int));
    } else {
        push_digits(out, n as u64);
    }
}

/// Appends the bytes of `s` to `out`.
pub fn push_str(out: &mut Vec<u8>, s: &str)
    ensures
        final(out)@ == old(out)@ + str_bytes(s),
{
    let b = s.as_bytes();
    push_bytes(out, b);
}

/// Appends `b` to `out`.
pub fn push_bytes(out: &mut Vec<u8>, b: &[u8])
    ensures
        final(out)@ == old(out)@ + b@,
{
    let ghost start = out@;
    let mut i: usize = 0;
    while i < b.len()
        invariant
            i <= b@.len(),
            out@ == start + b@.subrange(0, i as int),
        decreases b@.len() - i,
    {
        out.push(b[i]);
        i = i + 1;
        assert(out@ =~= start + b@.subrange(0, i as int));
    }
    assert(b@.subrange(0, b@.len() as int) =~= b@);
}

/// `b` starts with `a`: it is `a` with more bytes appended.
pub open spec fn extends(a: Seq<u8>, b: Seq<u8>) -> bool {
    &&& a.len() <= b.len()
    &&& b.subrange(0, a.len() as int) == a
}

pub proof fn lemma_extends_refl(a: Seq<u8>)
    ensures
        extends(a, a),
{
    assert(a.subrange(0, a.len() as int) =~= a);
}

pub proof fn lemma_extends_trans(a: Seq<u8>, b: Seq<u8>, c: Seq<u8>)
    requires
        extends(a, b),
        extends(b, c),
    ensures
        extends(a, c),
{
    assert(c.subrange(0, a.len() as int) =~= c.subrange(0, b.len() as int).subrange(0, a.len() as int));
}

pub proof fn lemma_extends_append(a: Seq<u8>, t: Seq<u8>)
    ensures
        extends(a, a + t),
{
    assert((a + t).subrange(0, a.len() as int) =~= a);
}

/// A fresh byte vector holding the bytes of `s`.
pub fn text(s: &str) -> (r: Vec<u8>)
    ensures
        r@ == str_bytes(s),
{
    let mut r: Vec<u8> = Vec::new();
    push_str(&mut r, s);
    assert(r@ =~= str_bytes(s));
    r
}

/// A copy of a byte vector.
pub fn copy_bytes(b: &Vec<u8>) -> (r: Vec<u8>)
    ensures
        r@ == b@,
{
    let mut r: Vec<u8> = Vec::new();
    push_bytes(&mut r, b.as_slice());
    assert(r@ =~= b@);
    r
}

/// Byte-wise equality of two texts.
pub fn bytes_eq(a: &[u8], b: &[u8]) -> (r: bool)
    ensures
        r == (a@ == b@),
{
    if a.len() != b.len() {
        return false;
    }
    let mut i: usize = 0;
    while i < a.len()
        invariant
            a@.len() == b@.len(),
            i <= a@.len(),
            forall|j: int| 0 <= j < i ==> a@[j] == b@[j],
        decreases a@.len() - i,
    {
        if a[i] != b[i] {
            return false;
        }
        i = i + 1;
    }
    assert(a@ =~= b@);
    true
}

/// Strict lexicographic byte order, the order of Rust's `str`/`String`.
pub open spec fn bytes_lt(a: Seq<u8>, b: Seq<u8>) -> bool
    decreases a.len(),
{
    if a.len() == 0 {
        b.len() > 0
    } else if b.len() == 0 {
        false
    } else if a[0] != b[0] {
        a[0] < b[0]
    } else {
        bytes_lt(a.drop_first(), b.drop_first())
    }
}

/// Lexicographic comparison of two texts: `a < b`.
pub fn bytes_less(a: &[u8], b: &[u8]) -> (r: bool)
    ensures
        r == bytes_lt(a@, b@),
{
    let mut i: usize = 0;
    assert(a@.skip(0) =~= a@);
    assert(b@.skip(0) =~= b@);
    while i < a.len() && i < b.len() && a[i] == b[i]
        invariant
            i <= a@.len(),
            i <= b@.len(),
            bytes_lt(a@, b@) == bytes_lt(a@.skip(i as int), b@.skip(i as int)),
        decreases a@.len() - i,
    {
        proof {
            let sa = a@.skip(i as int);
            let sb = b@.skip(i as int);
            assert(sa.drop_first() =~= a@.skip(i + 1));
            assert(sb.drop_first() =~= b@.skip(i + 1));
        }
        i = i + 1;
    }
    proof {
        let sa = a@.skip(i as int);
        let sb = b@.skip(i as int);
        if i < a@.len() {
            assert(sa[0] == a@[i as int]);
        }
        if i < b@.len() {
            assert(sb[0] == b@[i as int]);
        }
    }
    if i == a.len() {
        i < b.len()
    } else if i == b.len() {
        false
    } else {
        a[i] < b[i]
    }
}

/// True for the bytes that begin a UTF-8 encoded character.
pub open spec fn is_char_start(b: u8) -> bool {
    !(0x80 <= b && b <= 0xbf)
}

/// The number of characters in UTF-8 text: the count of its non-continuation bytes.
pub open spec fn char_count(s: Seq<u8>) -> nat
    decreases s.len(),
{
    if s.len() == 0 {
        0
    } else {
        char_count(s.drop_last()) + if is_char_start(s.last()) { 1nat } else { 0nat }
    }
}

/// Counts the characters of UTF-8 text.
pub fn count_chars(s: &[u8]) -> (r: usize)
    ensures
        r == char_count(s@),
{
    let mut i: usize = 0;
    let mut n: usize = 0;
    while i < s.len()
        invariant
            i <= s@.len(),
            n == char_count(s@.subrange(0, i as int)),
            n <= i,
        decreases s@.len() - i,
    {
        assert(s@.subrange(0, i + 1).drop_last() =~= s@.subrange(0, i as int));
        if !(0x80u8 <= s[i] && s[i] <= 0xbfu8) {
            n = n + 1;
        }
        i = i + 1;
    }
    assert(s@.subrange(0, s@.len() as int) =~= s@);
    n
}

/// Characters counted in `a` followed by `b` are those of `a` and those of `b`.
pub proof fn lemma_char_count_concat(a: Seq<u8>, b: Seq<u8>)
    ensures
        char_count(a + b) == char_count(a) + char_count(b),
    decreases b.len(),
{
    if b.len() == 0 {
        assert(a + b =~= a);
    } else {
        assert((a + b).drop_last() =~= a + b.drop_last());
        assert((a + b).last() == b.last());
        lemma_char_count_concat(a, b.drop_last());
    }
}

/// A start byte followed only by continuation bytes is one character.
proof fn lemma_char_count_one(b: Seq<u8>)
    requires
        b.len() >= 1,
        is_char_start(b[0]),
        forall|k: int| 1 <= k < b.len() ==> !is_char_start(#[trigger] b[k]),
    ensures
        char_count(b) == 1,
    decreases b.len(),
{
    let d = b.drop_last();
    if b.len() == 1 {
        assert(d =~= Seq::<u8>::empty());
        assert(char_count(d) == 0);
        assert(is_char_start(b.last()));
    } else {
        assert(d[0] == b[0]);
        assert forall|k: int| 1 <= k < d.len() implies !is_char_start(#[trigger] d[k]) by {
            assert(d[k] == b[k]);
        }
        lemma_char_count_one(d);
        assert(!is_char_start(b[b.len() - 1]));
    }
}

/// The UTF-8 encoding of a character sequence counts one character per `char`.
proof fn lemma_char_count_encode(chars: Seq<char>)
    ensures
        char_count(vstd::utf8::encode_utf8(chars)) == chars.len(),
    decreases chars.len(),
{
    if chars.len() > 0 {
        let first = vstd::utf8::encode_scalar(chars[0] as u32);
        let rest = vstd::utf8::encode_utf8(chars.drop_first());
        let all = vstd::utf8::encode_utf8(chars);
        vstd::utf8::encode_utf8_first_scalar(chars);
        assert(all == first + rest);
        assert(all.subrange(0, first.len() as int) =~= first);
        assert forall|k: int| 1 <= k < first.len() implies !is_char_start(#[trigger] first[k]) by {
            assert(first[k] == all[k]);
        }
        lemma_char_count_one(first);
        lemma_char_count_encode(chars.drop_first());
        lemma_char_count_concat(first, rest);
    }
}

/// Counting characters in valid UTF-8 gives the number of characters it
/// decodes to: every character, whatever the width of its encoding, counts
/// once.
pub proof fn lemma_char_count_decodes(b: Seq<u8>)
    requires
        vstd::utf8::valid_utf8(b),
    ensures
        char_count(b) == vstd::utf8::decode_utf8(b).len(),
{
    vstd::utf8::decode_utf8_encode_utf8(b);
    lemma_char_count_encode(vstd::utf8::decode_utf8(b));
}

/// The characters counted in a string slice's bytes are the `char`s of the
/// string.
pub proof fn lemma_char_count_str(s: &str)
    ensures
        char_count(str_bytes(s)) == s@.len(),
{
    lemma_char_count_encode(s@);
}

} // verus!
