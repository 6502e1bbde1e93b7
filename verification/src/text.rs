//! Characters of the source text: byte offsets of UTF-8 encoded characters,
//! decoding a character at a byte offset, and the Unicode character classes
//! the lexer relies on.
use vstd::prelude::*;
use vstd::utf8::*;

verus! {

/// Byte offset, in the UTF-8 encoding of `cs`, of the character with index `i`.
pub open spec fn byte_offset(cs: Seq<char>, i: int) -> int {
    encode_utf8(cs.subrange(0, i)).len() as int
}

/// The characters encoded between byte offsets `start` and `end` of the
/// encoding of `cs`.
pub open spec fn span_text(cs: Seq<char>, start: int, end: int) -> Seq<char> {
    decode_utf8(encode_utf8(cs).subrange(start, end))
}

/// Number of bytes the UTF-8 encoding of `c` takes.
pub open spec fn utf8_width(c: char) -> int {
    encode_scalar(c as u32).len() as int
}

pub proof fn lemma_encode_utf8_concat(a: Seq<char>, b: Seq<char>)
    ensures
        encode_utf8(a + b) == encode_utf8(a) + encode_utf8(b),
    decreases a.len(),
{
    if a.len() == 0 {
        assert(a + b =~= b);
        assert(encode_utf8(a) + encode_utf8(b) =~= encode_utf8(b));
    } else {
        assert((a + b).drop_first() =~= a.drop_first() + b);
        lemma_encode_utf8_concat(a.drop_first(), b);
        assert(encode_utf8(a + b) =~= encode_scalar(a[0] as u32) + encode_utf8(a.drop_first() + b));
        assert(encode_utf8(a + b) =~= encode_utf8(a) + encode_utf8(b));
    }
}

pub proof fn lemma_width_bounds(c: char)
    ensures
        1 <= utf8_width(c) <= 4,
        (utf8_width(c) == 1) == ((c as u32) < 0x80),
{
    char_is_scalar(c);
}

/// The encoding of the characters from index `i` to `j` is the slice of the
/// whole encoding between their byte offsets.
pub proof fn lemma_encode_subrange(cs: Seq<char>, i: int, j: int)
    requires
        0 <= i <= j <= cs.len(),
    ensures
        0 <= byte_offset(cs, i) <= byte_offset(cs, j) <= encode_utf8(cs).len(),
        encode_utf8(cs.subrange(i, j)) == encode_utf8(cs).subrange(byte_offset(cs, i), byte_offset(cs, j)),
        byte_offset(cs, cs.len() as int) == encode_utf8(cs).len(),
{
    let a = cs.subrange(0, i);
    let b = cs.subrange(i, j);
    let c = cs.subrange(j, cs.len() as int);
    assert(cs =~= a + b + c);
    assert(cs.subrange(0, j) =~= a + b);
    assert(cs.subrange(0, cs.len() as int) =~= cs);
    lemma_encode_utf8_concat(a, b);
    lemma_encode_utf8_concat(a + b, c);
    let ea = encode_utf8(a);
    let eb = encode_utf8(b);
    let ec = encode_utf8(c);
    assert(encode_utf8(cs) == ea + eb + ec);
    assert((ea + eb + ec).subrange(ea.len() as int, (ea.len() + eb.len()) as int) =~= eb);
}

pub proof fn lemma_offset_step(cs: Seq<char>, i: int)
    requires
        0 <= i < cs.len(),
    ensures
        byte_offset(cs, i + 1) == byte_offset(cs, i) + utf8_width(cs[i]),
{
    let a = cs.subrange(0, i);
    assert(cs.subrange(0, i + 1) =~= a + seq![cs[i]]);
    lemma_encode_utf8_concat(a, seq![cs[i]]);
    let one = seq![cs[i]];
    assert(one.drop_first() =~= Seq::<char>::empty());
    assert(encode_utf8(Seq::<char>::empty()) =~= Seq::<u8>::empty());
    assert(encode_utf8(one) =~= encode_scalar(cs[i] as u32) + encode_utf8(one.drop_first()));
}

/// Byte offsets grow strictly with the character index.
pub proof fn lemma_offset_monotonic(cs: Seq<char>, i: int, j: int)
    requires
        0 <= i <= j <= cs.len(),
    ensures
        byte_offset(cs, i) + (j - i) <= byte_offset(cs, j),
    decreases j - i,
{
    if i < j {
        lemma_offset_monotonic(cs, i, j - 1);
        lemma_offset_step(cs, j - 1);
        lemma_width_bounds(cs[j - 1]);
    }
}

/// Facts about the bytes at the offset of character `i`.
pub proof fn lemma_bytes_at(cs: Seq<char>, i: int)
    requires
        0 <= i < cs.len(),
    ensures
        ({
            let bytes = encode_utf8(cs);
            let p = byte_offset(cs, i);
            &&& valid_utf8(bytes)
            &&& p + utf8_width(cs[i]) <= bytes.len()
            &&& is_char_boundary(bytes, p)
            &&& (bytes[p] < 0x80) == ((cs[i] as u32) < 0x80)
            &&& bytes[p] < 0x80 ==> (bytes[p] as char) == cs[i]
            &&& (cs[i] as u32) >= 0x80 ==> !is_char_boundary(bytes, p + 1)
        }),
{
    let bytes = encode_utf8(cs);
    let p = byte_offset(cs, i);
    let n = cs.len() as int;
    lemma_encode_subrange(cs, i, n);
    lemma_offset_step(cs, i);
    lemma_offset_monotonic(cs, i + 1, n);
    let rest = cs.subrange(i, n);
    let rb = encode_utf8(rest);
    assert(rb == bytes.subrange(p, bytes.len() as int));
    encode_utf8_valid_utf8(cs);
    encode_utf8_first_scalar(rest);
    assert(rest[0] == cs[i]);
    assert(rb[0] == bytes[p]);
    let b0 = bytes[p];
    let v = cs[i] as u32;
    char_is_scalar(cs[i]);
    assert(decode_first_scalar(rb) == v);
    is_char_boundary_iff_not_is_continuation_byte(bytes, p);
    if b0 < 0x80 {
        assert(codepoint_width_1(b0) == b0 as u32) by (bit_vector)
            requires b0 < 0x80;
        assert(v == b0 as u32);
        char_u32_cast(cs[i], v);
        assert((b0 as char) == (v as char));
    } else {
        assert(rb.len() >= 2);
        assert(rb[1] == bytes[p + 1]);
        is_char_boundary_iff_not_is_continuation_byte(bytes, p + 1);
        let b1 = rb[1];
        if is_leading_byte_width_2(b0) {
            assert(codepoint_width_2(b0, b1) >= 0x80);
        } else if is_leading_byte_width_3(b0) {
            assert(codepoint_width_3(b0, rb[1], rb[2]) >= 0x800);
        } else {
            assert(codepoint_width_4(b0, rb[1], rb[2], rb[3]) >= 0x10000);
        }
        assert(v >= 0x80);
    }
}


/// Within a valid encoding, a character boundary at `j` stays one in the
/// suffix that starts at the boundary `i <= j`.
pub proof fn lemma_boundary_in_suffix(b: Seq<u8>, i: int, j: int)
    requires
        valid_utf8(b),
        0 <= i <= j <= b.len(),
        is_char_boundary(b, i),
        is_char_boundary(b, j),
    ensures
        valid_utf8(b.subrange(i, b.len() as int)),
        is_char_boundary(b.subrange(i, b.len() as int), j - i),
{
    let t = b.subrange(i, b.len() as int);
    valid_utf8_split(b, i);
    if j < b.len() {
        is_char_boundary_iff_not_is_continuation_byte(b, j);
        is_char_boundary_iff_not_is_continuation_byte(t, j - i);
    } else {
        is_char_boundary_start_end_of_seq(t);
    }
}

/// Two strings are equal exactly when their encodings are.
pub proof fn lemma_encode_injective(a: Seq<char>, b: Seq<char>)
    ensures
        (encode_utf8(a) == encode_utf8(b)) == (a == b),
{
    encode_utf8_decode_utf8(a);
    encode_utf8_decode_utf8(b);
}

/// Whether two strings hold the same characters, decided on their bytes.
pub fn same_text(a: &str, b: &str) -> (r: bool)
    ensures
        r == (a@ == b@),
{
    proof {
        lemma_encode_injective(a@, b@);
    }
    let x = a.as_bytes();
    let y = b.as_bytes();
    if x.len() != y.len() {
        return false;
    }
    let mut k: usize = 0;
    while k < x.len()
        invariant
            x@ == encode_utf8(a@),
            y@ == encode_utf8(b@),
            x@.len() == y@.len(),
            k <= x@.len(),
            forall|m: int| 0 <= m < k ==> x@[m] == y@[m],
        decreases x@.len() - k,
    {
        if x[k] != y[k] {
            return false;
        }
        k = k + 1;
    }
    assert(x@ =~= y@);
    true
}

/// Number of bytes the UTF-8 encoding of `c` takes (what `char::len_utf8`
/// documents).
pub fn utf8_len(c: char) -> (w: usize)
    ensures
        w as int == utf8_width(c),
{
    proof {
        char_is_scalar(c);
    }
    let v = c as u32;
    if v < 0x80 {
        1
    } else if v < 0x800 {
        2
    } else if v < 0x10000 {
        3
    } else {
        4
    }
}

/// The character that starts at byte offset `pos` of `s`, where `pos` is the
/// offset of the character with index `i`.
pub fn char_at_offset(s: &str, pos: usize, Ghost(i): Ghost<int>) -> (c: char)
    requires
        0 <= i < s@.len(),
        pos as int == byte_offset(s@, i),
    ensures
        c == s@[i],
{
    let ghost cs = s@;
    let ghost n = cs.len() as int;
    proof {
        lemma_bytes_at(cs, i);
        lemma_encode_subrange(cs, i, n);
    }
    let (_, rest) = s.split_at(pos);
    proof {
        let tail = cs.subrange(i, n);
        assert(encode_utf8(rest@) == encode_utf8(tail));
        encode_utf8_decode_utf8(rest@);
        encode_utf8_decode_utf8(tail);
        assert(rest@ == tail);
    }
    let mut it = rest.chars();
    match it.next() {
        Some(c) => c,
        None => '\0',
    }
}

/// The characters with indices `i..j` of `s`, cut out at their byte offsets
/// `start` and `end`.
pub fn substring<'a>(s: &'a str, start: usize, end: usize, Ghost(i): Ghost<int>, Ghost(j): Ghost<int>) -> (r: &'a str)
    requires
        0 <= i <= j <= s@.len(),
        start as int == byte_offset(s@, i),
        end as int == byte_offset(s@, j),
    ensures
        r@ == s@.subrange(i, j),
{
    let ghost cs = s@;
    let ghost n = cs.len() as int;
    let ghost b = encode_utf8(cs);
    proof {
        lemma_encode_subrange(cs, i, j);
        lemma_encode_subrange(cs, i, n);
        lemma_encode_subrange(cs, 0, n);
        encode_utf8_valid_utf8(cs);
        if i < n {
            lemma_bytes_at(cs, i);
        } else {
            is_char_boundary_start_end_of_seq(b);
        }
        if j < n {
            lemma_bytes_at(cs, j);
        } else {
            is_char_boundary_start_end_of_seq(b);
        }
        lemma_boundary_in_suffix(b, start as int, end as int);
    }
    let (_, tail) = s.split_at(start);
    proof {
        assert(encode_utf8(tail@) =~= b.subrange(start as int, b.len() as int));
    }
    let (word, _) = tail.split_at(end - start);
    proof {
        assert(encode_utf8(word@) =~= b.subrange(start as int, end as int));
        lemma_encode_injective(word@, cs.subrange(i, j));
    }
    word
}

/// Whether `c` is an ASCII decimal digit (what `char::is_ascii_digit`
/// documents).
pub fn is_ascii_digit(c: char) -> (r: bool)
    ensures
        r == ('0' <= c <= '9'),
{
    c >= '0' && c <= '9'
}

/// Name for the result of `char::is_alphabetic`: whether `c` has the Unicode
/// `Alphabetic` property.
pub uninterp spec fn unicode_alphabetic(c: char) -> bool;

/// Name for the result of `char::is_numeric`: whether `c` is in one of the
/// Unicode general categories for numbers.
pub uninterp spec fn unicode_numeric(c: char) -> bool;

/// The ASCII letters `a`..=`z` and `A`..=`Z`.
pub open spec fn is_ascii_letter(c: char) -> bool {
    'a' <= c <= 'z' || 'A' <= c <= 'Z'
}

/// Whether `c` is alphabetic: among ASCII characters exactly the letters,
/// beyond ASCII whatever has the Unicode `Alphabetic` property.
pub open spec fn alphabetic(c: char) -> bool {
    if (c as u32) < 0x80 {
        is_ascii_letter(c)
    } else {
        unicode_alphabetic(c)
    }
}

/// Whether `c` is numeric: among ASCII characters exactly the digits, beyond
/// ASCII whatever lies in a Unicode number category.
pub open spec fn numeric(c: char) -> bool {
    if (c as u32) < 0x80 {
        '0' <= c <= '9'
    } else {
        unicode_numeric(c)
    }
}

/// Calls `char::is_alphabetic`; its result is named `unicode_alphabetic`.
/// Among ASCII characters the Unicode `Alphabetic` property holds exactly for
/// the letters; beyond ASCII nothing more is stated.
#[verifier::external_body]
pub(crate) fn is_alphabetic(c: char) -> (r: bool)
    ensures
        r == unicode_alphabetic(c),
        (c as u32) < 0x80 ==> (r == is_ascii_letter(c)),
{
    c.is_alphabetic()
}

/// Calls `char::is_numeric`; its result is named `unicode_numeric`.
/// Among ASCII characters only the digits `0`..=`9` lie in a number category
/// (Nd, Nl, No); beyond ASCII nothing more is stated.
#[verifier::external_body]
pub(crate) fn is_numeric(c: char) -> (r: bool)
    ensures
        r == unicode_numeric(c),
        (c as u32) < 0x80 ==> (r == ('0' <= c <= '9')),
{
    c.is_numeric()
}

/// Calls `char::is_alphanumeric`, which std documents as true exactly when
/// `is_alphabetic` or `is_numeric` is; among ASCII characters, exactly for
/// letters and digits.
#[verifier::external_body]
pub(crate) fn is_alphanumeric(c: char) -> (r: bool)
    ensures
        r == (unicode_alphabetic(c) || unicode_numeric(c)),
        (c as u32) < 0x80 ==> (r == (is_ascii_letter(c) || '0' <= c <= '9')),
{
    c.is_alphanumeric()
}

} // verus!
