//! Character-level helpers shared by the tokenizers and the error reports.
use vstd::prelude::*;

verus! {

/// Rust's `char::is_whitespace`: the Unicode `White_Space` property.
pub open spec fn is_white_space(c: char) -> bool {
    ||| c == '\t' || c == '\n' || c == '\x0B' || c == '\x0C' || c == '\r' || c == ' '
    ||| c == '\u{85}' || c == '\u{A0}' || c == '\u{1680}'
    ||| ('\u{2000}' <= c && c <= '\u{200A}')
    ||| c == '\u{2028}' || c == '\u{2029}' || c == '\u{202F}' || c == '\u{205F}'
    ||| c == '\u{3000}'
}

/// Executable form of [`is_white_space`].
pub fn white_space(c: char) -> (r: bool)
    ensures
        r == is_white_space(c),
{
    match c {
        '\t' | '\n' | '\x0B' | '\x0C' | '\r' | ' ' | '\u{85}' | '\u{A0}' | '\u{1680}' | '\u{2028}'
        | '\u{2029}' | '\u{202F}' | '\u{205F}' | '\u{3000}' => true,
        _ => '\u{2000}' <= c && c <= '\u{200A}',
    }
}

/// The characters of `s`, in order.
pub fn chars_of(s: &str) -> (v: Vec<char>)
    ensures
        v@ == s@,
{
    let mut v: Vec<char> = Vec::new();
    for c in it: s.chars()
        invariant
            v@ == it.seq().take(it.index() as int),
            it.seq() == s@,
    {
        v.push(c);
    }
    v
}

} // verus!

verus! {

/// The number of bytes that `s[0..i]` takes in UTF-8: the byte offset of its `i`-th character.
pub open spec fn byte_offset(s: Seq<char>, i: int) -> nat {
    vstd::utf8::encode_utf8(s.take(i)).len()
}

/// The number of bytes that `c` takes in UTF-8.
pub open spec fn char_width(c: char) -> nat {
    vstd::utf8::encode_scalar(c as u32).len()
}

proof fn lemma_encode_concat(a: Seq<char>, b: Seq<char>)
    ensures
        vstd::utf8::encode_utf8(a + b) == vstd::utf8::encode_utf8(a) + vstd::utf8::encode_utf8(b),
    decreases a.len(),
{
    if a.len() == 0 {
        assert(a + b =~= b);
        assert(vstd::utf8::encode_utf8(a) =~= Seq::<u8>::empty());
    } else {
        assert((a + b).drop_first() =~= a.drop_first() + b);
        lemma_encode_concat(a.drop_first(), b);
    }
}

/// Each character moves the byte offset on by its own width, and no offset passes the whole text.
pub proof fn lemma_byte_offset_step(s: Seq<char>, i: int)
    requires
        0 <= i < s.len(),
    ensures
        byte_offset(s, i + 1) == byte_offset(s, i) + char_width(s[i]),
        byte_offset(s, i + 1) <= byte_offset(s, s.len() as int),
{
    assert(s.take(i + 1) =~= s.take(i) + seq![s[i]]);
    lemma_encode_concat(s.take(i), seq![s[i]]);
    assert(seq![s[i]].drop_first() =~= Seq::<char>::empty());
    assert(vstd::utf8::encode_utf8(Seq::<char>::empty()) =~= Seq::<u8>::empty());
    assert(vstd::utf8::encode_utf8(seq![s[i]]) =~= vstd::utf8::encode_scalar(s[i] as u32));
    assert(s =~= s.take(i + 1) + s.skip(i + 1));
    assert(s.take(s.len() as int) =~= s);
    lemma_encode_concat(s.take(i + 1), s.skip(i + 1));
}

/// The UTF-8 width of `c`.
pub fn utf8_width(c: char) -> (w: usize)
    ensures
        w == char_width(c),
        1 <= w <= 4,
{
    proof {
        vstd::utf8::char_is_scalar(c);
    }
    let u = c as u32;
    if u < 0x80 {
        1
    } else if u < 0x800 {
        2
    } else if u < 0x10000 {
        3
    } else {
        4
    }
}

/// Whether two texts are the same (`str`'s `==`).
#[verifier::external_body]
pub(crate) fn same_text(a: &str, b: &str) -> (r: bool)
    ensures
        r == (a@ == b@),
{
    a == b
}

} // verus!

verus! {

/// The decimal digit character for `d < 10`.
pub open spec fn digit_char(d: nat) -> char {
    ((d + '0' as nat) as u32) as char
}

/// The decimal writing of `n`, without sign or leading zeros.
pub open spec fn decimal_text(n: nat) -> Seq<char>
    decreases n,
{
    if n < 10 {
        seq![digit_char(n)]
    } else {
        decimal_text(n / 10) + seq![digit_char(n % 10)]
    }
}

/// The decimal writing of `n` (`usize`'s `Display`).
#[verifier::external_body]
pub(crate) fn usize_text(n: usize) -> (r: String)
    ensures
        r@ == decimal_text(n as nat),
{
    n.to_string()
}

/// The text of the single character `c` (`char`'s `to_string`).
#[verifier::external_body]
pub(crate) fn char_text(c: char) -> (r: String)
    ensures
        r@ == seq![c],
{
    c.to_string()
}

/// `a` followed by `b`, as a new string.
pub fn joined(a: &str, b: &str) -> (r: String)
    ensures
        r@ == a@ + b@,
{
    let mut r = String::from_str(a);
    r.append(b);
    r
}

} // verus!

verus! {

/// The index of the first character of `s`, from `k` on, whose byte offset is at least `pos`
/// (or the length of `s`).
pub open spec fn first_at_or_after(s: Seq<char>, pos: int, k: int) -> int
    decreases s.len() - k,
{
    if 0 <= k < s.len() && byte_offset(s, k) < pos {
        first_at_or_after(s, pos, k + 1)
    } else {
        k
    }
}

/// The line and column (both from 1) just after the characters `t`.
pub open spec fn line_col_after(t: Seq<char>) -> (nat, nat)
    decreases t.len(),
{
    if t.len() == 0 {
        (1, 1)
    } else {
        let (line, col) = line_col_after(t.drop_last());
        if t.last() == '\n' {
            (line + 1, 1)
        } else {
            (line, col + 1)
        }
    }
}

/// The line and column of byte offset `pos` in `src`: of the first character that starts
/// at or after `pos`.
pub open spec fn spec_line_col(src: Seq<char>, pos: int) -> (nat, nat) {
    line_col_after(src.take(first_at_or_after(src, pos, 0)))
}

proof fn lemma_line_col_bound(t: Seq<char>)
    ensures
        line_col_after(t).0 <= t.len() + 1,
        line_col_after(t).1 <= t.len() + 1,
        line_col_after(t).0 >= 1,
        line_col_after(t).1 >= 1,
    decreases t.len(),
{
    if t.len() > 0 {
        lemma_line_col_bound(t.drop_last());
    }
}

/// The byte length of `s` (`str::len`); no allocation exceeds `isize::MAX` bytes.
#[verifier::external_body]
pub(crate) fn text_len(s: &str) -> (r: usize)
    ensures
        r == byte_offset(s@, s@.len() as int),
        r <= isize::MAX,
{
    s.len()
}

/// No character takes less than a byte.
pub proof fn lemma_byte_offset_ge(s: Seq<char>, i: int)
    requires
        0 <= i <= s.len(),
    ensures
        byte_offset(s, i) >= i,
    decreases i,
{
    if i == 0 {
        assert(s.take(0) =~= Seq::<char>::empty());
    } else {
        lemma_byte_offset_ge(s, i - 1);
        lemma_byte_offset_step(s, i - 1);
        vstd::utf8::char_is_scalar(s[i - 1]);
    }
}

/// A later character starts at a later byte offset, and no character starts at or
/// after the end of the text.
pub proof fn lemma_byte_offset_strict(s: Seq<char>, i: int, j: int)
    requires
        0 <= i < j <= s.len(),
    ensures
        byte_offset(s, i) < byte_offset(s, j),
        byte_offset(s, j) <= byte_offset(s, s.len() as int),
    decreases j - i,
{
    lemma_byte_offset_step(s, j - 1);
    vstd::utf8::char_is_scalar(s[j - 1]);
    if i < j - 1 {
        lemma_byte_offset_strict(s, i, j - 1);
    }
    if j == s.len() {
        assert(s.take(j) =~= s.take(s.len() as int));
    }
}

/// The line and column, both counted from 1, at which byte offset `pos` of `src` falls.
pub fn line_col(src: &str, pos: usize) -> (r: (usize, usize))
    ensures
        (r.0 as nat, r.1 as nat) == spec_line_col(src@, pos as int),
{
    let chars = chars_of(src);
    let _bytes = text_len(src);
    proof {
        lemma_byte_offset_ge(src@, src@.len() as int);
    }
    assert(src@.take(src@.len() as int) =~= src@);
    assert(src@.take(0) =~= Seq::<char>::empty());
    assert(vstd::utf8::encode_utf8(Seq::<char>::empty()) =~= Seq::<u8>::empty());
    let mut line: usize = 1;
    let mut col: usize = 1;
    let mut i: usize = 0;
    let mut offset: usize = 0;
    while i < chars.len()
        invariant
            chars@ == src@,
            i <= chars.len(),
            offset == byte_offset(src@, i as int),
            byte_offset(src@, src@.len() as int) <= usize::MAX,
            src@.len() <= isize::MAX,
            first_at_or_after(src@, pos as int, i as int) == first_at_or_after(src@, pos as int, 0),
            (line as nat, col as nat) == line_col_after(src@.take(i as int)),
        ensures
            first_at_or_after(src@, pos as int, 0) == i,
            (line as nat, col as nat) == line_col_after(src@.take(i as int)),
        decreases chars.len() - i,
    {
        if offset >= pos {
            break;
        }
        let c = chars[i];
        proof {
            lemma_byte_offset_step(src@, i as int);
            lemma_line_col_bound(src@.take(i as int));
            assert(src@.take(i + 1).drop_last() =~= src@.take(i as int));
        }
        if c == '\n' {
            line = line + 1;
            col = 1;
        } else {
            col = col + 1;
        }
        offset = offset + utf8_width(c);
        i = i + 1;
    }
    (line, col)
}

} // verus!
