//! Character classes and conversions the pipeline is defined over.

use vstd::prelude::*;

verus! {

/// A code point is segmentable iff it is an ASCII Latin letter.
pub open spec fn is_letter(c: char) -> bool {
    ('a' <= c && c <= 'z') || ('A' <= c && c <= 'Z')
}

/// Whitespace as the punctuation rules understand it: the ASCII
/// whitespace code points.
pub open spec fn is_space(c: char) -> bool {
    c == ' ' || c == '\t' || c == '\n' || c == '\r' || c == '\u{b}' || c == '\u{c}'
}

/// The punctuation marks whose surrounding spacing is corrected: no space
/// may precede them and exactly one space must follow them.
pub open spec fn is_mark(c: char) -> bool {
    c == '.' || c == ',' || c == '!' || c == '"' || c == '\'' || c == '\u{2019}'
        || c == ';' || c == ':' || c == '?'
}

/// Lowercase image of an ASCII letter; other characters are unchanged.
pub open spec fn lower_char(c: char) -> char {
    if 'A' <= c && c <= 'Z' {
        ((c as u32) + 32) as char
    } else {
        c
    }
}

/// Pointwise lowercase image of a character sequence.
pub open spec fn lower_seq(s: Seq<char>) -> Seq<char> {
    s.map_values(|c: char| lower_char(c))
}

pub fn letter(c: char) -> (b: bool)
    ensures
        b == is_letter(c),
{
    ('a' <= c && c <= 'z') || ('A' <= c && c <= 'Z')
}

pub fn space(c: char) -> (b: bool)
    ensures
        b == is_space(c),
{
    c == ' ' || c == '\t' || c == '\n' || c == '\r' || c == '\u{b}' || c == '\u{c}'
}

pub fn mark(c: char) -> (b: bool)
    ensures
        b == is_mark(c),
{
    c == '.' || c == ',' || c == '!' || c == '"' || c == '\'' || c == '\u{2019}'
        || c == ';' || c == ':' || c == '?'
}

pub fn to_lower(c: char) -> (r: char)
    ensures
        r == lower_char(c),
{
    match c {
        'A' => 'a',
        'B' => 'b',
        'C' => 'c',
        'D' => 'd',
        'E' => 'e',
        'F' => 'f',
        'G' => 'g',
        'H' => 'h',
        'I' => 'i',
        'J' => 'j',
        'K' => 'k',
        'L' => 'l',
        'M' => 'm',
        'N' => 'n',
        'O' => 'o',
        'P' => 'p',
        'Q' => 'q',
        'R' => 'r',
        'S' => 's',
        'T' => 't',
        'U' => 'u',
        'V' => 'v',
        'W' => 'w',
        'X' => 'x',
        'Y' => 'y',
        'Z' => 'z',
        _ => c,
    }
}

/// The characters of a string slice, in order.
pub fn chars_of(s: &str) -> (v: Vec<char>)
    ensures
        v@ == s@,
{
    let n = s.unicode_len();
    let mut v: Vec<char> = Vec::new();
    let mut i: usize = 0;
    while i < n
        invariant
            i <= n,
            n == s@.len(),
            v@ == s@.take(i as int),
        decreases n - i,
    {
        let c = s.get_char(i);
        v.push(c);
        i = i + 1;
        proof {
            assert(v@ =~= s@.take(i as int));
        }
    }
    proof {
        assert(v@ =~= s@);
    }
    v
}

/// The lowercase image of a character vector.
pub fn lower_chars(v: &Vec<char>) -> (r: Vec<char>)
    ensures
        r@ == lower_seq(v@),
{
    let n = v.len();
    let mut r: Vec<char> = Vec::new();
    let mut i: usize = 0;
    while i < n
        invariant
            i <= n,
            n == v@.len(),
            r@.len() == i,
            forall|j: int| 0 <= j < i ==> r@[j] == lower_char(v@[j]),
        decreases n - i,
    {
        r.push(to_lower(v[i]));
        i = i + 1;
    }
    proof {
        assert(r@ =~= lower_seq(v@));
    }
    r
}

/// The characters of a word slice `v[from..to]`.
pub fn sub_chars(v: &Vec<char>, from: usize, to: usize) -> (r: Vec<char>)
    requires
        from <= to <= v@.len(),
    ensures
        r@ == v@.subrange(from as int, to as int),
{
    let mut r: Vec<char> = Vec::new();
    let mut i: usize = from;
    proof {
        assert(r@ =~= v@.subrange(from as int, from as int));
    }
    while i < to
        invariant
            from <= i <= to <= v@.len(),
            r@ == v@.subrange(from as int, i as int),
        decreases to - i,
    {
        r.push(v[i]);
        i = i + 1;
        proof {
            assert(r@ =~= v@.subrange(from as int, i as int));
        }
    }
    r
}

/// Relies on `String::push`: appends the character at the end of the string.
#[verifier::external_body]
pub(crate) fn push_char(s: &mut String, c: char)
    ensures
        final(s)@ == old(s)@.push(c),
{
    s.push(c)
}

/// A string holding exactly the given characters, in order.
pub fn string_of(v: &Vec<char>) -> (s: String)
    ensures
        s@ == v@,
{
    let mut s = String::new();
    let mut i: usize = 0;
    while i < v.len()
        invariant
            i <= v@.len(),
            s@ == v@.take(i as int),
        decreases v@.len() - i,
    {
        push_char(&mut s, v[i]);
        i = i + 1;
        proof {
            assert(s@ =~= v@.take(i as int));
        }
    }
    proof {
        assert(s@ =~= v@);
    }
    s
}

} // verus!
