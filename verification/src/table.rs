//! The frequency table: the immutable unigram/bigram weight model and its
//! line-oriented loader.
//!
//! The model is built once from two sequences of text lines — `WORD WEIGHT`
//! for unigrams, `WORD1 WORD2 WEIGHT` for bigrams — and is read-only
//! afterwards. A weight is a non-negative decimal number; it is held in
//! thousandths (`2.5` becomes `2500`), truncated past the third fraction
//! digit and saturated at `u64::MAX`. A malformed line (missing fields, or
//! a weight that is not a plain decimal number) is a fatal load error that
//! aborts construction; a word missing from a map is not an error but a
//! zero-evidence lookup.

use vstd::prelude::*;
use crate::chars::is_space;
use crate::chars::space;

verus! {

/// ASCII decimal digit.
pub open spec fn is_digit(c: char) -> bool {
    '0' <= c && c <= '9'
}

/// Numeric value of a decimal digit.
pub open spec fn digit_val(c: char) -> int {
    (c as int) - ('0' as int)
}

/// Value of a digit string read most-significant first.
pub open spec fn digits_value(s: Seq<char>) -> int
    decreases s.len(),
{
    if s.len() == 0 {
        0
    } else {
        digits_value(s.drop_last()) * 10 + digit_val(s.last())
    }
}

/// Every character is a decimal digit.
pub open spec fn all_digits(s: Seq<char>) -> bool {
    forall|i: int| 0 <= i < s.len() ==> is_digit(s[i])
}

/// Saturation of a mathematical integer into `u64`.
pub open spec fn cap64(n: int) -> u64 {
    if n > u64::MAX {
        u64::MAX
    } else if n < 0 {
        0
    } else {
        n as u64
    }
}

/// Index of the first `.` in the string, or its length if there is none.
pub open spec fn dot_pos(s: Seq<char>) -> int
    decreases s.len(),
{
    if s.len() == 0 {
        0
    } else if s[0] == '.' {
        0
    } else {
        1 + dot_pos(s.skip(1))
    }
}

/// Thousandths contributed by the fraction digits: the first three count,
/// the rest are truncated.
pub open spec fn frac_milli(f: Seq<char>) -> int {
    if f.len() >= 3 {
        digits_value(f.take(3))
    } else if f.len() == 2 {
        digits_value(f) * 10
    } else if f.len() == 1 {
        digits_value(f) * 100
    } else {
        0
    }
}

/// The weight denoted by a field, in saturated thousandths, or `None` when
/// the field is not a non-negative decimal number. The accepted shapes are
/// `D+`, `D+.D*` and `.D+`.
pub open spec fn parse_weight_spec(s: Seq<char>) -> Option<u64> {
    let k = dot_pos(s);
    if k == s.len() {
        if s.len() > 0 && all_digits(s) {
            Some(cap64(digits_value(s) * 1000))
        } else {
            None
        }
    } else {
        let intp = s.take(k);
        let frac = s.skip(k + 1);
        if all_digits(intp) && all_digits(frac) && intp.len() + frac.len() > 0 {
            Some(cap64(digits_value(intp) * 1000 + frac_milli(frac)))
        } else {
            None
        }
    }
}

proof fn lemma_dot_pos_bounds(s: Seq<char>)
    ensures
        0 <= dot_pos(s) <= s.len(),
        dot_pos(s) < s.len() ==> s[dot_pos(s)] == '.',
        forall|j: int| 0 <= j < dot_pos(s) ==> s[j] != '.',
    decreases s.len(),
{
    if s.len() == 0 {
    } else if s[0] == '.' {
    } else {
        lemma_dot_pos_bounds(s.skip(1));
        assert forall|j: int| 0 <= j < dot_pos(s) implies s[j] != '.' by {
            if j > 0 {
                assert(s.skip(1)[j - 1] == s[j]);
            }
        }
    }
}

proof fn lemma_digits_value_bounds(s: Seq<char>)
    requires
        all_digits(s),
    ensures
        digits_value(s) >= 0,
    decreases s.len(),
{
    if s.len() > 0 {
        assert(all_digits(s.drop_last())) by {
            assert(forall|i: int| 0 <= i < s.len() - 1 ==> s.drop_last()[i] == s[i]);
        }
        lemma_digits_value_bounds(s.drop_last());
        assert(is_digit(s.last()));
    }
}

proof fn lemma_cap_mul_add(v: int, m: int, d: int)
    requires
        v >= 0,
        m >= 1,
        0 <= d < m,
    ensures
        cap64(cap64(v) as int * m + d) == cap64(v * m + d),
{
    if v <= u64::MAX {
    } else {
        assert(cap64(v) == u64::MAX);
        assert(u64::MAX * m + d >= u64::MAX) by (nonlinear_arith)
            requires
                m >= 1,
                d >= 0,
        ;
        assert(v * m + d > u64::MAX) by (nonlinear_arith)
            requires
                v > u64::MAX,
                m >= 1,
                d >= 0,
        ;
    }
}

/// Value of a digit vector, most significant digit first, saturated.
fn digits_to_u64(v: &Vec<char>, from: usize, to: usize) -> (r: u64)
    requires
        from <= to <= v@.len(),
        all_digits(v@.subrange(from as int, to as int)),
    ensures
        r == cap64(digits_value(v@.subrange(from as int, to as int))),
{
    let ghost whole = v@.subrange(from as int, to as int);
    let mut acc: u64 = 0;
    let mut i: usize = from;
    proof {
        assert(v@.subrange(from as int, from as int) =~= whole.take(0));
    }
    while i < to
        invariant
            from <= i <= to <= v@.len(),
            whole == v@.subrange(from as int, to as int),
            all_digits(whole),
            acc == cap64(digits_value(whole.take(i - from))),
        decreases to - i,
    {
        let c = v[i];
        proof {
            assert(whole[i - from] == c);
            assert(is_digit(c));
        }
        let d: u64 = (c as u32 as u64) - 48;
        let ghost pre = whole.take(i - from);
        let ghost now = whole.take(i - from + 1);
        proof {
            assert(now.drop_last() =~= pre);
            assert(now.last() == c);
            assert(all_digits(pre));
            lemma_digits_value_bounds(pre);
            lemma_cap_mul_add(digits_value(pre), 10, digit_val(c));
        }
        let step = match acc.checked_mul(10) {
            Some(x) => match x.checked_add(d) {
                Some(y) => y,
                None => u64::MAX,
            },
            None => u64::MAX,
        };
        acc = step;
        i = i + 1;
    }
    proof {
        assert(whole.take(to - from) =~= whole);
    }
    acc
}

/// Reads a weight field. Accepts `D+`, `D+.D*` and `.D+`; the value is in
/// thousandths, truncated past the third fraction digit and saturated at
/// `u64::MAX`.
pub fn parse_weight(v: &Vec<char>) -> (r: Option<u64>)
    ensures
        r == parse_weight_spec(v@),
{
    let n = v.len();
    proof {
        lemma_dot_pos_bounds(v@);
    }
    // find the first dot
    let mut k: usize = 0;
    while k < n && v[k] != '.'
        invariant
            0 <= k <= n,
            n == v@.len(),
            forall|j: int| 0 <= j < k ==> v@[j] != '.',
        decreases n - k,
    {
        k = k + 1;
    }
    proof {
        assert(dot_pos(v@) == k);
    }
    // check that everything else is digits
    let mut i: usize = 0;
    while i < k
        invariant
            0 <= i <= k <= n,
            n == v@.len(),
            dot_pos(v@) == k,
            forall|j: int| 0 <= j < i ==> is_digit(v@[j]),
        decreases k - i,
    {
        if !('0' <= v[i] && v[i] <= '9') {
            proof {
                assert(!is_digit(v@[i as int]));
                assert(!all_digits(v@)) by {
                    if all_digits(v@) {
                        assert(is_digit(v@[i as int]));
                    }
                }
                assert(!all_digits(v@.take(k as int))) by {
                    if all_digits(v@.take(k as int)) {
                        assert(v@.take(k as int)[i as int] == v@[i as int]);
                        assert(is_digit(v@.take(k as int)[i as int]));
                    }
                }
            }
            return None;
        }
        i = i + 1;
    }
    proof {
        assert forall|j: int| 0 <= j < k implies is_digit(v@.take(k as int)[j]) by {
            assert(v@.take(k as int)[j] == v@[j]);
        }
        assert(all_digits(v@.take(k as int)));
    }
    if k == n {
        if n == 0 {
            return None;
        }
        proof {
            assert(v@.take(n as int) =~= v@);
            assert(v@.subrange(0, n as int) =~= v@);
            lemma_digits_value_bounds(v@);
            lemma_cap_mul_add(digits_value(v@), 1000, 0);
        }
        let w = digits_to_u64(v, 0, n);
        let r = match w.checked_mul(1000) {
            Some(x) => x,
            None => u64::MAX,
        };
        return Some(r);
    }
    // fraction part
    let mut j: usize = k + 1;
    while j < n
        invariant
            k + 1 <= j <= n,
            n == v@.len(),
            dot_pos(v@) == k,
            forall|t: int| k + 1 <= t < j ==> is_digit(v@[t]),
        decreases n - j,
    {
        if !('0' <= v[j] && v[j] <= '9') {
            proof {
                assert(!is_digit(v@[j as int]));
                assert(!all_digits(v@.skip(k + 1))) by {
                    if all_digits(v@.skip(k + 1)) {
                        assert(v@.skip(k + 1)[j - k - 1] == v@[j as int]);
                        assert(is_digit(v@.skip(k + 1)[j - k - 1]));
                    }
                }
            }
            return None;
        }
        j = j + 1;
    }
    proof {
        assert forall|t: int| 0 <= t < v@.skip(k + 1).len() implies is_digit(#[trigger] v@.skip(
            k + 1,
        )[t]) by {
            assert(v@.skip(k + 1)[t] == v@[t + k + 1]);
        }
        assert(all_digits(v@.skip(k + 1)));
    }
    if k == 0 && n == 1 {
        // a lone dot: no digits at all
        return None;
    }
    let ghost intp = v@.take(k as int);
    let ghost frac = v@.skip(k + 1);
    let intval = digits_to_u64(v, 0, k);
    proof {
        assert(v@.subrange(0, k as int) =~= intp);
    }
    // thousandths from at most three fraction digits
    let f1 = n - k - 1;
    let fm: u64 = if f1 >= 3 {
        proof {
            assert(v@.subrange(k + 1, k + 4) =~= frac.take(3));
            lemma_digits_value_bounds(frac.take(3));
            assert(all_digits(frac.take(3))) by {
                assert(forall|t: int| 0 <= t < 3 ==> frac.take(3)[t] == frac[t]);
            }
            lemma_digits_small(frac.take(3));
        }
        digits_to_u64(v, k + 1, k + 4)
    } else if f1 == 2 {
        proof {
            assert(v@.subrange(k + 1, k + 3) =~= frac);
            lemma_digits_value_bounds(frac);
            lemma_digits_small(frac);
        }
        let x = digits_to_u64(v, k + 1, k + 3);
        x * 10
    } else if f1 == 1 {
        proof {
            assert(v@.subrange(k + 1, k + 2) =~= frac);
            lemma_digits_value_bounds(frac);
            lemma_digits_small(frac);
        }
        let x = digits_to_u64(v, k + 1, k + 2);
        x * 100
    } else {
        proof {
            assert(frac.len() == 0);
        }
        0
    };
    proof {
        assert(fm == frac_milli(frac));
        assert(0 <= frac_milli(frac) < 1000);
        lemma_digits_value_bounds(intp);
        lemma_cap_mul_add(digits_value(intp), 1000, frac_milli(frac));
    }
    let r = match intval.checked_mul(1000) {
        Some(x) => match x.checked_add(fm) {
            Some(y) => y,
            None => u64::MAX,
        },
        None => u64::MAX,
    };
    Some(r)
}

/// A digit string of at most three digits denotes less than 1000.
proof fn lemma_digits_small(s: Seq<char>)
    requires
        all_digits(s),
        s.len() <= 3,
    ensures
        0 <= digits_value(s) < crate::table::pow10(s.len() as nat),
    decreases s.len(),
{
    if s.len() > 0 {
        assert(all_digits(s.drop_last())) by {
            assert(forall|i: int| 0 <= i < s.len() - 1 ==> s.drop_last()[i] == s[i]);
        }
        lemma_digits_small(s.drop_last());
        assert(is_digit(s.last()));
    }
}

/// Powers of ten used for fraction padding.
pub open spec fn pow10(n: nat) -> int {
    if n == 0 {
        1
    } else if n == 1 {
        10
    } else if n == 2 {
        100
    } else {
        1000
    }
}

/// The whitespace-separated fields of a line, folded left to right from an
/// in-progress field.
pub open spec fn fields_from(s: Seq<char>, acc: Seq<char>) -> Seq<Seq<char>>
    decreases s.len(),
{
    if s.len() == 0 {
        if acc.len() == 0 {
            Seq::empty()
        } else {
            seq![acc]
        }
    } else if is_space(s[0]) {
        if acc.len() == 0 {
            fields_from(s.skip(1), acc)
        } else {
            seq![acc] + fields_from(s.skip(1), Seq::empty())
        }
    } else {
        fields_from(s.skip(1), acc.push(s[0]))
    }
}

/// The whitespace-separated fields of a line; leading, trailing and
/// repeated whitespace contributes no field.
pub open spec fn fields_of(s: Seq<char>) -> Seq<Seq<char>> {
    fields_from(s, Seq::empty())
}

/// The character sequences of an executable field list.
pub open spec fn fields_view(fs: Seq<Vec<char>>) -> Seq<Seq<char>> {
    fs.map_values(|f: Vec<char>| f@)
}

/// Splits a line into its whitespace-separated fields.
pub fn split_fields(v: &Vec<char>) -> (r: Vec<Vec<char>>)
    ensures
        fields_view(r@) == fields_of(v@),
{
    let n = v.len();
    let mut finished: Vec<Vec<char>> = Vec::new();
    let mut acc: Vec<char> = Vec::new();
    let mut i: usize = 0;
    proof {
        assert(v@.skip(0) =~= v@);
        assert(fields_view(finished@) =~= Seq::<Seq<char>>::empty());
    }
    while i < n
        invariant
            i <= n,
            n == v@.len(),
            fields_of(v@) == fields_view(finished@) + fields_from(v@.skip(i as int), acc@),
        decreases n - i,
    {
        let c = v[i];
        proof {
            assert(v@.skip(i as int)[0] == c);
            assert(v@.skip(i as int).skip(1) =~= v@.skip(i as int + 1));
        }
        if space(c) {
            if acc.len() > 0 {
                let ghost before = finished@;
                let mut field: Vec<char> = Vec::new();
                core::mem::swap(&mut acc, &mut field);
                finished.push(field);
                proof {
                    assert(fields_view(finished@) =~= fields_view(before) + seq![field@]);
                }
            }
        } else {
            acc.push(c);
        }
        i = i + 1;
    }
    proof {
        assert(v@.skip(n as int) =~= Seq::<char>::empty());
    }
    if acc.len() > 0 {
        let ghost before = finished@;
        finished.push(acc);
        proof {
            assert(fields_view(finished@) =~= fields_view(before) + seq![finished@.last()@]);
        }
    }
    proof {
        assert(fields_view(finished@) =~= fields_of(v@));
    }
    finished
}

/// A unigram line is well formed iff it has a word field and a numeric
/// weight field; extra fields are ignored.
pub open spec fn uni_line_ok(s: Seq<char>) -> bool {
    let fs = fields_of(s);
    fs.len() >= 2 && parse_weight_spec(fs[1]).is_some()
}

/// Word of a well-formed unigram line.
pub open spec fn uni_line_word(s: Seq<char>) -> Seq<char> {
    fields_of(s)[0]
}

/// Weight of a well-formed unigram line, in thousandths.
pub open spec fn uni_line_weight(s: Seq<char>) -> u64 {
    parse_weight_spec(fields_of(s)[1]).unwrap()
}

/// A bigram line is well formed iff it has two word fields and a numeric
/// weight field; extra fields are ignored.
pub open spec fn bi_line_ok(s: Seq<char>) -> bool {
    let fs = fields_of(s);
    fs.len() >= 3 && parse_weight_spec(fs[2]).is_some()
}

/// Word pair of a well-formed bigram line.
pub open spec fn bi_line_words(s: Seq<char>) -> (Seq<char>, Seq<char>) {
    (fields_of(s)[0], fields_of(s)[1])
}

/// Weight of a well-formed bigram line, in thousandths.
pub open spec fn bi_line_weight(s: Seq<char>) -> u64 {
    parse_weight_spec(fields_of(s)[2]).unwrap()
}

/// A fatal load-time error: the offending zero-based line index of the
/// unigram or bigram input.
#[derive(Debug, Clone, Copy, PartialEq, Eq, Structural)]
pub enum LoadError {
    BadUnigramLine(usize),
    BadBigramLine(usize),
}

/// Character-wise equality of two words.
fn chars_eq(a: &Vec<char>, b: &Vec<char>) -> (r: bool)
    ensures
        r == (a@ == b@),
{
    if a.len() != b.len() {
        proof {
            assert(a@ != b@);
        }
        return false;
    }
    let n = a.len();
    let mut i: usize = 0;
    while i < n
        invariant
            i <= n,
            n == a@.len() == b@.len(),
            forall|j: int| 0 <= j < i ==> a@[j] == b@[j],
        decreases n - i,
    {
        if a[i] != b[i] {
            proof {
                assert(a@[i as int] != b@[i as int]);
            }
            return false;
        }
        i = i + 1;
    }
    proof {
        assert(a@ =~= b@);
    }
    true
}

/// View of a unigram entry list as word/weight pairs.
pub open spec fn uni_view(es: Seq<(Vec<char>, u64)>) -> Seq<(Seq<char>, u64)> {
    es.map_values(|p: (Vec<char>, u64)| (p.0@, p.1))
}

/// View of a bigram entry list as word-pair/weight pairs.
pub open spec fn bi_view(es: Seq<((Vec<char>, Vec<char>), u64)>) -> Seq<
    ((Seq<char>, Seq<char>), u64),
> {
    es.map_values(|p: ((Vec<char>, Vec<char>), u64)| ((p.0.0@, p.0.1@), p.1))
}

/// Weight of the first entry for the word, if any: the first line
/// mentioning a word wins.
pub open spec fn first_weight(es: Seq<(Seq<char>, u64)>, w: Seq<char>) -> Option<u64>
    decreases es.len(),
{
    if es.len() == 0 {
        None
    } else if es[0].0 == w {
        Some(es[0].1)
    } else {
        first_weight(es.skip(1), w)
    }
}

/// Weight of the first entry for the ordered word pair, if any.
pub open spec fn first_pair_weight(
    es: Seq<((Seq<char>, Seq<char>), u64)>,
    a: Seq<char>,
    b: Seq<char>,
) -> Option<u64>
    decreases es.len(),
{
    if es.len() == 0 {
        None
    } else if es[0].0.0 == a && es[0].0.1 == b {
        Some(es[0].1)
    } else {
        first_pair_weight(es.skip(1), a, b)
    }
}

/// Length of the longest key in a unigram entry list.
pub open spec fn max_key_len(es: Seq<(Seq<char>, u64)>) -> int
    decreases es.len(),
{
    if es.len() == 0 {
        0
    } else {
        let rest = max_key_len(es.skip(1));
        if es[0].0.len() > rest {
            es[0].0.len() as int
        } else {
            rest
        }
    }
}

/// The immutable unigram/bigram weight model. Built once by
/// [`FrequencyTable::from_lines`], read-only afterwards; a word absent from
/// a map is a zero-evidence lookup, not an error.
#[derive(Debug)]
pub struct FrequencyTable {
    /// Word/weight entries, in input order.
    pub unigrams: Vec<(Vec<char>, u64)>,
    /// Word-pair/weight entries, in input order.
    pub bigrams: Vec<((Vec<char>, Vec<char>), u64)>,
}

impl FrequencyTable {
    /// The unigram model as word/weight pairs.
    pub open spec fn uni(self) -> Seq<(Seq<char>, u64)> {
        uni_view(self.unigrams@)
    }

    /// The bigram model as word-pair/weight pairs.
    pub open spec fn bi(self) -> Seq<((Seq<char>, Seq<char>), u64)> {
        bi_view(self.bigrams@)
    }

    /// Weight the unigram model gives a word.
    pub open spec fn uni_weight(self, w: Seq<char>) -> Option<u64> {
        first_weight(self.uni(), w)
    }

    /// Weight the bigram model gives an ordered word pair.
    pub open spec fn bi_weight(self, a: Seq<char>, b: Seq<char>) -> Option<u64> {
        first_pair_weight(self.bi(), a, b)
    }

    /// Length of the longest unigram word.
    pub open spec fn max_uni_len(self) -> int {
        max_key_len(self.uni())
    }

    /// A table with no entries: every lookup is unknown.
    pub fn new() -> (t: FrequencyTable)
        ensures
            t.uni() == Seq::<(Seq<char>, u64)>::empty(),
            t.bi() == Seq::<((Seq<char>, Seq<char>), u64)>::empty(),
    {
        let t = FrequencyTable { unigrams: Vec::new(), bigrams: Vec::new() };
        proof {
            assert(t.uni() =~= Seq::<(Seq<char>, u64)>::empty());
            assert(t.bi() =~= Seq::<((Seq<char>, Seq<char>), u64)>::empty());
        }
        t
    }

    /// Looks the word up in the unigram model.
    pub fn unigram_weight(&self, w: &Vec<char>) -> (r: Option<u64>)
        ensures
            r == self.uni_weight(w@),
    {
        let n = self.unigrams.len();
        let mut i: usize = 0;
        proof {
            assert(self.uni().skip(0) =~= self.uni());
        }
        while i < n
            invariant
                i <= n,
                n == self.unigrams@.len(),
                self.uni_weight(w@) == first_weight(self.uni().skip(i as int), w@),
            decreases n - i,
        {
            proof {
                assert(self.uni().skip(i as int)[0] == self.uni()[i as int]);
                assert(self.uni().skip(i as int).skip(1) =~= self.uni().skip(i as int + 1));
            }
            if chars_eq(&self.unigrams[i].0, w) {
                return Some(self.unigrams[i].1);
            }
            i = i + 1;
        }
        None
    }

    /// Looks the ordered word pair up in the bigram model.
    pub fn bigram_weight(&self, a: &Vec<char>, b: &Vec<char>) -> (r: Option<u64>)
        ensures
            r == self.bi_weight(a@, b@),
    {
        let n = self.bigrams.len();
        let mut i: usize = 0;
        proof {
            assert(self.bi().skip(0) =~= self.bi());
        }
        while i < n
            invariant
                i <= n,
                n == self.bigrams@.len(),
                self.bi_weight(a@, b@) == first_pair_weight(self.bi().skip(i as int), a@, b@),
            decreases n - i,
        {
            proof {
                assert(self.bi().skip(i as int)[0] == self.bi()[i as int]);
                assert(self.bi().skip(i as int).skip(1) =~= self.bi().skip(i as int + 1));
            }
            if chars_eq(&self.bigrams[i].0.0, a) && chars_eq(&self.bigrams[i].0.1, b) {
                return Some(self.bigrams[i].1);
            }
            i = i + 1;
        }
        None
    }

    /// Length of the longest unigram word, bounding candidate word lengths
    /// in the segmenter.
    pub fn max_unigram_len(&self) -> (r: usize)
        ensures
            r == self.max_uni_len(),
    {
        let n = self.unigrams.len();
        let mut i: usize = n;
        let mut best: usize = 0;
        proof {
            assert(self.uni().skip(n as int) =~= Seq::<(Seq<char>, u64)>::empty());
        }
        while i > 0
            invariant
                i <= n,
                n == self.unigrams@.len(),
                best == max_key_len(self.uni().skip(i as int)),
            decreases i,
        {
            i = i - 1;
            proof {
                assert(self.uni().skip(i as int)[0] == self.uni()[i as int]);
                assert(self.uni().skip(i as int).skip(1) =~= self.uni().skip(i as int + 1));
            }
            let len = self.unigrams[i].0.len();
            if len > best {
                best = len;
            }
        }
        proof {
            assert(self.uni().skip(0) =~= self.uni());
        }
        best
    }

    /// Builds the model from the lines of the unigram and bigram inputs.
    /// Construction aborts on the first malformed line; on success the
    /// entries hold every line's word(s) and weight, in input order.
    pub fn from_lines(unigram_lines: &Vec<String>, bigram_lines: &Vec<String>) -> (r: Result<
        FrequencyTable,
        LoadError,
    >)
        ensures
            match r {
                Ok(t) => {
                    &&& forall|i: int| 0 <= i < unigram_lines@.len() ==> uni_line_ok(
                        #[trigger] unigram_lines@[i]@,
                    )
                    &&& forall|i: int| 0 <= i < bigram_lines@.len() ==> bi_line_ok(
                        #[trigger] bigram_lines@[i]@,
                    )
                    &&& t.uni() == unigram_lines@.map_values(
                        |l: String| (uni_line_word(l@), uni_line_weight(l@)),
                    )
                    &&& t.bi() == bigram_lines@.map_values(
                        |l: String| (bi_line_words(l@), bi_line_weight(l@)),
                    )
                },
                Err(LoadError::BadUnigramLine(i)) => {
                    &&& i < unigram_lines@.len()
                    &&& !uni_line_ok(unigram_lines@[i as int]@)
                    &&& forall|j: int| 0 <= j < i ==> uni_line_ok(#[trigger] unigram_lines@[j]@)
                },
                Err(LoadError::BadBigramLine(i)) => {
                    &&& forall|j: int| 0 <= j < unigram_lines@.len() ==> uni_line_ok(
                        #[trigger] unigram_lines@[j]@,
                    )
                    &&& i < bigram_lines@.len()
                    &&& !bi_line_ok(bigram_lines@[i as int]@)
                    &&& forall|j: int| 0 <= j < i ==> bi_line_ok(#[trigger] bigram_lines@[j]@)
                },
            },
    {
        let mut unigrams: Vec<(Vec<char>, u64)> = Vec::new();
        let mut i: usize = 0;
        let un = unigram_lines.len();
        while i < un
            invariant
                i <= un,
                un == unigram_lines@.len(),
                forall|j: int| 0 <= j < i ==> uni_line_ok(#[trigger] unigram_lines@[j]@),
                uni_view(unigrams@) == unigram_lines@.take(i as int).map_values(
                    |l: String| (uni_line_word(l@), uni_line_weight(l@)),
                ),
            decreases un - i,
        {
            let v = crate::chars::chars_of(unigram_lines[i].as_str());
            let mut fs = split_fields(&v);
            if fs.len() < 2 {
                proof {
                    assert(fields_view(fs@).len() == fs@.len());
                }
                return Err(LoadError::BadUnigramLine(i));
            }
            let wt = parse_weight(&fs[1]);
            proof {
                assert(fields_view(fs@)[1] == fs@[1]@);
                assert(fields_view(fs@)[0] == fs@[0]@);
            }
            match wt {
                None => {
                    return Err(LoadError::BadUnigramLine(i));
                },
                Some(weight) => {
                    let ghost before = unigrams@;
                    let word = fs.swap_remove(0);
                    unigrams.push((word, weight));
                    proof {
                        assert(uni_view(unigrams@) =~= uni_view(before) + seq![
                            (uni_line_word(unigram_lines@[i as int]@), uni_line_weight(
                                unigram_lines@[i as int]@,
                            )),
                        ]);
                        assert(unigram_lines@.take(i + 1).drop_last() =~= unigram_lines@.take(
                            i as int,
                        ));
                        assert(unigram_lines@.take(i + 1).map_values(
                            |l: String| (uni_line_word(l@), uni_line_weight(l@)),
                        ) =~= uni_view(unigrams@));
                    }
                },
            }
            i = i + 1;
        }
        proof {
            assert(unigram_lines@.take(un as int) =~= unigram_lines@);
        }
        let mut bigrams: Vec<((Vec<char>, Vec<char>), u64)> = Vec::new();
        let mut i: usize = 0;
        let bn = bigram_lines.len();
        while i < bn
            invariant
                i <= bn,
                bn == bigram_lines@.len(),
                forall|j: int| 0 <= j < unigram_lines@.len() ==> uni_line_ok(
                    #[trigger] unigram_lines@[j]@,
                ),
                uni_view(unigrams@) == unigram_lines@.map_values(
                    |l: String| (uni_line_word(l@), uni_line_weight(l@)),
                ),
                forall|j: int| 0 <= j < i ==> bi_line_ok(#[trigger] bigram_lines@[j]@),
                bi_view(bigrams@) == bigram_lines@.take(i as int).map_values(
                    |l: String| (bi_line_words(l@), bi_line_weight(l@)),
                ),
            decreases bn - i,
        {
            let v = crate::chars::chars_of(bigram_lines[i].as_str());
            let mut fs = split_fields(&v);
            if fs.len() < 3 {
                proof {
                    assert(fields_view(fs@).len() == fs@.len());
                }
                return Err(LoadError::BadBigramLine(i));
            }
            let wt = parse_weight(&fs[2]);
            proof {
                assert(fields_view(fs@)[2] == fs@[2]@);
                assert(fields_view(fs@)[1] == fs@[1]@);
                assert(fields_view(fs@)[0] == fs@[0]@);
            }
            match wt {
                None => {
                    return Err(LoadError::BadBigramLine(i));
                },
                Some(weight) => {
                    let ghost before = bigrams@;
                    let second = fs.swap_remove(1);
                    let first = fs.swap_remove(0);
                    bigrams.push(((first, second), weight));
                    proof {
                        assert(bi_view(bigrams@) =~= bi_view(before) + seq![
                            (bi_line_words(bigram_lines@[i as int]@), bi_line_weight(
                                bigram_lines@[i as int]@,
                            )),
                        ]);
                        assert(bigram_lines@.take(i + 1).drop_last() =~= bigram_lines@.take(
                            i as int,
                        ));
                        assert(bigram_lines@.take(i + 1).map_values(
                            |l: String| (bi_line_words(l@), bi_line_weight(l@)),
                        ) =~= bi_view(bigrams@));
                    }
                },
            }
            i = i + 1;
        }
        proof {
            assert(bigram_lines@.take(bn as int) =~= bigram_lines@);
        }
        Ok(FrequencyTable { unigrams, bigrams })
    }
}

} // verus!
