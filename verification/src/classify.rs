//! Run classification: partitioning text into segmentable and passthrough
//! runs.
//!
//! The classifier consumes the hyphen-joined text as a sequence of code
//! points. Form feeds (U+000C) are dropped, the ligatures U+FB01 and U+FB02
//! are expanded to `fi` and `fl`, and the result is grouped into maximal
//! runs of a single class: segmentable (ASCII Latin letters) or passthrough
//! (everything else). A run is a pair `(bool, String)` whose flag is true
//! for a segmentable run; concatenating the runs in order reproduces the
//! normalized input, so the partition is lossless.

use vstd::prelude::*;
use crate::chars::is_letter;
use crate::chars::letter;
use crate::chars::chars_of;
use crate::chars::string_of;

verus! {

/// The characters a single input code point contributes after form-feed
/// removal and ligature expansion.
pub open spec fn norm_head(c: char) -> Seq<char> {
    if c == '\u{c}' {
        Seq::empty()
    } else if c == '\u{fb01}' {
        seq!['f', 'i']
    } else if c == '\u{fb02}' {
        seq!['f', 'l']
    } else {
        seq![c]
    }
}

/// The normalized image of the input: form feeds dropped and the two
/// ligatures expanded, everything else unchanged.
pub open spec fn norm_chars(s: Seq<char>) -> Seq<char>
    decreases s.len(),
{
    if s.len() == 0 {
        Seq::empty()
    } else {
        norm_head(s[0]) + norm_chars(s.skip(1))
    }
}

/// One classification step on an already-normalized character: either the
/// character continues the current run, or the finished run is emitted and
/// a new one starts. Returns the emitted runs, the new current class, and
/// the new accumulator.
pub open spec fn step_spec(c: char, cur: bool, acc: Seq<char>) -> (Seq<(bool, Seq<char>)>, bool, Seq<
    char,
>) {
    if is_letter(c) == cur || acc.len() == 0 {
        (Seq::empty(), is_letter(c), acc.push(c))
    } else {
        (seq![(cur, acc)], is_letter(c), seq![c])
    }
}

/// The runs of a normalized character sequence, folded left to right from
/// the given in-progress run.
pub open spec fn runs_from(s: Seq<char>, cur: bool, acc: Seq<char>) -> Seq<(bool, Seq<char>)>
    decreases s.len(),
{
    if s.len() == 0 {
        if acc.len() == 0 {
            Seq::empty()
        } else {
            seq![(cur, acc)]
        }
    } else {
        let st = step_spec(s[0], cur, acc);
        st.0 + runs_from(s.skip(1), st.1, st.2)
    }
}

/// The classification of an input text: the maximal runs of its normalized
/// image.
pub open spec fn classify_spec(s: Seq<char>) -> Seq<(bool, Seq<char>)> {
    runs_from(norm_chars(s), true, Seq::empty())
}

/// The character sequences of a run list, for stating contracts about
/// executable run lists.
pub open spec fn runs_view(rs: Seq<(bool, String)>) -> Seq<(bool, Seq<char>)> {
    rs.map_values(|p: (bool, String)| (p.0, p.1@))
}

/// Concatenation of the texts of a run list, in order.
pub open spec fn concat_runs(rs: Seq<(bool, Seq<char>)>) -> Seq<char>
    decreases rs.len(),
{
    if rs.len() == 0 {
        Seq::empty()
    } else {
        rs[0].1 + concat_runs(rs.skip(1))
    }
}

proof fn lemma_concat_runs_cons(x: (bool, Seq<char>), rest: Seq<(bool, Seq<char>)>)
    ensures
        concat_runs(seq![x] + rest) == x.1 + concat_runs(rest),
{
    assert((seq![x] + rest)[0] == x);
    assert((seq![x] + rest).skip(1) =~= rest);
}

proof fn lemma_runs_from_concat(s: Seq<char>, cur: bool, acc: Seq<char>)
    ensures
        concat_runs(runs_from(s, cur, acc)) == acc + s,
    decreases s.len(),
{
    if s.len() == 0 {
        if acc.len() == 0 {
            assert(concat_runs(runs_from(s, cur, acc)) =~= acc + s);
        } else {
            assert(runs_from(s, cur, acc) == seq![(cur, acc)]);
            assert((seq![(cur, acc)]).skip(1) =~= Seq::<(bool, Seq<char>)>::empty());
            assert(concat_runs(Seq::<(bool, Seq<char>)>::empty()) == Seq::<char>::empty());
            assert(concat_runs(seq![(cur, acc)]) == acc + concat_runs(
                Seq::<(bool, Seq<char>)>::empty(),
            ));
            assert(concat_runs(runs_from(s, cur, acc)) =~= acc + s);
        }
    } else {
        let st = step_spec(s[0], cur, acc);
        lemma_runs_from_concat(s.skip(1), st.1, st.2);
        if is_letter(s[0]) == cur || acc.len() == 0 {
            assert(runs_from(s, cur, acc) =~= runs_from(s.skip(1), st.1, st.2));
            assert(acc.push(s[0]) + s.skip(1) =~= acc + s);
        } else {
            lemma_concat_runs_cons((cur, acc), runs_from(s.skip(1), st.1, st.2));
            assert(seq![s[0]] + s.skip(1) =~= s);
            assert(acc + (seq![s[0]] + s.skip(1)) =~= acc + s);
        }
    }
}

/// Lossless partition: concatenating the classifier's runs in order
/// reproduces the normalized input exactly — classification drops or
/// duplicates no character beyond the form-feed removals and ligature
/// expansions that normalization itself performs.
pub proof fn lemma_classification_lossless(s: Seq<char>)
    ensures
        concat_runs(classify_spec(s)) == norm_chars(s),
{
    lemma_runs_from_concat(norm_chars(s), true, Seq::empty());
    assert(Seq::empty() + norm_chars(s) =~= norm_chars(s));
}

/// A character normalization leaves alone: not a form feed and not one of
/// the two expanded ligatures.
pub open spec fn plain_char(c: char) -> bool {
    c != '\u{c}' && c != '\u{fb01}' && c != '\u{fb02}'
}

/// On text without form feeds or ligatures, normalization is the identity,
/// so there the classifier's runs concatenate back to the input itself.
pub proof fn lemma_norm_identity(s: Seq<char>)
    requires
        forall|i: int| 0 <= i < s.len() ==> plain_char(s[i]),
    ensures
        norm_chars(s) == s,
    decreases s.len(),
{
    if s.len() == 0 {
        assert(norm_chars(s) =~= s);
    } else {
        assert(plain_char(s[0]));
        lemma_norm_identity(s.skip(1));
        assert(norm_chars(s) =~= s);
    }
}

/// The ligature-expanded form of a text: U+FB01 and U+FB02 replaced by
/// `fi` / `fl`, everything else (form feeds included) kept.
pub open spec fn expand_ligatures(s: Seq<char>) -> Seq<char>
    decreases s.len(),
{
    if s.len() == 0 {
        Seq::empty()
    } else {
        let head: Seq<char> = if s[0] == '\u{fb01}' {
            seq!['f', 'i']
        } else if s[0] == '\u{fb02}' {
            seq!['f', 'l']
        } else {
            seq![s[0]]
        };
        head + expand_ligatures(s.skip(1))
    }
}

proof fn lemma_norm_unfold_cons(c: char, rest: Seq<char>)
    ensures
        norm_chars(seq![c] + rest) == norm_head(c) + norm_chars(rest),
{
    assert((seq![c] + rest)[0] == c);
    assert((seq![c] + rest).skip(1) =~= rest);
}

proof fn lemma_norm_expand(s: Seq<char>)
    ensures
        norm_chars(expand_ligatures(s)) == norm_chars(s),
    decreases s.len(),
{
    if s.len() == 0 {
    } else {
        lemma_norm_expand(s.skip(1));
        let rest = expand_ligatures(s.skip(1));
        if s[0] == '\u{fb01}' || s[0] == '\u{fb02}' {
            let second = if s[0] == '\u{fb01}' { 'i' } else { 'l' };
            assert(expand_ligatures(s) =~= seq!['f', second] + rest);
            lemma_norm_unfold_cons('f', seq![second] + rest);
            assert((seq!['f'] + (seq![second] + rest)) =~= seq!['f', second] + rest);
            lemma_norm_unfold_cons(second, rest);
            assert(norm_chars(expand_ligatures(s)) =~= norm_head(s[0]) + norm_chars(s.skip(1)));
            assert(norm_chars(s) =~= norm_head(s[0]) + norm_chars(s.skip(1)));
        } else {
            assert(expand_ligatures(s) =~= seq![s[0]] + rest);
            lemma_norm_unfold_cons(s[0], rest);
            assert(norm_chars(s) =~= norm_head(s[0]) + norm_chars(s.skip(1)));
        }
    }
}

/// Ligature expansion equivalence: a text with U+FB01 or U+FB02 ligatures
/// classifies — and therefore segments — exactly as its expanded
/// two-letter form does.
pub proof fn lemma_ligature_equivalence(s: Seq<char>)
    ensures
        classify_spec(expand_ligatures(s)) == classify_spec(s),
{
    lemma_norm_expand(s);
}

/// Feeds one normalized character to the classifier state.
fn classify_step(finished: &mut Vec<(bool, String)>, acc: &mut Vec<char>, cur: &mut bool, c: char)
    ensures
        ({
            let st = step_spec(c, *old(cur), old(acc)@);
            &&& runs_view(final(finished)@) == runs_view(old(finished)@) + st.0
            &&& *final(cur) == st.1
            &&& final(acc)@ == st.2
        }),
{
    let l = letter(c);
    if l == *cur || acc.len() == 0 {
        acc.push(c);
        *cur = l;
        proof {
            assert(runs_view(finished@) =~= runs_view(finished@) + Seq::<(bool, Seq<char>)>::empty());
        }
    } else {
        let text = string_of(acc);
        let ghost before = finished@;
        finished.push((*cur, text));
        acc.clear();
        acc.push(c);
        *cur = l;
        proof {
            assert(runs_view(finished@) =~= runs_view(before) + seq![(*old(cur), old(acc)@)]);
            assert(acc@ =~= seq![c]);
        }
    }
}

/// Partitions the text into alternating maximal runs: `(true, text)` for a
/// segmentable span of ASCII letters, `(false, text)` for a passthrough
/// span copied through unchanged. Form feeds are dropped and the ligatures
/// U+FB01 and U+FB02 are expanded to `fi` / `fl` as segmentable letters.
pub fn seg_to_asciis(s: String) -> (r: Vec<(bool, String)>)
    ensures
        runs_view(r@) == classify_spec(s@),
{
    let v = chars_of(s.as_str());
    let ghost s0 = s@;
    let n = v.len();
    let mut finished: Vec<(bool, String)> = Vec::new();
    let mut acc: Vec<char> = Vec::new();
    let mut cur: bool = true;
    let mut i: usize = 0;
    proof {
        assert(v@.skip(0) =~= v@);
        assert(runs_view(finished@) =~= Seq::<(bool, Seq<char>)>::empty());
    }
    while i < n
        invariant
            i <= n,
            n == v@.len(),
            v@ == s0,
            classify_spec(s0) == runs_view(finished@) + runs_from(
                norm_chars(v@.skip(i as int)),
                cur,
                acc@,
            ),
        decreases n - i,
    {
        let c = v[i];
        proof {
            assert(v@.skip(i as int)[0] == c);
            assert(v@.skip(i as int).skip(1) =~= v@.skip(i as int + 1));
        }
        let ghost rest = norm_chars(v@.skip(i as int + 1));
        if c == '\u{c}' {
            proof {
                assert(norm_chars(v@.skip(i as int)) =~= rest);
            }
        } else if c == '\u{fb01}' || c == '\u{fb02}' {
            let second = if c == '\u{fb01}' { 'i' } else { 'l' };
            proof {
                let whole = norm_chars(v@.skip(i as int));
                assert(whole =~= seq!['f', second] + rest);
                assert((seq!['f', second] + rest)[0] == 'f');
                assert((seq!['f', second] + rest).skip(1) =~= seq![second] + rest);
                assert((seq![second] + rest)[0] == second);
                assert((seq![second] + rest).skip(1) =~= rest);
            }
            let ghost cur0 = cur;
            let ghost acc0 = acc@;
            let ghost f0 = finished@;
            let ghost st1 = step_spec('f', cur, acc@);
            let ghost st2 = step_spec(second, st1.1, st1.2);
            proof {
                let whole = norm_chars(v@.skip(i as int));
                assert(runs_from(whole, cur0, acc0) == st1.0 + runs_from(
                    seq![second] + rest,
                    st1.1,
                    st1.2,
                ));
                assert(runs_from(seq![second] + rest, st1.1, st1.2) == st2.0 + runs_from(
                    rest,
                    st2.1,
                    st2.2,
                ));
            }
            classify_step(&mut finished, &mut acc, &mut cur, 'f');
            classify_step(&mut finished, &mut acc, &mut cur, second);
            proof {
                assert(runs_view(finished@) =~= runs_view(f0) + st1.0 + st2.0);
                assert(runs_view(finished@) + runs_from(rest, cur, acc@) =~= classify_spec(s0));
            }
        } else {
            proof {
                let whole = norm_chars(v@.skip(i as int));
                assert(whole =~= seq![c] + rest);
                assert((seq![c] + rest)[0] == c);
                assert((seq![c] + rest).skip(1) =~= rest);
            }
            classify_step(&mut finished, &mut acc, &mut cur, c);
            proof {
                assert(runs_view(finished@) + runs_from(rest, cur, acc@) =~= classify_spec(s0));
            }
        }
        i = i + 1;
    }
    proof {
        assert(v@.skip(n as int) =~= Seq::<char>::empty());
    }
    if acc.len() > 0 {
        let text = string_of(&acc);
        let ghost before = finished@;
        finished.push((cur, text));
        proof {
            assert(runs_view(finished@) =~= runs_view(before) + seq![(cur, acc@)]);
        }
    }
    proof {
        assert(runs_view(finished@) =~= classify_spec(s0));
    }
    finished
}

} // verus!
