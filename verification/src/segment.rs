//! The statistical segmenter: a dynamic program over character positions
//! that splits one segmentable run into the likeliest sequence of
//! dictionary words.
//!
//! `best(i)` is the best cumulative score of any admissible split of the
//! first `i` characters, where a split is scored word by word: a word whose
//! transition from the preceding word the bigram model confirms scores
//! highest, a word the unigram model knows scores lower, and an unknown
//! word costs a large penalty that grows with its length, so that many tiny
//! unknown fragments are strongly disfavored. Candidate word lengths are
//! bounded by the longest unigram key, and equal scores prefer the longer
//! final word. When even the best split scores no better than leaving the
//! whole run as one unknown fragment, the run is emitted verbatim and the
//! caller reports a diagnostic.
//!
//! All scores are integers. A known word scores `lg(weight) - 200` from the
//! unigram model and `lg(weight) - 140` from the bigram model, where `lg`
//! (the bit length of the weight in thousandths) lies between 0 and 64, so
//! any single word beats any two-word split of the same span unless an
//! unknown word is involved; an unknown word of length `L` scores
//! `-(1000 + 500 L)`.

use vstd::prelude::*;
use crate::table::FrequencyTable;

verus! {

/// Bit length of a non-negative integer: `lg(0) == 0`, and for positive
/// `w`, `lg(w)` is one more than the floor of the base-two logarithm.
pub open spec fn lg(w: int) -> int
    decreases w,
{
    if w <= 0 {
        0
    } else {
        1 + lg(w / 2)
    }
}

proof fn lemma_lg_bound(w: int, b: nat)
    requires
        0 <= w < vstd::arithmetic::power2::pow2(b),
    ensures
        0 <= lg(w) <= b,
    decreases b,
{
    if w == 0 {
    } else {
        if b == 0 {
            assert(vstd::arithmetic::power2::pow2(0) == 1) by {
                vstd::arithmetic::power2::lemma2_to64();
            }
        } else {
            assert(vstd::arithmetic::power2::pow2(b) == 2 * vstd::arithmetic::power2::pow2(
                (b - 1) as nat,
            )) by {
                vstd::arithmetic::power2::lemma_pow2_unfold(b);
            }
            assert(w / 2 < vstd::arithmetic::power2::pow2((b - 1) as nat));
            lemma_lg_bound(w / 2, (b - 1) as nat);
        }
    }
}

/// The bit length of any 64-bit weight lies between 0 and 64.
proof fn lemma_lg_u64(w: u64)
    ensures
        0 <= lg(w as int) <= 64,
{
    assert(vstd::arithmetic::power2::pow2(64) == 0x10000000000000000) by {
        vstd::arithmetic::power2::lemma2_to64_rest();
    }
    lemma_lg_bound(w as int, 64);
}

/// Score a candidate word contributes, given the word that precedes it in
/// the split (`None` at the start of the run): a confirmed bigram
/// transition scores highest, then unigram evidence, then the length-scaled
/// unknown-word penalty.
pub open spec fn score_word(t: FrequencyTable, prev: Option<Seq<char>>, w: Seq<char>) -> int {
    if prev.is_some() && t.bi_weight(prev.unwrap(), w).is_some() {
        lg(t.bi_weight(prev.unwrap(), w).unwrap() as int) - 140
    } else if t.uni_weight(w).is_some() {
        lg(t.uni_weight(w).unwrap() as int) - 200
    } else {
        -(1000 + 500 * w.len() as int)
    }
}

/// Bound on candidate word lengths: the longest unigram key, and at least
/// one so the dynamic program always advances.
pub open spec fn wmax(t: FrequencyTable) -> int {
    if t.max_uni_len() < 1 {
        1
    } else {
        t.max_uni_len()
    }
}

/// Best score and chosen final-word length at position `i` of the run:
/// the dynamic program's table entry. `dp(t, s, 0) == (0, 0)`.
pub open spec fn dp(t: FrequencyTable, s: Seq<char>, i: int) -> (int, int)
    decreases i, wmax(t) + 1,
{
    if i <= 0 {
        (0, 0)
    } else {
        cand(t, s, i, if i < wmax(t) { i } else { wmax(t) })
    }
}

/// The word the dynamic program's chain ends with at position `j`, used as
/// the bigram context for the next word; `None` at the start of the run.
pub open spec fn prev_word(t: FrequencyTable, s: Seq<char>, j: int) -> Option<Seq<char>>
    decreases j, wmax(t) + 2,
{
    if j <= 0 {
        None
    } else {
        Some(s.subrange(j - dp(t, s, j).1, j))
    }
}

/// Best score and word length over candidate final-word lengths `1..=l` at
/// position `i`; equal scores prefer the longer word.
pub open spec fn cand(t: FrequencyTable, s: Seq<char>, i: int, l: int) -> (int, int)
    decreases i, l,
{
    if l <= 0 || i < l {
        (0, 0)
    } else {
        let sc = dp(t, s, i - l).0 + score_word(
            t,
            prev_word(t, s, i - l),
            s.subrange(i - l, i),
        );
        if l == 1 {
            (sc, 1)
        } else {
            let rest = cand(t, s, i, l - 1);
            if sc >= rest.0 {
                (sc, l)
            } else {
                rest
            }
        }
    }
}

/// The winning split of the first `i` characters, reconstructed by walking
/// the recorded final-word lengths backward.
pub open spec fn seg_words(t: FrequencyTable, s: Seq<char>, i: int) -> Seq<Seq<char>>
    decreases i,
{
    if i <= 0 {
        Seq::empty()
    } else {
        let l = dp(t, s, i).1;
        let step = if 1 <= l <= i {
            l
        } else {
            1
        };
        seg_words(t, s, i - step).push(s.subrange(i - step, i))
    }
}

/// The validity floor: a split counts only if it scores strictly better
/// than leaving the whole run as a single unknown fragment.
pub open spec fn seg_valid(t: FrequencyTable, s: Seq<char>) -> bool {
    dp(t, s, s.len() as int).0 > -(1000 + 500 * s.len() as int)
}

proof fn lemma_cand_len_bounds(t: FrequencyTable, s: Seq<char>, i: int, l: int)
    requires
        1 <= l <= i,
    ensures
        1 <= cand(t, s, i, l).1 <= l,
    decreases l,
{
    if l > 1 {
        lemma_cand_len_bounds(t, s, i, l - 1);
    }
}

/// The chosen final-word length at any reachable position is a real word
/// length: at least one, at most the position and the candidate bound.
pub proof fn lemma_dp_len_bounds(t: FrequencyTable, s: Seq<char>, i: int)
    requires
        i >= 1,
    ensures
        1 <= dp(t, s, i).1 <= i,
        dp(t, s, i).1 <= wmax(t),
{
    let m = if i < wmax(t) {
        i
    } else {
        wmax(t)
    };
    lemma_cand_len_bounds(t, s, i, m);
}

proof fn lemma_score_word_max(t: FrequencyTable, prev: Option<Seq<char>>, w: Seq<char>)
    ensures
        score_word(t, prev, w) <= -76,
        prev.is_none() ==> score_word(t, prev, w) <= -136,
{
    if prev.is_some() && t.bi_weight(prev.unwrap(), w).is_some() {
        lemma_lg_u64(t.bi_weight(prev.unwrap(), w).unwrap());
    } else if t.uni_weight(w).is_some() {
        lemma_lg_u64(t.uni_weight(w).unwrap());
    }
}

proof fn lemma_score_word_min(t: FrequencyTable, prev: Option<Seq<char>>, w: Seq<char>)
    ensures
        score_word(t, prev, w) >= -(1000 + 500 * w.len() as int),
{
    if prev.is_some() && t.bi_weight(prev.unwrap(), w).is_some() {
        lemma_lg_u64(t.bi_weight(prev.unwrap(), w).unwrap());
    } else if t.uni_weight(w).is_some() {
        lemma_lg_u64(t.uni_weight(w).unwrap());
    }
}

proof fn lemma_cand_le(t: FrequencyTable, s: Seq<char>, i: int, l: int)
    requires
        1 <= l <= i,
    ensures
        cand(t, s, i, l).0 <= -136,
        l < i ==> cand(t, s, i, l).0 <= -212,
    decreases i, l,
{
    let sc = dp(t, s, i - l).0 + score_word(t, prev_word(t, s, i - l), s.subrange(i - l, i));
    lemma_score_word_max(t, prev_word(t, s, i - l), s.subrange(i - l, i));
    if i - l == 0 {
        assert(prev_word(t, s, 0).is_none());
        assert(sc <= -136);
    } else {
        lemma_dp_le(t, s, i - l);
        assert(sc <= -212);
    }
    if l > 1 {
        lemma_cand_le(t, s, i, l - 1);
    }
}

/// Any admissible chain at a reachable position scores at most -136, and
/// any chain of two or more words at most -212.
proof fn lemma_dp_le(t: FrequencyTable, s: Seq<char>, i: int)
    requires
        i >= 1,
    ensures
        dp(t, s, i).0 <= -136,
    decreases i, wmax(t) + 1,
{
    let m = if i < wmax(t) {
        i
    } else {
        wmax(t)
    };
    lemma_cand_le(t, s, i, m);
}

proof fn lemma_cand_range(t: FrequencyTable, s: Seq<char>, i: int, l: int)
    requires
        1 <= l <= i <= s.len(),
    ensures
        -(1500 * i) <= cand(t, s, i, l).0 <= 0,
    decreases i, l,
{
    let pw = prev_word(t, s, i - l);
    let w = s.subrange(i - l, i);
    lemma_score_word_max(t, pw, w);
    lemma_score_word_min(t, pw, w);
    lemma_dp_range(t, s, i - l);
    assert(w.len() == l);
    if l > 1 {
        lemma_cand_range(t, s, i, l - 1);
    }
}

/// Every dynamic-program score lies between `-(1500 i)` and zero, which
/// bounds the executable arithmetic.
pub proof fn lemma_dp_range(t: FrequencyTable, s: Seq<char>, i: int)
    requires
        0 <= i <= s.len(),
    ensures
        -(1500 * i) <= dp(t, s, i).0 <= 0,
    decreases i, wmax(t) + 1,
{
    if i >= 1 {
        let m = if i < wmax(t) {
            i
        } else {
            wmax(t)
        };
        lemma_cand_range(t, s, i, m);
    }
}

proof fn lemma_first_weight_len(es: Seq<(Seq<char>, u64)>, w: Seq<char>)
    requires
        crate::table::first_weight(es, w).is_some(),
    ensures
        crate::table::max_key_len(es) >= w.len(),
    decreases es.len(),
{
    if es.len() > 0 && es[0].0 != w {
        lemma_first_weight_len(es.skip(1), w);
    }
}

/// Known-word identity: a run whose text is itself a word of the unigram
/// model segments into exactly that one word, and the split is valid. Any
/// two-word split scores at most -212, while the single known word scores
/// at least -200.
pub proof fn lemma_known_word_identity(t: FrequencyTable, s: Seq<char>)
    requires
        t.uni_weight(s).is_some(),
        s.len() >= 1,
    ensures
        seg_valid(t, s),
        seg_words(t, s, s.len() as int) == seq![s],
{
    let n = s.len() as int;
    lemma_first_weight_len(t.uni(), s);
    assert(wmax(t) >= n);
    assert(s.subrange(0, n) =~= s);
    let wsc = lg(t.uni_weight(s).unwrap() as int) - 200;
    lemma_lg_u64(t.uni_weight(s).unwrap());
    assert(prev_word(t, s, 0) == None::<Seq<char>>);
    assert(dp(t, s, 0) == (0int, 0int));
    assert(score_word(t, prev_word(t, s, 0), s.subrange(0, n)) == wsc);
    if n == 1 {
        assert(cand(t, s, 1, 1) == (wsc, 1int));
        assert(dp(t, s, 1) == (wsc, 1int));
    } else {
        lemma_cand_le(t, s, n, n - 1);
        assert(cand(t, s, n, n) == (wsc, n));
    }
    assert(dp(t, s, n) == (wsc, n));
    assert(seg_words(t, s, 0) =~= Seq::<Seq<char>>::empty());
    assert(seg_words(t, s, n) =~= seq![s]);
}

/// Bit length of a 64-bit weight.
fn lg_bits(w: u64) -> (r: u64)
    ensures
        r == lg(w as int),
{
    let mut v: u64 = w;
    let mut r: u64 = 0;
    proof {
        lemma_lg_u64(w);
    }
    while v > 0
        invariant
            r + lg(v as int) == lg(w as int),
            0 <= lg(w as int) <= 64,
            lg(v as int) >= 0,
        decreases v,
    {
        proof {
            lemma_lg_u64(v / 2);
        }
        v = v / 2;
        r = r + 1;
    }
    r
}

/// The view of an optional borrowed word.
pub open spec fn opt_word_view(p: Option<&Vec<char>>) -> Option<Seq<char>> {
    match p {
        Some(w) => Some(w@),
        None => None,
    }
}

/// Score of one candidate word after the given predecessor.
fn word_score(t: &FrequencyTable, prev: Option<&Vec<char>>, w: &Vec<char>) -> (sc: i128)
    ensures
        sc == score_word(*t, opt_word_view(prev), w@),
{
    match prev {
        Some(p) => {
            match t.bigram_weight(p, w) {
                Some(bw) => {
                    let b = lg_bits(bw);
                    proof {
                        lemma_lg_u64(bw);
                    }
                    return b as i128 - 140;
                },
                None => {},
            }
        },
        None => {},
    }
    match t.unigram_weight(w) {
        Some(uw) => {
            let u = lg_bits(uw);
            proof {
                lemma_lg_u64(uw);
            }
            u as i128 - 200
        },
        None => -(1000 + 500 * (w.len() as i128)),
    }
}

/// The character sequences of an executable word list.
pub open spec fn words_view(ws: Seq<String>) -> Seq<Seq<char>> {
    ws.map_values(|w: String| w@)
}

/// Splits one segmentable run into the likeliest sequence of dictionary
/// words. The run is lowercased first; the words of a successful split
/// concatenate back to the lowercased run. When no split scores above the
/// validity floor the lowercased run text is returned as the error, for the
/// caller to emit verbatim and report.
pub fn segment_run(t: &FrequencyTable, run: &str) -> (r: Result<Vec<String>, String>)
    ensures
        ({
            let s = crate::chars::lower_seq(run@);
            match r {
                Ok(ws) => seg_valid(*t, s) && words_view(ws@) == seg_words(*t, s, s.len() as int),
                Err(e) => !seg_valid(*t, s) && e@ == s,
            }
        }),
{
    let cs = crate::chars::chars_of(run);
    let lv = crate::chars::lower_chars(&cs);
    let ghost s = lv@;
    let n = lv.len();
    let wm0 = t.max_unigram_len();
    let wm = if wm0 < 1 {
        1
    } else {
        wm0
    };
    proof {
        assert(wm == wmax(*t));
    }
    let mut best: Vec<i128> = Vec::new();
    let mut blen: Vec<usize> = Vec::new();
    best.push(0);
    blen.push(0);
    let mut i0: usize = 0;
    while i0 < n
        invariant
            0 <= i0 <= n,
            n == s.len(),
            lv@ == s,
            wm == wmax(*t),
            best@.len() == i0 + 1,
            blen@.len() == i0 + 1,
            forall|j: int| 0 <= j <= i0 ==> best@[j] == dp(*t, s, j).0,
            forall|j: int| 0 <= j <= i0 ==> blen@[j] == dp(*t, s, j).1,
        decreases n - i0,
    {
        let i = i0 + 1;
        let m = if i < wm {
            i
        } else {
            wm
        };
        // the candidate of length one, then the longer candidates in turn
        let mut cur_sc: i128 = 0;
        let mut cur_l: usize = 1;
        let mut l0: usize = 0;
        while l0 < m
            invariant
                0 <= l0 <= m,
                1 <= m <= i <= n,
                i == i0 + 1,
                n == s.len(),
                lv@ == s,
                wm == wmax(*t),
                m == (if i < wmax(*t) {
                    i as int
                } else {
                    wmax(*t)
                }),
                best@.len() == i,
                blen@.len() == i,
                forall|j: int| 0 <= j < i ==> best@[j] == dp(*t, s, j).0,
                forall|j: int| 0 <= j < i ==> blen@[j] == dp(*t, s, j).1,
                l0 > 0 ==> (cur_sc as int, cur_l as int) == cand(*t, s, i as int, l0 as int),
            decreases m - l0,
        {
            let l = l0 + 1;
            let j = i - l;
            proof {
                if j >= 1 {
                    lemma_dp_len_bounds(*t, s, j as int);
                }
                lemma_dp_range(*t, s, j as int);
                lemma_score_word_max(*t, prev_word(*t, s, j as int), s.subrange(j as int, i as int));
                lemma_score_word_min(*t, prev_word(*t, s, j as int), s.subrange(j as int, i as int));
            }
            let w = crate::chars::sub_chars(&lv, j, i);
            let sc_word: i128 = if j == 0 {
                word_score(t, None, &w)
            } else {
                let pl = blen[j];
                let pw = crate::chars::sub_chars(&lv, j - pl, j);
                word_score(t, Some(&pw), &w)
            };
            proof {
                assert(sc_word == score_word(
                    *t,
                    prev_word(*t, s, j as int),
                    s.subrange(j as int, i as int),
                ));
            }
            let total: i128 = best[j] + sc_word;
            proof {
                assert(total == dp(*t, s, j as int).0 + score_word(
                    *t,
                    prev_word(*t, s, j as int),
                    s.subrange(j as int, i as int),
                ));
            }
            if l0 == 0 || total >= cur_sc {
                cur_sc = total;
                cur_l = l;
            }
            proof {
                assert((cur_sc as int, cur_l as int) == cand(*t, s, i as int, l as int));
            }
            l0 = l;
        }
        best.push(cur_sc);
        blen.push(cur_l);
        proof {
            assert(dp(*t, s, i as int) == cand(
                *t,
                s,
                i as int,
                if i < wmax(*t) {
                    i as int
                } else {
                    wmax(*t)
                },
            ));
            assert(best@[i as int] == dp(*t, s, i as int).0);
            assert(blen@[i as int] == dp(*t, s, i as int).1);
        }
        i0 = i;
    }
    // the validity floor: better than one unknown fragment, or nothing
    let floor: i128 = -(1000 + 500 * (n as i128));
    if !(best[n] > floor) {
        proof {
            assert(!seg_valid(*t, s));
        }
        return Err(crate::chars::string_of(&lv));
    }
    // walk the recorded word lengths backward
    let mut rev: Vec<Vec<char>> = Vec::new();
    let mut p: usize = n;
    proof {
        assert(seg_words(*t, s, n as int) =~= seg_words(*t, s, n as int) + rev@.map_values(
            |w: Vec<char>| w@,
        ).reverse());
    }
    while p > 0
        invariant
            p <= n,
            n == s.len(),
            lv@ == s,
            best@.len() == n + 1,
            blen@.len() == n + 1,
            forall|j: int| 0 <= j <= n ==> blen@[j] == dp(*t, s, j).1,
            seg_words(*t, s, n as int) == seg_words(*t, s, p as int) + rev@.map_values(
                |w: Vec<char>| w@,
            ).reverse(),
        decreases p,
    {
        proof {
            lemma_dp_len_bounds(*t, s, p as int);
        }
        let l = blen[p];
        let w = crate::chars::sub_chars(&lv, p - l, p);
        let ghost rv0 = rev@;
        rev.push(w);
        proof {
            assert(rev@.map_values(|w: Vec<char>| w@).reverse() =~= seq![
                s.subrange(p - l, p as int),
            ] + rv0.map_values(|w: Vec<char>| w@).reverse());
            assert(seg_words(*t, s, p as int) == seg_words(*t, s, p - l).push(
                s.subrange(p - l, p as int),
            ));
            assert(seg_words(*t, s, n as int) =~= seg_words(*t, s, p - l) + rev@.map_values(
                |w: Vec<char>| w@,
            ).reverse());
        }
        p = p - l;
    }
    // the words were collected last-first
    let mut out: Vec<String> = Vec::new();
    let mut q: usize = rev.len();
    let ghost target = seg_words(*t, s, n as int);
    proof {
        assert(seg_words(*t, s, 0) =~= Seq::<Seq<char>>::empty());
        assert(target =~= rev@.map_values(|w: Vec<char>| w@).reverse());
        assert(words_view(out@) =~= target.take(0));
    }
    while q > 0
        invariant
            q <= rev@.len(),
            target == rev@.map_values(|w: Vec<char>| w@).reverse(),
            words_view(out@) == target.take(rev@.len() - q),
        decreases q,
    {
        q = q - 1;
        let tok = crate::chars::string_of(&rev[q]);
        let ghost out0 = out@;
        out.push(tok);
        proof {
            assert(out@.last()@ == rev@[q as int]@);
            assert(rev@.map_values(|w: Vec<char>| w@).reverse()[rev@.len() - q - 1] == rev@.map_values(
                |w: Vec<char>| w@,
            )[q as int]);
            assert(target[rev@.len() - q - 1] == rev@[q as int]@);
            assert(target.len() == rev@.len());
            assert(words_view(out0).len() == out0.len());
            assert(target.take(rev@.len() - q - 1).len() == rev@.len() - q - 1);
            assert(out0.len() == rev@.len() - q - 1);
            assert forall|k: int| 0 <= k < out@.len() implies #[trigger] words_view(out@)[k]
                == target[k] by {
                assert(words_view(out@)[k] == out@[k]@);
                if k < out0.len() {
                    assert(out@[k] == out0[k]);
                    assert(words_view(out0)[k] == out0[k]@);
                    assert(words_view(out0)[k] == target.take(rev@.len() - q - 1)[k]);
                    assert(target.take(rev@.len() - q - 1)[k] == target[k]);
                } else {
                    assert(k == out@.len() - 1);
                    assert(out@[k] == out@.last());
                    assert(k == rev@.len() - q - 1);
                }
            }
            assert(words_view(out@) =~= target.take(rev@.len() - q));
        }
    }
    proof {
        assert(target.take(rev@.len() as int) =~= target);
    }
    Ok(out)
}

proof fn lemma_cand_all_unknown(t: FrequencyTable, s: Seq<char>, i: int, l: int)
    requires
        1 <= l <= i <= s.len(),
        forall|a: int, b: int|
            0 <= a <= b <= s.len() ==> (#[trigger] t.uni_weight(s.subrange(a, b))).is_none(),
        forall|p: Seq<char>, a: int, b: int|
            0 <= a <= b <= s.len() ==> (#[trigger] t.bi_weight(p, s.subrange(a, b))).is_none(),
    ensures
        cand(t, s, i, l).0 <= -(1000 + 500 * i),
    decreases i, l,
{
    let pw = prev_word(t, s, i - l);
    let w = s.subrange(i - l, i);
    assert(t.uni_weight(w).is_none());
    assert(match pw {
        Some(p) => t.bi_weight(p, w).is_none(),
        None => true,
    });
    assert(score_word(t, pw, w) == -(1000 + 500 * l));
    let sc = dp(t, s, i - l).0 + score_word(t, pw, w);
    if i - l >= 1 {
        lemma_fallback_on_no_match(t, s, i - l);
        assert(sc <= -(1000 + 500 * i));
    } else {
        assert(dp(t, s, 0) == (0int, 0int));
        assert(sc == -(1000 + 500 * i));
    }
    if l > 1 {
        lemma_cand_all_unknown(t, s, i, l - 1);
        assert(cand(t, s, i, l).0 <= -(1000 + 500 * i));
    } else {
        assert(cand(t, s, i, l) == (sc, 1int));
    }
}

/// Fallback on failure: when no substring of the run is a word of either
/// model, every split scores at or below the single-fragment floor.
proof fn lemma_fallback_on_no_match(t: FrequencyTable, s: Seq<char>, i: int)
    requires
        1 <= i <= s.len(),
        forall|a: int, b: int|
            0 <= a <= b <= s.len() ==> (#[trigger] t.uni_weight(s.subrange(a, b))).is_none(),
        forall|p: Seq<char>, a: int, b: int|
            0 <= a <= b <= s.len() ==> (#[trigger] t.bi_weight(p, s.subrange(a, b))).is_none(),
    ensures
        dp(t, s, i).0 <= -(1000 + 500 * i),
    decreases i, wmax(t) + 1,
{
    let m = if i < wmax(t) {
        i
    } else {
        wmax(t)
    };
    lemma_cand_all_unknown(t, s, i, m);
}

/// Fallback on failure: a nonempty run none of whose substrings the table
/// knows is not segmented — it is emitted verbatim as a single token, with
/// a diagnostic.
pub proof fn lemma_no_match_is_verbatim(t: FrequencyTable, s: Seq<char>)
    requires
        s.len() >= 1,
        forall|a: int, b: int|
            0 <= a <= b <= s.len() ==> (#[trigger] t.uni_weight(s.subrange(a, b))).is_none(),
        forall|p: Seq<char>, a: int, b: int|
            0 <= a <= b <= s.len() ==> (#[trigger] t.bi_weight(p, s.subrange(a, b))).is_none(),
    ensures
        !seg_valid(t, s),
{
    lemma_fallback_on_no_match(t, s, s.len() as int);
}

/// Concatenation of a word list, used to state that a split covers its run.
pub open spec fn concat_words(ws: Seq<Seq<char>>) -> Seq<char>
    decreases ws.len(),
{
    if ws.len() == 0 {
        Seq::empty()
    } else {
        concat_words(ws.drop_last()) + ws.last()
    }
}

/// A winning split loses no characters: its words concatenate back to the
/// prefix of the run they cover.
pub proof fn lemma_seg_words_concat(t: FrequencyTable, s: Seq<char>, i: int)
    requires
        0 <= i <= s.len(),
    ensures
        concat_words(seg_words(t, s, i)) == s.take(i),
    decreases i,
{
    if i <= 0 {
        assert(concat_words(seg_words(t, s, i)) =~= s.take(i));
    } else {
        let l = dp(t, s, i).1;
        let step = if 1 <= l <= i {
            l
        } else {
            1
        };
        lemma_seg_words_concat(t, s, i - step);
        let ws = seg_words(t, s, i);
        assert(ws.drop_last() =~= seg_words(t, s, i - step));
        assert(ws.last() == s.subrange(i - step, i));
        assert(s.take(i - step) + s.subrange(i - step, i) =~= s.take(i));
    }
}

} // verus!
