//! Punctuation normalization: ordered spacing-correction rules over the
//! assembled string.
//!
//! Three rules run in a fixed order, each a single left-to-right pass whose
//! output feeds the next:
//!
//! 1. any whitespace run immediately before `(` collapses to a single
//!    space, and whitespace immediately after `(` is removed;
//! 2. whitespace immediately before `)` is removed, and exactly one space
//!    follows `)`;
//! 3. for each punctuation mark (`. , ! " ' ’ ; : ?`), whitespace
//!    immediately before the mark is removed and exactly one space follows
//!    it.
//!
//! Whitespace here means the ASCII whitespace code points. The rules are
//! total and the composition is idempotent: a second application leaves the
//! text unchanged.

use vstd::prelude::*;
use crate::chars::is_space;
use crate::chars::is_mark;
use crate::chars::space;
use crate::chars::mark;
use crate::chars::chars_of;
use crate::chars::string_of;

verus! {

/// Length of the whitespace prefix of the text.
pub open spec fn ws_len(s: Seq<char>) -> int
    decreases s.len(),
{
    if s.len() == 0 || !is_space(s[0]) {
        0
    } else {
        1 + ws_len(s.skip(1))
    }
}

pub proof fn lemma_ws_len_bounds(s: Seq<char>)
    ensures
        0 <= ws_len(s) <= s.len(),
        forall|j: int| 0 <= j < ws_len(s) ==> is_space(s[j]),
        ws_len(s) < s.len() ==> !is_space(s[ws_len(s)]),
    decreases s.len(),
{
    if s.len() > 0 && is_space(s[0]) {
        lemma_ws_len_bounds(s.skip(1));
        assert forall|j: int| 0 <= j < ws_len(s) implies is_space(s[j]) by {
            if j > 0 {
                assert(s.skip(1)[j - 1] == s[j]);
            }
        }
    }
}

/// The opening-parenthesis rule: scanning left to right, a whitespace run
/// followed by `(` becomes a single space (no space where there was none),
/// and the whitespace after the `(` is dropped; the scan resumes past it.
pub open spec fn rule_open(s: Seq<char>) -> Seq<char>
    decreases s.len(),
    via rule_open_dec
{
    if s.len() == 0 {
        Seq::empty()
    } else {
        let w = ws_len(s);
        if w < s.len() && s[w] == '(' {
            let gap = ws_len(s.skip(w + 1));
            let before: Seq<char> = if w > 0 {
                seq![' ']
            } else {
                Seq::empty()
            };
            before + seq!['('] + rule_open(s.skip(w + 1 + gap))
        } else {
            seq![s[0]] + rule_open(s.skip(1))
        }
    }
}

#[via_fn]
proof fn rule_open_dec(s: Seq<char>) {
    lemma_ws_len_bounds(s);
    if s.len() > 0 {
        let w = ws_len(s);
        if w < s.len() && s[w] == '(' {
            lemma_ws_len_bounds(s.skip(w + 1));
        }
    }
}

/// A trigger class for the trailing-space rules: the closing parenthesis.
pub open spec fn close_trigger() -> spec_fn(char) -> bool {
    |c: char| c == ')'
}

/// A trigger class for the trailing-space rules: the punctuation marks.
pub open spec fn mark_trigger() -> spec_fn(char) -> bool {
    |c: char| is_mark(c)
}

/// The trailing-space rule for a trigger class: scanning left to right,
/// whitespace before a trigger character is removed and exactly one space
/// follows it (the whitespace after it is consumed); the scan resumes past
/// it.
pub open spec fn rule_after(s: Seq<char>, t: spec_fn(char) -> bool) -> Seq<char>
    decreases s.len(),
    via rule_after_dec
{
    if s.len() == 0 {
        Seq::empty()
    } else {
        let w = ws_len(s);
        if w < s.len() && t(s[w]) {
            let gap = ws_len(s.skip(w + 1));
            seq![s[w], ' '] + rule_after(s.skip(w + 1 + gap), t)
        } else {
            seq![s[0]] + rule_after(s.skip(1), t)
        }
    }
}

#[via_fn]
proof fn rule_after_dec(s: Seq<char>, t: spec_fn(char) -> bool) {
    lemma_ws_len_bounds(s);
    if s.len() > 0 {
        let w = ws_len(s);
        if w < s.len() && t(s[w]) {
            lemma_ws_len_bounds(s.skip(w + 1));
        }
    }
}

/// The normalized image of the assembled text: the three rules in order.
pub open spec fn normalize_spec(s: Seq<char>) -> Seq<char> {
    rule_after(rule_after(rule_open(s), close_trigger()), mark_trigger())
}

/// End of the whitespace run starting at `i`.
fn ws_end(v: &Vec<char>, i: usize) -> (j: usize)
    requires
        i <= v@.len(),
    ensures
        i <= j <= v@.len(),
        j - i == ws_len(v@.skip(i as int)),
        j < v@.len() ==> !is_space(v@[j as int]),
    decreases v@.len() - i,
{
    let n = v.len();
    let mut j = i;
    while j < n && space(v[j])
        invariant
            i <= j <= n,
            n == v@.len(),
            forall|m: int| i <= m < j ==> is_space(v@[m]),
        decreases n - j,
    {
        j = j + 1;
    }
    proof {
        lemma_ws_run_len(v@, i as int, j as int);
    }
    j
}

proof fn lemma_ws_run_len(s: Seq<char>, i: int, j: int)
    requires
        0 <= i <= j <= s.len(),
        forall|m: int| i <= m < j ==> is_space(s[m]),
        j < s.len() ==> !is_space(s[j]),
    ensures
        ws_len(s.skip(i)) == j - i,
    decreases j - i,
{
    if i == j {
        if i < s.len() {
            assert(s.skip(i)[0] == s[i]);
        }
    } else {
        assert(s.skip(i)[0] == s[i]);
        assert(is_space(s[i]));
        lemma_ws_run_len(s, i + 1, j);
        assert(s.skip(i).skip(1) =~= s.skip(i + 1));
    }
}

/// Applies the opening-parenthesis rule.
fn apply_open(v: &Vec<char>) -> (r: Vec<char>)
    ensures
        r@ == rule_open(v@),
{
    let n = v.len();
    let mut out: Vec<char> = Vec::new();
    let mut i: usize = 0;
    proof {
        assert(v@.skip(0) =~= v@);
    }
    while i < n
        invariant
            i <= n,
            n == v@.len(),
            rule_open(v@) == out@ + rule_open(v@.skip(i as int)),
        decreases n - i,
    {
        let ghost pre = v@.skip(i as int);
        let w = ws_end(v, i);
        proof {
            lemma_ws_len_bounds(pre);
            assert forall|m: int| 0 <= m < w - i implies is_space(#[trigger] pre[m]) by {
                assert(pre[m] == v@[i + m]);
            }
            if (w - i) < pre.len() {
                assert(pre[w - i] == v@[w as int]);
            }
        }
        if w < n && v[w] == '(' {
            let g = ws_end(v, w + 1);
            proof {
                assert(pre.skip((w - i) + 1) =~= v@.skip(w + 1));
                assert(pre[w - i] == v@[w as int]);
                assert(ws_len(pre.skip((w - i) + 1)) == g - w - 1);
                assert(pre.skip((w - i) + 1 + (g - w - 1)) =~= v@.skip(g as int));
                assert(rule_open(pre) == (if w > i {
                    seq![' ']
                } else {
                    Seq::<char>::empty()
                }) + seq!['('] + rule_open(v@.skip(g as int)));
            }
            if w > i {
                out.push(' ');
            }
            out.push('(');
            proof {
                assert(rule_open(v@) =~= out@ + rule_open(v@.skip(g as int)));
            }
            i = g;
        } else {
            proof {
                if (w - i) < pre.len() {
                    assert(pre[w - i] == v@[w as int]);
                }
                assert(pre[0] == v@[i as int]);
                assert(pre.skip(1) =~= v@.skip(i as int + 1));
            }
            out.push(v[i]);
            proof {
                assert(rule_open(v@) =~= out@ + rule_open(v@.skip(i as int + 1)));
            }
            i = i + 1;
        }
    }
    proof {
        assert(v@.skip(n as int) =~= Seq::<char>::empty());
        assert(out@ =~= rule_open(v@));
    }
    out
}

/// Which trailing-space rule an executable pass applies.
#[derive(Clone, Copy, PartialEq, Eq, Structural)]
pub enum AfterKind {
    Close,
    Marks,
}

/// The trigger class of an executable pass.
pub open spec fn trigger_of(k: AfterKind) -> spec_fn(char) -> bool {
    match k {
        AfterKind::Close => close_trigger(),
        AfterKind::Marks => mark_trigger(),
    }
}

fn is_trigger(k: AfterKind, c: char) -> (b: bool)
    ensures
        b == trigger_of(k)(c),
{
    match k {
        AfterKind::Close => c == ')',
        AfterKind::Marks => mark(c),
    }
}

/// Applies a trailing-space rule.
fn apply_after(v: &Vec<char>, k: AfterKind) -> (r: Vec<char>)
    ensures
        r@ == rule_after(v@, trigger_of(k)),
{
    let ghost t = trigger_of(k);
    let n = v.len();
    let mut out: Vec<char> = Vec::new();
    let mut i: usize = 0;
    proof {
        assert(v@.skip(0) =~= v@);
    }
    while i < n
        invariant
            i <= n,
            n == v@.len(),
            t == trigger_of(k),
            rule_after(v@, t) == out@ + rule_after(v@.skip(i as int), t),
        decreases n - i,
    {
        let ghost pre = v@.skip(i as int);
        let w = ws_end(v, i);
        proof {
            lemma_ws_len_bounds(pre);
            assert forall|m: int| 0 <= m < w - i implies is_space(#[trigger] pre[m]) by {
                assert(pre[m] == v@[i + m]);
            }
            if (w - i) < pre.len() {
                assert(pre[w - i] == v@[w as int]);
            }
        }
        if w < n && is_trigger(k, v[w]) {
            let g = ws_end(v, w + 1);
            proof {
                assert(pre.skip((w - i) + 1) =~= v@.skip(w + 1));
                assert(pre[w - i] == v@[w as int]);
                assert(ws_len(pre.skip((w - i) + 1)) == g - w - 1);
                assert(pre.skip((w - i) + 1 + (g - w - 1)) =~= v@.skip(g as int));
                assert(rule_after(pre, t) == seq![v@[w as int], ' '] + rule_after(
                    v@.skip(g as int),
                    t,
                ));
            }
            out.push(v[w]);
            out.push(' ');
            proof {
                assert(rule_after(v@, t) =~= out@ + rule_after(v@.skip(g as int), t));
            }
            i = g;
        } else {
            proof {
                assert(pre[0] == v@[i as int]);
                assert(pre.skip(1) =~= v@.skip(i as int + 1));
            }
            out.push(v[i]);
            proof {
                assert(rule_after(v@, t) =~= out@ + rule_after(v@.skip(i as int + 1), t));
            }
            i = i + 1;
        }
    }
    proof {
        assert(v@.skip(n as int) =~= Seq::<char>::empty());
        assert(out@ =~= rule_after(v@, t));
    }
    out
}

/// Applies the three spacing rules in order. Total: no input is rejected,
/// and applying the normalizer to its own output returns it unchanged.
pub fn normalize_punct(s: &str) -> (r: String)
    ensures
        r@ == normalize_spec(s@),
{
    let v = chars_of(s);
    let a = apply_open(&v);
    let b = apply_after(&a, AfterKind::Close);
    let c = apply_after(&b, AfterKind::Marks);
    string_of(&c)
}

} // verus!
