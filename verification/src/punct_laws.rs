//! Idempotence of the punctuation normalizer.
//!
//! Applying the three spacing rules a second time changes nothing. The
//! proof characterizes the normalizer's image by local window facts — how
//! whitespace may stand next to `(`, `)` and the punctuation marks — shows
//! that each pass establishes its own facts and preserves the earlier
//! ones, and then shows that on such text the opening-parenthesis rule is
//! the identity and the two trailing-space rules cancel out: the closing
//! rule re-inserts a space after a `)` that directly precedes a mark, and
//! the mark rule removes exactly that space again.

use vstd::prelude::*;
use crate::chars::is_space;
use crate::chars::is_mark;
use crate::punct::ws_len;
use crate::punct::lemma_ws_len_bounds;
use crate::punct::rule_open;
use crate::punct::rule_after;
use crate::punct::close_trigger;
use crate::punct::mark_trigger;
use crate::punct::normalize_spec;

verus! {

// ---------------------------------------------------------------------
// scan-locality helpers
// ---------------------------------------------------------------------

/// The whitespace prefix of a text headed by a non-space character is
/// empty.
proof fn lemma_ws_len_zero(s: Seq<char>)
    requires
        s.len() == 0 || !is_space(s[0]),
    ensures
        ws_len(s) == 0,
{
}

/// Whitespace-prefix length of a single whitespace character before a
/// non-space tail.
proof fn lemma_ws_len_one(s: Seq<char>)
    requires
        s.len() >= 1,
        is_space(s[0]),
        s.len() == 1 || !is_space(s[1]),
    ensures
        ws_len(s) == 1,
{
    assert(s.skip(1).len() == 0 || s.skip(1)[0] == s[1]);
    lemma_ws_len_zero(s.skip(1));
}

/// A trailing-space rule copies a head character that is neither
/// whitespace nor a trigger.
proof fn lemma_after_cons_plain(c: char, u: Seq<char>, t: spec_fn(char) -> bool)
    requires
        !is_space(c),
        !t(c),
    ensures
        rule_after(seq![c] + u, t) == seq![c] + rule_after(u, t),
{
    let s = seq![c] + u;
    assert(s[0] == c);
    lemma_ws_len_zero(s);
    assert(s.skip(1) =~= u);
}

/// A trailing-space rule's output on a nonempty input is nonempty and
/// starts with the first non-space character when the head whitespace run
/// is followed by a trigger, and with the head character otherwise.
proof fn lemma_after_head(u: Seq<char>, t: spec_fn(char) -> bool)
    requires
        u.len() > 0,
    ensures
        rule_after(u, t).len() > 0,
        ws_len(u) < u.len() && t(u[ws_len(u)]) ==> rule_after(u, t)[0] == u[ws_len(u)],
        !(ws_len(u) < u.len() && t(u[ws_len(u)])) ==> rule_after(u, t)[0] == u[0],
{
    lemma_ws_len_bounds(u);
    let w = ws_len(u);
    if w < u.len() && t(u[w]) {
        assert(rule_after(u, t)[0] == (seq![u[w], ' '] + rule_after(
            u.skip(w + 1 + ws_len(u.skip(w + 1))),
            t,
        ))[0]);
    } else {
        assert(rule_after(u, t)[0] == (seq![u[0]] + rule_after(u.skip(1), t))[0]);
    }
}

/// The opening rule's output on a nonempty input is nonempty and starts
/// with a space exactly when a whitespace run precedes the first `(`;
/// otherwise it starts with the head character.
proof fn lemma_open_head(u: Seq<char>)
    requires
        u.len() > 0,
    ensures
        rule_open(u).len() > 0,
        ws_len(u) < u.len() && u[ws_len(u)] == '(' && ws_len(u) > 0 ==> rule_open(u)[0] == ' ',
        ws_len(u) < u.len() && u[ws_len(u)] == '(' && ws_len(u) == 0 ==> rule_open(u)[0] == '(',
        !(ws_len(u) < u.len() && u[ws_len(u)] == '(') ==> rule_open(u)[0] == u[0],
{
    lemma_ws_len_bounds(u);
    let w = ws_len(u);
    if w < u.len() && u[w] == '(' {
        let before: Seq<char> = if w > 0 {
            seq![' ']
        } else {
            Seq::empty()
        };
        assert(rule_open(u) == before + seq!['('] + rule_open(
            u.skip(w + 1 + ws_len(u.skip(w + 1))),
        ));
        if w > 0 {
            assert(rule_open(u)[0] == ' ');
        } else {
            assert(rule_open(u)[0] == '(');
        }
    } else {
        assert(rule_open(u)[0] == (seq![u[0]] + rule_open(u.skip(1)))[0]);
    }
}

/// A trailing-space rule ignores whitespace standing directly before a
/// trigger: the run is deleted either way.
proof fn lemma_after_ws_before_trigger(u: Seq<char>, t: spec_fn(char) -> bool)
    requires
        ws_len(u) < u.len(),
        t(u[ws_len(u)]),
    ensures
        rule_after(u, t) == rule_after(u.skip(ws_len(u)), t),
    decreases ws_len(u),
{
    lemma_ws_len_bounds(u);
    let w = ws_len(u);
    if w == 0 {
        assert(u.skip(0) =~= u);
    } else {
        assert(u.skip(1)[w - 1] == u[w]);
        assert(ws_len(u.skip(1)) == w - 1);
        assert(is_space(u[0]));
        let g = ws_len(u.skip(w + 1));
        lemma_ws_len_bounds(u.skip(w + 1));
        assert(0 <= g <= u.len() - w - 1);
        assert(rule_after(u, t) == seq![u[w], ' '] + rule_after(u.skip(w + 1 + g), t));
        lemma_after_ws_before_trigger(u.skip(1), t);
        assert(u.skip(1).skip(w - 1) =~= u.skip(w));
        assert(u.skip(1).skip((w - 1) + 1) =~= u.skip(w + 1));
        assert(ws_len(u.skip(1).skip((w - 1) + 1)) == g);
        assert(u.skip(1).skip((w - 1) + 1 + g) =~= u.skip(w + 1 + g));
        assert(rule_after(u.skip(1), t) == seq![u[w], ' '] + rule_after(u.skip(w + 1 + g), t));
        assert(ws_len(u.skip(w)) == 0) by {
            assert(u.skip(w)[0] == u[w]);
            assert(!is_space(u[w]));
        }
        assert(u.skip(w).skip(1) =~= u.skip(w + 1));
        assert(ws_len(u.skip(w).skip(1)) == g);
        assert(u.skip(w).skip(1 + g) =~= u.skip(w + 1 + g));
        assert(rule_after(u.skip(w), t) == seq![u[w], ' '] + rule_after(u.skip(w + 1 + g), t)) by {
            assert(u.skip(w)[0] == u[w]);
            assert(u.skip(w).skip(1 + ws_len(u.skip(w).skip(1))) =~= u.skip(w + 1 + g));
        }
    }
}

/// A trailing-space rule copies a whitespace run that is not followed by a
/// trigger.
proof fn lemma_after_ws_copy(u: Seq<char>, t: spec_fn(char) -> bool, k: int)
    requires
        k == ws_len(u),
        k == u.len() || !t(u[k]),
    ensures
        rule_after(u, t) == u.take(k) + rule_after(u.skip(k), t),
    decreases k,
{
    lemma_ws_len_bounds(u);
    if k == 0 {
        assert(u.take(0) =~= Seq::<char>::empty());
        assert(u.skip(0) =~= u);
        assert(rule_after(u, t) =~= u.take(0) + rule_after(u.skip(0), t));
    } else {
        assert(is_space(u[0]));
        assert(rule_after(u, t) == seq![u[0]] + rule_after(u.skip(1), t));
        assert(ws_len(u.skip(1)) == k - 1);
        if k - 1 < u.skip(1).len() {
            assert(u.skip(1)[k - 1] == u[k]);
        }
        lemma_after_ws_copy(u.skip(1), t, k - 1);
        assert(u.skip(1).take(k - 1) =~= u.take(k).skip(1));
        assert(u.skip(1).skip(k - 1) =~= u.skip(k));
        assert(seq![u[0]] + (u.take(k).skip(1) + rule_after(u.skip(k), t)) =~= u.take(k)
            + rule_after(u.skip(k), t)) by {
            assert(u.take(k)[0] == u[0]);
        }
    }
}

/// The opening rule copies a whitespace run that is not followed by `(`.
proof fn lemma_open_ws_copy(u: Seq<char>, k: int)
    requires
        k == ws_len(u),
        k == u.len() || u[k] != '(',
    ensures
        rule_open(u) == u.take(k) + rule_open(u.skip(k)),
    decreases k,
{
    lemma_ws_len_bounds(u);
    if k == 0 {
        assert(u.take(0) =~= Seq::<char>::empty());
        assert(u.skip(0) =~= u);
        assert(rule_open(u) =~= u.take(0) + rule_open(u.skip(0)));
    } else {
        assert(is_space(u[0]));
        assert(rule_open(u) == seq![u[0]] + rule_open(u.skip(1)));
        assert(ws_len(u.skip(1)) == k - 1);
        if k - 1 < u.skip(1).len() {
            assert(u.skip(1)[k - 1] == u[k]);
        }
        lemma_open_ws_copy(u.skip(1), k - 1);
        assert(u.skip(1).take(k - 1) =~= u.take(k).skip(1));
        assert(u.skip(1).skip(k - 1) =~= u.skip(k));
        assert(seq![u[0]] + (u.take(k).skip(1) + rule_open(u.skip(k))) =~= u.take(k) + rule_open(
            u.skip(k),
        )) by {
            assert(u.take(k)[0] == u[0]);
        }
    }
}

// ---------------------------------------------------------------------
// the normalizer's image, as local window facts
// ---------------------------------------------------------------------

/// What the opening-parenthesis rule leaves behind: no whitespace directly
/// after a `(`, and whitespace directly before a `(` is a single space.
pub open spec fn paren_tidy(y: Seq<char>) -> bool {
    &&& forall|i: int|
        0 <= i < y.len() && #[trigger] y[i] == '(' ==> (i + 1 == y.len() || !is_space(y[i + 1]))
    &&& forall|i: int|
        0 <= i < y.len() && #[trigger] y[i] == '(' && i >= 1 && is_space(y[i - 1]) ==> (y[i - 1]
            == ' ' && (i < 2 || !is_space(y[i - 2])))
}

/// What the closing-parenthesis rule adds: every `)` is followed by one
/// space and then a non-space, and whitespace directly before a `)` is the
/// space that follows an earlier `)`.
pub open spec fn close_tidy(y: Seq<char>) -> bool {
    &&& forall|i: int|
        0 <= i < y.len() && #[trigger] y[i] == ')' ==> (i + 1 < y.len() && y[i + 1] == ' ' && (i + 2
            == y.len() || !is_space(y[i + 2])))
    &&& forall|i: int|
        0 <= i < y.len() && #[trigger] y[i] == ')' && i >= 1 && is_space(y[i - 1]) ==> (y[i - 1]
            == ' ' && i >= 2 && y[i - 2] == ')')
}

/// What the mark rule leaves behind: every mark is followed by one space
/// and then a non-space; every `)` by a space or a mark (its space is
/// eaten when a mark follows); and whitespace directly before a `)` or a
/// mark is the space that follows an earlier mark or `)`.
pub open spec fn mark_tidy(y: Seq<char>) -> bool {
    &&& forall|i: int|
        0 <= i < y.len() && is_mark(#[trigger] y[i]) ==> (i + 1 < y.len() && y[i + 1] == ' ' && (i
            + 2 == y.len() || !is_space(y[i + 2])))
    &&& forall|i: int|
        0 <= i < y.len() && #[trigger] y[i] == ')' ==> (i + 1 < y.len() && (y[i + 1] == ' '
            || is_mark(y[i + 1])))
    &&& forall|i: int|
        0 <= i < y.len() && #[trigger] y[i] == ')' && i + 1 < y.len() && y[i + 1] == ' ' ==> (i + 2
            == y.len() || !is_space(y[i + 2]))
    &&& forall|i: int|
        0 <= i < y.len() && #[trigger] y[i] == ')' && i >= 1 && is_space(y[i - 1]) ==> (y[i - 1]
            == ' ' && i >= 2 && (is_mark(y[i - 2]) || y[i - 2] == ')'))
    &&& forall|i: int|
        0 <= i < y.len() && is_mark(#[trigger] y[i]) && i >= 1 && is_space(y[i - 1]) ==> (y[i - 1]
            == ' ' && i >= 2 && is_mark(y[i - 2]))
}

/// The normalizer's image: the paren facts survive both later passes, and
/// the mark pass's own facts hold of the final text. (The closing rule's
/// facts hold only of the intermediate text: the mark pass eats the space
/// after a `)` that a mark follows.)
pub open spec fn tidy(y: Seq<char>) -> bool {
    paren_tidy(y) && mark_tidy(y)
}

/// Being paren-tidy passes to every suffix.
proof fn lemma_paren_tidy_skip(y: Seq<char>, j: int)
    requires
        paren_tidy(y),
        0 <= j <= y.len(),
    ensures
        paren_tidy(y.skip(j)),
{
    let s = y.skip(j);
    assert forall|i: int|
        0 <= i < s.len() && #[trigger] s[i] == '(' implies (i + 1 == s.len() || !is_space(
        s[i + 1],
    )) by {
        assert(s[i] == y[i + j]);
        if i + 1 < s.len() {
            assert(s[i + 1] == y[i + j + 1]);
        }
    }
    assert forall|i: int|
        0 <= i < s.len() && #[trigger] s[i] == '(' && i >= 1 && is_space(s[i - 1]) implies (s[i - 1]
        == ' ' && (i < 2 || !is_space(s[i - 2]))) by {
        assert(s[i] == y[i + j]);
        assert(s[i - 1] == y[i + j - 1]);
        if i >= 2 {
            assert(s[i - 2] == y[i + j - 2]);
        }
    }
}

/// Being paren- and mark-tidy passes to a suffix cut where no whitespace
/// starts, or right after a character that is neither a mark nor a `)`.
proof fn lemma_tidy_skip(y: Seq<char>, j: int)
    requires
        tidy(y),
        0 <= j <= y.len(),
        j == y.len() || !is_space(y[j]) || (j >= 1 && !is_mark(y[j - 1]) && y[j - 1] != ')'),
    ensures
        tidy(y.skip(j)),
{
    let s = y.skip(j);
    lemma_paren_tidy_skip(y, j);
    assert forall|i: int|
        0 <= i < s.len() && is_mark(#[trigger] s[i]) implies (i + 1 < s.len() && s[i + 1] == ' '
        && (i + 2 == s.len() || !is_space(s[i + 2]))) by {
        assert(s[i] == y[i + j]);
        assert(y[i + j + 1] == s[i + 1]);
        if i + 2 < s.len() {
            assert(s[i + 2] == y[i + j + 2]);
        }
    }
    assert forall|i: int|
        0 <= i < s.len() && #[trigger] s[i] == ')' implies (i + 1 < s.len() && (s[i + 1] == ' '
        || is_mark(s[i + 1]))) by {
        assert(s[i] == y[i + j]);
        assert(y[i + j + 1] == s[i + 1]);
    }
    assert forall|i: int|
        0 <= i < s.len() && #[trigger] s[i] == ')' && i + 1 < s.len() && s[i + 1] == ' ' implies (i
        + 2 == s.len() || !is_space(s[i + 2])) by {
        assert(s[i] == y[i + j]);
        assert(s[i + 1] == y[i + j + 1]);
        if i + 2 < s.len() {
            assert(s[i + 2] == y[i + j + 2]);
        }
    }
    assert forall|i: int|
        0 <= i < s.len() && #[trigger] s[i] == ')' && i >= 1 && is_space(s[i - 1]) implies (s[i - 1]
        == ' ' && i >= 2 && (is_mark(s[i - 2]) || s[i - 2] == ')')) by {
        assert(s[i] == y[i + j]);
        assert(s[i - 1] == y[i + j - 1]);
        if i == 1 {
            assert(is_space(y[j]));
            assert(is_mark(y[j + 1 - 2]) || y[j + 1 - 2] == ')');
            assert(false);
        } else {
            assert(s[i - 2] == y[i + j - 2]);
        }
    }
    assert forall|i: int|
        0 <= i < s.len() && is_mark(#[trigger] s[i]) && i >= 1 && is_space(s[i - 1]) implies (s[i
        - 1] == ' ' && i >= 2 && is_mark(s[i - 2])) by {
        assert(s[i] == y[i + j]);
        assert(s[i - 1] == y[i + j - 1]);
        if i == 1 {
            assert(is_space(y[j]));
            assert(is_mark(y[j + 1 - 2]));
            assert(false);
        } else {
            assert(s[i - 2] == y[i + j - 2]);
        }
    }
}

/// Being close-tidy (a fact of the intermediate text between the two
/// trailing-space passes) passes to a suffix cut where no whitespace
/// starts, or right after a character that is not a `)`.
proof fn lemma_close_tidy_skip(y: Seq<char>, j: int)
    requires
        close_tidy(y),
        0 <= j <= y.len(),
        j == y.len() || !is_space(y[j]) || (j >= 1 && y[j - 1] != ')'),
    ensures
        close_tidy(y.skip(j)),
{
    let s = y.skip(j);
    assert forall|i: int|
        0 <= i < s.len() && #[trigger] s[i] == ')' implies (i + 1 < s.len() && s[i + 1] == ' ' && (i
        + 2 == s.len() || !is_space(s[i + 2]))) by {
        assert(s[i] == y[i + j]);
        assert(s[i + 1] == y[i + j + 1]);
        if i + 2 < s.len() {
            assert(s[i + 2] == y[i + j + 2]);
        }
    }
    assert forall|i: int|
        0 <= i < s.len() && #[trigger] s[i] == ')' && i >= 1 && is_space(s[i - 1]) implies (s[i - 1]
        == ' ' && i >= 2 && s[i - 2] == ')') by {
        assert(s[i] == y[i + j]);
        assert(s[i - 1] == y[i + j - 1]);
        if i == 1 {
            assert(is_space(y[j]));
            assert(y[j + 1 - 2] == ')');
            assert(false);
        } else {
            assert(s[i - 2] == y[i + j - 2]);
        }
    }
}

// ---------------------------------------------------------------------
// the opening rule: establishes its facts, and fixes its own image
// ---------------------------------------------------------------------

/// On paren-tidy text the opening rule changes nothing.
proof fn lemma_open_fixpoint(y: Seq<char>)
    requires
        paren_tidy(y),
    ensures
        rule_open(y) == y,
    decreases y.len(),
{
    lemma_ws_len_bounds(y);
    if y.len() == 0 {
        assert(rule_open(y) =~= y);
    } else {
        let w = ws_len(y);
        if w < y.len() && y[w] == '(' {
            if w >= 2 {
                assert(is_space(y[w - 1]));
                assert(is_space(y[w - 2]));
                assert(false);
            }
            let g = ws_len(y.skip(w + 1));
            assert(g == 0) by {
                if w + 1 < y.len() {
                    assert(y.skip(w + 1)[0] == y[w + 1]);
                    assert(!is_space(y[w + 1]));
                }
                lemma_ws_len_zero(y.skip(w + 1));
            }
            lemma_paren_tidy_skip(y, w + 1);
            lemma_open_fixpoint(y.skip(w + 1));
            if w == 1 {
                assert(y[0] == ' ');
                assert(rule_open(y) == seq![' '] + seq!['('] + rule_open(y.skip(2)));
                assert(rule_open(y) =~= y);
            } else {
                assert(rule_open(y) == Seq::<char>::empty() + seq!['('] + rule_open(y.skip(1)));
                assert(rule_open(y) =~= y);
            }
        } else if w == 0 {
            lemma_paren_tidy_skip(y, 1);
            lemma_open_fixpoint(y.skip(1));
            assert(rule_open(y) == seq![y[0]] + rule_open(y.skip(1)));
            assert(rule_open(y) =~= y);
        } else {
            lemma_open_ws_copy(y, w);
            lemma_paren_tidy_skip(y, w);
            lemma_open_fixpoint(y.skip(w));
            assert(rule_open(y) =~= y);
        }
    }
}

/// The opening rule's output is paren-tidy, whatever the input.
proof fn lemma_open_tidy(x: Seq<char>)
    ensures
        paren_tidy(rule_open(x)),
    decreases x.len(),
{
    lemma_ws_len_bounds(x);
    if x.len() == 0 {
    } else {
        let w = ws_len(x);
        if w < x.len() && x[w] == '(' {
            let g = ws_len(x.skip(w + 1));
            lemma_ws_len_bounds(x.skip(w + 1));
            let xr = x.skip(w + 1 + g);
            let wr = rule_open(xr);
            lemma_open_tidy(xr);
            let before: Seq<char> = if w > 0 {
                seq![' ']
            } else {
                Seq::empty()
            };
            let out = before + seq!['('] + wr;
            assert(rule_open(x) == out);
            let b = before.len() as int;
            if xr.len() > 0 {
                assert(!is_space(xr[0])) by {
                    assert(x.skip(w + 1)[g] == x[w + 1 + g]);
                    assert(xr[0] == x[w + 1 + g]);
                }
                lemma_open_head(xr);
                assert(ws_len(xr) == 0) by {
                    lemma_ws_len_zero(xr);
                }
                assert(!is_space(wr[0]));
            }
            assert forall|i: int|
                0 <= i < out.len() && #[trigger] out[i] == '(' implies (i + 1 == out.len()
                || !is_space(out[i + 1])) by {
                if i > b {
                    assert(out[i] == wr[i - b - 1]);
                    if i + 1 < out.len() {
                        assert(out[i + 1] == wr[i - b]);
                    }
                } else if i == b {
                    if i + 1 < out.len() {
                        assert(out[i + 1] == wr[0]);
                    }
                } else {
                    assert(out[i] == ' ');
                    assert(false);
                }
            }
            assert forall|i: int|
                0 <= i < out.len() && #[trigger] out[i] == '(' && i >= 1 && is_space(out[i - 1])
                implies (out[i - 1] == ' ' && (i < 2 || !is_space(out[i - 2]))) by {
                if i > b + 1 {
                    let k = i - b - 1;
                    assert(out[i] == wr[k]);
                    assert(out[i - 1] == wr[k - 1]);
                    if k >= 2 {
                        assert(out[i - 2] == wr[k - 2]);
                    } else {
                        assert(out[i - 2] == '(');
                    }
                } else if i == b + 1 {
                    assert(out[i - 1] == '(');
                    assert(false);
                } else if i == b {
                    if b == 1 {
                        assert(out[0] == ' ');
                    }
                } else {
                    assert(out[i] == ' ');
                    assert(false);
                }
            }
        } else if w == 0 {
            let wr = rule_open(x.skip(1));
            lemma_open_tidy(x.skip(1));
            let out = seq![x[0]] + wr;
            assert(rule_open(x) == out);
            assert(!is_space(x[0]));
            assert forall|i: int|
                0 <= i < out.len() && #[trigger] out[i] == '(' implies (i + 1 == out.len()
                || !is_space(out[i + 1])) by {
                if i >= 1 {
                    assert(out[i] == wr[i - 1]);
                    if i + 1 < out.len() {
                        assert(out[i + 1] == wr[i]);
                    }
                } else {
                    assert(out[0] == x[0]);
                    if i + 1 < out.len() {
                        assert(out[1] == wr[0]);
                    }
                }
            }
            assert forall|i: int|
                0 <= i < out.len() && #[trigger] out[i] == '(' && i >= 1 && is_space(out[i - 1])
                implies (out[i - 1] == ' ' && (i < 2 || !is_space(out[i - 2]))) by {
                if i >= 3 {
                    assert(out[i] == wr[i - 1]);
                    assert(out[i - 1] == wr[i - 2]);
                    assert(out[i - 2] == wr[i - 3]);
                } else if i == 2 {
                    assert(out[i] == wr[1]);
                    assert(out[i - 1] == wr[0]);
                    assert(out[0] == x[0]);
                } else {
                    assert(out[0] == x[0]);
                    assert(!is_space(out[0]));
                }
            }
        } else {
            // a whitespace run not followed by an opening parenthesis
            lemma_open_ws_copy(x, w);
            let xr = x.skip(w);
            let wr = rule_open(xr);
            lemma_open_tidy(xr);
            let out = x.take(w) + wr;
            assert(rule_open(x) == out);
            if xr.len() > 0 {
                assert(!is_space(xr[0])) by {
                    assert(xr[0] == x[w]);
                }
                lemma_open_head(xr);
                assert(ws_len(xr) == 0) by {
                    lemma_ws_len_zero(xr);
                }
                assert(wr[0] == xr[0]) by {
                    if ws_len(xr) < xr.len() && xr[ws_len(xr)] == '(' {
                        assert(xr[0] == '(');
                        assert(false);
                    }
                }
                assert(!is_space(wr[0]));
                assert(wr[0] != '(');
            }
            assert forall|i: int|
                0 <= i < out.len() && #[trigger] out[i] == '(' implies (i + 1 == out.len()
                || !is_space(out[i + 1])) by {
                if i < w {
                    assert(out[i] == x.take(w)[i]);
                    assert(is_space(out[i]));
                    assert(false);
                } else {
                    assert(out[i] == wr[i - w]);
                    if i + 1 < out.len() {
                        assert(out[i + 1] == wr[i - w + 1]);
                    }
                }
            }
            assert forall|i: int|
                0 <= i < out.len() && #[trigger] out[i] == '(' && i >= 1 && is_space(out[i - 1])
                implies (out[i - 1] == ' ' && (i < 2 || !is_space(out[i - 2]))) by {
                if i < w {
                    assert(out[i] == x.take(w)[i]);
                    assert(is_space(out[i]));
                    assert(false);
                } else {
                    let k = i - w;
                    assert(out[i] == wr[k]);
                    if k == 0 {
                        assert(wr[0] != '(');
                        assert(false);
                    } else if k == 1 {
                        assert(out[i - 1] == wr[0]);
                        assert(!is_space(wr[0]));
                        assert(false);
                    } else {
                        assert(out[i - 1] == wr[k - 1]);
                        assert(out[i - 2] == wr[k - 2]);
                    }
                }
            }
        }
    }
}

// ---------------------------------------------------------------------
// the closing rule: establishes its facts, keeps the paren facts
// ---------------------------------------------------------------------

/// The closing rule's output on paren-tidy input is paren- and close-tidy.
proof fn lemma_close_tidy_holds(a: Seq<char>)
    requires
        paren_tidy(a),
    ensures
        paren_tidy(rule_after(a, close_trigger())),
        close_tidy(rule_after(a, close_trigger())),
    decreases a.len(),
{
    let t = close_trigger();
    lemma_ws_len_bounds(a);
    if a.len() == 0 {
    } else {
        let w = ws_len(a);
        if w < a.len() && t(a[w]) {
            // a whitespace run, the parenthesis, and its trailing run
            let g = ws_len(a.skip(w + 1));
            lemma_ws_len_bounds(a.skip(w + 1));
            let ar = a.skip(w + 1 + g);
            let wr = rule_after(ar, t);
            lemma_paren_tidy_skip(a, w + 1 + g);
            lemma_close_tidy_holds(ar);
            let out = seq![a[w], ' '] + wr;
            assert(rule_after(a, t) == out);
            assert(a[w] == ')');
            if ar.len() > 0 {
                assert(!is_space(ar[0])) by {
                    assert(a.skip(w + 1)[g] == a[w + 1 + g]);
                    assert(ar[0] == a[w + 1 + g]);
                }
                lemma_after_head(ar, t);
                assert(ws_len(ar) == 0) by {
                    lemma_ws_len_zero(ar);
                }
                assert(!is_space(wr[0]));
            }
            assert forall|i: int|
                0 <= i < out.len() && #[trigger] out[i] == '(' implies (i + 1 == out.len()
                || !is_space(out[i + 1])) by {
                if i >= 2 {
                    assert(out[i] == wr[i - 2]);
                    if i + 1 < out.len() {
                        assert(out[i + 1] == wr[i - 1]);
                    }
                }
            }
            assert forall|i: int|
                0 <= i < out.len() && #[trigger] out[i] == '(' && i >= 1 && is_space(out[i - 1])
                implies (out[i - 1] == ' ' && (i < 2 || !is_space(out[i - 2]))) by {
                if i >= 4 {
                    assert(out[i] == wr[i - 2]);
                    assert(out[i - 1] == wr[i - 3]);
                    assert(out[i - 2] == wr[i - 4]);
                } else if i == 3 {
                    assert(out[i] == wr[1]);
                    assert(out[i - 1] == wr[0]);
                    assert(out[i - 2] == ' ');
                } else if i == 2 {
                    assert(out[i] == wr[0]);
                    assert(out[i - 1] == ' ');
                    assert(out[i - 2] == ')');
                }
            }
            assert forall|i: int|
                0 <= i < out.len() && #[trigger] out[i] == ')' implies (i + 1 < out.len() && out[i
                + 1] == ' ' && (i + 2 == out.len() || !is_space(out[i + 2]))) by {
                if i >= 2 {
                    assert(out[i] == wr[i - 2]);
                    assert(out[i + 1] == wr[i - 1]);
                    if i + 2 < out.len() {
                        assert(out[i + 2] == wr[i]);
                    }
                } else if i == 0 {
                    assert(out[1] == ' ');
                    if out.len() > 2 {
                        assert(out[2] == wr[0]);
                    }
                } else {
                    assert(out[1] == ' ');
                    assert(false);
                }
            }
            assert forall|i: int|
                0 <= i < out.len() && #[trigger] out[i] == ')' && i >= 1 && is_space(out[i - 1])
                implies (out[i - 1] == ' ' && i >= 2 && out[i - 2] == ')') by {
                if i >= 4 {
                    assert(out[i] == wr[i - 2]);
                    assert(out[i - 1] == wr[i - 3]);
                    assert(out[i - 2] == wr[i - 4]);
                } else if i == 3 {
                    assert(out[i] == wr[1]);
                    assert(out[i - 1] == wr[0]);
                    assert(false);
                } else if i == 2 {
                    assert(out[i] == wr[0]);
                    assert(out[i - 1] == ' ');
                    assert(out[i - 2] == ')');
                } else {
                    assert(out[1] == ' ');
                    assert(false);
                }
            }
        } else if w == 0 {
            // an ordinary head character, copied
            let c = a[0];
            assert(!is_space(c));
            assert(c != ')');
            let wr = rule_after(a.skip(1), t);
            lemma_paren_tidy_skip(a, 1);
            lemma_close_tidy_holds(a.skip(1));
            let out = seq![c] + wr;
            assert(rule_after(a, t) == out);
            if c == '(' && a.len() > 1 {
                assert(!is_space(a[1]));
                assert(a.skip(1)[0] == a[1]);
                lemma_after_head(a.skip(1), t);
                assert(ws_len(a.skip(1)) == 0) by {
                    lemma_ws_len_zero(a.skip(1));
                }
                assert(wr.len() > 0 && !is_space(wr[0]));
            }
            assert forall|i: int|
                0 <= i < out.len() && #[trigger] out[i] == '(' implies (i + 1 == out.len()
                || !is_space(out[i + 1])) by {
                if i >= 1 {
                    assert(out[i] == wr[i - 1]);
                    if i + 1 < out.len() {
                        assert(out[i + 1] == wr[i]);
                    }
                } else {
                    if out.len() > 1 {
                        assert(out[1] == wr[0]);
                    }
                }
            }
            assert forall|i: int|
                0 <= i < out.len() && #[trigger] out[i] == '(' && i >= 1 && is_space(out[i - 1])
                implies (out[i - 1] == ' ' && (i < 2 || !is_space(out[i - 2]))) by {
                if i >= 3 {
                    assert(out[i] == wr[i - 1]);
                    assert(out[i - 1] == wr[i - 2]);
                    assert(out[i - 2] == wr[i - 3]);
                } else if i == 2 {
                    assert(out[i] == wr[1]);
                    assert(out[i - 1] == wr[0]);
                    assert(out[0] == c);
                } else {
                    assert(out[0] == c);
                    assert(false);
                }
            }
            assert forall|i: int|
                0 <= i < out.len() && #[trigger] out[i] == ')' implies (i + 1 < out.len() && out[i
                + 1] == ' ' && (i + 2 == out.len() || !is_space(out[i + 2]))) by {
                assert(i >= 1);
                assert(out[i] == wr[i - 1]);
                assert(out[i + 1] == wr[i]);
                if i + 2 < out.len() {
                    assert(out[i + 2] == wr[i + 1]);
                }
            }
            assert forall|i: int|
                0 <= i < out.len() && #[trigger] out[i] == ')' && i >= 1 && is_space(out[i - 1])
                implies (out[i - 1] == ' ' && i >= 2 && out[i - 2] == ')') by {
                if i >= 3 {
                    assert(out[i] == wr[i - 1]);
                    assert(out[i - 1] == wr[i - 2]);
                    assert(out[i - 2] == wr[i - 3]);
                } else if i == 2 {
                    assert(out[i] == wr[1]);
                    assert(out[i - 1] == wr[0]);
                    assert(false);
                } else {
                    assert(out[0] == c);
                    assert(false);
                }
            }
        } else {
            // a whitespace run not followed by a closing parenthesis
            lemma_after_ws_copy(a, t, w);
            let ar = a.skip(w);
            let wr = rule_after(ar, t);
            lemma_paren_tidy_skip(a, w);
            lemma_close_tidy_holds(ar);
            let out = a.take(w) + wr;
            assert(rule_after(a, t) == out);
            if ar.len() > 0 {
                assert(!is_space(ar[0])) by {
                    assert(ar[0] == a[w]);
                }
                lemma_after_head(ar, t);
                assert(ws_len(ar) == 0) by {
                    lemma_ws_len_zero(ar);
                }
                assert(wr[0] == ar[0]);
                assert(!is_space(wr[0]));
                assert(wr[0] != ')');
            }
            assert forall|i: int|
                0 <= i < out.len() && #[trigger] out[i] == '(' implies (i + 1 == out.len()
                || !is_space(out[i + 1])) by {
                if i < w {
                    assert(out[i] == a.take(w)[i]);
                    assert(false);
                } else {
                    assert(out[i] == wr[i - w]);
                    if i + 1 < out.len() {
                        assert(out[i + 1] == wr[i - w + 1]);
                    }
                }
            }
            assert forall|i: int|
                0 <= i < out.len() && #[trigger] out[i] == '(' && i >= 1 && is_space(out[i - 1])
                implies (out[i - 1] == ' ' && (i < 2 || !is_space(out[i - 2]))) by {
                if i < w {
                    assert(out[i] == a.take(w)[i]);
                    assert(false);
                } else {
                    let k = i - w;
                    assert(out[i] == wr[k]);
                    if k == 0 {
                        // the input's own paren facts bound the run
                        assert(wr[0] == a[w]);
                        assert(is_space(a[w - 1])) by {
                            assert(out[i - 1] == a.take(w)[w - 1]);
                        }
                        assert(a[w - 1] == ' ' && (w < 2 || !is_space(a[w - 2])));
                        if w >= 2 {
                            assert(is_space(a[w - 2]));
                            assert(false);
                        }
                        assert(out[i - 1] == a.take(w)[w - 1]);
                    } else if k == 1 {
                        assert(out[i - 1] == wr[0]);
                        assert(false);
                    } else {
                        assert(out[i - 1] == wr[k - 1]);
                        assert(out[i - 2] == wr[k - 2]);
                    }
                }
            }
            assert forall|i: int|
                0 <= i < out.len() && #[trigger] out[i] == ')' implies (i + 1 < out.len() && out[i
                + 1] == ' ' && (i + 2 == out.len() || !is_space(out[i + 2]))) by {
                if i < w {
                    assert(out[i] == a.take(w)[i]);
                    assert(false);
                } else {
                    let k = i - w;
                    if k == 0 {
                        assert(wr[0] != ')');
                        assert(false);
                    } else {
                        assert(out[i] == wr[k]);
                        assert(out[i + 1] == wr[k + 1]);
                        if i + 2 < out.len() {
                            assert(out[i + 2] == wr[k + 2]);
                        }
                    }
                }
            }
            assert forall|i: int|
                0 <= i < out.len() && #[trigger] out[i] == ')' && i >= 1 && is_space(out[i - 1])
                implies (out[i - 1] == ' ' && i >= 2 && out[i - 2] == ')') by {
                if i < w {
                    assert(out[i] == a.take(w)[i]);
                    assert(false);
                } else {
                    let k = i - w;
                    if k == 0 {
                        assert(wr[0] != ')');
                        assert(false);
                    } else if k == 1 {
                        assert(out[i - 1] == wr[0]);
                        assert(false);
                    } else {
                        assert(out[i] == wr[k]);
                        assert(out[i - 1] == wr[k - 1]);
                        assert(out[i - 2] == wr[k - 2]);
                    }
                }
            }
        }
    }
}

// ---------------------------------------------------------------------
// the mark rule: establishes its facts, keeps the paren facts
// ---------------------------------------------------------------------

/// Tidiness of `m ' '` before a tidy remainder that starts with a
/// non-space.
proof fn lemma_tidy_chunk2(m: char, wr: Seq<char>)
    requires
        is_mark(m),
        tidy(wr),
        wr.len() > 0 ==> !is_space(wr[0]),
    ensures
        tidy(seq![m, ' '] + wr),
{
    let out = seq![m, ' '] + wr;
    assert(!is_mark(' ') && !is_mark('(') && !is_mark(')'));
    assert forall|i: int|
        0 <= i < out.len() && #[trigger] out[i] == '(' implies (i + 1 == out.len() || !is_space(
        out[i + 1],
    )) by {
        lemma_window_facts(out, seq![m, ' '], wr, i);
    }
    assert forall|i: int|
        0 <= i < out.len() && #[trigger] out[i] == '(' && i >= 1 && is_space(out[i - 1]) implies (
    out[i - 1] == ' ' && (i < 2 || !is_space(out[i - 2]))) by {
        lemma_window_facts(out, seq![m, ' '], wr, i);
    }
    assert forall|i: int|
        0 <= i < out.len() && is_mark(#[trigger] out[i]) implies (i + 1 < out.len() && out[i + 1]
        == ' ' && (i + 2 == out.len() || !is_space(out[i + 2]))) by {
        lemma_window_facts(out, seq![m, ' '], wr, i);
    }
    assert forall|i: int|
        0 <= i < out.len() && #[trigger] out[i] == ')' implies (i + 1 < out.len() && (out[i + 1]
        == ' ' || is_mark(out[i + 1]))) by {
        lemma_window_facts(out, seq![m, ' '], wr, i);
    }
    assert forall|i: int|
        0 <= i < out.len() && #[trigger] out[i] == ')' && i + 1 < out.len() && out[i + 1] == ' '
        implies (i + 2 == out.len() || !is_space(out[i + 2])) by {
        lemma_window_facts(out, seq![m, ' '], wr, i);
    }
    assert forall|i: int|
        0 <= i < out.len() && #[trigger] out[i] == ')' && i >= 1 && is_space(out[i - 1]) implies (
    out[i - 1] == ' ' && i >= 2 && (is_mark(out[i - 2]) || out[i - 2] == ')')) by {
        lemma_window_facts(out, seq![m, ' '], wr, i);
    }
    assert forall|i: int|
        0 <= i < out.len() && is_mark(#[trigger] out[i]) && i >= 1 && is_space(out[i - 1]) implies (
    out[i - 1] == ' ' && i >= 2 && is_mark(out[i - 2])) by {
        lemma_window_facts(out, seq![m, ' '], wr, i);
    }
}

/// Index bookkeeping for a chunk-plus-remainder concatenation: relates
/// every window of up to five positions around `i` to the chunk or the
/// remainder.
proof fn lemma_window_facts(out: Seq<char>, chunk: Seq<char>, wr: Seq<char>, i: int)
    requires
        out == chunk + wr,
        0 <= i < out.len(),
    ensures
        out[i] == (if i < chunk.len() {
            chunk[i]
        } else {
            wr[i - chunk.len()]
        }),
        i + 1 < out.len() ==> out[i + 1] == (if i + 1 < chunk.len() {
            chunk[i + 1]
        } else {
            wr[i + 1 - chunk.len()]
        }),
        i + 2 < out.len() ==> out[i + 2] == (if i + 2 < chunk.len() {
            chunk[i + 2]
        } else {
            wr[i + 2 - chunk.len()]
        }),
        i >= 1 ==> out[i - 1] == (if i - 1 < chunk.len() {
            chunk[i - 1]
        } else {
            wr[i - 1 - chunk.len()]
        }),
        i >= 2 ==> out[i - 2] == (if i - 2 < chunk.len() {
            chunk[i - 2]
        } else {
            wr[i - 2 - chunk.len()]
        }),
        out.len() == chunk.len() + wr.len(),
{
}

/// Tidiness of `) m ' '` before a tidy remainder that starts with a
/// non-space.
proof fn lemma_tidy_chunk3(m: char, wr: Seq<char>)
    requires
        is_mark(m),
        tidy(wr),
        wr.len() > 0 ==> !is_space(wr[0]),
    ensures
        tidy(seq![')', m, ' '] + wr),
{
    let out = seq![')', m, ' '] + wr;
    let chunk = seq![')', m, ' '];
    assert(!is_mark(' ') && !is_mark('(') && !is_mark(')'));
    assert forall|i: int|
        0 <= i < out.len() && #[trigger] out[i] == '(' implies (i + 1 == out.len() || !is_space(
        out[i + 1],
    )) by {
        lemma_window_facts(out, chunk, wr, i);
    }
    assert forall|i: int|
        0 <= i < out.len() && #[trigger] out[i] == '(' && i >= 1 && is_space(out[i - 1]) implies (
    out[i - 1] == ' ' && (i < 2 || !is_space(out[i - 2]))) by {
        lemma_window_facts(out, chunk, wr, i);
    }
    assert forall|i: int|
        0 <= i < out.len() && is_mark(#[trigger] out[i]) implies (i + 1 < out.len() && out[i + 1]
        == ' ' && (i + 2 == out.len() || !is_space(out[i + 2]))) by {
        lemma_window_facts(out, chunk, wr, i);
    }
    assert forall|i: int|
        0 <= i < out.len() && #[trigger] out[i] == ')' implies (i + 1 < out.len() && (out[i + 1]
        == ' ' || is_mark(out[i + 1]))) by {
        lemma_window_facts(out, chunk, wr, i);
    }
    assert forall|i: int|
        0 <= i < out.len() && #[trigger] out[i] == ')' && i + 1 < out.len() && out[i + 1] == ' '
        implies (i + 2 == out.len() || !is_space(out[i + 2])) by {
        lemma_window_facts(out, chunk, wr, i);
    }
    assert forall|i: int|
        0 <= i < out.len() && #[trigger] out[i] == ')' && i >= 1 && is_space(out[i - 1]) implies (
    out[i - 1] == ' ' && i >= 2 && (is_mark(out[i - 2]) || out[i - 2] == ')')) by {
        lemma_window_facts(out, chunk, wr, i);
    }
    assert forall|i: int|
        0 <= i < out.len() && is_mark(#[trigger] out[i]) && i >= 1 && is_space(out[i - 1]) implies (
    out[i - 1] == ' ' && i >= 2 && is_mark(out[i - 2])) by {
        lemma_window_facts(out, chunk, wr, i);
    }
}

/// Tidiness of `) ' '` before a tidy remainder that starts with a
/// character that is neither a space nor a mark.
proof fn lemma_tidy_chunk_close(wr: Seq<char>)
    requires
        tidy(wr),
        wr.len() > 0 ==> !is_space(wr[0]) && !is_mark(wr[0]),
    ensures
        tidy(seq![')', ' '] + wr),
{
    let out = seq![')', ' '] + wr;
    let chunk = seq![')', ' '];
    assert(!is_mark(' ') && !is_mark('(') && !is_mark(')'));
    assert forall|i: int|
        0 <= i < out.len() && #[trigger] out[i] == '(' implies (i + 1 == out.len() || !is_space(
        out[i + 1],
    )) by {
        lemma_window_facts(out, chunk, wr, i);
    }
    assert forall|i: int|
        0 <= i < out.len() && #[trigger] out[i] == '(' && i >= 1 && is_space(out[i - 1]) implies (
    out[i - 1] == ' ' && (i < 2 || !is_space(out[i - 2]))) by {
        lemma_window_facts(out, chunk, wr, i);
    }
    assert forall|i: int|
        0 <= i < out.len() && is_mark(#[trigger] out[i]) implies (i + 1 < out.len() && out[i + 1]
        == ' ' && (i + 2 == out.len() || !is_space(out[i + 2]))) by {
        lemma_window_facts(out, chunk, wr, i);
    }
    assert forall|i: int|
        0 <= i < out.len() && #[trigger] out[i] == ')' implies (i + 1 < out.len() && (out[i + 1]
        == ' ' || is_mark(out[i + 1]))) by {
        lemma_window_facts(out, chunk, wr, i);
    }
    assert forall|i: int|
        0 <= i < out.len() && #[trigger] out[i] == ')' && i + 1 < out.len() && out[i + 1] == ' '
        implies (i + 2 == out.len() || !is_space(out[i + 2])) by {
        lemma_window_facts(out, chunk, wr, i);
    }
    assert forall|i: int|
        0 <= i < out.len() && #[trigger] out[i] == ')' && i >= 1 && is_space(out[i - 1]) implies (
    out[i - 1] == ' ' && i >= 2 && (is_mark(out[i - 2]) || out[i - 2] == ')')) by {
        lemma_window_facts(out, chunk, wr, i);
    }
    assert forall|i: int|
        0 <= i < out.len() && is_mark(#[trigger] out[i]) && i >= 1 && is_space(out[i - 1]) implies (
    out[i - 1] == ' ' && i >= 2 && is_mark(out[i - 2])) by {
        lemma_window_facts(out, chunk, wr, i);
    }
}

/// Tidiness of one ordinary copied character (no space, no mark, not a
/// parenthesis — or an opening parenthesis followed by a non-space)
/// before a tidy remainder.
proof fn lemma_tidy_chunk_plain(c: char, wr: Seq<char>)
    requires
        !is_space(c),
        !is_mark(c),
        c != ')',
        tidy(wr),
        c == '(' ==> (wr.len() == 0 || !is_space(wr[0])),
    ensures
        tidy(seq![c] + wr),
{
    let out = seq![c] + wr;
    let chunk = seq![c];
    assert forall|i: int|
        0 <= i < out.len() && #[trigger] out[i] == '(' implies (i + 1 == out.len() || !is_space(
        out[i + 1],
    )) by {
        lemma_window_facts(out, chunk, wr, i);
    }
    assert forall|i: int|
        0 <= i < out.len() && #[trigger] out[i] == '(' && i >= 1 && is_space(out[i - 1]) implies (
    out[i - 1] == ' ' && (i < 2 || !is_space(out[i - 2]))) by {
        lemma_window_facts(out, chunk, wr, i);
    }
    assert forall|i: int|
        0 <= i < out.len() && is_mark(#[trigger] out[i]) implies (i + 1 < out.len() && out[i + 1]
        == ' ' && (i + 2 == out.len() || !is_space(out[i + 2]))) by {
        lemma_window_facts(out, chunk, wr, i);
    }
    assert forall|i: int|
        0 <= i < out.len() && #[trigger] out[i] == ')' implies (i + 1 < out.len() && (out[i + 1]
        == ' ' || is_mark(out[i + 1]))) by {
        lemma_window_facts(out, chunk, wr, i);
    }
    assert forall|i: int|
        0 <= i < out.len() && #[trigger] out[i] == ')' && i + 1 < out.len() && out[i + 1] == ' '
        implies (i + 2 == out.len() || !is_space(out[i + 2])) by {
        lemma_window_facts(out, chunk, wr, i);
    }
    assert forall|i: int|
        0 <= i < out.len() && #[trigger] out[i] == ')' && i >= 1 && is_space(out[i - 1]) implies (
    out[i - 1] == ' ' && i >= 2 && (is_mark(out[i - 2]) || out[i - 2] == ')')) by {
        lemma_window_facts(out, chunk, wr, i);
    }
    assert forall|i: int|
        0 <= i < out.len() && is_mark(#[trigger] out[i]) && i >= 1 && is_space(out[i - 1]) implies (
    out[i - 1] == ' ' && i >= 2 && is_mark(out[i - 2])) by {
        lemma_window_facts(out, chunk, wr, i);
    }
}

/// Tidiness of a copied whitespace run before a tidy remainder whose head
/// is ordinary (or that is empty); before an opening parenthesis the run
/// is a single space.
proof fn lemma_tidy_chunk_ws(run: Seq<char>, wr: Seq<char>, fol: Option<char>)
    requires
        forall|j: int| 0 <= j < run.len() ==> is_space(#[trigger] run[j]),
        tidy(wr),
        match fol {
            None => wr.len() == 0,
            Some(f) => {
                &&& wr.len() > 0
                &&& wr[0] == f
                &&& !is_space(f)
                &&& !is_mark(f)
                &&& f != ')'
                &&& (f == '(' ==> run.len() == 1 && run[0] == ' ')
            },
        },
    ensures
        tidy(run + wr),
{
    let out = run + wr;
    assert(!is_mark(' ') && !is_mark('(') && !is_mark(')'));
    let l = run.len() as int;
    assert forall|i: int|
        0 <= i < out.len() && #[trigger] out[i] == '(' implies (i + 1 == out.len() || !is_space(
        out[i + 1],
    )) by {
        lemma_window_facts(out, run, wr, i);
    }
    assert forall|i: int|
        0 <= i < out.len() && #[trigger] out[i] == '(' && i >= 1 && is_space(out[i - 1]) implies (
    out[i - 1] == ' ' && (i < 2 || !is_space(out[i - 2]))) by {
        lemma_window_facts(out, run, wr, i);
        if i >= l {
            let k = i - l;
            if k == 0 {
                assert(out[i] == wr[0]);
                assert(wr[0] == '(');
                assert(l == 1 && run[0] == ' ');
            } else if k == 1 {
                assert(out[i - 1] == wr[0]);
                assert(false);
            }
        } else {
            assert(out[i] == run[i]);
            assert(false);
        }
    }
    assert forall|i: int|
        0 <= i < out.len() && is_mark(#[trigger] out[i]) implies (i + 1 < out.len() && out[i + 1]
        == ' ' && (i + 2 == out.len() || !is_space(out[i + 2]))) by {
        lemma_window_facts(out, run, wr, i);
    }
    assert forall|i: int|
        0 <= i < out.len() && #[trigger] out[i] == ')' implies (i + 1 < out.len() && (out[i + 1]
        == ' ' || is_mark(out[i + 1]))) by {
        lemma_window_facts(out, run, wr, i);
    }
    assert forall|i: int|
        0 <= i < out.len() && #[trigger] out[i] == ')' && i + 1 < out.len() && out[i + 1] == ' '
        implies (i + 2 == out.len() || !is_space(out[i + 2])) by {
        lemma_window_facts(out, run, wr, i);
    }
    assert forall|i: int|
        0 <= i < out.len() && #[trigger] out[i] == ')' && i >= 1 && is_space(out[i - 1]) implies (
    out[i - 1] == ' ' && i >= 2 && (is_mark(out[i - 2]) || out[i - 2] == ')')) by {
        lemma_window_facts(out, run, wr, i);
        if i >= l {
            let k = i - l;
            if k == 0 {
                assert(out[i] == wr[0]);
                assert(false);
            } else if k == 1 {
                assert(out[i - 1] == wr[0]);
                assert(false);
            }
        } else {
            assert(out[i] == run[i]);
            assert(false);
        }
    }
    assert forall|i: int|
        0 <= i < out.len() && is_mark(#[trigger] out[i]) && i >= 1 && is_space(out[i - 1]) implies (
    out[i - 1] == ' ' && i >= 2 && is_mark(out[i - 2])) by {
        lemma_window_facts(out, run, wr, i);
        if i >= l {
            let k = i - l;
            if k == 0 {
                assert(out[i] == wr[0]);
                assert(false);
            } else if k == 1 {
                assert(out[i - 1] == wr[0]);
                assert(false);
            }
        } else {
            assert(out[i] == run[i]);
            assert(false);
        }
    }
}

/// The mark rule's output on paren- and close-tidy input is tidy.
proof fn lemma_mark_tidy_holds(b: Seq<char>)
    requires
        paren_tidy(b),
        close_tidy(b),
    ensures
        tidy(rule_after(b, mark_trigger())),
    decreases b.len(),
{
    let t = mark_trigger();
    lemma_ws_len_bounds(b);
    if b.len() == 0 {
    } else {
        let w = ws_len(b);
        if w < b.len() && t(b[w]) {
            // a whitespace run, the mark, and its trailing run
            let m = b[w];
            let g = ws_len(b.skip(w + 1));
            lemma_ws_len_bounds(b.skip(w + 1));
            let br = b.skip(w + 1 + g);
            let wr = rule_after(br, t);
            lemma_paren_tidy_skip(b, w + 1 + g);
            lemma_close_tidy_skip(b, w + 1 + g);
            lemma_mark_tidy_holds(br);
            let out = seq![m, ' '] + wr;
            assert(rule_after(b, t) == out);
            if br.len() > 0 {
                assert(!is_space(br[0])) by {
                    assert(b.skip(w + 1)[g] == b[w + 1 + g]);
                    assert(br[0] == b[w + 1 + g]);
                }
                lemma_after_head(br, t);
                assert(ws_len(br) == 0) by {
                    lemma_ws_len_zero(br);
                }
                assert(!is_space(wr[0]));
            }
            lemma_tidy_chunk2(m, wr);
        } else if w == 0 && b[0] == ')' {
            // the closing parenthesis with its guaranteed space after it
            assert(b.len() >= 2 && b[1] == ' ' && (b.len() == 2 || !is_space(b[2])));
            assert(!t(')'));
            lemma_after_cons_plain(')', b.skip(1), t);
            assert(seq![')'] + b.skip(1) =~= b);
            assert(ws_len(b.skip(1)) == 1) by {
                assert(b.skip(1)[0] == b[1]);
                if b.len() > 2 {
                    assert(b.skip(1)[1] == b[2]);
                }
                lemma_ws_len_one(b.skip(1));
            }
            if b.len() > 2 && t(b[2]) {
                // a mark follows: its rule eats the space after the parenthesis
                let m = b[2];
                assert(b.skip(1)[1] == b[2]);
                lemma_after_ws_before_trigger(b.skip(1), t);
                assert(b.skip(1).skip(1) =~= b.skip(2));
                assert(ws_len(b.skip(2)) == 0) by {
                    assert(b.skip(2)[0] == b[2]);
                    assert(!is_space(b[2]));
                    lemma_ws_len_zero(b.skip(2));
                }
                let g2 = ws_len(b.skip(3));
                lemma_ws_len_bounds(b.skip(3));
                let br = b.skip(3 + g2);
                assert(rule_after(b.skip(2), t) == seq![m, ' '] + rule_after(br, t)) by {
                    assert(b.skip(2)[0] == b[2]);
                    assert(b.skip(2).skip(1) =~= b.skip(3));
                    assert(b.skip(2).skip(1 + g2) =~= b.skip(3 + g2));
                }
                let wr = rule_after(br, t);
                lemma_paren_tidy_skip(b, 3 + g2);
                lemma_close_tidy_skip(b, 3 + g2);
                lemma_mark_tidy_holds(br);
                let out = seq![')', m, ' '] + wr;
                assert(rule_after(b, t) =~= out);
                if br.len() > 0 {
                    assert(!is_space(br[0])) by {
                        assert(b.skip(3)[g2] == b[3 + g2]);
                        assert(br[0] == b[3 + g2]);
                    }
                    lemma_after_head(br, t);
                    assert(ws_len(br) == 0) by {
                        lemma_ws_len_zero(br);
                    }
                    assert(!is_space(wr[0]));
                }
                lemma_tidy_chunk3(m, wr);
            } else {
                // no mark follows: the parenthesis and its space are copied
                assert(b.skip(1).len() == 1 || !t(b.skip(1)[1])) by {
                    if b.len() > 2 {
                        assert(b.skip(1)[1] == b[2]);
                    }
                }
                lemma_after_ws_copy(b.skip(1), t, 1);
                assert(b.skip(1).take(1) =~= seq![' ']);
                assert(b.skip(1).skip(1) =~= b.skip(2));
                let wr = rule_after(b.skip(2), t);
                lemma_paren_tidy_skip(b, 2);
                lemma_close_tidy_skip(b, 2);
                lemma_mark_tidy_holds(b.skip(2));
                let out = seq![')', ' '] + wr;
                assert(rule_after(b, t) =~= out);
                if b.len() > 2 {
                    assert(!is_space(b[2]));
                    assert(b.skip(2)[0] == b[2]);
                    lemma_after_head(b.skip(2), t);
                    assert(ws_len(b.skip(2)) == 0) by {
                        lemma_ws_len_zero(b.skip(2));
                    }
                    assert(wr.len() > 0 && wr[0] == b[2]);
                    assert(!is_space(wr[0]) && !t(wr[0]));
                } else {
                    assert(b.skip(2).len() == 0);
                    assert(wr.len() == 0);
                }
                lemma_tidy_chunk_close(wr);
            }
        } else if w == 0 {
            // an ordinary head character, copied
            let c = b[0];
            assert(!is_space(c) && !t(c) && c != ')');
            lemma_after_cons_plain(c, b.skip(1), t);
            assert(seq![c] + b.skip(1) =~= b);
            let wr = rule_after(b.skip(1), t);
            lemma_paren_tidy_skip(b, 1);
            lemma_close_tidy_skip(b, 1);
            lemma_mark_tidy_holds(b.skip(1));
            let out = seq![c] + wr;
            assert(rule_after(b, t) == out);
            if c == '(' && b.len() > 1 {
                assert(!is_space(b[1]));
                assert(b.skip(1)[0] == b[1]);
                lemma_after_head(b.skip(1), t);
                assert(ws_len(b.skip(1)) == 0) by {
                    lemma_ws_len_zero(b.skip(1));
                }
                assert(wr.len() > 0 && wr[0] == b[1]);
                assert(!is_space(wr[0]));
            }
            lemma_tidy_chunk_plain(c, wr);
        } else {
            // a whitespace run followed by nothing, or by an ordinary
            // character; a closing parenthesis after whitespace cannot
            // occur in close-tidy text
            if w < b.len() && b[w] == ')' {
                assert(is_space(b[w - 1]));
                assert(w >= 2 && b[w - 2] == ')');
                assert(is_space(b[w - 2]));
                assert(false);
            }
            lemma_after_ws_copy(b, t, w);
            let br = b.skip(w);
            let wr = rule_after(br, t);
            lemma_paren_tidy_skip(b, w);
            lemma_close_tidy_skip(b, w);
            lemma_mark_tidy_holds(br);
            let out = b.take(w) + wr;
            assert(rule_after(b, t) == out);
            if br.len() > 0 {
                assert(!is_space(br[0]) && !t(br[0]) && br[0] != ')') by {
                    assert(br[0] == b[w]);
                }
                lemma_after_head(br, t);
                assert(ws_len(br) == 0) by {
                    lemma_ws_len_zero(br);
                }
                assert(wr[0] == br[0]);
            }
            if w >= 2 && w < b.len() && b[w] == '(' {
                assert(is_space(b[w - 1]));
                assert(b[w - 1] == ' ' && !is_space(b[w - 2]));
                assert(false);
            }
            lemma_tidy_chunk_ws(b.take(w), wr, if w < b.len() {
                Some(b[w])
            } else {
                None
            });
        }
    }
}

// ---------------------------------------------------------------------
// the two trailing-space passes cancel out on tidy text
// ---------------------------------------------------------------------

/// Whitespace-prefix length of a whitespace block before a remainder that
/// starts with a non-space.
proof fn lemma_ws_len_concat(run: Seq<char>, rest: Seq<char>)
    requires
        forall|j: int| 0 <= j < run.len() ==> is_space(#[trigger] run[j]),
        rest.len() == 0 || !is_space(rest[0]),
    ensures
        ws_len(run + rest) == run.len(),
    decreases run.len(),
{
    let u = run + rest;
    if run.len() == 0 {
        assert(u =~= rest);
        lemma_ws_len_zero(rest);
    } else {
        assert(u[0] == run[0]);
        assert(is_space(u[0]));
        assert(u.skip(1) =~= run.skip(1) + rest);
        lemma_ws_len_concat(run.skip(1), rest);
    }
}

/// On tidy text, running the closing rule and then the mark rule returns
/// the text unchanged: the closing rule re-inserts a space after each `)`
/// that a mark directly follows, and the mark rule removes exactly those
/// spaces again.
#[verifier::rlimit(100)]
proof fn lemma_close_mark_fixpoint(y: Seq<char>)
    requires
        tidy(y),
    ensures
        rule_after(rule_after(y, close_trigger()), mark_trigger()) == y,
    decreases y.len(),
{
    let tc = close_trigger();
    let tm = mark_trigger();
    lemma_ws_len_bounds(y);
    assert(!is_mark(' ') && !is_mark('(') && !is_mark(')') && !is_space(')') && !is_space('('));
    if y.len() == 0 {
        assert(rule_after(rule_after(y, tc), tm) =~= y);
    } else if !is_space(y[0]) {
        let c = y[0];
        assert(seq![c] + y.skip(1) =~= y);
        if c == ')' {
            assert(y.len() >= 2 && (y[1] == ' ' || is_mark(y[1])));
            assert(ws_len(y) == 0) by {
                lemma_ws_len_zero(y);
            }
            if y[1] == ' ' {
                // `) ` was left alone by the mark pass: nothing follows, or
                // something that is neither whitespace nor a mark
                assert(y.len() == 2 || !is_space(y[2]));
                if y.len() > 2 && is_mark(y[2]) {
                    assert(is_space(y[1]));
                    assert(is_mark(y[0]));
                    assert(false);
                }
                let yr = y.skip(2);
                assert(yr.len() == 0 || (!is_space(yr[0]) && !is_mark(yr[0]))) by {
                    if y.len() > 2 {
                        assert(yr[0] == y[2]);
                    }
                }
                // the closing pass
                assert(ws_len(y.skip(1)) == 1) by {
                    assert(y.skip(1)[0] == y[1]);
                    if y.len() > 2 {
                        assert(y.skip(1)[1] == y[2]);
                    }
                    lemma_ws_len_one(y.skip(1));
                }
                assert(y.skip(1).skip(1) =~= yr);
                let z = rule_after(yr, tc);
                assert(rule_after(y, tc) == seq![')', ' '] + z) by {
                    assert(tc(y[0]));
                }
                // the mark pass copies the parenthesis and the space
                lemma_after_cons_plain(')', seq![' '] + z, tm);
                assert(seq![')'] + (seq![' '] + z) =~= seq![')', ' '] + z);
                if yr.len() == 0 {
                    assert(z =~= Seq::<char>::empty());
                    assert((seq![' '] + z) =~= seq![' ']);
                    lemma_ws_len_one(seq![' '] + z);
                    lemma_after_ws_copy(seq![' '] + z, tm, 1);
                    assert((seq![' '] + z).take(1) =~= seq![' ']);
                    assert((seq![' '] + z).skip(1) =~= z);
                    assert(rule_after(z, tm) =~= Seq::<char>::empty());
                    assert(rule_after(rule_after(y, tc), tm) =~= y);
                } else {
                    lemma_after_head(yr, tc);
                    assert(z.len() > 0 && z[0] == yr[0]) by {
                        lemma_ws_len_zero(yr);
                        if ws_len(yr) < yr.len() && tc(yr[ws_len(yr)]) {
                            assert(z[0] == yr[0]);
                        }
                    }
                    assert(ws_len(seq![' '] + z) == 1) by {
                        assert((seq![' '] + z)[0] == ' ');
                        assert((seq![' '] + z)[1] == z[0]);
                        lemma_ws_len_one(seq![' '] + z);
                    }
                    assert(!tm(z[0]));
                    lemma_after_ws_copy(seq![' '] + z, tm, 1);
                    assert((seq![' '] + z).take(1) =~= seq![' ']);
                    assert((seq![' '] + z).skip(1) =~= z);
                    lemma_tidy_skip(y, 2);
                    lemma_close_mark_fixpoint(yr);
                    assert(rule_after(rule_after(y, tc), tm) =~= seq![')', ' '] + yr);
                    assert(seq![')', ' '] + yr =~= y);
                }
            } else {
                // `)` directly before a mark: the closing pass inserts a
                // space and the mark pass eats it again
                let m = y[1];
                assert(is_mark(m));
                assert(y.len() >= 3 && y[2] == ' ' && (y.len() == 3 || !is_space(y[3])));
                let y3 = y.skip(3);
                // the closing pass: `) ` then the mark; the mark's space is
                // eaten when another `)` follows it, and copied otherwise
                assert(ws_len(y.skip(1)) == 0) by {
                    assert(y.skip(1)[0] == m);
                    lemma_ws_len_zero(y.skip(1));
                }
                let z3 = rule_after(y3, tc);
                assert(!tc(m));
                lemma_after_cons_plain(m, y.skip(2), tc);
                assert(seq![m] + y.skip(2) =~= y.skip(1));
                assert(ws_len(y.skip(2)) == 1) by {
                    assert(y.skip(2)[0] == y[2]);
                    if y.len() > 3 {
                        assert(y.skip(2)[1] == y[3]);
                    }
                    lemma_ws_len_one(y.skip(2));
                }
                assert(y.skip(2).skip(1) =~= y3);
                lemma_tidy_skip(y, 3);
                lemma_close_mark_fixpoint(y3);
                if y3.len() > 0 && y3[0] == ')' {
                    // the closing pass eats the mark's space and re-emits
                    // its own after the next parenthesis; the mark pass
                    // restores the mark's space
                    assert(y.skip(2)[1] == y3[0]);
                    lemma_after_ws_before_trigger(y.skip(2), tc);
                    assert(rule_after(y, tc) == seq![')', ' '] + (seq![m] + z3));
                    let b2 = seq![')', ' ', m] + z3;
                    assert(rule_after(y, tc) =~= b2);
                    assert(z3.len() > 0 && z3[0] == ')') by {
                        lemma_after_head(y3, tc);
                        lemma_ws_len_zero(y3);
                    }
                    lemma_after_cons_plain(')', seq![' ', m] + z3, tm);
                    assert(seq![')'] + (seq![' ', m] + z3) =~= b2);
                    let u = seq![' ', m] + z3;
                    assert(ws_len(u) == 1) by {
                        assert(u[0] == ' ' && u[1] == m);
                        lemma_ws_len_one(u);
                    }
                    assert(tm(u[1]));
                    assert(rule_after(u, tm) == seq![m, ' '] + rule_after(
                        u.skip(1 + 1 + ws_len(u.skip(2))),
                        tm,
                    ));
                    assert(ws_len(u.skip(2)) == 0) by {
                        assert(u.skip(2) =~= z3);
                        lemma_ws_len_zero(z3);
                    }
                    assert(u.skip(2) =~= z3);
                    assert(rule_after(rule_after(y, tc), tm) =~= seq![')', m, ' '] + y3);
                    assert(seq![')', m, ' '] + y3 =~= y);
                } else {
                    // the mark's space is copied, inserted before the mark
                    // by the closing pass's own emission, and removed again
                    assert(y.skip(2).len() == 1 || !tc(y.skip(2)[1])) by {
                        if y3.len() > 0 {
                            assert(y.skip(2)[1] == y3[0]);
                        }
                    }
                    lemma_after_ws_copy(y.skip(2), tc, 1);
                    assert(y.skip(2).take(1) =~= seq![' ']);
                    assert(rule_after(y, tc) == seq![')', ' '] + (seq![m] + (seq![' '] + z3)));
                    let b2 = seq![')', ' ', m, ' '] + z3;
                    assert(rule_after(y, tc) =~= b2);
                    assert(z3.len() == 0 || (!is_space(z3[0]) && z3[0] == y3[0])) by {
                        if y3.len() > 0 {
                            assert(!is_space(y3[0]));
                            lemma_after_head(y3, tc);
                            lemma_ws_len_zero(y3);
                        } else {
                            assert(z3 =~= Seq::<char>::empty());
                        }
                    }
                    lemma_after_cons_plain(')', seq![' ', m, ' '] + z3, tm);
                    assert(seq![')'] + (seq![' ', m, ' '] + z3) =~= b2);
                    let u = seq![' ', m, ' '] + z3;
                    assert(ws_len(u) == 1) by {
                        assert(u[0] == ' ' && u[1] == m);
                        lemma_ws_len_one(u);
                    }
                    assert(tm(u[1]));
                    assert(rule_after(u, tm) == seq![m, ' '] + rule_after(
                        u.skip(1 + 1 + ws_len(u.skip(2))),
                        tm,
                    ));
                    assert(ws_len(u.skip(2)) == 1) by {
                        assert(u.skip(2)[0] == ' ');
                        if z3.len() > 0 {
                            assert(u.skip(2)[1] == z3[0]);
                        }
                        lemma_ws_len_one(u.skip(2));
                    }
                    assert(u.skip(3) =~= z3);
                    assert(rule_after(rule_after(y, tc), tm) =~= seq![')', m, ' '] + y3);
                    assert(seq![')', m, ' '] + y3 =~= y);
                }
            }
        } else if is_mark(c) {
            assert(y.len() >= 2 && y[1] == ' ' && (y.len() == 2 || !is_space(y[2])));
            let y2 = y.skip(2);
            // the closing pass copies the mark; the space stays unless a
            // `)` follows it
            assert(!tc(c));
            lemma_after_cons_plain(c, y.skip(1), tc);
            assert(seq![c] + y.skip(1) =~= y);
            assert(ws_len(y.skip(1)) == 1) by {
                assert(y.skip(1)[0] == y[1]);
                if y.len() > 2 {
                    assert(y.skip(1)[1] == y[2]);
                }
                lemma_ws_len_one(y.skip(1));
            }
            assert(y.skip(1).skip(1) =~= y2);
            if y2.len() > 0 && y2[0] == ')' {
                // the closing pass eats the mark's space and re-emits it
                assert(y.skip(1)[1] == y2[0]);
                lemma_after_ws_before_trigger(y.skip(1), tc);
                let z2 = rule_after(y2, tc);
                assert(rule_after(y, tc) == seq![c] + z2);
                assert(z2.len() > 0 && z2[0] == ')') by {
                    lemma_after_head(y2, tc);
                    lemma_ws_len_zero(y2);
                }
                // the mark pass puts the space back
                assert(ws_len(seq![c] + z2) == 0) by {
                    assert((seq![c] + z2)[0] == c);
                    lemma_ws_len_zero(seq![c] + z2);
                }
                assert(tm((seq![c] + z2)[0]));
                assert(rule_after(seq![c] + z2, tm) == seq![c, ' '] + rule_after(
                    (seq![c] + z2).skip(1 + ws_len((seq![c] + z2).skip(1))),
                    tm,
                ));
                assert((seq![c] + z2).skip(1) =~= z2);
                assert(ws_len(z2) == 0) by {
                    lemma_ws_len_zero(z2);
                }
                assert((seq![c] + z2).skip(1int) =~= z2);
                lemma_tidy_skip(y, 2);
                lemma_close_mark_fixpoint(y2);
                assert(rule_after(rule_after(y, tc), tm) =~= seq![c, ' '] + y2);
                assert(seq![c, ' '] + y2 =~= y);
            } else {
                // the space is copied
                assert(y.skip(1).len() == 1 || !tc(y.skip(1)[1])) by {
                    if y2.len() > 0 {
                        assert(y.skip(1)[1] == y2[0]);
                    }
                }
                lemma_after_ws_copy(y.skip(1), tc, 1);
                assert(y.skip(1).take(1) =~= seq![' ']);
                let z2 = rule_after(y2, tc);
                assert(rule_after(y, tc) =~= seq![c, ' '] + z2);
                assert(z2.len() == 0 || !is_space(z2[0])) by {
                    if y2.len() > 0 {
                        assert(!is_space(y2[0]));
                        lemma_after_head(y2, tc);
                        lemma_ws_len_zero(y2);
                        if ws_len(y2) < y2.len() && tc(y2[ws_len(y2)]) {
                        }
                    } else {
                        assert(z2 =~= Seq::<char>::empty());
                    }
                }
                // the mark pass re-emits the mark and its space
                let u = seq![c, ' '] + z2;
                assert(ws_len(u) == 0) by {
                    assert(u[0] == c);
                    lemma_ws_len_zero(u);
                }
                assert(tm(u[0]));
                assert(rule_after(u, tm) == seq![c, ' '] + rule_after(
                    u.skip(1 + ws_len(u.skip(1))),
                    tm,
                ));
                assert(ws_len(u.skip(1)) == 1) by {
                    assert(u.skip(1)[0] == ' ');
                    if z2.len() > 0 {
                        assert(u.skip(1)[1] == z2[0]);
                    }
                    lemma_ws_len_one(u.skip(1));
                }
                assert(u.skip(2) =~= z2);
                lemma_tidy_skip(y, 2);
                lemma_close_mark_fixpoint(y2);
                assert(rule_after(rule_after(y, tc), tm) =~= seq![c, ' '] + y2);
                assert(seq![c, ' '] + y2 =~= y);
            }
        } else {
            // an ordinary character, copied by both passes
            lemma_after_cons_plain(c, y.skip(1), tc);
            let z = rule_after(y.skip(1), tc);
            assert(rule_after(y, tc) == seq![c] + z);
            lemma_after_cons_plain(c, z, tm);
            lemma_tidy_skip(y, 1);
            lemma_close_mark_fixpoint(y.skip(1));
            assert(rule_after(rule_after(y, tc), tm) =~= y);
        }
    } else {
        // a whitespace run; tidy text never puts `)` or a mark after it
        let w = ws_len(y);
        assert(w >= 1);
        if w < y.len() {
            if y[w] == ')' {
                assert(is_space(y[w - 1]));
                assert(w >= 2 && (is_mark(y[w - 2]) || y[w - 2] == ')'));
                assert(is_space(y[w - 2]));
                assert(false);
            }
            if is_mark(y[w]) {
                assert(is_space(y[w - 1]));
                assert(w >= 2 && is_mark(y[w - 2]));
                assert(is_space(y[w - 2]));
                assert(false);
            }
        }
        lemma_after_ws_copy(y, tc, w);
        let yr = y.skip(w);
        let z = rule_after(yr, tc);
        assert(rule_after(y, tc) == y.take(w) + z);
        if yr.len() == 0 {
            assert(z =~= Seq::<char>::empty());
            assert(y.take(w) + z =~= y);
            lemma_after_ws_copy(y, tm, w);
            assert(rule_after(y, tm) =~= y);
            assert(rule_after(rule_after(y, tc), tm) == y);
        } else {
            assert(!is_space(yr[0]) && yr[0] == y[w]);
            assert(z.len() > 0 && z[0] == yr[0]) by {
                lemma_after_head(yr, tc);
                lemma_ws_len_zero(yr);
                if ws_len(yr) < yr.len() && tc(yr[ws_len(yr)]) {
                    assert(yr[0] == ')');
                    assert(false);
                }
            }
            let u = y.take(w) + z;
            assert(ws_len(u) == w) by {
                assert(forall|j: int| 0 <= j < w ==> is_space(#[trigger] y.take(w)[j]));
                lemma_ws_len_concat(y.take(w), z);
            }
            assert(u[w] == z[0]);
            assert(!tm(u[w]));
            lemma_after_ws_copy(u, tm, w);
            assert(u.take(w) =~= y.take(w));
            assert(u.skip(w) =~= z);
            lemma_tidy_skip(y, w);
            lemma_close_mark_fixpoint(yr);
            assert(rule_after(rule_after(y, tc), tm) =~= y.take(w) + yr);
            assert(y.take(w) + yr =~= y);
        }
    }
}

// ---------------------------------------------------------------------
// the law
// ---------------------------------------------------------------------

/// Idempotent punctuation normalization: applying the punctuation
/// normalizer twice in sequence yields the same result as applying it
/// once.
pub proof fn lemma_normalize_idempotent(x: Seq<char>)
    ensures
        normalize_spec(normalize_spec(x)) == normalize_spec(x),
{
    let a = rule_open(x);
    let b = rule_after(a, close_trigger());
    let y = rule_after(b, mark_trigger());
    lemma_open_tidy(x);
    lemma_close_tidy_holds(a);
    lemma_mark_tidy_holds(b);
    lemma_open_fixpoint(y);
    lemma_close_mark_fixpoint(y);
}

} // verus!
