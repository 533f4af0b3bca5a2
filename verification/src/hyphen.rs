//! Hyphen-join normalization: collapsing line-break hyphenation artifacts.
//!
//! Every occurrence of `<letter>-<letter>` is collapsed to the two letters
//! with the hyphen removed, in a single leftmost-first pass over the text
//! with non-overlapping matches. Hyphens not flanked by ASCII letters (such
//! as in `3-4`, or next to punctuation) are left alone.

use vstd::prelude::*;
use crate::chars::is_letter;
use crate::chars::letter;
use crate::chars::chars_of;
use crate::chars::string_of;

verus! {

/// True iff a hyphen-join site starts at the head of `s`: a letter, a
/// hyphen, and a letter.
pub open spec fn join_site(s: Seq<char>) -> bool {
    s.len() >= 3 && is_letter(s[0]) && s[1] == '-' && is_letter(s[2])
}

/// The hyphen-joined image of a character sequence: scanning left to right,
/// each `letter-letter` occurrence loses its hyphen and the scan resumes
/// after the second letter, so matches do not overlap.
pub open spec fn join_hyphens(s: Seq<char>) -> Seq<char>
    decreases s.len(),
{
    if s.len() == 0 {
        Seq::empty()
    } else if join_site(s) {
        seq![s[0], s[2]] + join_hyphens(s.skip(3))
    } else {
        seq![s[0]] + join_hyphens(s.skip(1))
    }
}

/// Collapses every `letter-letter` hyphenation artifact in the input,
/// leftmost first. Total: no input is rejected.
pub fn hyphen_join(s: &str) -> (r: String)
    ensures
        r@ == join_hyphens(s@),
{
    let v = chars_of(s);
    let n = v.len();
    let mut out: Vec<char> = Vec::new();
    let mut i: usize = 0;
    proof {
        assert(v@.skip(0) =~= v@);
    }
    while i < n
        invariant
            i <= n,
            n == v@.len(),
            join_hyphens(v@) == out@ + join_hyphens(v@.skip(i as int)),
        decreases n - i,
    {
        if n - i > 2 && letter(v[i]) && v[i + 1] == '-' && letter(v[i + 2]) {
            proof {
                assert(join_site(v@.skip(i as int)));
                assert(v@.skip(i as int)[0] == v@[i as int]);
                assert(v@.skip(i as int)[2] == v@[i as int + 2]);
                assert(v@.skip(i as int).skip(3) =~= v@.skip(i as int + 3));
            }
            out.push(v[i]);
            out.push(v[i + 2]);
            i = i + 3;
        } else {
            proof {
                if v@.skip(i as int).len() > 0 {
                    assert(v@.skip(i as int)[0] == v@[i as int]);
                    if join_site(v@.skip(i as int)) {
                        assert(i + 2 < n && is_letter(v@[i as int]) && v@[i as int + 1] == '-'
                            && is_letter(v@[i as int + 2]));
                    }
                    assert(v@.skip(i as int).skip(1) =~= v@.skip(i as int + 1));
                }
            }
            out.push(v[i]);
            i = i + 1;
        }
    }
    proof {
        assert(v@.skip(n as int) =~= Seq::<char>::empty());
        assert(out@ =~= join_hyphens(v@));
    }
    string_of(&out)
}

} // verus!
