//! The whole pipeline: hyphen join, run classification, per-run
//! segmentation, assembly, and punctuation normalization, each stage
//! consuming the full output of the previous one.

use vstd::prelude::*;
use crate::table::FrequencyTable;
use crate::chars::lower_seq;
use crate::classify::classify_spec;
use crate::classify::runs_view;
use crate::classify::seg_to_asciis;
use crate::hyphen::join_hyphens;
use crate::hyphen::hyphen_join;
use crate::segment::seg_valid;
use crate::segment::seg_words;
use crate::segment::segment_run;
use crate::segment::words_view;
use crate::assemble::join_words;
use crate::assemble::join_tokens;
use crate::punct::normalize_spec;
use crate::punct::normalize_punct;

verus! {

/// The tokens one segmentable run resolves to: the winning split where one
/// is valid, the whole (lowercased) run as a single verbatim token where
/// none is.
pub open spec fn seg_tokens_spec(t: FrequencyTable, s: Seq<char>) -> Seq<Seq<char>> {
    if seg_valid(t, s) {
        seg_words(t, s, s.len() as int)
    } else {
        seq![s]
    }
}

/// The output fragment one run contributes: a passthrough run verbatim, a
/// segmentable run's tokens joined with single spaces.
pub open spec fn fragment_spec(t: FrequencyTable, run: (bool, Seq<char>)) -> Seq<char> {
    if run.0 {
        join_words(seg_tokens_spec(t, lower_seq(run.1)))
    } else {
        run.1
    }
}

/// The assembled (not yet punctuation-normalized) output of a run list.
pub open spec fn assemble_spec(t: FrequencyTable, rs: Seq<(bool, Seq<char>)>) -> Seq<char>
    decreases rs.len(),
{
    if rs.len() == 0 {
        Seq::empty()
    } else {
        assemble_spec(t, rs.drop_last()) + fragment_spec(t, rs.last())
    }
}

/// The diagnostics of a run list: the lowercased text of every segmentable
/// run for which no split reached the validity floor, in input order.
pub open spec fn diags_spec(t: FrequencyTable, rs: Seq<(bool, Seq<char>)>) -> Seq<Seq<char>>
    decreases rs.len(),
{
    if rs.len() == 0 {
        Seq::empty()
    } else {
        diags_spec(t, rs.drop_last()) + (if rs.last().0 && !seg_valid(t, lower_seq(rs.last().1)) {
            seq![lower_seq(rs.last().1)]
        } else {
            Seq::<Seq<char>>::empty()
        })
    }
}

/// The pipeline's output text for an input text.
pub open spec fn process_spec(t: FrequencyTable, input: Seq<char>) -> Seq<char> {
    normalize_spec(assemble_spec(t, classify_spec(join_hyphens(input))))
}

/// Runs the whole pipeline on one input text: hyphen join, classification,
/// per-run segmentation against the table, assembly, and punctuation
/// normalization. Returns the output text and the diagnostics — one entry,
/// the run text, for each run that was emitted verbatim because no split
/// reached the validity floor. Total: no input is rejected.
pub fn process_text(t: &FrequencyTable, input: &str) -> (r: (String, Vec<String>))
    ensures
        r.0@ == process_spec(*t, input@),
        words_view(r.1@) == diags_spec(*t, classify_spec(join_hyphens(input@))),
{
    let joined = hyphen_join(input);
    let runs = seg_to_asciis(joined);
    let ghost rv = runs_view(runs@);
    let n = runs.len();
    let mut acc = String::new();
    let mut diags: Vec<String> = Vec::new();
    let mut i: usize = 0;
    proof {
        assert(rv.take(0) =~= Seq::<(bool, Seq<char>)>::empty());
        assert(words_view(diags@) =~= diags_spec(*t, rv.take(0)));
    }
    while i < n
        invariant
            i <= n,
            n == runs@.len(),
            rv == runs_view(runs@),
            rv == classify_spec(join_hyphens(input@)),
            acc@ == assemble_spec(*t, rv.take(i as int)),
            words_view(diags@) == diags_spec(*t, rv.take(i as int)),
        decreases n - i,
    {
        proof {
            assert(rv.take(i + 1).drop_last() =~= rv.take(i as int));
            assert(rv.take(i + 1).last() == rv[i as int]);
            assert(rv[i as int] == (runs@[i as int].0, runs@[i as int].1@));
        }
        let ghost diags0 = diags@;
        if runs[i].0 {
            match segment_run(t, runs[i].1.as_str()) {
                Ok(toks) => {
                    let frag = join_tokens(&toks);
                    acc.append(frag.as_str());
                },
                Err(run_text) => {
                    proof {
                        assert(join_words(seq![run_text@]) == run_text@);
                    }
                    acc.append(run_text.as_str());
                    diags.push(run_text);
                    proof {
                        assert(words_view(diags@) =~= words_view(diags0) + seq![
                            lower_seq(rv[i as int].1),
                        ]);
                    }
                },
            }
        } else {
            acc.append(runs[i].1.as_str());
        }
        proof {
            assert(acc@ =~= assemble_spec(*t, rv.take(i + 1)));
            assert(words_view(diags@) =~= diags_spec(*t, rv.take(i + 1)));
        }
        i = i + 1;
    }
    proof {
        assert(rv.take(n as int) =~= rv);
    }
    let out = normalize_punct(acc.as_str());
    (out, diags)
}

} // verus!
