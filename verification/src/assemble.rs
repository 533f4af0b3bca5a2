//! Token assembly: rejoining segmented words and passthrough runs.
//!
//! A segmentable run's words are joined with single spaces; passthrough
//! runs are copied verbatim; no space is inserted between a word and an
//! adjacent passthrough fragment.

use vstd::prelude::*;
use crate::chars::push_char;
use crate::segment::words_view;

verus! {

/// The words joined with a single space between consecutive words — and
/// nothing around them.
pub open spec fn join_words(ws: Seq<Seq<char>>) -> Seq<char>
    decreases ws.len(),
{
    if ws.len() == 0 {
        Seq::empty()
    } else if ws.len() == 1 {
        ws[0]
    } else {
        join_words(ws.drop_last()) + seq![' '] + ws.last()
    }
}

/// Joins a run's words with single spaces.
pub fn join_tokens(ws: &Vec<String>) -> (r: String)
    ensures
        r@ == join_words(words_view(ws@)),
{
    let ghost wv = words_view(ws@);
    let n = ws.len();
    let mut r = String::new();
    let mut i: usize = 0;
    proof {
        assert(wv.take(0) =~= Seq::<Seq<char>>::empty());
    }
    while i < n
        invariant
            i <= n,
            n == ws@.len(),
            wv == words_view(ws@),
            r@ == join_words(wv.take(i as int)),
        decreases n - i,
    {
        if i > 0 {
            push_char(&mut r, ' ');
        }
        r.append(ws[i].as_str());
        proof {
            assert(wv.take(i + 1).last() == wv[i as int]);
            assert(wv[i as int] == ws@[i as int]@);
            if i == 0 {
                assert(wv.take(1)[0] == wv[0]);
            } else {
                assert(wv.take(i + 1).drop_last() =~= wv.take(i as int));
            }
        }
        i = i + 1;
    }
    proof {
        assert(wv.take(n as int) =~= wv);
    }
    r
}

} // verus!
