//! Retention pruning: after a capture, a subfolder keeps at most the
//! configured number of generations, and the chronologically oldest ones
//! (lexically smallest timestamps) are the ones removed.

use crate::order::{lex_le, lex_leq, sort_strings, view_seq};
use crate::settings::{MAX_GENERATIONS, MIN_GENERATIONS};
use vstd::prelude::*;
use vstd::relations::sorted_by;

verus! {

/// How many generations pruning removes: the excess over the limit.
pub open spec fn spec_prune_count(n: int, limit: int) -> int {
    if n > limit {
        n - limit
    } else {
        0
    }
}

/// The outcome of applying the retention limit to one subfolder's
/// generations: `remove` holds the timestamps whose directories are to be
/// deleted, `keep` those that stay, both in ascending (oldest first) order.
pub struct PrunePlan {
    pub remove: Vec<String>,
    pub keep: Vec<String>,
}

/// Applies the retention limit to a listing of one subfolder's generation
/// timestamps: sorted ascending, the excess over `limit` is removed from the
/// front (the oldest), and exactly the `limit` newest stay.
pub fn enforce_generation_limit(generations: Vec<String>, limit: usize) -> (r: PrunePlan)
    ensures
        ({
            let sorted = view_seq(generations@).sort_by(lex_leq());
            let k = spec_prune_count(generations@.len() as int, limit as int);
            &&& view_seq(r.remove@) == sorted.take(k)
            &&& view_seq(r.keep@) == sorted.skip(k)
        }),
{
    let ghost input = view_seq(generations@);
    let mut v = generations;
    sort_strings(&mut v);
    let ghost sorted = input.sort_by(lex_leq());
    proof {
        crate::order::lemma_lex_total_ordering();
        input.lemma_sort_by_ensures(lex_leq());
        input.to_multiset_ensures();
        sorted.to_multiset_ensures();
        assert(v@.len() == view_seq(v@).len());
        assert(v@.len() == input.len());
    }
    let k: usize = if v.len() > limit {
        v.len() - limit
    } else {
        0
    };
    let keep = v.split_off(k);
    proof {
        assert(view_seq(v@) =~= sorted.take(k as int));
        assert(view_seq(keep@) =~= sorted.skip(k as int));
    }
    PrunePlan { remove: v, keep }
}

/// Retention law: pruning a set of `n` generations under limit `L` removes
/// exactly `n - L` generations when `n` exceeds `L` and none otherwise,
/// every removed generation sorts before (is older than) every kept one,
/// and together the removed and kept generations are exactly the input.
pub proof fn lemma_retention(gens: Seq<Seq<char>>, limit: int)
    requires
        MIN_GENERATIONS <= limit <= MAX_GENERATIONS,
    ensures
        ({
            let sorted = gens.sort_by(lex_leq());
            let k = spec_prune_count(gens.len() as int, limit);
            let removed = sorted.take(k);
            let kept = sorted.skip(k);
            &&& gens.len() > limit ==> removed.len() == gens.len() - limit
            &&& gens.len() <= limit ==> removed.len() == 0
            &&& kept.len() == gens.len() - k
            &&& kept.len() <= limit
            &&& forall|x: int, y: int|
                0 <= x < removed.len() && 0 <= y < kept.len() ==> lex_le(
                    #[trigger] removed[x],
                    #[trigger] kept[y],
                )
            &&& (removed + kept).to_multiset() == gens.to_multiset()
        }),
{
    let sorted = gens.sort_by(lex_leq());
    let k = spec_prune_count(gens.len() as int, limit);
    let removed = sorted.take(k);
    let kept = sorted.skip(k);
    crate::order::lemma_lex_total_ordering();
    gens.lemma_sort_by_ensures(lex_leq());
    assert(sorted.len() == gens.len()) by {
        gens.to_multiset_ensures();
        sorted.to_multiset_ensures();
    }
    assert forall|x: int, y: int|
        0 <= x < removed.len() && 0 <= y < kept.len() implies lex_le(
        #[trigger] removed[x],
        #[trigger] kept[y],
    ) by {
        assert(removed[x] == sorted[x]);
        assert(kept[y] == sorted[k + y]);
        assert(lex_leq()(sorted[x], sorted[k + y]));
    }
    assert(removed + kept =~= sorted);
}

} // verus!
