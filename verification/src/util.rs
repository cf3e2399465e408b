//! Small random helpers shared by the generators and the engine.

use vstd::prelude::*;

use crate::celloption::{CellOption, CellOptions, Occupant, Tile};
use crate::rng::{index_below, rng_below};

verus! {

/// Shuffle a vector in place by drawing without replacement: the
/// contents are a permutation of what was there before.
pub fn shuffle<T>(rng: &mut rand::rngs::StdRng, array: &mut Vec<T>)
    ensures
        final(array)@.len() == old(array)@.len(),
        final(array)@.to_multiset() == old(array)@.to_multiset(),
{
    let ghost all = array@.to_multiset();
    let mut out: Vec<T> = Vec::new();
    proof {
        out@.to_multiset_ensures();
        assert(out@.to_multiset().add(array@.to_multiset()) =~= all);
    }
    let total = array.len();
    while array.len() > 0
        invariant
            out@.len() + array@.len() == total,
            out@.to_multiset().add(array@.to_multiset()) == all,
        decreases array@.len(),
    {
        let i = index_below(rng, array.len());
        let ghost pre_out = out@;
        let ghost pre_arr = array@;
        let t = array.swap_remove(i);
        out.push(t);
        proof {
            pre_out.to_multiset_ensures();
            pre_arr.to_multiset_ensures();
            out@.to_multiset_ensures();
            array@.to_multiset_ensures();
            crate::celloption::lemma_swap_remove_multiset(pre_arr, i as int);
            assert(out@.to_multiset() =~= pre_out.to_multiset().insert(t));
            assert(out@.to_multiset().add(array@.to_multiset()) =~= all) by {
                assert(pre_arr.contains(t));
                assert(pre_arr.to_multiset().count(t) > 0);
                assert(forall|x: T|
                    out@.to_multiset().add(array@.to_multiset()).count(x) == all.count(x));
            }
        }
    }
    proof {
        array@.to_multiset_ensures();
        assert(out@.to_multiset() =~= all) by {
            assert(array@.len() == 0);
            assert(array@ =~= Seq::<T>::empty());
            assert(forall|x: T| array@.to_multiset().count(x) == 0);
            assert(forall|x: T| out@.to_multiset().count(x) == all.count(x));
        }
    }
    *array = out;
}

/// Roll `num` in `den`: true with probability `num / den`. Certain odds
/// come out as they must: never with a zero numerator, always when the
/// numerator reaches the denominator.
pub fn odds(rng: &mut rand::rngs::StdRng, num: u64, den: u64) -> (r: bool)
    requires
        den > 0,
    ensures
        num == 0 ==> !r,
        num >= den ==> r,
{
    let drawn = rng_below(rng, den);
    num > drawn
}

/// Roll a random occupant for a tile: only floor tiles may be occupied,
/// and then only with the given percent chance.
pub fn random_occupant(
    rng: &mut rand::rngs::StdRng,
    tile: &Tile,
    options: &CellOptions<Occupant>,
    chance_pct: u64,
) -> (r: Option<Occupant>)
    requires
        options.len_spec() > 0,
    ensures
        r is Some ==> tile.name_spec() == "floor"@,
        r is Some ==> options.contains_tag(r->0),
        tile.name_spec() != "floor"@ ==> r is None,
        chance_pct == 0 ==> r is None,
{
    if tile.name() == "floor".to_owned() && odds(rng, chance_pct, 100) {
        let p = options.pick(rng);
        let o = p.clone();
        proof {
            let i = choose|i: int|
                0 <= i < options.options_spec().len() && *p == options.options_spec()[i];
            assert(o == options.options_spec()[i]);
        }
        Some(o)
    } else {
        None
    }
}

} // verus!
