//! Small finite collections of grid coordinates and region ids.
//!
//! The maze carver, the connector machinery and the flood fill all work
//! over sets of coordinates and region ids and over a coordinate-to-
//! region lookup. They are stored as duplicate-free vectors so that
//! every operation is verified against a `Set` or `Map` view.

use vstd::prelude::*;

verus! {

/// The set of coordinates a duplicate-free vector holds.
pub open spec fn coord_seq_view(es: Seq<(u32, u32)>) -> Set<(int, int)> {
    Set::new(
        |p: (int, int)|
            exists|k: int|
                0 <= k < es.len() && (#[trigger] es[k]).0 as int == p.0 && es[k].1 as int == p.1,
    )
}

/// Pushing one coordinate inserts it into the set view.
pub proof fn lemma_coord_push(es: Seq<(u32, u32)>, e: (u32, u32))
    ensures
        coord_seq_view(es.push(e)) == coord_seq_view(es).insert((e.0 as int, e.1 as int)),
{
    let es2 = es.push(e);
    let pe = (e.0 as int, e.1 as int);
    assert forall|p: (int, int)| coord_seq_view(es2).contains(p) implies coord_seq_view(es).insert(
        pe,
    ).contains(p) by {
        let k = choose|k: int|
            0 <= k < es2.len() && (#[trigger] es2[k]).0 as int == p.0 && es2[k].1 as int == p.1;
        if k < es.len() {
            assert(es[k] == es2[k]);
            assert(coord_seq_view(es).contains(p));
        } else {
            assert(es2[k] == e);
        }
    }
    assert forall|p: (int, int)| coord_seq_view(es).insert(pe).contains(p) implies coord_seq_view(
        es2,
    ).contains(p) by {
        if p == pe {
            assert((#[trigger] es2[es.len() as int]).0 as int == p.0 && es2[es.len() as int].1 as int
                == p.1);
        } else {
            assert(coord_seq_view(es).contains(p));
            let k = choose|k: int|
                0 <= k < es.len() && (#[trigger] es[k]).0 as int == p.0 && es[k].1 as int == p.1;
            assert(es2[k] == es[k]);
        }
    }
    assert(coord_seq_view(es2) =~= coord_seq_view(es).insert(pe));
}

/// Pushing one region id inserts it into the set view.
pub proof fn lemma_region_push(es: Seq<u32>, e: u32)
    ensures
        region_seq_view(es.push(e)) == region_seq_view(es).insert(e as int),
{
    let es2 = es.push(e);
    assert forall|r: int| region_seq_view(es2).contains(r) implies region_seq_view(es).insert(
        e as int,
    ).contains(r) by {
        let k = choose|k: int| 0 <= k < es2.len() && (#[trigger] es2[k]) as int == r;
        if k < es.len() {
            assert(es[k] == es2[k]);
            assert(region_seq_view(es).contains(r));
        } else {
            assert(es2[k] == e);
        }
    }
    assert forall|r: int| region_seq_view(es).insert(e as int).contains(r) implies region_seq_view(
        es2,
    ).contains(r) by {
        if r == e as int {
            assert((#[trigger] es2[es.len() as int]) as int == r);
        } else {
            assert(region_seq_view(es).contains(r));
            let k = choose|k: int| 0 <= k < es.len() && (#[trigger] es[k]) as int == r;
            assert(es2[k] == es[k]);
        }
    }
    assert(region_seq_view(es2) =~= region_seq_view(es).insert(e as int));
}

/// A finite set of grid coordinates.
#[derive(Debug)]
pub struct CoordSet {
    pub elems: Vec<(u32, u32)>,
}

impl View for CoordSet {
    type V = Set<(int, int)>;

    open spec fn view(&self) -> Set<(int, int)> {
        coord_seq_view(self.elems@)
    }
}

impl CoordSet {
    /// No coordinate is stored twice.
    pub open spec fn wf(self) -> bool {
        forall|i: int, j: int|
            0 <= i < j < self.elems@.len() ==> #[trigger] self.elems@[i] != #[trigger] self.elems@[j]
    }

    /// The empty set.
    pub fn new() -> (r: CoordSet)
        ensures
            r.wf(),
            r@ == Set::<(int, int)>::empty(),
            r.elems@.len() == 0,
    {
        let r = CoordSet { elems: Vec::new() };
        proof {
            assert(r@ =~= Set::<(int, int)>::empty());
        }
        r
    }

    /// Whether `(x, y)` is in the set.
    pub fn contains(&self, x: u32, y: u32) -> (r: bool)
        ensures
            r == self@.contains((x as int, y as int)),
    {
        let mut k: usize = 0;
        while k < self.elems.len()
            invariant
                k <= self.elems@.len(),
                forall|i: int|
                    0 <= i < k ==> !((#[trigger] self.elems@[i]).0 == x && self.elems@[i].1 == y),
            decreases self.elems@.len() - k,
        {
            let (ex, ey) = self.elems[k];
            if ex == x && ey == y {
                return true;
            }
            k = k + 1;
        }
        proof {
            assert(!self@.contains((x as int, y as int)));
        }
        false
    }

    /// Add `(x, y)`; nothing happens if it is already there.
    pub fn insert(&mut self, x: u32, y: u32)
        requires
            old(self).wf(),
        ensures
            final(self).wf(),
            final(self)@ == old(self)@.insert((x as int, y as int)),
            final(self).elems@.len() == old(self).elems@.len() + (if old(self)@.contains(
                (x as int, y as int),
            ) {
                0int
            } else {
                1int
            }),
    {
        if !self.contains(x, y) {
            self.elems.push((x, y));
            proof {
                lemma_coord_push(old(self).elems@, (x, y));
                assert forall|i: int, j: int|
                    0 <= i < j < self.elems@.len() implies #[trigger] self.elems@[i]
                    != #[trigger] self.elems@[j] by {
                    if j == self.elems@.len() - 1 {
                        assert(old(self)@.contains(
                            (self.elems@[i].0 as int, self.elems@[i].1 as int),
                        ));
                    }
                }
            }
        } else {
            proof {
                assert(self@ =~= old(self)@.insert((x as int, y as int)));
            }
        }
    }

    /// How many coordinates the set holds.
    pub fn len(&self) -> (r: usize)
        ensures
            r == self.elems@.len(),
            self.wf() ==> r == self@.len(),
    {
        proof {
            if self.wf() {
                lemma_coord_seq_card(self.elems@);
            }
        }
        self.elems.len()
    }

    /// The `k`-th coordinate, in insertion order.
    pub fn get(&self, k: usize) -> (r: (u32, u32))
        requires
            k < self.elems@.len(),
        ensures
            r == self.elems@[k as int],
            self@.contains((r.0 as int, r.1 as int)),
    {
        let r = self.elems[k];
        proof {
            assert(self.elems@[k as int].0 as int == r.0 as int && self.elems@[k as int].1 as int
                == r.1 as int);
        }
        r
    }
}

impl Clone for CoordSet {
    fn clone(&self) -> (r: Self)
        ensures
            r.elems@ == self.elems@,
            r@ == self@,
            r.wf() == self.wf(),
    {
        let mut elems: Vec<(u32, u32)> = Vec::new();
        let mut k: usize = 0;
        while k < self.elems.len()
            invariant
                k <= self.elems@.len(),
                elems@.len() == k,
                forall|i: int| 0 <= i < k ==> elems@[i] == self.elems@[i],
            decreases self.elems@.len() - k,
        {
            elems.push(self.elems[k]);
            k = k + 1;
        }
        proof {
            assert(elems@ =~= self.elems@);
        }
        CoordSet { elems }
    }
}

/// A duplicate-free vector holds exactly as many coordinates as its set.
pub proof fn lemma_coord_seq_card(es: Seq<(u32, u32)>)
    requires
        forall|i: int, j: int| 0 <= i < j < es.len() ==> #[trigger] es[i] != #[trigger] es[j],
    ensures
        coord_seq_view(es).finite(),
        coord_seq_view(es).len() == es.len(),
    decreases es.len(),
{
    if es.len() == 0 {
        assert(coord_seq_view(es) =~= Set::<(int, int)>::empty());
    } else {
        let prefix = es.drop_last();
        lemma_coord_seq_card(prefix);
        let last = es.last();
        let lp = (last.0 as int, last.1 as int);
        assert(es =~= prefix.push(last));
        lemma_coord_push(prefix, last);
        assert(coord_seq_view(es) == coord_seq_view(prefix).insert(lp));
        assert(!coord_seq_view(prefix).contains(lp)) by {
            if coord_seq_view(prefix).contains(lp) {
                let k = choose|k: int|
                    0 <= k < prefix.len() && (#[trigger] prefix[k]).0 as int == lp.0
                        && prefix[k].1 as int == lp.1;
                assert(es[k] == es[es.len() - 1]);
            }
        }
    }
}

/// The set of region ids a duplicate-free vector holds.
pub open spec fn region_seq_view(es: Seq<u32>) -> Set<int> {
    Set::new(|r: int| exists|k: int| 0 <= k < es.len() && (#[trigger] es[k]) as int == r)
}

/// A finite set of region ids.
#[derive(Debug)]
pub struct RegionSet {
    pub elems: Vec<u32>,
}

impl View for RegionSet {
    type V = Set<int>;

    open spec fn view(&self) -> Set<int> {
        region_seq_view(self.elems@)
    }
}

impl RegionSet {
    /// No region id is stored twice.
    pub open spec fn wf(self) -> bool {
        forall|i: int, j: int|
            0 <= i < j < self.elems@.len() ==> #[trigger] self.elems@[i] != #[trigger] self.elems@[j]
    }

    /// The empty set.
    pub fn new() -> (r: RegionSet)
        ensures
            r.wf(),
            r@ == Set::<int>::empty(),
            r.elems@.len() == 0,
    {
        let r = RegionSet { elems: Vec::new() };
        proof {
            assert(r@ =~= Set::<int>::empty());
        }
        r
    }

    /// Whether a region id is in the set.
    pub fn contains(&self, region: u32) -> (r: bool)
        ensures
            r == self@.contains(region as int),
    {
        let mut k: usize = 0;
        while k < self.elems.len()
            invariant
                k <= self.elems@.len(),
                forall|i: int| 0 <= i < k ==> (#[trigger] self.elems@[i]) != region,
            decreases self.elems@.len() - k,
        {
            if self.elems[k] == region {
                return true;
            }
            k = k + 1;
        }
        proof {
            assert(!self@.contains(region as int));
        }
        false
    }

    /// Add a region id; nothing happens if it is already there.
    pub fn insert(&mut self, region: u32)
        requires
            old(self).wf(),
        ensures
            final(self).wf(),
            final(self)@ == old(self)@.insert(region as int),
            final(self).elems@.len() == old(self).elems@.len() + (if old(self)@.contains(
                region as int,
            ) {
                0int
            } else {
                1int
            }),
    {
        if !self.contains(region) {
            self.elems.push(region);
            proof {
                lemma_region_push(old(self).elems@, region);
                assert forall|i: int, j: int|
                    0 <= i < j < self.elems@.len() implies #[trigger] self.elems@[i]
                    != #[trigger] self.elems@[j] by {
                    if j == self.elems@.len() - 1 {
                        assert(old(self)@.contains(self.elems@[i] as int));
                    }
                }
            }
        } else {
            proof {
                assert(self@ =~= old(self)@.insert(region as int));
            }
        }
    }

    /// How many region ids the set holds.
    pub fn len(&self) -> (r: usize)
        ensures
            r == self.elems@.len(),
            self.wf() ==> r == self@.len(),
    {
        proof {
            if self.wf() {
                lemma_region_seq_card(self.elems@);
            }
        }
        self.elems.len()
    }

    /// The `k`-th region id, in insertion order.
    pub fn get(&self, k: usize) -> (r: u32)
        requires
            k < self.elems@.len(),
        ensures
            r == self.elems@[k as int],
            self@.contains(r as int),
    {
        self.elems[k]
    }
}

impl Clone for RegionSet {
    fn clone(&self) -> (r: Self)
        ensures
            r.elems@ == self.elems@,
            r@ == self@,
            r.wf() == self.wf(),
    {
        let mut elems: Vec<u32> = Vec::new();
        let mut k: usize = 0;
        while k < self.elems.len()
            invariant
                k <= self.elems@.len(),
                elems@.len() == k,
                forall|i: int| 0 <= i < k ==> elems@[i] == self.elems@[i],
            decreases self.elems@.len() - k,
        {
            elems.push(self.elems[k]);
            k = k + 1;
        }
        proof {
            assert(elems@ =~= self.elems@);
        }
        RegionSet { elems }
    }
}

/// A duplicate-free vector holds exactly as many region ids as its set.
pub proof fn lemma_region_seq_card(es: Seq<u32>)
    requires
        forall|i: int, j: int| 0 <= i < j < es.len() ==> #[trigger] es[i] != #[trigger] es[j],
    ensures
        region_seq_view(es).finite(),
        region_seq_view(es).len() == es.len(),
    decreases es.len(),
{
    if es.len() == 0 {
        assert(region_seq_view(es) =~= Set::<int>::empty());
    } else {
        let prefix = es.drop_last();
        lemma_region_seq_card(prefix);
        let last = es.last();
        assert(es =~= prefix.push(last));
        lemma_region_push(prefix, last);
        assert(region_seq_view(es) == region_seq_view(prefix).insert(last as int));
        assert(!region_seq_view(prefix).contains(last as int)) by {
            if region_seq_view(prefix).contains(last as int) {
                let k = choose|k: int|
                    0 <= k < prefix.len() && (#[trigger] prefix[k]) as int == last as int;
                assert(es[k] == es[es.len() - 1]);
            }
        }
    }
}

} // verus!
