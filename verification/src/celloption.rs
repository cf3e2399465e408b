//! Catalogs of named cell tags.
//!
//! A tag (tile, item or occupant) is a named token: it carries no
//! geometry, only a name used for semantic checks and for display
//! lookup outside the crate. A catalog holds a fixed set of tags of one
//! category and offers name lookup, uniform random choice, and random
//! sampling without replacement.

use vstd::multiset::Multiset;
use vstd::prelude::*;

use crate::rng::index_below;

verus! {

/// A named cell tag with value identity given by its name.
pub trait CellOption: Sized + Clone {
    /// The name the tag carries.
    spec fn name_spec(&self) -> Seq<char>;

    /// Make a tag from a name.
    fn new(name: String) -> (r: Self)
        ensures
            r.name_spec() == name@,
    ;

    /// The name as a fresh string.
    fn name(&self) -> (r: String)
        ensures
            r@ == self.name_spec(),
    ;

    /// A clone of a tag is the tag itself.
    proof fn clone_identity(a: Self, b: Self)
        requires
            call_ensures(Self::clone, (&a,), b),
        ensures
            a == b,
    ;
}

/// A tile tag: what the ground of a cell is made of.
#[derive(Debug)]
pub struct Tile {
    pub name: String,
}

/// An item tag: something lying in a cell.
#[derive(Debug)]
pub struct Item {
    pub name: String,
}

/// An occupant tag: someone standing in a cell.
#[derive(Debug)]
pub struct Occupant {
    pub name: String,
}

impl Clone for Tile {
    fn clone(&self) -> (r: Self)
        ensures
            r == *self,
    {
        Tile { name: self.name.clone() }
    }
}

impl CellOption for Tile {
    open spec fn name_spec(&self) -> Seq<char> {
        self.name@
    }

    fn new(name: String) -> (r: Self) {
        Tile { name }
    }

    fn name(&self) -> (r: String) {
        self.name.clone()
    }

    proof fn clone_identity(a: Self, b: Self) {
    }
}

impl Clone for Item {
    fn clone(&self) -> (r: Self)
        ensures
            r == *self,
    {
        Item { name: self.name.clone() }
    }
}

impl CellOption for Item {
    open spec fn name_spec(&self) -> Seq<char> {
        self.name@
    }

    fn new(name: String) -> (r: Self) {
        Item { name }
    }

    fn name(&self) -> (r: String) {
        self.name.clone()
    }

    proof fn clone_identity(a: Self, b: Self) {
    }
}

impl Clone for Occupant {
    fn clone(&self) -> (r: Self)
        ensures
            r == *self,
    {
        Occupant { name: self.name.clone() }
    }
}

impl CellOption for Occupant {
    open spec fn name_spec(&self) -> Seq<char> {
        self.name@
    }

    fn new(name: String) -> (r: Self) {
        Occupant { name }
    }

    fn name(&self) -> (r: String) {
        self.name.clone()
    }

    proof fn clone_identity(a: Self, b: Self) {
    }
}

/// A fixed, named set of tags for one category, immutable after
/// construction and shared read-only across a whole run.
#[derive(Debug)]
pub struct CellOptions<T> {
    pub options: Vec<T>,
}

impl<T: CellOption> CellOptions<T> {
    /// The tags the catalog holds, in order.
    pub open spec fn options_spec(self) -> Seq<T> {
        self.options@
    }

    /// How many tags the catalog holds.
    pub open spec fn len_spec(self) -> nat {
        self.options@.len()
    }

    /// Whether some tag in the catalog carries the given name.
    pub open spec fn has_name(self, name: Seq<char>) -> bool {
        exists|i: int| 0 <= i < self.options@.len() && self.options@[i].name_spec() == name
    }

    /// Whether the catalog holds this very tag.
    pub open spec fn contains_tag(self, t: T) -> bool {
        exists|i: int| 0 <= i < self.options@.len() && self.options@[i] == t
    }

    /// Build a catalog from a list of names, one tag per name, in order.
    pub fn new(names: &Vec<String>) -> (r: Self)
        ensures
            r.options_spec().len() == names@.len(),
            forall|i: int|
                0 <= i < names@.len() ==> r.options_spec()[i].name_spec() == names@[i]@,
    {
        let mut options: Vec<T> = Vec::new();
        let mut k: usize = 0;
        while k < names.len()
            invariant
                k <= names@.len(),
                options@.len() == k,
                forall|i: int| 0 <= i < k ==> options@[i].name_spec() == names@[i]@,
            decreases names@.len() - k,
        {
            options.push(T::new(names[k].clone()));
            k = k + 1;
        }
        CellOptions { options }
    }

    /// Look a tag up by name; the first tag with that name is returned,
    /// and `None` exactly when no tag carries it.
    pub fn get(&self, name: &str) -> (r: Option<&T>)
        ensures
            r is Some <==> self.has_name(name@),
            r is Some ==> r->0.name_spec() == name@,
            r is Some ==> exists|i: int|
                0 <= i < self.options@.len() && self.options@[i] == *r->0,
    {
        let wanted: String = name.to_owned();
        let mut k: usize = 0;
        while k < self.options.len()
            invariant
                k <= self.options@.len(),
                wanted@ == name@,
                forall|i: int| 0 <= i < k ==> self.options@[i].name_spec() != name@,
            decreases self.options@.len() - k,
        {
            if self.options[k].name() == wanted {
                return Some(&self.options[k]);
            }
            k = k + 1;
        }
        None
    }

    /// Pick one tag uniformly at random. The catalog must not be empty.
    pub fn pick(&self, rng: &mut rand::rngs::StdRng) -> (r: &T)
        requires
            self.len_spec() > 0,
        ensures
            self.contains_tag(*r),
    {
        let i = index_below(rng, self.options.len());
        let r = &self.options[i];
        proof {
            assert(*r == self.options_spec()[i as int]);
        }
        r
    }

    /// Sample `n` tags without replacement: the result is a sub-multiset
    /// of the catalog of length exactly `n`.
    pub fn sample(&self, rng: &mut rand::rngs::StdRng, n: usize) -> (r: Vec<T>)
        requires
            n <= self.len_spec(),
        ensures
            r@.len() == n,
            r@.to_multiset().subset_of(self.options_spec().to_multiset()),
    {
        let mut scratch: Vec<T> = Vec::new();
        let mut k: usize = 0;
        while k < self.options.len()
            invariant
                k <= self.options@.len(),
                scratch@.len() == k,
                forall|i: int| 0 <= i < k ==> scratch@[i] == self.options@[i],
            decreases self.options@.len() - k,
        {
            let t = self.options[k].clone();
            proof {
                T::clone_identity(self.options@[k as int], t);
            }
            scratch.push(t);
            k = k + 1;
        }
        assert(scratch@ =~= self.options@);
        let mut picked: Vec<T> = Vec::new();
        let ghost all = self.options@.to_multiset();
        proof {
            picked@.to_multiset_ensures();
            assert(picked@.to_multiset().add(scratch@.to_multiset()) =~= all);
        }
        while picked.len() < n
            invariant
                picked@.len() + scratch@.len() == self.options@.len(),
                picked@.len() <= n <= self.options@.len(),
                picked@.to_multiset().add(scratch@.to_multiset()) == all,
                all == self.options@.to_multiset(),
            decreases n - picked@.len(),
        {
            let i = index_below(rng, scratch.len());
            let t = scratch[i].clone();
            proof {
                T::clone_identity(scratch@[i as int], t);
            }
            let ghost pre_picked = picked@;
            let ghost pre_scratch = scratch@;
            let _ = scratch.swap_remove(i);
            picked.push(t);
            proof {
                pre_picked.to_multiset_ensures();
                pre_scratch.to_multiset_ensures();
                picked@.to_multiset_ensures();
                scratch@.to_multiset_ensures();
                lemma_swap_remove_multiset(pre_scratch, i as int);
                assert(picked@.to_multiset() =~= pre_picked.to_multiset().insert(t));
                assert(picked@.to_multiset().add(scratch@.to_multiset()) =~= all);
            }
        }
        proof {
            assert forall|x: T| #[trigger]
                picked@.to_multiset().count(x) <= self.options@.to_multiset().count(x) by {
                assert(all.count(x) == picked@.to_multiset().count(x) + scratch@.to_multiset().count(
                    x,
                ));
            }
        }
        picked
    }
}

impl<T: CellOption> Clone for CellOptions<T> {
    fn clone(&self) -> (r: Self)
        ensures
            r.options_spec() == self.options_spec(),
    {
        let mut options: Vec<T> = Vec::new();
        let mut k: usize = 0;
        while k < self.options.len()
            invariant
                k <= self.options@.len(),
                options@.len() == k,
                forall|i: int| 0 <= i < k ==> options@[i] == self.options@[i],
            decreases self.options@.len() - k,
        {
            let t = self.options[k].clone();
            proof {
                T::clone_identity(self.options@[k as int], t);
            }
            options.push(t);
            k = k + 1;
        }
        proof {
            assert(options@ =~= self.options@);
        }
        CellOptions { options }
    }
}

/// Removing index `i` by a swap with the last element keeps the same
/// multiset minus one occurrence of the removed element.
pub(crate) proof fn lemma_swap_remove_multiset<T>(s: Seq<T>, i: int)
    requires
        0 <= i < s.len(),
    ensures
        s.update(i, s.last()).drop_last().to_multiset() == s.to_multiset().remove(s[i]),
    decreases s.len(),
{
    s.to_multiset_ensures();
    let u = s.update(i, s.last());
    u.to_multiset_ensures();
    lemma_update_multiset(s, i, s.last());
    let w = u.drop_last();
    w.to_multiset_ensures();
    assert(u =~= w.push(u.last()));
    assert(u.last() == s.last());
    assert(w.push(s.last()).to_multiset() =~= w.to_multiset().insert(s.last()));
    assert(u.to_multiset() == w.to_multiset().insert(s.last()));
    assert(s.contains(s[i]));
    assert(s.to_multiset().count(s[i]) > 0);
    assert forall|x: T| w.to_multiset().count(x) == s.to_multiset().remove(s[i]).count(x) by {
        let a = w.to_multiset();
        let b = s.to_multiset().remove(s[i]);
        assert(a.insert(s.last()).count(x) == b.insert(s.last()).count(x));
        assert(a.insert(s.last()).count(x) == a.count(x) + Multiset::singleton(s.last()).count(x));
        assert(b.insert(s.last()).count(x) == b.count(x) + Multiset::singleton(s.last()).count(x));
    }
    assert(w.to_multiset() =~= s.to_multiset().remove(s[i]));
}

/// Updating one position replaces one occurrence in the multiset.
proof fn lemma_update_multiset<T>(s: Seq<T>, i: int, v: T)
    requires
        0 <= i < s.len(),
    ensures
        s.update(i, v).to_multiset() == s.to_multiset().remove(s[i]).insert(v),
    decreases s.len(),
{
    s.to_multiset_ensures();
    let prefix = s.drop_last();
    prefix.to_multiset_ensures();
    assert(s =~= prefix.push(s.last()));
    assert(prefix.push(s.last()).to_multiset() =~= prefix.to_multiset().insert(s.last()));
    if i == s.len() - 1 {
        assert(s.update(i, v) =~= prefix.push(v));
        assert(prefix.push(v).to_multiset() =~= prefix.to_multiset().insert(v));
        assert(prefix.to_multiset().insert(v) =~= s.to_multiset().remove(s[i]).insert(v)) by {
            assert(s.to_multiset() == prefix.to_multiset().insert(s[i]));
            assert(forall|x: T|
                prefix.to_multiset().insert(v).count(x) == s.to_multiset().remove(s[i]).insert(
                    v,
                ).count(x));
        }
    } else {
        lemma_update_multiset(prefix, i, v);
        let pu = prefix.update(i, v);
        pu.to_multiset_ensures();
        assert(s.update(i, v) =~= pu.push(s.last()));
        assert(pu.push(s.last()).to_multiset() =~= pu.to_multiset().insert(s.last()));
        assert(prefix[i] == s[i]);
        assert(prefix.contains(s[i]));
        assert(prefix.to_multiset().count(s[i]) > 0);
        assert(pu.to_multiset().insert(s.last()) =~= s.to_multiset().remove(s[i]).insert(v)) by {
            assert(s.to_multiset() == prefix.to_multiset().insert(s.last()));
            assert(pu.to_multiset() == prefix.to_multiset().remove(s[i]).insert(v));
            assert(forall|x: T|
                pu.to_multiset().insert(s.last()).count(x) == s.to_multiset().remove(s[i]).insert(
                    v,
                ).count(x));
        }
    }
}

/// Whether a sequence holds this very element.
pub open spec fn member_of<T>(options: Seq<T>, t: T) -> bool {
    exists|k: int| 0 <= k < options.len() && #[trigger] options[k] == t
}

/// Sampling without replacement from a catalog of pairwise-distinct
/// tags returns pairwise-distinct tags, each a member of the catalog:
/// what comes back is a sub-multiset of the catalog, and a catalog
/// without duplicates grants each tag at most one occurrence.
pub proof fn lemma_sample_distinct<T>(options: Seq<T>, picked: Seq<T>)
    requires
        picked.to_multiset().subset_of(options.to_multiset()),
        forall|i: int, j: int|
            0 <= i < j < options.len() ==> #[trigger] options[i] != #[trigger] options[j],
    ensures
        forall|i: int, j: int|
            0 <= i < j < picked.len() ==> #[trigger] picked[i] != #[trigger] picked[j],
        forall|i: int| 0 <= i < picked.len() ==> member_of(options, #[trigger] picked[i]),
{
    options.to_multiset_ensures();
    picked.to_multiset_ensures();
    assert forall|i: int| 0 <= i < picked.len() implies member_of(options, #[trigger] picked[i]) by {
        assert(picked.contains(picked[i]));
        assert(picked.to_multiset().count(picked[i]) > 0);
        assert(options.to_multiset().count(picked[i]) > 0);
        assert(options.contains(picked[i]));
        let k = choose|k: int| 0 <= k < options.len() && options[k] == picked[i];
        assert(options[k] == picked[i]);
    }
    assert forall|i: int, j: int|
        0 <= i < j < picked.len() implies #[trigger] picked[i] != #[trigger] picked[j] by {
        if picked[i] == picked[j] {
            let v = picked[i];
            let shorter = picked.remove(i);
            shorter.to_multiset_ensures();
            assert(shorter.to_multiset() =~= picked.to_multiset().remove(v));
            assert(shorter[j - 1] == picked[j]);
            assert(shorter.contains(v));
            assert(shorter.to_multiset().count(v) > 0);
            assert(picked.to_multiset().count(v) >= 2);
            assert(options.no_duplicates());
            options.lemma_multiset_has_no_duplicates();
            assert(options.to_multiset().contains(v));
            assert(options.to_multiset().count(v) <= 1);
        }
    }
}

} // verus!
