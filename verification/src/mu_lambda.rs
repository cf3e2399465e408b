//! The mu+lambda evolutionary engine.
//!
//! Each generation the engine shuffles its population, scores every
//! individual — phenotype generation followed by the weighted
//! evaluators — sorts by fitness with higher scores first, keeps the
//! best mu as survivors, and fills the population back up with mutated
//! offspring. The last generation skips the pruning so the final
//! population comes back fully scored and ranked.

use vstd::multiset::Multiset;
use vstd::prelude::*;

use crate::dungeon::Dungeon;
use crate::evaluation::{evals_pinned, evals_wf, scored, EvalKind};
use crate::genotype::Genotype;
use crate::statistics::Statistic;
use crate::util::shuffle;

verus! {

/// Whether a fitness value is one the evaluators could award this
/// genotype's phenotype.
pub open spec fn scored_genotype(g: Genotype, evals: Seq<(EvalKind, i64)>, f: int) -> bool {
    exists|d: Dungeon| #[trigger] g.phenotype_matches(d) && d.wf() && scored(d, evals, f)
}

/// Whether a population is ranked best first.
pub open spec fn sorted_desc(s: Seq<(Genotype, Statistic)>) -> bool {
    forall|i: int, j: int|
        0 <= i < j < s.len() ==> (#[trigger] s[i]).1.fitness >= (#[trigger] s[j]).1.fitness
}

/// The genotypes of a population, as a multiset.
pub open spec fn genotype_multiset(s: Seq<(Genotype, Statistic)>) -> Multiset<Genotype> {
    s.map_values(|p: (Genotype, Statistic)| p.0).to_multiset()
}

/// Equal pair multisets carry equal genotype multisets.
proof fn lemma_map_fst_multiset(s1: Seq<(Genotype, Statistic)>, s2: Seq<(Genotype, Statistic)>)
    requires
        s1.to_multiset() == s2.to_multiset(),
    ensures
        genotype_multiset(s1) == genotype_multiset(s2),
    decreases s1.len(),
{
    s1.to_multiset_ensures();
    s2.to_multiset_ensures();
    if s1.len() == 0 {
        assert(s2.len() == 0);
        let f = |p: (Genotype, Statistic)| p.0;
        assert(s1.map_values(f) =~= s2.map_values(f));
    } else {
        let a = s1.last();
        assert(s1.to_multiset().count(a) > 0) by {
            assert(s1.contains(a));
        }
        assert(s2.to_multiset().count(a) > 0);
        assert(s2.contains(a));
        let k = choose|k: int| 0 <= k < s2.len() && s2[k] == a;
        let s1p = s1.drop_last();
        let s2p = s2.remove(k);
        s1p.to_multiset_ensures();
        s2p.to_multiset_ensures();
        assert(s1.to_multiset() == s1p.to_multiset().insert(a)) by {
            assert(s1 =~= s1p.push(a));
        }
        assert(s2p.to_multiset() =~= s2.to_multiset().remove(a));
        assert(s1p.to_multiset() =~= s2p.to_multiset()) by {
            assert(forall|x: (Genotype, Statistic)|
                s1p.to_multiset().count(x) == s2p.to_multiset().count(x));
        }
        lemma_map_fst_multiset(s1p, s2p);
        let f = |p: (Genotype, Statistic)| p.0;
        assert(s1.map_values(f) =~= s1p.map_values(f).push(a.0));
        s1p.map_values(f).to_multiset_ensures();
        s1.map_values(f).to_multiset_ensures();
        assert(genotype_multiset(s1) == genotype_multiset(s1p).insert(a.0));
        assert(s2.map_values(f) =~= s2p.map_values(f).insert(k, a.0)) by {
            assert forall|i: int| 0 <= i < s2.len() implies s2.map_values(f)[i]
                == s2p.map_values(f).insert(k, a.0)[i] by {
                if i < k {
                    assert(s2p[i] == s2[i]);
                } else if i == k {
                } else {
                    assert(s2p[i - 1] == s2[i]);
                }
            }
        }
        lemma_insert_multiset(s2p.map_values(f), k, a.0);
        assert(genotype_multiset(s2) == genotype_multiset(s2p).insert(a.0));
    }
}

/// Inserting an element anywhere adds one occurrence to the multiset.
proof fn lemma_insert_multiset(s: Seq<Genotype>, k: int, v: Genotype)
    requires
        0 <= k <= s.len(),
    ensures
        s.insert(k, v).to_multiset() == s.to_multiset().insert(v),
    decreases s.len() - k,
{
    s.to_multiset_ensures();
    s.insert(k, v).to_multiset_ensures();
    if k == s.len() {
        assert(s.insert(k, v) =~= s.push(v));
    } else {
        let sp = s.drop_last();
        sp.to_multiset_ensures();
        lemma_insert_multiset(sp, k, v);
        assert(s.insert(k, v) =~= sp.insert(k, v).push(s.last()));
        sp.insert(k, v).to_multiset_ensures();
        assert(s =~= sp.push(s.last()));
        assert(s.insert(k, v).to_multiset() == sp.insert(k, v).to_multiset().insert(s.last()));
        assert(s.to_multiset() == sp.to_multiset().insert(s.last()));
        assert(sp.to_multiset().insert(v).insert(s.last()) =~= sp.to_multiset().insert(
            s.last(),
        ).insert(v));
    }
}

/// Score one individual: generate its phenotype and award the weighted
/// fitness, stamped with the generation it was scored in.
pub fn score(genotype: &Genotype, evaluations: &Vec<(EvalKind, i64)>, iteration: u32) -> (s:
    Statistic)
    requires
        genotype.ready(),
        evals_wf(evaluations@),
    ensures
        s.iteration == iteration,
        scored_genotype(*genotype, evaluations@, s.fitness as int),
{
    let dungeon = genotype.generate();
    let fitness = genotype.evaluate(&dungeon, evaluations);
    Statistic::new(iteration, fitness)
}

/// Rank a scored population, best fitness first; the contents are kept
/// as a multiset.
fn sort_by_fitness(input: Vec<(Genotype, Statistic)>) -> (r: Vec<(Genotype, Statistic)>)
    ensures
        r@.len() == input@.len(),
        sorted_desc(r@),
        r@.to_multiset() == input@.to_multiset(),
{
    let mut rest = input;
    let mut out: Vec<(Genotype, Statistic)> = Vec::new();
    let ghost all = rest@.to_multiset();
    let ghost n0 = rest@.len() as int;
    proof {
        out@.to_multiset_ensures();
        rest@.to_multiset_ensures();
        assert(out@.to_multiset().add(rest@.to_multiset()) =~= all);
    }
    while rest.len() > 0
        invariant
            out@.len() + rest@.len() == n0,
            out@.to_multiset().add(rest@.to_multiset()) == all,
            sorted_desc(out@),
            forall|i: int, j: int|
                0 <= i < out@.len() && 0 <= j < rest@.len() ==> (#[trigger] out@[i]).1.fitness >= (
                #[trigger] rest@[j]).1.fitness,
        decreases rest@.len(),
    {
        let mut best: usize = 0;
        let mut k: usize = 1;
        while k < rest.len()
            invariant
                best < rest@.len(),
                k <= rest@.len(),
                rest@.len() > 0,
                forall|j: int|
                    0 <= j < k ==> rest@[best as int].1.fitness >= (#[trigger] rest@[j]).1.fitness,
            decreases rest@.len() - k,
        {
            if rest[k].1.fitness > rest[best].1.fitness {
                best = k;
            }
            k = k + 1;
        }
        let ghost pre_out = out@;
        let ghost pre_rest = rest@;
        let picked = rest.swap_remove(best);
        out.push(picked);
        proof {
            pre_out.to_multiset_ensures();
            pre_rest.to_multiset_ensures();
            out@.to_multiset_ensures();
            rest@.to_multiset_ensures();
            crate::celloption::lemma_swap_remove_multiset(pre_rest, best as int);
            assert(out@.to_multiset() =~= pre_out.to_multiset().insert(picked));
            assert(out@.to_multiset().add(rest@.to_multiset()) =~= all) by {
                assert(pre_rest.contains(picked));
                assert(pre_rest.to_multiset().count(picked) > 0);
                assert(forall|x: (Genotype, Statistic)|
                    out@.to_multiset().add(rest@.to_multiset()).count(x) == all.count(x));
            }
            assert forall|i: int, j: int|
                0 <= i < out@.len() && 0 <= j < rest@.len() implies (#[trigger] out@[i]).1.fitness
                >= (#[trigger] rest@[j]).1.fitness by {
                assert(rest@[j] == pre_rest.update(best as int, pre_rest.last()).drop_last()[j]);
                if i < pre_out.len() {
                } else {
                    assert(out@[i] == picked);
                }
            }
        }
    }
    proof {
        rest@.to_multiset_ensures();
        assert(rest@ =~= Seq::<(Genotype, Statistic)>::empty());
        assert(out@.to_multiset() =~= all) by {
            assert(forall|x: (Genotype, Statistic)| rest@.to_multiset().count(x) == 0);
            assert(forall|x: (Genotype, Statistic)| out@.to_multiset().count(x) == all.count(x));
        }
    }
    out
}

/// The engine: population sizes, mutation rate, iteration budget, the
/// template genotype, and the weighted evaluators.
#[derive(Debug)]
pub struct MuLambda {
    pub threads: usize,
    pub iterations: u32,
    pub current_iteration: u32,
    pub mu: usize,
    pub lambda: usize,
    pub mutation_pct: u32,
    pub genotype: Genotype,
    pub evaluations: Vec<(EvalKind, i64)>,
}

impl MuLambda {
    /// The engine is runnable: a template that can be initialized, a
    /// sane evaluator list, and at least one survivor slot.
    pub open spec fn wf(self) -> bool {
        &&& self.genotype.init_ready()
        &&& evals_wf(self.evaluations@)
        &&& self.mutation_pct <= 100
        &&& self.mu >= 1
        &&& self.mu + self.lambda <= 0x1000_0000
        &&& self.iterations >= 1
    }

    /// Assemble an engine from its configuration; the evaluator list
    /// pairs each function with its signed weight.
    pub fn new(
        threads: usize,
        iterations: u32,
        mu: usize,
        lambda: usize,
        mutation_pct: u32,
        genotype: Genotype,
        funcs: Vec<EvalKind>,
        weights: Vec<i64>,
    ) -> (r: MuLambda)
        requires
            genotype.init_ready(),
            funcs@.len() == weights@.len(),
            funcs@.len() <= 16,
            forall|i: int| 0 <= i < weights@.len() ==> -1000000 <= (#[trigger] weights@[i]) <= 1000000,
            mutation_pct <= 100,
            mu >= 1,
            mu + lambda <= 0x1000_0000,
            iterations >= 1,
        ensures
            r.wf(),
            r.mu == mu,
            r.lambda == lambda,
            r.iterations == iterations,
            r.current_iteration == 0,
            r.threads == threads,
            r.mutation_pct == mutation_pct,
            r.genotype == genotype,
            r.evaluations@.len() == funcs@.len(),
            forall|i: int|
                0 <= i < funcs@.len() ==> (#[trigger] r.evaluations@[i]) == (funcs@[i], weights@[i]),
    {
        let mut evaluations: Vec<(EvalKind, i64)> = Vec::new();
        let mut k: usize = 0;
        while k < funcs.len()
            invariant
                k <= funcs@.len(),
                funcs@.len() == weights@.len(),
                funcs@.len() <= 16,
                forall|i: int|
                    0 <= i < weights@.len() ==> -1000000 <= (#[trigger] weights@[i]) <= 1000000,
                evaluations@.len() == k,
                forall|i: int|
                    0 <= i < k ==> -1000000 <= (#[trigger] evaluations@[i]).1 <= 1000000,
                forall|i: int|
                    0 <= i < k ==> (#[trigger] evaluations@[i]) == (funcs@[i], weights@[i]),
            decreases funcs@.len() - k,
        {
            evaluations.push((funcs[k], weights[k]));
            k = k + 1;
        }
        MuLambda {
            threads,
            iterations,
            current_iteration: 0,
            mu,
            lambda,
            mutation_pct,
            genotype,
            evaluations,
        }
    }

    /// One generation: shuffle the population, score every individual,
    /// and rank the colony best first. The genotypes come through as a
    /// multiset: nobody is lost or invented.
    pub fn iterate(
        &self,
        rng: &mut rand::rngs::StdRng,
        primer: Vec<(Genotype, Statistic)>,
        iteration: u32,
    ) -> (r: Vec<(Genotype, Statistic)>)
        requires
            self.wf(),
            forall|k: int| 0 <= k < primer@.len() ==> (#[trigger] primer@[k]).0.ready(),
        ensures
            r@.len() == primer@.len(),
            sorted_desc(r@),
            forall|k: int| 0 <= k < r@.len() ==> (#[trigger] r@[k]).0.ready(),
            forall|k: int|
                0 <= k < r@.len() ==> scored_genotype(
                    (#[trigger] r@[k]).0,
                    self.evaluations@,
                    r@[k].1.fitness as int,
                ) && r@[k].1.iteration == iteration,
            genotype_multiset(r@) == genotype_multiset(primer@),
    {
        let mut pool = primer;
        let ghost pre = pool@;
        shuffle(rng, &mut pool);
        proof {
            assert(pool@ =~= pool@.subrange(0, pool@.len() as int));
        }
        proof {
            lemma_map_fst_multiset(pre, pool@);
            assert forall|k: int| 0 <= k < pool@.len() implies (#[trigger] pool@[k]).0.ready() by {
                pool@.to_multiset_ensures();
                pre.to_multiset_ensures();
                assert(pool@.contains(pool@[k]));
                assert(pool@.to_multiset().count(pool@[k]) > 0);
                assert(pre.to_multiset().count(pool@[k]) > 0);
                assert(pre.contains(pool@[k]));
                let j = choose|j: int| 0 <= j < pre.len() && pre[j] == pool@[k];
                assert(pre[j].0.ready());
            }
        }
        let ghost shuffled = pool@;
        let mut colony: Vec<(Genotype, Statistic)> = Vec::new();
        while pool.len() > 0
            invariant
                self.wf(),
                colony@.len() + pool@.len() == shuffled.len(),
                pool@ == shuffled.subrange(0, pool@.len() as int),
                forall|k: int| 0 <= k < shuffled.len() ==> (#[trigger] shuffled[k]).0.ready(),
                forall|k: int|
                    0 <= k < colony@.len() ==> (#[trigger] colony@[k]).0 == shuffled[shuffled.len()
                        - 1 - k].0,
                forall|k: int| 0 <= k < colony@.len() ==> (#[trigger] colony@[k]).0.ready(),
                forall|k: int|
                    0 <= k < colony@.len() ==> scored_genotype(
                        (#[trigger] colony@[k]).0,
                        self.evaluations@,
                        colony@[k].1.fitness as int,
                    ) && colony@[k].1.iteration == iteration,
            decreases pool@.len(),
        {
            let ghost pre_pool = pool@;
            let pair = pool.pop().unwrap();
            proof {
                assert(pair == shuffled[pool@.len() as int]);
                assert(pair.0.ready());
            }
            let s = score(&pair.0, &self.evaluations, iteration);
            colony.push((pair.0, s));
            proof {
                assert(pool@ =~= shuffled.subrange(0, pool@.len() as int));
            }
        }
        proof {
            lemma_reverse_fst_multiset(shuffled, colony@);
        }
        let ghost colony_v = colony@;
        let sorted = sort_by_fitness(colony);
        proof {
            lemma_map_fst_multiset(sorted@, colony_v);
            assert forall|k: int| 0 <= k < sorted@.len() implies (#[trigger] sorted@[k]).0.ready()
                && scored_genotype(
                sorted@[k].0,
                self.evaluations@,
                sorted@[k].1.fitness as int,
            ) && sorted@[k].1.iteration == iteration by {
                sorted@.to_multiset_ensures();
                colony_v.to_multiset_ensures();
                assert(sorted@.contains(sorted@[k]));
                assert(sorted@.to_multiset().count(sorted@[k]) > 0);
                assert(colony_v.to_multiset().count(sorted@[k]) > 0);
                assert(colony_v.contains(sorted@[k]));
                let j = choose|j: int| 0 <= j < colony_v.len() && colony_v[j] == sorted@[k];
                assert(colony_v[j].0.ready());
            }
        }
        sorted
    }
}

/// A population listed in reverse order, pair for pair in genotype,
/// carries the same genotype multiset.
proof fn lemma_reverse_fst_multiset(s: Seq<(Genotype, Statistic)>, r: Seq<(Genotype, Statistic)>)
    requires
        r.len() == s.len(),
        forall|k: int| 0 <= k < r.len() ==> (#[trigger] r[k]).0 == s[s.len() - 1 - k].0,
    ensures
        genotype_multiset(r) == genotype_multiset(s),
{
    let f = |p: (Genotype, Statistic)| p.0;
    let n = s.len() as int;
    assert(r.map_values(f) =~= s.map_values(f).reverse());
    s.map_values(f).lemma_reverse_to_multiset();
}

impl MuLambda {
    /// Truncation selection: keep the best `mu` exactly as they stand,
    /// and refill the population with mutated offspring of the rest,
    /// each carrying a fresh, unscored statistic.
    pub fn prune(
        &self,
        rng: &mut rand::rngs::StdRng,
        colony: Vec<(Genotype, Statistic)>,
    ) -> (r: Vec<(Genotype, Statistic)>)
        requires
            self.wf(),
            self.mu <= colony@.len(),
            forall|k: int| 0 <= k < colony@.len() ==> (#[trigger] colony@[k]).0.ready(),
        ensures
            r@.len() == colony@.len(),
            forall|k: int| 0 <= k < self.mu ==> #[trigger] r@[k] == colony@[k],
            forall|k: int| 0 <= k < r@.len() ==> (#[trigger] r@[k]).0.ready(),
            forall|k: int|
                self.mu <= k < r@.len() ==> (#[trigger] r@[k]).1.fitness == -1 && r@[k].1.iteration
                    == 0,
            forall|k: int|
                self.mu <= k < r@.len() ==> crate::genotype::same_strategy(
                    (#[trigger] r@[k]).0,
                    colony@[k].0,
                ) && r@[k].0.width_spec() == colony@[k].0.width_spec() && r@[k].0.height_spec()
                    == colony@[k].0.height_spec(),
    {
        let ghost orig = colony@;
        let mut rest = colony;
        let mut out: Vec<(Genotype, Statistic)> = Vec::new();
        while rest.len() > 0
            invariant
                self.wf(),
                out@.len() + rest@.len() == orig.len(),
                rest@ == orig.subrange(out@.len() as int, orig.len() as int),
                forall|k: int| 0 <= k < orig.len() ==> (#[trigger] orig[k]).0.ready(),
                forall|k: int|
                    0 <= k < out@.len() && k < self.mu ==> #[trigger] out@[k] == orig[k],
                forall|k: int| 0 <= k < out@.len() ==> (#[trigger] out@[k]).0.ready(),
                forall|k: int|
                    self.mu <= k < out@.len() ==> (#[trigger] out@[k]).1.fitness == -1
                        && out@[k].1.iteration == 0,
                forall|k: int|
                    self.mu <= k < out@.len() ==> crate::genotype::same_strategy(
                        (#[trigger] out@[k]).0,
                        orig[k].0,
                    ) && out@[k].0.width_spec() == orig[k].0.width_spec()
                        && out@[k].0.height_spec() == orig[k].0.height_spec(),
            decreases rest@.len(),
        {
            let ghost done = out@.len() as int;
            let pair = rest.remove(0);
            proof {
                assert(pair == orig[done]);
                assert(rest@ =~= orig.subrange(done + 1, orig.len() as int));
            }
            if out.len() < self.mu {
                out.push(pair);
            } else {
                let mut baby = pair.0.clone();
                baby.mutate(rng, self.mutation_pct);
                out.push((baby, Statistic::empty()));
            }
        }
        out
    }

    /// Run the whole evolutionary search: build the starting
    /// population, iterate with pruning between generations, and score
    /// the final generation without pruning it, so the result comes
    /// back ranked best first with every fitness a score its genotype
    /// could earn.
    pub fn run(&mut self, rng: &mut rand::rngs::StdRng) -> (r: Vec<(Genotype, Statistic)>)
        requires
            old(self).wf(),
            old(self).current_iteration == 0,
        ensures
            r@.len() == old(self).mu + old(self).lambda,
            sorted_desc(r@),
            forall|k: int|
                0 <= k < r@.len() ==> scored_genotype(
                    (#[trigger] r@[k]).0,
                    old(self).evaluations@,
                    r@[k].1.fitness as int,
                ),
            forall|k: int|
                0 <= k < r@.len() ==> (#[trigger] r@[k]).1.iteration == old(self).iterations - 1,
            final(self).current_iteration == old(self).iterations - 1,
    {
        let total = self.mu + self.lambda;
        let mut primer: Vec<(Genotype, Statistic)> = Vec::new();
        let mut k: usize = 0;
        while k < total
            invariant
                self == old(self),
                self.wf(),
                k <= total,
                primer@.len() == k,
                forall|i: int| 0 <= i < k ==> (#[trigger] primer@[i]).0.ready(),
            decreases total - k,
        {
            let g = self.genotype.initialize(rng);
            primer.push((g, Statistic::empty()));
            k = k + 1;
        }
        while self.current_iteration < self.iterations - 1
            invariant
                self.wf(),
                self.mu == old(self).mu,
                self.lambda == old(self).lambda,
                self.iterations == old(self).iterations,
                self.mutation_pct == old(self).mutation_pct,
                self.evaluations@ == old(self).evaluations@,
                self.genotype == old(self).genotype,
                self.threads == old(self).threads,
                self.current_iteration <= self.iterations - 1,
                primer@.len() == old(self).mu + old(self).lambda,
                forall|i: int|
                    0 <= i < primer@.len() ==> (#[trigger] primer@[i]).0.ready(),
            decreases self.iterations - self.current_iteration,
        {
            let it = self.current_iteration;
            let colony = self.iterate(rng, primer, it);
            primer = self.prune(rng, colony);
            self.current_iteration = self.current_iteration + 1;
        }
        let it = self.current_iteration;
        let colony = self.iterate(rng, primer, it);
        colony
    }
}

/// Selection never discards the best-known individual: once the colony
/// is ranked best first, its head — the best survivor the pruning
/// keeps — scores at least as well as the best of the previous
/// generation's survivors, whenever some individual of the colony
/// re-earned at least that fitness. With evaluators whose scores are
/// functions of the dungeon alone, a surviving genotype re-earns its
/// old fitness, so the premise holds of the previous best survivor
/// itself.
pub proof fn lemma_selection_keeps_best(
    colony: Seq<(Genotype, Statistic)>,
    mu: int,
    prev_best: int,
)
    requires
        1 <= mu <= colony.len(),
        sorted_desc(colony),
        exists|k: int| 0 <= k < colony.len() && (#[trigger] colony[k]).1.fitness >= prev_best,
    ensures
        colony.subrange(0, mu)[0].1.fitness >= prev_best,
{
    let k = choose|k: int| 0 <= k < colony.len() && (#[trigger] colony[k]).1.fitness >= prev_best;
    if k > 0 {
        assert(colony[0].1.fitness >= colony[k].1.fitness);
    }
    assert(colony.subrange(0, mu)[0] == colony[0]);
}

/// With every evaluator's score pinned, a genotype earns one fitness
/// and one only: the phenotype is reproducible and the evaluators are
/// functions of its contents.
pub proof fn lemma_refit_same(g: Genotype, evals: Seq<(EvalKind, i64)>, f1: int, f2: int)
    requires
        evals_pinned(evals),
        scored_genotype(g, evals, f1),
        scored_genotype(g, evals, f2),
    ensures
        f1 == f2,
{
    let d1 = choose|d: Dungeon| #[trigger] g.phenotype_matches(d) && d.wf() && scored(d, evals, f1);
    let d2 = choose|d: Dungeon| #[trigger] g.phenotype_matches(d) && d.wf() && scored(d, evals, f2);
    crate::genotype::lemma_genotype_reproducible(g, d1, d2);
    crate::evaluation::lemma_scored_congruent(d1, d2, evals, f1, f2);
}

/// Selection is monotone: across one non-final generation, as long as
/// every evaluator's score is pinned, the best fitness among the new
/// survivors is at least the best among the previous generation's
/// survivors. The previous best survivor carries over unmutated into
/// the next population, re-earns the same fitness, and a ranked colony
/// puts its best first — which is exactly who the pruning keeps.
pub proof fn lemma_evolution_monotone(
    prev: Seq<(Genotype, Statistic)>,
    next_colony: Seq<(Genotype, Statistic)>,
    evals: Seq<(EvalKind, i64)>,
    mu: int,
)
    requires
        evals_pinned(evals),
        1 <= mu,
        prev.len() >= 1,
        next_colony.len() >= 1,
        forall|k: int|
            0 <= k < prev.len() ==> scored_genotype(
                (#[trigger] prev[k]).0,
                evals,
                prev[k].1.fitness as int,
            ),
        forall|k: int|
            0 <= k < next_colony.len() ==> scored_genotype(
                (#[trigger] next_colony[k]).0,
                evals,
                next_colony[k].1.fitness as int,
            ),
        sorted_desc(prev),
        sorted_desc(next_colony),
        genotype_multiset(next_colony).count(prev[0].0) > 0,
    ensures
        next_colony[0].1.fitness >= prev[0].1.fitness,
{
    let best = prev[0].0;
    let gs = next_colony.map_values(|p: (Genotype, Statistic)| p.0);
    gs.to_multiset_ensures();
    assert(gs.contains(best));
    let k = choose|k: int| 0 <= k < gs.len() && gs[k] == best;
    assert(next_colony[k].0 == best);
    lemma_refit_same(
        best,
        evals,
        prev[0].1.fitness as int,
        next_colony[k].1.fitness as int,
    );
    if k > 0 {
        assert(next_colony[0].1.fitness >= next_colony[k].1.fitness);
    }
}

} // verus!
