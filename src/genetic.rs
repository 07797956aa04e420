//! The biased random-key genetic search: elitism, biased uniform crossover
//! and fresh random chromosomes, ranked by fitness.
use rand::rngs::StdRng;
use vstd::prelude::*;

use crate::chromosome::{indices_with, KEY_SPAN};
use crate::model::{valid_packages, valid_ulds, Package, ULD};
use crate::ordering::{sort_indices, sort_spec, stably_sorted};
use crate::placer::Config;
use crate::random::{draw_below, seeded_rng};

verus! {

/// Probabilities are given in millionths.
pub const PROB_SCALE: u64 = 1_000_000;

impl Config {
    /// Every field of `self` equals that of `o`.
    pub open spec fn same_as(&self, o: &Config) -> bool {
        &&& self.priority_order@ == o.priority_order@
        &&& self.non_priority_order@ == o.non_priority_order@
        &&& self.enc_priority_ord@ == o.enc_priority_ord@
        &&& self.enc_non_priority_ord@ == o.enc_non_priority_ord@
        &&& self.fitness_score == o.fitness_score
        &&& self.resultant_data@ == o.resultant_data@
        &&& self.priority_packed == o.priority_packed
        &&& self.ulds_used_for_priority == o.ulds_used_for_priority
        &&& self.evaluated == o.evaluated
        &&& self.uld_wts@ == o.uld_wts@
        &&& self.count_priority_pkg == o.count_priority_pkg
        &&& self.count_non_priority_pkg == o.count_non_priority_pkg
        &&& self.priority_idx@ == o.priority_idx@
        &&& self.non_priority_idx@ == o.non_priority_idx@
        &&& self.tot == o.tot
    }

    /// A copy of this configuration.
    pub fn duplicate(&self) -> (r: Config)
        ensures
            r.same_as(self),
    {
        Config {
            priority_order: self.priority_order.clone(),
            non_priority_order: self.non_priority_order.clone(),
            enc_priority_ord: self.enc_priority_ord.clone(),
            enc_non_priority_ord: self.enc_non_priority_ord.clone(),
            fitness_score: self.fitness_score,
            resultant_data: self.resultant_data.clone(),
            priority_packed: self.priority_packed,
            ulds_used_for_priority: self.ulds_used_for_priority,
            evaluated: self.evaluated,
            uld_wts: self.uld_wts.clone(),
            count_priority_pkg: self.count_priority_pkg,
            count_non_priority_pkg: self.count_non_priority_pkg,
            priority_idx: self.priority_idx.clone(),
            non_priority_idx: self.non_priority_idx.clone(),
            tot: self.tot,
        }
    }
}

/// Every configuration of `pop` is evaluated.
pub open spec fn all_evaluated(pkgs: Seq<Package>, ulds: Seq<ULD>, pop: Seq<Config>) -> bool {
    forall|k: int| 0 <= k < pop.len() ==> (#[trigger] pop[k]).evaluated_ok(pkgs, ulds)
}

/// `pop` is in ascending order of fitness.
pub open spec fn sorted_by_fitness(pop: Seq<Config>) -> bool {
    forall|a: int, b: int|
        0 <= a < b < pop.len() ==> (#[trigger] pop[a]).fitness_score <= (
        #[trigger] pop[b]).fitness_score
}

/// `c` is a copy of some configuration of `pop`.
pub open spec fn copy_of_some(pop: Seq<Config>, c: Config) -> bool {
    exists|k: int| 0 <= k < pop.len() && c.same_as(&#[trigger] pop[k])
}

pub open spec fn fitness_keys(pop: Seq<Config>) -> Seq<(i128, i128, i128)> {
    Seq::new(pop.len(), |k: int| (pop[k].fitness_score, 0i128, 0i128))
}

/// Some configuration of `pop` is a copy of `c`.
pub open spec fn has_copy(pop: Seq<Config>, c: Config) -> bool {
    exists|k: int| 0 <= k < pop.len() && (#[trigger] pop[k]).same_as(&c)
}

/// The keys of `elite` where `coins` holds and of `other` elsewhere.
pub open spec fn inherited(elite: Seq<u64>, other: Seq<u64>, coins: Seq<bool>) -> Seq<u64> {
    Seq::new(coins.len(), |k: int| if coins[k] { elite[k] } else { other[k] })
}

/// `c` is the evaluated configuration with priority keys `p` and economy
/// keys `e`.
pub open spec fn keyed(c: Config, pkgs: Seq<Package>, ulds: Seq<ULD>, p: Seq<u64>, e: Seq<u64>) -> bool {
    &&& c.evaluated_ok(pkgs, ulds)
    &&& c.enc_priority_ord@ == p
    &&& c.enc_non_priority_ord@ == e
}

/// The keys of `elite` where `coins` holds and of `other` elsewhere.
pub fn inherit_keys(elite: &Vec<u64>, other: &Vec<u64>, coins: &Vec<bool>) -> (r: Vec<u64>)
    requires
        elite@.len() == coins@.len(),
        other@.len() == coins@.len(),
    ensures
        r@ == inherited(elite@, other@, coins@),
{
    let n = coins.len();
    let mut r: Vec<u64> = Vec::new();
    for k in 0..n
        invariant
            n == coins@.len(),
            elite@.len() == n,
            other@.len() == n,
            r@.len() == k,
            forall|j: int| 0 <= j < k ==> #[trigger] r@[j] == if coins@[j] { elite@[j] } else { other@[j] },
    {
        if coins[k] {
            r.push(elite[k]);
        } else {
            r.push(other[k]);
        }
    }
    assert(r@ =~= inherited(elite@, other@, coins@));
    r
}

/// Every offspring key is the elite parent's or the other parent's key at
/// the same position.
pub open spec fn inherits(child: Seq<u64>, elite: Seq<u64>, other: Seq<u64>) -> bool {
    &&& child.len() == elite.len()
    &&& forall|k: int|
        0 <= k < child.len() ==> #[trigger] child[k] == elite[k] || child[k] == other[k]
}

/// The genetic search over orders of the packages `org_pkgs` into the ULDs
/// `org_ulds`.
pub struct GeneticSolver {
    pub org_pkgs: Vec<Package>,
    pub org_ulds: Vec<ULD>,
    pub uld_cnt: usize,
    pub pkg_cnt: usize,
    pub pop_size: usize,
    pub cnt_genes: usize,
    pub elites: usize,
    pub elite_crossover_prob: u64,
    pub rng: StdRng,
}

/// What the search found: the best configuration, the best fitness of each
/// generation's population, and the last population, best first.
pub struct Solution {
    pub best: Config,
    pub history: Vec<i128>,
    pub population: Vec<Config>,
}

impl GeneticSolver {
    pub open spec fn wf(&self) -> bool {
        &&& valid_packages(self.org_pkgs@)
        &&& valid_ulds(self.org_ulds@)
        &&& self.uld_cnt == self.org_ulds@.len()
        &&& self.pkg_cnt == self.org_pkgs@.len()
        &&& 1 <= self.elites < self.pop_size
        &&& self.elite_crossover_prob <= PROB_SCALE
    }

    pub open spec fn pkgs(&self) -> Seq<Package> {
        self.org_pkgs@
    }

    pub open spec fn ulds(&self) -> Seq<ULD> {
        self.org_ulds@
    }

    pub open spec fn population_size(&self) -> usize {
        self.pop_size
    }

    pub open spec fn elite_count(&self) -> usize {
        self.elites
    }

    pub open spec fn generations(&self) -> usize {
        self.cnt_genes
    }

    /// A solver with population size `pop_size`, `cnt_genes` generations,
    /// `elites` elite chromosomes, an elite-inheritance probability of
    /// `elite_crossover_prob` millionths, and random numbers from `seed`.
    pub fn new(
        pkgs: Vec<Package>,
        ulds: Vec<ULD>,
        pop_size: usize,
        cnt_genes: usize,
        elites: usize,
        elite_crossover_prob: u64,
        seed: u64,
    ) -> (r: Self)
        requires
            valid_packages(pkgs@),
            valid_ulds(ulds@),
            1 <= elites < pop_size,
            elite_crossover_prob <= PROB_SCALE,
        ensures
            r.wf(),
            r.pkgs() == pkgs@,
            r.ulds() == ulds@,
            r.population_size() == pop_size,
            r.generations() == cnt_genes,
            r.elite_count() == elites,
    {
        let uld_cnt = ulds.len();
        let pkg_cnt = pkgs.len();
        GeneticSolver {
            org_pkgs: pkgs,
            org_ulds: ulds,
            uld_cnt,
            pkg_cnt,
            pop_size,
            cnt_genes,
            elites,
            elite_crossover_prob,
            rng: seeded_rng(seed),
        }
    }

    /// A new chromosome with random keys, evaluated.
    fn fresh_config(&mut self) -> (r: Config)
        requires
            old(self).wf(),
        ensures
            final(self).wf(),
            final(self).pkgs() == old(self).pkgs(),
            final(self).ulds() == old(self).ulds(),
            final(self).pop_size == old(self).pop_size,
            final(self).elites == old(self).elites,
            final(self).cnt_genes == old(self).cnt_genes,
            r.evaluated_ok(old(self).pkgs(), old(self).ulds()),
    {
        let mut c = Config::new(&self.org_pkgs, &self.org_ulds);
        c.initialize(&mut self.rng);
        c.find_fitness(&self.org_pkgs, &self.org_ulds);
        c
    }

    /// Whether a gene comes from the elite parent: true with the elite
    /// inheritance probability.
    fn elite_coin(&mut self) -> (r: bool)
        requires
            old(self).wf(),
        ensures
            final(self).wf(),
            final(self).org_pkgs == old(self).org_pkgs,
            final(self).org_ulds == old(self).org_ulds,
            final(self).pop_size == old(self).pop_size,
            final(self).elites == old(self).elites,
            final(self).cnt_genes == old(self).cnt_genes,
            final(self).elite_crossover_prob == old(self).elite_crossover_prob,
            old(self).elite_crossover_prob == 0 ==> !r,
            old(self).elite_crossover_prob == PROB_SCALE ==> r,
    {
        draw_below(&mut self.rng, PROB_SCALE) < self.elite_crossover_prob
    }

    /// Coin results for `n` genes: each true with the elite inheritance
    /// probability.
    fn draw_coins(&mut self, n: usize) -> (r: Vec<bool>)
        requires
            old(self).wf(),
        ensures
            final(self).wf(),
            final(self).org_pkgs == old(self).org_pkgs,
            final(self).org_ulds == old(self).org_ulds,
            final(self).pop_size == old(self).pop_size,
            final(self).elites == old(self).elites,
            final(self).cnt_genes == old(self).cnt_genes,
            final(self).elite_crossover_prob == old(self).elite_crossover_prob,
            r@.len() == n,
            old(self).elite_crossover_prob == PROB_SCALE ==> forall|k: int| 0 <= k < n ==> #[trigger] r@[k],
            old(self).elite_crossover_prob == 0 ==> forall|k: int| 0 <= k < n ==> !#[trigger] r@[k],
    {
        let mut r: Vec<bool> = Vec::new();
        for k in 0..n
            invariant
                self.wf(),
                self.org_pkgs == old(self).org_pkgs,
                self.org_ulds == old(self).org_ulds,
                self.pop_size == old(self).pop_size,
                self.elites == old(self).elites,
                self.cnt_genes == old(self).cnt_genes,
                self.elite_crossover_prob == old(self).elite_crossover_prob,
                r@.len() == k,
                old(self).elite_crossover_prob == PROB_SCALE ==> forall|j: int| 0 <= j < k ==> #[trigger] r@[j],
                old(self).elite_crossover_prob == 0 ==> forall|j: int| 0 <= j < k ==> !#[trigger] r@[j],
        {
            let c = self.elite_coin();
            r.push(c);
        }
        r
    }

    /// Biased uniform crossover: at each position of both key vectors the
    /// offspring takes the elite parent's key with the elite inheritance
    /// probability, else the other parent's. The offspring is not evaluated.
    pub fn crossover(&mut self, elite: &Config, non_elite: &Config) -> (r: Config)
        requires
            old(self).wf(),
            elite.layout_ok(old(self).pkgs()),
            non_elite.layout_ok(old(self).pkgs()),
        ensures
            final(self).wf(),
            final(self).pkgs() == old(self).pkgs(),
            final(self).ulds() == old(self).ulds(),
            final(self).pop_size == old(self).pop_size,
            final(self).elites == old(self).elites,
            final(self).cnt_genes == old(self).cnt_genes,
            r.layout_ok(old(self).pkgs()),
            !r.evaluated,
            exists|pc: Seq<bool>|
                r.enc_priority_ord@ == #[trigger] inherited(
                    elite.enc_priority_ord@,
                    non_elite.enc_priority_ord@,
                    pc,
                ),
            exists|ec: Seq<bool>|
                r.enc_non_priority_ord@ == #[trigger] inherited(
                    elite.enc_non_priority_ord@,
                    non_elite.enc_non_priority_ord@,
                    ec,
                ),
            inherits(r.enc_priority_ord@, elite.enc_priority_ord@, non_elite.enc_priority_ord@),
            inherits(
                r.enc_non_priority_ord@,
                elite.enc_non_priority_ord@,
                non_elite.enc_non_priority_ord@,
            ),
            old(self).elite_crossover_prob == PROB_SCALE ==> r.enc_priority_ord@
                == elite.enc_priority_ord@ && r.enc_non_priority_ord@ == elite.enc_non_priority_ord@,
            old(self).elite_crossover_prob == 0 ==> r.enc_priority_ord@
                == non_elite.enc_priority_ord@ && r.enc_non_priority_ord@
                == non_elite.enc_non_priority_ord@,
    {
        let mut offspring = Config::new(&self.org_pkgs, &self.org_ulds);
        let pc = self.draw_coins(elite.enc_priority_ord.len());
        let ec = self.draw_coins(elite.enc_non_priority_ord.len());
        let p = inherit_keys(&elite.enc_priority_ord, &non_elite.enc_priority_ord, &pc);
        let e = inherit_keys(&elite.enc_non_priority_ord, &non_elite.enc_non_priority_ord, &ec);
        proof {
            if old(self).elite_crossover_prob == PROB_SCALE {
                assert(p@ =~= elite.enc_priority_ord@);
                assert(e@ =~= elite.enc_non_priority_ord@);
            }
            if old(self).elite_crossover_prob == 0 {
                assert(p@ =~= non_elite.enc_priority_ord@);
                assert(e@ =~= non_elite.enc_non_priority_ord@);
            }
        }
        offspring.enc_priority_ord = p;
        offspring.enc_non_priority_ord = e;
        offspring
    }

    /// The configuration with priority keys `p` and economy keys `e`,
    /// evaluated.
    pub fn evaluated_with(&self, p: Vec<u64>, e: Vec<u64>) -> (r: Config)
        requires
            self.wf(),
            p@.len() == indices_with(self.pkgs(), self.pkgs().len() as int, true).len(),
            e@.len() == indices_with(self.pkgs(), self.pkgs().len() as int, false).len(),
        ensures
            keyed(r, self.pkgs(), self.ulds(), p@, e@),
    {
        let mut c = Config::new(&self.org_pkgs, &self.org_ulds);
        c.enc_priority_ord = p;
        c.enc_non_priority_ord = e;
        c.find_fitness(&self.org_pkgs, &self.org_ulds);
        c
    }

    /// `pop` in ascending order of fitness (a stable sort).
    pub fn sort_population(&self, pop: Vec<Config>) -> (r: Vec<Config>)
        requires
            all_evaluated(self.pkgs(), self.ulds(), pop@),
        ensures
            r@.len() == pop@.len(),
            all_evaluated(self.pkgs(), self.ulds(), r@),
            sorted_by_fitness(r@),
            forall|k: int| 0 <= k < r@.len() ==> copy_of_some(pop@, #[trigger] r@[k]),
            forall|k: int|
                0 <= k < r@.len() ==> (#[trigger] r@[k]).same_as(
                    &pop@[sort_spec(fitness_keys(pop@), pop@.len() as int)[k] as int],
                ),
            forall|j: int| 0 <= j < pop@.len() ==> has_copy(r@, #[trigger] pop@[j]),
    {
        let n = pop.len();
        let mut keys: Vec<(i128, i128, i128)> = Vec::new();
        for k in 0..n
            invariant
                n == pop@.len(),
                keys@.len() == k,
                forall|j: int| 0 <= j < k ==> #[trigger] keys@[j] == (pop@[j].fitness_score, 0i128, 0i128),
        {
            keys.push((pop[k].fitness_score, 0, 0));
        }
        assert(keys@ =~= fitness_keys(pop@));
        let order = sort_indices(&keys);
        let mut r: Vec<Config> = Vec::new();
        for k in 0..n
            invariant
                n == pop@.len(),
                stably_sorted(keys@, order@),
                keys@.len() == n,
                all_evaluated(self.pkgs(), self.ulds(), pop@),
                r@.len() == k,
                forall|i: int| 0 <= i < k ==> (#[trigger] r@[i]).same_as(&pop@[order@[i] as int]),
                forall|i: int| 0 <= i < k ==> (#[trigger] r@[i]).evaluated_ok(self.pkgs(), self.ulds()),
        {
            let c = pop[order[k]].duplicate();
            proof {
                assert(pop@[order@[k as int] as int].evaluated_ok(self.pkgs(), self.ulds()));
            }
            r.push(c);
        }
        proof {
            assert forall|a: int, b: int| 0 <= a < b < r@.len() implies (#[trigger] r@[a]).fitness_score
                <= (#[trigger] r@[b]).fitness_score by {
                assert(crate::ordering::index_before(keys@, order@[a] as int, order@[b] as int));
            }
            assert forall|k: int| 0 <= k < r@.len() implies copy_of_some(pop@, #[trigger] r@[k]) by {
                assert(r@[k].same_as(&pop@[order@[k] as int]));
            }
            assert forall|j: int| 0 <= j < pop@.len() implies has_copy(r@, #[trigger] pop@[j]) by {
                assert(order@.contains(j as usize));
                let k = choose|k: int| 0 <= k < order@.len() && order@[k] == j as usize;
                assert(r@[k].same_as(&pop@[j]));
            }
        }
        r
    }

    /// The generation made from given draws, before sorting: copies of the
    /// elites `population[0..elites]`, the offspring of elite `ei` and
    /// non-elite `ni` with keys chosen by the coins `pc` and `ec`, and fresh
    /// chromosomes with the keys `fp[j]`, `fe[j]`, all evaluated.
    pub open spec fn unsorted_generation(
        &self,
        population: Seq<Config>,
        ei: int,
        ni: int,
        pc: Seq<bool>,
        ec: Seq<bool>,
        fp: Seq<Vec<u64>>,
        fe: Seq<Vec<u64>>,
        u: Seq<Config>,
    ) -> bool {
        &&& u.len() == self.pop_size
        &&& forall|k: int| 0 <= k < self.elites ==> #[trigger] u[k].same_as(&population[k])
        &&& keyed(
            u[self.elites as int],
            self.pkgs(),
            self.ulds(),
            inherited(population[ei].enc_priority_ord@, population[ni].enc_priority_ord@, pc),
            inherited(population[ei].enc_non_priority_ord@, population[ni].enc_non_priority_ord@, ec),
        )
        &&& forall|j: int|
            0 <= j < self.pop_size - self.elites - 1 ==> keyed(
                u[self.elites + 1 + j],
                self.pkgs(),
                self.ulds(),
                (#[trigger] fp[j])@,
                fe[j]@,
            )
    }

    /// One generation from given draws: the elites carried over unchanged,
    /// the offspring of elite `ei` and non-elite `ni` that takes the elite's
    /// key where the coin says so, and fresh chromosomes with the given keys,
    /// all ranked by fitness.
    #[verifier::rlimit(50)]
    pub fn assemble_generation(
        &self,
        population: &Vec<Config>,
        ei: usize,
        ni: usize,
        pc: &Vec<bool>,
        ec: &Vec<bool>,
        fp: &Vec<Vec<u64>>,
        fe: &Vec<Vec<u64>>,
    ) -> (r: Vec<Config>)
        requires
            self.wf(),
            population@.len() == self.pop_size,
            all_evaluated(self.pkgs(), self.ulds(), population@),
            ei < self.elites,
            self.elites <= ni < self.pop_size,
            pc@.len() == indices_with(self.pkgs(), self.pkgs().len() as int, true).len(),
            ec@.len() == indices_with(self.pkgs(), self.pkgs().len() as int, false).len(),
            fp@.len() == self.pop_size - self.elites - 1,
            fe@.len() == self.pop_size - self.elites - 1,
            forall|j: int|
                0 <= j < fp@.len() ==> (#[trigger] fp@[j])@.len() == indices_with(
                    self.pkgs(),
                    self.pkgs().len() as int,
                    true,
                ).len(),
            forall|j: int|
                0 <= j < fe@.len() ==> (#[trigger] fe@[j])@.len() == indices_with(
                    self.pkgs(),
                    self.pkgs().len() as int,
                    false,
                ).len(),
        ensures
            exists|u: Seq<Config>|
                #[trigger] self.unsorted_generation(population@, ei as int, ni as int, pc@, ec@, fp@, fe@, u)
                    && r@.len() == u.len() && forall|k: int|
                    0 <= k < r@.len() ==> (#[trigger] r@[k]).same_as(
                        &u[sort_spec(fitness_keys(u), u.len() as int)[k] as int],
                    ),
            r@.len() == population@.len(),
            all_evaluated(self.pkgs(), self.ulds(), r@),
            sorted_by_fitness(r@),
            forall|e: int| 0 <= e < self.elites ==> has_copy(r@, #[trigger] population@[e]),
            r@[0].fitness_score <= population@[0].fitness_score,
    {
        let mut new_pop: Vec<Config> = Vec::new();
        for e in 0..self.elites
            invariant
                self.wf(),
                population@.len() == self.pop_size,
                all_evaluated(self.pkgs(), self.ulds(), population@),
                new_pop@.len() == e,
                forall|i: int| 0 <= i < e ==> (#[trigger] new_pop@[i]).same_as(&population@[i]),
                all_evaluated(self.pkgs(), self.ulds(), new_pop@),
        {
            let c = population[e].duplicate();
            proof {
                assert(population@[e as int].evaluated_ok(self.pkgs(), self.ulds()));
            }
            new_pop.push(c);
        }
        proof {
            assert(population@[ei as int].evaluated_ok(self.pkgs(), self.ulds()));
            assert(population@[ni as int].evaluated_ok(self.pkgs(), self.ulds()));
        }
        let p = inherit_keys(&population[ei].enc_priority_ord, &population[ni].enc_priority_ord, pc);
        let q = inherit_keys(&population[ei].enc_non_priority_ord, &population[ni].enc_non_priority_ord, ec);
        let child = self.evaluated_with(p, q);
        new_pop.push(child);
        let rest = self.pop_size - 1 - self.elites;
        let ghost carried = new_pop@;
        for k in 0..rest
            invariant
                self.wf(),
                rest == self.pop_size - 1 - self.elites,
                fp@.len() == rest,
                fe@.len() == rest,
                forall|j: int|
                    0 <= j < fp@.len() ==> (#[trigger] fp@[j])@.len() == indices_with(
                        self.pkgs(),
                        self.pkgs().len() as int,
                        true,
                    ).len(),
                forall|j: int|
                    0 <= j < fe@.len() ==> (#[trigger] fe@[j])@.len() == indices_with(
                        self.pkgs(),
                        self.pkgs().len() as int,
                        false,
                    ).len(),
                all_evaluated(self.pkgs(), self.ulds(), new_pop@),
                carried.len() == self.elites + 1,
                new_pop@.len() == carried.len() + k,
                forall|i: int| 0 <= i < carried.len() ==> #[trigger] new_pop@[i] == carried[i],
                forall|j: int|
                    0 <= j < k ==> keyed(
                        new_pop@[self.elites + 1 + j],
                        self.pkgs(),
                        self.ulds(),
                        (#[trigger] fp@[j])@,
                        fe@[j]@,
                    ),
        {
            proof {
                assert(fp@[k as int]@.len() == indices_with(self.pkgs(), self.pkgs().len() as int, true).len());
                assert(fe@[k as int]@.len() == indices_with(self.pkgs(), self.pkgs().len() as int, false).len());
            }
            let c = self.evaluated_with(fp[k].clone(), fe[k].clone());
            let ghost before = new_pop@;
            new_pop.push(c);
            proof {
                assert forall|i: int| 0 <= i < new_pop@.len() implies (
                #[trigger] new_pop@[i]).evaluated_ok(self.pkgs(), self.ulds()) by {
                    if i < before.len() {
                        assert(new_pop@[i] == before[i]);
                    }
                }
                assert forall|j: int| 0 <= j < k + 1 implies keyed(
                    new_pop@[self.elites + 1 + j],
                    self.pkgs(),
                    self.ulds(),
                    (#[trigger] fp@[j])@,
                    fe@[j]@,
                ) by {
                    if j < k {
                        assert(new_pop@[self.elites + 1 + j] == before[self.elites + 1 + j]);
                    }
                }
            }
        }
        let ghost unsorted = new_pop@;
        proof {
            assert(self.unsorted_generation(population@, ei as int, ni as int, pc@, ec@, fp@, fe@, unsorted));
        }
        let r = self.sort_population(new_pop);
        proof {
            assert forall|e: int| 0 <= e < self.elites implies has_copy(r@, #[trigger] population@[e]) by {
                assert(unsorted[e].same_as(&population@[e]));
                let k = choose|k: int| 0 <= k < r@.len() && (#[trigger] r@[k]).same_as(&unsorted[e]);
                assert(r@[k].same_as(&population@[e]));
            }
            assert(unsorted[0].same_as(&population@[0]));
            let k = choose|k: int| 0 <= k < r@.len() && (#[trigger] r@[k]).same_as(&unsorted[0]);
            if k > 0 {
                assert(r@[0].fitness_score <= r@[k].fitness_score);
            }
        }
        r
    }

    /// One generation: draws an elite, a non-elite, the crossover coins and
    /// fresh keys, and assembles the generation from them. Whatever is drawn,
    /// the elites survive and the best fitness never gets worse.
    pub fn next_generation(&mut self, population: Vec<Config>) -> (r: Vec<Config>)
        requires
            old(self).wf(),
            population@.len() == old(self).pop_size,
            all_evaluated(old(self).pkgs(), old(self).ulds(), population@),
            sorted_by_fitness(population@),
        ensures
            final(self).wf(),
            final(self).pkgs() == old(self).pkgs(),
            final(self).ulds() == old(self).ulds(),
            final(self).pop_size == old(self).pop_size,
            final(self).elites == old(self).elites,
            final(self).cnt_genes == old(self).cnt_genes,
            r@.len() == population@.len(),
            all_evaluated(old(self).pkgs(), old(self).ulds(), r@),
            sorted_by_fitness(r@),
            forall|e: int| 0 <= e < old(self).elites ==> has_copy(r@, #[trigger] population@[e]),
            r@[0].fitness_score <= population@[0].fitness_score,
    {
        let ei = draw_below(&mut self.rng, self.elites as u64) as usize;
        let ni = self.elites + draw_below(&mut self.rng, (self.pop_size - self.elites) as u64) as usize;
        let np = population[0].enc_priority_ord.len();
        let ne = population[0].enc_non_priority_ord.len();
        proof {
            assert(population@[0].evaluated_ok(self.pkgs(), self.ulds()));
        }
        let pc = self.draw_coins(np);
        let ec = self.draw_coins(ne);
        let rest = self.pop_size - 1 - self.elites;
        let mut fp: Vec<Vec<u64>> = Vec::new();
        let mut fe: Vec<Vec<u64>> = Vec::new();
        for k in 0..rest
            invariant
                self.wf(),
                self.pkgs() == old(self).pkgs(),
                self.ulds() == old(self).ulds(),
                self.pop_size == old(self).pop_size,
                self.elites == old(self).elites,
                self.cnt_genes == old(self).cnt_genes,
                np == indices_with(self.pkgs(), self.pkgs().len() as int, true).len(),
                ne == indices_with(self.pkgs(), self.pkgs().len() as int, false).len(),
                fp@.len() == k,
                fe@.len() == k,
                forall|j: int| 0 <= j < k ==> (#[trigger] fp@[j])@.len() == np,
                forall|j: int| 0 <= j < k ==> (#[trigger] fe@[j])@.len() == ne,
        {
            let mut p: Vec<u64> = Vec::new();
            for i in 0..np
                invariant
                    self.wf(),
                    self.pkgs() == old(self).pkgs(),
                    self.ulds() == old(self).ulds(),
                    self.pop_size == old(self).pop_size,
                    self.elites == old(self).elites,
                    self.cnt_genes == old(self).cnt_genes,
                    p@.len() == i,
            {
                p.push(draw_below(&mut self.rng, KEY_SPAN));
            }
            let mut e: Vec<u64> = Vec::new();
            for i in 0..ne
                invariant
                    self.wf(),
                    self.pkgs() == old(self).pkgs(),
                    self.ulds() == old(self).ulds(),
                    self.pop_size == old(self).pop_size,
                    self.elites == old(self).elites,
                    self.cnt_genes == old(self).cnt_genes,
                    e@.len() == i,
            {
                e.push(draw_below(&mut self.rng, KEY_SPAN));
            }
            let ghost fp0 = fp@;
            let ghost fe0 = fe@;
            fp.push(p);
            fe.push(e);
            proof {
                assert forall|j: int| 0 <= j < k + 1 implies (#[trigger] fp@[j])@.len() == np by {
                    if j < k {
                        assert(fp@[j] == fp0[j]);
                    }
                }
                assert forall|j: int| 0 <= j < k + 1 implies (#[trigger] fe@[j])@.len() == ne by {
                    if j < k {
                        assert(fe@[j] == fe0[j]);
                    }
                }
            }
        }
        self.assemble_generation(&population, ei, ni, &pc, &ec, &fp, &fe)
    }

    /// Runs the search: a random initial population, then `cnt_genes`
    /// generations. Returns the best configuration of the last population
    /// and the best fitness of each population, which never increases.
    #[verifier::rlimit(50)]
    pub fn run(&mut self) -> (r: Solution)
        requires
            old(self).wf(),
        ensures
            final(self).wf(),
            final(self).pkgs() == old(self).pkgs(),
            final(self).ulds() == old(self).ulds(),
            r.best.evaluated_ok(old(self).pkgs(), old(self).ulds()),
            r.history@.len() == old(self).cnt_genes + 1,
            forall|a: int, b: int|
                0 <= a < b < r.history@.len() ==> #[trigger] r.history@[b] <= #[trigger] r.history@[a],
            r.history@[r.history@.len() - 1] == r.best.fitness_score,
            r.population@.len() == old(self).pop_size,
            all_evaluated(old(self).pkgs(), old(self).ulds(), r.population@),
            sorted_by_fitness(r.population@),
            r.best.same_as(&r.population@[0]),
            forall|k: int|
                0 <= k < r.population@.len() ==> r.best.fitness_score <= (
                #[trigger] r.population@[k]).fitness_score,
    {
        let mut population: Vec<Config> = Vec::new();
        let ps = self.pop_size;
        for k in 0..ps
            invariant
                ps == self.pop_size,
                self.wf(),
                self.pkgs() == old(self).pkgs(),
                self.ulds() == old(self).ulds(),
                self.pop_size == old(self).pop_size,
                self.elites == old(self).elites,
                self.cnt_genes == old(self).cnt_genes,
                population@.len() == k,
                all_evaluated(self.pkgs(), self.ulds(), population@),
        {
            let c = self.fresh_config();
            let ghost before = population@;
            population.push(c);
            proof {
                assert forall|i: int| 0 <= i < population@.len() implies (
                #[trigger] population@[i]).evaluated_ok(self.pkgs(), self.ulds()) by {
                    if i < before.len() {
                        assert(population@[i] == before[i]);
                    }
                }
            }
        }
        population = self.sort_population(population);
        let mut history: Vec<i128> = Vec::new();
        history.push(population[0].fitness_score);
        let gens = self.cnt_genes;
        for g in 0..gens
            invariant
                self.wf(),
                self.pkgs() == old(self).pkgs(),
                self.ulds() == old(self).ulds(),
                self.pop_size == old(self).pop_size,
                self.elites == old(self).elites,
                gens == self.cnt_genes,
                gens == old(self).cnt_genes,
                population@.len() == self.pop_size,
                all_evaluated(self.pkgs(), self.ulds(), population@),
                sorted_by_fitness(population@),
                history@.len() == g + 1,
                history@[g as int] == population@[0].fitness_score,
                forall|a: int, b: int|
                    0 <= a < b < history@.len() ==> #[trigger] history@[b] <= #[trigger] history@[a],
        {
            let ghost prev = history@;
            population = self.next_generation(population);
            history.push(population[0].fitness_score);
            proof {
                assert forall|a: int, b: int| 0 <= a < b < history@.len() implies #[trigger] history@[b]
                    <= #[trigger] history@[a] by {
                    if b < prev.len() {
                        assert(history@[a] == prev[a] && history@[b] == prev[b]);
                    } else {
                        assert(history@[a] == prev[a]);
                        if a < g {
                            assert(prev[g as int] <= prev[a]);
                        }
                    }
                }
            }
        }
        proof {
            assert(population@[0].evaluated_ok(self.pkgs(), self.ulds()));
        }
        let best = population[0].duplicate();
        Solution { best, history, population }
    }
}

} // verus!
