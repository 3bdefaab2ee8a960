use vstd::prelude::*;
use vstd::string::StringExecFns;

use crate::genome::{crossover_2ofsprings, crossover_child, genome_text, same_len, swapped_from, Genome};
use crate::node::Node;
use crate::random::{random_below, shuffle_nodes};

verus! {

/// The first line of a population's rendering and the rule under it.
pub open spec fn heading() -> Seq<char> {
    "Population: \n===========================================================================================================================\n"@
}

/// The lines of a list of tours, one per tour.
pub open spec fn tours_text(tours: Seq<Seq<Node>>) -> Seq<char>
    decreases tours.len(),
{
    if tours.len() == 0 {
        Seq::empty()
    } else {
        tours_text(tours.drop_last()) + genome_text(tours.last()) + seq!['\n']
    }
}

/// The rendering of a population: the heading and then its tours.
pub open spec fn population_text(tours: Seq<Seq<Node>>) -> Seq<char> {
    heading() + tours_text(tours)
}

/// Why a population cannot be built from the given tours and settings.
#[derive(Clone, Copy, Debug, PartialEq, Eq, Structural)]
pub enum PopulationError {
    /// No tour was given.
    EmptyPopulation,
    /// The tours do not all have the same number of points.
    DifferentLengths,
    /// The crossover segment does not satisfy `start < end <= tour length`.
    CrossoverRange,
    /// Each crossover takes two parents, and there are not enough tours.
    TooManyCrossovers,
    /// More tours are to be mutated in a round than there are.
    TooManyMutatedGenoms,
    /// Shuffling kept giving tours that were drawn already.
    NoDistinctTour,
}

/// How many shuffles a random population tries for each new tour.
pub const SHUFFLE_ATTEMPTS: u32 = 1000;

/// The first rule that a random population of `len` tours of `genome_len`
/// points would break, checked in the order of [`validation_error`].
pub open spec fn settings_error(
    len: usize,
    genome_len: usize,
    number_of_crossovers: u32,
    number_of_mutated_genoms: u32,
    crossover_start: usize,
    crossover_end: usize,
) -> Option<PopulationError> {
    if len == 0 {
        Some(PopulationError::EmptyPopulation)
    } else if crossover_start >= crossover_end || crossover_end > genome_len {
        Some(PopulationError::CrossoverRange)
    } else if number_of_crossovers * 2 > len {
        Some(PopulationError::TooManyCrossovers)
    } else if number_of_mutated_genoms > len {
        Some(PopulationError::TooManyMutatedGenoms)
    } else {
        None
    }
}

/// A population of tours and the settings of the rounds that evolve it.
#[derive(Clone, Debug)]
pub struct Population {
    population: Vec<Genome>,
    len: usize,
    genome_len: usize,
    number_of_crossovers: u32,
    number_of_mutations: u32,
    number_of_mutated_genoms: u32,
    crossover_begin_range: usize,
    crossover_end_range: usize,
}

/// The point sequences of a list of tours.
pub open spec fn tours_of(v: Seq<Genome>) -> Seq<Seq<Node>> {
    v.map_values(|g: Genome| g@)
}

/// The first rule that the tours and settings break, checked in this order:
/// no tour, tours of different lengths, a crossover segment that is not
/// `start < end <= length`, more than half as many crossovers as tours, more
/// mutated tours than tours.
pub open spec fn validation_error(
    tours: Seq<Seq<Node>>,
    number_of_crossovers: u32,
    number_of_mutated_genoms: u32,
    crossover_start: usize,
    crossover_end: usize,
) -> Option<PopulationError> {
    if tours.len() == 0 {
        Some(PopulationError::EmptyPopulation)
    } else if exists|k: int| 0 <= k < tours.len() && #[trigger] tours[k].len() != tours[0].len() {
        Some(PopulationError::DifferentLengths)
    } else if crossover_start >= crossover_end || crossover_end > tours[0].len() {
        Some(PopulationError::CrossoverRange)
    } else if number_of_crossovers * 2 > tours.len() {
        Some(PopulationError::TooManyCrossovers)
    } else if number_of_mutated_genoms > tours.len() {
        Some(PopulationError::TooManyMutatedGenoms)
    } else {
        None
    }
}

/// Tour `i` comes before tour `j` in the survivors' order: a smaller key, or
/// the same key and an earlier position.
pub open spec fn ranks_before(keys: Seq<u64>, i: int, j: int) -> bool {
    keys[i] < keys[j] || (keys[i] == keys[j] && i < j)
}

/// `order` lists the first `order.len()` positions of `keys` when they are
/// sorted by key, ties kept in the order of their positions.
pub open spec fn is_sorted_prefix(keys: Seq<u64>, order: Seq<int>) -> bool {
    &&& forall|r: int| 0 <= r < order.len() ==> 0 <= #[trigger] order[r] < keys.len()
    &&& forall|r: int, s: int| 0 <= r < s < order.len() ==> ranks_before(keys, order[r], order[s])
    &&& forall|i: int|
        0 <= i < keys.len() && !order.contains(i) ==> forall|r: int|
            0 <= r < order.len() ==> ranks_before(keys, #[trigger] order[r], i)
}

/// Position `j` ranks after every position of `ord`'s last one.
pub open spec fn follows_prefix(keys: Seq<u64>, ord: Seq<int>, j: int) -> bool {
    ord.len() == 0 || ranks_before(keys, ord.last(), j)
}

/// Whether position `i` holds the first of the smallest keys.
pub open spec fn is_first_minimum(keys: Seq<u64>, i: int) -> bool {
    &&& 0 <= i < keys.len()
    &&& forall|j: int| 0 <= j < keys.len() ==> keys[i] <= #[trigger] keys[j]
    &&& forall|j: int| 0 <= j < i ==> keys[i] < #[trigger] keys[j]
}

/// The position of the first of the smallest keys.
pub fn best_index(keys: &Vec<u64>) -> (r: usize)
    requires
        keys@.len() > 0,
    ensures
        is_first_minimum(keys@, r as int),
{
    let mut best: usize = 0;
    let mut i: usize = 1;
    while i < keys.len()
        invariant
            1 <= i <= keys@.len(),
            best < i,
            forall|j: int| 0 <= j < i ==> keys@[best as int] <= #[trigger] keys@[j],
            forall|j: int| 0 <= j < best ==> keys@[best as int] < #[trigger] keys@[j],
        decreases keys@.len() - i,
    {
        if keys[i] < keys[best] {
            best = i;
        }
        i = i + 1;
    }
    best
}

/// The positions of the `count` tours that rank first by key, in rank order.
pub fn sorted_prefix(keys: &Vec<u64>, count: usize) -> (r: Vec<usize>)
    requires
        count <= keys@.len(),
    ensures
        r@.len() == count,
        is_sorted_prefix(keys@, r@.map_values(|i: usize| i as int)),
{
    let n = keys.len();
    let mut order: Vec<usize> = Vec::new();
    while order.len() < count
        invariant
            n == keys@.len(),
            count <= n,
            order@.len() <= count,
            is_sorted_prefix(keys@, order@.map_values(|i: usize| i as int)),
        decreases count - order@.len(),
    {
        let ghost ord = order@.map_values(|i: usize| i as int);
        let mut found = false;
        let mut pick: usize = 0;
        let mut i: usize = 0;
        while i < n
            invariant
                n == keys@.len(),
                i <= n,
                ord == order@.map_values(|i: usize| i as int),
                ord.len() == order@.len(),
                is_sorted_prefix(keys@, ord),
                forall|r: int| 0 <= r < order@.len() ==> order@[r] == ord[r],
                found ==> pick < i,
                found ==> follows_prefix(keys@, ord, pick as int),
                forall|j: int| 0 <= j < i && #[trigger] follows_prefix(keys@, ord, j)
                    ==> found && (j == pick || ranks_before(keys@, pick as int, j)),
            decreases n - i,
        {
            let above = if order.len() == 0 {
                true
            } else {
                let last = order[order.len() - 1];
                assert(ord[order.len() - 1] < n);
                assert(last as int == ord.last());
                keys[last] < keys[i] || (keys[last] == keys[i] && last < i)
            };
            let ghost old_pick = pick;
            let ghost old_found = found;
            assert(above == follows_prefix(keys@, ord, i as int));
            if above && (!found || keys[i] < keys[pick]) {
                pick = i;
                found = true;
            }
            assert forall|j: int| 0 <= j < i + 1 && follows_prefix(keys@, ord, j)
                implies found && (j == pick || ranks_before(keys@, pick as int, j)) by {
                if j < i {
                    assert(old_found && (j == old_pick || ranks_before(keys@, old_pick as int, j)));
                }
            }
            i = i + 1;
        }
        proof {
            if !found {
                // Fewer positions rank after the last one than are still wanted.
                lemma_prefix_full(keys@, ord);
                let j = choose|j: int| 0 <= j < keys@.len() && follows_prefix(keys@, ord, j);
                assert(found);
            }
        }
        order.push(pick);
        proof {
            let next = order@.map_values(|i: usize| i as int);
            assert(next =~= ord.push(pick as int));
            assert forall|r: int, s: int| 0 <= r < s < next.len() implies ranks_before(keys@, next[r], next[s]) by {
                if s == next.len() - 1 && r < s - 1 {
                    assert(ranks_before(keys@, ord[r], ord.last()));
                }
            }
            assert forall|j: int| 0 <= j < keys@.len() && !next.contains(j) implies forall|r: int|
                0 <= r < next.len() ==> ranks_before(keys@, #[trigger] next[r], j) by {
                assert(!ord.contains(j)) by {
                    if ord.contains(j) {
                        let r = choose|r: int| 0 <= r < ord.len() && ord[r] == j;
                        assert(next[r] == j);
                    }
                }
                assert(j != pick as int) by {
                    assert(next[next.len() - 1] == pick as int);
                }
                if ord.len() > 0 {
                    assert(ranks_before(keys@, ord[ord.len() - 1], j));
                }
                assert(follows_prefix(keys@, ord, j));
                assert(ranks_before(keys@, pick as int, j));
                assert forall|r: int| 0 <= r < next.len() implies ranks_before(keys@, #[trigger] next[r], j) by {
                    if r < ord.len() {
                        assert(next[r] == ord[r]);
                    }
                }
            }
        }
    }
    order
}

/// When a sorted prefix is shorter than the keys, some position ranks after
/// all of it.
proof fn lemma_prefix_full(keys: Seq<u64>, ord: Seq<int>)
    requires
        is_sorted_prefix(keys, ord),
        ord.len() < keys.len(),
    ensures
        exists|j: int| 0 <= j < keys.len() && #[trigger] follows_prefix(keys, ord, j),
{
    assert(ord.no_duplicates()) by {
        assert forall|r: int, s: int| 0 <= r < ord.len() && 0 <= s < ord.len() && r != s implies ord[r] != ord[s] by {
            if r < s {
                assert(ranks_before(keys, ord[r], ord[s]));
            } else {
                assert(ranks_before(keys, ord[s], ord[r]));
            }
        }
    }
    let in_range = Set::new(|i: int| 0 <= i < keys.len());
    assert(ord.to_set().subset_of(in_range));
    vstd::set_lib::lemma_int_range(0, keys.len() as int);
    assert(in_range =~= vstd::set_lib::set_int_range(0, keys.len() as int));
    ord.unique_seq_to_set();
    assert(!(ord.to_set() =~= in_range));
    let j = choose|j: int| in_range.contains(j) && !ord.to_set().contains(j);
    assert(0 <= j < keys.len());
    assert(!ord.contains(j));
    if ord.len() > 0 {
        assert(ranks_before(keys, ord[ord.len() - 1], j));
        assert(ord.last() == ord[ord.len() - 1]);
    }
    assert(follows_prefix(keys, ord, j));
}

/// `pop` with `t` added at the end, unless it already holds an equal tour.
pub open spec fn add_new(pop: Seq<Seq<Node>>, t: Seq<Node>) -> Seq<Seq<Node>> {
    if pop.contains(t) {
        pop
    } else {
        pop.push(t)
    }
}

/// One crossover of the tours at `i` and `j`: both offspring are added as
/// [`add_new`] says. Parents whose lengths differ, or that are too short for
/// the segment `[start, end]`, give no offspring.
pub open spec fn breed_step(pop: Seq<Seq<Node>>, i: int, j: int, start: int, end: int) -> Seq<Seq<Node>> {
    let a = pop[i];
    let b = pop[j];
    if a.len() == b.len() && start < end < a.len() {
        add_new(add_new(pop, crossover_child(a, b, start, end)), crossover_child(b, a, start, end))
    } else {
        pop
    }
}

/// No tour is a parent twice: the two parents of a pair differ, and no two
/// pairs share a parent, as when parents are drawn without replacement.
pub open spec fn parents_distinct(pairs: Seq<(usize, usize)>) -> bool {
    &&& forall|k: int| 0 <= k < pairs.len() ==> (#[trigger] pairs[k]).0 != pairs[k].1
    &&& forall|k: int, l: int|
        0 <= k < pairs.len() && 0 <= l < pairs.len() && k != l ==> {
            let a = #[trigger] pairs[k];
            let b = #[trigger] pairs[l];
            a.0 != b.0 && a.0 != b.1 && a.1 != b.0 && a.1 != b.1
        }
}

/// The tours not yet chosen as parents in a crossover phase, by position.
/// Parents are taken out one by one, so none is chosen twice.
pub struct ParentPool {
    ids: Vec<usize>,
}

impl View for ParentPool {
    type V = Seq<usize>;

    closed spec fn view(&self) -> Seq<usize> {
        self.ids@
    }
}

impl ParentPool {
    /// The pool of all positions `0..size`, in order.
    pub fn new(size: usize) -> (r: ParentPool)
        ensures
            r@.len() == size,
            forall|i: int| 0 <= i < size ==> #[trigger] r@[i] == i,
            r@.no_duplicates(),
    {
        let mut ids: Vec<usize> = Vec::new();
        let mut i: usize = 0;
        while i < size
            invariant
                i <= size,
                ids@.len() == i,
                forall|k: int| 0 <= k < i ==> #[trigger] ids@[k] == k,
            decreases size - i,
        {
            ids.push(i);
            i = i + 1;
        }
        ParentPool { ids }
    }

    /// How many positions are left.
    pub fn len(&self) -> (r: usize)
        ensures
            r == self@.len(),
    {
        self.ids.len()
    }

    /// The position held at place `i` of the pool.
    pub fn id_at(&self, i: usize) -> (r: usize)
        requires
            i < self@.len(),
        ensures
            r == self@[i as int],
    {
        self.ids[i]
    }

    /// Takes the position at place `i` out of the pool and returns it; it
    /// cannot be taken again.
    pub fn take(&mut self, i: usize) -> (r: usize)
        requires
            i < old(self)@.len(),
        ensures
            r == old(self)@[i as int],
            final(self)@ == old(self)@.remove(i as int),
            old(self)@.no_duplicates() ==> final(self)@.no_duplicates() && !final(self)@.contains(r),
    {
        let r = self.ids.remove(i);
        proof {
            let before = old(self)@;
            if before.no_duplicates() {
                assert forall|k: int| 0 <= k < self@.len() implies self@[k] != r by {
                    if k < i {
                        assert(self@[k] == before[k]);
                    } else {
                        assert(self@[k] == before[k + 1]);
                    }
                }
                assert forall|a: int, b: int| 0 <= a < self@.len() && 0 <= b < self@.len() && a != b implies self@[a]
                    != self@[b] by {
                    let a0 = if a < i { a } else { a + 1 };
                    let b0 = if b < i { b } else { b + 1 };
                    assert(self@[a] == before[a0] && self@[b] == before[b0]);
                }
            }
        }
        r
    }
}

/// The crossovers of `pairs`, one after the other.
pub open spec fn breed(pop: Seq<Seq<Node>>, pairs: Seq<(usize, usize)>, start: int, end: int) -> Seq<Seq<Node>>
    decreases pairs.len(),
{
    if pairs.len() == 0 {
        pop
    } else {
        breed(breed_step(pop, pairs[0].0 as int, pairs[0].1 as int, start, end), pairs.drop_first(), start, end)
    }
}

/// Whether `v` holds a tour equal to `g`.
pub fn contains_genome(v: &Vec<Genome>, g: &Genome) -> (r: bool)
    ensures
        r == tours_of(v@).contains(g@),
{
    let mut i: usize = 0;
    while i < v.len()
        invariant
            i <= v@.len(),
            forall|k: int| 0 <= k < i ==> v@[k]@ != g@,
        decreases v@.len() - i,
    {
        if v[i].same_as(g) {
            assert(tours_of(v@)[i as int] == g@);
            return true;
        }
        i = i + 1;
    }
    assert forall|k: int| 0 <= k < tours_of(v@).len() implies tours_of(v@)[k] != g@ by {
        assert(tours_of(v@)[k] == v@[k]@);
    }
    false
}

/// How many swaps a mutated tour of `len` points gets: as many as are asked
/// for, but no more than there are pairs of its positions.
pub open spec fn swap_count(asked: nat, len: nat) -> nat {
    if asked <= len * len {
        asked
    } else {
        len * len
    }
}

/// How many of `len` tours a round mutates: as many as are asked for, but no
/// more than there are besides the first.
pub open spec fn mutation_count(asked: nat, len: nat) -> nat {
    if asked < len {
        asked
    } else if len == 0 {
        0
    } else {
        (len - 1) as nat
    }
}

impl Population {
    /// The tours, in order.
    pub closed spec fn tours(&self) -> Seq<Seq<Node>> {
        tours_of(self.population@)
    }

    /// The number of tours that each round ends with.
    pub closed spec fn target_len(&self) -> nat {
        self.len as nat
    }

    pub closed spec fn tour_len(&self) -> nat {
        self.genome_len as nat
    }

    pub closed spec fn crossovers(&self) -> nat {
        self.number_of_crossovers as nat
    }

    pub closed spec fn mutations(&self) -> nat {
        self.number_of_mutations as nat
    }

    pub closed spec fn mutated_genoms(&self) -> nat {
        self.number_of_mutated_genoms as nat
    }

    pub closed spec fn crossover_start(&self) -> nat {
        self.crossover_begin_range as nat
    }

    pub closed spec fn crossover_end(&self) -> nat {
        self.crossover_end_range as nat
    }

    /// What holds of a population between rounds and after each phase: at
    /// least the target number of tours, a valid crossover segment, and
    /// settings that the target number of tours can serve.
    pub closed spec fn wf(&self) -> bool {
        &&& self.len >= 1
        &&& self.population@.len() >= self.len
        &&& self.crossover_begin_range < self.crossover_end_range <= self.genome_len
        &&& self.number_of_crossovers * 2 <= self.len
        &&& self.number_of_mutated_genoms <= self.len
    }

    /// Both populations have the same target size and round settings.
    pub open spec fn same_settings(&self, other: &Population) -> bool {
        &&& self.target_len() == other.target_len()
        &&& self.tour_len() == other.tour_len()
        &&& self.crossovers() == other.crossovers()
        &&& self.mutations() == other.mutations()
        &&& self.mutated_genoms() == other.mutated_genoms()
        &&& self.crossover_start() == other.crossover_start()
        &&& self.crossover_end() == other.crossover_end()
    }

    /// The number of tours held now.
    pub fn size(&self) -> (r: usize)
        ensures
            r == self.tours().len(),
    {
        self.population.len()
    }

    /// The number of tours that each round ends with.
    pub fn get_len(&self) -> (r: usize)
        ensures
            r == self.target_len(),
    {
        self.len
    }

    pub fn get_number_of_crossovers(&self) -> (r: u32)
        ensures
            r == self.crossovers(),
    {
        self.number_of_crossovers
    }

    /// The tour at position `i`.
    pub fn genome_at(&self, i: usize) -> (r: &Genome)
        requires
            i < self.tours().len(),
        ensures
            r@ == self.tours()[i as int],
    {
        &self.population[i]
    }

    /// Keeps the `len` tours that rank first by key, ties in their order, in
    /// rank order. `keys[i]` is the key of tour `i`: the smaller, the better.
    pub fn reduce(&mut self, keys: &Vec<u64>)
        requires
            old(self).wf(),
            keys@.len() == old(self).tours().len(),
        ensures
            final(self).wf(),
            final(self).same_settings(old(self)),
            final(self).tours().len() == old(self).target_len(),
            exists|order: Seq<int>|
                order.len() == old(self).target_len() && is_sorted_prefix(keys@, order)
                    && forall|r: int| 0 <= r < order.len() ==> #[trigger] final(self).tours()[r] == old(self).tours()[order[r]],
    {
        let order = sorted_prefix(keys, self.len);
        let ghost ord = order@.map_values(|i: usize| i as int);
        let mut kept: Vec<Genome> = Vec::new();
        let mut r: usize = 0;
        while r < self.len
            invariant
                r <= self.len,
                order@.len() == self.len,
                ord == order@.map_values(|i: usize| i as int),
                is_sorted_prefix(keys@, ord),
                keys@.len() == self.population@.len(),
                kept@.len() == r,
                forall|t: int| 0 <= t < r ==> #[trigger] kept@[t]@ == self.population@[ord[t]]@,
            decreases self.len - r,
        {
            assert(ord[r as int] == order@[r as int]);
            kept.push(self.population[order[r]].duplicate());
            r = r + 1;
        }
        let ghost before = self.population@;
        self.population = kept;
        assert forall|t: int| 0 <= t < ord.len() implies #[trigger] self.tours()[t] == tours_of(before)[ord[t]] by {
            assert(self.tours()[t] == self.population@[t]@);
        }
    }

    /// The first of the best tours: the first position whose key is the
    /// smallest. `keys[i]` is the key of tour `i`.
    pub fn get_best(&self, keys: &Vec<u64>) -> (r: Genome)
        requires
            self.wf(),
            keys@.len() == self.tours().len(),
        ensures
            exists|i: int| is_first_minimum(keys@, i) && r@ == self.tours()[i],
    {
        let i = best_index(keys);
        assert(self.tours()[i as int] == self.population@[i as int]@);
        self.population[i].duplicate()
    }

    /// The crossover phase of a round, on the given pairs of parents: each
    /// pair gives two offspring over the population's segment, and each is
    /// added unless an equal tour is there already. The crossover needs a
    /// position `end` inside both parents: a pair whose parents differ in
    /// length, or whose length is at most `end` (a segment may end at the tour
    /// length), gives no offspring.
    pub fn crossover_2ofsprings(&mut self, crossovers: &Vec<(usize, usize)>)
        requires
            old(self).wf(),
            forall|k: int|
                0 <= k < crossovers@.len() ==> (#[trigger] crossovers@[k]).0 < old(self).tours().len()
                    && crossovers@[k].1 < old(self).tours().len(),
            parents_distinct(crossovers@),
        ensures
            final(self).wf(),
            final(self).same_settings(old(self)),
            final(self).tours() == breed(
                old(self).tours(),
                crossovers@,
                old(self).crossover_start() as int,
                old(self).crossover_end() as int,
            ),
            final(self).tours().len() >= old(self).tours().len(),
    {
        let start = self.crossover_begin_range;
        let end = self.crossover_end_range;
        let ghost whole = crossovers@;
        let mut k: usize = 0;
        assert(whole.subrange(0, whole.len() as int) =~= whole);
        while k < crossovers.len()
            invariant
                k <= whole.len(),
                whole == crossovers@,
                start == self.crossover_begin_range,
                end == self.crossover_end_range,
                self.wf(),
                self.same_settings(old(self)),
                self.tours().len() >= old(self).tours().len(),
                forall|t: int|
                    0 <= t < whole.len() ==> (#[trigger] whole[t]).0 < old(self).tours().len()
                        && whole[t].1 < old(self).tours().len(),
                breed(self.tours(), whole.subrange(k as int, whole.len() as int), start as int, end as int)
                    == breed(old(self).tours(), whole, start as int, end as int),
            decreases whole.len() - k,
        {
            let ghost rest = whole.subrange(k as int, whole.len() as int);
            assert(rest.drop_first() =~= whole.subrange(k + 1, whole.len() as int));
            assert(rest[0] == whole[k as int]);
            let (p1, p2) = crossovers[k];
            let ghost pop = self.tours();
            assert(pop[p1 as int] == self.population@[p1 as int]@);
            assert(pop[p2 as int] == self.population@[p2 as int]@);
            if self.population[p1].get_len() == self.population[p2].get_len() && start < end && end
                < self.population[p1].get_len() {
                let (first, second) = crossover_2ofsprings(&self.population[p1], &self.population[p2], start, end);
                if !contains_genome(&self.population, &first) {
                    self.population.push(first);
                    assert(self.tours() =~= pop.push(first@));
                }
                let ghost mid = self.tours();
                assert(mid == add_new(pop, first@));
                if !contains_genome(&self.population, &second) {
                    self.population.push(second);
                    assert(self.tours() =~= mid.push(second@));
                }
                assert(self.tours() == add_new(mid, second@));
            }
            k = k + 1;
        }
        assert(whole.subrange(k as int, whole.len() as int) =~= Seq::<(usize, usize)>::empty());
    }

    /// The mutation phase of a round: tours drawn uniformly without
    /// replacement among all but the first, as many as the settings ask for
    /// and there are, each get `number_of_mutations` random swaps (at most
    /// one per distinct pair of its positions).
    pub fn mutate(&mut self)
        requires
            old(self).wf(),
        ensures
            final(self).wf(),
            final(self).same_settings(old(self)),
            final(self).tours().len() == old(self).tours().len(),
            final(self).tours()[0] == old(self).tours()[0],
            forall|k: int|
                0 <= k < old(self).tours().len() ==> (#[trigger] final(self).tours()[k]).to_multiset()
                    == old(self).tours()[k].to_multiset() && final(self).tours()[k].len() == old(self).tours()[k].len(),
            exists|chosen: Seq<usize>|
                chosen.len() == mutation_count(old(self).mutated_genoms(), old(self).tours().len())
                    && chosen.no_duplicates()
                    && (forall|t: int| 0 <= t < chosen.len() ==> 1 <= #[trigger] chosen[t] < old(self).tours().len())
                    && (forall|k: int|
                    0 <= k < old(self).tours().len() && !chosen.contains(k as usize)
                        ==> #[trigger] final(self).tours()[k] == old(self).tours()[k])
                    && forall|t: int|
                    0 <= t < chosen.len() ==> swapped_from(
                        final(self).tours()[#[trigger] chosen[t] as int],
                        old(self).tours()[chosen[t] as int],
                        swap_count(old(self).mutations(), old(self).tours()[chosen[t] as int].len()),
                    ),
    {
        let n = self.population.len();
        let count: usize = if (self.number_of_mutated_genoms as usize) < n {
            self.number_of_mutated_genoms as usize
        } else {
            n - 1
        };
        let mut candidates: Vec<usize> = Vec::new();
        let mut c: usize = 1;
        while c < n
            invariant
                1 <= c <= n,
                candidates@.len() == c - 1,
                forall|j: int| 0 <= j < candidates@.len() ==> #[trigger] candidates@[j] == j + 1,
            decreases n - c,
        {
            candidates.push(c);
            c = c + 1;
        }
        let mut picked: Vec<usize> = Vec::new();
        while picked.len() < count
            invariant
                count <= n - 1,
                n == self.population@.len(),
                picked@.len() <= count,
                candidates@.len() + picked@.len() == n - 1,
                forall|a: int, b: int| 0 <= a < b < candidates@.len() ==> candidates@[a] < candidates@[b],
                forall|j: int| 0 <= j < candidates@.len() ==> 1 <= #[trigger] candidates@[j] < n,
                forall|t: int| 0 <= t < picked@.len() ==> 1 <= #[trigger] picked@[t] < n,
                forall|t: int| 0 <= t < picked@.len() ==> !candidates@.contains(#[trigger] picked@[t]),
                picked@.no_duplicates(),
            decreases count - picked@.len(),
        {
            let id = random_below(candidates.len() as u128) as usize;
            let chosen = candidates[id];
            let ghost before = candidates@;
            let ghost picked_before = picked@;
            picked.push(chosen);
            candidates.remove(id);
            assert forall|t: int| 0 <= t < picked@.len() implies !candidates@.contains(#[trigger] picked@[t]) by {
                if candidates@.contains(picked@[t]) {
                    let j = choose|j: int| 0 <= j < candidates@.len() && candidates@[j] == picked@[t];
                    if j < id {
                        assert(before[j] == picked@[t]);
                    } else {
                        assert(before[j + 1] == picked@[t]);
                    }
                    if t < picked_before.len() {
                        assert(picked_before[t] == picked@[t]);
                        assert(before.contains(picked_before[t]));
                    }
                }
            }
            assert forall|a: int, b: int| 0 <= a < picked@.len() && 0 <= b < picked@.len() && a != b implies picked@[a]
                != picked@[b] by {
                if b == picked_before.len() && a < b {
                    assert(picked_before[a] == picked@[a]);
                    assert(before.contains(chosen));
                } else if a == picked_before.len() && b < a {
                    assert(picked_before[b] == picked@[b]);
                    assert(before.contains(chosen));
                }
            }
        }
        let ghost old_tours = self.tours();
        let mut t: usize = 0;
        while t < picked.len()
            invariant
                t <= picked@.len(),
                n == self.population@.len(),
                old_tours == old(self).tours(),
                self.wf(),
                self.same_settings(old(self)),
                forall|u: int| 0 <= u < picked@.len() ==> 1 <= #[trigger] picked@[u] < n,
                picked@.no_duplicates(),
                forall|u: int|
                    0 <= u < t ==> swapped_from(
                        self.tours()[#[trigger] picked@[u] as int],
                        old_tours[picked@[u] as int],
                        swap_count(self.number_of_mutations as nat, old_tours[picked@[u] as int].len()),
                    ),
                forall|k: int|
                    0 <= k < n ==> (#[trigger] self.tours()[k]).to_multiset() == old_tours[k].to_multiset()
                        && self.tours()[k].len() == old_tours[k].len(),
                forall|k: int|
                    0 <= k < n && !picked@.subrange(0, t as int).contains(k as usize)
                        ==> #[trigger] self.tours()[k] == old_tours[k],
            decreases picked@.len() - t,
        {
            let i = picked[t];
            let mut g = self.population[i].duplicate();
            let size = g.get_len() as u128;
            assert(size * size <= u128::MAX) by (nonlinear_arith)
                requires
                    size <= u64::MAX,
            ;
            let swaps: u32 = if (self.number_of_mutations as u128) <= size * size {
                self.number_of_mutations
            } else {
                (size * size) as u32
            };
            let ghost before = self.tours();
            assert(g@ == before[i as int]);
            g.mutate_random(swaps);
            let ghost mutated = g@;
            self.population.set(i, g);
            assert(self.tours()[i as int] == mutated);
            assert forall|k: int| 0 <= k < n && k != i implies #[trigger] self.tours()[k] == before[k] by {}
            assert(!picked@.subrange(0, t as int).contains(i)) by {
                if picked@.subrange(0, t as int).contains(i) {
                    let u = choose|u: int| 0 <= u < t && picked@.subrange(0, t as int)[u] == i;
                    assert(picked@[u] == picked@[t as int]);
                }
            }
            assert(before[i as int] == old_tours[i as int]);
            assert(swapped_from(mutated, old_tours[i as int], swap_count(self.number_of_mutations as nat, old_tours[i as int].len())));
            assert forall|u: int| 0 <= u < t + 1 implies swapped_from(
                self.tours()[#[trigger] picked@[u] as int],
                old_tours[picked@[u] as int],
                swap_count(self.number_of_mutations as nat, old_tours[picked@[u] as int].len()),
            ) by {
                if u < t {
                    assert(picked@[u] != i);
                }
            }
            assert forall|k: int| 0 <= k < n implies (#[trigger] self.tours()[k]).to_multiset()
                == old_tours[k].to_multiset() && self.tours()[k].len() == old_tours[k].len() by {
                assert(before[k].to_multiset() == old_tours[k].to_multiset());
            }
            assert forall|k: int| 0 <= k < n && !picked@.subrange(0, t + 1).contains(k as usize)
                implies #[trigger] self.tours()[k] == old_tours[k] by {
                assert(picked@.subrange(0, t + 1)[t as int] == i);
                if picked@.subrange(0, t as int).contains(k as usize) {
                    let u = choose|u: int| 0 <= u < t && picked@.subrange(0, t as int)[u] == k as usize;
                    assert(picked@.subrange(0, t + 1)[u] == k as usize);
                }
            }
            t = t + 1;
        }
        assert(picked@.subrange(0, t as int) =~= picked@);
        assert(!picked@.contains(0usize)) by {
            if picked@.contains(0usize) {
                let u = choose|u: int| 0 <= u < picked@.len() && picked@[u] == 0usize;
            }
        }
    }

    /// The population rendered as a heading and then one line per tour.
    pub fn as_string(&self) -> (r: String)
        ensures
            r@ == population_text(self.tours()),
    {
        let mut result = <String as StringExecFns>::from_str("Population: \n===========================================================================================================================\n");
        proof {
            reveal_strlit("Population: \n===========================================================================================================================\n");
        }
        let mut i: usize = 0;
        assert(self.tours().subrange(0, 0) =~= Seq::<Seq<Node>>::empty());
        while i < self.population.len()
            invariant
                i <= self.tours().len(),
                self.tours().len() == self.population@.len(),
                result@ == population_text(self.tours().subrange(0, i as int)),
            decreases self.tours().len() - i,
        {
            let line = self.population[i].as_string();
            let ghost before = result@;
            result.append(line.as_str());
            result.append("\n");
            proof {
                reveal_strlit("\n");
                reveal_strlit("Population: \n===========================================================================================================================\n");
                let next = self.tours().subrange(0, i + 1);
                assert(next.drop_last() =~= self.tours().subrange(0, i as int));
                assert(next.last() == self.population@[i as int]@);
                assert(result@ =~= before + genome_text(next.last()) + seq!['\n']);
                assert(result@ =~= population_text(next));
            }
            i = i + 1;
        }
        assert(self.tours().subrange(0, i as int) =~= self.tours());
        result
    }

    /// A population of `len` distinct tours over one set of `genome_len`
    /// distinct random points with coordinates in `[min, max)`: each tour is a
    /// shuffle of those points that no earlier tour equals. A tour for which
    /// [`SHUFFLE_ATTEMPTS`] shuffles all give tours already drawn ends the
    /// construction with `NoDistinctTour`; the first tour always goes in, so
    /// valid settings with a single tour always succeed.
    pub fn new_random(
        len: usize,
        genome_len: usize,
        min: u64,
        max: u64,
        number_of_crossovers: u32,
        number_of_mutations: u32,
        number_of_mutated_genoms: u32,
        crossover_start: usize,
        crossover_end: usize,
    ) -> (r: Result<Population, PopulationError>)
        requires
            genome_len > 0 ==> min < max && max <= 0x8000_0000_0000_0000u64 && genome_len <= (max - min) * (max - min),
        ensures
            match settings_error(
                len,
                genome_len,
                number_of_crossovers,
                number_of_mutated_genoms,
                crossover_start,
                crossover_end,
            ) {
                Some(e) => r == Err::<Population, PopulationError>(e),
                None => match r {
                    Ok(p) => {
                        &&& p.wf()
                        &&& p.tours().len() == len
                        &&& p.target_len() == len
                        &&& p.tour_len() == genome_len
                        &&& p.crossovers() == number_of_crossovers
                        &&& p.mutations() == number_of_mutations
                        &&& p.mutated_genoms() == number_of_mutated_genoms
                        &&& p.crossover_start() == crossover_start
                        &&& p.crossover_end() == crossover_end
                        &&& p.tours().no_duplicates()
                        &&& p.tours()[0].len() == genome_len
                        &&& p.tours()[0].no_duplicates()
                        &&& forall|k: int|
                            0 <= k < genome_len ==> min <= (#[trigger] p.tours()[0][k]).x_spec() < max && min
                                <= p.tours()[0][k].y_spec() < max
                        &&& forall|k: int|
                            0 <= k < len ==> (#[trigger] p.tours()[k]).to_multiset() == p.tours()[0].to_multiset()
                    },
                    Err(e) => e == PopulationError::NoDistinctTour && len >= 2,
                },
            },
    {
        if len == 0 {
            return Err(PopulationError::EmptyPopulation);
        }
        if crossover_start >= crossover_end || crossover_end > genome_len {
            return Err(PopulationError::CrossoverRange);
        }
        if number_of_crossovers as u128 * 2 > len as u128 {
            return Err(PopulationError::TooManyCrossovers);
        }
        if number_of_mutated_genoms as usize > len {
            return Err(PopulationError::TooManyMutatedGenoms);
        }
        let base = Genome::new_random(genome_len, min, max);
        let ghost points = base@.to_multiset();
        let mut first = base.get_nodes();
        let mut population: Vec<Genome> = Vec::new();
        while population.len() < len
            invariant
                settings_error(len, genome_len, number_of_crossovers, number_of_mutated_genoms, crossover_start, crossover_end) is None,
                base@.len() == genome_len,
                points == base@.to_multiset(),
                population@.len() <= len,
                first@.to_multiset() == points,
                forall|k: int| 0 <= k < population@.len() ==> (#[trigger] population@[k])@.to_multiset() == points,
                tours_of(population@).no_duplicates(),
            decreases len - population@.len(),
        {
            let mut attempts: u32 = 0;
            let mut added = false;
            let ghost count: int = population@.len() as int;
            while !added && attempts < SHUFFLE_ATTEMPTS
                invariant
                    count < len,
                    settings_error(len, genome_len, number_of_crossovers, number_of_mutated_genoms, crossover_start, crossover_end) is None,
                    base@.len() == genome_len,
                    points == base@.to_multiset(),
                    population@.len() <= len,
                    first@.to_multiset() == points,
                    forall|k: int| 0 <= k < population@.len() ==> (#[trigger] population@[k])@.to_multiset() == points,
                    tours_of(population@).no_duplicates(),
                    population@.len() == (if added { count + 1 } else { count as int }),
                    count == 0 && attempts > 0 ==> added,
                decreases SHUFFLE_ATTEMPTS - attempts,
            {
                shuffle_nodes(&mut first);
                let candidate = Genome::new(first);
                first = candidate.get_nodes();
                assert(count == 0 ==> !tours_of(population@).contains(candidate@));
                if !contains_genome(&population, &candidate) {
                    let ghost before = tours_of(population@);
                    population.push(candidate);
                    assert(tours_of(population@) =~= before.push(candidate@));
                    added = true;
                }
                attempts = attempts + 1;
            }
            if !added {
                assert(population@.len() > 0);
                return Err(PopulationError::NoDistinctTour);
            }
        }
        let ghost tours = tours_of(population@);
        proof {
            broadcast use vstd::seq_lib::group_to_multiset_ensures;
            assert(tours[0] == population@[0]@);
            assert(tours[0].len() == genome_len) by {
                assert(tours[0].to_multiset().len() == tours[0].len());
                assert(points.len() == base@.len());
            }
            base@.lemma_multiset_has_no_duplicates();
            tours[0].lemma_multiset_has_no_duplicates_conv();
            assert forall|k: int| 0 <= k < genome_len implies min <= (#[trigger] tours[0][k]).x_spec() < max && min
                <= tours[0][k].y_spec() < max by {
                assert(tours[0].to_multiset().count(tours[0][k]) > 0);
                assert(base@.contains(tours[0][k]));
            }
            assert forall|k: int| 0 <= k < len implies (#[trigger] tours[k]).to_multiset() == tours[0].to_multiset() by {
                assert(tours[k] == population@[k]@);
            }
        }
        let result = Population::new(
            population,
            number_of_crossovers,
            number_of_mutations,
            number_of_mutated_genoms,
            crossover_start,
            crossover_end,
        );
        proof {
            assert forall|k: int| 0 <= k < tours.len() implies #[trigger] tours[k].len() == tours[0].len() by {
                assert(tours[k].to_multiset().len() == tours[k].len());
                assert(tours[0].to_multiset().len() == tours[0].len());
                assert(tours[k] == population@[k]@);
            }
        }
        result
    }

    /// A population of the given tours, whose number becomes the target size.
    pub fn new(
        population: Vec<Genome>,
        number_of_crossovers: u32,
        number_of_mutations: u32,
        number_of_mutated_genoms: u32,
        crossover_start: usize,
        crossover_end: usize,
    ) -> (r: Result<Population, PopulationError>)
        ensures
            match validation_error(
                tours_of(population@),
                number_of_crossovers,
                number_of_mutated_genoms,
                crossover_start,
                crossover_end,
            ) {
                Some(e) => r == Err::<Population, PopulationError>(e),
                None => r matches Ok(p) && p.wf() && p.tours() == tours_of(population@)
                    && p.target_len() == population@.len() && p.tour_len() == population@[0]@.len()
                    && p.crossovers() == number_of_crossovers && p.mutations() == number_of_mutations
                    && p.mutated_genoms() == number_of_mutated_genoms
                    && p.crossover_start() == crossover_start && p.crossover_end() == crossover_end,
            },
    {
        let ghost tours = tours_of(population@);
        if population.len() == 0 {
            return Err(PopulationError::EmptyPopulation);
        }
        if !same_len(&population) {
            assert(exists|k: int| 0 <= k < tours.len() && #[trigger] tours[k].len() != tours[0].len()) by {
                let k = choose|k: int| 0 <= k < population@.len() && #[trigger] population@[k]@.len() != population@[0]@.len();
                assert(tours[k].len() != tours[0].len());
            }
            return Err(PopulationError::DifferentLengths);
        }
        assert(!exists|k: int| 0 <= k < tours.len() && #[trigger] tours[k].len() != tours[0].len()) by {
            assert forall|k: int| 0 <= k < tours.len() implies #[trigger] tours[k].len() == tours[0].len() by {
                assert(population@[k]@.len() == population@[0]@.len());
            }
        }
        let genome_len = population[0].get_len();
        let len = population.len();
        if crossover_start >= crossover_end || crossover_end > genome_len {
            return Err(PopulationError::CrossoverRange);
        }
        if (number_of_crossovers as usize) as u128 * 2 > len as u128 {
            return Err(PopulationError::TooManyCrossovers);
        }
        if (number_of_mutated_genoms as usize) > len {
            return Err(PopulationError::TooManyMutatedGenoms);
        }
        Ok(
            Population {
                population,
                len,
                genome_len,
                number_of_crossovers,
                number_of_mutations,
                number_of_mutated_genoms,
                crossover_begin_range: crossover_start,
                crossover_end_range: crossover_end,
            },
        )
    }
}

/// A well-formed population holds at least its target number of tours. The
/// phases of a round (`crossover_2ofsprings`, `mutate`, `reduce`) each keep a
/// population well formed, so no phase leaves fewer tours than the target,
/// and `reduce` leaves exactly that many.
pub proof fn lemma_size_never_below_target(p: &Population)
    requires
        p.wf(),
    ensures
        p.tours().len() >= p.target_len(),
        p.target_len() >= 1,
{
}

} // verus!
