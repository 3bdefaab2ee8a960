use vstd::prelude::*;

use crate::node::Node;
use vstd::string::StringExecFns;

use crate::sampling::{draw_free_code, strictly_sorted};

verus! {

/// A tour: the order in which the cities are visited, closing back on the first.
#[derive(Clone, Debug, PartialEq)]
pub struct Genome {
    nodes: Vec<Node>,
}

impl View for Genome {
    type V = Seq<Node>;

    closed spec fn view(&self) -> Seq<Node> {
        self.nodes@
    }
}

/// `s` with the entries at `i` and `j` exchanged.
pub open spec fn swap_at(s: Seq<Node>, i: int, j: int) -> Seq<Node> {
    s.update(i, s[j]).update(j, s[i])
}

/// `s` after the swaps of `pairs`, applied one after the other.
pub open spec fn apply_swaps(s: Seq<Node>, pairs: Seq<[usize; 2]>) -> Seq<Node>
    decreases pairs.len(),
{
    if pairs.len() == 0 {
        s
    } else {
        apply_swaps(swap_at(s, pairs[0]@[0] as int, pairs[0]@[1] as int), pairs.drop_first())
    }
}

/// Every index named by `pairs` lies in `[0, len)`.
pub open spec fn pairs_in_range(pairs: Seq<[usize; 2]>, len: int) -> bool {
    forall|k: int| 0 <= k < pairs.len() ==> pairs[k]@[0] < len && pairs[k]@[1] < len
}

/// Whether `v` holds the point `n`.
pub fn contains_node(v: &Vec<Node>, n: Node) -> (r: bool)
    ensures
        r == v@.contains(n),
{
    let mut i: usize = 0;
    while i < v.len()
        invariant
            i <= v@.len(),
            forall|k: int| 0 <= k < i ==> v@[k] != n,
        decreases v@.len() - i,
    {
        if v[i] == n {
            return true;
        }
        i = i + 1;
    }
    false
}

/// The fill step of the crossover. Each point of `scan`, in order, that `off`
/// does not hold yet is inserted at the cursor `pos`, and the cursor then moves
/// to `(pos + 1) % end`; points already held are passed over. The result is the
/// filled sequence and the final cursor.
pub open spec fn fill(off: Seq<Node>, pos: int, scan: Seq<Node>, end: int) -> (Seq<Node>, int)
    decreases scan.len(),
{
    if scan.len() == 0 {
        (off, pos)
    } else if off.contains(scan[0]) {
        fill(off, pos, scan.drop_first(), end)
    } else {
        fill(off.insert(pos, scan[0]), (pos + 1) % end, scan.drop_first(), end)
    }
}

/// The offspring that keeps `a`'s segment `[start, end]` and is filled from
/// `b`, scanned from `end + 1` to its last point and then from `0` to `end`.
pub open spec fn crossover_child(a: Seq<Node>, b: Seq<Node>, start: int, end: int) -> Seq<Node> {
    let seeded = fill(a.subrange(start, end + 1), end - start + 1, b.subrange(end + 1, b.len() as int), end);
    fill(seeded.0, seeded.1, b.subrange(0, end + 1), end).0
}

/// What filling holds: the points it started with and those scanned, and when
/// it starts without a repeated point it adds none.
pub proof fn lemma_fill_contents(off: Seq<Node>, pos: int, scan: Seq<Node>, end: int)
    requires
        0 <= pos <= off.len(),
        end > 0,
    ensures
        forall|n: Node| fill(off, pos, scan, end).0.contains(n) <==> (off.contains(n) || scan.contains(n)),
        off.no_duplicates() ==> fill(off, pos, scan, end).0.no_duplicates(),
    decreases scan.len(),
{
    if scan.len() > 0 {
        let rest = scan.drop_first();
        assert forall|n: Node| scan.contains(n) <==> (n == scan[0] || rest.contains(n)) by {
            if scan.contains(n) {
                let i = choose|i: int| 0 <= i < scan.len() && scan[i] == n;
                if i > 0 {
                    assert(rest[i - 1] == n);
                }
            }
            if rest.contains(n) {
                let i = choose|i: int| 0 <= i < rest.len() && rest[i] == n;
                assert(scan[i + 1] == n);
            }
            if n == scan[0] {
                assert(scan[0] == n);
            }
        }
        if off.contains(scan[0]) {
            lemma_fill_contents(off, pos, rest, end);
        } else {
            let grown = off.insert(pos, scan[0]);
            assert forall|n: Node| grown.contains(n) <==> (off.contains(n) || n == scan[0]) by {
                if grown.contains(n) {
                    let i = choose|i: int| 0 <= i < grown.len() && grown[i] == n;
                    if i < pos {
                        assert(off[i] == n);
                    } else if i > pos {
                        assert(off[i - 1] == n);
                    }
                }
                if off.contains(n) {
                    let i = choose|i: int| 0 <= i < off.len() && off[i] == n;
                    if i < pos {
                        assert(grown[i] == n);
                    } else {
                        assert(grown[i + 1] == n);
                    }
                }
                if n == scan[0] {
                    assert(grown[pos] == n);
                }
            }
            if off.no_duplicates() {
                assert forall|i: int, j: int| 0 <= i < grown.len() && 0 <= j < grown.len() && i != j
                    implies grown[i] != grown[j] by {
                    if i == pos {
                        assert(off.contains(grown[j]));
                    } else if j == pos {
                        assert(off.contains(grown[i]));
                    }
                }
            }
            assert(0 <= (pos + 1) % end <= pos + 1) by {
                vstd::arithmetic::div_mod::lemma_mod_bound(pos + 1, end);
                vstd::arithmetic::div_mod::lemma_mod_decreases((pos + 1) as nat, end as nat);
            }
            lemma_fill_contents(grown, (pos + 1) % end, rest, end);
        }
    }
}

/// Fills `off` from `b[from..to]` as [`fill`] describes and returns the cursor.
fn fill_from(off: &mut Vec<Node>, pos: usize, b: &Vec<Node>, from: usize, to: usize, end: usize) -> (r: usize)
    requires
        pos <= old(off)@.len(),
        from <= to <= b@.len(),
        end > 0,
    ensures
        (final(off)@, r as int) == fill(old(off)@, pos as int, b@.subrange(from as int, to as int), end as int),
        r <= final(off)@.len(),
{
    let ghost whole = b@.subrange(from as int, to as int);
    let mut position = pos;
    let mut i = from;
    assert(b@.subrange(i as int, to as int) =~= whole);
    while i < to
        invariant
            from <= i <= to <= b@.len(),
            end > 0,
            position <= off@.len(),
            whole == b@.subrange(from as int, to as int),
            fill(off@, position as int, b@.subrange(i as int, to as int), end as int)
                == fill(old(off)@, pos as int, whole, end as int),
        decreases to - i,
    {
        let ghost rest = b@.subrange(i as int, to as int);
        assert(rest.drop_first() =~= b@.subrange(i + 1, to as int));
        assert(rest[0] == b@[i as int]);
        if !contains_node(off, b[i]) {
            off.insert(position, b[i]);
            let next = (position % end + 1) % end;
            assert(next as int == (position as int + 1) % (end as int)) by {
                vstd::arithmetic::div_mod::lemma_add_mod_noop(position as int, 1, end as int);
                if end > 1 {
                    vstd::arithmetic::div_mod::lemma_small_mod(1, end as nat);
                } else {
                    assert((position as int % end as int + 1) % (end as int) == 0);
                    assert((position as int + 1) % (end as int) == 0);
                }
            }
            assert(next as int <= position as int + 1) by {
                vstd::arithmetic::div_mod::lemma_mod_decreases((position + 1) as nat, end as nat);
            }
            position = next;
        }
        i = i + 1;
    }
    assert(b@.subrange(i as int, to as int) =~= Seq::<Node>::empty());
    position
}

/// The offspring of `a` and `b` that keeps `a`'s segment `[start, end]`.
fn crossover(a: &Genome, b: &Genome, start: usize, end: usize) -> (r: Vec<Node>)
    requires
        a@.len() == b@.len(),
        start < end < a@.len(),
    ensures
        r@ == crossover_child(a@, b@, start as int, end as int),
{
    let len = a.nodes.len();
    let mut off: Vec<Node> = Vec::new();
    let mut i = start;
    while i <= end
        invariant
            start <= i <= end + 1,
            end < len,
            len == a@.len(),
            off@ == a@.subrange(start as int, i as int),
        decreases end + 1 - i,
    {
        off.push(a.nodes[i]);
        assert(off@ =~= a@.subrange(start as int, i + 1));
        i = i + 1;
    }
    let position = fill_from(&mut off, end - start + 1, &b.nodes, end + 1, len, end);
    fill_from(&mut off, position, &b.nodes, 0, end + 1, end);
    off
}

/// The two offspring of a crossover over the segment `[start, end]`: the
/// first keeps `genome1`'s segment and is filled from `genome2`, the second
/// keeps `genome2`'s segment and is filled from `genome1`.
pub fn crossover_2ofsprings(genome1: &Genome, genome2: &Genome, start: usize, end: usize) -> (r: (Genome, Genome))
    requires
        genome1@.len() == genome2@.len(),
        start < end < genome1@.len(),
    ensures
        r.0@ == crossover_child(genome1@, genome2@, start as int, end as int),
        r.1@ == crossover_child(genome2@, genome1@, start as int, end as int),
{
    let first = crossover(genome1, genome2, start, end);
    let second = crossover(genome2, genome1, start, end);
    (Genome::new(first), Genome::new(second))
}

/// An offspring holds its parent's segment and every point of the other
/// parent, and nothing else; each point once when the segment repeats none.
pub proof fn lemma_crossover_contents(a: Seq<Node>, b: Seq<Node>, start: int, end: int)
    requires
        a.len() == b.len(),
        0 <= start < end < a.len(),
    ensures
        forall|n: Node| crossover_child(a, b, start, end).contains(n)
            <==> (a.subrange(start, end + 1).contains(n) || b.contains(n)),
        a.subrange(start, end + 1).no_duplicates() ==> crossover_child(a, b, start, end).no_duplicates(),
{
    let seed = a.subrange(start, end + 1);
    let tail = b.subrange(end + 1, b.len() as int);
    let head = b.subrange(0, end + 1);
    lemma_fill_contents(seed, end - start + 1, tail, end);
    let seeded = fill(seed, end - start + 1, tail, end);
    lemma_fill_pos(seed, end - start + 1, tail, end);
    lemma_fill_contents(seeded.0, seeded.1, head, end);
    assert(b =~= head + tail);
    assert forall|n: Node| b.contains(n) <==> (head.contains(n) || tail.contains(n)) by {
        if b.contains(n) {
            let i = choose|i: int| 0 <= i < b.len() && b[i] == n;
            if i <= end {
                assert(head[i] == n);
            } else {
                assert(tail[i - end - 1] == n);
            }
        }
        if head.contains(n) {
            let i = choose|i: int| 0 <= i < head.len() && head[i] == n;
            assert(b[i] == n);
        }
        if tail.contains(n) {
            let i = choose|i: int| 0 <= i < tail.len() && tail[i] == n;
            assert(b[i + end + 1] == n);
        }
    }
}

/// When the parents visit the same distinct points, each offspring visits
/// each of those points exactly once: it is a reordering of the parents.
pub proof fn lemma_crossover_permutes(a: Seq<Node>, b: Seq<Node>, start: int, end: int)
    requires
        a.len() == b.len(),
        0 <= start < end < a.len(),
        a.no_duplicates(),
        b.to_multiset() == a.to_multiset(),
    ensures
        crossover_child(a, b, start, end).to_multiset() == a.to_multiset(),
        crossover_child(a, b, start, end).len() == a.len(),
        crossover_child(a, b, start, end).no_duplicates(),
{
    broadcast use vstd::seq_lib::group_to_multiset_ensures;

    let seed = a.subrange(start, end + 1);
    let child = crossover_child(a, b, start, end);
    assert(seed.no_duplicates()) by {
        assert forall|i: int, j: int| 0 <= i < seed.len() && 0 <= j < seed.len() && i != j implies seed[i] != seed[j] by {
            assert(seed[i] == a[start + i] && seed[j] == a[start + j]);
        }
    }
    lemma_crossover_contents(a, b, start, end);
    a.lemma_multiset_has_no_duplicates();
    child.lemma_multiset_has_no_duplicates();
    assert forall|n: Node| child.contains(n) <==> a.contains(n) by {
        if seed.contains(n) {
            let i = choose|i: int| 0 <= i < seed.len() && seed[i] == n;
            assert(a[start + i] == n);
        }
        assert(b.contains(n) <==> b.to_multiset().count(n) > 0);
        assert(a.contains(n) <==> a.to_multiset().count(n) > 0);
    }
    assert forall|n: Node| child.to_multiset().count(n) == a.to_multiset().count(n) by {
        assert(child.contains(n) <==> child.to_multiset().count(n) > 0);
        assert(a.contains(n) <==> a.to_multiset().count(n) > 0);
    }
    assert(child.to_multiset() =~= a.to_multiset());
    assert(child.to_multiset().len() == child.len());
    assert(a.to_multiset().len() == a.len());
}

/// How often filling leaves each point: as often as it was there before,
/// plus once for a scanned point that was not there yet.
pub proof fn lemma_fill_counts(off: Seq<Node>, pos: int, scan: Seq<Node>, end: int)
    requires
        0 <= pos <= off.len(),
        end > 0,
    ensures
        forall|n: Node|
            #[trigger] fill(off, pos, scan, end).0.to_multiset().count(n) == off.to_multiset().count(n)
                + (if !off.contains(n) && scan.contains(n) { 1int } else { 0int }),
    decreases scan.len(),
{
    broadcast use vstd::seq_lib::to_multiset_insert, vstd::seq_lib::group_to_multiset_ensures;

    if scan.len() == 0 {
        assert forall|n: Node| !scan.contains(n) by {}
    } else {
        let rest = scan.drop_first();
        assert forall|n: Node| scan.contains(n) <==> (n == scan[0] || rest.contains(n)) by {
            if scan.contains(n) {
                let i = choose|i: int| 0 <= i < scan.len() && scan[i] == n;
                if i > 0 {
                    assert(rest[i - 1] == n);
                }
            }
            if rest.contains(n) {
                let i = choose|i: int| 0 <= i < rest.len() && rest[i] == n;
                assert(scan[i + 1] == n);
            }
            if n == scan[0] {
                assert(scan[0] == n);
            }
        }
        if off.contains(scan[0]) {
            lemma_fill_counts(off, pos, rest, end);
            assert(fill(off, pos, scan, end) == fill(off, pos, rest, end));
            assert forall|n: Node|
                #[trigger] fill(off, pos, scan, end).0.to_multiset().count(n) == off.to_multiset().count(n)
                    + (if !off.contains(n) && scan.contains(n) { 1int } else { 0int }) by {
                assert(fill(off, pos, rest, end).0.to_multiset().count(n) == off.to_multiset().count(n)
                    + (if !off.contains(n) && rest.contains(n) { 1int } else { 0int }));
            }
        } else {
            let grown = off.insert(pos, scan[0]);
            assert(fill(off, pos, scan, end) == fill(grown, (pos + 1) % end, rest, end));
            assert(grown.to_multiset() == off.to_multiset().insert(scan[0]));
            assert forall|n: Node| grown.contains(n) <==> (off.contains(n) || n == scan[0]) by {
                assert(grown.contains(n) <==> grown.to_multiset().count(n) > 0);
                assert(off.contains(n) <==> off.to_multiset().count(n) > 0);
            }
            assert(0 <= (pos + 1) % end <= pos + 1) by {
                vstd::arithmetic::div_mod::lemma_mod_bound(pos + 1, end);
                vstd::arithmetic::div_mod::lemma_mod_decreases((pos + 1) as nat, end as nat);
            }
            lemma_fill_counts(grown, (pos + 1) % end, rest, end);
            assert forall|n: Node|
                #[trigger] fill(off, pos, scan, end).0.to_multiset().count(n) == off.to_multiset().count(n)
                    + (if !off.contains(n) && scan.contains(n) { 1int } else { 0int }) by {
                assert(off.contains(n) <==> off.to_multiset().count(n) > 0);
                assert(fill(grown, (pos + 1) % end, rest, end).0.to_multiset().count(n) == grown.to_multiset().count(n)
                    + (if !grown.contains(n) && rest.contains(n) { 1int } else { 0int }));
                assert(grown.to_multiset().count(n) == off.to_multiset().count(n) + (if n == scan[0] { 1int } else { 0int }));
            }
        }
    }
}

/// How often an offspring holds each point: as often as its parent's
/// segment does, plus once for each point of the other parent that the
/// segment lacks. Repeated points in the parents are allowed.
pub proof fn lemma_crossover_counts(a: Seq<Node>, b: Seq<Node>, start: int, end: int)
    requires
        a.len() == b.len(),
        0 <= start < end < a.len(),
    ensures
        forall|n: Node|
            #[trigger] crossover_child(a, b, start, end).to_multiset().count(n) == a.subrange(start, end + 1).to_multiset().count(n)
                + (if !a.subrange(start, end + 1).contains(n) && b.contains(n) { 1int } else { 0int }),
{
    let seed = a.subrange(start, end + 1);
    let tail = b.subrange(end + 1, b.len() as int);
    let head = b.subrange(0, end + 1);
    let seeded = fill(seed, end - start + 1, tail, end);
    lemma_fill_counts(seed, end - start + 1, tail, end);
    lemma_fill_contents(seed, end - start + 1, tail, end);
    lemma_fill_pos(seed, end - start + 1, tail, end);
    lemma_fill_counts(seeded.0, seeded.1, head, end);
    assert forall|n: Node| b.contains(n) <==> (head.contains(n) || tail.contains(n)) by {
        if b.contains(n) {
            let i = choose|i: int| 0 <= i < b.len() && b[i] == n;
            if i <= end {
                assert(head[i] == n);
            } else {
                assert(tail[i - end - 1] == n);
            }
        }
        if head.contains(n) {
            let i = choose|i: int| 0 <= i < head.len() && head[i] == n;
            assert(b[i] == n);
        }
        if tail.contains(n) {
            let i = choose|i: int| 0 <= i < tail.len() && tail[i] == n;
            assert(b[i + end + 1] == n);
        }
    }
    assert forall|n: Node|
        #[trigger] crossover_child(a, b, start, end).to_multiset().count(n) == seed.to_multiset().count(n)
            + (if !seed.contains(n) && b.contains(n) { 1int } else { 0int }) by {
        assert(seeded.0.to_multiset().count(n) == seed.to_multiset().count(n)
            + (if !seed.contains(n) && tail.contains(n) { 1int } else { 0int }));
        assert(seeded.0.contains(n) <==> (seed.contains(n) || tail.contains(n)));
    }
}

/// The cursor of a fill stays within the sequence being filled.
proof fn lemma_fill_pos(off: Seq<Node>, pos: int, scan: Seq<Node>, end: int)
    requires
        0 <= pos <= off.len(),
        end > 0,
    ensures
        0 <= fill(off, pos, scan, end).1 <= fill(off, pos, scan, end).0.len(),
    decreases scan.len(),
{
    if scan.len() > 0 {
        if off.contains(scan[0]) {
            lemma_fill_pos(off, pos, scan.drop_first(), end);
        } else {
            assert(0 <= (pos + 1) % end <= pos + 1) by {
                vstd::arithmetic::div_mod::lemma_mod_bound(pos + 1, end);
                vstd::arithmetic::div_mod::lemma_mod_decreases((pos + 1) as nat, end as nat);
            }
            lemma_fill_pos(off.insert(pos, scan[0]), (pos + 1) % end, scan.drop_first(), end);
        }
    }
}

/// No two pairs of `pairs` name the same two positions in the same order.
pub open spec fn pairs_distinct(pairs: Seq<[usize; 2]>) -> bool {
    forall|a: int, b: int|
        0 <= a < pairs.len() && 0 <= b < pairs.len() && a != b
            ==> (pairs[a]@[0] != pairs[b]@[0] || pairs[a]@[1] != pairs[b]@[1])
}

/// `new` is `old` after `count` swaps at distinct pairs of its positions.
pub open spec fn swapped_from(new: Seq<Node>, old: Seq<Node>, count: nat) -> bool {
    exists|pairs: Seq<[usize; 2]>|
        pairs.len() == count && pairs_in_range(pairs, old.len() as int) && pairs_distinct(pairs)
            && new == apply_swaps(old, pairs)
}

/// Swapping only reorders: a tour keeps its points through any swaps.
pub proof fn lemma_swaps_keep_points(s: Seq<Node>, pairs: Seq<[usize; 2]>)
    requires
        pairs_in_range(pairs, s.len() as int),
    ensures
        apply_swaps(s, pairs).to_multiset() == s.to_multiset(),
        apply_swaps(s, pairs).len() == s.len(),
    decreases pairs.len(),
{
    broadcast use vstd::seq_lib::to_multiset_update, vstd::seq_lib::group_to_multiset_ensures;
    if pairs.len() > 0 {
        let i = pairs[0]@[0] as int;
        let j = pairs[0]@[1] as int;
        let once = s.update(i, s[j]);
        let swapped = once.update(j, s[i]);
        assert(once.to_multiset() == s.to_multiset().insert(s[j]).remove(s[i]));
        assert(swapped.to_multiset() == once.to_multiset().insert(s[i]).remove(once[j]));
        assert(s.contains(s[i]));
        assert(s.to_multiset().count(s[i]) > 0);
        assert(swapped.to_multiset() =~= s.to_multiset());
        assert(pairs_in_range(pairs.drop_first(), s.len() as int)) by {
            assert forall|k: int| 0 <= k < pairs.drop_first().len() implies
                pairs.drop_first()[k]@[0] < s.len() && pairs.drop_first()[k]@[1] < s.len() by {
                assert(pairs.drop_first()[k] == pairs[k + 1]);
            }
        }
        lemma_swaps_keep_points(swapped, pairs.drop_first());
    }
}

/// A code of `[0, w * w)` names the pair `(code / w, code % w)`, and distinct
/// codes name distinct pairs.
proof fn lemma_code_pair(c1: int, c2: int, w: int)
    requires
        w > 0,
        0 <= c1 < w * w,
        0 <= c2 < w * w,
    ensures
        0 <= c1 / w < w,
        0 <= c1 % w < w,
        (c1 / w == c2 / w && c1 % w == c2 % w) ==> c1 == c2,
{
    vstd::arithmetic::div_mod::lemma_fundamental_div_mod(c1, w);
    vstd::arithmetic::div_mod::lemma_fundamental_div_mod(c2, w);
    vstd::arithmetic::div_mod::lemma_multiply_divide_lt(c1, w, w);
    vstd::arithmetic::div_mod::lemma_div_pos_is_pos(c1, w);
    vstd::arithmetic::div_mod::lemma_mod_bound(c1, w);
}

/// The points of a tour rendered one after the other, each followed by ` | `.
pub open spec fn nodes_text(s: Seq<Node>) -> Seq<char>
    decreases s.len(),
{
    if s.len() == 0 {
        Seq::empty()
    } else {
        nodes_text(s.drop_last()) + s.last().text() + seq![' ', '|', ' ']
    }
}

/// The rendering of a tour: `Genome: ` and then its points.
pub open spec fn genome_text(s: Seq<Node>) -> Seq<char> {
    seq!['G', 'e', 'n', 'o', 'm', 'e', ':', ' '] + nodes_text(s)
}

/// Whether all tours of a non-empty list have as many points as the first.
pub fn same_len(population: &Vec<Genome>) -> (r: bool)
    requires
        population@.len() > 0,
    ensures
        r == (forall|k: int| 0 <= k < population@.len() ==> #[trigger] population@[k]@.len() == population@[0]@.len()),
{
    let first_len = population[0].get_len();
    let mut i: usize = 1;
    while i < population.len()
        invariant
            1 <= i <= population@.len(),
            first_len == population@[0]@.len(),
            forall|k: int| 0 <= k < i ==> #[trigger] population@[k]@.len() == first_len,
        decreases population@.len() - i,
    {
        if population[i].get_len() != first_len {
            return false;
        }
        i = i + 1;
    }
    true
}

/// Recording a freshly drawn code: when `taken` holds the earlier codes and
/// the new one, it holds exactly the codes drawn so far, and the new code
/// differs from every earlier one.
proof fn lemma_record_code(taken: Seq<u128>, codes: Seq<u128>, c: u128)
    requires
        forall|x: u128| taken.contains(x) <==> (codes.contains(x) || x == c),
        !codes.contains(c),
    ensures
        forall|x: u128| taken.contains(x) <==> codes.push(c).contains(x),
        forall|k: int| 0 <= k < codes.len() ==> codes.push(c)[k] != c,
{
    let all = codes.push(c);
    assert forall|x: u128| taken.contains(x) <==> all.contains(x) by {
        if all.contains(x) {
            let k = choose|k: int| 0 <= k < all.len() && all[k] == x;
            if k < codes.len() {
                assert(codes[k] == x);
            }
        }
        if codes.contains(x) {
            let k = choose|k: int| 0 <= k < codes.len() && codes[k] == x;
            assert(all[k] == x);
        }
        if x == c {
            assert(all[codes.len() as int] == x);
        }
    }
    assert forall|k: int| 0 <= k < codes.len() implies all[k] != c by {
        assert(codes[k] == all[k]);
        assert(codes.contains(codes[k]));
    }
}

impl Genome {
    /// A tour over the given points, in the given order.
    pub fn new(nodes: Vec<Node>) -> (r: Genome)
        ensures
            r@ == nodes@,
    {
        Genome { nodes }
    }

    pub fn get_len(&self) -> (r: usize)
        ensures
            r == self@.len(),
    {
        self.nodes.len()
    }

    /// A copy of the points, in tour order.
    pub fn get_nodes(&self) -> (r: Vec<Node>)
        ensures
            r@ == self@,
    {
        let mut r: Vec<Node> = Vec::new();
        let mut i: usize = 0;
        while i < self.nodes.len()
            invariant
                i <= self@.len(),
                r@ == self@.subrange(0, i as int),
            decreases self@.len() - i,
        {
            r.push(self.nodes[i]);
            i = i + 1;
        }
        assert(r@ =~= self@);
        r
    }

    /// A tour equal to this one.
    pub fn duplicate(&self) -> (r: Genome)
        ensures
            r@ == self@,
    {
        Genome { nodes: self.get_nodes() }
    }

    /// Whether two tours visit the same points in the same order.
    pub fn same_as(&self, other: &Genome) -> (r: bool)
        ensures
            r == (self@ == other@),
    {
        if self.nodes.len() != other.nodes.len() {
            return false;
        }
        let mut i: usize = 0;
        while i < self.nodes.len()
            invariant
                self@.len() == other@.len(),
                i <= self@.len(),
                forall|k: int| 0 <= k < i ==> self@[k] == other@[k],
            decreases self@.len() - i,
        {
            if self.nodes[i] != other.nodes[i] {
                return false;
            }
            i = i + 1;
        }
        assert(self@ =~= other@);
        true
    }

    /// `n` pairs of positions, each drawn uniformly among the pairs not drawn
    /// before; the two positions of one pair may coincide.
    fn pick_mutations(&self, n: u32) -> (r: Vec<[usize; 2]>)
        requires
            n <= self@.len() * self@.len(),
        ensures
            r@.len() == n,
            pairs_in_range(r@, self@.len() as int),
            pairs_distinct(r@),
    {
        let len = self.nodes.len();
        assert((len as u128) * (len as u128) <= u128::MAX) by (nonlinear_arith)
            requires
                len <= u64::MAX,
        ;
        let universe: u128 = (len as u128) * (len as u128);
        let mut taken: Vec<u128> = Vec::new();
        let mut result: Vec<[usize; 2]> = Vec::new();
        let ghost mut codes: Seq<u128> = Seq::empty();
        let mut i: u32 = 0;
        while i < n
            invariant
                len == self@.len(),
                universe == len * len,
                n <= universe,
                i <= n,
                result@.len() == i,
                codes.len() == i,
                taken@.len() == i,
                strictly_sorted(taken@),
                forall|k: int| 0 <= k < taken@.len() ==> taken@[k] < universe,
                forall|c: u128| taken@.contains(c) <==> codes.contains(c),
                forall|k: int|
                    0 <= k < i ==> codes[k] < universe && result@[k]@[0] == codes[k] / (len as u128)
                        && result@[k]@[1] == codes[k] % (len as u128),
                forall|a: int, b: int| 0 <= a < i && 0 <= b < i && a != b ==> codes[a] != codes[b],
            decreases n - i,
        {
            assert(len > 0) by (nonlinear_arith)
                requires
                    universe == len * len,
                    universe > 0,
            ;
            let c = draw_free_code(&mut taken, universe);
            let pair: [usize; 2] = [(c / (len as u128)) as usize, (c % (len as u128)) as usize];
            proof {
                lemma_code_pair(c as int, c as int, len as int);
            }
            result.push(pair);
            proof {
                let old_codes = codes;
                codes = codes.push(c);
                lemma_record_code(taken@, old_codes, c);
            }
            i = i + 1;
        }
        proof {
            assert forall|k: int| 0 <= k < result@.len() implies result@[k]@[0] < len && result@[k]@[1] < len by {
                lemma_code_pair(codes[k] as int, codes[k] as int, len as int);
            }
            assert forall|a: int, b: int|
                0 <= a < result@.len() && 0 <= b < result@.len() && a != b implies (result@[a]@[0]
                    != result@[b]@[0] || result@[a]@[1] != result@[b]@[1]) by {
                lemma_code_pair(codes[a] as int, codes[b] as int, len as int);
            }
        }
        result
    }

    /// Swaps the points of `n` distinct pairs of positions drawn at random,
    /// in the order drawn. The tour keeps its points.
    pub fn mutate_random(&mut self, n: u32)
        requires
            n <= old(self)@.len() * old(self)@.len(),
        ensures
            swapped_from(final(self)@, old(self)@, n as nat),
            final(self)@.to_multiset() == old(self)@.to_multiset(),
            final(self)@.len() == old(self)@.len(),
    {
        let mutations = self.pick_mutations(n);
        let ghost pairs = mutations@;
        self.mutate(mutations);
        proof {
            lemma_swaps_keep_points(old(self)@, pairs);
        }
    }

    /// A tour of `len` distinct points, each with coordinates in `[min, max)`,
    /// drawn one after the other, each uniformly among the points not taken yet.
    pub fn new_random(len: usize, min: u64, max: u64) -> (r: Genome)
        requires
            len > 0 ==> min < max && max <= 0x8000_0000_0000_0000u64 && len <= (max - min) * (max - min),
        ensures
            r@.len() == len,
            r@.no_duplicates(),
            forall|k: int|
                0 <= k < len ==> min <= (#[trigger] r@[k]).x_spec() < max && min <= r@[k].y_spec() < max,
    {
        let mut nodes: Vec<Node> = Vec::new();
        if len == 0 {
            return Genome { nodes };
        }
        let width: u128 = (max - min) as u128;
        assert(width * width <= u128::MAX) by (nonlinear_arith)
            requires
                width <= u64::MAX,
        ;
        let universe: u128 = width * width;
        let mut taken: Vec<u128> = Vec::new();
        let ghost mut codes: Seq<u128> = Seq::empty();
        let mut i: usize = 0;
        while i < len
            invariant
                width == max - min,
                width > 0,
                max <= 0x8000_0000_0000_0000u64,
                universe == width * width,
                len <= universe,
                i <= len,
                nodes@.len() == i,
                codes.len() == i,
                taken@.len() == i,
                strictly_sorted(taken@),
                forall|k: int| 0 <= k < taken@.len() ==> taken@[k] < universe,
                forall|c: u128| taken@.contains(c) <==> codes.contains(c),
                forall|k: int|
                    0 <= k < i ==> codes[k] < universe && nodes@[k].x_spec() == min + codes[k] % width
                        && nodes@[k].y_spec() == min + codes[k] / width,
                forall|a: int, b: int| 0 <= a < i && 0 <= b < i && a != b ==> codes[a] != codes[b],
            decreases len - i,
        {
            let c = draw_free_code(&mut taken, universe);
            proof {
                lemma_code_pair(c as int, c as int, width as int);
            }
            let node = Node::new((min as u128 + c % width) as i64, (min as u128 + c / width) as i64);
            nodes.push(node);
            proof {
                let old_codes = codes;
                codes = codes.push(c);
                lemma_record_code(taken@, old_codes, c);
            }
            i = i + 1;
        }
        proof {
            assert forall|k: int| 0 <= k < len implies min <= (#[trigger] nodes@[k]).x_spec() < max && min
                <= nodes@[k].y_spec() < max by {
                lemma_code_pair(codes[k] as int, codes[k] as int, width as int);
            }
            assert forall|a: int, b: int| 0 <= a < nodes@.len() && 0 <= b < nodes@.len() && a != b implies nodes@[a]
                != nodes@[b] by {
                lemma_code_pair(codes[a] as int, codes[b] as int, width as int);
            }
        }
        Genome { nodes }
    }

    /// The tour written as `Genome: ` and then `(x , y) | ` for each point.
    pub fn as_string(&self) -> (r: String)
        ensures
            r@ == genome_text(self@),
    {
        let mut result = <String as StringExecFns>::from_str("Genome: ");
        proof {
            reveal_strlit("Genome: ");
            reveal_strlit(" | ");
        }
        let mut i: usize = 0;
        assert(self@.subrange(0, 0) =~= Seq::<Node>::empty());
        while i < self.nodes.len()
            invariant
                i <= self@.len(),
                result@ == genome_text(self@.subrange(0, i as int)),
            decreases self@.len() - i,
        {
            let part = self.nodes[i].as_string();
            let ghost before = result@;
            result.append(part.as_str());
            result.append(" | ");
            proof {
                reveal_strlit(" | ");
            }
            assert(result@ =~= before + self@[i as int].text() + seq![' ', '|', ' ']);
            let ghost next = self@.subrange(0, i + 1);
            assert(next.drop_last() =~= self@.subrange(0, i as int));
            assert(next.last() == self@[i as int]);
            assert(result@ =~= genome_text(next));
            i = i + 1;
        }
        assert(self@.subrange(0, i as int) =~= self@);
        result
    }

    /// Exchanges the points at the two positions of each pair, pair after pair.
    pub fn mutate(&mut self, mutations: Vec<[usize; 2]>)
        requires
            pairs_in_range(mutations@, old(self)@.len() as int),
        ensures
            final(self)@ == apply_swaps(old(self)@, mutations@),
    {
        let mut k: usize = 0;
        assert(mutations@.subrange(0, mutations@.len() as int) =~= mutations@);
        while k < mutations.len()
            invariant
                k <= mutations@.len(),
                self@.len() == old(self)@.len(),
                pairs_in_range(mutations@, old(self)@.len() as int),
                apply_swaps(self@, mutations@.subrange(k as int, mutations@.len() as int))
                    == apply_swaps(old(self)@, mutations@),
            decreases mutations@.len() - k,
        {
            let pair = mutations[k];
            let i = pair[0];
            let j = pair[1];
            let a = self.nodes[i];
            let b = self.nodes[j];
            let ghost before = self@;
            self.nodes.set(i, b);
            self.nodes.set(j, a);
            assert(self@ =~= swap_at(before, i as int, j as int));
            assert(mutations@.subrange(k as int, mutations@.len() as int).drop_first()
                =~= mutations@.subrange(k + 1, mutations@.len() as int));
            k = k + 1;
        }
        assert(mutations@.subrange(k as int, mutations@.len() as int) =~= Seq::<[usize; 2]>::empty());
    }
}

} // verus!
