//! The flood fill as small steps on a ghost state: the four invariants the
//! steps keep, one lemma for each step and invariant, and what the
//! invariants yield once every cell has been scanned.

use vstd::prelude::*;
use crate::bvh::Direction;
use crate::math::LineSegment;
use crate::scene::grid::{
    Grid, MAX_DIM, dir_rank, lemma_connected_refl, lemma_connected_step, lemma_connected_sym,
    lemma_connected_trans, lemma_edge_total_full, lemma_edge_total_step, lemma_neighbour,
    lemma_segment_injective, opposite,
};
use crate::scene::occupancy_map::ObjectTag;

verus! {

/// The segment is the edge of a side that has been looked at.
pub open spec fn from_edge(g: Grid, progress: Seq<int>, seg: LineSegment) -> bool {
    exists|k: int, d: Direction|
        0 <= k < g.cells() && dir_rank(d) < progress[k] && g.is_edge(k, d) && seg
            == #[trigger] g.segment_of(k, d)
}

/// The tag numbered `c`.
pub open spec fn tag(c: int) -> Option<ObjectTag> {
    Some(ObjectTag(c as u64))
}

/// The cell waits on the stack.
pub open spec fn waits(pending: Seq<int>, k: int) -> bool {
    exists|i: int| 0 <= i < pending.len() && #[trigger] pending[i] == k
}

/// Labels are sound: a labelled cell is occupied, reachable from the seed of
/// its tag and not before it; seeds come in scan order; and every occupied
/// cell below `scanned` is labelled.
#[verifier::opaque]
pub open spec fn labels_inv(
    g: Grid,
    labels: Seq<Option<ObjectTag>>,
    seeds: Seq<int>,
    scanned: int,
) -> bool {
    &&& labels.len() == g.cells()
    &&& seeds.len() <= scanned
    &&& forall|k: int|
        0 <= k < g.cells() && (#[trigger] labels[k]) is Some ==> {
            &&& g.pixels[k]
            &&& labels[k]->Some_0.0 < seeds.len()
            &&& g.connected(seeds[labels[k]->Some_0.0 as int], k)
            &&& seeds[labels[k]->Some_0.0 as int] <= k
        }
    &&& forall|u: int|
        0 <= u < seeds.len() ==> {
            &&& u <= (#[trigger] seeds[u]) < scanned
            &&& labels[seeds[u]] == tag(u)
        }
    &&& forall|u: int, v: int| 0 <= u < v < seeds.len() ==> seeds[u] < seeds[v]
    &&& 0 <= scanned <= g.cells()
    &&& g.cells() <= usize::MAX
    &&& forall|k: int| 0 <= k < scanned && g.pixels[k] ==> (#[trigger] labels[k]) is Some
}

/// Each labelled cell is done, waiting, or being looked at; the waiting
/// cells and the current one carry the newest tag.
#[verifier::opaque]
pub open spec fn progress_inv(
    g: Grid,
    labels: Seq<Option<ObjectTag>>,
    progress: Seq<int>,
    pending: Seq<int>,
    cur: Option<int>,
    count: int,
) -> bool {
    &&& labels.len() == g.cells()
    &&& progress.len() == g.cells()
    &&& forall|k: int| 0 <= k < g.cells() ==> 0 <= (#[trigger] progress[k]) <= 4
    &&& forall|k: int| 0 <= k < g.cells() && labels[k] is None ==> #[trigger] progress[k] == 0
    &&& forall|k: int|
        0 <= k < g.cells() && labels[k] is Some && (#[trigger] progress[k]) < 4 ==> waits(pending, k)
            || cur == Some(k)
    &&& forall|i: int|
        0 <= i < pending.len() ==> {
            &&& 0 <= (#[trigger] pending[i]) < g.cells()
            &&& labels[pending[i]] == tag(count - 1)
            &&& progress[pending[i]] == 0
        }
    &&& cur matches Some(c) ==> 0 <= c < g.cells() && labels[c] == tag(count - 1)
    &&& pending.no_duplicates()
}

/// Across every side looked at, occupied neighbours share the label.
#[verifier::opaque]
pub open spec fn closure_inv(g: Grid, labels: Seq<Option<ObjectTag>>, progress: Seq<int>) -> bool {
    &&& labels.len() == g.cells()
    &&& progress.len() == g.cells()
    &&& forall|k: int, d: Direction|
        0 <= k < g.cells() && labels[k] is Some && dir_rank(d) < progress[k] && (
        #[trigger] g.neighbour(k, d)) is Some && g.pixels[g.neighbour(k, d)->Some_0]
            ==> labels[g.neighbour(k, d)->Some_0] == labels[k]
}

/// The emitted segments are the edges of the sides looked at, each once.
#[verifier::opaque]
pub open spec fn edges_inv(g: Grid, progress: Seq<int>, emitted: Seq<LineSegment>) -> bool {
    &&& progress.len() == g.cells()
    &&& forall|i: int| 0 <= i < emitted.len() ==> from_edge(g, progress, #[trigger] emitted[i])
    &&& forall|k: int, d: Direction|
        0 <= k < g.cells() && dir_rank(d) < progress[k] && g.is_edge(k, d) ==> emitted.contains(
            #[trigger] g.segment_of(k, d),
        )
    &&& emitted.no_duplicates()
    &&& emitted.len() == g.edge_total(progress, g.cells())
}

/// The grid has cells and its corners fit the lattice.
pub open spec fn grid_fits(g: Grid) -> bool {
    g.ok() && g.w <= MAX_DIM && g.h <= MAX_DIM && g.cells() <= usize::MAX
}

/// Where no side has been looked at, no edge is counted.
proof fn lemma_edge_total_zero(g: Grid, progress: Seq<int>, upto: int)
    requires
        0 <= upto <= progress.len(),
        forall|k: int| 0 <= k < upto ==> #[trigger] progress[k] == 0,
    ensures
        g.edge_total(progress, upto) == 0,
    decreases upto,
{
    if upto > 0 {
        lemma_edge_total_zero(g, progress, upto - 1);
    }
}

/// Before the scan nothing is labelled, looked at or emitted.
pub proof fn lemma_initial(g: Grid, labels: Seq<Option<ObjectTag>>, progress: Seq<int>)
    requires
        grid_fits(g),
        labels.len() == g.cells(),
        progress.len() == g.cells(),
        forall|k: int| 0 <= k < g.cells() ==> (#[trigger] labels[k]) is None,
        forall|k: int| 0 <= k < g.cells() ==> #[trigger] progress[k] == 0,
    ensures
        labels_inv(g, labels, Seq::empty(), 0),
        progress_inv(g, labels, progress, Seq::empty(), None, 0),
        closure_inv(g, labels, progress),
        edges_inv(g, progress, Seq::empty()),
{
    reveal(labels_inv);
    reveal(progress_inv);
    reveal(closure_inv);
    reveal(edges_inv);
    lemma_edge_total_zero(g, progress, g.cells());
}

/// The scan passes a cell that is free or labelled.
pub proof fn lemma_labels_advance(
    g: Grid,
    labels: Seq<Option<ObjectTag>>,
    seeds: Seq<int>,
    scanned: int,
)
    requires
        labels_inv(g, labels, seeds, scanned),
        scanned < g.cells(),
        !g.pixels[scanned] || labels[scanned] is Some,
    ensures
        labels_inv(g, labels, seeds, scanned + 1),
{
    reveal(labels_inv);
}

/// The scan meets an occupied cell without a label: it starts a new tag.
pub proof fn lemma_labels_seed(
    g: Grid,
    labels: Seq<Option<ObjectTag>>,
    seeds: Seq<int>,
    i: int,
)
    requires
        grid_fits(g),
        labels_inv(g, labels, seeds, i),
        i < g.cells(),
        g.pixels[i],
        labels[i] is None,
    ensures
        labels_inv(g, labels.update(i, tag(seeds.len() as int)), seeds.push(i), i + 1),
        seeds.len() <= i,
{
    reveal(labels_inv);
    let c = seeds.len() as int;
    let after = labels.update(i, tag(c));
    let grown = seeds.push(i);
    lemma_connected_refl(g, i);
    assert forall|k: int| 0 <= k < g.cells() && (#[trigger] after[k]) is Some implies {
        &&& g.pixels[k]
        &&& after[k]->Some_0.0 < grown.len()
        &&& g.connected(grown[after[k]->Some_0.0 as int], k)
        &&& grown[after[k]->Some_0.0 as int] <= k
    } by {
        if k != i {
            assert(labels[k] is Some);
        }
    }
    assert forall|u: int| 0 <= u < grown.len() implies {
        &&& u <= (#[trigger] grown[u]) < i + 1
        &&& after[grown[u]] == tag(u)
    } by {
        if u < c {
            assert(seeds[u] < i);
        }
    }
    assert forall|u: int, v: int| 0 <= u < v < grown.len() implies grown[u] < grown[v] by {
        if v == c {
            assert(seeds[u] < i);
        }
    }
    assert forall|k: int| 0 <= k < i + 1 && g.pixels[k] implies (#[trigger] after[k]) is Some by {
        if k < i {
            assert(labels[k] is Some);
        }
    }
}

/// An occupied, unlabelled neighbour `j` of a cell `k` that carries the
/// newest tag joins that tag.
pub proof fn lemma_labels_join(
    g: Grid,
    labels: Seq<Option<ObjectTag>>,
    seeds: Seq<int>,
    scanned: int,
    k: int,
    d: Direction,
)
    requires
        grid_fits(g),
        labels_inv(g, labels, seeds, scanned),
        0 <= k < g.cells(),
        seeds.len() > 0,
        labels[k] == tag(seeds.len() - 1),
        g.neighbour(k, d) is Some,
        g.pixels[g.neighbour(k, d)->Some_0],
        labels[g.neighbour(k, d)->Some_0] is None,
    ensures
        labels_inv(
            g,
            labels.update(g.neighbour(k, d)->Some_0, tag(seeds.len() - 1)),
            seeds,
            scanned,
        ),
{
    reveal(labels_inv);
    let j = g.neighbour(k, d)->Some_0;
    lemma_neighbour(g, k, d);
    let c = seeds.len() - 1;
    let after = labels.update(j, tag(c));
    assert(labels[k] is Some);
    assert(g.connected(seeds[c], k));
    assert(g.adjacent(k, j));
    lemma_connected_step(g, seeds[c], k, j);
    assert(seeds[c] < scanned);
    assert(j >= scanned);
    assert forall|q: int| 0 <= q < g.cells() && (#[trigger] after[q]) is Some implies {
        &&& g.pixels[q]
        &&& after[q]->Some_0.0 < seeds.len()
        &&& g.connected(seeds[after[q]->Some_0.0 as int], q)
        &&& seeds[after[q]->Some_0.0 as int] <= q
    } by {
        if q != j {
            assert(labels[q] is Some);
        }
    }
    assert forall|u: int| 0 <= u < seeds.len() implies {
        &&& u <= (#[trigger] seeds[u]) < scanned
        &&& after[seeds[u]] == tag(u)
    } by {
        assert(seeds[u] < scanned);
    }
    assert forall|q: int| 0 <= q < scanned && g.pixels[q] implies (#[trigger] after[q]) is Some by {
        assert(labels[q] is Some);
    }
}

/// The cell that starts a new tag waits alone.
pub proof fn lemma_progress_seed(
    g: Grid,
    labels: Seq<Option<ObjectTag>>,
    progress: Seq<int>,
    count: int,
    i: int,
)
    requires
        progress_inv(g, labels, progress, Seq::empty(), None, count),
        0 <= i < g.cells(),
        labels[i] is None,
    ensures
        progress_inv(
            g,
            labels.update(i, tag(count)),
            progress,
            Seq::<int>::empty().push(i),
            None,
            count + 1,
        ),
{
    reveal(progress_inv);
    let after = labels.update(i, tag(count));
    let pending = Seq::<int>::empty().push(i);
    assert(pending[0] == i);
    assert(progress[i] == 0);
    assert forall|k: int|
        0 <= k < g.cells() && after[k] is Some && (#[trigger] progress[k]) < 4 implies waits(
        pending,
        k,
    ) || None::<int> == Some(k) by {
        if k != i {
            assert(labels[k] is Some);
            assert(!waits(Seq::<int>::empty(), k));
        }
    }
}

/// The last waiting cell is taken up: it is labelled with the newest tag and
/// none of its sides has been looked at.
pub proof fn lemma_progress_pop(
    g: Grid,
    labels: Seq<Option<ObjectTag>>,
    progress: Seq<int>,
    pending: Seq<int>,
    count: int,
)
    requires
        progress_inv(g, labels, progress, pending, None, count),
        pending.len() > 0,
    ensures
        progress_inv(g, labels, progress, pending.drop_last(), Some(pending.last()), count),
        progress[pending.last()] == 0,
        0 <= pending.last() < g.cells(),
        labels[pending.last()] == tag(count - 1),
        !waits(pending.drop_last(), pending.last()),
{
    reveal(progress_inv);
    let k = pending.last();
    let rest = pending.drop_last();
    assert(pending[pending.len() - 1] == k);
    assert forall|q: int|
        0 <= q < g.cells() && labels[q] is Some && (#[trigger] progress[q]) < 4 implies waits(rest, q)
        || Some(k) == Some(q) by {
        if q != k {
            assert(waits(pending, q));
            let i = choose|i: int| 0 <= i < pending.len() && #[trigger] pending[i] == q;
            assert(rest[i] == q);
        }
    }
    assert forall|i: int| 0 <= i < rest.len() implies {
        &&& 0 <= (#[trigger] rest[i]) < g.cells()
        &&& labels[rest[i]] == tag(count - 1)
        &&& progress[rest[i]] == 0
    } by {
        assert(rest[i] == pending[i]);
    }
}

/// One more side of the current cell has been looked at.
pub proof fn lemma_progress_side(
    g: Grid,
    labels: Seq<Option<ObjectTag>>,
    progress: Seq<int>,
    pending: Seq<int>,
    k: int,
    count: int,
)
    requires
        progress_inv(g, labels, progress, pending, Some(k), count),
        progress[k] < 4,
        !waits(pending, k),
    ensures
        progress_inv(g, labels, progress.update(k, progress[k] + 1), pending, Some(k), count),
{
    reveal(progress_inv);
    let after = progress.update(k, progress[k] + 1);
    assert forall|q: int| 0 <= q < g.cells() implies 0 <= (#[trigger] after[q]) <= 4 by {
        assert(0 <= progress[q] <= 4);
    }
    assert forall|q: int| 0 <= q < g.cells() && labels[q] is None implies #[trigger] after[q]
        == 0 by {
        assert(progress[q] == 0);
    }
    assert forall|q: int|
        0 <= q < g.cells() && labels[q] is Some && (#[trigger] after[q]) < 4 implies waits(pending, q)
        || Some(k) == Some(q) by {
        if q != k {
            assert(progress[q] < 4);
        }
    }
    assert forall|i: int| 0 <= i < pending.len() implies {
        &&& 0 <= (#[trigger] pending[i]) < g.cells()
        &&& labels[pending[i]] == tag(count - 1)
        &&& after[pending[i]] == 0
    } by {
        assert(pending[i] != k);
        assert(progress[pending[i]] == 0);
    }
}

/// An unlabelled cell gets the newest tag and waits.
pub proof fn lemma_progress_push(
    g: Grid,
    labels: Seq<Option<ObjectTag>>,
    progress: Seq<int>,
    pending: Seq<int>,
    cur: Option<int>,
    count: int,
    j: int,
)
    requires
        progress_inv(g, labels, progress, pending, cur, count),
        0 <= j < g.cells(),
        labels[j] is None,
    ensures
        progress_inv(g, labels.update(j, tag(count - 1)), progress, pending.push(j), cur, count),
        !waits(pending, j),
        cur != Some(j),
        progress[j] == 0,
{
    reveal(progress_inv);
    let after = labels.update(j, tag(count - 1));
    let grown = pending.push(j);
    assert(progress[j] == 0);
    if waits(pending, j) {
        let i = choose|i: int| 0 <= i < pending.len() && #[trigger] pending[i] == j;
        assert(labels[pending[i]] is Some);
    }
    assert forall|q: int|
        0 <= q < g.cells() && after[q] is Some && (#[trigger] progress[q]) < 4 implies waits(grown, q)
        || cur == Some(q) by {
        if q == j {
            assert(grown[pending.len() as int] == j);
        } else {
            assert(labels[q] is Some);
            if waits(pending, q) {
                let i = choose|i: int| 0 <= i < pending.len() && #[trigger] pending[i] == q;
                assert(grown[i] == q);
            }
        }
    }
    assert forall|i: int| 0 <= i < grown.len() implies {
        &&& 0 <= (#[trigger] grown[i]) < g.cells()
        &&& after[grown[i]] == tag(count - 1)
        &&& progress[grown[i]] == 0
    } by {
        if i < pending.len() {
            assert(grown[i] == pending[i]);
        }
    }
}

/// The current cell is done once its four sides have been looked at.
pub proof fn lemma_progress_finish(
    g: Grid,
    labels: Seq<Option<ObjectTag>>,
    progress: Seq<int>,
    pending: Seq<int>,
    k: int,
    count: int,
)
    requires
        progress_inv(g, labels, progress, pending, Some(k), count),
        progress[k] == 4,
    ensures
        progress_inv(g, labels, progress, pending, None, count),
{
    reveal(progress_inv);
}

/// Nothing waits and nothing is being looked at: every labelled cell is done.
pub proof fn lemma_progress_idle(
    g: Grid,
    labels: Seq<Option<ObjectTag>>,
    progress: Seq<int>,
    count: int,
)
    requires
        progress_inv(g, labels, progress, Seq::empty(), None, count),
    ensures
        forall|k: int| 0 <= k < g.cells() && labels[k] is Some ==> #[trigger] progress[k] == 4,
        forall|k: int| 0 <= k < g.cells() && labels[k] is None ==> #[trigger] progress[k] == 0,
{
    reveal(progress_inv);
    assert forall|k: int| 0 <= k < g.cells() && labels[k] is Some implies #[trigger] progress[k]
        == 4 by {
        assert(0 <= progress[k] <= 4);
        assert(!waits(Seq::<int>::empty(), k));
    }
}

/// A labelled, occupied neighbour of the current cell carries its label.
pub proof fn lemma_neighbour_label(
    g: Grid,
    labels: Seq<Option<ObjectTag>>,
    progress: Seq<int>,
    pending: Seq<int>,
    k: int,
    count: int,
    d: Direction,
)
    requires
        grid_fits(g),
        progress_inv(g, labels, progress, pending, Some(k), count),
        closure_inv(g, labels, progress),
        g.pixels[k],
        g.neighbour(k, d) is Some,
        g.pixels[g.neighbour(k, d)->Some_0],
        labels[g.neighbour(k, d)->Some_0] is Some,
    ensures
        labels[g.neighbour(k, d)->Some_0] == labels[k],
{
    reveal(progress_inv);
    reveal(closure_inv);
    let j = g.neighbour(k, d)->Some_0;
    lemma_neighbour(g, k, d);
    assert(0 <= progress[j] <= 4);
    if progress[j] == 4 {
        assert(g.neighbour(j, opposite(d)) == Some(k));
        assert(dir_rank(opposite(d)) < progress[j]);
        assert(labels[g.neighbour(j, opposite(d))->Some_0] == labels[j]);
    } else {
        assert(waits(pending, j));
        let i = choose|i: int| 0 <= i < pending.len() && #[trigger] pending[i] == j;
        assert(labels[pending[i]] == tag(count - 1));
    }
}

/// Looking at a side across which the labels agree, or which has no
/// occupied neighbour.
pub proof fn lemma_closure_side(
    g: Grid,
    labels: Seq<Option<ObjectTag>>,
    progress: Seq<int>,
    k: int,
    d: Direction,
)
    requires
        closure_inv(g, labels, progress),
        0 <= k < g.cells(),
        progress[k] == dir_rank(d),
        g.neighbour(k, d) is None || !g.pixels[g.neighbour(k, d)->Some_0] || labels[g.neighbour(
            k,
            d,
        )->Some_0] == labels[k],
    ensures
        closure_inv(g, labels, progress.update(k, progress[k] + 1)),
{
    reveal(closure_inv);
    let after = progress.update(k, progress[k] + 1);
    assert forall|q: int, e: Direction|
        0 <= q < g.cells() && labels[q] is Some && dir_rank(e) < after[q] && (#[trigger] g.neighbour(
            q,
            e,
        )) is Some && g.pixels[g.neighbour(q, e)->Some_0] implies labels[g.neighbour(q, e)->Some_0]
        == labels[q] by {
        if q == k && e == d {
        } else {
            assert(dir_rank(e) < progress[q]);
        }
    }
}

/// Labelling an occupied cell that had no label.
pub proof fn lemma_closure_relabel(
    g: Grid,
    labels: Seq<Option<ObjectTag>>,
    progress: Seq<int>,
    j: int,
    t: Option<ObjectTag>,
)
    requires
        grid_fits(g),
        labels.len() == g.cells(),
        progress.len() == g.cells(),
        closure_inv(g, labels, progress),
        0 <= j < g.cells(),
        g.pixels[j],
        labels[j] is None,
        progress[j] == 0,
    ensures
        closure_inv(g, labels.update(j, t), progress),
{
    reveal(closure_inv);
    let after = labels.update(j, t);
    assert forall|q: int, e: Direction|
        0 <= q < g.cells() && after[q] is Some && dir_rank(e) < progress[q] && (#[trigger] g.neighbour(
            q,
            e,
        )) is Some && g.pixels[g.neighbour(q, e)->Some_0] implies after[g.neighbour(q, e)->Some_0]
        == after[q] by {
        assert(q != j);
        assert(labels[q] is Some);
        lemma_neighbour(g, q, e);
        assert(labels[g.neighbour(q, e)->Some_0] == labels[q]);
    }
}

/// An emitted segment stays accounted for when one more side is looked at.
proof fn lemma_from_edge_grows(g: Grid, progress: Seq<int>, k: int, seg: LineSegment)
    requires
        progress.len() == g.cells(),
        0 <= k < g.cells(),
        from_edge(g, progress, seg),
    ensures
        from_edge(g, progress.update(k, progress[k] + 1), seg),
{
    let (q, e) = choose|q: int, e: Direction|
        0 <= q < g.cells() && dir_rank(e) < progress[q] && g.is_edge(q, e) && seg
            == #[trigger] g.segment_of(q, e);
    let after = progress.update(k, progress[k] + 1);
    assert(dir_rank(e) < after[q]);
    assert(0 <= q < g.cells() && dir_rank(e) < after[q] && g.is_edge(q, e) && seg == g.segment_of(
        q,
        e,
    ));
}

/// Looking at a side that is no edge.
pub proof fn lemma_edges_plain(
    g: Grid,
    progress: Seq<int>,
    emitted: Seq<LineSegment>,
    k: int,
    d: Direction,
)
    requires
        edges_inv(g, progress, emitted),
        0 <= k < g.cells(),
        progress[k] == dir_rank(d),
        !g.is_edge(k, d),
    ensures
        edges_inv(g, progress.update(k, progress[k] + 1), emitted),
{
    reveal(edges_inv);
    let after = progress.update(k, progress[k] + 1);
    lemma_edge_total_step(g, progress, k, d, g.cells());
    assert forall|i: int| 0 <= i < emitted.len() implies from_edge(g, after, #[trigger] emitted[i]) by {
        lemma_from_edge_grows(g, progress, k, emitted[i]);
    }
    assert forall|q: int, e: Direction|
        0 <= q < g.cells() && dir_rank(e) < after[q] && g.is_edge(q, e) implies emitted.contains(
        #[trigger] g.segment_of(q, e),
    ) by {
        if q == k && e == d {
        } else {
            assert(dir_rank(e) < progress[q]);
        }
    }
}

/// Looking at a side that is an edge, and emitting its segment.
pub proof fn lemma_edges_emit(
    g: Grid,
    progress: Seq<int>,
    emitted: Seq<LineSegment>,
    k: int,
    d: Direction,
)
    requires
        grid_fits(g),
        edges_inv(g, progress, emitted),
        0 <= k < g.cells(),
        progress[k] == dir_rank(d),
        g.is_edge(k, d),
    ensures
        edges_inv(g, progress.update(k, progress[k] + 1), emitted.push(g.segment_of(k, d))),
{
    reveal(edges_inv);
    let after = progress.update(k, progress[k] + 1);
    let seg = g.segment_of(k, d);
    let grown = emitted.push(seg);
    lemma_edge_total_step(g, progress, k, d, g.cells());
    assert forall|i: int| 0 <= i < grown.len() implies from_edge(g, after, #[trigger] grown[i]) by {
        if i < emitted.len() {
            lemma_from_edge_grows(g, progress, k, emitted[i]);
        } else {
            assert(dir_rank(d) < after[k]);
            assert(0 <= k < g.cells() && dir_rank(d) < after[k] && g.is_edge(k, d) && grown[i]
                == g.segment_of(k, d));
        }
    }
    assert forall|q: int, e: Direction|
        0 <= q < g.cells() && dir_rank(e) < after[q] && g.is_edge(q, e) implies grown.contains(
        #[trigger] g.segment_of(q, e),
    ) by {
        if q == k && e == d {
            assert(grown[emitted.len() as int] == seg);
        } else {
            assert(dir_rank(e) < progress[q]);
            assert(emitted.contains(g.segment_of(q, e)));
            let i = choose|i: int| 0 <= i < emitted.len() && emitted[i] == g.segment_of(q, e);
            assert(grown[i] == g.segment_of(q, e));
        }
    }
    assert forall|i: int| 0 <= i < emitted.len() implies emitted[i] != seg by {
        if emitted[i] == seg {
            assert(from_edge(g, progress, emitted[i]));
            let (q, e) = choose|q: int, e: Direction|
                0 <= q < g.cells() && dir_rank(e) < progress[q] && g.is_edge(q, e) && emitted[i]
                    == #[trigger] g.segment_of(q, e);
            lemma_segment_injective(g, q, e, k, d);
        }
    }
    assert(grown.no_duplicates());
}

/// The edges of cell `k` among its sides before rank `m`, in the order of
/// the sides: west, east, north, south.
pub open spec fn side_segments(g: Grid, k: int, m: int) -> Seq<LineSegment> {
    (if 0 < m && g.is_edge(k, Direction::West) {
        seq![g.segment_of(k, Direction::West)]
    } else {
        Seq::empty()
    }) + (if 1 < m && g.is_edge(k, Direction::East) {
        seq![g.segment_of(k, Direction::East)]
    } else {
        Seq::empty()
    }) + (if 2 < m && g.is_edge(k, Direction::North) {
        seq![g.segment_of(k, Direction::North)]
    } else {
        Seq::empty()
    }) + (if 3 < m && g.is_edge(k, Direction::South) {
        seq![g.segment_of(k, Direction::South)]
    } else {
        Seq::empty()
    })
}

/// The edges of the cells of `order`, cell by cell.
pub open spec fn cell_segments(g: Grid, order: Seq<int>) -> Seq<LineSegment>
    decreases order.len(),
{
    if order.len() == 0 {
        Seq::empty()
    } else {
        cell_segments(g, order.drop_last()) + side_segments(g, order.last(), 4)
    }
}

/// The emitted segments are the edges of the cells that are done, cell by
/// cell in the order in which they were done, and then those of the current
/// cell.
#[verifier::opaque]
pub open spec fn order_inv(
    g: Grid,
    order: Seq<int>,
    progress: Seq<int>,
    emitted: Seq<LineSegment>,
    cur: Option<int>,
) -> bool {
    &&& progress.len() == g.cells()
    &&& order.no_duplicates()
    &&& forall|i: int|
        0 <= i < order.len() ==> 0 <= (#[trigger] order[i]) < g.cells() && progress[order[i]] == 4
    &&& forall|k: int|
        0 <= k < g.cells() && (#[trigger] progress[k]) == 4 && cur != Some(k) ==> order.contains(k)
    &&& cur matches Some(k) ==> 0 <= k < g.cells() && !order.contains(k)
    &&& emitted == cell_segments(g, order) + (match cur {
        Some(k) => side_segments(g, k, progress[k]),
        None => Seq::empty(),
    })
}

/// Before the scan no cell is done.
pub proof fn lemma_order_initial(g: Grid, progress: Seq<int>)
    requires
        progress.len() == g.cells(),
        forall|k: int| 0 <= k < g.cells() ==> #[trigger] progress[k] == 0,
    ensures
        order_inv(g, Seq::empty(), progress, Seq::empty(), None),
{
    reveal(order_inv);
    assert(cell_segments(g, Seq::<int>::empty()) + Seq::<LineSegment>::empty() =~= Seq::<
        LineSegment,
    >::empty());
}

/// A cell none of whose sides has been looked at is taken up.
pub proof fn lemma_order_pop(
    g: Grid,
    order: Seq<int>,
    progress: Seq<int>,
    emitted: Seq<LineSegment>,
    k: int,
)
    requires
        order_inv(g, order, progress, emitted, None),
        0 <= k < g.cells(),
        progress[k] == 0,
    ensures
        order_inv(g, order, progress, emitted, Some(k)),
{
    reveal(order_inv);
    if order.contains(k) {
        let i = choose|i: int| 0 <= i < order.len() && order[i] == k;
        assert(progress[order[i]] == 4);
    }
    assert(side_segments(g, k, 0) =~= Seq::<LineSegment>::empty());
}

/// One more side of the current cell has been looked at; its segment was
/// emitted if it is an edge.
pub proof fn lemma_order_side(
    g: Grid,
    order: Seq<int>,
    progress: Seq<int>,
    emitted: Seq<LineSegment>,
    k: int,
    d: Direction,
)
    requires
        order_inv(g, order, progress, emitted, Some(k)),
        progress[k] == dir_rank(d),
    ensures
        order_inv(
            g,
            order,
            progress.update(k, progress[k] + 1),
            if g.is_edge(k, d) {
                emitted.push(g.segment_of(k, d))
            } else {
                emitted
            },
            Some(k),
        ),
{
    reveal(order_inv);
    let after = progress.update(k, progress[k] + 1);
    let m = progress[k];
    assert forall|i: int| 0 <= i < order.len() implies 0 <= (#[trigger] order[i]) < g.cells()
        && after[order[i]] == 4 by {
        assert(order.contains(order[i]));
        assert(progress[order[i]] == 4);
    }
    assert forall|q: int|
        0 <= q < g.cells() && (#[trigger] after[q]) == 4 && Some(k) != Some(q) implies order.contains(
        q,
    ) by {
        assert(progress[q] == 4);
    }
    let grown = side_segments(g, k, m + 1);
    if g.is_edge(k, d) {
        assert(grown =~= side_segments(g, k, m).push(g.segment_of(k, d)));
        assert(emitted.push(g.segment_of(k, d)) =~= cell_segments(g, order) + grown);
    } else {
        assert(grown =~= side_segments(g, k, m));
    }
}

/// The current cell is done.
pub proof fn lemma_order_finish(
    g: Grid,
    order: Seq<int>,
    progress: Seq<int>,
    emitted: Seq<LineSegment>,
    k: int,
)
    requires
        order_inv(g, order, progress, emitted, Some(k)),
        progress[k] == 4,
    ensures
        order_inv(g, order.push(k), progress, emitted, None),
{
    reveal(order_inv);
    let grown = order.push(k);
    assert(grown.drop_last() =~= order);
    assert(grown.last() == k);
    assert(cell_segments(g, grown) + Seq::<LineSegment>::empty() =~= cell_segments(g, order)
        + side_segments(g, k, 4));
    assert forall|i: int| 0 <= i < grown.len() implies 0 <= (#[trigger] grown[i]) < g.cells()
        && progress[grown[i]] == 4 by {
        if i < order.len() {
            assert(grown[i] == order[i]);
        }
    }
    assert forall|q: int| 0 <= q < g.cells() && (#[trigger] progress[q]) == 4 implies grown.contains(
        q,
    ) by {
        if q == k {
            assert(grown[order.len() as int] == k);
        } else {
            assert(order.contains(q));
            let i = choose|i: int| 0 <= i < order.len() && order[i] == q;
            assert(grown[i] == q);
        }
    }
    assert(grown.no_duplicates()) by {
        assert forall|i: int, j: int|
            0 <= i < grown.len() && 0 <= j < grown.len() && i != j implies grown[i] != grown[j] by {
            if i < order.len() && j < order.len() {
                assert(order[i] != order[j]);
            } else if i < order.len() {
                assert(order.contains(order[i]));
            } else if j < order.len() {
                assert(order.contains(order[j]));
            }
        }
    }
}

/// The cells of `order` are the occupied cells, each once.
pub open spec fn is_cell_order(g: Grid, order: Seq<int>) -> bool {
    &&& order.no_duplicates()
    &&& forall|k: int| order.contains(k) <==> g.occupied(k)
}

/// The segments come cell by cell: for some order of the occupied cells,
/// they are the edges of the first cell, west, east, north, south, then
/// those of the second, and so on.
pub open spec fn cell_by_cell(g: Grid, segs: Seq<LineSegment>) -> bool {
    exists|order: Seq<int>| #[trigger] is_cell_order(g, order) && segs == cell_segments(g, order)
}

/// Once every occupied cell is done, the emitted segments come cell by cell.
pub proof fn lemma_order_done(
    g: Grid,
    order: Seq<int>,
    labels: Seq<Option<ObjectTag>>,
    progress: Seq<int>,
    emitted: Seq<LineSegment>,
)
    requires
        order_inv(g, order, progress, emitted, None),
        labels.len() == g.cells(),
        forall|k: int| 0 <= k < g.cells() ==> ((#[trigger] labels[k]) is Some <==> g.pixels[k]),
        forall|k: int| 0 <= k < g.cells() && labels[k] is Some ==> #[trigger] progress[k] == 4,
        forall|k: int| 0 <= k < g.cells() && labels[k] is None ==> #[trigger] progress[k] == 0,
    ensures
        cell_by_cell(g, emitted),
{
    reveal(order_inv);
    assert(emitted =~= cell_segments(g, order));
    assert forall|k: int| order.contains(k) <==> g.occupied(k) by {
        if order.contains(k) {
            let i = choose|i: int| 0 <= i < order.len() && order[i] == k;
            assert(progress[order[i]] == 4);
            assert(labels[k] is Some);
        }
        if g.occupied(k) {
            assert(labels[k] is Some);
            assert(progress[k] == 4);
        }
    }
    assert(is_cell_order(g, order));
}

/// The segment is the edge between an occupied cell and a free neighbour.
pub open spec fn is_edge_segment(g: Grid, seg: LineSegment) -> bool {
    exists|k: int, d: Direction|
        0 <= k < g.cells() && g.is_edge(k, d) && seg == #[trigger] g.segment_of(k, d)
}

/// The labels are those of the connected components: exactly the occupied
/// cells are labelled; two occupied cells share a label if and only if a
/// walk over occupied cells joins them; and the tags count up from 0 in the
/// order in which the scan, row by row, first meets each component.
pub open spec fn labelled_components(g: Grid, labels: Seq<Option<ObjectTag>>) -> bool {
    &&& labels.len() == g.cells()
    &&& forall|k: int| 0 <= k < g.cells() ==> ((#[trigger] labels[k]) is Some <==> g.pixels[k])
    &&& forall|a: int, b: int|
        #![trigger g.connected(a, b)]
        g.occupied(a) && g.occupied(b) ==> ((labels[a] == labels[b]) <==> g.connected(a, b))
    &&& forall|k: int, u: int|
        #![trigger labels[k], tag(u)]
        0 <= k < g.cells() && labels[k] is Some && 0 <= u < labels[k]->Some_0.0 ==> exists|j: int|
            0 <= j < k && #[trigger] labels[j] == tag(u)
}

/// The segments are the edges between occupied cells and free neighbours,
/// each edge once, as many as there are such pairs of cells, and cell by
/// cell.
pub open spec fn boundary_edges(g: Grid, segs: Seq<LineSegment>) -> bool {
    &&& forall|i: int| 0 <= i < segs.len() ==> is_edge_segment(g, #[trigger] segs[i])
    &&& forall|k: int, d: Direction|
        0 <= k < g.cells() && g.is_edge(k, d) ==> segs.contains(#[trigger] g.segment_of(k, d))
    &&& segs.no_duplicates()
    &&& segs.len() == g.edge_count(g.cells())
    &&& cell_by_cell(g, segs)
}

/// Along a walk the label stays the same, once every labelled cell is done.
proof fn lemma_path_label(
    g: Grid,
    labels: Seq<Option<ObjectTag>>,
    progress: Seq<int>,
    p: Seq<int>,
    i: int,
)
    requires
        grid_fits(g),
        closure_inv(g, labels, progress),
        forall|k: int| 0 <= k < g.cells() && g.pixels[k] ==> (#[trigger] labels[k]) is Some,
        forall|k: int| 0 <= k < g.cells() && labels[k] is Some ==> #[trigger] progress[k] == 4,
        g.is_path(p),
        0 <= i < p.len(),
    ensures
        labels[p[i]] == labels[p[0]],
    decreases i,
{
    if i > 0 {
        lemma_path_label(g, labels, progress, p, i - 1);
        reveal(closure_inv);
        let a = p[i - 1];
        let b = p[i];
        assert(g.occupied(a) && g.occupied(b));
        assert(g.adjacent(a, p[i - 1 + 1]));
        let d = choose|d: Direction| #[trigger] g.neighbour(a, d) == Some(b);
        assert(labels[a] is Some);
        assert(progress[a] == 4);
        assert(g.neighbour(a, d) is Some);
    }
}

/// Once every cell is scanned and every labelled cell is done, the labels are
/// those of the connected components.
pub proof fn lemma_components_done(
    g: Grid,
    labels: Seq<Option<ObjectTag>>,
    progress: Seq<int>,
    seeds: Seq<int>,
)
    requires
        grid_fits(g),
        labels_inv(g, labels, seeds, g.cells()),
        closure_inv(g, labels, progress),
        forall|k: int| 0 <= k < g.cells() && labels[k] is Some ==> #[trigger] progress[k] == 4,
    ensures
        labelled_components(g, labels),
{
    reveal(labels_inv);
    assert forall|a: int, b: int|
        #![trigger g.connected(a, b)]
        g.occupied(a) && g.occupied(b) implies ((labels[a] == labels[b]) <==> g.connected(a, b)) by {
        assert(labels[a] is Some && labels[b] is Some);
        if g.connected(a, b) {
            let p = choose|p: Seq<int>| #[trigger] g.is_path(p) && p[0] == a && p.last() == b;
            lemma_path_label(g, labels, progress, p, p.len() - 1);
        }
        if labels[a] == labels[b] {
            let u = labels[a]->Some_0.0 as int;
            lemma_connected_sym(g, seeds[u], a);
            lemma_connected_trans(g, a, seeds[u], b);
        }
    }
    assert forall|k: int, u: int|
        #![trigger labels[k], tag(u)]
        0 <= k < g.cells() && labels[k] is Some && 0 <= u < labels[k]->Some_0.0 implies exists|
        j: int,
    |
        0 <= j < k && #[trigger] labels[j] == tag(u) by {
        let v = labels[k]->Some_0.0 as int;
        assert(seeds[u] < seeds[v]);
        assert(labels[seeds[u]] == tag(u));
    }
}

/// Once every occupied cell is done, the emitted segments are the edges.
pub proof fn lemma_edges_done(
    g: Grid,
    labels: Seq<Option<ObjectTag>>,
    progress: Seq<int>,
    emitted: Seq<LineSegment>,
)
    requires
        grid_fits(g),
        labels.len() == g.cells(),
        edges_inv(g, progress, emitted),
        cell_by_cell(g, emitted),
        forall|k: int| 0 <= k < g.cells() && g.pixels[k] ==> (#[trigger] labels[k]) is Some,
        forall|k: int| 0 <= k < g.cells() && labels[k] is Some ==> #[trigger] progress[k] == 4,
    ensures
        boundary_edges(g, emitted),
{
    reveal(edges_inv);
    assert forall|i: int| 0 <= i < emitted.len() implies is_edge_segment(g, #[trigger] emitted[i]) by {
        assert(from_edge(g, progress, emitted[i]));
        let (k, d) = choose|k: int, d: Direction|
            0 <= k < g.cells() && dir_rank(d) < progress[k] && g.is_edge(k, d) && emitted[i]
                == #[trigger] g.segment_of(k, d);
        assert(0 <= k < g.cells() && g.is_edge(k, d) && emitted[i] == g.segment_of(k, d));
    }
    assert forall|k: int, d: Direction| 0 <= k < g.cells() && g.is_edge(k, d) implies emitted.contains(
        #[trigger] g.segment_of(k, d),
    ) by {
        assert(labels[k] is Some);
        assert(progress[k] == 4);
    }
    assert forall|k: int| 0 <= k < g.cells() && g.pixels[k] implies #[trigger] progress[k] == 4 by {
        assert(labels[k] is Some);
    }
    lemma_edge_total_full(g, progress, g.cells());
}

/// A labelled cell is occupied.
pub proof fn lemma_labelled_occupied(
    g: Grid,
    labels: Seq<Option<ObjectTag>>,
    seeds: Seq<int>,
    scanned: int,
    k: int,
)
    requires
        labels_inv(g, labels, seeds, scanned),
        0 <= k < g.cells(),
        labels[k] is Some,
    ensures
        g.pixels[k],
        labels.len() == g.cells(),
{
    reveal(labels_inv);
}

/// At the end of the scan every occupied cell is labelled.
pub proof fn lemma_scan_done(g: Grid, labels: Seq<Option<ObjectTag>>, seeds: Seq<int>)
    requires
        labels_inv(g, labels, seeds, g.cells()),
    ensures
        labels.len() == g.cells(),
        seeds.len() <= g.cells(),
        forall|k: int| 0 <= k < g.cells() && g.pixels[k] ==> (#[trigger] labels[k]) is Some,
{
    reveal(labels_inv);
}

} // verus!
