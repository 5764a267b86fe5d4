use vstd::prelude::*;

use crate::board::{
    cell, weight, legal_moves, lemma_total_min_sym, lemma_total_moved, lemma_total_with_tile, min_sym, moved, new_tiles, total,
    with_tile, Board, Move, BOARD_LIMIT,
};
use crate::strategy::lemma_legal_move_changes;
use std::collections::{HashSet, VecDeque};
use vstd::set_lib::{lemma_int_range, lemma_len_subset, lemma_map_size, set_int_range};

verus! {

broadcast use vstd::std_specs::hash::group_hash_axioms;

/// A board in canonical form, within its nine cells.
pub open spec fn canonical(b: Board) -> bool {
    b.wf() && min_sym(b.0) == b.0
}

/// The canonical boards that the new tiles on `m` give, in order.
pub open spec fn tile_children(m: Board) -> Seq<u64> {
    new_tiles(m.0, 9).map_values(|t: Board| min_sym(t.0))
}

/// The canonical boards that the first `k` of `moves` give, each followed by
/// one new tile.
pub open spec fn children_upto(moves: Seq<(Board, Move)>, k: int) -> Seq<u64>
    decreases k,
{
    if k <= 0 {
        Seq::empty()
    } else {
        children_upto(moves, k - 1) + tile_children(moves[k - 1].0)
    }
}

/// The canonical boards one turn away from `b`: a move that changes it, then
/// one new tile.
pub open spec fn children(b: u64) -> Seq<u64> {
    children_upto(legal_moves(b), legal_moves(b).len() as int)
}


/// The packed values of a sequence of boards.
pub open spec fn values(p: Seq<Board>) -> Seq<u64> {
    p.map_values(|c: Board| c.0)
}

proof fn lemma_visited_bound(v: Set<u64>)
    requires
        v.finite(),
        forall|x: u64| v.contains(x) ==> x < BOARD_LIMIT,
    ensures
        v.len() <= BOARD_LIMIT,
{
    let f = |x: u64| x as int;
    let w = v.map(f);
    assert(vstd::relations::injective_on(f, v));
    lemma_map_size(v, w, f);
    lemma_int_range(0, BOARD_LIMIT as int);
    assert(w.subset_of(set_int_range(0, BOARD_LIMIT as int)));
    lemma_len_subset(w, set_int_range(0, BOARD_LIMIT as int));
}

/// Pushes each canonical board one turn away from `b` onto the front of
/// `queue` and the back of `order`.
fn push_children(b: Board, queue: &mut VecDeque<Board>, order: &mut Vec<Board>)
    requires
        b.lines_fit(),
    ensures
        exists|p: Seq<Board>|
            #![trigger p.len()]
            values(p) == children(b.0) && final(order)@ == old(order)@ + p && final(queue)@
                == p.reverse() + old(queue)@,
        forall|i: int| old(order)@.len() <= i < final(order)@.len() ==> canonical(#[trigger] final(order)@[i]),
{
    let moves = b.possible_moves();
    let ghost ms = legal_moves(b.0);
    let ghost mut p: Seq<Board> = Seq::empty();
    let ghost q0 = queue@;
    let ghost o0 = order@;
    for k in 0..moves.len()
        invariant
            moves@ == ms,
            forall|i: int| 0 <= i < ms.len() ==> (#[trigger] ms[i]).0.wf(),
            values(p) == children_upto(ms, k as int),
            order@ == o0 + p,
            queue@ == p.reverse() + q0,
            forall|i: int| o0.len() <= i < order@.len() ==> canonical(#[trigger] order@[i]),
    {
        let (m, _) = moves[k];
        let tiles = m.possible_new_tiles();
        let ghost p0 = p;
        for l in 0..tiles.len()
            invariant
                tiles@ == new_tiles(m.0, 9),
                m.wf(),
                forall|i: int| 0 <= i < tiles@.len() ==> (#[trigger] tiles@[i]).wf(),
                values(p) == values(p0) + tile_children(m).take(l as int),
                p.len() == p0.len() + l,
                p.take(p0.len() as int) == p0,
                order@ == o0 + p,
                queue@ == p.reverse() + q0,
                forall|i: int| o0.len() <= i < order@.len() ==> canonical(#[trigger] order@[i]),
        {
            let c = tiles[l].canonical_orientation();
            queue.push_front(c);
            order.push(c);
            proof {
                let p1 = p.push(c);
                assert(p1.reverse() =~= seq![c] + p.reverse());
                assert(c.0 == tile_children(m)[l as int]);
                assert(values(p1) =~= values(p).push(c.0));
                assert(tile_children(m).take(l + 1) =~= tile_children(m).take(l as int).push(tile_children(m)[l as int]));
                assert(values(p1) =~= values(p0) + tile_children(m).take(l + 1));
                assert(p1.take(p0.len() as int) =~= p0);
                p = p1;
                assert(order@ =~= o0 + p);
            }
        }
        proof {
            assert(tile_children(m).take(tiles.len() as int) =~= tile_children(m));
            assert(children_upto(ms, k + 1) == children_upto(ms, k as int) + tile_children(ms[k as int].0));
        }
    }
}

proof fn lemma_new_tiles_total(m: u64, k: int)
    requires
        0 <= k <= 9,
    ensures
        forall|l: int| 0 <= l < new_tiles(m, k).len() ==> total((#[trigger] new_tiles(m, k)[l]).0) == total(m) + 2,
    decreases k,
{
    if k > 0 {
        lemma_new_tiles_total(m, k - 1);
        if cell(m, (k - 1) % 3, (k - 1) / 3) == 0 {
            lemma_total_with_tile(m, k - 1);
            let prev = new_tiles(m, k - 1);
            assert forall|l: int| 0 <= l < new_tiles(m, k).len() implies total((#[trigger] new_tiles(m, k)[l]).0) == total(m) + 2 by {
                if l < prev.len() {
                    assert(new_tiles(m, k)[l] == prev[l]);
                } else {
                    assert(new_tiles(m, k)[l] == with_tile(m, k - 1));
                }
            }
        }
    }
}

proof fn lemma_children_upto_total(b: Board, k: int)
    requires
        b.lines_fit(),
        0 <= k <= legal_moves(b.0).len(),
    ensures
        forall|j: int| 0 <= j < children_upto(legal_moves(b.0), k).len() ==> total(#[trigger] children_upto(legal_moves(b.0), k)[j]) == total(b.0) + 2,
    decreases k,
{
    let ms = legal_moves(b.0);
    if k > 0 {
        lemma_children_upto_total(b, k - 1);
        lemma_legal_move_changes(b.0, k - 1);
        let m = ms[k - 1].0;
        assert(m.0 == moved(b.0, ms[k - 1].1));
        lemma_total_moved(b, ms[k - 1].1);
        lemma_new_tiles_total(m.0, 9);
        let prev = children_upto(ms, k - 1);
        let tc = tile_children(m);
        assert forall|j: int| 0 <= j < children_upto(ms, k).len() implies total(#[trigger] children_upto(ms, k)[j]) == total(b.0) + 2 by {
            if j < prev.len() {
                assert(children_upto(ms, k)[j] == prev[j]);
            } else {
                let l = j - prev.len();
                assert(children_upto(ms, k)[j] == tc[l]);
                assert(tc[l] == min_sym(new_tiles(m.0, 9)[l].0));
                lemma_total_min_sym(new_tiles(m.0, 9)[l].0);
            }
        }
    }
}

/// Each board one turn away holds 2 more in total value than the board.
pub proof fn lemma_children_total(b: Board)
    requires
        b.lines_fit(),
    ensures
        forall|j: int| 0 <= j < children(b.0).len() ==> total(#[trigger] children(b.0)[j]) == total(b.0) + 2,
{
    lemma_children_upto_total(b, legal_moves(b.0).len() as int);
}

proof fn lemma_total_zero()
    ensures
        total(0) == 0,
{
    assert forall|s: u64| (0u64 >> s) & 15u64 == 0 by {
        assert((0u64 >> s) & 15u64 == 0) by (bit_vector);
    }
    assert(weight(0) == 0);
}

/// Taking the last board of a queue sorted by total value, and pushing boards
/// of 2 more in front, keeps the search in order of total value.
proof fn lemma_bfs_order(
    o0: Seq<Board>,
    q0: Seq<Board>,
    q1: Seq<Board>,
    p: Seq<Board>,
    o: Seq<Board>,
    q: Seq<Board>,
    b: Board,
)
    requires
        o0.len() >= 1,
        q0.len() >= 1,
        q0 == q1.push(b),
        o == o0 + p,
        q == p.reverse() + q1,
        forall|t: int| 0 <= t < p.len() ==> total((#[trigger] p[t]).0) == total(b.0) + 2,
        forall|a: int, c: int| 0 <= a < c < o0.len() ==> total((#[trigger] o0[a]).0) <= total((#[trigger] o0[c]).0),
        forall|a: int, c: int| 0 <= a < c < q0.len() ==> total((#[trigger] q0[a]).0) >= total((#[trigger] q0[c]).0),
        total(o0.last().0) <= total(q0.last().0) + 2,
        forall|t: int| 0 <= t < q0.len() ==> total((#[trigger] q0[t]).0) <= total(o0.last().0),
    ensures
        forall|a: int, c: int| 0 <= a < c < o.len() ==> total((#[trigger] o[a]).0) <= total((#[trigger] o[c]).0),
        forall|a: int, c: int| 0 <= a < c < q.len() ==> total((#[trigger] q[a]).0) >= total((#[trigger] q[c]).0),
        q.len() > 0 ==> total(o.last().0) <= total(q.last().0) + 2,
        forall|t: int| 0 <= t < q.len() ==> total((#[trigger] q[t]).0) <= total(o.last().0),
{
    let tb = total(b.0);
    assert(q0[q0.len() - 1] == b);
    assert forall|t: int| 0 <= t < q1.len() implies total((#[trigger] q1[t]).0) >= tb && total(q1[t].0) <= total(o0.last().0) by {
        assert(q1[t] == q0[t]);
    }
    assert forall|a: int| 0 <= a < o0.len() implies total((#[trigger] o0[a]).0) <= total(o0.last().0) by {
        if a < o0.len() - 1 {
            assert(total(o0[a].0) <= total(o0[o0.len() - 1].0));
        }
    }
    assert forall|a: int, c: int| 0 <= a < c < o.len() implies total((#[trigger] o[a]).0) <= total((#[trigger] o[c]).0) by {
        if c < o0.len() {
            assert(o[a] == o0[a] && o[c] == o0[c]);
        } else if a < o0.len() {
            assert(o[a] == o0[a] && o[c] == p[c - o0.len()]);
        } else {
            assert(o[a] == p[a - o0.len()] && o[c] == p[c - o0.len()]);
        }
    }
    assert forall|t: int| 0 <= t < q.len() implies total((#[trigger] q[t]).0) <= total(o.last().0) && (t < p.len() ==> total(q[t].0) == tb + 2) && (t >= p.len() ==> q[t] == q1[t - p.len()]) by {
        if t < p.len() {
            assert(q[t] == p[p.len() - 1 - t]);
            assert(o.last() == p[p.len() - 1]);
        } else {
            assert(q[t] == q1[t - p.len()]);
            if p.len() > 0 {
                assert(o.last() == p[p.len() - 1]);
            } else {
                assert(o.last() == o0.last());
            }
        }
    }
    assert forall|a: int, c: int| 0 <= a < c < q.len() implies total((#[trigger] q[a]).0) >= total((#[trigger] q[c]).0) by {
        if c >= p.len() && a >= p.len() {
            assert(q1[a - p.len()] == q0[a - p.len()] && q1[c - p.len()] == q0[c - p.len()]);
        }
    }
    if q.len() > 0 {
        if p.len() > 0 {
            assert(o.last() == p[p.len() - 1]);
        } else {
            assert(o.last() == o0.last());
            assert(q.last() == q1.last());
        }
    }
}

/// In a search order sorted by total value, each board one turn away from an
/// entry, where it occurs, occurs after that entry: read backwards, the order
/// meets every board after those that it leads to.
pub proof fn lemma_children_come_later(r: Seq<Board>, i: int, j: int)
    requires
        forall|a: int, c: int| 0 <= a < c < r.len() ==> total((#[trigger] r[a]).0) <= total((#[trigger] r[c]).0),
        0 <= i < r.len(),
        r[i].lines_fit(),
        0 <= j < children(r[i].0).len(),
        r.contains(Board(children(r[i].0)[j])),
    ensures
        exists|k: int| i < k < r.len() && r[k] == Board(children(r[i].0)[j]),
{
    let c = children(r[i].0)[j];
    let k = choose|k: int| 0 <= k < r.len() && r[k] == Board(c);
    lemma_children_total(r[i]);
    assert(total(c) == total(r[i].0) + 2);
    if k < i {
        assert(total(r[k].0) <= total(r[i].0));
    }
    assert(k > i);
}

/// Whether `queue` holds `b`.
fn queued(queue: &VecDeque<Board>, b: Board) -> (r: bool)
    ensures
        r == queue@.contains(b),
{
    for i in 0..queue.len()
        invariant
            forall|k: int| 0 <= k < i ==> queue@[k] != b,
    {
        if queue[i] == b {
            return true;
        }
    }
    false
}

/// A canonical board made by two tiles of exponent 1, placed one after the
/// other on an empty board.
pub open spec fn is_start(c: Board) -> bool {
    canonical(c) && exists|i: int, j: int|
        0 <= i < new_tiles(0, 9).len() && 0 <= j < new_tiles(new_tiles(0, 9)[i].0, 9).len() && c
            == #[trigger] new_tiles(new_tiles(0, 9)[i].0, 9)[j]
}

/// Each entry of `r` after the first is a start board, or one turn away from
/// an earlier entry whose moves all stay within four bits a cell.
pub open spec fn reached(r: Seq<Board>) -> bool {
    forall|k: int|
        1 <= k < r.len() ==> is_start(#[trigger] r[k]) || exists|j: int|
            0 <= j < k && r[j].lines_fit() && children(r[j].0).contains(r[k].0)
}

proof fn lemma_reached_push_start(o: Seq<Board>, c: Board)
    requires
        reached(o),
        is_start(c),
    ensures
        reached(o.push(c)),
{
    let o1 = o.push(c);
    assert forall|k: int| 1 <= k < o1.len() implies is_start(#[trigger] o1[k]) || exists|j: int|
        0 <= j < k && o1[j].lines_fit() && children(o1[j].0).contains(o1[k].0) by {
        if k < o.len() {
            assert(o1[k] == o[k]);
            if !is_start(o[k]) {
                let j = choose|j: int| 0 <= j < k && o[j].lines_fit() && children(o[j].0).contains(o[k].0);
                assert(o1[j] == o[j]);
            }
        }
    }
}

proof fn lemma_reached_push_children(o: Seq<Board>, p: Seq<Board>, b: Board, jb: int)
    requires
        reached(o),
        0 <= jb < o.len(),
        o[jb] == b,
        b.lines_fit(),
        values(p) == children(b.0),
    ensures
        reached(o + p),
{
    let o1 = o + p;
    assert forall|k: int| 1 <= k < o1.len() implies is_start(#[trigger] o1[k]) || exists|j: int|
        0 <= j < k && o1[j].lines_fit() && children(o1[j].0).contains(o1[k].0) by {
        if k < o.len() {
            assert(o1[k] == o[k]);
            if !is_start(o[k]) {
                let j = choose|j: int| 0 <= j < k && o[j].lines_fit() && children(o[j].0).contains(o[k].0);
                assert(o1[j] == o[j]);
            }
        } else {
            let t = k - o.len();
            assert(o1[k] == p[t]);
            assert(values(p)[t] == p[t].0);
            assert(children(b.0)[t] == o1[k].0);
            assert(o1[jb] == b);
            assert(children(o1[jb].0).contains(o1[k].0));
        }
    }
}

/// `r` holds each board in canonical form that two tiles of exponent 1,
/// placed one after the other on an empty board, give.
pub open spec fn starts_in(r: Seq<Board>) -> bool {
    forall|i: int, j: int|
        0 <= i < new_tiles(0, 9).len() && 0 <= j < new_tiles(new_tiles(0, 9)[i].0, 9).len()
            && canonical(#[trigger] new_tiles(new_tiles(0, 9)[i].0, 9)[j]) ==> r.contains(
            new_tiles(new_tiles(0, 9)[i].0, 9)[j],
        )
}

proof fn lemma_contains_concat(a: Seq<Board>, b: Seq<Board>)
    ensures
        forall|x: Board| a.contains(x) ==> (a + b).contains(x) && (b + a).contains(x),
{
    assert forall|x: Board| a.contains(x) implies (a + b).contains(x) && (b + a).contains(x) by {
        let i = choose|i: int| 0 <= i < a.len() && a[i] == x;
        assert((a + b)[i] == x);
        assert((b + a)[b.len() + i] == x);
    }
}

/// Each canonical board reachable from the start, in the order in which a
/// first-in first-out search finds it. The empty board comes first; then the
/// canonical boards of two tiles; then, for each board taken from the queue
/// for the first time, each canonical board one turn away from it, where
/// no move of it overflows a cell. A board may come more than once. The
/// boards come in order of total value.
#[verifier::rlimit(100)]
pub fn exploration_order() -> (r: Vec<Board>)
    ensures
        r@.len() > 0,
        r@[0] == Board(0),
        forall|i: int| 1 <= i < r@.len() ==> canonical(#[trigger] r@[i]),
        starts_in(r@),
        reached(r@),
        forall|a: int, c: int| 0 <= a < c < r@.len() ==> total((#[trigger] r@[a]).0) <= total((#[trigger] r@[c]).0),
        forall|i: int, j: int|
            1 <= i < r@.len() && r@[i].lines_fit() && 0 <= j < children(r@[i].0).len() ==> r@.contains(
                Board(#[trigger] children(r@[i].0)[j]),
            ),
{
    let mut visited: HashSet<u64> = HashSet::new();
    let mut order: Vec<Board> = Vec::new();
    let mut queue: VecDeque<Board> = VecDeque::new();
    order.push(Board::empty());
    let firsts = Board::empty().possible_new_tiles();
    assert(Board(0).wf());
    proof {
        lemma_total_zero();
    }
    for i in 0..firsts.len()
        invariant
            firsts@ == new_tiles(0, 9),
            forall|t: int| 0 <= t < firsts@.len() ==> (#[trigger] firsts@[t]).wf(),
            order@.len() >= 1,
            order@[0] == Board(0),
            forall|k: int| 1 <= k < order@.len() ==> canonical(#[trigger] order@[k]),
            queue@ == order@.subrange(1, order@.len() as int).reverse(),
            reached(order@),
            total(0) == 0,
            forall|k: int| 1 <= k < order@.len() ==> total((#[trigger] order@[k]).0) == 4,
            forall|a: int, b: int|
                0 <= a < i && 0 <= b < new_tiles(new_tiles(0, 9)[a].0, 9).len() && canonical(
                    #[trigger] new_tiles(new_tiles(0, 9)[a].0, 9)[b],
                ) ==> order@.contains(new_tiles(new_tiles(0, 9)[a].0, 9)[b]),
    {
        let seconds = firsts[i].possible_new_tiles();
        proof {
            lemma_new_tiles_total(0, 9);
            lemma_new_tiles_total(firsts@[i as int].0, 9);
            assert(total(firsts@[i as int].0) == 2);
        }
        for j in 0..seconds.len()
            invariant
                firsts@ == new_tiles(0, 9),
                0 <= i < firsts@.len(),
                seconds@ == new_tiles(firsts@[i as int].0, 9),
                forall|t: int| 0 <= t < seconds@.len() ==> (#[trigger] seconds@[t]).wf(),
                order@.len() >= 1,
                order@[0] == Board(0),
                forall|k: int| 1 <= k < order@.len() ==> canonical(#[trigger] order@[k]),
                queue@ == order@.subrange(1, order@.len() as int).reverse(),
                reached(order@),
                total(0) == 0,
                total(firsts@[i as int].0) == 2,
                forall|t: int| 0 <= t < seconds@.len() ==> total((#[trigger] seconds@[t]).0) == 4,
                forall|k: int| 1 <= k < order@.len() ==> total((#[trigger] order@[k]).0) == 4,
                forall|a: int, b: int|
                    0 <= a < i && 0 <= b < new_tiles(new_tiles(0, 9)[a].0, 9).len() && canonical(
                        #[trigger] new_tiles(new_tiles(0, 9)[a].0, 9)[b],
                    ) ==> order@.contains(new_tiles(new_tiles(0, 9)[a].0, 9)[b]),
                forall|b: int|
                    0 <= b < j && canonical(#[trigger] seconds@[b]) ==> order@.contains(seconds@[b]),
        {
            let b2 = seconds[j];
            let c2 = b2.canonical_orientation();
            let ghost o0 = order@;
            if b2 == c2 && !queued(&queue, b2) {
                queue.push_front(b2);
                order.push(b2);
                proof {
                    assert(is_start(b2)) by {
                        assert(b2 == new_tiles(new_tiles(0, 9)[i as int].0, 9)[j as int]);
                    }
                    lemma_reached_push_start(o0, b2);
                    assert(order@ == o0.push(b2));
                    assert(order@.subrange(1, order@.len() as int) =~= o0.subrange(1, o0.len() as int).push(b2));
                    assert(queue@ =~= order@.subrange(1, order@.len() as int).reverse());
                    assert(order@[o0.len() as int] == b2);
                    assert forall|x: Board| o0.contains(x) implies order@.contains(x) by {
                        let k = choose|k: int| 0 <= k < o0.len() && o0[k] == x;
                        assert(order@[k] == x);
                    }
                }
            } else if b2 == c2 {
                proof {
                    let q = choose|q: int| 0 <= q < queue@.len() && queue@[q] == b2;
                    assert(order@[order@.len() - 1 - q] == b2);
                }
            }
        }
    }
    proof {
        assert forall|k: int| 1 <= k < order@.len() implies queue@.contains(#[trigger] order@[k]) by {
            assert(queue@[order@.len() - 1 - k] == order@[k]);
        }
    }
    loop
        invariant
            order@.len() >= 1,
            order@[0] == Board(0),
            forall|k: int| 1 <= k < order@.len() ==> canonical(#[trigger] order@[k]),
            forall|q: int| 0 <= q < queue@.len() ==> canonical(#[trigger] queue@[q]) && order@.contains(queue@[q]),
            starts_in(order@),
            reached(order@),
            visited@.finite(),
            forall|v: u64| #[trigger] visited@.contains(v) ==> canonical(Board(v)) && order@.contains(Board(v)),
            forall|v: u64, j: int|
                visited@.contains(v) && Board(v).lines_fit() && 0 <= j < children(v).len() ==> visited@.contains(
                    #[trigger] children(v)[j],
                ) || queue@.contains(Board(children(v)[j])),
            forall|k: int| 1 <= k < order@.len() ==> visited@.contains((#[trigger] order@[k]).0) || queue@.contains(order@[k]),
            forall|a: int, c: int| 0 <= a < c < order@.len() ==> total((#[trigger] order@[a]).0) <= total((#[trigger] order@[c]).0),
            forall|a: int, c: int| 0 <= a < c < queue@.len() ==> total((#[trigger] queue@[a]).0) >= total((#[trigger] queue@[c]).0),
            queue@.len() > 0 ==> total(order@.last().0) <= total(queue@.last().0) + 2,
            forall|q: int| 0 <= q < queue@.len() ==> total((#[trigger] queue@[q]).0) <= total(order@.last().0),
        ensures
            queue@.len() == 0,
        decreases BOARD_LIMIT + 1 - visited@.len(), queue@.len(),
    {
        proof {
            lemma_visited_bound(visited@);
        }
        let ghost q0 = queue@;
        let ghost o0 = order@;
        match queue.pop_back() {
            None => {
                break;
            },
            Some(b) => {
                proof {
                    assert(q0 =~= queue@.push(b));
                    assert forall|x: Board| q0.contains(x) implies queue@.contains(x) || x == b by {
                        let k = choose|k: int| 0 <= k < q0.len() && q0[k] == x;
                        if k < queue@.len() {
                            assert(queue@[k] == x);
                        }
                    }
                    assert(canonical(q0[q0.len() - 1]));
                }
                let ghost q1 = queue@;
                let ghost mut pushed: Seq<Board> = Seq::empty();
                if !visited.contains(&b.0) {
                    visited.insert(b.0);
                    proof {
                        lemma_visited_bound(visited@);
                    }
                    if b.has_lines_fit() {
                        push_children(b, &mut queue, &mut order);
                        proof {
                            let p = choose|p: Seq<Board>|
                                #![trigger p.len()]
                                values(p) == children(b.0) && order@ == o0 + p && queue@ == p.reverse() + q1;
                            pushed = p;
                            assert(q0[q0.len() - 1] == b);
                            assert(o0.contains(q0[q0.len() - 1]));
                            let jb = choose|jb: int| 0 <= jb < o0.len() && o0[jb] == b;
                            lemma_reached_push_children(o0, p, b, jb);
                            lemma_children_total(b);
                            assert forall|t: int| 0 <= t < p.len() implies total((#[trigger] p[t]).0) == total(b.0) + 2 by {
                                assert(p[t].0 == children(b.0)[t]);
                            }
                            lemma_contains_concat(o0, p);
                            lemma_contains_concat(q1, p.reverse());
                            assert forall|j: int| 0 <= j < children(b.0).len() implies queue@.contains(Board(#[trigger] children(b.0)[j])) by {
                                assert(p[j].0 == children(b.0)[j]);
                                assert(queue@[p.len() - 1 - j] == p[j]);
                            }
                            assert forall|k: int| o0.len() <= k < order@.len() implies queue@.contains(#[trigger] order@[k]) by {
                                let t = k - o0.len();
                                assert(order@[k] == p[t]);
                                assert(queue@[p.len() - 1 - t] == p[t]);
                            }
                            assert forall|q: int| 0 <= q < queue@.len() implies canonical(#[trigger] queue@[q]) && order@.contains(queue@[q]) by {
                                if q < p.len() {
                                    let k = p.len() - 1 - q;
                                    assert(queue@[q] == p[k]);
                                    assert(order@[o0.len() + k] == p[k]);
                                } else {
                                    assert(queue@[q] == q1[q - p.len()]);
                                }
                            }
                        }
                    }
                }
                proof {
                    if pushed.len() == 0 {
                        assert(order@ =~= o0 + pushed);
                        assert(queue@ =~= pushed.reverse() + q1);
                    }
                    lemma_bfs_order(o0, q0, q1, pushed, order@, queue@, b);
                }
            },
        }
    }
    proof {
        assert forall|i: int, j: int|
            1 <= i < order@.len() && order@[i].lines_fit() && 0 <= j < children(order@[i].0).len() implies order@.contains(
                Board(#[trigger] children(order@[i].0)[j]),
            ) by {
            let v = order@[i].0;
            assert(visited@.contains(v) || queue@.contains(order@[i]));
            assert(Board(v) == order@[i]);
            assert(visited@.contains(children(v)[j]) || queue@.contains(Board(children(v)[j])));
        }
    }
    order
}

} // verus!
