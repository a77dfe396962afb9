//! The movement rules of one tick, stated over sequences of cells.
//!
//! A tick scans the grid in row-major order. Each cell that moves exchanges
//! its content with one target cell: a grain or a drop moves into an empty
//! cell, or sand trades places with the water right beneath it. Every target
//! is claimed for the rest of the tick, and a claimed cell is neither a
//! target nor a mover again. All decisions read the grid as it was before
//! the tick.
use crate::cell::Cell;
use vstd::prelude::*;
use vstd::seq_lib::to_multiset_update;

verus! {

/// Linear index of the cell at `(r, c)` in a grid `w` cells wide.
pub open spec fn index_of(w: nat, r: int, c: int) -> int {
    r * w + c
}

/// The cell at `(r, c)` lies in a `w` by `h` grid, and so do its
/// neighbours that the rules look at.
pub proof fn lemma_index_bounds(w: nat, h: nat, r: int, c: int)
    requires
        0 <= r < h,
        0 <= c < w,
    ensures
        0 <= index_of(w, r, c) < w * h,
        r < h - 1 ==> index_of(w, r, c) + w + (w - 1 - c) < w * h,
{
    assert(0 <= r * w) by (nonlinear_arith)
        requires
            0 <= r,
    ;
    assert(r * w + c < w * h) by (nonlinear_arith)
        requires
            0 <= r < h,
            0 <= c < w,
    ;
    if r < h - 1 {
        assert((r + 1) * w + (w - 1) < w * h) by (nonlinear_arith)
            requires
                0 <= r < h - 1,
                0 <= c < w,
        ;
        assert((r + 1) * w == r * w + w) by (nonlinear_arith);
    }
}

/// Where water at `(r, c)` goes, if anywhere. A candidate that was already
/// claimed in this tick ends the search: the drop stays.
pub open spec fn water_target(
    cur: Seq<Cell>,
    claimed: Seq<bool>,
    w: nat,
    h: nat,
    r: int,
    c: int,
) -> Option<int> {
    let i = index_of(w, r, c);
    let down = i + w;
    let down_left = i + w - 1;
    let left = i - 1;
    let down_right = i + w + 1;
    let right = i + 1;
    if r == h - 1 {
        None
    } else if claimed[down] {
        None
    } else if cur[down] == Cell::Empty {
        Some(down)
    } else if c >= 1 && claimed[down_left] {
        None
    } else if c >= 1 && cur[down_left] == Cell::Empty {
        Some(down_left)
    } else if c >= 1 && claimed[left] {
        None
    } else if c >= 1 && cur[left] == Cell::Empty {
        Some(left)
    } else if c < w - 1 && claimed[down_right] {
        None
    } else if c < w - 1 && cur[down_right] == Cell::Empty {
        Some(down_right)
    } else if c < w - 1 && claimed[right] {
        None
    } else if c < w - 1 && cur[right] == Cell::Empty {
        Some(right)
    } else {
        None
    }
}

/// Where sand at `(r, c)` goes, if anywhere. Only the cell straight below
/// may hold water to sink through; the lower-left cell is tried only from
/// column 2 on.
pub open spec fn sand_target(
    cur: Seq<Cell>,
    claimed: Seq<bool>,
    w: nat,
    h: nat,
    r: int,
    c: int,
) -> Option<int> {
    let i = index_of(w, r, c);
    let down = i + w;
    let down_left = i + w - 1;
    let down_right = i + w + 1;
    if r == h - 1 {
        None
    } else if claimed[down] {
        None
    } else if cur[down] == Cell::Empty || cur[down] == Cell::Water {
        Some(down)
    } else if c > 1 && claimed[down_left] {
        None
    } else if c > 1 && cur[down_left] == Cell::Empty {
        Some(down_left)
    } else if c < w - 1 && claimed[down_right] {
        None
    } else if c < w - 1 && cur[down_right] == Cell::Empty {
        Some(down_right)
    } else {
        None
    }
}

/// Where the cell at `(r, c)` goes in this tick: nowhere if it was claimed
/// as a target before, or if it is empty or concrete.
pub open spec fn target(cur: Seq<Cell>, claimed: Seq<bool>, w: nat, h: nat, r: int, c: int) -> Option<int> {
    let i = index_of(w, r, c);
    if claimed[i] {
        None
    } else {
        match cur[i] {
            Cell::Water => water_target(cur, claimed, w, h, r, c),
            Cell::Sand => sand_target(cur, claimed, w, h, r, c),
            _ => None,
        }
    }
}

/// A tick in progress: the grid being written, the claimed targets, and the
/// moves made so far as `(source, target)` pairs.
pub struct Scan {
    pub next: Seq<Cell>,
    pub claimed: Seq<bool>,
    pub moves: Seq<(int, int)>,
}

/// The state in which every tick starts.
pub open spec fn start(cur: Seq<Cell>) -> Scan {
    Scan { next: cur, claimed: Seq::new(cur.len(), |i: int| false), moves: seq![] }
}

/// The scan after deciding the cell at `(r, c)`.
pub open spec fn visit(cur: Seq<Cell>, w: nat, h: nat, r: int, c: int, s: Scan) -> Scan {
    let i = index_of(w, r, c);
    match target(cur, s.claimed, w, h, r, c) {
        Some(t) => Scan {
            next: s.next.update(i, cur[t]).update(t, cur[i]),
            claimed: s.claimed.update(t, true),
            moves: s.moves.push((i, t)),
        },
        None => s,
    }
}

/// The scan after deciding the first `c` cells of row `r`, starting from `s`.
pub open spec fn scan_row(cur: Seq<Cell>, w: nat, h: nat, r: int, c: nat, s: Scan) -> Scan
    decreases c,
{
    if c == 0 {
        s
    } else {
        visit(cur, w, h, r, c - 1, scan_row(cur, w, h, r, (c - 1) as nat, s))
    }
}

/// The scan after deciding every cell of the first `r` rows.
pub open spec fn scan_rows(cur: Seq<Cell>, w: nat, h: nat, r: nat) -> Scan
    decreases r,
{
    if r == 0 {
        start(cur)
    } else {
        scan_row(cur, w, h, r - 1, w, scan_rows(cur, w, h, (r - 1) as nat))
    }
}

/// The grid after one tick.
pub open spec fn step(cur: Seq<Cell>, w: nat, h: nat) -> Seq<Cell> {
    scan_rows(cur, w, h, h).next
}

/// The moves of one tick, in scan order.
pub open spec fn step_moves(cur: Seq<Cell>, w: nat, h: nat) -> Seq<(int, int)> {
    scan_rows(cur, w, h, h).moves
}

/// The grid after `n` ticks.
pub open spec fn steps(cur: Seq<Cell>, w: nat, h: nat, n: nat) -> Seq<Cell>
    decreases n,
{
    if n == 0 {
        cur
    } else {
        step(steps(cur, w, h, (n - 1) as nat), w, h)
    }
}

/// Exchanging two entries of a sequence keeps its multiset of values.
pub proof fn lemma_swap_keeps_multiset<A>(s: Seq<A>, i: int, j: int)
    requires
        0 <= i < s.len(),
        0 <= j < s.len(),
    ensures
        s.update(i, s[j]).update(j, s[i]).to_multiset() == s.to_multiset(),
{
    broadcast use vstd::multiset::group_multiset_axioms;
    broadcast use vstd::seq_lib::to_multiset_contains;

    let s1 = s.update(i, s[j]);
    assert(s.contains(s[i]));
    to_multiset_update(s, i, s[j]);
    to_multiset_update(s1, j, s[i]);
    if i == j {
        assert(s1 =~= s);
        assert(s.to_multiset().insert(s[i]).remove(s[i]) =~= s.to_multiset());
    } else {
        assert(s.to_multiset().insert(s[j]).remove(s[i]).insert(s[i]).remove(s[j]) =~= s.to_multiset());
    }
}

/// Cell `i` takes part in one of `moves`, as source or as target.
pub open spec fn touched(moves: Seq<(int, int)>, i: int) -> bool {
    exists|k: int| 0 <= k < moves.len() && (#[trigger] moves[k].0 == i || moves[k].1 == i)
}

/// Move `m` of a scan that has decided the cells before `p`: a sand or
/// water cell before `p` exchanged with an empty cell, or sand with water,
/// and its target is claimed.
pub open spec fn move_done(cur: Seq<Cell>, p: int, s: Scan, m: (int, int)) -> bool {
    let (a, b) = m;
    &&& 0 <= a < p
    &&& 0 <= b < cur.len()
    &&& a != b
    &&& s.claimed[b]
    &&& (cur[a] == Cell::Sand || cur[a] == Cell::Water)
    &&& (cur[b] == Cell::Empty || (cur[a] == Cell::Sand && cur[b] == Cell::Water))
    &&& s.next[a] == cur[b]
    &&& s.next[b] == cur[a]
}

/// Two moves share no cell.
pub open spec fn apart(m1: (int, int), m2: (int, int)) -> bool {
    m1.0 != m2.0 && m1.0 != m2.1 && m1.1 != m2.0 && m1.1 != m2.1
}

/// What holds of a scan that has decided the cells before `p`.
pub open spec fn scan_inv(cur: Seq<Cell>, p: int, s: Scan) -> bool {
    &&& s.next.len() == cur.len()
    &&& s.claimed.len() == cur.len()
    &&& s.next.to_multiset() == cur.to_multiset()
    &&& forall|k: int| 0 <= k < s.moves.len() ==> move_done(cur, p, s, #[trigger] s.moves[k])
    &&& forall|k1: int, k2: int|
        0 <= k1 < s.moves.len() && 0 <= k2 < s.moves.len() && k1 != k2 ==> apart(
            #[trigger] s.moves[k1],
            #[trigger] s.moves[k2],
        )
    &&& forall|i: int| 0 <= i < cur.len() && !touched(s.moves, i) ==> #[trigger] s.next[i] == cur[i]
}

/// A target lies in the grid, next to its source, and was free to take.
proof fn lemma_target_shape(cur: Seq<Cell>, claimed: Seq<bool>, w: nat, h: nat, r: int, c: int, t: int)
    requires
        cur.len() == w * h,
        claimed.len() == w * h,
        0 <= r < h,
        0 <= c < w,
        target(cur, claimed, w, h, r, c) == Some(t),
    ensures
        0 <= t < cur.len(),
        t != index_of(w, r, c),
        t < index_of(w, r, c) ==> cur[t] == Cell::Empty,
        !claimed[t],
        !claimed[index_of(w, r, c)],
        cur[index_of(w, r, c)] == Cell::Sand || cur[index_of(w, r, c)] == Cell::Water,
        cur[t] == Cell::Empty || (cur[index_of(w, r, c)] == Cell::Sand && cur[t] == Cell::Water),
{
    lemma_index_bounds(w, h, r, c);
}

/// Deciding one more cell keeps the scan invariant.
proof fn lemma_visit(cur: Seq<Cell>, w: nat, h: nat, r: int, c: int, s: Scan)
    requires
        cur.len() == w * h,
        0 <= r < h,
        0 <= c < w,
        scan_inv(cur, index_of(w, r, c), s),
    ensures
        scan_inv(cur, index_of(w, r, c) + 1, visit(cur, w, h, r, c, s)),
{
    let p = index_of(w, r, c);
    lemma_index_bounds(w, h, r, c);
    let s2 = visit(cur, w, h, r, c, s);
    match target(cur, s.claimed, w, h, r, c) {
        Some(t) => {
            lemma_target_shape(cur, s.claimed, w, h, r, c, t);
            assert(!touched(s.moves, p));
            assert(!touched(s.moves, t));
            assert(s.next[p] == cur[p]);
            assert(s.next[t] == cur[t]);
            lemma_swap_keeps_multiset(s.next, p, t);
            assert(s2.moves.last() == (p, t));
            assert forall|k: int| 0 <= k < s2.moves.len() implies move_done(cur, p + 1, s2, #[trigger] s2.moves[k]) by {
                if k < s.moves.len() {
                    assert(s2.moves[k] == s.moves[k]);
                    assert(move_done(cur, p, s, s.moves[k]));
                    assert(apart(s.moves[k], (p, t)));
                }
            }
            assert forall|k1: int, k2: int|
                0 <= k1 < s2.moves.len() && 0 <= k2 < s2.moves.len() && k1 != k2 implies apart(
                #[trigger] s2.moves[k1],
                #[trigger] s2.moves[k2],
            ) by {
                if k1 < s.moves.len() {
                    assert(move_done(cur, p, s, s.moves[k1]));
                }
                if k2 < s.moves.len() {
                    assert(move_done(cur, p, s, s.moves[k2]));
                }
            }
            assert forall|i: int| 0 <= i < cur.len() && !touched(s2.moves, i) implies #[trigger] s2.next[i] == cur[i] by {
                assert(i != p && i != t) by {
                    if i == p || i == t {
                        assert(s2.moves[s.moves.len() as int] == (p, t));
                    }
                }
                assert(!touched(s.moves, i)) by {
                    if touched(s.moves, i) {
                        let k = choose|k: int| 0 <= k < s.moves.len() && (#[trigger] s.moves[k].0 == i || s.moves[k].1 == i);
                        assert(s2.moves[k] == s.moves[k]);
                    }
                }
            }
        },
        None => {
            assert forall|k: int| 0 <= k < s2.moves.len() implies move_done(cur, p + 1, s2, #[trigger] s2.moves[k]) by {
                assert(move_done(cur, p, s, s.moves[k]));
            }
        },
    }
}

/// Deciding the first `c` cells of row `r` keeps the scan invariant.
proof fn lemma_scan_row(cur: Seq<Cell>, w: nat, h: nat, r: int, c: nat, s: Scan)
    requires
        cur.len() == w * h,
        0 <= r < h,
        c <= w,
        scan_inv(cur, index_of(w, r, 0), s),
    ensures
        scan_inv(cur, index_of(w, r, c as int), scan_row(cur, w, h, r, c, s)),
    decreases c,
{
    if c > 0 {
        lemma_scan_row(cur, w, h, r, (c - 1) as nat, s);
        lemma_visit(cur, w, h, r, c - 1, scan_row(cur, w, h, r, (c - 1) as nat, s));
    }
}

/// Deciding every cell of the first `r` rows keeps the scan invariant.
proof fn lemma_scan_rows(cur: Seq<Cell>, w: nat, h: nat, r: nat)
    requires
        cur.len() == w * h,
        r <= h,
    ensures
        scan_inv(cur, index_of(w, r as int, 0), scan_rows(cur, w, h, r)),
    decreases r,
{
    if r == 0 {
        assert(index_of(w, 0, 0) == 0);
    } else {
        lemma_scan_rows(cur, w, h, (r - 1) as nat);
        lemma_scan_row(cur, w, h, r - 1, w, scan_rows(cur, w, h, (r - 1) as nat));
        assert(index_of(w, r - 1, w as int) == index_of(w, r as int, 0)) by (nonlinear_arith);
    }
}

/// After a whole tick the scan invariant holds over every cell.
proof fn lemma_tick(cur: Seq<Cell>, w: nat, h: nat)
    requires
        cur.len() == w * h,
    ensures
        scan_inv(cur, (w * h) as int, scan_rows(cur, w, h, h)),
{
    lemma_scan_rows(cur, w, h, h);
    assert(index_of(w, h as int, 0) == w * h) by (nonlinear_arith);
}

/// A tick creates and destroys nothing: the grid after it holds the same
/// cells, counted with multiplicity, as before it. In particular each
/// non-empty kind occurs as often as before.
pub proof fn lemma_step_conserves(cur: Seq<Cell>, w: nat, h: nat)
    requires
        cur.len() == w * h,
    ensures
        step(cur, w, h).len() == cur.len(),
        step(cur, w, h).to_multiset() == cur.to_multiset(),
        forall|kind: Cell|
            kind != Cell::Empty ==> #[trigger] step(cur, w, h).to_multiset().count(kind)
                == cur.to_multiset().count(kind),
{
    lemma_tick(cur, w, h);
}

/// Concrete stays where it is: a cell holds concrete after a tick exactly
/// when it held concrete before it.
pub proof fn lemma_concrete_stays(cur: Seq<Cell>, w: nat, h: nat)
    requires
        cur.len() == w * h,
    ensures
        step(cur, w, h).len() == cur.len(),
        forall|i: int|
            0 <= i < cur.len() ==> (#[trigger] step(cur, w, h)[i] == Cell::Concrete <==> cur[i]
                == Cell::Concrete),
{
    lemma_tick(cur, w, h);
    let s = scan_rows(cur, w, h, h);
    assert forall|i: int| 0 <= i < cur.len() implies (#[trigger] step(cur, w, h)[i] == Cell::Concrete
        <==> cur[i] == Cell::Concrete) by {
        if touched(s.moves, i) {
            let k = choose|k: int| 0 <= k < s.moves.len() && (#[trigger] s.moves[k].0 == i || s.moves[k].1 == i);
            assert(move_done(cur, (w * h) as int, s, s.moves[k]));
        }
    }
}

/// A tick is a set of exchanges between disjoint pairs of cells: no two
/// moves share a source or a target, so no cell is claimed by two sources.
/// Each move swaps its two cells, and every cell outside all moves keeps
/// its content.
pub proof fn lemma_single_claim(cur: Seq<Cell>, w: nat, h: nat)
    requires
        cur.len() == w * h,
    ensures
        forall|k1: int, k2: int|
            0 <= k1 < step_moves(cur, w, h).len() && 0 <= k2 < step_moves(cur, w, h).len() && k1
                != k2 ==> #[trigger] step_moves(cur, w, h)[k1].1 != #[trigger] step_moves(
                cur,
                w,
                h,
            )[k2].1 && step_moves(cur, w, h)[k1].0 != step_moves(cur, w, h)[k2].0,
        forall|k: int|
            0 <= k < step_moves(cur, w, h).len() ==> {
                let (a, b) = #[trigger] step_moves(cur, w, h)[k];
                &&& 0 <= a < cur.len()
                &&& 0 <= b < cur.len()
                &&& a != b
                &&& step(cur, w, h)[a] == cur[b]
                &&& step(cur, w, h)[b] == cur[a]
            },
        forall|i: int|
            0 <= i < cur.len() && !touched(step_moves(cur, w, h), i) ==> #[trigger] step(cur, w, h)[i]
                == cur[i],
{
    lemma_tick(cur, w, h);
    let s = scan_rows(cur, w, h, h);
    assert forall|k: int| 0 <= k < s.moves.len() implies {
        let (a, b) = #[trigger] s.moves[k];
        &&& 0 <= a < cur.len()
        &&& 0 <= b < cur.len()
        &&& a != b
        &&& s.next[a] == cur[b]
        &&& s.next[b] == cur[a]
    } by {
        assert(move_done(cur, (w * h) as int, s, s.moves[k]));
    }
    assert forall|k1: int, k2: int|
        0 <= k1 < s.moves.len() && 0 <= k2 < s.moves.len() && k1 != k2 implies #[trigger] s.moves[k1].1
        != #[trigger] s.moves[k2].1 && s.moves[k1].0 != s.moves[k2].0 by {
        assert(apart(s.moves[k1], s.moves[k2]));
    }
}

/// A grid of empty and concrete cells only is left as it is by a tick.
proof fn lemma_still_step(cur: Seq<Cell>, w: nat, h: nat)
    requires
        cur.len() == w * h,
        forall|i: int| 0 <= i < cur.len() ==> #[trigger] cur[i] == Cell::Empty || cur[i] == Cell::Concrete,
    ensures
        step(cur, w, h) == cur,
{
    lemma_tick(cur, w, h);
    let s = scan_rows(cur, w, h, h);
    if s.moves.len() > 0 {
        assert(move_done(cur, (w * h) as int, s, s.moves[0]));
    }
    assert(s.next =~= cur);
}

/// A grid of empty and concrete cells only is a fixed point: any number of
/// ticks leaves it as it is.
pub proof fn lemma_still_grid(cur: Seq<Cell>, w: nat, h: nat, n: nat)
    requires
        cur.len() == w * h,
        forall|i: int| 0 <= i < cur.len() ==> #[trigger] cur[i] == Cell::Empty || cur[i] == Cell::Concrete,
    ensures
        steps(cur, w, h, n) == cur,
    decreases n,
{
    if n > 0 {
        lemma_still_grid(cur, w, h, (n - 1) as nat);
        lemma_still_step(cur, w, h);
    }
}

} // verus!
