//! The region classifier's foundations: 4-connectivity over open cells,
//! and the stack-based flood fill that collects one maximal connected
//! region, proved to return exactly the connected component of its seed.

use vstd::prelude::*;

use crate::entity::Position;
use crate::grid::{
    cell_xy, grid_wf, interior, lemma_idx_bounds, lemma_idx_inj, open_cell, Cell,
};

verus! {

/// Two coordinates are 4-adjacent.
pub open spec fn adj(p: (int, int), q: (int, int)) -> bool {
    (p.0 == q.0 && (p.1 == q.1 + 1 || p.1 == q.1 - 1)) || (p.1 == q.1 && (p.0 == q.0 + 1 || p.0
        == q.0 - 1))
}

pub open spec fn open_at(b: Seq<Cell>, w: int, h: int, p: (int, int)) -> bool {
    open_cell(b, w, h, p.0, p.1)
}

/// A walk through the board: every entry is an open interior cell and
/// consecutive entries are 4-adjacent.
pub open spec fn is_path(b: Seq<Cell>, w: int, h: int, path: Seq<(int, int)>) -> bool {
    &&& forall|i: int| 0 <= i < path.len() ==> open_at(b, w, h, #[trigger] path[i])
    &&& forall|i: int| 0 <= i < path.len() - 1 ==> adj(#[trigger] path[i], path[i + 1])
}

/// Connectivity: some walk through open cells leads from p to q. Both ends
/// are then themselves open interior cells.
pub open spec fn conn(b: Seq<Cell>, w: int, h: int, p: (int, int), q: (int, int)) -> bool {
    exists|path: Seq<(int, int)>|
        #[trigger] is_path(b, w, h, path) && path.len() > 0 && path.first() == p && path.last() == q
}

/// Whether a sequence of positions holds the coordinate (x, y).
pub open spec fn has_pos(s: Seq<Position>, x: int, y: int) -> bool {
    exists|i: int| 0 <= i < s.len() && (#[trigger] s[i]).x == x && s[i].y == y
}

/// The flat visited flag of coordinate p.
pub open spec fn vis_of(vis: Seq<bool>, w: int, p: (int, int)) -> bool {
    vis[p.1 * w + p.0]
}

/// A visited set that is closed under stepping to open neighbours.
pub open spec fn visited_closed(b: Seq<Cell>, w: int, h: int, vis: Seq<bool>) -> bool {
    forall|p: (int, int), q: (int, int)|
        open_at(b, w, h, p) && #[trigger] vis_of(vis, w, p) && open_at(b, w, h, q) && #[trigger] adj(
            p,
            q,
        ) ==> vis_of(vis, w, q)
}

/// A non-empty position list that is exactly the connected component of
/// its first element.
pub open spec fn is_component(b: Seq<Cell>, w: int, h: int, r: Seq<Position>) -> bool {
    &&& r.len() > 0
    &&& forall|x: int, y: int|
        #[trigger] has_pos(r, x, y) <==> conn(b, w, h, (r[0].x as int, r[0].y as int), (x, y))
}

/// No coordinate is listed twice.
pub open spec fn distinct_positions(r: Seq<Position>) -> bool {
    forall|i1: int, i2: int|
        0 <= i1 < i2 < r.len() ==> !((#[trigger] r[i1]).x == (#[trigger] r[i2]).x && r[i1].y
            == r[i2].y)
}

/// The set of coordinates connected to (x, y).
pub open spec fn comp_set(b: Seq<Cell>, w: int, h: int, x: int, y: int) -> Set<(int, int)> {
    Set::new(|q: (int, int)| conn(b, w, h, (x, y), q))
}

/// A duplicate-free region list has as many entries as its component has
/// cells, and every member sees the same component.
pub proof fn lemma_component_size(b: Seq<Cell>, w: int, h: int, r: Seq<Position>, x: int, y: int)
    requires
        is_component(b, w, h, r),
        distinct_positions(r),
        has_pos(r, x, y),
    ensures
        comp_set(b, w, h, x, y).len() == r.len(),
        comp_set(b, w, h, x, y).finite(),
{
    let m = Seq::new(r.len(), |i: int| ((r[i].x as int, r[i].y as int)));
    assert forall|i1: int, i2: int| 0 <= i1 < i2 < m.len() implies m[i1] != m[i2] by {
        assert(!(r[i1].x == r[i2].x && r[i1].y == r[i2].y));
    }
    assert(m.no_duplicates());
    m.unique_seq_to_set();
    vstd::seq_lib::seq_to_set_is_finite(m);
    assert forall|q: (int, int)| #[trigger] comp_set(b, w, h, x, y).contains(q) implies m.to_set().contains(
        q,
    ) by {
        // conn from (x, y) relays through the component's first cell.
        let seed = (r[0].x as int, r[0].y as int);
        assert(conn(b, w, h, seed, (x, y)));
        lemma_conn_trans(b, w, h, seed, (x, y), q);
        assert(has_pos(r, q.0, q.1));
        let i = choose|i: int| 0 <= i < r.len() && (#[trigger] r[i]).x == q.0 && r[i].y == q.1;
        assert(m[i] == q);
        assert(m.contains(q));
    }
    assert forall|q: (int, int)| #[trigger] m.to_set().contains(q) implies comp_set(
        b,
        w,
        h,
        x,
        y,
    ).contains(q) by {
        let i = choose|i: int| 0 <= i < m.len() && m[i] == q;
        assert(has_pos(r, q.0, q.1));
        let seed = (r[0].x as int, r[0].y as int);
        assert(conn(b, w, h, seed, q));
        assert(conn(b, w, h, seed, (x, y)));
        lemma_conn_sym(b, w, h, seed, (x, y));
        lemma_conn_trans(b, w, h, (x, y), seed, q);
    }
    assert(comp_set(b, w, h, x, y) =~= m.to_set());
}

pub proof fn lemma_conn_refl(b: Seq<Cell>, w: int, h: int, p: (int, int))
    requires
        open_at(b, w, h, p),
    ensures
        conn(b, w, h, p, p),
{
    let path: Seq<(int, int)> = seq![p];
    assert(path[0] == p);
    assert(is_path(b, w, h, path));
    assert(path.first() == p && path.last() == p);
}

/// Connectivity extends along one adjacent open step.
pub proof fn lemma_conn_step(b: Seq<Cell>, w: int, h: int, p: (int, int), q: (int, int), r: (
    int,
    int,
))
    requires
        conn(b, w, h, p, q),
        adj(q, r),
        open_at(b, w, h, r),
    ensures
        conn(b, w, h, p, r),
{
    let path = choose|path: Seq<(int, int)>|
        #[trigger] is_path(b, w, h, path) && path.len() > 0 && path.first() == p && path.last()
            == q;
    let path2 = path.push(r);
    assert forall|i: int| 0 <= i < path2.len() implies open_at(b, w, h, #[trigger] path2[i]) by {
        if i < path.len() {
            assert(path2[i] == path[i]);
        } else {
            assert(path2[i] == r);
        }
    }
    assert forall|i: int| 0 <= i < path2.len() - 1 implies adj(#[trigger] path2[i], path2[i + 1]) by {
        if i < path.len() - 1 {
            assert(path2[i] == path[i] && path2[i + 1] == path[i + 1]);
        } else {
            assert(path2[i] == path.last() && path2[i + 1] == r);
        }
    }
    assert(is_path(b, w, h, path2));
    assert(path2.first() == p && path2.last() == r);
}

/// Connectivity is symmetric: the reversed walk serves.
pub proof fn lemma_conn_sym(b: Seq<Cell>, w: int, h: int, p: (int, int), q: (int, int))
    requires
        conn(b, w, h, p, q),
    ensures
        conn(b, w, h, q, p),
{
    let path = choose|path: Seq<(int, int)>|
        #[trigger] is_path(b, w, h, path) && path.len() > 0 && path.first() == p && path.last()
            == q;
    let n = path.len() as int;
    let rev = Seq::new(path.len(), |i: int| path[n - 1 - i]);
    assert forall|i: int| 0 <= i < rev.len() implies open_at(b, w, h, #[trigger] rev[i]) by {
        assert(rev[i] == path[n - 1 - i]);
    }
    assert forall|i: int| 0 <= i < rev.len() - 1 implies adj(#[trigger] rev[i], rev[i + 1]) by {
        assert(rev[i] == path[n - 1 - i] && rev[i + 1] == path[n - 2 - i]);
        assert(adj(path[n - 2 - i], path[n - 1 - i]));
    }
    assert(is_path(b, w, h, rev));
    assert(rev.first() == q && rev.last() == p);
}

/// Connectivity is transitive: concatenate the walks.
pub proof fn lemma_conn_trans(b: Seq<Cell>, w: int, h: int, p: (int, int), q: (int, int), r: (
    int,
    int,
))
    requires
        conn(b, w, h, p, q),
        conn(b, w, h, q, r),
    ensures
        conn(b, w, h, p, r),
{
    let p1 = choose|path: Seq<(int, int)>|
        #[trigger] is_path(b, w, h, path) && path.len() > 0 && path.first() == p && path.last()
            == q;
    let p2 = choose|path: Seq<(int, int)>|
        #[trigger] is_path(b, w, h, path) && path.len() > 0 && path.first() == q && path.last()
            == r;
    if p2.len() == 1 {
        assert(q == r);
    } else {
        let tail = p2.subrange(1, p2.len() as int);
        let cat = p1 + tail;
        let n1 = p1.len() as int;
        assert forall|i: int| 0 <= i < cat.len() implies open_at(b, w, h, #[trigger] cat[i]) by {
            if i < n1 {
                assert(cat[i] == p1[i]);
            } else {
                assert(cat[i] == p2[i - n1 + 1]);
            }
        }
        assert forall|i: int| 0 <= i < cat.len() - 1 implies adj(#[trigger] cat[i], cat[i + 1]) by {
            if i < n1 - 1 {
                assert(cat[i] == p1[i] && cat[i + 1] == p1[i + 1]);
            } else if i == n1 - 1 {
                assert(cat[i] == p1.last() && cat[i + 1] == p2[1]);
                assert(adj(p2[0], p2[1]));
            } else {
                assert(cat[i] == p2[i - n1 + 1] && cat[i + 1] == p2[i - n1 + 2]);
                assert(adj(p2[i - n1 + 1], p2[i - n1 + 2]));
            }
        }
        assert(is_path(b, w, h, cat));
        assert(cat.first() == p && cat.last() == r);
    }
}

proof fn lemma_closed_along_path(
    b: Seq<Cell>,
    w: int,
    h: int,
    vis: Seq<bool>,
    path: Seq<(int, int)>,
    i: int,
)
    requires
        visited_closed(b, w, h, vis),
        is_path(b, w, h, path),
        0 <= i < path.len(),
        vis_of(vis, w, path.first()),
    ensures
        vis_of(vis, w, path[i]),
    decreases i,
{
    if i > 0 {
        lemma_closed_along_path(b, w, h, vis, path, i - 1);
        assert(adj(path[i - 1], path[i]));
    }
}

/// A closed visited set that holds p holds everything connected to p.
pub proof fn lemma_closed_reaches(
    b: Seq<Cell>,
    w: int,
    h: int,
    vis: Seq<bool>,
    p: (int, int),
    q: (int, int),
)
    requires
        visited_closed(b, w, h, vis),
        conn(b, w, h, p, q),
        vis_of(vis, w, p),
    ensures
        vis_of(vis, w, q),
{
    let path = choose|path: Seq<(int, int)>|
        #[trigger] is_path(b, w, h, path) && path.len() > 0 && path.first() == p && path.last()
            == q;
    lemma_closed_along_path(b, w, h, vis, path, path.len() - 1);
}

/// Both ends of a connection are open cells.
pub proof fn lemma_conn_open(b: Seq<Cell>, w: int, h: int, p: (int, int), q: (int, int))
    requires
        conn(b, w, h, p, q),
    ensures
        open_at(b, w, h, p),
        open_at(b, w, h, q),
{
    let path = choose|path: Seq<(int, int)>|
        #[trigger] is_path(b, w, h, path) && path.len() > 0 && path.first() == p && path.last()
            == q;
    assert(open_at(b, w, h, path[0]));
    assert(open_at(b, w, h, path[path.len() - 1]));
}

/// The number of false entries, the potential of a flood fill.
pub open spec fn count_false(s: Seq<bool>) -> int
    decreases s.len(),
{
    if s.len() == 0 {
        0
    } else {
        (if s[0] {
            0int
        } else {
            1int
        }) + count_false(s.subrange(1, s.len() as int))
    }
}

pub proof fn lemma_count_false_nonneg(s: Seq<bool>)
    ensures
        count_false(s) >= 0,
    decreases s.len(),
{
    if s.len() > 0 {
        lemma_count_false_nonneg(s.subrange(1, s.len() as int));
    }
}

/// Marking one still-false entry true lowers the potential by one.
pub proof fn lemma_count_false_update(s: Seq<bool>, i: int)
    requires
        0 <= i < s.len(),
        !s[i],
    ensures
        count_false(s.update(i, true)) == count_false(s) - 1,
    decreases s.len(),
{
    let s2 = s.update(i, true);
    if i == 0 {
        assert(s2.subrange(1, s2.len() as int) =~= s.subrange(1, s.len() as int));
    } else {
        assert(s2.subrange(1, s2.len() as int) =~= s.subrange(1, s.len() as int).update(
            i - 1,
            true,
        ));
        lemma_count_false_update(s.subrange(1, s.len() as int), i - 1);
    }
}

/// Every cell of `region` is reachable by neighbours already in `region`
/// or visited before; walking any open path out of the seed can therefore
/// never leave `region`, since the previously visited set is closed and
/// excludes the seed.
proof fn lemma_region_complete_along(
    b: Seq<Cell>,
    w: int,
    h: int,
    v0: Seq<bool>,
    region: Seq<Position>,
    path: Seq<(int, int)>,
    i: int,
)
    requires
        visited_closed(b, w, h, v0),
        is_path(b, w, h, path),
        path.len() > 0,
        !vis_of(v0, w, path.first()),
        has_pos(region, path.first().0, path.first().1),
        forall|x1: int, y1: int, x2: int, y2: int|
            #![trigger has_pos(region, x1, y1), has_pos(region, x2, y2)]
            has_pos(region, x1, y1) && open_cell(b, w, h, x2, y2) && adj((x1, y1), (x2, y2))
                ==> vis_of(v0, w, (x2, y2)) || has_pos(region, x2, y2),
        0 <= i < path.len(),
    ensures
        has_pos(region, path[i].0, path[i].1),
    decreases i,
{
    if i > 0 {
        lemma_region_complete_along(b, w, h, v0, region, path, i - 1);
        assert(adj(path[i - 1], path[i]));
        assert((path[i - 1].0, path[i - 1].1) == path[i - 1]);
        assert((path[i].0, path[i].1) == path[i]);
        assert(open_at(b, w, h, path[i]));
        if vis_of(v0, w, (path[i].0, path[i].1)) {
            let pre = path.subrange(0, i + 1);
            assert forall|j: int| 0 <= j < pre.len() implies open_at(b, w, h, #[trigger] pre[j]) by {
                assert(pre[j] == path[j]);
            }
            assert forall|j: int| 0 <= j < pre.len() - 1 implies adj(
                #[trigger] pre[j],
                pre[j + 1],
            ) by {
                assert(pre[j] == path[j] && pre[j + 1] == path[j + 1]);
            }
            assert(is_path(b, w, h, pre));
            assert(pre.first() == path.first() && pre.last() == path[i]);
            assert(conn(b, w, h, path.first(), path[i]));
            lemma_conn_sym(b, w, h, path.first(), path[i]);
            lemma_closed_reaches(b, w, h, v0, path[i], path.first());
            assert(false);
        }
    }
}

/// Grow the maximal connected open region around the seed (sx, sy) with an
/// explicit work stack, marking everything collected as visited. Requires
/// that the already-visited set is closed, so nothing reachable from the
/// fresh seed has been taken by an earlier region; returns exactly the
/// connected component of the seed.
#[verifier::loop_isolation(false)]
#[verifier::rlimit(60)]
pub fn flood_region(
    board: &Vec<Cell>,
    width: i32,
    height: i32,
    visited: &mut Vec<bool>,
    sx: i32,
    sy: i32,
) -> (region: Vec<Position>)
    requires
        grid_wf(board@, width as int, height as int),
        old(visited)@.len() == board@.len(),
        open_cell(board@, width as int, height as int, sx as int, sy as int),
        !vis_of(old(visited)@, width as int, (sx as int, sy as int)),
        visited_closed(board@, width as int, height as int, old(visited)@),
    ensures
        final(visited)@.len() == old(visited)@.len(),
        is_component(board@, width as int, height as int, region@),
        distinct_positions(region@),
        region@[0].x == sx && region@[0].y == sy,
        forall|i: int|
            0 <= i < region@.len() ==> !vis_of(
                old(visited)@,
                width as int,
                ((#[trigger] region@[i]).x as int, region@[i].y as int),
            ),
        forall|x: int, y: int|
            0 <= x < width as int && 0 <= y < height as int ==> #[trigger] vis_of(
                final(visited)@,
                width as int,
                (x, y),
            ) == (vis_of(old(visited)@, width as int, (x, y)) || conn(
                board@,
                width as int,
                height as int,
                (sx as int, sy as int),
                (x, y),
            )),
        visited_closed(board@, width as int, height as int, final(visited)@),
{
    let ghost b = board@;
    let ghost w = width as int;
    let ghost h = height as int;
    let ghost v0 = old(visited)@;
    let ghost seed: (int, int) = (sx as int, sy as int);
    let mut region: Vec<Position> = Vec::new();
    let mut stack: Vec<Position> = Vec::new();
    stack.push(Position::new(sx, sy));

    proof {
        lemma_count_false_nonneg(v0);
        assert(stack@[0].x == sx && stack@[0].y == sy);
        assert(has_pos(stack@, sx as int, sy as int));
    }

    while stack.len() > 0
        invariant
            visited@.len() == v0.len(),
            // What is newly visited is exactly the region collected so far.
            forall|x: int, y: int|
                0 <= x < w && 0 <= y < h ==> #[trigger] vis_of(visited@, w, (x, y)) == (vis_of(
                    v0,
                    w,
                    (x, y),
                ) || has_pos(region@, x, y)),
            // Region members are open, connected to the seed, and fresh.
            forall|i: int|
                0 <= i < region@.len() ==> open_cell(
                    b,
                    w,
                    h,
                    (#[trigger] region@[i]).x as int,
                    region@[i].y as int,
                ) && conn(b, w, h, seed, (region@[i].x as int, region@[i].y as int)) && !vis_of(
                    v0,
                    w,
                    (region@[i].x as int, region@[i].y as int),
                ),
            region@.len() > 0 ==> region@[0].x == sx && region@[0].y == sy,
            distinct_positions(region@),
            // Stack entries stay near the board and descend from the seed
            // or from some member already collected.
            forall|i: int|
                0 <= i < stack@.len() ==> 0 <= (#[trigger] stack@[i]).x < width && 0 <= stack@[i].y
                    < height,
            forall|i: int|
                0 <= i < stack@.len() ==> ((#[trigger] stack@[i]).x == sx && stack@[i].y == sy)
                    || exists|j: int|
                    0 <= j < region@.len() && adj(
                        ((#[trigger] region@[j]).x as int, region@[j].y as int),
                        (stack@[i].x as int, stack@[i].y as int),
                    ),
            // Every open neighbour of a member is already visited or still
            // waiting on the stack.
            forall|x1: int, y1: int, x2: int, y2: int|
                #![trigger has_pos(region@, x1, y1), open_cell(b, w, h, x2, y2)]
                has_pos(region@, x1, y1) && open_cell(b, w, h, x2, y2) && adj(
                    (x1, y1),
                    (x2, y2),
                ) ==> vis_of(visited@, w, (x2, y2)) || has_pos(stack@, x2, y2),
            // The seed is collected or still waiting.
            has_pos(region@, sx as int, sy as int) || has_pos(stack@, sx as int, sy as int),
            count_false(visited@) >= 0,
        decreases count_false(visited@), stack@.len(),
    {
        let ghost stack_pre = stack@;
        let p = stack.pop().unwrap();
        let ghost region_pre = region@;
        let ghost vis_pre = visited@;

        if p.x >= 1 && p.y >= 1 && p.x < width - 1 && p.y < height - 1 {
            proof {
                lemma_idx_bounds(w, h, p.x as int, p.y as int);
            }
            let idx: usize = (p.y as usize) * (width as usize) + (p.x as usize);
            if !visited[idx] && board[idx] != Cell::Filled {
                let ghost px = p.x as int;
                let ghost py = p.y as int;
                assert(open_cell(b, w, h, px, py));
                proof {
                    // The popped cell is connected to the seed.
                    if p.x == sx && p.y == sy {
                        lemma_conn_refl(b, w, h, seed);
                    } else {
                        assert(stack_pre[stack_pre.len() - 1] == p);
                        let j = choose|j: int|
                            0 <= j < region_pre.len() && adj(
                                ((#[trigger] region_pre[j]).x as int, region_pre[j].y as int),
                                (px, py),
                            );
                        lemma_conn_step(
                            b,
                            w,
                            h,
                            seed,
                            (region_pre[j].x as int, region_pre[j].y as int),
                            (px, py),
                        );
                    }
                }
                visited.set(idx, true);
                region.push(p);
                proof {
                    lemma_count_false_update(vis_pre, py * w + px);
                    lemma_count_false_nonneg(visited@);
                    // The new member is fresh: every earlier member is
                    // already visited, while this cell was not.
                    assert forall|i1: int, i2: int|
                        0 <= i1 < i2 < region@.len() implies !((#[trigger] region@[i1]).x == (
                        #[trigger] region@[i2]).x && region@[i1].y == region@[i2].y) by {
                        if i2 == region@.len() - 1 {
                            assert(region@[i1] == region_pre[i1]);
                            if region_pre[i1].x == p.x && region_pre[i1].y == p.y {
                                assert(has_pos(region_pre, px, py));
                                assert(vis_of(vis_pre, w, (px, py)));
                                assert(false);
                            }
                        } else {
                            assert(region@[i1] == region_pre[i1] && region@[i2] == region_pre[i2]);
                        }
                    }
                    // Freshly pushed member extends membership by one cell.
                    assert(region@ == region_pre.push(p));
                    assert(region@[region@.len() - 1] == p);
                    assert(has_pos(region@, px, py));
                    assert forall|x: int, y: int| #[trigger] has_pos(region_pre, x, y) implies
                        has_pos(region@, x, y) by {
                        let i = choose|i: int|
                            0 <= i < region_pre.len() && (#[trigger] region_pre[i]).x == x
                                && region_pre[i].y == y;
                        assert(region@[i] == region_pre[i]);
                    }
                    assert forall|x: int, y: int|
                        has_pos(region@, x, y) && !(x == px && y == py) implies has_pos(
                        region_pre,
                        x,
                        y,
                    ) by {
                        let i = choose|i: int|
                            0 <= i < region@.len() && (#[trigger] region@[i]).x == x && region@[i].y
                                == y;
                        assert(i < region_pre.len());
                        assert(region_pre[i] == region@[i]);
                    }
                    assert(idx as int == py * w + px);
                    assert(visited@ == vis_pre.update(py * w + px, true));
                    assert forall|x: int, y: int| 0 <= x < w && 0 <= y < h implies #[trigger] vis_of(
                        visited@,
                        w,
                        (x, y),
                    ) == (vis_of(v0, w, (x, y)) || has_pos(region@, x, y)) by {
                        lemma_idx_bounds(w, h, x, y);
                        lemma_idx_inj(w, x, y, px, py);
                        assert(vis_of(vis_pre, w, (x, y)) == (vis_of(v0, w, (x, y)) || has_pos(
                            region_pre,
                            x,
                            y,
                        )));
                        if x == px && y == py {
                            assert(vis_of(visited@, w, (x, y)));
                            assert(has_pos(region@, x, y));
                        } else {
                            assert(vis_of(visited@, w, (x, y)) == vis_of(vis_pre, w, (x, y)));
                            assert(has_pos(region@, x, y) == has_pos(region_pre, x, y));
                        }
                    }
                }
                stack.push(Position::new(p.x + 1, p.y));
                stack.push(Position::new(p.x - 1, p.y));
                stack.push(Position::new(p.x, p.y + 1));
                stack.push(Position::new(p.x, p.y - 1));
                proof {
                    let ghost sp = stack@;
                    assert(sp.len() == stack_pre.len() + 3);
                    assert forall|i: int|
                        0 <= i < sp.len() implies ((#[trigger] sp[i].x == sx && sp[i].y == sy)
                        || exists|j: int|
                        0 <= j < region@.len() && adj(
                            ((#[trigger] region@[j]).x as int, region@[j].y as int),
                            (sp[i].x as int, sp[i].y as int),
                        )) by {
                        let ghost rl = region@.len() - 1;
                        if i < stack_pre.len() - 1 {
                            assert(sp[i] == stack_pre[i]);
                            if !(sp[i].x == sx && sp[i].y == sy) {
                                let j = choose|j: int|
                                    0 <= j < region_pre.len() && adj(
                                        (
                                            (#[trigger] region_pre[j]).x as int,
                                            region_pre[j].y as int,
                                        ),
                                        (stack_pre[i].x as int, stack_pre[i].y as int),
                                    );
                                assert(region@[j] == region_pre[j]);
                                assert(adj(
                                    (region@[j].x as int, region@[j].y as int),
                                    (sp[i].x as int, sp[i].y as int),
                                ));
                            }
                        } else {
                            assert(region@[rl] == p);
                            assert(adj((px, py), (sp[i].x as int, sp[i].y as int)));
                        }
                    }
                    // Closure: open neighbours of the new member are now on
                    // the stack; earlier members' neighbours stay covered.
                    assert forall|x1: int, y1: int, x2: int, y2: int|
                        #![trigger has_pos(region@, x1, y1), open_cell(b, w, h, x2, y2)]
                        has_pos(region@, x1, y1) && open_cell(b, w, h, x2, y2) && adj(
                            (x1, y1),
                            (x2, y2),
                        ) implies vis_of(visited@, w, (x2, y2)) || has_pos(stack@, x2, y2) by {
                        lemma_idx_bounds(w, h, x2, y2);
                        if x1 == px && y1 == py {
                            if x2 == px + 1 && y2 == py {
                                assert(stack@[stack@.len() - 4].x == x2 && stack@[stack@.len()
                                    - 4].y == y2);
                                assert(has_pos(stack@, x2, y2));
                            } else if x2 == px - 1 && y2 == py {
                                assert(stack@[stack@.len() - 3].x == x2 && stack@[stack@.len()
                                    - 3].y == y2);
                                assert(has_pos(stack@, x2, y2));
                            } else if x2 == px && y2 == py + 1 {
                                assert(stack@[stack@.len() - 2].x == x2 && stack@[stack@.len()
                                    - 2].y == y2);
                                assert(has_pos(stack@, x2, y2));
                            } else {
                                assert(x2 == px && y2 == py - 1);
                                assert(stack@[stack@.len() - 1].x == x2 && stack@[stack@.len()
                                    - 1].y == y2);
                                assert(has_pos(stack@, x2, y2));
                            }
                        } else {
                            assert(has_pos(region_pre, x1, y1));
                            assert(vis_of(vis_pre, w, (x2, y2)) || has_pos(stack_pre, x2, y2));
                            if vis_of(vis_pre, w, (x2, y2)) {
                                lemma_idx_inj(w, x2, y2, px, py);
                                assert(vis_of(visited@, w, (x2, y2)));
                            } else {
                                let i = choose|i: int|
                                    0 <= i < stack_pre.len() && (#[trigger] stack_pre[i]).x == x2
                                        && stack_pre[i].y == y2;
                                if i < stack_pre.len() - 1 {
                                    assert(stack@[i] == stack_pre[i]);
                                    assert(has_pos(stack@, x2, y2));
                                } else {
                                    assert(stack_pre[i] == p);
                                    assert(vis_of(visited@, w, (x2, y2)));
                                }
                            }
                        }
                    }
                    // The seed stays collected or waiting.
                    if !has_pos(region@, sx as int, sy as int) {
                        assert(!(p.x == sx && p.y == sy));
                        let i = choose|i: int|
                            0 <= i < stack_pre.len() && (#[trigger] stack_pre[i]).x == sx as int
                                && stack_pre[i].y == sy as int;
                        assert(i < stack_pre.len() - 1);
                        assert(stack@[i] == stack_pre[i]);
                        assert(has_pos(stack@, sx as int, sy as int));
                    }
                }
            } else {
                // Rejected: already visited, or a Filled cell.
                proof {
                    assert(open_cell(b, w, h, p.x as int, p.y as int) ==> vis_of(
                        visited@,
                        w,
                        (p.x as int, p.y as int),
                    ));
                    lemma_pop_keeps_cover(
                        b,
                        w,
                        h,
                        visited@,
                        region@,
                        stack_pre,
                        stack@,
                        p,
                        sx as int,
                        sy as int,
                    );
                    if !has_pos(region@, sx as int, sy as int) {
                        if p.x == sx && p.y == sy {
                            // The open seed can only be rejected as already
                            // visited, which puts it in the region.
                            assert(vis_of(visited@, w, (sx as int, sy as int)));
                            assert(false);
                        } else {
                            lemma_pop_keeps_seed(stack_pre, stack@, p, sx as int, sy as int);
                        }
                    }
                }
            }
        } else {
            // Rejected: outside the strict interior, so never an open cell.
            proof {
                assert(!open_cell(b, w, h, p.x as int, p.y as int));
                lemma_pop_keeps_cover(
                    b,
                    w,
                    h,
                    visited@,
                    region@,
                    stack_pre,
                    stack@,
                    p,
                    sx as int,
                    sy as int,
                );
                if !has_pos(region@, sx as int, sy as int) {
                    assert(!(p.x == sx && p.y == sy));
                    lemma_pop_keeps_seed(stack_pre, stack@, p, sx as int, sy as int);
                }
            }
        }
    }

    proof {
        // The stack is spent: the region is closed into itself and the old
        // visited set, so it is the whole component of the seed.
        assert(has_pos(region@, sx as int, sy as int));
        assert(region@.len() > 0);
        assert forall|x1: int, y1: int, x2: int, y2: int|
            #![trigger has_pos(region@, x1, y1), has_pos(region@, x2, y2)]
            has_pos(region@, x1, y1) && open_cell(b, w, h, x2, y2) && adj(
                (x1, y1),
                (x2, y2),
            ) implies vis_of(v0, w, (x2, y2)) || has_pos(region@, x2, y2) by {
            lemma_idx_bounds(w, h, x2, y2);
            assert(vis_of(visited@, w, (x2, y2)) || has_pos(stack@, x2, y2));
        }
        assert forall|x: int, y: int|
            conn(b, w, h, seed, (x, y)) implies #[trigger] has_pos(region@, x, y) by {
            let path = choose|path: Seq<(int, int)>|
                #[trigger] is_path(b, w, h, path) && path.len() > 0 && path.first() == seed
                    && path.last() == (x, y);
            assert(path.first().0 == sx as int && path.first().1 == sy as int);
            lemma_region_complete_along(b, w, h, v0, region@, path, path.len() - 1);
            assert((path[path.len() - 1].0, path[path.len() - 1].1) == (x, y));
        }
        assert forall|x: int, y: int| #[trigger] has_pos(region@, x, y) implies conn(
            b,
            w,
            h,
            (region@[0].x as int, region@[0].y as int),
            (x, y),
        ) by {
            let i = choose|i: int|
                0 <= i < region@.len() && (#[trigger] region@[i]).x == x && region@[i].y == y;
        }
        assert(is_component(b, w, h, region@));
        // The final visited set is closed: anything newly visited is the
        // component, which cannot step outside itself.
        assert forall|pp: (int, int), q: (int, int)|
            open_at(b, w, h, pp) && #[trigger] vis_of(visited@, w, pp) && open_at(b, w, h, q)
                && #[trigger] adj(pp, q) implies vis_of(visited@, w, q) by {
            lemma_idx_bounds(w, h, pp.0, pp.1);
            lemma_idx_bounds(w, h, q.0, q.1);
            assert((pp.0, pp.1) == pp && (q.0, q.1) == q);
            if vis_of(v0, w, pp) {
                assert(vis_of(v0, w, q));
                assert(vis_of(visited@, w, (q.0, q.1)));
            } else {
                assert(has_pos(region@, pp.0, pp.1));
                assert(conn(b, w, h, seed, (pp.0, pp.1)));
                lemma_conn_step(b, w, h, seed, (pp.0, pp.1), (q.0, q.1));
                assert(has_pos(region@, q.0, q.1));
                assert(vis_of(visited@, w, (q.0, q.1)));
            }
        }
    }
    region
}

/// The bookkeeping of a rejected stack entry: only the stack shrank, and
/// its lost head was either not open at all or is already visited, so the
/// neighbour cover and the seed's whereabouts survive the pop.
proof fn lemma_pop_keeps_cover(
    b: Seq<Cell>,
    w: int,
    h: int,
    vis: Seq<bool>,
    region: Seq<Position>,
    stack_pre: Seq<Position>,
    stack_now: Seq<Position>,
    p: Position,
    sx: int,
    sy: int,
)
    requires
        stack_pre.len() > 0,
        stack_pre[stack_pre.len() - 1] == p,
        stack_now == stack_pre.subrange(0, stack_pre.len() - 1),
        open_cell(b, w, h, p.x as int, p.y as int) ==> vis_of(vis, w, (p.x as int, p.y as int)),
        forall|x1: int, y1: int, x2: int, y2: int|
            #![trigger has_pos(region, x1, y1), open_cell(b, w, h, x2, y2)]
            has_pos(region, x1, y1) && open_cell(b, w, h, x2, y2) && adj((x1, y1), (x2, y2))
                ==> vis_of(vis, w, (x2, y2)) || has_pos(stack_pre, x2, y2),
    ensures
        forall|x1: int, y1: int, x2: int, y2: int|
            #![trigger has_pos(region, x1, y1), open_cell(b, w, h, x2, y2)]
            has_pos(region, x1, y1) && open_cell(b, w, h, x2, y2) && adj((x1, y1), (x2, y2))
                ==> vis_of(vis, w, (x2, y2)) || has_pos(stack_now, x2, y2),
{
    assert forall|x1: int, y1: int, x2: int, y2: int|
        #![trigger has_pos(region, x1, y1), open_cell(b, w, h, x2, y2)]
        has_pos(region, x1, y1) && open_cell(b, w, h, x2, y2) && adj(
            (x1, y1),
            (x2, y2),
        ) implies vis_of(vis, w, (x2, y2)) || has_pos(stack_now, x2, y2) by {
        if !vis_of(vis, w, (x2, y2)) {
            let i = choose|i: int|
                0 <= i < stack_pre.len() && (#[trigger] stack_pre[i]).x == x2 && stack_pre[i].y
                    == y2;
            if i < stack_pre.len() - 1 {
                assert(stack_now[i] == stack_pre[i]);
                assert(has_pos(stack_now, x2, y2));
            } else {
                assert(x2 == p.x as int && y2 == p.y as int);
                assert(false);
            }
        }
    }
}

/// A component swallows everything connected to any of its members.
pub proof fn lemma_component_conn(
    b: Seq<Cell>,
    w: int,
    h: int,
    r: Seq<Position>,
    x1: int,
    y1: int,
    x2: int,
    y2: int,
)
    requires
        is_component(b, w, h, r),
        has_pos(r, x1, y1),
        conn(b, w, h, (x1, y1), (x2, y2)),
    ensures
        has_pos(r, x2, y2),
{
    let seed = (r[0].x as int, r[0].y as int);
    assert(conn(b, w, h, seed, (x1, y1)));
    lemma_conn_trans(b, w, h, seed, (x1, y1), (x2, y2));
    assert(has_pos(r, x2, y2));
}

/// Any two members of one component are connected.
pub proof fn lemma_component_mutual(
    b: Seq<Cell>,
    w: int,
    h: int,
    r: Seq<Position>,
    x1: int,
    y1: int,
    x2: int,
    y2: int,
)
    requires
        is_component(b, w, h, r),
        has_pos(r, x1, y1),
        has_pos(r, x2, y2),
    ensures
        conn(b, w, h, (x1, y1), (x2, y2)),
{
    let seed = (r[0].x as int, r[0].y as int);
    assert(conn(b, w, h, seed, (x1, y1)));
    assert(conn(b, w, h, seed, (x2, y2)));
    lemma_conn_sym(b, w, h, seed, (x1, y1));
    lemma_conn_trans(b, w, h, (x1, y1), seed, (x2, y2));
}

/// Partition every open interior cell into its maximal connected region,
/// scanning seeds in row-major order and growing each with `flood_region`.
/// The result is a list of pairwise disjoint components that together
/// cover every open cell.
#[verifier::loop_isolation(false)]
#[verifier::rlimit(60)]
pub fn find_regions(board: &Vec<Cell>, width: i32, height: i32) -> (regions: Vec<Vec<Position>>)
    requires
        grid_wf(board@, width as int, height as int),
    ensures
        forall|k: int|
            0 <= k < regions@.len() ==> is_component(
                board@,
                width as int,
                height as int,
                (#[trigger] regions@[k])@,
            ),
        forall|k: int| 0 <= k < regions@.len() ==> distinct_positions((#[trigger] regions@[k])@),
        forall|x: int, y: int|
            #[trigger] open_cell(board@, width as int, height as int, x, y) ==> exists|k: int|
                0 <= k < regions@.len() && has_pos(#[trigger] regions@[k]@, x, y),
        forall|k1: int, k2: int, x: int, y: int|
            0 <= k1 < regions@.len() && 0 <= k2 < regions@.len() && k1 != k2 && #[trigger] has_pos(
                regions@[k1]@,
                x,
                y,
            ) ==> !#[trigger] has_pos(regions@[k2]@, x, y),
{
    let ghost b = board@;
    let ghost w = width as int;
    let ghost h = height as int;
    proof {
        lemma_idx_bounds(w, h, 0, 0);
    }
    let n: usize = (width as usize) * (height as usize);
    let mut visited: Vec<bool> = Vec::new();
    while visited.len() < n
        invariant
            visited@.len() <= n,
            forall|i: int| 0 <= i < visited@.len() ==> !visited@[i],
        decreases n - visited@.len(),
    {
        visited.push(false);
    }
    proof {
        assert(visited@.len() == w * h);
        assert forall|p: (int, int), q: (int, int)|
            open_at(b, w, h, p) && #[trigger] vis_of(visited@, w, p) && open_at(b, w, h, q)
                && #[trigger] adj(p, q) implies vis_of(visited@, w, q) by {
            lemma_idx_bounds(w, h, p.0, p.1);
        }
        assert forall|x2: int, y2: int| 0 <= x2 < w && 0 <= y2 < h implies !#[trigger] vis_of(
            visited@,
            w,
            (x2, y2),
        ) by {
            lemma_idx_bounds(w, h, x2, y2);
        }
    }
    let mut regions: Vec<Vec<Position>> = Vec::new();
    let mut y: i32 = 1;
    while y < height - 1
        invariant
            1 <= y <= h - 1,
            visited@.len() == w * h,
            visited_closed(b, w, h, visited@),
            // Visited is exactly the union of the regions found so far.
            forall|x2: int, y2: int|
                0 <= x2 < w && 0 <= y2 < h ==> #[trigger] vis_of(visited@, w, (x2, y2)) == exists|
                    k: int,
                |
                    0 <= k < regions@.len() && has_pos(#[trigger] regions@[k]@, x2, y2),
            forall|k: int|
                0 <= k < regions@.len() ==> is_component(b, w, h, (#[trigger] regions@[k])@),
            forall|k: int|
                0 <= k < regions@.len() ==> distinct_positions((#[trigger] regions@[k])@),
            forall|k1: int, k2: int, x2: int, y2: int|
                0 <= k1 < regions@.len() && 0 <= k2 < regions@.len() && k1 != k2
                    && #[trigger] has_pos(regions@[k1]@, x2, y2) ==> !#[trigger] has_pos(
                    regions@[k2]@,
                    x2,
                    y2,
                ),
            // Every open cell of a fully scanned row is already taken.
            forall|x2: int, y2: int|
                #[trigger] open_cell(b, w, h, x2, y2) && y2 < y ==> vis_of(visited@, w, (x2, y2)),
        decreases h - 1 - y,
    {
        let mut x: i32 = 1;
        while x < width - 1
            invariant
                1 <= y <= h - 2,
                1 <= x <= w - 1,
                visited@.len() == w * h,
                visited_closed(b, w, h, visited@),
                forall|x2: int, y2: int|
                    0 <= x2 < w && 0 <= y2 < h ==> #[trigger] vis_of(visited@, w, (x2, y2))
                        == exists|k: int|
                        0 <= k < regions@.len() && has_pos(#[trigger] regions@[k]@, x2, y2),
                forall|k: int|
                    0 <= k < regions@.len() ==> is_component(b, w, h, (#[trigger] regions@[k])@),
            forall|k: int|
                0 <= k < regions@.len() ==> distinct_positions((#[trigger] regions@[k])@),
                forall|k1: int, k2: int, x2: int, y2: int|
                    0 <= k1 < regions@.len() && 0 <= k2 < regions@.len() && k1 != k2
                        && #[trigger] has_pos(regions@[k1]@, x2, y2) ==> !#[trigger] has_pos(
                        regions@[k2]@,
                        x2,
                        y2,
                    ),
                forall|x2: int, y2: int|
                    #[trigger] open_cell(b, w, h, x2, y2) && (y2 < y || (y2 == y && x2 < x))
                        ==> vis_of(visited@, w, (x2, y2)),
            decreases w - 1 - x,
        {
            proof {
                lemma_idx_bounds(w, h, x as int, y as int);
            }
            let idx: usize = (y as usize) * (width as usize) + (x as usize);
            if board[idx] != Cell::Filled && !visited[idx] {
                assert(open_cell(b, w, h, x as int, y as int));
                assert(!vis_of(visited@, w, (x as int, y as int)));
                let ghost vis_before = visited@;
                let ghost regions_before = regions@;
                let r = flood_region(board, width, height, &mut visited, x, y);
                regions.push(r);
                proof {
                    let ghost seed: (int, int) = (x as int, y as int);
                    let ghost kn = regions@.len() - 1;
                    assert(regions@[kn] == r);
                    assert forall|k: int| 0 <= k < regions@.len() implies is_component(
                        b,
                        w,
                        h,
                        (#[trigger] regions@[k])@,
                    ) by {
                        if k < kn {
                            assert(regions@[k] == regions_before[k]);
                        }
                    }
                    assert forall|k: int| 0 <= k < regions@.len() implies distinct_positions(
                        (#[trigger] regions@[k])@,
                    ) by {
                        if k < kn {
                            assert(regions@[k] == regions_before[k]);
                        }
                    }
                    // Fresh members are exactly the seed's component, which
                    // no earlier region can touch.
                    assert forall|k1: int, k2: int, x2: int, y2: int|
                        0 <= k1 < regions@.len() && 0 <= k2 < regions@.len() && k1 != k2
                            && #[trigger] has_pos(regions@[k1]@, x2, y2) implies !#[trigger] has_pos(
                        regions@[k2]@,
                        x2,
                        y2,
                    ) by {
                        if k1 < kn && k2 < kn {
                            assert(regions@[k1] == regions_before[k1]);
                            assert(regions@[k2] == regions_before[k2]);
                        } else if k1 == kn || k2 == kn {
                            let ko = if k1 == kn {
                                k2
                            } else {
                                k1
                            };
                            assert(regions@[ko] == regions_before[ko]);
                            if has_pos(regions_before[ko]@, x2, y2) && has_pos(r@, x2, y2) {
                                assert(vis_of(vis_before, w, (x2, y2)));
                                assert(!vis_of(vis_before, w, (x2, y2)));
                            }
                        }
                    }
                    assert forall|x2: int, y2: int| 0 <= x2 < w && 0 <= y2 < h implies #[trigger] vis_of(
                        visited@,
                        w,
                        (x2, y2),
                    ) == exists|k: int|
                        0 <= k < regions@.len() && has_pos(#[trigger] regions@[k]@, x2, y2) by {
                        if vis_of(visited@, w, (x2, y2)) {
                            if vis_of(vis_before, w, (x2, y2)) {
                                let k = choose|k: int|
                                    0 <= k < regions_before.len() && has_pos(
                                        #[trigger] regions_before[k]@,
                                        x2,
                                        y2,
                                    );
                                assert(regions@[k] == regions_before[k]);
                                assert(has_pos(regions@[k]@, x2, y2));
                            } else {
                                assert(conn(b, w, h, seed, (x2, y2)));
                                assert(r@[0].x == x && r@[0].y == y);
                                assert(has_pos(regions@[kn]@, x2, y2));
                            }
                        } else {
                            assert forall|k: int|
                                0 <= k < regions@.len() implies !has_pos(
                                #[trigger] regions@[k]@,
                                x2,
                                y2,
                            ) by {
                                if k < kn {
                                    assert(regions@[k] == regions_before[k]);
                                    if has_pos(regions_before[k]@, x2, y2) {
                                        assert(vis_of(vis_before, w, (x2, y2)));
                                        assert(vis_of(visited@, w, (x2, y2)));
                                    }
                                } else {
                                    if has_pos(r@, x2, y2) {
                                        assert(conn(
                                            b,
                                            w,
                                            h,
                                            (r@[0].x as int, r@[0].y as int),
                                            (x2, y2),
                                        ));
                                        assert(vis_of(visited@, w, (x2, y2)));
                                    }
                                }
                            }
                        }
                    }
                    lemma_conn_refl(b, w, h, seed);
                    assert(vis_of(visited@, w, seed));
                }
            }
            x = x + 1;
        }
        y = y + 1;
    }
    regions
}

/// If the seed is still waiting on the stack and the popped entry is not
/// the seed, it waits on the shrunken stack too.
proof fn lemma_pop_keeps_seed(
    stack_pre: Seq<Position>,
    stack_now: Seq<Position>,
    p: Position,
    sx: int,
    sy: int,
)
    requires
        stack_pre.len() > 0,
        stack_pre[stack_pre.len() - 1] == p,
        stack_now == stack_pre.subrange(0, stack_pre.len() - 1),
        has_pos(stack_pre, sx, sy),
        !(p.x == sx && p.y == sy),
    ensures
        has_pos(stack_now, sx, sy),
{
    let i = choose|i: int|
        0 <= i < stack_pre.len() && (#[trigger] stack_pre[i]).x == sx && stack_pre[i].y == sy;
    assert(i < stack_pre.len() - 1);
    assert(stack_now[i] == stack_pre[i]);
}

} // verus!
