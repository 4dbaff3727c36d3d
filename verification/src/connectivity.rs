use vstd::prelude::*;

use crate::geometry::Vector;
use crate::stage::{count_true, lemma_area_fits, lemma_cell_distinct, lemma_cell_in_range, lemma_count_true_bounds, lemma_count_true_update, Stage, Tile};

verus! {

/// The two cells share an edge.
pub open spec fn adjacent(x1: int, y1: int, x2: int, y2: int) -> bool {
    (x1 == x2 && (y2 == y1 + 1 || y2 == y1 - 1)) || (y1 == y2 && (x2 == x1 + 1 || x2 == x1
        - 1))
}

/// A walk over passable cells, each step moving to an edge-adjacent cell.
pub open spec fn is_path(s: Stage, p: Seq<(int, int)>) -> bool {
    &&& 1 <= p.len()
    &&& (forall|i: int| 0 <= i < p.len() ==> s.open_at((#[trigger] p[i]).0, p[i].1))
    &&& (forall|i: int|
        0 <= i < p.len() - 1 ==> adjacent((#[trigger] p[i]).0, p[i].1, p[i + 1].0, p[i + 1].1))
}

/// Some walk over passable cells leads from the first cell to the second.
pub open spec fn reachable(s: Stage, ax: int, ay: int, bx: int, by: int) -> bool {
    exists|p: Seq<(int, int)>|
        #[trigger] is_path(s, p) && p.first() == (ax, ay) && p.last() == (bx, by)
}

/// Every passable cell can be walked to from every other, treating every
/// non-wall tile (doors included) as passable.
pub open spec fn fully_connected(s: Stage) -> bool {
    forall|ax: int, ay: int, bx: int, by: int|
        #![trigger s.open_at(ax, ay), s.open_at(bx, by)]
        s.open_at(ax, ay) && s.open_at(bx, by) ==> reachable(s, ax, ay, bx, by)
}

/// A passable cell reaches itself.
pub proof fn lemma_reach_refl(s: Stage, x: int, y: int)
    requires
        s.open_at(x, y),
    ensures
        reachable(s, x, y, x, y),
{
    let p: Seq<(int, int)> = seq![(x, y)];
    assert(is_path(s, p));
    assert(p.first() == (x, y) && p.last() == (x, y));
}

/// A walk extends by one step onto an adjacent passable cell.
pub proof fn lemma_reach_step(s: Stage, ax: int, ay: int, bx: int, by: int, cx: int, cy: int)
    requires
        reachable(s, ax, ay, bx, by),
        adjacent(bx, by, cx, cy),
        s.open_at(cx, cy),
    ensures
        reachable(s, ax, ay, cx, cy),
{
    let p = choose|p: Seq<(int, int)>|
        #[trigger] is_path(s, p) && p.first() == (ax, ay) && p.last() == (bx, by);
    let q = p.push((cx, cy));
    assert forall|i: int| 0 <= i < q.len() implies s.open_at((#[trigger] q[i]).0, q[i].1) by {
        if i < p.len() {
            assert(q[i] == p[i]);
        }
    }
    assert forall|i: int|
        0 <= i < q.len() - 1 implies adjacent(
        (#[trigger] q[i]).0,
        q[i].1,
        q[i + 1].0,
        q[i + 1].1,
    ) by {
        if i < p.len() - 1 {
            assert(q[i] == p[i] && q[i + 1] == p[i + 1]);
        } else {
            assert(q[i] == p.last() && q[i + 1] == (cx, cy));
        }
    }
    assert(is_path(s, q));
    assert(q.first() == (ax, ay) && q.last() == (cx, cy));
}

/// Walks reverse: reachability is symmetric.
pub proof fn lemma_reach_sym(s: Stage, ax: int, ay: int, bx: int, by: int)
    requires
        reachable(s, ax, ay, bx, by),
    ensures
        reachable(s, bx, by, ax, ay),
{
    let p = choose|p: Seq<(int, int)>|
        #[trigger] is_path(s, p) && p.first() == (ax, ay) && p.last() == (bx, by);
    let n = p.len() as int;
    let q = Seq::new(p.len(), |i: int| p[n - 1 - i]);
    assert forall|i: int| 0 <= i < q.len() implies s.open_at((#[trigger] q[i]).0, q[i].1) by {
        assert(q[i] == p[n - 1 - i]);
    }
    assert forall|i: int|
        0 <= i < q.len() - 1 implies adjacent(
        (#[trigger] q[i]).0,
        q[i].1,
        q[i + 1].0,
        q[i + 1].1,
    ) by {
        assert(q[i] == p[n - 1 - i] && q[i + 1] == p[n - 2 - i]);
        assert(adjacent(p[n - 2 - i].0, p[n - 2 - i].1, p[n - 1 - i].0, p[n - 1 - i].1));
    }
    assert(is_path(s, q));
    assert(q.first() == (bx, by) && q.last() == (ax, ay));
}

/// Walks concatenate: reachability is transitive.
pub proof fn lemma_reach_trans(
    s: Stage,
    ax: int,
    ay: int,
    bx: int,
    by: int,
    cx: int,
    cy: int,
)
    requires
        reachable(s, ax, ay, bx, by),
        reachable(s, bx, by, cx, cy),
    ensures
        reachable(s, ax, ay, cx, cy),
{
    let p1 = choose|p: Seq<(int, int)>|
        #[trigger] is_path(s, p) && p.first() == (ax, ay) && p.last() == (bx, by);
    let p2 = choose|p: Seq<(int, int)>|
        #[trigger] is_path(s, p) && p.first() == (bx, by) && p.last() == (cx, cy);
    let q = p1 + p2.subrange(1, p2.len() as int);
    let n1 = p1.len() as int;
    assert forall|i: int| 0 <= i < q.len() implies s.open_at((#[trigger] q[i]).0, q[i].1) by {
        if i < n1 {
            assert(q[i] == p1[i]);
        } else {
            assert(q[i] == p2[i - n1 + 1]);
        }
    }
    assert forall|i: int|
        0 <= i < q.len() - 1 implies adjacent(
        (#[trigger] q[i]).0,
        q[i].1,
        q[i + 1].0,
        q[i + 1].1,
    ) by {
        if i < n1 - 1 {
            assert(q[i] == p1[i] && q[i + 1] == p1[i + 1]);
        } else if i == n1 - 1 {
            assert(q[i] == p1.last());
            assert(q[i + 1] == p2[1]);
            assert(adjacent(p2[0].0, p2[0].1, p2[1].0, p2[1].1));
        } else {
            assert(q[i] == p2[i - n1 + 1] && q[i + 1] == p2[i - n1 + 2]);
        }
    }
    assert(is_path(s, q));
    assert(q.first() == (ax, ay));
    assert(q.last() == (cx, cy));
}

/// A walk that starts inside a set of cells closed under stepping to a
/// passable neighbor cannot leave the set.
pub proof fn lemma_path_in_closed_set(s: Stage, visited: Seq<bool>, p: Seq<(int, int)>)
    requires
        s.wf(),
        visited.len() == s.width * s.height,
        is_path(s, p),
        visited[s.cell(p.first().0, p.first().1)],
        forall|x: int, y: int, x2: int, y2: int|
            #![trigger visited[s.cell(x, y)], visited[s.cell(x2, y2)]]
            s.open_at(x, y) && visited[s.cell(x, y)] && s.open_at(x2, y2) && adjacent(x, y, x2, y2)
                ==> visited[s.cell(x2, y2)],
    ensures
        visited[s.cell(p.last().0, p.last().1)],
    decreases p.len(),
{
    if p.len() > 1 {
        let sub = p.drop_last();
        assert(is_path(s, sub)) by {
            assert forall|i: int|
                0 <= i < sub.len() implies s.open_at((#[trigger] sub[i]).0, sub[i].1) by {
                assert(sub[i] == p[i]);
            }
            assert forall|i: int|
                0 <= i < sub.len() - 1 implies adjacent(
                (#[trigger] sub[i]).0,
                sub[i].1,
                sub[i + 1].0,
                sub[i + 1].1,
            ) by {
                assert(sub[i] == p[i] && sub[i + 1] == p[i + 1]);
            }
        }
        lemma_path_in_closed_set(s, visited, sub);
        let a = sub.last();
        let b = p.last();
        assert(a == p[p.len() - 2] && b == p[p.len() - 1]);
        assert(adjacent(a.0, a.1, b.0, b.1));
        assert(s.open_at(a.0, a.1) && s.open_at(b.0, b.1));
        assert(visited[s.cell(b.0, b.1)]);
    }
}

/// The position occurs somewhere in the worklist.
pub open spec fn in_queue(q: Seq<Vector>, x: int, y: int) -> bool {
    exists|k: int| 0 <= k < q.len() && (#[trigger] q[k]).0 == x && q[k].1 == y
}

/// Every passable cardinal neighbor of the cell is marked visited.
pub open spec fn neighbor_closed(s: Stage, visited: Seq<bool>, x: int, y: int) -> bool {
    &&& (s.open_at(x, y - 1) ==> visited[s.cell(x, y - 1)])
    &&& (s.open_at(x + 1, y) ==> visited[s.cell(x + 1, y)])
    &&& (s.open_at(x, y + 1) ==> visited[s.cell(x, y + 1)])
    &&& (s.open_at(x - 1, y) ==> visited[s.cell(x - 1, y)])
}

/// The flood fill's marks are sound: a marked cell is passable and was
/// reached from the seed.
pub open spec fn marks_sound(s: Stage, visited: Seq<bool>, sx: int, sy: int) -> bool {
    forall|x: int, y: int|
        s.in_bounds(x, y) && #[trigger] visited[s.cell(x, y)] ==> s.open_at(x, y) && reachable(
            s,
            sx,
            sy,
            x,
            y,
        )
}

/// Every worklist entry is an in-bounds, already-marked position.
pub open spec fn queue_marked(s: Stage, q: Seq<Vector>, visited: Seq<bool>) -> bool {
    forall|k: int|
        0 <= k < q.len() ==> s.in_bounds((#[trigger] q[k]).0 as int, q[k].1 as int) && visited[
            s.cell(q[k].0 as int, q[k].1 as int)
        ]
}

/// Marks one cardinal neighbor of a reached cell: if it is an in-bounds,
/// passable, unmarked cell, mark it and put it on the worklist.
fn visit_neighbor(
    stage: &Stage,
    visited: &mut Vec<bool>,
    queue: &mut Vec<Vector>,
    np: Vector,
    seed: Ghost<(int, int)>,
    cur: Ghost<(int, int)>,
)
    requires
        stage.wf(),
        old(visited)@.len() == stage.width * stage.height,
        adjacent(cur@.0, cur@.1, np.0 as int, np.1 as int),
        reachable(*stage, seed@.0, seed@.1, cur@.0, cur@.1),
        marks_sound(*stage, old(visited)@, seed@.0, seed@.1),
        queue_marked(*stage, old(queue)@, old(visited)@),
    ensures
        final(visited)@.len() == old(visited)@.len(),
        marks_sound(*stage, final(visited)@, seed@.0, seed@.1),
        queue_marked(*stage, final(queue)@, final(visited)@),
        forall|i: int|
            0 <= i < old(visited)@.len() ==> (old(visited)@[i] ==> #[trigger] final(visited)@[i]),
        stage.open_at(np.0 as int, np.1 as int) ==> final(visited)@[stage.cell(
            np.0 as int,
            np.1 as int,
        )],
        old(queue)@.len() <= final(queue)@.len(),
        forall|k: int|
            0 <= k < old(queue)@.len() ==> #[trigger] final(queue)@[k] == old(queue)@[k],
        forall|x: int, y: int|
            stage.in_bounds(x, y) && #[trigger] final(visited)@[stage.cell(x, y)] && !old(
                visited,
            )@[stage.cell(x, y)] ==> in_queue(final(queue)@, x, y),
        2 * (final(visited)@.len() - count_true(final(visited)@)) + final(queue)@.len() <= 2 * (
        old(visited)@.len() - count_true(old(visited)@)) + old(queue)@.len(),
{
    if stage.contains(np) {
        proof {
            lemma_cell_in_range(*stage, np.0 as int, np.1 as int);
        }
        let idx: usize = (np.1 as usize) * (stage.width as usize) + (np.0 as usize);
        if !visited[idx] {
            let t = stage.get(np).unwrap();
            if t != Tile::Wall {
                let ghost before = visited@;
                visited[idx] = true;
                queue.push(np);
                proof {
                    lemma_count_true_update(before, idx as int, true);
                    lemma_reach_step(
                        *stage,
                        seed@.0,
                        seed@.1,
                        cur@.0,
                        cur@.1,
                        np.0 as int,
                        np.1 as int,
                    );
                    assert forall|x: int, y: int|
                        stage.in_bounds(x, y) && #[trigger] visited@[stage.cell(
                            x,
                            y,
                        )] implies stage.open_at(x, y) && reachable(
                        *stage,
                        seed@.0,
                        seed@.1,
                        x,
                        y,
                    ) by {
                        lemma_cell_in_range(*stage, x, y);
                        if x != np.0 as int || y != np.1 as int {
                            lemma_cell_distinct(*stage, x, y, np.0 as int, np.1 as int);
                        }
                    }
                    assert forall|k: int|
                        0 <= k < queue@.len() implies stage.in_bounds(
                        (#[trigger] queue@[k]).0 as int,
                        queue@[k].1 as int,
                    ) && visited@[stage.cell(queue@[k].0 as int, queue@[k].1 as int)] by {
                        if k < queue@.len() - 1 {
                            assert(queue@[k] == old(queue)@[k]);
                            lemma_cell_in_range(
                                *stage,
                                queue@[k].0 as int,
                                queue@[k].1 as int,
                            );
                        } else {
                            assert(queue@[k] == np);
                        }
                    }
                    assert forall|x: int, y: int|
                        stage.in_bounds(x, y) && #[trigger] visited@[stage.cell(x, y)]
                            && !before[stage.cell(x, y)] implies in_queue(queue@, x, y) by {
                        lemma_cell_in_range(*stage, x, y);
                        if x != np.0 as int || y != np.1 as int {
                            lemma_cell_distinct(*stage, x, y, np.0 as int, np.1 as int);
                        } else {
                            assert(queue@[queue@.len() - 1] == np);
                        }
                    }
                }
            }
        }
    }
}

/// Finds the first passable cell in scan order, if any.
fn find_seed(stage: &Stage) -> (r: Option<Vector>)
    requires
        stage.wf(),
    ensures
        match r {
            Some(v) => stage.open_at(v.0 as int, v.1 as int),
            None => forall|x: int, y: int| !(#[trigger] stage.open_at(x, y)),
        },
{
    let mut found = false;
    let mut seed_x: i32 = 0;
    let mut seed_y: i32 = 0;
    let mut y: i32 = 0;
    while y < stage.height
        invariant
            0 <= y,
            stage.wf(),
            found ==> stage.open_at(seed_x as int, seed_y as int),
            !found ==> forall|x2: int, y2: int| y2 < y ==> !(#[trigger] stage.open_at(x2, y2)),
        decreases stage.height - y,
    {
        let mut x: i32 = 0;
        while x < stage.width
            invariant
                0 <= x,
                0 <= y < stage.height,
                stage.wf(),
                found ==> stage.open_at(seed_x as int, seed_y as int),
                !found ==> forall|x2: int, y2: int|
                    y2 < y ==> !(#[trigger] stage.open_at(x2, y2)),
                !found ==> forall|x2: int| x2 < x ==> !(#[trigger] stage.open_at(x2, y as int)),
            decreases stage.width - x,
        {
            if !found {
                if stage.get(Vector(x, y)).unwrap() != Tile::Wall {
                    found = true;
                    seed_x = x;
                    seed_y = y;
                }
            }
            x = x + 1;
        }
        y = y + 1;
    }
    if found {
        Some(Vector(seed_x, seed_y))
    } else {
        None
    }
}

/// Checks that every passable cell carries a mark.
fn all_open_marked(stage: &Stage, visited: &Vec<bool>) -> (r: bool)
    requires
        stage.wf(),
        visited@.len() == stage.width * stage.height,
    ensures
        r ==> forall|x: int, y: int|
            #[trigger] stage.open_at(x, y) ==> visited@[stage.cell(x, y)],
        !r ==> exists|x: int, y: int|
            #[trigger] stage.open_at(x, y) && !visited@[stage.cell(x, y)],
{
    let mut all = true;
    let mut cy: i32 = 0;
    while cy < stage.height
        invariant
            0 <= cy,
            stage.wf(),
            visited@.len() == stage.width * stage.height,
            all ==> forall|x2: int, y2: int|
                y2 < cy && #[trigger] stage.open_at(x2, y2) ==> visited@[stage.cell(x2, y2)],
            !all ==> exists|x2: int, y2: int|
                #[trigger] stage.open_at(x2, y2) && !visited@[stage.cell(x2, y2)],
        decreases stage.height - cy,
    {
        let mut cx: i32 = 0;
        while cx < stage.width
            invariant
                0 <= cx,
                0 <= cy < stage.height,
                stage.wf(),
                visited@.len() == stage.width * stage.height,
                all ==> forall|x2: int, y2: int|
                    y2 < cy && #[trigger] stage.open_at(x2, y2) ==> visited@[stage.cell(x2, y2)],
                all ==> forall|x2: int|
                    x2 < cx && #[trigger] stage.open_at(x2, cy as int) ==> visited@[stage.cell(
                        x2,
                        cy as int,
                    )],
                !all ==> exists|x2: int, y2: int|
                    #[trigger] stage.open_at(x2, y2) && !visited@[stage.cell(x2, y2)],
            decreases stage.width - cx,
        {
            if stage.get(Vector(cx, cy)).unwrap() != Tile::Wall {
                proof {
                    lemma_cell_in_range(*stage, cx as int, cy as int);
                }
                let cidx: usize = (cy as usize) * (stage.width as usize) + (cx as usize);
                if !visited[cidx] {
                    all = false;
                    proof {
                        assert(stage.open_at(cx as int, cy as int));
                        assert(!visited@[stage.cell(cx as int, cy as int)]);
                    }
                }
            }
            cx = cx + 1;
        }
        cy = cy + 1;
    }
    all
}

/// Decides whether every passable cell of the grid can be walked to from
/// every other, doors counted as passable: a flood fill from the first
/// passable cell, then a scan that every passable cell was reached.
#[verifier::loop_isolation(false)]
#[verifier::rlimit(100)]
pub fn is_fully_connected(stage: &Stage) -> (r: bool)
    requires
        stage.wf(),
    ensures
        r == fully_connected(*stage),
{
    let seed = match find_seed(stage) {
        Some(v) => v,
        None => {
            proof {
                assert forall|ax: int, ay: int, bx: int, by: int|
                    stage.open_at(ax, ay) && stage.open_at(bx, by) implies reachable(
                    *stage,
                    ax,
                    ay,
                    bx,
                    by,
                ) by {
                    assert(!stage.open_at(ax, ay));
                }
            }
            return true;
        },
    };
    let seed_x = seed.0;
    let seed_y = seed.1;
    let ghost sx = seed_x as int;
    let ghost sy = seed_y as int;
    proof {
        lemma_area_fits(stage.width as int, stage.height as int);
        lemma_cell_in_range(*stage, sx, sy);
        lemma_reach_refl(*stage, sx, sy);
    }
    let n: usize = (stage.width as usize) * (stage.height as usize);
    let mut visited: Vec<bool> = Vec::new();
    while visited.len() < n
        invariant
            visited@.len() <= n,
            forall|i: int| 0 <= i < visited@.len() ==> !(#[trigger] visited@[i]),
        decreases n - visited@.len(),
    {
        visited.push(false);
    }
    let sidx: usize = (seed_y as usize) * (stage.width as usize) + (seed_x as usize);
    visited[sidx] = true;
    let mut queue: Vec<Vector> = Vec::new();
    queue.push(Vector(seed_x, seed_y));
    proof {
        assert forall|x: int, y: int|
            stage.in_bounds(x, y) && #[trigger] visited@[stage.cell(x, y)] implies stage.open_at(
            x,
            y,
        ) && reachable(*stage, sx, sy, x, y) && in_queue(queue@, x, y) by {
            lemma_cell_in_range(*stage, x, y);
            if x != sx || y != sy {
                lemma_cell_distinct(*stage, x, y, sx, sy);
            } else {
                assert(queue@[0] == Vector(seed_x, seed_y));
            }
        }
    }
    while queue.len() > 0
        invariant
            visited@.len() == stage.width * stage.height,
            marks_sound(*stage, visited@, sx, sy),
            queue_marked(*stage, queue@, visited@),
            forall|x: int, y: int|
                stage.in_bounds(x, y) && #[trigger] visited@[stage.cell(x, y)] && stage.open_at(
                    x,
                    y,
                ) && !in_queue(queue@, x, y) ==> neighbor_closed(*stage, visited@, x, y),
            visited@[stage.cell(sx, sy)],
        decreases 2 * (visited@.len() - count_true(visited@)) + queue@.len(),
    {
        proof {
            lemma_count_true_bounds(visited@);
        }
        let ghost q_top = queue@;
        let ghost vis0 = visited@;
        let cur = queue[queue.len() - 1];
        queue.pop();
        let ghost gcur = (cur.0 as int, cur.1 as int);
        let gseed = Ghost((sx, sy));
        visit_neighbor(stage, &mut visited, &mut queue, Vector(cur.0, cur.1 - 1), gseed, Ghost(gcur));
        let ghost v1 = visited@;
        let ghost q1 = queue@;
        visit_neighbor(stage, &mut visited, &mut queue, Vector(cur.0 + 1, cur.1), gseed, Ghost(gcur));
        let ghost v2 = visited@;
        let ghost q2 = queue@;
        visit_neighbor(stage, &mut visited, &mut queue, Vector(cur.0, cur.1 + 1), gseed, Ghost(gcur));
        let ghost v3 = visited@;
        let ghost q3 = queue@;
        visit_neighbor(stage, &mut visited, &mut queue, Vector(cur.0 - 1, cur.1), gseed, Ghost(gcur));
        proof {
            assert forall|x: int, y: int|
                stage.in_bounds(x, y) && #[trigger] visited@[stage.cell(x, y)] && stage.open_at(
                    x,
                    y,
                ) && !in_queue(queue@, x, y) implies neighbor_closed(*stage, visited@, x, y) by {
                lemma_cell_in_range(*stage, x, y);
                if x == gcur.0 && y == gcur.1 {
                    if stage.open_at(x, y - 1) {
                        lemma_cell_in_range(*stage, x, y - 1);
                        assert(v1[stage.cell(x, y - 1)]);
                        assert(v2[stage.cell(x, y - 1)]);
                        assert(v3[stage.cell(x, y - 1)]);
                        assert(visited@[stage.cell(x, y - 1)]);
                    }
                    if stage.open_at(x + 1, y) {
                        lemma_cell_in_range(*stage, x + 1, y);
                        assert(v2[stage.cell(x + 1, y)]);
                        assert(v3[stage.cell(x + 1, y)]);
                        assert(visited@[stage.cell(x + 1, y)]);
                    }
                    if stage.open_at(x, y + 1) {
                        lemma_cell_in_range(*stage, x, y + 1);
                        assert(v3[stage.cell(x, y + 1)]);
                        assert(visited@[stage.cell(x, y + 1)]);
                    }
                    if stage.open_at(x - 1, y) {
                        lemma_cell_in_range(*stage, x - 1, y);
                        assert(visited@[stage.cell(x - 1, y)]);
                    }
                } else {
                    if in_queue(q_top, x, y) {
                        let k = choose|k: int|
                            0 <= k < q_top.len() && (#[trigger] q_top[k]).0 == x && q_top[k].1
                                == y;
                        assert(k < q_top.len() - 1);
                        assert(q1[k] == q_top[k]);
                        assert(q2[k] == q1[k]);
                        assert(q3[k] == q2[k]);
                        assert(queue@[k] == q3[k]);
                        assert(in_queue(queue@, x, y));
                        assert(false);
                    }
                    if !vis0[stage.cell(x, y)] {
                        let c = stage.cell(x, y);
                        if v1[c] {
                            let k = choose|k: int|
                                0 <= k < q1.len() && (#[trigger] q1[k]).0 == x && q1[k].1 == y;
                            assert(q2[k] == q1[k]);
                            assert(q3[k] == q2[k]);
                            assert(queue@[k] == q3[k]);
                        } else if v2[c] {
                            let k = choose|k: int|
                                0 <= k < q2.len() && (#[trigger] q2[k]).0 == x && q2[k].1 == y;
                            assert(q3[k] == q2[k]);
                            assert(queue@[k] == q3[k]);
                        } else if v3[c] {
                            let k = choose|k: int|
                                0 <= k < q3.len() && (#[trigger] q3[k]).0 == x && q3[k].1 == y;
                            assert(queue@[k] == q3[k]);
                        }
                        assert(in_queue(queue@, x, y));
                        assert(false);
                    }
                    assert(neighbor_closed(*stage, vis0, x, y));
                    if stage.open_at(x, y - 1) {
                        lemma_cell_in_range(*stage, x, y - 1);
                        assert(vis0[stage.cell(x, y - 1)]);
                        assert(v1[stage.cell(x, y - 1)]);
                        assert(v2[stage.cell(x, y - 1)]);
                        assert(v3[stage.cell(x, y - 1)]);
                        assert(visited@[stage.cell(x, y - 1)]);
                    }
                    if stage.open_at(x + 1, y) {
                        lemma_cell_in_range(*stage, x + 1, y);
                        assert(vis0[stage.cell(x + 1, y)]);
                        assert(v1[stage.cell(x + 1, y)]);
                        assert(v2[stage.cell(x + 1, y)]);
                        assert(v3[stage.cell(x + 1, y)]);
                        assert(visited@[stage.cell(x + 1, y)]);
                    }
                    if stage.open_at(x, y + 1) {
                        lemma_cell_in_range(*stage, x, y + 1);
                        assert(vis0[stage.cell(x, y + 1)]);
                        assert(v1[stage.cell(x, y + 1)]);
                        assert(v2[stage.cell(x, y + 1)]);
                        assert(v3[stage.cell(x, y + 1)]);
                        assert(visited@[stage.cell(x, y + 1)]);
                    }
                    if stage.open_at(x - 1, y) {
                        lemma_cell_in_range(*stage, x - 1, y);
                        assert(vis0[stage.cell(x - 1, y)]);
                        assert(v1[stage.cell(x - 1, y)]);
                        assert(v2[stage.cell(x - 1, y)]);
                        assert(v3[stage.cell(x - 1, y)]);
                        assert(visited@[stage.cell(x - 1, y)]);
                    }
                }
            }
            lemma_count_true_bounds(visited@);
        }
    }
    proof {
        assert forall|x: int, y: int, x2: int, y2: int|
            #![trigger visited@[stage.cell(x, y)], visited@[stage.cell(x2, y2)]]
            stage.open_at(x, y) && visited@[stage.cell(x, y)] && stage.open_at(x2, y2) && adjacent(
                x,
                y,
                x2,
                y2,
            ) implies visited@[stage.cell(x2, y2)] by {
            assert(!in_queue(queue@, x, y));
            assert(neighbor_closed(*stage, visited@, x, y));
        }
    }
    let all = all_open_marked(stage, &visited);
    if all {
        proof {
            assert forall|ax: int, ay: int, bx: int, by: int|
                stage.open_at(ax, ay) && stage.open_at(bx, by) implies reachable(
                *stage,
                ax,
                ay,
                bx,
                by,
            ) by {
                assert(visited@[stage.cell(ax, ay)]);
                assert(visited@[stage.cell(bx, by)]);
                assert(reachable(*stage, sx, sy, ax, ay));
                assert(reachable(*stage, sx, sy, bx, by));
                lemma_reach_sym(*stage, sx, sy, ax, ay);
                lemma_reach_trans(*stage, ax, ay, sx, sy, bx, by);
            }
        }
        true
    } else {
        proof {
            if fully_connected(*stage) {
                let (bx, by) = choose|x: int, y: int|
                    #[trigger] stage.open_at(x, y) && !visited@[stage.cell(x, y)];
                assert(stage.open_at(sx, sy));
                assert(reachable(*stage, sx, sy, bx, by));
                let p = choose|p: Seq<(int, int)>|
                    #[trigger] is_path(*stage, p) && p.first() == (sx, sy) && p.last() == (
                    bx,
                    by,
                );
                lemma_path_in_closed_set(*stage, visited@, p);
                assert(false);
            }
        }
        false
    }
}

} // verus!
