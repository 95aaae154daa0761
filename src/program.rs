use vstd::prelude::*;

use crate::codel::{Codel, UnsupportedColor, rgb_codel};
use crate::direction::Direction;
use crate::region::Region;

verus! {

/// Whether `p` lies in a grid of `rows` by `cols`.
pub open spec fn inside(rows: usize, cols: usize, p: (usize, usize)) -> bool {
    p.0 < rows && p.1 < cols
}

/// Whether two points are neighbours up, down, left or right.
pub open spec fn adjacent(p: (usize, usize), q: (usize, usize)) -> bool {
    ||| p.0 == q.0 && (p.1 + 1 == q.1 || q.1 + 1 == p.1)
    ||| p.1 == q.1 && (p.0 + 1 == q.0 || q.0 + 1 == p.0)
}

/// Whether each point of `s` after the first is a neighbour of an earlier
/// one, so that every point is joined to the first through neighbours in `s`.
pub open spec fn chained(s: Seq<(usize, usize)>) -> bool {
    forall|k: int| 0 < k < s.len() ==> #[trigger] joined_at(s, k)
}

/// Whether the point at index `k` of `s` is a neighbour of an earlier one.
pub open spec fn joined_at(s: Seq<(usize, usize)>, k: int) -> bool {
    exists|j: int| 0 <= j < k && adjacent(s[j], s[k])
}

/// Position of `p` in a row-major grid with `cols` columns.
pub open spec fn cell(cols: usize, p: (usize, usize)) -> int {
    p.0 * cols + p.1
}

/// Whether `p` and `q` are neighbours of the same colour in `grid`.
pub open spec fn same_block(
    grid: Seq<Codel>,
    rows: usize,
    cols: usize,
    p: (usize, usize),
    q: (usize, usize),
) -> bool {
    &&& inside(rows, cols, p)
    &&& inside(rows, cols, q)
    &&& adjacent(p, q)
    &&& grid[cell(cols, p)] == grid[cell(cols, q)]
}

/// Whether `x` is empty or holds a number below `bound`.
pub open spec fn numbered_below(x: Option<usize>, bound: int) -> bool {
    match x {
        Some(j) => j < bound,
        None => true,
    }
}

/// Every point that carries a block number below `bound` has all of its
/// same-coloured neighbours in the same block.
pub open spec fn closed_below(
    grid: Seq<Codel>,
    ids: Seq<Option<usize>>,
    rows: usize,
    cols: usize,
    bound: int,
) -> bool {
    forall|p: (usize, usize), q: (usize, usize)|
        #[trigger] same_block(grid, rows, cols, p, q) && (ids[cell(cols, p)] matches Some(j) && j
            < bound) ==> ids[cell(cols, q)] == ids[cell(cols, p)]
}

/// Each point of a grid has its own position, within the grid.
pub proof fn lemma_cell(rows: usize, cols: usize, p: (usize, usize), q: (usize, usize))
    requires
        inside(rows, cols, p),
        inside(rows, cols, q),
    ensures
        0 <= cell(cols, p) < rows * cols,
        cell(cols, p) == cell(cols, q) <==> p == q,
{
    let (a, b) = (p.0 as int, p.1 as int);
    let (c, d) = (q.0 as int, q.1 as int);
    let (r, n) = (rows as int, cols as int);
    assert(0 <= a * n + b < r * n) by (nonlinear_arith)
        requires
            0 <= a < r,
            0 <= b < n,
    ;
    assert(a * n + b == c * n + d ==> a == c && b == d) by (nonlinear_arith)
        requires
            0 <= a,
            0 <= c,
            0 <= b < n,
            0 <= d < n,
    ;
}

/// The point at position `i` of a row-major grid.
pub proof fn lemma_decode(rows: usize, cols: usize, i: int)
    requires
        0 <= i < rows * cols,
    ensures
        inside(rows, cols, ((i / cols as int) as usize, (i % cols as int) as usize)),
        cell(cols, ((i / cols as int) as usize, (i % cols as int) as usize)) == i,
{
    let n = cols as int;
    assert(n > 0) by (nonlinear_arith)
        requires
            0 <= i < rows * n,
            rows >= 0,
    ;
    vstd::arithmetic::div_mod::lemma_fundamental_div_mod(i, n);
    vstd::arithmetic::div_mod::lemma_mod_bound(i, n);
    vstd::arithmetic::div_mod::lemma_div_pos_is_pos(i, n);
    assert((i / n) * n == n * (i / n)) by (nonlinear_arith);
    assert(i / n < rows) by (nonlinear_arith)
        requires
            0 <= i < rows * n,
            n > 0,
            i == n * (i / n) + i % n,
            0 <= i % n,
    ;
}

/// A list of distinct points of a grid holds at most as many points as the
/// grid.
pub proof fn lemma_points_bounded(s: Seq<(usize, usize)>, rows: usize, cols: usize)
    requires
        s.no_duplicates(),
        forall|k: int| 0 <= k < s.len() ==> inside(rows, cols, #[trigger] s[k]),
    ensures
        s.len() <= rows * cols,
{
    let e = s.map_values(|p: (usize, usize)| cell(cols, p));
    assert forall|i: int, j: int| 0 <= i < e.len() && 0 <= j < e.len() && i != j implies e[i]
        != e[j] by {
        lemma_cell(rows, cols, s[i], s[j]);
    }
    assert(e.no_duplicates());
    e.unique_seq_to_set();
    let range = vstd::set_lib::set_int_range(0, rows * cols);
    assert forall|x: int| e.to_set().contains(x) implies range.contains(x) by {
        let k = choose|k: int| 0 <= k < e.len() && e[k] == x;
        lemma_cell(rows, cols, s[k], s[k]);
    }
    vstd::set_lib::lemma_int_range(0, rows * cols);
    vstd::set_lib::lemma_len_subset(e.to_set(), range);
}

/// Whether each point of `stack` is a neighbour of a point of `members`
/// (when there are any).
spec fn reached(members: Seq<(usize, usize)>, stack: Seq<(usize, usize)>) -> bool {
    forall|x: (usize, usize)|
        #[trigger] stack.contains(x) ==> members.len() == 0 || exists|j: int|
            0 <= j < members.len() && adjacent(members[j], x)
}

/// Moving the top of the stack to the end of the members keeps the members
/// chained and the rest of the stack reached.
proof fn lemma_chain_extend(
    members: Seq<(usize, usize)>,
    stack: Seq<(usize, usize)>,
    rest: Seq<(usize, usize)>,
    p: (usize, usize),
)
    requires
        chained(members),
        reached(members, stack),
        members.len() == 0 ==> stack.len() == 1,
        stack == rest.push(p),
    ensures
        chained(members.push(p)),
        reached(members.push(p), rest),
{
    let grown = members.push(p);
    lemma_push_contains(rest, p);
    assert(stack.contains(p));
    assert forall|k: int| 0 < k < grown.len() implies #[trigger] joined_at(grown, k) by {
        if k < members.len() {
            assert(members[k] == grown[k]);
            assert(joined_at(members, k));
            let j = choose|j: int| 0 <= j < k && adjacent(members[j], members[k]);
            assert(grown[j] == members[j]);
        } else {
            let j = choose|j: int| 0 <= j < members.len() && adjacent(members[j], p);
            assert(grown[j] == members[j]);
            assert(grown[k] == p);
            assert(adjacent(grown[j], grown[k]));
        }
    }
    assert forall|x: (usize, usize)| #[trigger] rest.contains(x) implies grown.len() == 0 || exists|j: int|
        0 <= j < grown.len() && adjacent(grown[j], x) by {
        assert(stack.contains(x));
        if members.len() == 0 {
            assert(rest.len() == 0);
        } else {
            let j = choose|j: int| 0 <= j < members.len() && adjacent(members[j], x);
            assert(grown[j] == members[j]);
        }
    }
}

/// A neighbour of the last member pushed on the stack is reached.
proof fn lemma_reached_push(members: Seq<(usize, usize)>, stack: Seq<(usize, usize)>, q: (usize, usize))
    requires
        reached(members, stack),
        members.len() > 0,
        adjacent(members.last(), q),
    ensures
        reached(members, stack.push(q)),
{
    lemma_push_contains(stack, q);
    assert forall|x: (usize, usize)| #[trigger] stack.push(q).contains(x) implies members.len() == 0 || exists|j: int|
        0 <= j < members.len() && adjacent(members[j], x) by {
        if x == q {
            assert(adjacent(members[members.len() - 1], x));
        } else {
            assert(stack.contains(x));
        }
    }
}

/// What a list holds after a push: what it held, and the pushed value.
proof fn lemma_push_contains<A>(s: Seq<A>, v: A)
    ensures
        forall|x: A| #[trigger] s.push(v).contains(x) <==> (s.contains(x) || x == v),
{
    assert forall|x: A| #[trigger] s.push(v).contains(x) implies (s.contains(x) || x == v) by {
        let k = choose|k: int| 0 <= k < s.push(v).len() && s.push(v)[k] == x;
        if k < s.len() {
            assert(s[k] == x);
        }
    }
    assert forall|x: A| s.contains(x) || x == v implies #[trigger] s.push(v).contains(x) by {
        if s.contains(x) {
            let k = choose|k: int| 0 <= k < s.len() && s[k] == x;
            assert(s.push(v)[k] == x);
        } else {
            assert(s.push(v)[s.len() as int] == x);
        }
    }
}

/// The neighbours of a point up, down, left and right (those with a negative
/// coordinate left out).
fn neighbors(point: (usize, usize)) -> (r: Vec<(usize, usize)>)
    requires
        point.0 < usize::MAX,
        point.1 < usize::MAX,
    ensures
        forall|q: (usize, usize)| r@.contains(q) <==> adjacent(point, q),
{
    let (row, col) = point;
    let mut r: Vec<(usize, usize)> = Vec::new();
    if row > 0 {
        r.push((row - 1, col));
    }
    if col > 0 {
        r.push((row, col - 1));
    }
    r.push((row + 1, col));
    r.push((row, col + 1));
    let ghost n = r@.len() as int;
    assert forall|q: (usize, usize)| adjacent(point, q) implies r@.contains(q) by {
        if q.0 + 1 == row && q.1 == col {
            assert(r@[0] == q);
        } else if q.0 == row && q.1 + 1 == col {
            assert(r@[if row > 0 { 1int } else { 0int }] == q);
        } else if q.0 == row + 1 {
            assert(r@[n - 2] == q);
        } else {
            assert(r@[n - 1] == q);
        }
    }
    r
}

/// Collects the colour block of `start`: every point reached from it
/// through neighbours of its colour. The points found, and no others, are
/// numbered `id` in `ids`; points numbered before keep their numbers.
fn get_region(
    grid: &Vec<Codel>,
    ids: &mut Vec<Option<usize>>,
    rows: usize,
    cols: usize,
    start: (usize, usize),
    id: usize,
) -> (r: Region)
    requires
        rows * cols <= isize::MAX,
        grid@.len() == rows * cols,
        old(ids)@.len() == rows * cols,
        inside(rows, cols, start),
        old(ids)@[cell(cols, start)] is None,
        forall|i: int| 0 <= i < rows * cols ==> numbered_below(#[trigger] old(ids)@[i], id as int),
        closed_below(grid@, old(ids)@, rows, cols, id as int),
    ensures
        final(ids)@.len() == rows * cols,
        r.wf(),
        r.members@.contains(start),
        forall|k: int| 0 <= k < r.members@.len() ==> inside(rows, cols, #[trigger] r.members@[k]),
        forall|i: int| 0 <= i < rows * cols ==> numbered_below(#[trigger] final(ids)@[i], id + 1),
        forall|i: int|
            0 <= i < rows * cols && old(ids)@[i] is Some ==> #[trigger] final(ids)@[i] == old(ids)@[i],
        forall|i: int|
            0 <= i < rows * cols && old(ids)@[i] is None ==> (#[trigger] final(ids)@[i] is None
                || final(ids)@[i] == Some(id)),
        forall|p: (usize, usize)|
            inside(rows, cols, p) ==> (final(ids)@[cell(cols, p)] == Some(id)
                <==> r.members@.contains(p)),
        forall|p: (usize, usize)|
            r.members@.contains(p) ==> grid@[cell(cols, p)] == grid@[cell(cols, start)],
        closed_below(grid@, final(ids)@, rows, cols, id + 1),
        chained(r.members@),
{
    let ghost n = rows * cols;
    proof {
        lemma_cell(rows, cols, start, start);
    }
    let start_index = start.0 * cols + start.1;
    let color = grid[start_index];
    let mut members: Vec<(usize, usize)> = Vec::new();
    let mut stack: Vec<(usize, usize)> = Vec::new();
    ids.set(start_index, Some(id));
    stack.push(start);
    proof {
        lemma_push_contains(Seq::<(usize, usize)>::empty(), start);
        assert(Seq::<(usize, usize)>::empty().push(start) == stack@);
        assert forall|p: (usize, usize)| inside(rows, cols, p) && p != start implies ids@[cell(cols, p)]
            != Some(id) by {
            lemma_cell(rows, cols, p, start);
            assert(numbered_below(old(ids)@[cell(cols, p)], id as int));
        }
        assert forall|p: (usize, usize)|
            inside(rows, cols, p) && p != start implies ids@[cell(cols, p)] == old(
                ids,
            )@[cell(cols, p)] by {
            lemma_cell(rows, cols, p, start);
        }
        assert forall|p1: (usize, usize), p2: (usize, usize)|
            #[trigger] same_block(grid@, rows, cols, p1, p2) && (ids@[cell(cols, p1)] matches Some(
                j,
            ) && j < id) implies ids@[cell(cols, p2)] == ids@[cell(cols, p1)] by {
            lemma_cell(rows, cols, p1, start);
            lemma_cell(rows, cols, p2, start);
        }
    }
    while stack.len() > 0
        invariant
            rows * cols == n <= isize::MAX,
            grid@.len() == n,
            ids@.len() == n,
            inside(rows, cols, start),
            color == grid@[cell(cols, start)],
            members@.no_duplicates(),
            stack@.no_duplicates(),
            forall|p: (usize, usize)| !(members@.contains(p) && stack@.contains(p)),
            members@.contains(start) || stack@.contains(start),
            forall|k: int| 0 <= k < members@.len() ==> inside(rows, cols, #[trigger] members@[k]),
            forall|k: int| 0 <= k < stack@.len() ==> inside(rows, cols, #[trigger] stack@[k]),
            forall|p: (usize, usize)|
                inside(rows, cols, p) ==> (ids@[cell(cols, p)] == Some(id) <==> (
                members@.contains(p) || stack@.contains(p))),
            forall|p: (usize, usize)|
                members@.contains(p) || stack@.contains(p) ==> grid@[cell(cols, p)] == color,
            forall|i: int| 0 <= i < n ==> numbered_below(#[trigger] ids@[i], id + 1),
            forall|i: int| 0 <= i < n && old(ids)@[i] is Some ==> #[trigger] ids@[i] == old(ids)@[i],
            forall|i: int|
                0 <= i < n && old(ids)@[i] is None ==> (#[trigger] ids@[i] is None || ids@[i] == Some(
                    id,
                )),
            closed_below(grid@, ids@, rows, cols, id as int),
            forall|m: (usize, usize), q: (usize, usize)|
                members@.contains(m) && #[trigger] same_block(grid@, rows, cols, m, q)
                    ==> ids@[cell(cols, q)] == Some(id),
            chained(members@),
            members@.len() == 0 ==> stack@.len() == 1,
            reached(members@, stack@),
        decreases n - members@.len(),
    {
        let ghost stack_before = stack@;
        let p = stack.pop().unwrap();
        let ghost stack_rest = stack@;
        let ghost members_before = members@;
        proof {
            assert(stack_before =~= stack_rest.push(p));
            assert(stack_before[stack_rest.len() as int] == p);
            lemma_push_contains(stack_rest, p);
        }
        members.push(p);
        proof {
            lemma_push_contains(members_before, p);
            assert(!members_before.contains(p));
            lemma_chain_extend(members_before, stack_before, stack_rest, p);
            assert forall|k: int| 0 <= k < members@.len() implies inside(
                rows,
                cols,
                #[trigger] members@[k],
            ) by {
                if k == members@.len() - 1 {
                    assert(stack_before.contains(p));
                }
            }
            lemma_points_bounded(members@, rows, cols);
        }
        proof {
            lemma_cell(rows, cols, p, p);
        }
        let ns = neighbors(p);
        let mut k: usize = 0;
        while k < ns.len()
            invariant
                rows * cols == n <= isize::MAX,
                grid@.len() == n,
                ids@.len() == n,
                inside(rows, cols, start),
                inside(rows, cols, p),
                color == grid@[cell(cols, start)],
                members@.contains(p),
                members@.len() <= n,
                forall|q: (usize, usize)| ns@.contains(q) <==> adjacent(p, q),
                members@.no_duplicates(),
                stack@.no_duplicates(),
                forall|x: (usize, usize)| !(members@.contains(x) && stack@.contains(x)),
                members@.contains(start) || stack@.contains(start),
                forall|j: int| 0 <= j < members@.len() ==> inside(rows, cols, #[trigger] members@[j]),
                forall|j: int| 0 <= j < stack@.len() ==> inside(rows, cols, #[trigger] stack@[j]),
                forall|x: (usize, usize)|
                    inside(rows, cols, x) ==> (ids@[cell(cols, x)] == Some(id) <==> (
                    members@.contains(x) || stack@.contains(x))),
                forall|x: (usize, usize)|
                    members@.contains(x) || stack@.contains(x) ==> grid@[cell(cols, x)] == color,
                forall|i: int| 0 <= i < n ==> numbered_below(#[trigger] ids@[i], id + 1),
                forall|i: int| 0 <= i < n && old(ids)@[i] is Some ==> #[trigger] ids@[i] == old(ids)@[i],
            forall|i: int|
                0 <= i < n && old(ids)@[i] is None ==> (#[trigger] ids@[i] is None || ids@[i] == Some(
                    id,
                )),
                closed_below(grid@, ids@, rows, cols, id as int),
                forall|m: (usize, usize), q: (usize, usize)|
                    members@.contains(m) && m != p && #[trigger] same_block(grid@, rows, cols, m, q)
                        ==> ids@[cell(cols, q)] == Some(id),
                forall|j: int|
                    0 <= j < k && #[trigger] same_block(grid@, rows, cols, p, ns@[j]) ==> ids@[cell(
                        cols,
                        ns@[j],
                    )] == Some(id),
                chained(members@),
                members@.len() > 0 && members@.last() == p,
                reached(members@, stack@),
            decreases ns@.len() - k,
        {
            let q = ns[k];
            if q.0 < rows && q.1 < cols {
                proof {
                    lemma_cell(rows, cols, q, q);
                    lemma_cell(rows, cols, q, p);
                }
                let qi = q.0 * cols + q.1;
                if ids[qi].is_none() && grid[qi] == color {
                    let ghost before = ids@;
                    ids.set(qi, Some(id));
                    assert(!members@.contains(q));
                    assert(!stack@.contains(q));
                    let ghost stack_before_push = stack@;
                    stack.push(q);
                    proof {
                        assert(ns@[k as int] == q);
                        lemma_reached_push(members@, stack_before_push, q);
                        lemma_push_contains(stack_before_push, q);
                        assert forall|x: (usize, usize)|
                            inside(rows, cols, x) && x != q implies ids@[cell(cols, x)] == before[cell(
                                cols,
                                x,
                            )] by {
                            lemma_cell(rows, cols, x, q);
                        }
                        assert forall|p1: (usize, usize), p2: (usize, usize)|
                            #[trigger] same_block(grid@, rows, cols, p1, p2) && (ids@[cell(
                                cols,
                                p1,
                            )] matches Some(j) && j < id) implies ids@[cell(cols, p2)] == ids@[cell(
                            cols,
                            p1,
                        )] by {
                            lemma_cell(rows, cols, p1, q);
                            lemma_cell(rows, cols, p2, q);
                        }
                        assert forall|j: int| 0 <= j < stack@.len() implies inside(
                            rows,
                            cols,
                            #[trigger] stack@[j],
                        ) by {
                            if j < stack@.len() - 1 {
                                assert(stack@[j] == stack@.drop_last()[j]);
                            }
                        }
                    }
                } else if grid[qi] == color {
                    proof {
                        assert(ns@[k as int] == q);
                        assert(ns@.contains(q));
                        assert(adjacent(p, q));
                        assert(adjacent(q, p));
                        assert(grid@[cell(cols, p)] == color);
                        assert(grid@[cell(cols, q)] == color);
                        assert(same_block(grid@, rows, cols, q, p));
                    }
                }
            }
            k = k + 1;
        }
        proof {
            assert forall|q: (usize, usize)| #[trigger]
                same_block(grid@, rows, cols, p, q) implies ids@[cell(cols, q)] == Some(id) by {
                assert(ns@.contains(q));
                let j = choose|j: int| 0 <= j < ns@.len() && ns@[j] == q;
            }
        }
    }
    proof {
        assert forall|p1: (usize, usize), p2: (usize, usize)|
            #[trigger] same_block(grid@, rows, cols, p1, p2) && (ids@[cell(cols, p1)] matches Some(
                j,
            ) && j < id + 1) implies ids@[cell(cols, p2)] == ids@[cell(cols, p1)] by {
            if ids@[cell(cols, p1)] == Some(id) {
                assert(members@.contains(p1));
            }
        }
    }
    Region::new(members)
}

/// A point of the program: its colour and the number of its colour block.
#[derive(Clone, Copy, Debug, PartialEq, Eq, Structural)]
pub struct Point {
    pub codel: Codel,
    pub region: usize,
}

/// A Piet program: a grid of codels grouped into colour blocks.
///
/// * `points` - the codels, row after row from the top left corner.
/// * `regions` - the colour blocks; `points[i].region` indexes this list.
/// * `rows` - the number of rows.
/// * `cols` - the number of columns.
#[derive(Debug)]
pub struct Program {
    pub points: Vec<Point>,
    pub regions: Vec<Region>,
    pub rows: usize,
    pub cols: usize,
}

/// One position earlier in row-major order has a smaller index.
proof fn lemma_cell_order(rows: usize, cols: usize, p: (usize, usize), q: (usize, usize))
    requires
        inside(rows, cols, p),
        inside(rows, cols, q),
        p.0 < q.0 || (p.0 == q.0 && p.1 < q.1),
    ensures
        cell(cols, p) < cell(cols, q),
{
    let (a, b) = (p.0 as int, p.1 as int);
    let (c, d) = (q.0 as int, q.1 as int);
    let n = cols as int;
    assert(a * n + b < c * n + d) by (nonlinear_arith)
        requires
            0 <= a,
            0 <= b < n,
            0 <= d < n,
            a < c || (a == c && b < d),
    ;
}

impl Program {
    pub open spec fn inside(self, p: (usize, usize)) -> bool {
        inside(self.rows, self.cols, p)
    }

    pub open spec fn point(self, p: (usize, usize)) -> Point {
        self.points@[cell(self.cols, p)]
    }

    pub open spec fn color(self, p: (usize, usize)) -> Codel {
        self.point(p).codel
    }

    pub open spec fn region_index(self, p: (usize, usize)) -> int {
        self.point(p).region as int
    }

    /// The members of the colour block of `p`.
    pub open spec fn block(self, p: (usize, usize)) -> Seq<(usize, usize)> {
        self.regions@[self.region_index(p)].members@
    }

    /// Whether `p` and `q` are neighbours of the same colour.
    pub open spec fn linked(self, p: (usize, usize), q: (usize, usize)) -> bool {
        &&& self.inside(p)
        &&& self.inside(q)
        &&& adjacent(p, q)
        &&& self.color(p) == self.color(q)
    }

    /// The grid and its blocks agree: every point is a member of its block,
    /// the members of a block are points of one colour that name that block,
    /// they are joined to each other through neighbours in the block, and
    /// neighbours of one colour share a block.
    pub open spec fn wf(self) -> bool {
        &&& self.points@.len() == self.rows * self.cols
        &&& self.rows * self.cols <= isize::MAX
        &&& forall|p: (usize, usize)|
            #![trigger self.point(p)]
            self.inside(p) ==> {
                &&& self.color(p).wf()
                &&& 0 <= self.region_index(p) < self.regions@.len()
                &&& self.block(p).contains(p)
            }
        &&& forall|i: int|
            #![trigger self.regions@[i]]
            0 <= i < self.regions@.len() ==> {
                &&& self.regions@[i].wf()
                &&& self.regions@[i].size <= self.rows * self.cols
                &&& self.regions@[i].members@.len() > 0
                &&& chained(self.regions@[i].members@)
            }
        &&& forall|i: int, m: (usize, usize)|
            0 <= i < self.regions@.len() && #[trigger] self.regions@[i].members@.contains(m) ==> {
                &&& self.inside(m)
                &&& self.region_index(m) == i
                &&& self.color(m) == self.color(self.regions@[i].members@[0])
            }
        &&& forall|p: (usize, usize), q: (usize, usize)|
            #[trigger] self.linked(p, q) ==> self.region_index(p) == self.region_index(q)
    }

    /// Builds a program from a grid of colours, `rows` lists of `cols` codels.
    pub fn new(colors: Vec<Vec<Codel>>, rows: usize, cols: usize) -> (r: Program)
        requires
            colors@.len() == rows,
            forall|i: int| 0 <= i < rows ==> (#[trigger] colors@[i])@.len() == cols,
            forall|i: int, j: int| 0 <= i < rows && 0 <= j < cols ==> (#[trigger] colors@[i]@[j]).wf(),
            rows * cols <= isize::MAX,
        ensures
            r.wf(),
            r.rows == rows,
            r.cols == cols,
            forall|p: (usize, usize)| r.inside(p) ==> #[trigger] r.color(p) == colors@[p.0 as int]@[p.1 as int],
    {
        let (points, regions) = Self::get_codels(&colors, rows, cols);
        Program { points, regions, rows, cols }
    }

    /// Builds the codels of a grid of colours and groups them into colour
    /// blocks, scanning the grid row by row.
    fn get_codels(colors: &Vec<Vec<Codel>>, rows: usize, cols: usize) -> (r: (Vec<Point>, Vec<Region>))
        requires
            colors@.len() == rows,
            forall|i: int| 0 <= i < rows ==> (#[trigger] colors@[i])@.len() == cols,
            forall|i: int, j: int| 0 <= i < rows && 0 <= j < cols ==> (#[trigger] colors@[i]@[j]).wf(),
            rows * cols <= isize::MAX,
        ensures
            (Program { points: r.0, regions: r.1, rows, cols }).wf(),
            forall|p: (usize, usize)|
                inside(rows, cols, p) ==> #[trigger] r.0@[cell(cols, p)].codel == colors@[p.0 as int]@[p.1 as int],
    {
        let ghost n = rows * cols;
        let mut grid: Vec<Codel> = Vec::new();
        let mut row: usize = 0;
        while row < rows
            invariant
                rows * cols == n <= isize::MAX,
                row <= rows,
                colors@.len() == rows,
                forall|i: int| 0 <= i < rows ==> (#[trigger] colors@[i])@.len() == cols,
                grid@.len() == row * cols,
                forall|p: (usize, usize)|
                    inside(rows, cols, p) && p.0 < row ==> #[trigger] grid@[cell(cols, p)] == colors@[p.0 as int]@[p.1 as int],
            decreases rows - row,
        {
            let mut col: usize = 0;
            proof {
                assert(row * cols + cols <= rows * cols) by (nonlinear_arith)
                    requires
                        row < rows,
                ;
            }
            while col < cols
                invariant
                    rows * cols == n <= isize::MAX,
                    row < rows,
                    col <= cols,
                    row * cols + cols <= rows * cols,
                    colors@.len() == rows,
                    forall|i: int| 0 <= i < rows ==> (#[trigger] colors@[i])@.len() == cols,
                    grid@.len() == row * cols + col,
                    forall|p: (usize, usize)|
                        inside(rows, cols, p) && (p.0 < row || (p.0 == row && p.1 < col))
                            ==> #[trigger] grid@[cell(cols, p)] == colors@[p.0 as int]@[p.1 as int],
                decreases cols - col,
            {
                let ghost before = grid@;
                grid.push(colors[row][col]);
                proof {
                    assert forall|p: (usize, usize)|
                        inside(rows, cols, p) && (p.0 < row || (p.0 == row && p.1 < col + 1))
                            implies #[trigger] grid@[cell(cols, p)] == colors@[p.0 as int]@[p.1 as int] by {
                        if p.0 < row || (p.0 == row && p.1 < col) {
                            lemma_cell_order(rows, cols, p, (row, col));
                            lemma_cell(rows, cols, p, p);
                        }
                    }
                }
                col = col + 1;
            }
            proof {
                assert((row + 1) * cols == row * cols + cols) by (nonlinear_arith);
            }
            row = row + 1;
        }
        let total = rows * cols;
        let mut ids: Vec<Option<usize>> = Vec::new();
        let mut i: usize = 0;
        while i < total
            invariant
                i <= total,
                ids@.len() == i,
                forall|j: int| 0 <= j < i ==> #[trigger] ids@[j] is None,
            decreases total - i,
        {
            ids.push(None);
            i = i + 1;
        }
        proof {
            assert forall|p: (usize, usize)| inside(rows, cols, p) implies #[trigger] ids@[cell(cols, p)] is None by {
                lemma_cell(rows, cols, p, p);
            }
        }
        let mut regions: Vec<Region> = Vec::new();
        let mut index: usize = 0;
        while index < total
            invariant
                total == rows * cols == n <= isize::MAX,
                grid@.len() == n,
                ids@.len() == n,
                index <= total,
                forall|j: int| 0 <= j < n ==> numbered_below(#[trigger] ids@[j], regions@.len() as int),
                forall|j: int| 0 <= j < index ==> #[trigger] ids@[j] is Some,
                closed_below(grid@, ids@, rows, cols, regions@.len() as int),
                forall|j: int|
                    #![trigger regions@[j]]
                    0 <= j < regions@.len() ==> {
                        &&& regions@[j].wf()
                        &&& regions@[j].size <= n
                        &&& regions@[j].members@.len() > 0
                        &&& chained(regions@[j].members@)
                    },
                forall|j: int, m: (usize, usize)|
                    0 <= j < regions@.len() && #[trigger] regions@[j].members@.contains(m) ==> {
                        &&& inside(rows, cols, m)
                        &&& ids@[cell(cols, m)] == Some(j as usize)
                        &&& grid@[cell(cols, m)] == grid@[cell(cols, regions@[j].members@[0])]
                    },
                forall|p: (usize, usize)|
                    inside(rows, cols, p) ==> (#[trigger] ids@[cell(cols, p)] matches Some(j) ==> regions@[j as int].members@.contains(p)),
            decreases total - index,
        {
            proof {
                lemma_decode(rows, cols, index as int);
            }
            let p = (index / cols, index % cols);
            if ids[index].is_none() {
                let ghost ids_before = ids@;
                let ghost regions_before = regions@;
                let id = regions.len();
                let region = get_region(&grid, &mut ids, rows, cols, p, id);
                proof {
                    lemma_points_bounded(region.members@, rows, cols);
                    assert(region.members@.contains(p));
                    assert(region.members@.len() > 0);
                    assert(region.members@.contains(region.members@[0]));
                }
                regions.push(region);
                proof {
                    assert forall|j: int, m: (usize, usize)|
                        0 <= j < regions@.len() && #[trigger] regions@[j].members@.contains(m) implies {
                            &&& inside(rows, cols, m)
                            &&& ids@[cell(cols, m)] == Some(j as usize)
                            &&& grid@[cell(cols, m)] == grid@[cell(cols, regions@[j].members@[0])]
                        } by {
                        if j < id {
                            assert(regions_before[j] == regions@[j]);
                            lemma_cell(rows, cols, m, m);
                        }
                    }
                    assert forall|q: (usize, usize)|
                        inside(rows, cols, q) implies (#[trigger] ids@[cell(cols, q)] matches Some(j) ==> regions@[j as int].members@.contains(q)) by {
                        lemma_cell(rows, cols, q, q);
                        if ids_before[cell(cols, q)] is Some {
                            assert(regions_before[ids_before[cell(cols, q)]->0 as int] == regions@[ids_before[cell(cols, q)]->0 as int]);
                        } else if ids@[cell(cols, q)] is Some {
                            assert(ids@[cell(cols, q)] == Some(id));
                            assert(regions@[id as int] == region);
                        }
                    }
                    assert forall|j: int| 0 <= j < index + 1 implies #[trigger] ids@[j] is Some by {
                        if j < index {
                            assert(ids_before[j] is Some);
                        }
                    }
                }
            }
            index = index + 1;
        }
        let region_count = regions.len();
        let mut points: Vec<Point> = Vec::new();
        let mut k: usize = 0;
        while k < total
            invariant
                total == rows * cols == n,
                grid@.len() == n,
                ids@.len() == n,
                k <= total,
                forall|j: int| 0 <= j < n ==> #[trigger] ids@[j] is Some,
                points@.len() == k,
                forall|j: int|
                    0 <= j < k ==> #[trigger] points@[j] == (Point { codel: grid@[j], region: ids@[j]->0 }),
            decreases total - k,
        {
            points.push(Point { codel: grid[k], region: ids[k].unwrap() });
            k = k + 1;
        }
        proof {
            let prog = Program { points, regions, rows, cols };
            assert forall|p: (usize, usize)| #![trigger prog.point(p)] prog.inside(p) implies {
                &&& prog.color(p).wf()
                &&& 0 <= prog.region_index(p) < prog.regions@.len()
                &&& prog.block(p).contains(p)
            } by {
                lemma_cell(rows, cols, p, p);
                assert(ids@[cell(cols, p)] is Some);
                assert(numbered_below(ids@[cell(cols, p)], regions@.len() as int));
            }
            assert forall|j: int, m: (usize, usize)|
                0 <= j < prog.regions@.len() && #[trigger] prog.regions@[j].members@.contains(m) implies {
                    &&& prog.inside(m)
                    &&& prog.region_index(m) == j
                    &&& prog.color(m) == prog.color(prog.regions@[j].members@[0])
                } by {
                let m0 = regions@[j].members@[0];
                assert(regions@[j].members@.contains(m));
                assert(regions@[j].members@.contains(m0));
                lemma_cell(rows, cols, m, m);
                lemma_cell(rows, cols, m0, m0);
                assert(points@[cell(cols, m)] == (Point { codel: grid@[cell(cols, m)], region: ids@[cell(cols, m)]->0 }));
                assert(points@[cell(cols, m0)] == (Point { codel: grid@[cell(cols, m0)], region: ids@[cell(cols, m0)]->0 }));
                assert(prog.inside(m));
                assert(ids@[cell(cols, m)] == Some(j as usize));
                assert(regions@.len() == region_count);
                assert((j as usize) as int == j);
                assert(prog.point(m).region == j as usize);
                assert(prog.region_index(m) == j);
                assert(grid@[cell(cols, m)] == grid@[cell(cols, m0)]);
                assert(prog.color(m) == grid@[cell(cols, m)]);
                assert(prog.color(m0) == grid@[cell(cols, m0)]);
            }
            assert forall|p: (usize, usize), q: (usize, usize)|
                #[trigger] prog.linked(p, q) implies prog.region_index(p) == prog.region_index(q) by {
                lemma_cell(rows, cols, p, p);
                lemma_cell(rows, cols, q, q);
                assert(same_block(grid@, rows, cols, p, q));
                assert(ids@[cell(cols, p)] is Some);
            }
            assert forall|p: (usize, usize)|
                inside(rows, cols, p) implies #[trigger] points@[cell(cols, p)].codel == colors@[p.0 as int]@[p.1 as int] by {
                lemma_cell(rows, cols, p, p);
            }
        }
        (points, regions)
    }
}

impl Program {
    /// The neighbour of `p` in direction `d`, if it lies in the grid.
    pub open spec fn spec_step(self, p: (usize, usize), d: Direction) -> Option<(usize, usize)> {
        match d {
            Direction::Up => if p.0 > 0 {
                Some(((p.0 - 1) as usize, p.1))
            } else {
                None
            },
            Direction::Down => if p.0 + 1 < self.rows {
                Some(((p.0 + 1) as usize, p.1))
            } else {
                None
            },
            Direction::Left => if p.1 > 0 {
                Some((p.0, (p.1 - 1) as usize))
            } else {
                None
            },
            Direction::Right => if p.1 + 1 < self.cols {
                Some((p.0, (p.1 + 1) as usize))
            } else {
                None
            },
        }
    }

    /// The neighbour of `p` in direction `d` with its colour, if it lies in the grid.
    pub open spec fn spec_next_point(self, p: (usize, usize), d: Direction) -> Option<((usize, usize), Codel)> {
        match self.spec_step(p, d) {
            Some(q) => Some((q, self.color(q))),
            None => None,
        }
    }

    /// Builds a program from RGBA pixels, four bytes per pixel, row after row.
    pub fn from_rgba(pixels: &Vec<u8>, rows: usize, cols: usize) -> (r: Result<Program, UnsupportedColor>)
        requires
            pixels@.len() == 4 * rows * cols,
            rows * cols <= isize::MAX,
        ensures
            match r {
                Ok(prog) => {
                    &&& prog.wf()
                    &&& prog.rows == rows
                    &&& prog.cols == cols
                    &&& forall|p: (usize, usize)|
                        inside(rows, cols, p) ==> rgb_codel(
                            pixels@[4 * cell(cols, p)],
                            pixels@[4 * cell(cols, p) + 1],
                            pixels@[4 * cell(cols, p) + 2],
                        ) == Some(#[trigger] prog.color(p))
                },
                Err(e) => exists|p: (usize, usize)|
                    #![trigger cell(cols, p)]
                    inside(rows, cols, p) && rgb_codel(
                        pixels@[4 * cell(cols, p)],
                        pixels@[4 * cell(cols, p) + 1],
                        pixels@[4 * cell(cols, p) + 2],
                    ) is None && e == (UnsupportedColor {
                        red: pixels@[4 * cell(cols, p)],
                        green: pixels@[4 * cell(cols, p) + 1],
                        blue: pixels@[4 * cell(cols, p) + 2],
                    }),
            },
    {
        let total = pixels.len();
        let mut colors: Vec<Vec<Codel>> = Vec::new();
        let mut row: usize = 0;
        while row < rows
            invariant
                total == pixels@.len() == 4 * rows * cols,
                rows * cols <= isize::MAX,
                row <= rows,
                colors@.len() == row,
                forall|i: int| 0 <= i < row ==> (#[trigger] colors@[i])@.len() == cols,
                forall|p: (usize, usize)|
                    #![trigger colors@[p.0 as int]@[p.1 as int]]
                    inside(rows, cols, p) && p.0 < row ==> rgb_codel(
                        pixels@[4 * cell(cols, p)],
                        pixels@[4 * cell(cols, p) + 1],
                        pixels@[4 * cell(cols, p) + 2],
                    ) == Some(colors@[p.0 as int]@[p.1 as int]) && colors@[p.0 as int]@[p.1 as int].wf(),
            decreases rows - row,
        {
            let mut line: Vec<Codel> = Vec::new();
            let mut col: usize = 0;
            while col < cols
                invariant
                    total == pixels@.len() == 4 * rows * cols,
                    rows * cols <= isize::MAX,
                    row < rows,
                    col <= cols,
                    line@.len() == col,
                    forall|j: int|
                        #![trigger line@[j]]
                        0 <= j < col ==> rgb_codel(
                            pixels@[4 * cell(cols, (row, j as usize))],
                            pixels@[4 * cell(cols, (row, j as usize)) + 1],
                            pixels@[4 * cell(cols, (row, j as usize)) + 2],
                        ) == Some(line@[j]) && line@[j].wf(),
                decreases cols - col,
            {
                proof {
                    lemma_cell(rows, cols, (row, col), (row, col));
                    assert(4 * cell(cols, (row, col)) + 3 < 4 * rows * cols) by (nonlinear_arith)
                        requires
                            cell(cols, (row, col)) < rows * cols,
                    ;
                }
                let at = 4 * (row * cols + col);
                match Codel::from_rgb(pixels[at], pixels[at + 1], pixels[at + 2]) {
                    Ok(codel) => line.push(codel),
                    Err(e) => {
                        return Err(e);
                    },
                }
                col = col + 1;
            }
            colors.push(line);
            proof {
                assert forall|p: (usize, usize)|
                    #![trigger colors@[p.0 as int]@[p.1 as int]]
                    inside(rows, cols, p) && p.0 < row + 1 implies rgb_codel(
                        pixels@[4 * cell(cols, p)],
                        pixels@[4 * cell(cols, p) + 1],
                        pixels@[4 * cell(cols, p) + 2],
                    ) == Some(colors@[p.0 as int]@[p.1 as int]) && colors@[p.0 as int]@[p.1 as int].wf() by {
                    if p.0 == row {
                        assert(line@[p.1 as int] == colors@[p.0 as int]@[p.1 as int]);
                    }
                }
            }
            row = row + 1;
        }
        proof {
            assert forall|i: int, j: int| 0 <= i < rows && 0 <= j < cols implies (#[trigger] colors@[i]@[j]).wf() by {
                let p = (i as usize, j as usize);
                assert(inside(rows, cols, p));
                assert(p.0 < row);
                assert(cell(cols, p) == cell(cols, p));
                assert(colors@[p.0 as int]@[p.1 as int].wf());
                assert(p.0 as int == i && p.1 as int == j);
            }
        }
        let prog = Program::new(colors, rows, cols);
        proof {
            assert forall|p: (usize, usize)|
                inside(rows, cols, p) implies rgb_codel(
                    pixels@[4 * cell(cols, p)],
                    pixels@[4 * cell(cols, p) + 1],
                    pixels@[4 * cell(cols, p) + 2],
                ) == Some(#[trigger] prog.color(p)) by {
                assert(colors@[p.0 as int]@[p.1 as int] == colors@[p.0 as int]@[p.1 as int]);
            }
        }
        Ok(prog)
    }

    /// Gets the point at (row, column) `point`.
    fn codel_at(&self, point: (usize, usize)) -> (r: &Point)
        requires
            self.wf(),
            self.inside(point),
        ensures
            *r == self.point(point),
    {
        proof {
            lemma_cell(self.rows, self.cols, point, point);
        }
        &self.points[point.0 * self.cols + point.1]
    }

    /// Gets the colour at (row, column) `point`.
    pub fn color_at(&self, point: (usize, usize)) -> (r: Codel)
        requires
            self.wf(),
            self.inside(point),
        ensures
            r == self.color(point),
            r.wf(),
    {
        self.codel_at(point).codel
    }

    /// Gets the colour block of (row, column) `point`.
    pub fn region_at(&self, point: (usize, usize)) -> (r: &Region)
        requires
            self.wf(),
            self.inside(point),
        ensures
            *r == self.regions@[self.region_index(point)],
            r.wf(),
            r.members@.contains(point),
            r.size <= self.rows * self.cols,
    {
        let index = self.codel_at(point).region;
        &self.regions[index]
    }

    /// Gets the next point in `direction` along with its colour, if there is one.
    pub fn next_point(&self, start: (usize, usize), direction: Direction) -> (r: Option<((usize, usize), Codel)>)
        requires
            self.wf(),
            self.inside(start),
        ensures
            r == self.spec_next_point(start, direction),
    {
        let (row, col) = start;
        let next = match direction {
            Direction::Up => if row > 0 {
                Some((row - 1, col))
            } else {
                None
            },
            Direction::Down => if row + 1 < self.rows {
                Some((row + 1, col))
            } else {
                None
            },
            Direction::Left => if col > 0 {
                Some((row, col - 1))
            } else {
                None
            },
            Direction::Right => if col + 1 < self.cols {
                Some((row, col + 1))
            } else {
                None
            },
        };
        match next {
            Some(q) => Some((q, self.color_at(q))),
            None => None,
        }
    }
}

/// A block holds every neighbour of its members that has their colour.
pub proof fn lemma_block_closed(prog: Program, i: int, m: (usize, usize), q: (usize, usize))
    requires
        prog.wf(),
        0 <= i < prog.regions@.len(),
        prog.regions@[i].members@.contains(m),
        prog.linked(m, q),
    ensures
        prog.regions@[i].members@.contains(q),
{
    assert(prog.point(q) == prog.point(q));
}

/// The colour blocks of a program partition its grid: no point belongs to
/// two blocks, and every point belongs to one.
pub proof fn lemma_blocks_partition_grid(prog: Program)
    requires
        prog.wf(),
    ensures
        forall|i: int, j: int, m: (usize, usize)|
            0 <= i < prog.regions@.len() && 0 <= j < prog.regions@.len() && i != j
                ==> !(#[trigger] prog.regions@[i].members@.contains(m)
                && #[trigger] prog.regions@[j].members@.contains(m)),
        forall|p: (usize, usize)|
            prog.inside(p) ==> exists|i: int|
                0 <= i < prog.regions@.len() && #[trigger] prog.regions@[i].members@.contains(p),
{
    assert forall|p: (usize, usize)| prog.inside(p) implies exists|i: int|
        0 <= i < prog.regions@.len() && #[trigger] prog.regions@[i].members@.contains(p) by {
        assert(prog.point(p) == prog.point(p));
        let i = prog.region_index(p);
        assert(prog.regions@[i].members@.contains(p));
    }
}

} // verus!
