use vstd::prelude::*;

use itertools::Itertools;

use crate::direction::Direction;

verus! {

/// Relies on `Itertools::sorted`, which collects the items and sorts them:
/// the same values, in ascending order.
#[verifier::external_body]
fn sorted(values: Vec<usize>) -> (r: Vec<usize>)
    ensures
        r@.to_multiset() == values@.to_multiset(),
        forall|i: int, j: int| 0 <= i < j < r@.len() ==> r@[i] <= r@[j],
{
    values.into_iter().sorted().collect()
}

/// A colour block: a set of (row, column) points of one colour.
///
/// * `members` - the points of the block, each listed once.
/// * `size` - the number of points.
#[derive(Debug)]
pub struct Region {
    pub members: Vec<(usize, usize)>,
    pub size: usize,
}

/// Whether `q` is the farthest point of `members` from `from` in direction
/// `d`, along the row or column of `from`: for `Up`, the member of the
/// column of `from` with the smallest row; for `Down`, the largest row; for
/// `Left` and `Right`, the smallest and largest column in the row of `from`.
pub open spec fn is_edge(
    members: Seq<(usize, usize)>,
    from: (usize, usize),
    d: Direction,
    q: (usize, usize),
) -> bool {
    &&& members.contains(q)
    &&& match d {
        Direction::Up => q.1 == from.1 && forall|m: (usize, usize)|
            #![trigger members.contains(m)]
            members.contains(m) && m.1 == from.1 ==> q.0 <= m.0,
        Direction::Down => q.1 == from.1 && forall|m: (usize, usize)|
            #![trigger members.contains(m)]
            members.contains(m) && m.1 == from.1 ==> q.0 >= m.0,
        Direction::Left => q.0 == from.0 && forall|m: (usize, usize)|
            #![trigger members.contains(m)]
            members.contains(m) && m.0 == from.0 ==> q.1 <= m.1,
        Direction::Right => q.0 == from.0 && forall|m: (usize, usize)|
            #![trigger members.contains(m)]
            members.contains(m) && m.0 == from.0 ==> q.1 >= m.1,
    }
}

/// The farthest point of `members` from `from` in direction `d`.
pub open spec fn spec_edge(members: Seq<(usize, usize)>, from: (usize, usize), d: Direction) -> (
    usize,
    usize,
) {
    choose|q: (usize, usize)| is_edge(members, from, d, q)
}

/// There is at most one farthest point.
pub proof fn lemma_edge_unique(
    members: Seq<(usize, usize)>,
    from: (usize, usize),
    d: Direction,
    p: (usize, usize),
    q: (usize, usize),
)
    requires
        is_edge(members, from, d, p),
        is_edge(members, from, d, q),
    ensures
        p == q,
{
    assert(members.contains(p) && members.contains(q));
}

/// When `q` is the farthest point, it is the one that [`spec_edge`] names.
pub proof fn lemma_edge_is_spec_edge(
    members: Seq<(usize, usize)>,
    from: (usize, usize),
    d: Direction,
    q: (usize, usize),
)
    requires
        is_edge(members, from, d, q),
    ensures
        spec_edge(members, from, d) == q,
{
    let e = spec_edge(members, from, d);
    lemma_edge_unique(members, from, d, e, q);
}

/// Every member lies between the farthest points up and down of its column,
/// and between the farthest points left and right of its row.
pub proof fn lemma_member_within_edges(members: Seq<(usize, usize)>, p: (usize, usize))
    requires
        members.contains(p),
    ensures
        spec_edge(members, p, Direction::Up).0 <= p.0 <= spec_edge(members, p, Direction::Down).0,
        spec_edge(members, p, Direction::Left).1 <= p.1 <= spec_edge(
            members,
            p,
            Direction::Right,
        ).1,
        spec_edge(members, p, Direction::Up).1 == p.1,
        spec_edge(members, p, Direction::Down).1 == p.1,
        spec_edge(members, p, Direction::Left).0 == p.0,
        spec_edge(members, p, Direction::Right).0 == p.0,
{
    lemma_edge_exists(members, p, Direction::Up);
    lemma_edge_exists(members, p, Direction::Down);
    lemma_edge_exists(members, p, Direction::Left);
    lemma_edge_exists(members, p, Direction::Right);
}

/// A farthest point exists in each direction from any member.
pub proof fn lemma_edge_exists(members: Seq<(usize, usize)>, p: (usize, usize), d: Direction)
    requires
        members.contains(p),
    ensures
        is_edge(members, p, d, spec_edge(members, p, d)),
    decreases members.len(),
{
    let n = members.len();
    let last = members[n - 1];
    let rest = members.drop_last();
    assert(members == rest.push(last));
    if rest.contains(p) {
        lemma_edge_exists(rest, p, d);
        let e = spec_edge(rest, p, d);
        let on_axis = match d {
            Direction::Up | Direction::Down => last.1 == p.1,
            _ => last.0 == p.0,
        };
        let better = match d {
            Direction::Up => last.0 < e.0,
            Direction::Down => last.0 > e.0,
            Direction::Left => last.1 < e.1,
            Direction::Right => last.1 > e.1,
        };
        let q = if on_axis && better {
            last
        } else {
            e
        };
        assert forall|m: (usize, usize)| members.contains(m) implies rest.contains(m) || m == last by {
            let k = choose|k: int| 0 <= k < n && members[k] == m;
            if k < n - 1 {
                assert(rest[k] == m);
            }
        }
        assert(rest.contains(e));
        let k = choose|k: int| 0 <= k < rest.len() && rest[k] == e;
        assert(members[k] == e);
        assert(members[n - 1] == last);
        assert(is_edge(members, p, d, q));
    } else {
        assert(p == last) by {
            let k = choose|k: int| 0 <= k < n && members[k] == p;
            if k < n - 1 {
                assert(rest[k] == p);
            }
        }
        assert forall|m: (usize, usize)| members.contains(m) && m != last implies rest.contains(m) by {
            let k = choose|k: int| 0 <= k < n && members[k] == m;
            assert(rest[k] == m);
        }
        if rest.len() > 0 {
            let on_axis_rest = exists|m: (usize, usize)|
                rest.contains(m) && match d {
                    Direction::Up | Direction::Down => m.1 == p.1,
                    _ => m.0 == p.0,
                };
            if on_axis_rest {
                let m0 = choose|m: (usize, usize)|
                    rest.contains(m) && match d {
                        Direction::Up | Direction::Down => m.1 == p.1,
                        _ => m.0 == p.0,
                    };
                lemma_edge_exists(rest, m0, d);
                let e = spec_edge(rest, m0, d);
                let better = match d {
                    Direction::Up => last.0 < e.0,
                    Direction::Down => last.0 > e.0,
                    Direction::Left => last.1 < e.1,
                    Direction::Right => last.1 > e.1,
                };
                let q = if better {
                    last
                } else {
                    e
                };
                let k = choose|k: int| 0 <= k < rest.len() && rest[k] == e;
                assert(members[k] == e);
                assert(members[n - 1] == last);
                assert(is_edge(members, p, d, q));
            } else {
                assert(members[n - 1] == last);
                assert(is_edge(members, p, d, last));
            }
        } else {
            assert(members[n - 1] == last);
            assert(is_edge(members, p, d, last));
        }
    }
}

impl Region {
    /// Each member is listed once and `size` counts them.
    pub open spec fn wf(&self) -> bool {
        &&& self.size == self.members@.len()
        &&& self.members@.no_duplicates()
    }

    pub fn new(members: Vec<(usize, usize)>) -> (r: Region)
        requires
            members@.no_duplicates(),
        ensures
            r.wf(),
            r.members@ == members@,
    {
        let size = members.len();
        Region { members, size }
    }

    /// The farthest point of the region from `start` in `direction` (see
    /// [`is_edge`]).
    pub fn edge(&self, start: (usize, usize), direction: Direction) -> (r: (usize, usize))
        requires
            self.wf(),
            self.members@.contains(start),
        ensures
            is_edge(self.members@, start, direction, r),
            r == spec_edge(self.members@, start, direction),
    {
        let (row, col) = start;
        let r = match direction {
            Direction::Up | Direction::Down => {
                let rows = self.codels_in_col(col);
                assert(rows@.contains(row));
                let i = if direction == Direction::Up { 0 } else { rows.len() - 1 };
                let e = (rows[i], col);
                assert(rows@.contains(rows@[i as int]));
                assert forall|m: (usize, usize)|
                    #![trigger self.members@.contains(m)]
                    self.members@.contains(m) && m.1 == col implies (if direction == Direction::Up {
                        e.0 <= m.0
                    } else {
                        e.0 >= m.0
                    }) by {
                    assert(rows@.contains(m.0));
                    let k = choose|k: int| 0 <= k < rows@.len() && rows@[k] == m.0;
                    if k != i {
                    }
                }
                e
            },
            _ => {
                let cols = self.codels_in_row(row);
                assert(cols@.contains(col));
                let i = if direction == Direction::Left { 0 } else { cols.len() - 1 };
                let e = (row, cols[i]);
                assert(cols@.contains(cols@[i as int]));
                assert forall|m: (usize, usize)|
                    #![trigger self.members@.contains(m)]
                    self.members@.contains(m) && m.0 == row implies (if direction == Direction::Left {
                        e.1 <= m.1
                    } else {
                        e.1 >= m.1
                    }) by {
                    assert(cols@.contains(m.1));
                    let k = choose|k: int| 0 <= k < cols@.len() && cols@[k] == m.1;
                    if k != i {
                    }
                }
                e
            },
        };
        proof {
            lemma_edge_is_spec_edge(self.members@, start, direction, r);
        }
        r
    }

    /// The rows of all members in column `col`, in ascending order.
    pub fn codels_in_col(&self, col: usize) -> (r: Vec<usize>)
        requires
            self.wf(),
        ensures
            forall|row: usize| r@.contains(row) <==> self.members@.contains((row, col)),
            forall|i: int, j: int| 0 <= i < j < r@.len() ==> r@[i] < r@[j],
    {
        let mut rows: Vec<usize> = Vec::new();
        let mut i: usize = 0;
        while i < self.members.len()
            invariant
                self.wf(),
                0 <= i <= self.members@.len(),
                rows@.no_duplicates(),
                forall|row: usize|
                    rows@.contains(row) <==> exists|k: int|
                        0 <= k < i && #[trigger] self.members@[k] == (row, col),
            decreases self.members@.len() - i,
        {
            let ghost before = rows@;
            let (row, c) = self.members[i];
            if c == col {
                assert(!rows@.contains(row));
                rows.push(row);
            }
            proof {
                assert forall|x: usize|
                    rows@.contains(x) <==> exists|k: int|
                        0 <= k < i + 1 && #[trigger] self.members@[k] == (x, col) by {
                    if rows@.contains(x) {
                        if before.contains(x) {
                            let k = choose|k: int| 0 <= k < i && #[trigger] self.members@[k] == (x, col);
                        } else {
                            assert(self.members@[i as int] == (x, col));
                        }
                    }
                    if exists|k: int| 0 <= k < i + 1 && #[trigger] self.members@[k] == (x, col) {
                        let k = choose|k: int| 0 <= k < i + 1 && #[trigger] self.members@[k] == (x, col);
                        if k < i {
                            assert(before.contains(x));
                            let j = choose|j: int| 0 <= j < before.len() && before[j] == x;
                            assert(rows@[j] == x);
                        } else {
                            assert(rows@[rows@.len() - 1] == x);
                        }
                    }
                }
            }
            i = i + 1;
        }
        let r = sorted(rows);
        proof {
            lemma_sorted_distinct(rows@, r@);
            assert forall|row: usize| r@.contains(row) <==> self.members@.contains((row, col)) by {
                vstd::seq_lib::to_multiset_contains(rows@, row);
                vstd::seq_lib::to_multiset_contains(r@, row);
                if self.members@.contains((row, col)) {
                    let k = choose|k: int| 0 <= k < self.members@.len() && self.members@[k] == (row, col);
                    assert(rows@.contains(row));
                }
            }
        }
        r
    }

    /// The columns of all members in row `row`, in ascending order.
    pub fn codels_in_row(&self, row: usize) -> (r: Vec<usize>)
        requires
            self.wf(),
        ensures
            forall|col: usize| r@.contains(col) <==> self.members@.contains((row, col)),
            forall|i: int, j: int| 0 <= i < j < r@.len() ==> r@[i] < r@[j],
    {
        let mut cols: Vec<usize> = Vec::new();
        let mut i: usize = 0;
        while i < self.members.len()
            invariant
                self.wf(),
                0 <= i <= self.members@.len(),
                cols@.no_duplicates(),
                forall|col: usize|
                    cols@.contains(col) <==> exists|k: int|
                        0 <= k < i && #[trigger] self.members@[k] == (row, col),
            decreases self.members@.len() - i,
        {
            let ghost before = cols@;
            let (r, col) = self.members[i];
            if r == row {
                assert(!cols@.contains(col));
                cols.push(col);
            }
            proof {
                assert forall|x: usize|
                    cols@.contains(x) <==> exists|k: int|
                        0 <= k < i + 1 && #[trigger] self.members@[k] == (row, x) by {
                    if cols@.contains(x) {
                        if before.contains(x) {
                            let k = choose|k: int| 0 <= k < i && #[trigger] self.members@[k] == (row, x);
                        } else {
                            assert(self.members@[i as int] == (row, x));
                        }
                    }
                    if exists|k: int| 0 <= k < i + 1 && #[trigger] self.members@[k] == (row, x) {
                        let k = choose|k: int| 0 <= k < i + 1 && #[trigger] self.members@[k] == (row, x);
                        if k < i {
                            assert(before.contains(x));
                            let j = choose|j: int| 0 <= j < before.len() && before[j] == x;
                            assert(cols@[j] == x);
                        } else {
                            assert(cols@[cols@.len() - 1] == x);
                        }
                    }
                }
            }
            i = i + 1;
        }
        let r = sorted(cols);
        proof {
            lemma_sorted_distinct(cols@, r@);
            assert forall|col: usize| r@.contains(col) <==> self.members@.contains((row, col)) by {
                vstd::seq_lib::to_multiset_contains(cols@, col);
                vstd::seq_lib::to_multiset_contains(r@, col);
                if self.members@.contains((row, col)) {
                    let k = choose|k: int| 0 <= k < self.members@.len() && self.members@[k] == (row, col);
                    assert(cols@.contains(col));
                }
            }
        }
        r
    }
}

/// A sorted rearrangement of distinct values is strictly increasing.
proof fn lemma_sorted_distinct(values: Seq<usize>, r: Seq<usize>)
    requires
        values.no_duplicates(),
        r.to_multiset() == values.to_multiset(),
        forall|i: int, j: int| 0 <= i < j < r.len() ==> r[i] <= r[j],
    ensures
        forall|i: int, j: int| 0 <= i < j < r.len() ==> r[i] < r[j],
{
    values.lemma_multiset_has_no_duplicates();
    r.lemma_multiset_has_no_duplicates_conv();
}

} // verus!
