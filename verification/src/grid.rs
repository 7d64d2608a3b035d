//! A rectangular grid of byte-valued cells, with the neighborhood relation
//! and the cost-path search over it.

use vstd::prelude::*;
use rand::Rng;

verus! {

use vstd::arithmetic::div_mod::lemma_fundamental_div_mod_converse;
use vstd::string::StringSliceAdditionalSpecFns;
use crate::errors::ParseError;

/// A cell position: row, then column.
#[derive(Clone, Copy, Debug, PartialEq, Eq, Structural)]
pub struct Pos(pub usize, pub usize);

/// `x - 1`, stopping at zero.
pub open spec fn sat_dec(x: usize) -> usize {
    if x == 0 {
        0
    } else {
        (x - 1) as usize
    }
}

/// Relies on `rand::Rng::gen_range` on the thread-local generator: one random
/// byte.  Nothing can be promised of the result.
#[verifier::external_body]
fn random_cell() -> u8 {
    rand::thread_rng().gen_range(0..=0xFF)
}

pub struct Grid {
    pub cells: Vec<Vec<u8>>,
    pub width: usize,
    pub height: usize,
}

impl Grid {
    /// Well-formed: exactly `height` rows, each at least `width` cells wide.
    /// Rows may be wider than the first; only the first `width` cells of a
    /// row take part in the search.
    pub open spec fn wf(self) -> bool {
        &&& self.cells@.len() == self.height
        &&& forall|i: int| 0 <= i < self.height ==> self.cells@[i]@.len() >= self.width
    }

    /// Does `pos` lie inside the grid?
    pub open spec fn in_bounds(self, pos: Pos) -> bool {
        pos.0 < self.height && pos.1 < self.width
    }

    /// A grid of the given size with every cell zero.
    pub fn new(width: usize, height: usize) -> (g: Grid)
        ensures
            g.wf(),
            g.width == width,
            g.height == height,
            forall|i: int, j: int|
                0 <= i < height && 0 <= j < width ==> g.cells@[i]@[j] == 0,
    {
        let mut cells: Vec<Vec<u8>> = Vec::new();
        let mut r: usize = 0;
        while r < height
            invariant
                r <= height,
                cells@.len() == r,
                forall|i: int| 0 <= i < r ==> cells@[i]@.len() == width,
                forall|i: int, j: int| 0 <= i < r && 0 <= j < width ==> cells@[i]@[j] == 0,
            decreases height - r,
        {
            let mut row: Vec<u8> = Vec::new();
            let mut c: usize = 0;
            while c < width
                invariant
                    c <= width,
                    row@.len() == c,
                    forall|j: int| 0 <= j < c ==> row@[j] == 0,
                decreases width - c,
            {
                row.push(0);
                c = c + 1;
            }
            cells.push(row);
            r = r + 1;
        }
        Grid { cells, width, height }
    }

    /// A grid of random cells, except that the start corner is forced to the
    /// cheapest value and the goal corner to the dearest.
    pub fn generate_random(width: usize, height: usize) -> (g: Grid)
        requires
            width >= 1,
            height >= 1,
        ensures
            g.wf(),
            g.width == width,
            g.height == height,
            width > 1 || height > 1 ==> g.cells@[0]@[0] == 0x00,
            g.cells@[height - 1]@[width - 1] == 0xFF,
    {
        let mut cells: Vec<Vec<u8>> = Vec::new();
        let mut r: usize = 0;
        while r < height
            invariant
                1 <= width,
                1 <= height,
                r <= height,
                cells@.len() == r,
                forall|i: int| 0 <= i < r ==> cells@[i]@.len() == width,
                r > 0 && (width > 1 || height > 1) ==> cells@[0]@[0] == 0x00,
                r == height ==> cells@[height - 1]@[width - 1] == 0xFF,
            decreases height - r,
        {
            let mut row: Vec<u8> = Vec::new();
            let mut c: usize = 0;
            while c < width
                invariant
                    1 <= width,
                    1 <= height,
                    r < height,
                    c <= width,
                    row@.len() == c,
                    r == 0 && c > 0 && (width > 1 || height > 1) ==> row@[0] == 0x00,
                    r == height - 1 && c == width ==> row@[width - 1] == 0xFF,
                decreases width - c,
            {
                // The goal corner wins over the start corner on a 1-by-1
                // grid, since it is forced last.
                let cell: u8 = if r == height - 1 && c == width - 1 {
                    0xFF
                } else if r == 0 && c == 0 {
                    0x00
                } else {
                    random_cell()
                };
                row.push(cell);
                c = c + 1;
            }
            cells.push(row);
            r = r + 1;
        }
        Grid { cells, width, height }
    }

    /// The cell at `pos`, or nothing when `pos` lies outside the grid.
    pub fn get(&self, pos: Pos) -> (r: Option<u8>)
        requires
            self.wf(),
        ensures
            r == (if self.in_bounds(pos) {
                Some(self.cells@[pos.0 as int]@[pos.1 as int])
            } else {
                None::<u8>
            }),
    {
        if pos.0 < self.height && pos.1 < self.width {
            Some(self.cells[pos.0][pos.1])
        } else {
            None
        }
    }

    /// The four axis probes from `pos` that land inside the grid, in the
    /// fixed order up, down, left, right.  At the top or left edge the
    /// clamped probe is `pos` itself, which the grid then reports as its own
    /// neighbor.
    pub open spec fn neighbors_spec(self, pos: Pos) -> Seq<Pos>
        recommends
            self.in_bounds(pos),
    {
        let up = Pos(sat_dec(pos.0), pos.1);
        let down = Pos((pos.0 + 1) as usize, pos.1);
        let left = Pos(pos.0, sat_dec(pos.1));
        let right = Pos(pos.0, (pos.1 + 1) as usize);
        (if self.in_bounds(up) {
            seq![up]
        } else {
            Seq::empty()
        }) + (if self.in_bounds(down) {
            seq![down]
        } else {
            Seq::empty()
        }) + (if self.in_bounds(left) {
            seq![left]
        } else {
            Seq::empty()
        }) + (if self.in_bounds(right) {
            seq![right]
        } else {
            Seq::empty()
        })
    }

    /// The in-bounds axis probes from `pos`.
    pub fn neighbors(&self, pos: Pos) -> (r: Vec<Pos>)
        requires
            self.wf(),
            self.in_bounds(pos),
        ensures
            r@ == self.neighbors_spec(pos),
            forall|i: int| 0 <= i < r@.len() ==> self.in_bounds(#[trigger] r@[i]),
    {
        let row = pos.0;
        let col = pos.1;
        let mut out: Vec<Pos> = Vec::new();
        let up = Pos(if row == 0 { 0 } else { row - 1 }, col);
        let down = Pos(row + 1, col);
        let left = Pos(row, if col == 0 { 0 } else { col - 1 });
        let right = Pos(row, col + 1);
        if up.0 < self.height && up.1 < self.width {
            out.push(up);
        }
        if down.0 < self.height && down.1 < self.width {
            out.push(down);
        }
        if left.0 < self.height && left.1 < self.width {
            out.push(left);
        }
        if right.0 < self.height && right.1 < self.width {
            out.push(right);
        }
        proof {
            assert(out@ =~= self.neighbors_spec(pos));
        }
        out
    }
}

/// A search candidate: a cost at which a position can be reached.
#[derive(Clone, Copy, Debug, PartialEq, Eq, Structural)]
pub struct State {
    pub cost: u32,
    pub pos: Pos,
}

/// Weight of a distance entry for the termination measure: an unknown
/// distance weighs more than any 32-bit one.
pub open spec fn dist_weight(o: Option<u32>) -> int {
    match o {
        None => 0x1_0000_0000,
        Some(v) => v as int,
    }
}

/// Sum of all entry weights; it falls strictly with every improvement of a
/// distance, which bounds the search.
pub open spec fn potential(s: Seq<Option<u32>>) -> int
    decreases s.len(),
{
    if s.len() == 0 {
        0
    } else {
        dist_weight(s[0]) + potential(s.skip(1))
    }
}

/// How many distances are known.
pub open spec fn count_known(s: Seq<Option<u32>>) -> int
    decreases s.len(),
{
    if s.len() == 0 {
        0
    } else {
        (if s[0] is Some {
            1int
        } else {
            0int
        }) + count_known(s.skip(1))
    }
}

proof fn lemma_potential_nonneg(s: Seq<Option<u32>>)
    ensures
        potential(s) >= 0,
    decreases s.len(),
{
    if s.len() > 0 {
        lemma_potential_nonneg(s.skip(1));
    }
}

proof fn lemma_potential_update(s: Seq<Option<u32>>, i: int, x: Option<u32>)
    requires
        0 <= i < s.len(),
    ensures
        potential(s.update(i, x)) == potential(s) - dist_weight(s[i]) + dist_weight(x),
    decreases s.len(),
{
    if i == 0 {
        assert(s.update(0, x).skip(1) =~= s.skip(1));
    } else {
        assert(s.update(i, x).skip(1) =~= s.skip(1).update(i - 1, x));
        lemma_potential_update(s.skip(1), i - 1, x);
    }
}

proof fn lemma_count_bounds(s: Seq<Option<u32>>)
    ensures
        0 <= count_known(s) <= s.len(),
    decreases s.len(),
{
    if s.len() > 0 {
        lemma_count_bounds(s.skip(1));
    }
}

proof fn lemma_count_update(s: Seq<Option<u32>>, i: int, x: Option<u32>)
    requires
        0 <= i < s.len(),
    ensures
        count_known(s.update(i, x)) == count_known(s) - (if s[i] is Some {
            1int
        } else {
            0int
        }) + (if x is Some {
            1int
        } else {
            0int
        }),
    decreases s.len(),
{
    if i == 0 {
        assert(s.update(0, x).skip(1) =~= s.skip(1));
    } else {
        assert(s.update(i, x).skip(1) =~= s.skip(1).update(i - 1, x));
        lemma_count_update(s.skip(1), i - 1, x);
    }
}

proof fn lemma_count_known_pos(s: Seq<Option<u32>>, i: int)
    requires
        0 <= i < s.len(),
        s[i] is Some,
    ensures
        count_known(s) >= 1,
    decreases s.len(),
{
    lemma_count_bounds(s.skip(1));
    if i > 0 {
        lemma_count_known_pos(s.skip(1), i - 1);
    }
}

/// Row-major index arithmetic stays inside the cell count.
proof fn lemma_pos_index_bound(a: int, b: int, w: int, h: int)
    requires
        0 <= a < h,
        0 <= b < w,
    ensures
        0 <= a * w + b < w * h,
{
    assert(a * w + b < w * h) by (nonlinear_arith)
        requires
            0 <= a < h,
            0 <= b < w,
    ;
    assert(0 <= a * w) by (nonlinear_arith)
        requires
            0 <= a,
            0 <= w,
    ;
}

impl Grid {
    /// Row-major index of an in-bounds position.
    pub open spec fn pos_index(self, p: Pos) -> int {
        p.0 * self.width + p.1
    }

    /// The position a row-major index denotes.
    pub open spec fn pos_of(self, pi: int) -> Pos {
        Pos((pi / (self.width as int)) as usize, (pi % (self.width as int)) as usize)
    }

    /// Where every search starts: the top-left corner.
    pub open spec fn start_pos(self) -> Pos {
        Pos(0usize, 0usize)
    }

    /// Where every search ends: the bottom-right corner.
    pub open spec fn goal_pos(self) -> Pos {
        Pos((self.height - 1) as usize, (self.width - 1) as usize)
    }

    /// A path through the grid: it starts at the top-left corner, all its
    /// positions are in bounds, and every step moves to a grid neighbor of
    /// the step before it.
    pub open spec fn path_shaped(self, path: Seq<Pos>) -> bool {
        &&& path.len() >= 1
        &&& path[0] == self.start_pos()
        &&& forall|i: int| 0 <= i < path.len() ==> self.in_bounds(#[trigger] path[i])
        &&& forall|i: int|
            0 <= i < path.len() - 1 ==> self.neighbors_spec(#[trigger] path[i]).contains(
                path[i + 1],
            )
    }

    /// The summed cost of the cells a path enters; the start cell is free.
    pub open spec fn path_sum(self, path: Seq<Pos>) -> int
        decreases path.len(),
    {
        if path.len() <= 1 {
            0
        } else {
            self.path_sum(path.drop_last()) + self.cells@[path.last().0 as int]@[path.last().1 as int]
        }
    }

    /// The largest cell cost a path enters; zero if it enters none.
    pub open spec fn path_peak(self, path: Seq<Pos>) -> int
        decreases path.len(),
    {
        if path.len() <= 1 {
            0
        } else {
            let rest = self.path_peak(path.drop_last());
            let c = self.cells@[path.last().0 as int]@[path.last().1 as int] as int;
            if rest >= c {
                rest
            } else {
                c
            }
        }
    }

    /// `c` is the cost of some path from the start to `p`: its cell sum in
    /// the cheapest-sum search, its largest entered cell in the minimax
    /// search.
    pub open spec fn cost_reachable(self, find_max: bool, p: Pos, c: u32) -> bool {
        exists|path: Seq<Pos>|
            self.path_shaped(path) && path.last() == p && c as int == (if find_max {
                self.path_peak(path)
            } else {
                self.path_sum(path)
            })
    }

    /// Cost-path search from the top-left to the bottom-right corner,
    /// summing cell costs (`find_max` false) or minimising the largest cell
    /// cost met (`find_max` true).  Stale candidates are pruned against the
    /// best known distances, and the path is rebuilt from recorded
    /// predecessors.  A returned non-empty path starts at the top-left
    /// corner, ends at the bottom-right corner, and every step goes to a
    /// grid neighbor of the step before it; an empty path comes with cost
    /// zero and means no path was found.
    ///
    /// The candidate ordering pops the largest pending cost first in the
    /// cheapest-sum search (and the smallest in the minimax search), and the
    /// search returns on the first arrival at the goal.  The contract
    /// therefore promises a valid path, not a minimal one, and the returned
    /// cost is the popped candidate's, which a later improvement of the
    /// goal's predecessors may undercut.
    pub fn dijkstra(&self, find_max: bool) -> (r: (Vec<Pos>, u32))
        requires
            self.wf(),
            self.width >= 1,
            self.height >= 1,
            255 * (self.width * self.height) + 255 <= u32::MAX,
        ensures
            r.0@.len() == 0 ==> r.1 == 0,
            r.0@.len() > 0 ==> self.cost_reachable(find_max, self.goal_pos(), r.1),
            r.0@.len() > 0 ==> {
                &&& r.0@[0] == self.start_pos()
                &&& r.0@[r.0@.len() - 1] == self.goal_pos()
                &&& forall|i: int| 0 <= i < r.0@.len() ==> self.in_bounds(#[trigger] r.0@[i])
                &&& forall|i: int|
                    0 <= i < r.0@.len() - 1 ==> self.neighbors_spec(#[trigger] r.0@[i]).contains(
                        r.0@[i + 1],
                    )
            },
    {
        proof {
            assert(self.width * self.height >= 1) by (nonlinear_arith)
                requires
                    self.width >= 1,
                    self.height >= 1,
            ;
        }
        let end = Pos(self.height - 1, self.width - 1);
        let total = self.width * self.height;
        let mut dist: Vec<Option<u32>> = Vec::new();
        let mut parent: Vec<Option<Pos>> = Vec::new();
        let mut fill: usize = 0;
        while fill < total
            invariant
                fill <= total,
                dist@.len() == fill,
                parent@.len() == fill,
                forall|i: int| 0 <= i < fill ==> (#[trigger] dist@[i]) is None,
                forall|i: int| 0 <= i < fill ==> (#[trigger] parent@[i]) is None,
            decreases total - fill,
        {
            dist.push(None);
            parent.push(None);
            fill = fill + 1;
        }
        proof {
            lemma_count_all_none(dist@);
            lemma_count_update(dist@, 0, Some(0u32));
        }
        dist[0] = Some(0u32);
        let mut frontier: Vec<State> = Vec::new();
        frontier.push(State { cost: 0, pos: Pos(0, 0) });
        proof {
            assert(frontier@[0].pos.0 == 0 && frontier@[0].pos.1 == 0);
            assert(self.pos_index(frontier@[0].pos) == 0);
            assert(dist@[0] is Some);
            let w = seq![Pos(0usize, 0usize)];
            assert(self.path_shaped(w));
            assert(w.last() == frontier@[0].pos);
            assert(self.path_sum(w) == 0 && self.path_peak(w) == 0);
            assert(self.cost_reachable(find_max, frontier@[0].pos, 0u32));
        }
        while frontier.len() > 0
            invariant
                self.wf(),
                self.width >= 1,
                self.height >= 1,
                255 * (self.width * self.height) + 255 <= u32::MAX,
                total == self.width * self.height,
                end == self.goal_pos(),
                dist@.len() == total,
                parent@.len() == total,
                dist@[0] == Some(0u32),
                parent@[0] is None,
                forall|i: int|
                    0 <= i < frontier@.len() ==> self.in_bounds((#[trigger] frontier@[i]).pos)
                        && 0 <= self.pos_index(frontier@[i].pos) < total
                        && dist@[self.pos_index(frontier@[i].pos)] is Some
                        && self.cost_reachable(find_max, frontier@[i].pos, frontier@[i].cost),
                forall|pi: int|
                    0 <= pi < total ==> ((#[trigger] dist@[pi]) matches Some(v) ==> v as int <= 255
                        * count_known(dist@)),
                forall|pi: int|
                    1 <= pi < total ==> ((#[trigger] dist@[pi]) is Some ==> parent@[pi] is Some),
                forall|pi: int|
                    0 <= pi < total ==> ((#[trigger] parent@[pi]) matches Some(q) ==> {
                        &&& self.in_bounds(q)
                        &&& self.in_bounds(self.pos_of(pi))
                        &&& self.neighbors_spec(q).contains(self.pos_of(pi))
                        &&& 0 <= self.pos_index(q) < total
                        &&& dist@[self.pos_index(q)] is Some
                    }),
                0 <= count_known(dist@) <= total,
            decreases potential(dist@), frontier@.len(),
        {
            let ghost p0 = potential(dist@);
            let ghost f0 = frontier@.len();
            proof {
                lemma_potential_nonneg(dist@);
            }
            // Select the candidate the priority ordering pops next: the
            // largest cost for the cheapest-sum search, the smallest for the
            // minimax search.
            let mut best: usize = 0;
            let mut bi: usize = 1;
            while bi < frontier.len()
                invariant
                    frontier@.len() > 0,
                    best < frontier@.len(),
                    bi <= frontier@.len(),
                decreases frontier@.len() - bi,
            {
                let better = if find_max {
                    frontier[bi].cost < frontier[best].cost
                } else {
                    frontier[bi].cost > frontier[best].cost
                };
                if better {
                    best = bi;
                }
                bi = bi + 1;
            }
            let ghost f_before = frontier@;
            let st = frontier.swap_remove(best);
            let cost = st.cost;
            let cur = st.pos;
            proof {
                assert(st == f_before[best as int]);
                assert(self.cost_reachable(find_max, cur, cost));
            }
            if cur == end {
                let mut path: Vec<Pos> = Vec::new();
                path.push(cur);
                let mut current = cur;
                let mut fuel = total;
                let mut stepping = true;
                while stepping && fuel > 0
                    invariant
                        self.wf(),
                        self.width >= 1,
                        self.height >= 1,
                        total == self.width * self.height,
                        dist@.len() == total,
                        parent@.len() == total,
                        dist@[0] == Some(0u32),
                        parent@[0] is None,
                        forall|pi2: int|
                            1 <= pi2 < total ==> ((#[trigger] dist@[pi2]) is Some
                                ==> parent@[pi2] is Some),
                        forall|pi2: int|
                            0 <= pi2 < total ==> ((#[trigger] parent@[pi2]) matches Some(q) ==> {
                                &&& self.in_bounds(q)
                                &&& self.in_bounds(self.pos_of(pi2))
                                &&& self.neighbors_spec(q).contains(self.pos_of(pi2))
                                &&& 0 <= self.pos_index(q) < total
                                &&& dist@[self.pos_index(q)] is Some
                            }),
                        self.in_bounds(current),
                        dist@[self.pos_index(current)] is Some,
                        path@.len() >= 1,
                        path@[0] == self.goal_pos(),
                        path@[path@.len() - 1] == current,
                        forall|i: int| 0 <= i < path@.len() ==> self.in_bounds(#[trigger] path@[i]),
                        forall|i: int|
                            0 <= i < path@.len() - 1 ==> self.neighbors_spec(
                                path@[i + 1],
                            ).contains(#[trigger] path@[i]),
                        !stepping ==> parent@[self.pos_index(current)] is None,
                    decreases fuel + (if stepping {
                        1int
                    } else {
                        0int
                    }),
                {
                    proof {
                        lemma_pos_index_bound(
                            current.0 as int,
                            current.1 as int,
                            self.width as int,
                            self.height as int,
                        );
                    }
                    let cpi = current.0 * self.width + current.1;
                    match parent[cpi] {
                        Some(q) => {
                            proof {
                                lemma_fundamental_div_mod_converse(
                                    cpi as int,
                                    self.width as int,
                                    current.0 as int,
                                    current.1 as int,
                                );
                            }
                            path.push(q);
                            current = q;
                            fuel = fuel - 1;
                        },
                        None => {
                            stepping = false;
                        },
                    }
                }
                if stepping {
                    // A cyclic predecessor chain cannot arise from strict
                    // improvements, but the walk is fuel-bounded; give up
                    // rather than spin.
                    return (Vec::new(), 0);
                }
                proof {
                    lemma_pos_index_bound(
                        current.0 as int,
                        current.1 as int,
                        self.width as int,
                        self.height as int,
                    );
                    let cpi2 = self.pos_index(current);
                    if cpi2 != 0 {
                        assert(dist@[cpi2] is Some);
                        assert(parent@[cpi2] is Some);
                        assert(false);
                    }
                    lemma_fundamental_div_mod_converse(0, self.width as int, 0, 0);
                    lemma_fundamental_div_mod_converse(
                        cpi2,
                        self.width as int,
                        current.0 as int,
                        current.1 as int,
                    );
                    assert(current == self.start_pos());
                }
                let mut rpath: Vec<Pos> = Vec::new();
                let mut ri = path.len();
                while ri > 0
                    invariant
                        ri <= path@.len(),
                        rpath@.len() == path@.len() - ri,
                        forall|j: int|
                            0 <= j < rpath@.len() ==> #[trigger] rpath@[j] == path@[path@.len() - 1
                                - j],
                    decreases ri,
                {
                    ri = ri - 1;
                    rpath.push(path[ri]);
                }
                proof {
                    let l = path@.len();
                    assert(rpath@[0] == path@[l - 1]);
                    assert(rpath@[l - 1] == path@[0]);
                    assert forall|i: int|
                        0 <= i < rpath@.len() - 1 implies self.neighbors_spec(
                        #[trigger] rpath@[i],
                    ).contains(rpath@[i + 1]) by {
                        assert(rpath@[i] == path@[l - 1 - i]);
                        assert(rpath@[i + 1] == path@[l - 1 - (i + 1)]);
                        assert(self.neighbors_spec(path@[(l - 2 - i) + 1]).contains(
                            path@[l - 2 - i],
                        ));
                    }
                }
                return (rpath, cost);
            }
            proof {
                lemma_pos_index_bound(
                    cur.0 as int,
                    cur.1 as int,
                    self.width as int,
                    self.height as int,
                );
            }
            let pi = cur.0 * self.width + cur.1;
            if let Some(d) = dist[pi] {
                if cost > d {
                    continue;
                }
            }
            let neigh = self.neighbors(cur);
            let mut k: usize = 0;
            while k < neigh.len()
                invariant
                    self.wf(),
                    self.width >= 1,
                    self.height >= 1,
                    255 * (self.width * self.height) + 255 <= u32::MAX,
                    total == self.width * self.height,
                    dist@.len() == total,
                    parent@.len() == total,
                    dist@[0] == Some(0u32),
                    parent@[0] is None,
                    forall|i: int|
                        0 <= i < frontier@.len() ==> self.in_bounds((#[trigger] frontier@[i]).pos)
                            && 0 <= self.pos_index(frontier@[i].pos) < total
                            && dist@[self.pos_index(frontier@[i].pos)] is Some
                            && self.cost_reachable(find_max, frontier@[i].pos, frontier@[i].cost),
                    forall|pi2: int|
                        0 <= pi2 < total ==> ((#[trigger] dist@[pi2]) matches Some(v) ==> v as int
                            <= 255 * count_known(dist@)),
                    forall|pi2: int|
                        1 <= pi2 < total ==> ((#[trigger] dist@[pi2]) is Some ==> parent@[pi2]
                            is Some),
                    forall|pi2: int|
                        0 <= pi2 < total ==> ((#[trigger] parent@[pi2]) matches Some(q) ==> {
                            &&& self.in_bounds(q)
                            &&& self.in_bounds(self.pos_of(pi2))
                            &&& self.neighbors_spec(q).contains(self.pos_of(pi2))
                            &&& 0 <= self.pos_index(q) < total
                            &&& dist@[self.pos_index(q)] is Some
                        }),
                    0 <= count_known(dist@) <= total,
                    neigh@ == self.neighbors_spec(cur),
                    forall|i: int| 0 <= i < neigh@.len() ==> self.in_bounds(#[trigger] neigh@[i]),
                    self.in_bounds(cur),
                    dist@[self.pos_index(cur)] is Some,
                    self.cost_reachable(find_max, cur, cost),
                    cost as int <= 255 * count_known(dist@),
                    k <= neigh@.len(),
                    potential(dist@) <= p0,
                    frontier@.len() >= f0 - 1,
                    frontier@.len() > f0 - 1 ==> potential(dist@) < p0,
                decreases neigh@.len() - k,
            {
                let np = neigh[k];
                proof {
                    lemma_pos_index_bound(
                        np.0 as int,
                        np.1 as int,
                        self.width as int,
                        self.height as int,
                    );
                }
                let ni = np.0 * self.width + np.1;
                if let Some(cell) = self.get(np) {
                    let cellv = cell as u32;
                    let new_cost = if find_max {
                        if cost >= cellv {
                            cost
                        } else {
                            cellv
                        }
                    } else {
                        cost + cellv
                    };
                    let should = match dist[ni] {
                        Some(curr) => new_cost < curr,
                        None => true,
                    };
                    if should {
                        proof {
                            lemma_pos_index_bound(
                                cur.0 as int,
                                cur.1 as int,
                                self.width as int,
                                self.height as int,
                            );
                            lemma_potential_update(dist@, ni as int, Some(new_cost));
                            lemma_count_update(dist@, ni as int, Some(new_cost));
                            lemma_count_known_pos(dist@, self.pos_index(cur));
                            lemma_fundamental_div_mod_converse(
                                ni as int,
                                self.width as int,
                                np.0 as int,
                                np.1 as int,
                            );
                            assert(self.neighbors_spec(cur)[k as int] == np);
                            assert(self.neighbors_spec(cur).contains(np));
                            assert(self.pos_of(ni as int) == np);
                            let pc = choose|pc: Seq<Pos>|
                                self.path_shaped(pc) && pc.last() == cur && cost as int == (
                                if find_max {
                                    self.path_peak(pc)
                                } else {
                                    self.path_sum(pc)
                                });
                            let pn = pc.push(np);
                            assert(pn.drop_last() =~= pc);
                            assert(pn.last() == np);
                            assert forall|ii: int| 0 <= ii < pn.len() implies self.in_bounds(
                                #[trigger] pn[ii],
                            ) by {
                                if ii < pn.len() - 1 {
                                    assert(pn[ii] == pc[ii]);
                                }
                            }
                            assert forall|ii: int|
                                0 <= ii < pn.len() - 1 implies self.neighbors_spec(
                                #[trigger] pn[ii],
                            ).contains(pn[ii + 1]) by {
                                if ii < pn.len() - 2 {
                                    assert(pn[ii] == pc[ii] && pn[ii + 1] == pc[ii + 1]);
                                } else {
                                    assert(pn[ii] == pc.last() && pn[ii + 1] == np);
                                }
                            }
                            assert(self.path_shaped(pn));
                            assert(new_cost as int == (if find_max {
                                self.path_peak(pn)
                            } else {
                                self.path_sum(pn)
                            }));
                            assert(self.cost_reachable(find_max, np, new_cost));
                        }
                        dist[ni] = Some(new_cost);
                        parent[ni] = Some(cur);
                        frontier.push(State { cost: new_cost, pos: np });
                        proof {
                            lemma_count_bounds(dist@);
                            lemma_potential_nonneg(dist@);
                            assert(ni as int == self.pos_index(np));
                            assert(dist@[self.pos_index(np)] is Some);
                            assert forall|i: int|
                                0 <= i < frontier@.len() implies self.in_bounds(
                                (#[trigger] frontier@[i]).pos,
                            ) && 0 <= self.pos_index(frontier@[i].pos) < total && dist@[self.pos_index(
                                frontier@[i].pos,
                            )] is Some && self.cost_reachable(
                                find_max,
                                frontier@[i].pos,
                                frontier@[i].cost,
                            ) by {
                                if i == frontier@.len() - 1 {
                                    assert(frontier@[i].pos == np);
                                    assert(frontier@[i].cost == new_cost);
                                }
                            }
                            assert forall|pi2: int|
                                0 <= pi2 < total implies ((#[trigger] parent@[pi2]) matches Some(q)
                                ==> {
                                    &&& self.in_bounds(q)
                                    &&& self.in_bounds(self.pos_of(pi2))
                                    &&& self.neighbors_spec(q).contains(self.pos_of(pi2))
                                    &&& dist@[self.pos_index(q)] is Some
                                }) by {
                                if pi2 == ni as int {
                                    assert(parent@[pi2] == Some(cur));
                                    assert(self.pos_of(pi2) == np);
                                }
                            }
                        }
                    }
                }
                k = k + 1;
            }
            proof {
                lemma_potential_nonneg(dist@);
            }
        }
        (Vec::new(), 0)
    }
}

proof fn lemma_count_all_none(s: Seq<Option<u32>>)
    requires
        forall|i: int| 0 <= i < s.len() ==> (#[trigger] s[i]) is None,
    ensures
        count_known(s) == 0,
    decreases s.len(),
{
    if s.len() > 0 {
        lemma_count_all_none(s.skip(1));
    }
}

/// Is `b` a blank that separates the values of a map row (space, tab or
/// carriage return)?
pub open spec fn is_blank(b: u8) -> bool {
    b == 32 || b == 9 || b == 13
}

/// Split a row's bytes at blanks: the closed tokens so far, and the token
/// still open at the end.
pub open spec fn line_scan(s: Seq<u8>) -> (Seq<Seq<u8>>, Seq<u8>)
    decreases s.len(),
{
    if s.len() == 0 {
        (Seq::empty(), Seq::empty())
    } else {
        let st = line_scan(s.drop_last());
        let b = s.last();
        if is_blank(b) {
            (
                if st.1.len() > 0 {
                    st.0.push(st.1)
                } else {
                    st.0
                },
                Seq::empty(),
            )
        } else {
            (st.0, st.1.push(b))
        }
    }
}

/// The blank-separated tokens of a row's bytes.
pub open spec fn line_tokens(s: Seq<u8>) -> Seq<Seq<u8>> {
    let st = line_scan(s);
    if st.1.len() > 0 {
        st.0.push(st.1)
    } else {
        st.0
    }
}

/// A token names one cell: hex digits whose value fits in a byte.
pub open spec fn token_valid(t: Seq<u8>) -> bool {
    t.len() > 0 && crate::hexutil::all_hex_digits(t) && crate::hexutil::digits_value(t, 16) <= 255
}

pub open spec fn tokens_valid(ts: Seq<Seq<u8>>) -> bool {
    forall|i: int| 0 <= i < ts.len() ==> token_valid(#[trigger] ts[i])
}

/// The cell values the tokens name.
pub open spec fn token_values(ts: Seq<Seq<u8>>) -> Seq<u8> {
    Seq::new(ts.len(), |i: int| crate::hexutil::digits_value(ts[i], 16) as u8)
}

/// Parse one map row: blank-separated hex cell values.  Every token must be
/// hex digits naming a value that fits in a byte.
pub fn parse_hex_row(line: &str) -> (r: Result<Vec<u8>, ParseError>)
    ensures
        ({
            let ts = line_tokens(line.spec_bytes());
            match r {
                Ok(v) => tokens_valid(ts) && v@ == token_values(ts),
                Err(e) => e == ParseError::InvalidHexDigit && !tokens_valid(ts),
            }
        }),
{
    let bytes = line.as_bytes();
    let ghost full = line.spec_bytes();
    let mut vals: Vec<u8> = Vec::new();
    let mut cur_len: usize = 0;
    let mut cur_val: u32 = 0;
    let mut bad = false;
    let mut i: usize = 0;
    while i < bytes.len()
        invariant
            bytes@ == full,
            i <= full.len(),
            ({
                let st = line_scan(full.take(i as int));
                &&& cur_len == st.1.len()
                &&& cur_len <= i
                &&& (!bad ==> tokens_valid(st.0) && vals@ == token_values(st.0)
                    && crate::hexutil::all_hex_digits(st.1) && crate::hexutil::digits_value(st.1, 16)
                    == cur_val && cur_val <= 255)
                &&& (bad ==> !(tokens_valid(st.0) && crate::hexutil::all_hex_digits(st.1)
                    && crate::hexutil::digits_value(st.1, 16) <= 255))
            }),
        decreases full.len() - i,
    {
        let ghost st = line_scan(full.take(i as int));
        proof {
            assert(full.take(i + 1).drop_last() =~= full.take(i as int));
        }
        let b = bytes[i];
        if b == 32 || b == 9 || b == 13 {
            if cur_len > 0 {
                if !bad {
                    vals.push(cur_val as u8);
                    proof {
                        assert(vals@ =~= token_values(st.0.push(st.1)));
                    }
                } else {
                    proof {
                        if tokens_valid(st.0) {
                            assert(!token_valid(st.0.push(st.1)[st.0.len() as int]));
                        } else {
                            let k = choose|k: int| 0 <= k < st.0.len() && !token_valid(st.0[k]);
                            assert(!token_valid(st.0.push(st.1)[k]));
                        }
                    }
                }
            }
            cur_len = 0;
            cur_val = 0;
        } else {
            proof {
                assert(st.1.push(b).drop_last() =~= st.1);
            }
            if !bad {
                match crate::hexutil::parse_digit_pub(b) {
                    Some(d) => {
                        cur_val = cur_val * 16 + (d as u32);
                        if cur_val > 255 {
                            bad = true;
                        }
                    },
                    None => {
                        bad = true;
                        proof {
                            assert(!crate::hexutil::is_hex_digit(st.1.push(b).last()));
                        }
                    },
                }
            } else {
                proof {
                    let t = st.1;
                    if crate::hexutil::all_hex_digits(t) && crate::hexutil::digits_value(t, 16)
                        <= 255 {
                        // the earlier fault lies in a closed token
                        assert(!tokens_valid(st.0));
                    } else if !crate::hexutil::all_hex_digits(t) {
                        let k = choose|k: int|
                            0 <= k < t.len() && !crate::hexutil::is_hex_digit(t[k]);
                        assert(!crate::hexutil::is_hex_digit(t.push(b)[k]));
                    }
                }
            }
            cur_len = cur_len + 1;
        }
        i = i + 1;
    }
    proof {
        assert(full.take(full.len() as int) =~= full);
    }
    let ghost st = line_scan(full);
    if cur_len > 0 {
        if !bad {
            vals.push(cur_val as u8);
            proof {
                assert(token_valid(st.1));
                assert(tokens_valid(st.0.push(st.1)));
                assert(vals@ =~= token_values(st.0.push(st.1)));
            }
        } else {
            proof {
                if tokens_valid(st.0) {
                    assert(!token_valid(st.0.push(st.1)[st.0.len() as int]));
                } else {
                    let k = choose|k: int| 0 <= k < st.0.len() && !token_valid(st.0[k]);
                    assert(!token_valid(st.0.push(st.1)[k]));
                }
            }
        }
    }
    if bad {
        Err(ParseError::InvalidHexDigit)
    } else {
        Ok(vals)
    }
}

/// Uppercase hex digit character for a value below sixteen.
pub open spec fn hex_char_upper(v: u8) -> char
    recommends
        v < 16,
{
    if v == 0 {
        '0'
    } else if v == 1 {
        '1'
    } else if v == 2 {
        '2'
    } else if v == 3 {
        '3'
    } else if v == 4 {
        '4'
    } else if v == 5 {
        '5'
    } else if v == 6 {
        '6'
    } else if v == 7 {
        '7'
    } else if v == 8 {
        '8'
    } else if v == 9 {
        '9'
    } else if v == 10 {
        'A'
    } else if v == 11 {
        'B'
    } else if v == 12 {
        'C'
    } else if v == 13 {
        'D'
    } else if v == 14 {
        'E'
    } else {
        'F'
    }
}

/// One row rendered as blank-separated uppercase hex pairs.
pub open spec fn hex_render_upper(bytes: Seq<u8>) -> Seq<char>
    decreases bytes.len(),
{
    if bytes.len() == 0 {
        Seq::empty()
    } else if bytes.len() == 1 {
        seq![hex_char_upper((bytes[0] / 16) as u8), hex_char_upper((bytes[0] % 16) as u8)]
    } else {
        hex_render_upper(bytes.drop_last()) + seq![
            ' ',
            hex_char_upper((bytes.last() / 16) as u8),
            hex_char_upper((bytes.last() % 16) as u8),
        ]
    }
}

/// All rows rendered, each ending in a line break.
pub open spec fn grid_text(cells: Seq<Vec<u8>>) -> Seq<char>
    decreases cells.len(),
{
    if cells.len() == 0 {
        Seq::empty()
    } else {
        grid_text(cells.drop_last()) + hex_render_upper(cells.last()@) + seq!['\n']
    }
}

/// The one-character string for an uppercase hex digit value.
fn hex_digit_str_upper(v: u8) -> (r: &'static str)
    requires
        v < 16,
    ensures
        r@ =~= seq![hex_char_upper(v)],
{
    proof {
        reveal_strlit("0");
        reveal_strlit("1");
        reveal_strlit("2");
        reveal_strlit("3");
        reveal_strlit("4");
        reveal_strlit("5");
        reveal_strlit("6");
        reveal_strlit("7");
        reveal_strlit("8");
        reveal_strlit("9");
        reveal_strlit("A");
        reveal_strlit("B");
        reveal_strlit("C");
        reveal_strlit("D");
        reveal_strlit("E");
        reveal_strlit("F");
    }
    if v == 0 {
        "0"
    } else if v == 1 {
        "1"
    } else if v == 2 {
        "2"
    } else if v == 3 {
        "3"
    } else if v == 4 {
        "4"
    } else if v == 5 {
        "5"
    } else if v == 6 {
        "6"
    } else if v == 7 {
        "7"
    } else if v == 8 {
        "8"
    } else if v == 9 {
        "9"
    } else if v == 10 {
        "A"
    } else if v == 11 {
        "B"
    } else if v == 12 {
        "C"
    } else if v == 13 {
        "D"
    } else if v == 14 {
        "E"
    } else {
        "F"
    }
}

impl Grid {
    /// The text form of the map: one line per row, cells as uppercase hex
    /// pairs separated by blanks.
    pub fn to_text(&self) -> (r: String)
        ensures
            r@ == grid_text(self.cells@),
    {
        let mut s = String::new();
        let mut ri: usize = 0;
        while ri < self.cells.len()
            invariant
                ri <= self.cells@.len(),
                s@ == grid_text(self.cells@.subrange(0, ri as int)),
            decreases self.cells@.len() - ri,
        {
            let row = &self.cells[ri];
            let mut ci: usize = 0;
            while ci < row.len()
                invariant
                    ci <= row@.len(),
                    ri < self.cells@.len(),
                    row@ == self.cells@[ri as int]@,
                    s@ == grid_text(self.cells@.subrange(0, ri as int)) + hex_render_upper(
                        row@.subrange(0, ci as int),
                    ),
                decreases row@.len() - ci,
            {
                if ci > 0 {
                    s.append(" ");
                    proof {
                        reveal_strlit(" ");
                    }
                }
                let b = row[ci];
                s.append(hex_digit_str_upper(b / 16));
                s.append(hex_digit_str_upper(b % 16));
                ci = ci + 1;
                proof {
                    assert(row@.subrange(0, ci as int).drop_last() =~= row@.subrange(0, ci - 1));
                    assert(s@ =~= grid_text(self.cells@.subrange(0, ri as int)) + hex_render_upper(
                        row@.subrange(0, ci as int),
                    ));
                }
            }
            s.append("\n");
            ri = ri + 1;
            proof {
                reveal_strlit("\n");
                assert(self.cells@.subrange(0, ri as int).drop_last() =~= self.cells@.subrange(
                    0,
                    ri - 1,
                ));
                assert(row@.subrange(0, row@.len() as int) =~= row@);
                assert(s@ =~= grid_text(self.cells@.subrange(0, ri as int)));
            }
        }
        proof {
            assert(self.cells@.subrange(0, self.cells@.len() as int) =~= self.cells@);
        }
        s
    }

    /// Assemble a grid from parsed rows: there must be at least one row, and
    /// the first row sets the width.  Rows wider than the first are kept
    /// whole — the search simply ignores their extra cells — but a row
    /// narrower than the first would put cells of the search area out of
    /// range, so it is rejected up front rather than left to fail later.
    pub fn from_rows(rows: Vec<Vec<u8>>) -> (r: Result<Grid, ParseError>)
        ensures
            r is Ok <==> (rows@.len() > 0 && forall|i: int|
                0 <= i < rows@.len() ==> (#[trigger] rows@[i])@.len() >= rows@[0]@.len()),
            match r {
                Ok(g) => {
                    &&& g.wf()
                    &&& g.height == rows@.len()
                    &&& g.width == rows@[0]@.len()
                    &&& g.cells@ == rows@
                },
                Err(e) => {
                    &&& (e == ParseError::EmptyMap <==> rows@.len() == 0)
                    &&& (e == ParseError::RaggedMap <==> (rows@.len() > 0 && exists|i: int|
                        0 <= i < rows@.len() && (#[trigger] rows@[i])@.len() < rows@[0]@.len()))
                },
            },
    {
        if rows.len() == 0 {
            return Err(ParseError::EmptyMap);
        }
        let width = rows[0].len();
        let height = rows.len();
        let mut i: usize = 1;
        while i < rows.len()
            invariant
                1 <= i <= rows@.len(),
                width == rows@[0]@.len(),
                forall|j: int| 0 <= j < i ==> (#[trigger] rows@[j])@.len() >= width,
            decreases rows@.len() - i,
        {
            if rows[i].len() < width {
                return Err(ParseError::RaggedMap);
            }
            i = i + 1;
        }
        Ok(Grid { cells: rows, width, height })
    }
}

/// The leading hex digit byte of a cell's rendering.
pub open spec fn upper_hi_byte(x: u8) -> u8 {
    hex_char_upper((x / 16) as u8) as u8
}

/// The trailing hex digit byte of a cell's rendering.
pub open spec fn upper_lo_byte(x: u8) -> u8 {
    hex_char_upper((x % 16) as u8) as u8
}

/// The two-digit tokens a rendered row is made of, one per cell.
pub open spec fn pair_tokens(bytes: Seq<u8>) -> Seq<Seq<u8>> {
    Seq::new(bytes.len(), |i: int| seq![upper_hi_byte(bytes[i]), upper_lo_byte(bytes[i])])
}

/// An uppercase hex digit character is a printable ASCII hex digit and no
/// blank, and its code carries the digit's value.
proof fn lemma_hex_char_upper_code(v: u8)
    requires
        v < 16,
    ensures
        crate::hexutil::is_hex_digit(hex_char_upper(v) as u8),
        crate::hexutil::hex_digit_value(hex_char_upper(v) as u8) == v,
        !is_blank(hex_char_upper(v) as u8),
        '\0' <= hex_char_upper(v) <= '\u{7f}',
{
}

/// The uppercase rendering of a row consists of ASCII characters only.
proof fn lemma_hex_render_upper_ascii(bytes: Seq<u8>)
    ensures
        vstd::utf8::is_ascii_chars(hex_render_upper(bytes)),
    decreases bytes.len(),
{
    if bytes.len() > 0 {
        lemma_hex_render_upper_ascii(bytes.drop_last());
        lemma_hex_char_upper_code((bytes.last() / 16) as u8);
        lemma_hex_char_upper_code((bytes.last() % 16) as u8);
        if bytes.len() == 1 {
            lemma_hex_char_upper_code((bytes[0] / 16) as u8);
            lemma_hex_char_upper_code((bytes[0] % 16) as u8);
        }
        assert(' ' <= '\u{7f}');
    }
}

/// Scanning a rendered row closes one two-digit token per cell but the
/// last, which stays open at the end.
proof fn lemma_render_upper_scan(row: Seq<u8>)
    ensures
        row.len() == 0 ==> line_scan(vstd::utf8::encode_utf8(hex_render_upper(row))) == (
            Seq::<Seq<u8>>::empty(),
            Seq::<u8>::empty(),
        ),
        row.len() > 0 ==> {
            &&& line_scan(vstd::utf8::encode_utf8(hex_render_upper(row))).0 =~~= pair_tokens(
                row.drop_last(),
            )
            &&& line_scan(vstd::utf8::encode_utf8(hex_render_upper(row))).1 =~= seq![
                upper_hi_byte(row.last()),
                upper_lo_byte(row.last()),
            ]
        },
    decreases row.len(),
{
    let cs = hex_render_upper(row);
    let bs = vstd::utf8::encode_utf8(cs);
    lemma_hex_render_upper_ascii(row);
    vstd::utf8::is_ascii_chars_encode_utf8(cs);
    if row.len() == 0 {
        assert(bs =~= Seq::<u8>::empty());
    } else {
        let x = row.last();
        let hb = upper_hi_byte(x);
        let lb = upper_lo_byte(x);
        lemma_hex_char_upper_code((x / 16) as u8);
        lemma_hex_char_upper_code((x % 16) as u8);
        lemma_render_upper_scan(row.drop_last());
        let cs0 = hex_render_upper(row.drop_last());
        let bs0 = vstd::utf8::encode_utf8(cs0);
        lemma_hex_render_upper_ascii(row.drop_last());
        vstd::utf8::is_ascii_chars_encode_utf8(cs0);
        let st0 = line_scan(bs0);
        if row.len() == 1 {
            assert(cs =~= seq![hex_char_upper((x / 16) as u8), hex_char_upper((x % 16) as u8)]);
            assert(bs =~= seq![hb, lb]);
            assert(seq![hb, lb].drop_last() =~= seq![hb]);
            assert(seq![hb].drop_last() =~= Seq::<u8>::empty());
            assert(line_scan(seq![hb]).1 =~= seq![hb]);
            assert(line_scan(seq![hb, lb]).1 =~= seq![hb, lb]);
            assert(line_scan(seq![hb, lb]).0 =~~= Seq::<Seq<u8>>::empty());
            assert(pair_tokens(row.drop_last()) =~~= Seq::<Seq<u8>>::empty());
        } else {
            assert(cs =~= cs0 + seq![
                ' ',
                hex_char_upper((x / 16) as u8),
                hex_char_upper((x % 16) as u8),
            ]);
            assert(bs =~= bs0 + seq![32u8, hb, lb]);
            assert((bs0 + seq![32u8]).drop_last() =~= bs0);
            assert(is_blank(32u8));
            // The blank closes the open token of the earlier rendering.
            assert(st0.1.len() == 2);
            assert(line_scan(bs0 + seq![32u8]).0 =~~= st0.0.push(st0.1));
            assert(line_scan(bs0 + seq![32u8]).1 =~= Seq::<u8>::empty());
            assert(st0.0.push(st0.1) =~~= pair_tokens(row.drop_last()));
            assert((bs0 + seq![32u8, hb]).drop_last() =~= bs0 + seq![32u8]);
            assert(line_scan(bs0 + seq![32u8, hb]).0 =~~= pair_tokens(row.drop_last()));
            assert(line_scan(bs0 + seq![32u8, hb]).1 =~= seq![hb]);
            assert((bs0 + seq![32u8, hb, lb]).drop_last() =~= bs0 + seq![32u8, hb]);
            assert(line_scan(bs0 + seq![32u8, hb, lb]).0 =~~= pair_tokens(row.drop_last()));
            assert(line_scan(bs0 + seq![32u8, hb, lb]).1 =~= seq![hb, lb]);
        }
    }
}

/// Law: a rendered map row parses back to exactly its cells.  The tokens of
/// a row's uppercase rendering are all valid and name the row's cell values
/// in order — so parsing a rendered line is guaranteed to succeed and to
/// restore the row.
pub proof fn lemma_map_row_round_trip(row: Seq<u8>)
    ensures
        ({
            let ts = line_tokens(vstd::utf8::encode_utf8(hex_render_upper(row)));
            &&& tokens_valid(ts)
            &&& token_values(ts) == row
        }),
{
    let bs = vstd::utf8::encode_utf8(hex_render_upper(row));
    lemma_render_upper_scan(row);
    if row.len() == 0 {
        assert(line_tokens(bs) =~~= Seq::<Seq<u8>>::empty());
        assert(token_values(line_tokens(bs)) =~= row);
    } else {
        let ts = line_tokens(bs);
        assert(ts =~~= pair_tokens(row));
        assert forall|i: int| 0 <= i < ts.len() implies token_valid(#[trigger] ts[i]) by {
            let x = row[i];
            let tok = seq![upper_hi_byte(x), upper_lo_byte(x)];
            assert(ts[i] =~= tok);
            lemma_hex_char_upper_code((x / 16) as u8);
            lemma_hex_char_upper_code((x % 16) as u8);
            assert(tok.drop_last() =~= seq![upper_hi_byte(x)]);
            assert(seq![upper_hi_byte(x)].drop_last() =~= Seq::<u8>::empty());
            assert(crate::hexutil::digits_value(Seq::<u8>::empty(), 16) == 0);
            assert(crate::hexutil::digits_value(seq![upper_hi_byte(x)], 16) == x / 16);
            assert(crate::hexutil::digits_value(tok, 16) == (x / 16) * 16 + (x % 16));
        }
        assert(token_values(ts) =~= row) by {
            assert forall|i: int| 0 <= i < ts.len() implies #[trigger] token_values(ts)[i]
                == row[i] by {
                let x = row[i];
                let tok = seq![upper_hi_byte(x), upper_lo_byte(x)];
                assert(ts[i] =~= tok);
                lemma_hex_char_upper_code((x / 16) as u8);
                lemma_hex_char_upper_code((x % 16) as u8);
                assert(tok.drop_last() =~= seq![upper_hi_byte(x)]);
                assert(seq![upper_hi_byte(x)].drop_last() =~= Seq::<u8>::empty());
                assert(crate::hexutil::digits_value(Seq::<u8>::empty(), 16) == 0);
                assert(crate::hexutil::digits_value(seq![upper_hi_byte(x)], 16) == x / 16);
                assert(crate::hexutil::digits_value(tok, 16) == (x / 16) * 16 + (x % 16));
            }
        }
    }
}

} // verus!
