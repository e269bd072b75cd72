use crate::node::Node;
use crate::random::shuffle;
use crate::random::random_below;
use crate::tree::{lemma_regrown_unique, lemma_walk_advance, children_kept_but, children_unique, has_root, rooted, lemma_spanning_tree_edges, parented, lemma_root_stays, is_regrown, lemma_regrown_consistent, lemma_regrown_spanning, regrown_paths, regrown_target, lemma_climb_step, lemma_cycle_has_no_root, next_up, reaches, adjacent, cleared, lemma_ranked_reaches, touching, unvisited, walk_inv, climb, consistent, edges_in_range, is_root, roots, spanning_tree};
use vstd::prelude::*;

verus! {

/// The ways of building a tree over the grid.
#[derive(Debug, Clone, Copy, PartialEq, Eq)]
pub enum GenerationTypes {
    /// Randomized depth-first walk with a backtrace stack.
    DEPTHFIRST,
    /// Reserved; builds nothing.
    HUNTANDKILL,
    /// The fixed comb-shaped tree rooted at `(0, 0)`.
    TEMPLATE,
}

/// Why an operation of the grid failed.
#[derive(Debug, Clone, Copy, PartialEq, Eq)]
pub enum MazeError {
    /// A width or a height of zero.
    EmptyGrid,
    /// More cells than an arena index can address.
    TooLarge,
    /// A parent chain that comes back to a cell it already passed.
    CycleDetected,
}

/// The cell one step from `(x, y)` in direction `d` (0 east, 1 west,
/// 2 south, 3 north), when it lies inside a `w` by `h` grid.
pub open spec fn step(w: int, h: int, x: int, y: int, d: int) -> Option<(u32, u32)> {
    if d == 0 && x + 1 < w {
        Some(((x + 1) as u32, y as u32))
    } else if d == 1 && x > 0 {
        Some(((x - 1) as u32, y as u32))
    } else if d == 2 && y + 1 < h {
        Some((x as u32, (y + 1) as u32))
    } else if d == 3 && y > 0 {
        Some((x as u32, (y - 1) as u32))
    } else {
        None
    }
}

/// The direction in which `(a, b)` lies from `(x, y)`, for adjacent cells.
pub open spec fn direction(x: int, y: int, a: int, b: int) -> int {
    if a == x + 1 {
        0
    } else if a + 1 == x {
        1
    } else if b == y + 1 {
        2
    } else {
        3
    }
}

/// The in-grid neighbours of `(x, y)` for the directions in `dirs`, taken
/// from the back of `dirs` to the front.
pub open spec fn pop_order(w: int, h: int, x: int, y: int, dirs: Seq<u8>) -> Seq<(u32, u32)>
    decreases dirs.len(),
{
    if dirs.len() == 0 {
        Seq::empty()
    } else {
        let rest = pop_order(w, h, x, y, dirs.drop_last());
        match step(w, h, x, y, dirs.last() as int) {
            Some(c) => seq![c] + rest,
            None => rest,
        }
    }
}

/// What the neighbours in pop order are: in-grid, adjacent cells, one for
/// each direction of `dirs` that stays inside, each once when the
/// directions are distinct.
pub proof fn lemma_pop_order(w: int, h: int, x: int, y: int, dirs: Seq<u8>)
    requires
        0 <= x < w,
        0 <= y < h,
        w <= u32::MAX,
        h <= u32::MAX,
    ensures
        forall|k: int| #![trigger pop_order(w, h, x, y, dirs)[k]]
            0 <= k < pop_order(w, h, x, y, dirs).len() ==> {
                let c = pop_order(w, h, x, y, dirs)[k];
                &&& 0 <= c.0 < w
                &&& 0 <= c.1 < h
                &&& adjacent(x, y, c.0 as int, c.1 as int)
                &&& dirs.contains(direction(x, y, c.0 as int, c.1 as int) as u8)
            },
        forall|j: int|
            0 <= j < dirs.len() && step(w, h, x, y, dirs[j] as int) is Some ==> pop_order(w, h, x, y, dirs).contains(
                #[trigger] step(w, h, x, y, dirs[j] as int)->0,
            ),
        dirs.no_duplicates() ==> pop_order(w, h, x, y, dirs).no_duplicates(),
    decreases dirs.len(),
{
    if dirs.len() > 0 {
        let front = dirs.drop_last();
        let d = dirs.last();
        lemma_pop_order(w, h, x, y, front);
        let rest = pop_order(w, h, x, y, front);
        let r = pop_order(w, h, x, y, dirs);
        assert forall|k: int| 0 <= k < rest.len() implies dirs.contains(
            direction(x, y, rest[k].0 as int, rest[k].1 as int) as u8,
        ) by {
            let v = direction(x, y, rest[k].0 as int, rest[k].1 as int) as u8;
            assert(front.contains(v));
            let j = choose|j: int| 0 <= j < front.len() && front[j] == v;
            assert(dirs[j] == v);
        }
        assert forall|j: int|
            0 <= j < dirs.len() && step(w, h, x, y, dirs[j] as int) is Some implies r.contains(
            #[trigger] step(w, h, x, y, dirs[j] as int)->0,
        ) by {
            let c = step(w, h, x, y, dirs[j] as int)->0;
            if j == dirs.len() - 1 {
                assert(r[0] == c);
            } else {
                assert(front[j] == dirs[j]);
                assert(rest.contains(c));
                let k = choose|k: int| 0 <= k < rest.len() && rest[k] == c;
                if step(w, h, x, y, d as int) is Some {
                    assert(r[k + 1] == c);
                } else {
                    assert(r[k] == c);
                }
            }
        }
        if let Some(c) = step(w, h, x, y, d as int) {
            assert(direction(x, y, c.0 as int, c.1 as int) == d);
            assert(dirs.contains(d)) by {
                assert(dirs[dirs.len() - 1] == d);
            }
            assert forall|k: int| #![trigger r[k]] 0 <= k < r.len() implies {
                let e = r[k];
                &&& 0 <= e.0 < w
                &&& 0 <= e.1 < h
                &&& adjacent(x, y, e.0 as int, e.1 as int)
                &&& dirs.contains(direction(x, y, e.0 as int, e.1 as int) as u8)
            } by {
                if k > 0 {
                    assert(r[k] == rest[k - 1]);
                }
            }
            if dirs.no_duplicates() {
                assert(front.no_duplicates());
                assert(!rest.contains(c)) by {
                    if rest.contains(c) {
                        let k = choose|k: int| 0 <= k < rest.len() && rest[k] == c;
                        assert(front.contains(d));
                        let j = choose|j: int| 0 <= j < front.len() && front[j] == d;
                        assert(dirs[j] == dirs[dirs.len() - 1]);
                    }
                }
                assert forall|a: int, b: int| 0 <= a < r.len() && 0 <= b < r.len() && a != b implies r[a] != r[b] by {
                    if a > 0 && b > 0 {
                        assert(r[a] == rest[a - 1] && r[b] == rest[b - 1]);
                    } else if a == 0 {
                        assert(r[b] == rest[b - 1]);
                    } else {
                        assert(r[a] == rest[a - 1]);
                    }
                }
            }
        } else {
            assert(r == rest);
            if dirs.no_duplicates() {
                assert(front.no_duplicates());
            }
        }
    }
}

/// Arena position of `(x, y)` in a grid `w` cells wide (row-major).
pub open spec fn index(w: int, x: int, y: int) -> int {
    y * w + x
}

pub proof fn lemma_index(w: int, h: int, x: int, y: int)
    requires
        0 <= x < w,
        0 <= y < h,
    ensures
        0 <= index(w, x, y) < w * h,
        index(w, x, y) % w == x,
        index(w, x, y) / w == y,
{
    assert(0 <= y * w) by (nonlinear_arith)
        requires
            0 <= y,
            0 <= w,
    ;
    assert(y * w + x < w * h) by (nonlinear_arith)
        requires
            0 <= x < w,
            0 <= y < h,
    ;
    vstd::arithmetic::div_mod::lemma_fundamental_div_mod_converse(y * w + x, w, y, x);
}

/// Whether `v` holds `e`.
fn holds(v: &Vec<usize>, e: usize) -> (b: bool)
    ensures
        b == v@.contains(e),
{
    let mut i: usize = 0;
    while i < v.len()
        invariant
            i <= v@.len(),
            forall|k: int| 0 <= k < i ==> v@[k] != e,
        decreases v@.len() - i,
    {
        if v[i] == e {
            return true;
        }
        i = i + 1;
    }
    false
}

/// `v` without any occurrence of `e`, the others kept in order.
fn without(v: &Vec<usize>, e: usize) -> (r: Vec<usize>)
    ensures
        r@ == v@.filter(|u: usize| u != e),
{
    let mut r: Vec<usize> = Vec::new();
    let mut i: usize = 0;
    while i < v.len()
        invariant
            i <= v@.len(),
            r@ == v@.take(i as int).filter(|u: usize| u != e),
        decreases v@.len() - i,
    {
        proof {
            reveal(Seq::filter);
            assert(v@.take(i as int + 1).drop_last() =~= v@.take(i as int));
            assert(v@.take(i as int + 1).last() == v@[i as int]);
        }
        if v[i] != e {
            r.push(v[i]);
        }
        i = i + 1;
    }
    assert(v@.take(v@.len() as int) =~= v@);
    r
}

/// Which sides of a cell open onto a tree edge, to its parent or to one of
/// its children; the others are walls.
#[derive(Debug, Clone, Copy, PartialEq, Eq)]
pub struct Sides {
    pub east: bool,
    pub west: bool,
    pub south: bool,
    pub north: bool,
}

/// `(a, b)` lies in direction `d` (0 east, 1 west, 2 south, 3 north) of `(x, y)`.
pub open spec fn lies(x: int, y: int, a: int, b: int, d: int) -> bool {
    ||| d == 0 && a > x
    ||| d == 1 && a < x
    ||| d == 2 && b > y
    ||| d == 3 && b < y
}

/// The grid: `width * height` cells in a row-major arena, the cell `(x, y)`
/// at index `y * width + x`.
pub struct Maze {
    width: u32,
    height: u32,
    nodes: Vec<Node>,
}

impl Maze {
    pub closed spec fn w(self) -> int {
        self.width as int
    }

    pub closed spec fn h(self) -> int {
        self.height as int
    }

    /// The cells, in arena order.
    pub closed spec fn cells(self) -> Seq<Node> {
        self.nodes@
    }

    pub open spec fn in_grid(self, x: int, y: int) -> bool {
        0 <= x < self.w() && 0 <= y < self.h()
    }

    pub open spec fn at(self, x: int, y: int) -> int {
        index(self.w(), x, y)
    }

    /// The arena holds `w * h` cells, cell `i` at `(i % w, i / w)`, and
    /// every edge names a cell of the arena.
    pub open spec fn wf(self) -> bool {
        &&& self.w() >= 1
        &&& self.h() >= 1
        &&& self.cells().len() == self.w() * self.h()
        &&& self.cells().len() <= usize::MAX
        &&& forall|i: int| #![trigger self.cells()[i]]
            0 <= i < self.cells().len() ==> self.cells()[i].x == i % self.w() && self.cells()[i].y == i
                / self.w()
        &&& edges_in_range(self.cells())
    }

    /// A grid of `width * height` cells, all unvisited and without edges.
    pub fn new(width: u32, height: u32) -> (r: Result<Maze, MazeError>)
        ensures
            (width == 0 || height == 0) <==> r == Err::<Maze, MazeError>(MazeError::EmptyGrid),
            (width > 0 && height > 0 && width as int * height as int > usize::MAX) <==> r == Err::<
                Maze,
                MazeError,
            >(MazeError::TooLarge),
            r is Ok <==> width > 0 && height > 0 && width as int * height as int <= usize::MAX,
            r matches Ok(m) ==> m.wf() && m.w() == width && m.h() == height && cleared(m.cells()),
    {
        if width == 0 || height == 0 {
            return Err(MazeError::EmptyGrid);
        }
        let total = (width as usize).checked_mul(height as usize);
        if total.is_none() {
            return Err(MazeError::TooLarge);
        }
        let mut nodes: Vec<Node> = Vec::new();
        let mut y: u32 = 0;
        while y < height
            invariant
                0 < width,
                y <= height,
                width as int * height as int <= usize::MAX,
                nodes@.len() == y as int * width as int,
                forall|i: int| #![trigger nodes@[i]]
                    0 <= i < nodes@.len() ==> nodes@[i].x == i % (width as int) && nodes@[i].y == i
                        / (width as int) && !nodes@[i].conn && nodes@[i].paths@.len() == 0
                        && nodes@[i].target is None,
            decreases height - y,
        {
            let mut x: u32 = 0;
            while x < width
                invariant
                    0 < width,
                    y < height,
                    x <= width,
                    width as int * height as int <= usize::MAX,
                    nodes@.len() == y as int * width as int + x,
                    forall|i: int| #![trigger nodes@[i]]
                        0 <= i < nodes@.len() ==> nodes@[i].x == i % (width as int) && nodes@[i].y
                            == i / (width as int) && !nodes@[i].conn && nodes@[i].paths@.len() == 0
                            && nodes@[i].target is None,
                decreases width - x,
            {
                proof {
                    lemma_index(width as int, height as int, x as int, y as int);
                }
                nodes.push(Node::new(x, y));
                x = x + 1;
            }
            assert(y as int * width as int + width as int == (y as int + 1) * width as int)
                by (nonlinear_arith);
            y = y + 1;
        }
        assert(height as int * width as int == width as int * height as int) by (nonlinear_arith);
        let m = Maze { width, height, nodes };
        assert(edges_in_range(m.nodes@));
        Ok(m)
    }

    /// Cell `i` sits at `(nodes[i].x, nodes[i].y)`, inside the grid, and the
    /// arena is laid out row by row.
    pub proof fn lemma_cell_index(self, i: int)
        requires
            self.wf(),
            0 <= i < self.cells().len(),
        ensures
            self.cells()[i].x == i % self.w(),
            self.cells()[i].y == i / self.w(),
            self.in_grid(self.cells()[i].x as int, self.cells()[i].y as int),
            i == self.at(self.cells()[i].x as int, self.cells()[i].y as int),
    {
        let w = self.w();
        assert(self.nodes@[i] == self.nodes@[i]);
        self.lemma_row_bound(i);
        vstd::arithmetic::div_mod::lemma_div_pos_is_pos(i, w);
        vstd::arithmetic::div_mod::lemma_mod_pos_bound(i, w);
        vstd::arithmetic::div_mod::lemma_fundamental_div_mod(i, w);
        assert(i == (i / w) * w + i % w) by (nonlinear_arith)
            requires
                i == w * (i / w) + i % w,
        ;
    }

    proof fn lemma_row_bound(self, i: int)
        requires
            self.wf(),
            0 <= i < self.nodes@.len(),
        ensures
            i / self.w() < self.h(),
    {
        let w = self.w();
        let h = self.h();
        vstd::arithmetic::div_mod::lemma_fundamental_div_mod(i, w);
        vstd::arithmetic::div_mod::lemma_mod_pos_bound(i, w);
        let q = i / w;
        assert(q < h) by (nonlinear_arith)
            requires
                i == w * q + i % w,
                0 <= i % w,
                i < w * h,
                w > 0,
        ;
    }

    /// When no visited cell has an unvisited neighbour and cell `i` is
    /// visited, every cell `j` is visited: the grid is connected.
    proof fn lemma_visits_cover(self, i: int, j: int)
        requires
            self.wf(),
            0 <= i < self.nodes@.len(),
            0 <= j < self.nodes@.len(),
            self.nodes@[i].conn,
            forall|a: int, b: int|
                0 <= a < self.nodes@.len() && 0 <= b < self.nodes@.len() && self.nodes@[a].conn
                    && !self.nodes@[b].conn ==> !#[trigger] touching(self.nodes@, a, b),
        ensures
            self.nodes@[j].conn,
        decreases
            (if self.nodes@[i].x <= self.nodes@[j].x {
                self.nodes@[j].x - self.nodes@[i].x
            } else {
                self.nodes@[i].x - self.nodes@[j].x
            }) + (if self.nodes@[i].y <= self.nodes@[j].y {
                self.nodes@[j].y - self.nodes@[i].y
            } else {
                self.nodes@[i].y - self.nodes@[j].y
            }),
    {
        let nodes = self.nodes@;
        let xi = nodes[i].x as int;
        let yi = nodes[i].y as int;
        let xj = nodes[j].x as int;
        let yj = nodes[j].y as int;
        assert(nodes[i] == nodes[i] && nodes[j] == nodes[j]);
        assert(0 <= xi < self.w() && 0 <= yi < self.h() && 0 <= xj < self.w() && 0 <= yj < self.h())
            by {
            vstd::arithmetic::div_mod::lemma_div_pos_is_pos(i, self.w());
            vstd::arithmetic::div_mod::lemma_div_pos_is_pos(j, self.w());
            self.lemma_row_bound(i);
            self.lemma_row_bound(j);
            vstd::arithmetic::div_mod::lemma_mod_pos_bound(i, self.w());
            vstd::arithmetic::div_mod::lemma_mod_pos_bound(j, self.w());
        }
        if xi == xj && yi == yj {
            lemma_index(self.w(), self.h(), xi, yi);
            vstd::arithmetic::div_mod::lemma_fundamental_div_mod(i, self.w());
            vstd::arithmetic::div_mod::lemma_fundamental_div_mod(j, self.w());
            assert(i == yi * self.w() + xi) by (nonlinear_arith)
                requires
                    i == self.w() * (i / self.w()) + i % self.w(),
                    xi == i % self.w(),
                    yi == i / self.w(),
            ;
            assert(j == yj * self.w() + xj) by (nonlinear_arith)
                requires
                    j == self.w() * (j / self.w()) + j % self.w(),
                    xj == j % self.w(),
                    yj == j / self.w(),
            ;
        } else {
            let (nx, ny) = if xi < xj {
                (xi + 1, yi)
            } else if xj < xi {
                (xi - 1, yi)
            } else if yi < yj {
                (xi, yi + 1)
            } else {
                (xi, yi - 1)
            };
            lemma_index(self.w(), self.h(), nx, ny);
            let k = index(self.w(), nx, ny);
            assert(nodes[k] == nodes[k]);
            assert(touching(nodes, i, k));
            self.lemma_visits_cover(k, j);
        }
    }

    /// Arena index of the cell `(x, y)`.
    fn index_of(&self, x: u32, y: u32) -> (i: usize)
        requires
            self.wf(),
            self.in_grid(x as int, y as int),
        ensures
            i == self.at(x as int, y as int),
            i < self.nodes@.len(),
    {
        proof {
            lemma_index(self.w(), self.h(), x as int, y as int);
        }
        (y as usize) * (self.width as usize) + (x as usize)
    }

    /// The in-grid neighbours of `(x, y)` for the directions of `dirs`
    /// (0 east, 1 west, 2 south, 3 north), taken from the back of `dirs`;
    /// directions that leave the grid, or are not one of the four, give
    /// nothing.
    pub fn neighbours_in_order(&self, x: u32, y: u32, dirs: Vec<u8>) -> (r: Vec<(u32, u32)>)
        requires
            self.wf(),
            self.in_grid(x as int, y as int),
        ensures
            r@ == pop_order(self.w(), self.h(), x as int, y as int, dirs@),
    {
        let ghost all = dirs@;
        let mut dirs = dirs;
        let mut ret: Vec<(u32, u32)> = Vec::new();
        while dirs.len() > 0
            invariant
                self.in_grid(x as int, y as int),
                ret@ + pop_order(self.w(), self.h(), x as int, y as int, dirs@) == pop_order(
                    self.w(),
                    self.h(),
                    x as int,
                    y as int,
                    all,
                ),
            decreases dirs@.len(),
        {
            let ghost before = dirs@;
            let d = dirs.pop().unwrap();
            let next: Option<(u32, u32)> = if d == 0 && x + 1 < self.width {
                Some((x + 1, y))
            } else if d == 1 && x > 0 {
                Some((x - 1, y))
            } else if d == 2 && y + 1 < self.height {
                Some((x, y + 1))
            } else if d == 3 && y > 0 {
                Some((x, y - 1))
            } else {
                None
            };
            let ghost prev = ret@;
            assert(next == step(self.w(), self.h(), x as int, y as int, d as int));
            assert(before.drop_last() == dirs@ && before.last() == d);
            if let Some(c) = next {
                ret.push(c);
                assert(ret@ + pop_order(self.w(), self.h(), x as int, y as int, dirs@) =~= prev + (seq![c]
                    + pop_order(self.w(), self.h(), x as int, y as int, dirs@)));
            }
        }
        assert(ret@ + pop_order(self.w(), self.h(), x as int, y as int, dirs@) =~= ret@);
        ret
    }

    /// The in-grid cells one step east, west, south or north of `(x, y)`,
    /// each once, in an order shuffled anew on every call.
    pub fn get_neighbours(&self, x: u32, y: u32) -> (r: Vec<(u32, u32)>)
        requires
            self.wf(),
            self.in_grid(x as int, y as int),
        ensures
            r@.no_duplicates(),
            forall|k: int| #![trigger r@[k]]
                0 <= k < r@.len() ==> self.in_grid(r@[k].0 as int, r@[k].1 as int) && adjacent(
                    x as int,
                    y as int,
                    r@[k].0 as int,
                    r@[k].1 as int,
                ),
            forall|a: u32, b: u32|
                self.in_grid(a as int, b as int) && adjacent(x as int, y as int, a as int, b as int)
                    ==> #[trigger] r@.contains((a, b)),
            exists|dirs: Seq<u8>|
                dirs.to_multiset() == seq![0u8, 1u8, 2u8, 3u8].to_multiset() && r@ == #[trigger] pop_order(
                    self.w(),
                    self.h(),
                    x as int,
                    y as int,
                    dirs,
                ),
    {
        let mut dirs: Vec<u8> = vec![0, 1, 2, 3];
        proof {
            let s = dirs@;
            assert(s.no_duplicates());
            s.lemma_multiset_has_no_duplicates();
            assert(s =~= seq![0u8, 1u8, 2u8, 3u8]);
        }
        let ghost before = dirs@;
        shuffle(&mut dirs);
        proof {
            broadcast use vstd::seq_lib::group_to_multiset_ensures;

            assert(before.to_multiset().len() == 4);
            assert(dirs@.to_multiset().len() == 4);
            dirs@.lemma_multiset_has_no_duplicates_conv();
            assert forall|v: u8| v < 4 implies dirs@.contains(v) by {
                assert(before.contains(v)) by {
                    assert(before[v as int] == v);
                }
                assert(before.to_multiset().count(v) > 0);
                assert(dirs@.to_multiset().count(v) > 0);
            }
            lemma_pop_order(self.w(), self.h(), x as int, y as int, dirs@);
        }
        let ghost order = dirs@;
        let ret = self.neighbours_in_order(x, y, dirs);
        proof {
            assert forall|a: u32, b: u32|
                self.in_grid(a as int, b as int) && adjacent(x as int, y as int, a as int, b as int)
                    implies #[trigger] ret@.contains((a, b)) by {
                let d = direction(x as int, y as int, a as int, b as int) as u8;
                assert(order.contains(d));
                let j = choose|j: int| 0 <= j < order.len() && order[j] == d;
                assert(step(self.w(), self.h(), x as int, y as int, order[j] as int) == Some((a, b)));
            }
        }
        ret
    }

    /// Randomized depth-first construction from a random start cell. From a
    /// cleared grid it visits every cell and leaves one tree over the whole
    /// grid, rooted at the start. It does not clear first: cells already
    /// visited are walls to the walk.
    #[verifier::rlimit(50)]
    pub fn generate_random(&mut self)
        requires
            old(self).wf(),
        ensures
            final(self).wf(),
            final(self).w() == old(self).w(),
            final(self).h() == old(self).h(),
            cleared(old(self).cells()) ==> (exists|r: int| spanning_tree(final(self).cells(), r)),
            cleared(old(self).cells()) ==> forall|i: int|
                0 <= i < final(self).cells().len() ==> #[trigger] final(self).cells()[i].conn,
            cleared(old(self).cells()) ==> parented(final(self).cells()).len() == final(self).w() * final(self).h() - 1,
            cleared(old(self).cells()) ==> children_unique(final(self).cells()),
            cleared(old(self).cells()) ==> forall|i: int|
                0 <= i < final(self).cells().len() && #[trigger] final(self).cells()[i].target is Some ==> touching(
                    final(self).cells(),
                    i,
                    final(self).cells()[i].target->0 as int,
                ),
            forall|i: int|
                0 <= i < old(self).cells().len() && #[trigger] old(self).cells()[i].conn ==> final(self).cells()[i].conn
                    && final(self).cells()[i].target == old(self).cells()[i].target,
            exists|s: int|
                0 <= s < old(self).cells().len() && #[trigger] children_kept_but(
                    old(self).cells(),
                    final(self).cells(),
                    s,
                ),
    {
        let ghost fresh = cleared(self.nodes@);
        let ghost n = self.nodes@.len();
        let x0 = random_below(self.width);
        let y0 = random_below(self.height);
        let start = self.index_of(x0, y0);
        let ghost before = self.nodes@;
        self.nodes[start].conn = true;
        proof {
            let nodes = self.nodes@;
            assert forall|i: int| #![trigger nodes[i]]
                0 <= i < n implies nodes[i].x == before[i].x && nodes[i].y == before[i].y && nodes[i].paths
                == before[i].paths && nodes[i].target == before[i].target by {
                assert(before[i] == before[i]);
            }
            assert forall|i: int, m: int| #![trigger nodes[i].paths@[m]]
                0 <= i < n && 0 <= m < nodes[i].paths@.len() implies nodes[i].paths@[m] < n by {
                assert(nodes[i].paths@ == before[i].paths@);
            }
        }
        let ghost mut rank: Seq<nat> = Seq::new(n as nat, |i: int| 0nat);
        let mut cur: usize = start;
        let mut backtraces: Vec<usize> = Vec::new();
        proof {
            reveal(walk_inv);
            if fresh {
                assert(consistent(self.nodes@));
                assert forall|a: int, b: int|
                    0 <= a < n && 0 <= b < n && self.nodes@[a].conn && !self.nodes@[b].conn
                        && #[trigger] touching(self.nodes@, a, b) implies a == cur
                    || backtraces@.contains(a as usize) by {
                    assert(self.nodes@[a] == old(self).nodes@[a] || a == start);
                }
            }
        }
        loop
            invariant
                self.wf(),
                self.w() == old(self).w(),
                self.h() == old(self).h(),
                fresh == cleared(old(self).nodes@),
                n == self.nodes@.len(),
                start < n,
                cur < n,
                self.nodes@[cur as int].conn,
                forall|k: int|
                    0 <= k < backtraces@.len() ==> #[trigger] backtraces@[k] < n && self.nodes@[backtraces@[k] as int].conn
                        && (backtraces@[k] == start || !old(self).nodes@[backtraces@[k] as int].conn),
                cur == start || !old(self).nodes@[cur as int].conn,
                old(self).nodes@.len() == n,
                forall|i: int| #![trigger self.nodes@[i]]
                    0 <= i < n && old(self).nodes@[i].conn ==> self.nodes@[i].conn && self.nodes@[i].target
                        == old(self).nodes@[i].target && (i != start ==> self.nodes@[i].paths@ == old(
                        self,
                    ).nodes@[i].paths@),
                fresh ==> walk_inv(self.nodes@, start as int, rank, cur as int, backtraces@),
            ensures
                self.wf(),
                self.w() == old(self).w(),
                self.h() == old(self).h(),
                n == self.nodes@.len(),
                fresh ==> walk_inv(self.nodes@, start as int, rank, cur as int, backtraces@),
                forall|i: int| #![trigger self.nodes@[i]]
                    0 <= i < n && old(self).nodes@[i].conn ==> self.nodes@[i].conn && self.nodes@[i].target
                        == old(self).nodes@[i].target && (i != start ==> self.nodes@[i].paths@ == old(
                        self,
                    ).nodes@[i].paths@),
                backtraces@.len() == 0,
                cur < n,
                self.nodes@[cur as int].conn,
                forall|b: int| 0 <= b < n && #[trigger] touching(self.nodes@, cur as int, b) ==> self.nodes@[b].conn,
            decreases 2 * unvisited(self.nodes@).len() + backtraces@.len(),
        {
            proof {
                vstd::set_lib::lemma_int_range(0, n as int);
                vstd::set_lib::lemma_len_subset(unvisited(self.nodes@), vstd::set_lib::set_int_range(0, n as int));
                self.lemma_cell_index(cur as int);
            }
            let cx = self.nodes[cur].x;
            let cy = self.nodes[cur].y;
            let neighbours = self.get_neighbours(cx, cy);
            let mut open_count: usize = 0;
            let mut last: Option<usize> = None;
            let mut k: usize = 0;
            while k < neighbours.len()
                invariant
                    self.wf(),
                    n == self.nodes@.len(),
                    cur < n,
                    cx == self.nodes@[cur as int].x,
                    cy == self.nodes@[cur as int].y,
                    forall|m: int| #![trigger neighbours@[m]]
                        0 <= m < neighbours@.len() ==> self.in_grid(neighbours@[m].0 as int, neighbours@[m].1 as int)
                            && adjacent(cx as int, cy as int, neighbours@[m].0 as int, neighbours@[m].1 as int),
                    k <= neighbours@.len(),
                    open_count <= k,
                    (open_count == 0) == (last is None),
                    last is Some ==> last->0 < n && !self.nodes@[last->0 as int].conn && touching(
                        self.nodes@,
                        cur as int,
                        last->0 as int,
                    ),
                    forall|m: int| #![trigger neighbours@[m]]
                        0 <= m < k && !self.nodes@[self.at(neighbours@[m].0 as int, neighbours@[m].1 as int)].conn
                            ==> open_count >= 2 || last == Some(
                            self.at(neighbours@[m].0 as int, neighbours@[m].1 as int) as usize,
                        ),
                decreases neighbours@.len() - k,
            {
                let (a, b) = neighbours[k];
                let j = self.index_of(a, b);
                proof {
                    lemma_index(self.w(), self.h(), a as int, b as int);
                    assert(self.nodes@[j as int] == self.nodes@[j as int]);
                }
                if !self.nodes[j].conn {
                    open_count = open_count + 1;
                    last = Some(j);
                }
                k = k + 1;
            }
            proof {
                // Every unvisited neighbour of the current cell was seen above.
                assert forall|b: int|
                    0 <= b < n && !self.nodes@[b].conn && #[trigger] touching(self.nodes@, cur as int, b)
                        implies open_count >= 2 || last == Some(b as usize) by {
                    self.lemma_cell_index(b);
                    let bx = self.nodes@[b].x;
                    let by = self.nodes@[b].y;
                    assert(neighbours@.contains((bx, by)));
                    let m = choose|m: int| 0 <= m < neighbours@.len() && neighbours@[m] == (bx, by);
                    assert(neighbours@[m] == (bx, by));
                }
            }
            match last {
                Some(next) => {
                    let ghost before = self.nodes@;
                    let ghost st_before = backtraces@;
                    if open_count > 1 {
                        backtraces.push(cur);
                    }
                    self.nodes[next].target = Some(cur);
                    self.nodes[cur].paths.push(next);
                    self.nodes[next].conn = true;
                    proof {
                        let nodes = self.nodes@;
                        assert(unvisited(nodes) =~= unvisited(before).remove(next as int));
                        assert forall|i: int| #![trigger nodes[i]]
                            0 <= i < n implies nodes[i].x == before[i].x && nodes[i].y == before[i].y
                            && (nodes[i].target is Some ==> nodes[i].target->0 < n) by {
                            assert(before[i] == before[i]);
                        }
                        assert forall|i: int, m: int| #![trigger nodes[i].paths@[m]]
                            0 <= i < n && 0 <= m < nodes[i].paths@.len() implies nodes[i].paths@[m] < n by {
                            if i != cur as int {
                                assert(nodes[i].paths@ == before[i].paths@);
                            } else if m < before[i].paths@.len() {
                                assert(nodes[i].paths@[m] == before[i].paths@[m]);
                            }
                        }
                        assert forall|i: int| #![trigger nodes[i]]
                            0 <= i < n && old(self).nodes@[i].conn implies nodes[i].conn && nodes[i].target
                            == old(self).nodes@[i].target && (i != start ==> nodes[i].paths@ == old(
                            self,
                        ).nodes@[i].paths@) by {
                            assert(before[i] == before[i]);
                            assert(old(self).nodes@[i] == old(self).nodes@[i]);
                        }
                        if fresh {
                            assert forall|b: int|
                                0 <= b < n && !before[b].conn && #[trigger] touching(before, cur as int, b)
                                    implies (open_count > 1) || b == next as int by {
                                assert(open_count >= 2 || last == Some(b as usize));
                            }
                            lemma_walk_advance(
                                before,
                                nodes,
                                start as int,
                                rank,
                                cur as int,
                                next as int,
                                st_before,
                                backtraces@,
                                open_count > 1,
                            );
                            rank = rank.update(next as int, rank[cur as int] + 1);
                        }
                        assert forall|m: int|
                            0 <= m < backtraces@.len() implies #[trigger] backtraces@[m] < n && nodes[backtraces@[m] as int].conn
                            && (backtraces@[m] == start || !old(self).nodes@[backtraces@[m] as int].conn) by {
                            if m < st_before.len() {
                                assert(backtraces@[m] == st_before[m]);
                            }
                        }
                    }
                    cur = next;
                }
                None => {
                    let ghost st_before = backtraces@;
                    match backtraces.pop() {
                        Some(b) => {
                            proof {
                                reveal(walk_inv);
                                assert(backtraces@ == st_before.drop_last());
                                if fresh {
                                    let nodes = self.nodes@;
                                    assert forall|a: int, c: int|
                                        0 <= a < n && 0 <= c < n && nodes[a].conn && !nodes[c].conn
                                            && #[trigger] touching(nodes, a, c) implies a == b as int
                                        || backtraces@.contains(a as usize) by {
                                        if a != cur as int {
                                            assert(st_before.contains(a as usize));
                                            let m = choose|m: int| 0 <= m < st_before.len() && st_before[m] == a as usize;
                                            if m < st_before.len() - 1 {
                                                assert(backtraces@[m] == a as usize);
                                            }
                                        }
                                    }
                                }
                                assert(st_before[st_before.len() - 1] == b);
                            }
                            cur = b;
                        }
                        None => {
                            break;
                        }
                    }
                }
            }
        }
        proof {
            let nodes = self.nodes@;
            assert(children_kept_but(old(self).nodes@, nodes, start as int));
            reveal(walk_inv);
            if fresh {
                assert forall|a: int, b: int|
                    0 <= a < n && 0 <= b < n && nodes[a].conn && !nodes[b].conn implies !#[trigger] touching(
                    nodes,
                    a,
                    b,
                ) by {}
                assert forall|i: int| 0 <= i < n implies #[trigger] nodes[i].conn by {
                    self.lemma_visits_cover(start as int, i);
                }
                assert forall|i: int| 0 <= i < n implies (#[trigger] is_root(nodes, i) <==> i == start as int) by {
                    assert(nodes[i] == nodes[i]);
                }
                assert forall|i: int| 0 <= i < n implies #[trigger] reaches(nodes, i, start as int) by {
                    lemma_ranked_reaches(nodes, start as int, rank, i);
                }
                assert(spanning_tree(nodes, start as int));
                lemma_spanning_tree_edges(nodes, start as int);
            }
        }
    }

    /// The root of the tree that holds `(x, y)`: parent links are followed
    /// until a cell without a parent. A chain that comes back to a cell it
    /// already passed is reported as `CycleDetected` instead of looping.
    pub fn find_root(&self, x: u32, y: u32) -> (r: Result<(u32, u32), MazeError>)
        requires
            self.wf(),
            self.in_grid(x as int, y as int),
        ensures
            r is Ok <==> exists|k: nat|
                is_root(self.cells(), #[trigger] climb(self.cells(), self.at(x as int, y as int), k)),
            r matches Ok((a, b)) ==> self.in_grid(a as int, b as int) && is_root(
                self.cells(),
                self.at(a as int, b as int),
            ) && reaches(self.cells(), self.at(x as int, y as int), self.at(a as int, b as int)),
            r is Err ==> r == Err::<(u32, u32), MazeError>(MazeError::CycleDetected),
    {
        let ghost nodes = self.nodes@;
        let n = self.nodes.len();
        let i = self.index_of(x, y);
        let mut seen: Vec<bool> = Vec::new();
        while seen.len() < n
            invariant
                seen@.len() <= n,
                forall|c: int| 0 <= c < seen@.len() ==> !#[trigger] seen@[c],
            decreases n - seen@.len(),
        {
            seen.push(false);
        }
        let mut cur: usize = i;
        let ghost mut steps: nat = 0;
        assert(Set::new(|c: int| 0 <= c < n && seen@[c]) =~= Set::<int>::empty());
        loop
            invariant
                self.wf(),
                nodes == self.nodes@,
                n == nodes.len(),
                seen@.len() == n,
                i == self.at(x as int, y as int),
                i < n,
                cur < n,
                cur == climb(nodes, i as int, steps),
                forall|t: nat| t < steps ==> !is_root(nodes, #[trigger] climb(nodes, i as int, t)),
                forall|c: int|
                    0 <= c < n && #[trigger] seen@[c] ==> exists|t: nat| t < steps && climb(nodes, i as int, t) == c,
                Set::new(|c: int| 0 <= c < n && seen@[c]).finite(),
                Set::new(|c: int| 0 <= c < n && seen@[c]).len() == steps,
            decreases n - steps,
        {
            if self.nodes[cur].target.is_none() {
                proof {
                    self.lemma_cell_index(cur as int);
                    assert(is_root(nodes, climb(nodes, i as int, steps)));
                    assert(is_root(self.cells(), climb(self.cells(), self.at(x as int, y as int), steps)));
                }
                return Ok((self.nodes[cur].x, self.nodes[cur].y));
            }
            if seen[cur] {
                proof {
                    let t = choose|t: nat| t < steps && climb(nodes, i as int, t) == cur;
                    assert forall|u: nat| u < steps + 1 implies !is_root(nodes, #[trigger] climb(nodes, i as int, u))
                        by {
                        if u < steps {
                        }
                    }
                    assert forall|k: nat| !is_root(nodes, #[trigger] climb(nodes, i as int, k)) by {
                        lemma_cycle_has_no_root(nodes, i as int, t, steps, k);
                    }
                }
                return Err(MazeError::CycleDetected);
            }
            let ghost old_seen = Set::new(|c: int| 0 <= c < n && seen@[c]);
            seen.set(cur, true);
            proof {
                let new_seen = Set::new(|c: int| 0 <= c < n && seen@[c]);
                assert(new_seen =~= old_seen.insert(cur as int));
                vstd::set_lib::lemma_int_range(0, n as int);
                vstd::set_lib::lemma_len_subset(new_seen, vstd::set_lib::set_int_range(0, n as int));
                lemma_climb_step(nodes, i as int, steps);
                assert(nodes[cur as int] == nodes[cur as int]);
                assert forall|c: int|
                    0 <= c < n && #[trigger] seen@[c] implies exists|t: nat| t < steps + 1 && climb(nodes, i as int, t) == c by {
                    if c != cur as int {
                        assert(old_seen.contains(c));
                    } else {
                        assert(climb(nodes, i as int, steps) == c);
                    }
                }
                assert forall|t: nat| t < steps + 1 implies !is_root(nodes, #[trigger] climb(nodes, i as int, t)) by {
                    if t < steps {
                    }
                }
            }
            cur = self.nodes[cur].target.unwrap();
            proof {
                steps = steps + 1;
            }
        }
    }

    /// The root moves from `root` to its neighbour `next`: `root` becomes a
    /// child of `next`, and `next` leaves the children of its old parent.
    /// Positions and visited flags are untouched.
    pub fn shift_to(&mut self, root: (u32, u32), next: (u32, u32))
        requires
            old(self).wf(),
            old(self).in_grid(root.0 as int, root.1 as int),
            old(self).in_grid(next.0 as int, next.1 as int),
            adjacent(root.0 as int, root.1 as int, next.0 as int, next.1 as int),
        ensures
            final(self).wf(),
            final(self).w() == old(self).w(),
            final(self).h() == old(self).h(),
            is_regrown(
                old(self).cells(),
                final(self).cells(),
                old(self).at(root.0 as int, root.1 as int),
                old(self).at(next.0 as int, next.1 as int),
            ),
    {
        let r = self.index_of(root.0, root.1);
        let c = self.index_of(next.0, next.1);
        proof {
            lemma_index(self.w(), self.h(), root.0 as int, root.1 as int);
            lemma_index(self.w(), self.h(), next.0 as int, next.1 as int);
        }
        let ghost before = self.nodes@;
        if !holds(&self.nodes[c].paths, r) {
            self.nodes[c].paths.push(r);
        }
        self.nodes[r].target = Some(c);
        let parent = self.nodes[c].target;
        self.nodes[c].target = None;
        if let Some(p) = parent {
            let kept = without(&self.nodes[p].paths, c);
            self.nodes[p].paths = kept;
        }
        proof {
            let after = self.nodes@;
            let n = before.len();
            assert(before[c as int] == before[c as int]);
            assert forall|i: int| #![trigger after[i]]
                0 <= i < n implies after[i].x == before[i].x && after[i].y == before[i].y && after[i].conn
                == before[i].conn && after[i].paths@ == regrown_paths(before, r as int, c as int, i)
                && after[i].target == regrown_target(before, r as int, c as int, i) by {
                assert(before[i] == before[i]);
            }
            assert forall|i: int| #![trigger after[i].target]
                0 <= i < n && after[i].target is Some implies after[i].target->0 < n by {
                assert(after[i] == after[i]);
                assert(before[i] == before[i]);
            }
            assert forall|i: int, k: int| #![trigger after[i].paths@[k]]
                0 <= i < n && 0 <= k < after[i].paths@.len() implies after[i].paths@[k] < n by {
                assert(after[i] == after[i]);
                assert(before[i] == before[i]);
                let grown = if i == c as int && !before[c as int].paths@.contains(r) {
                    before[i].paths@.push(r)
                } else {
                    before[i].paths@
                };
                let v = after[i].paths@[k];
                let keep = |u: usize| u != c;
                if before[c as int].target == Some(i as usize) {
                    assert(grown.filter(keep).contains(v));
                    grown.lemma_filter_contains_rev(keep, v);
                } else {
                    assert(grown.contains(v));
                }
                let m = choose|m: int| 0 <= m < grown.len() && grown[m] == v;
                if m < before[i].paths@.len() {
                    assert(before[i].paths@[m] == v);
                }
            }
        }
    }

    /// The cells went from `self` to `after` by one move of the root
    /// `(rx, ry)` to `(nx, ny)`, or, where the root has no neighbour in the
    /// grid, stayed as they were with `(nx, ny)` the root itself.
    pub open spec fn shifted(self, after: Maze, rx: u32, ry: u32, nx: u32, ny: u32) -> bool {
        &&& self.in_grid(rx as int, ry as int)
        &&& is_root(self.cells(), self.at(rx as int, ry as int))
        &&& {
            ||| self.in_grid(nx as int, ny as int) && adjacent(rx as int, ry as int, nx as int, ny as int)
                && is_regrown(self.cells(), after.cells(), self.at(rx as int, ry as int), self.at(nx as int, ny as int))
            ||| (forall|a: int, b: int| self.in_grid(a, b) ==> !#[trigger] adjacent(rx as int, ry as int, a, b))
                && nx == rx && ny == ry && after.cells() == self.cells()
        }
    }

    /// `after` comes from `self` by one move of a root `(rx, ry)` that is the
    /// root of `origin`'s tree when an origin is given, ending at `(nx, ny)`.
    pub open spec fn regrowth(self, origin: Option<(u32, u32)>, after: Maze, nx: u32, ny: u32) -> bool {
        exists|rx: u32, ry: u32|
            #[trigger] self.shifted(after, rx, ry, nx, ny) && (origin matches Some((a, b)) ==> reaches(
                self.cells(),
                self.at(a as int, b as int),
                self.at(rx as int, ry as int),
            ))
    }

    /// One step of regrowth. The active root is `origin` when that cell has
    /// no parent, the root of its tree otherwise, and the root of the tree of
    /// a random cell when no origin is given. The root then moves to a random
    /// neighbour (see `shift_to`), which is returned as the next origin.
    pub fn shift(&mut self, origin: Option<(u32, u32)>) -> (r: Result<(u32, u32), MazeError>)
        requires
            old(self).wf(),
            origin matches Some((a, b)) ==> old(self).in_grid(a as int, b as int),
        ensures
            final(self).wf(),
            final(self).w() == old(self).w(),
            final(self).h() == old(self).h(),
            r is Err ==> r == Err::<(u32, u32), MazeError>(MazeError::CycleDetected) && final(self).cells()
                == old(self).cells(),
            origin matches Some((a, b)) ==> (r is Err <==> forall|k: nat|
                !is_root(old(self).cells(), #[trigger] climb(old(self).cells(), old(self).at(a as int, b as int), k))),
            r matches Ok((nx, ny)) ==> old(self).regrowth(origin, *final(self), nx, ny),
            rooted(old(self).cells()) ==> r is Ok,
            r is Err ==> !rooted(old(self).cells()),
            consistent(old(self).cells()) ==> consistent(final(self).cells()),
            children_unique(old(self).cells()) ==> children_unique(final(self).cells()),
            consistent(old(self).cells()) ==> roots(final(self).cells()).len() <= roots(old(self).cells()).len(),
            forall|t: int| #[trigger] spanning_tree(old(self).cells(), t) ==> (r matches Ok((nx, ny))
                && spanning_tree(final(self).cells(), final(self).at(nx as int, ny as int))),
    {
        let ghost before = *self;
        let (rx, ry) = match origin {
            Some((a, b)) => {
                let i = self.index_of(a, b);
                if self.nodes[i].target.is_none() {
                    proof {
                        assert(climb(self.nodes@, i as int, 0) == i);
                        assert(reaches(before.cells(), before.at(a as int, b as int), before.at(a as int, b as int)));
                    }
                    (a, b)
                } else {
                    match self.find_root(a, b) {
                        Ok(found) => found,
                        Err(e) => {
                            proof {
                                self.lemma_tree_has_roots(a as int, b as int);
                                assert forall|t: int| #[trigger] spanning_tree(before.cells(), t) implies false by {}
                                lemma_index(self.w(), self.h(), a as int, b as int);
                                assert(!has_root(self.cells(), self.at(a as int, b as int)));
                            }
                            return Err(e);
                        },
                    }
                }
            },
            None => {
                let a = random_below(self.width);
                let b = random_below(self.height);
                match self.find_root(a, b) {
                    Ok(found) => found,
                    Err(e) => {
                        proof {
                            self.lemma_tree_has_roots(a as int, b as int);
                            assert forall|t: int| #[trigger] spanning_tree(before.cells(), t) implies false by {}
                            lemma_index(self.w(), self.h(), a as int, b as int);
                            assert(!has_root(self.cells(), self.at(a as int, b as int)));
                        }
                        return Err(e);
                    },
                }
            },
        };
        assert(origin matches Some((a, b)) ==> reaches(
            before.cells(),
            before.at(a as int, b as int),
            before.at(rx as int, ry as int),
        ));
        proof {
            lemma_index(self.w(), self.h(), rx as int, ry as int);
            vstd::set_lib::lemma_int_range(0, self.nodes@.len() as int);
            vstd::set_lib::lemma_len_subset(roots(self.nodes@), vstd::set_lib::set_int_range(0, self.nodes@.len() as int));
        }
        let neigh = self.get_neighbours(rx, ry);
        if neigh.len() > 0 {
            let next = neigh[neigh.len() - 1];
            assert(neigh@[neigh@.len() - 1] == next);
            self.shift_to((rx, ry), next);
            proof {
                let r = before.at(rx as int, ry as int);
                let c = before.at(next.0 as int, next.1 as int);
                lemma_index(self.w(), self.h(), next.0 as int, next.1 as int);
                assert(before.shifted(*self, rx, ry, next.0, next.1));
                if consistent(before.cells()) {
                    lemma_regrown_consistent(before.cells(), self.cells(), r, c);
                }
                if children_unique(before.cells()) {
                    lemma_regrown_unique(before.cells(), self.cells(), r, c);
                }
                assert forall|t: int| #[trigger] spanning_tree(before.cells(), t) implies spanning_tree(
                    self.cells(),
                    self.at(next.0 as int, next.1 as int),
                ) by {
                    assert(is_root(before.cells(), r));
                    lemma_regrown_spanning(before.cells(), self.cells(), t, c);
                }
                assert(before == *old(self));
                assert(old(self).shifted(*self, rx, ry, next.0, next.1) && (origin matches Some((a, b)) ==> reaches(
                    old(self).cells(),
                    old(self).at(a as int, b as int),
                    old(self).at(rx as int, ry as int),
                )));
                assert(old(self).regrowth(origin, *self, next.0, next.1));
            }
            Ok(next)
        } else {
            proof {
                assert forall|a: int, b: int| self.in_grid(a, b) implies !#[trigger] adjacent(rx as int, ry as int, a, b) by {
                    if adjacent(rx as int, ry as int, a, b) {
                        assert(neigh@.contains((a as u32, b as u32)));
                    }
                }
                assert(before.shifted(*self, rx, ry, rx, ry));
                assert forall|t: int| #[trigger] spanning_tree(before.cells(), t) implies spanning_tree(
                    self.cells(),
                    self.at(rx as int, ry as int),
                ) by {
                    assert(is_root(before.cells(), before.at(rx as int, ry as int)));
                }
                assert(before == *old(self));
                assert(old(self).shifted(*self, rx, ry, rx, ry) && (origin matches Some((a, b)) ==> reaches(
                    old(self).cells(),
                    old(self).at(a as int, b as int),
                    old(self).at(rx as int, ry as int),
                )));
                assert(old(self).regrowth(origin, *self, rx, ry));
            }
            Ok((rx, ry))
        }
    }

    /// In a spanning tree every chain reaches the root.
    proof fn lemma_tree_has_roots(self, x: int, y: int)
        requires
            self.wf(),
            self.in_grid(x, y),
        ensures
            forall|t: int| #[trigger] spanning_tree(self.cells(), t) ==> exists|k: nat|
                is_root(self.cells(), #[trigger] climb(self.cells(), self.at(x, y), k)),
    {
        lemma_index(self.w(), self.h(), x, y);
        assert forall|t: int| #[trigger] spanning_tree(self.cells(), t) implies exists|k: nat|
            is_root(self.cells(), #[trigger] climb(self.cells(), self.at(x, y), k)) by {
            assert(reaches(self.cells(), self.at(x, y), t));
            let k = choose|k: nat| climb(self.cells(), self.at(x, y), k) == t;
            assert(is_root(self.cells(), climb(self.cells(), self.at(x, y), k)));
        }
    }

    /// The parent that the comb-shaped tree gives cell `i`: the cell to its
    /// west, or in the first column the cell to its north; `(0, 0)` has none.
    pub open spec fn comb_parent(self, i: int) -> Option<usize> {
        let x = i % self.w();
        let y = i / self.w();
        if x > 0 {
            Some(self.at(x - 1, y) as usize)
        } else if y > 0 {
            Some(self.at(x, y - 1) as usize)
        } else {
            None
        }
    }

    /// Every cell has its comb parent.
    pub open spec fn is_comb(self) -> bool {
        forall|i: int| 0 <= i < self.cells().len() ==> #[trigger] self.cells()[i].target == self.comb_parent(i)
    }

    /// The comb is one tree over the grid, rooted at `(0, 0)`, in which no
    /// cell lies deeper than `width + height - 2`.
    pub proof fn lemma_comb_is_tree(self)
        requires
            self.wf(),
            self.is_comb(),
            consistent(self.cells()),
        ensures
            spanning_tree(self.cells(), 0),
            forall|i: int|
                0 <= i < self.cells().len() ==> #[trigger] climb(self.cells(), i, (self.w() + self.h() - 2) as nat)
                    == 0,
    {
        let nodes = self.cells();
        assert(self.w() * self.h() >= 1) by (nonlinear_arith)
            requires
                self.w() >= 1,
                self.h() >= 1,
        ;
        assert forall|i: int| 0 <= i < nodes.len() implies (#[trigger] is_root(nodes, i) <==> i == 0) by {
            self.lemma_cell_index(i);
            assert(nodes[i] == nodes[i]);
            lemma_index(self.w(), self.h(), nodes[i].x as int, nodes[i].y as int);
            assert(self.at(0, 0) == 0);
        }
        assert forall|i: int| 0 <= i < nodes.len() implies #[trigger] climb(self.cells(), i, (self.w() + self.h() - 2) as nat)
            == 0 by {
            self.lemma_cell_index(i);
            self.lemma_comb_depth(i, (self.w() + self.h() - 2) as nat);
        }
        assert forall|i: int| 0 <= i < nodes.len() implies #[trigger] reaches(nodes, i, 0) by {
            assert(climb(self.cells(), i, (self.w() + self.h() - 2) as nat) == 0);
        }
    }

    proof fn lemma_comb_depth(self, i: int, m: nat)
        requires
            self.wf(),
            self.is_comb(),
            0 <= i < self.cells().len(),
            m >= self.cells()[i].x + self.cells()[i].y,
        ensures
            climb(self.cells(), i, m) == 0,
        decreases m,
    {
        let nodes = self.cells();
        assert(nodes[i] == nodes[i]);
        self.lemma_cell_index(i);
        let x = nodes[i].x as int;
        let y = nodes[i].y as int;
        if x == 0 && y == 0 {
            lemma_index(self.w(), self.h(), 0, 0);
            assert(0 * self.w() + 0 == 0);
            assert(i == 0);
            assert(0int % self.w() == 0 && 0int / self.w() == 0);
            assert(self.comb_parent(0) is None);
            assert(nodes[0] == nodes[0]);
        } else {
            let (px, py) = if x > 0 {
                (x - 1, y)
            } else {
                (x, y - 1)
            };
            lemma_index(self.w(), self.h(), px, py);
            let p = self.at(px, py);
            assert(nodes[p] == nodes[p]);
            self.lemma_comb_depth(p, (m - 1) as nat);
        }
    }

    /// Cell `i` comes before `(x, y)` in the order in which the comb is
    /// built: column by column, each from north to south.
    pub open spec fn built_before(self, i: int, x: int, y: int) -> bool {
        let cx = self.cells()[i].x as int;
        let cy = self.cells()[i].y as int;
        cx < x || (cx == x && cy < y)
    }

    /// From a cleared grid, the comb has been built up to `(x, y)`.
    pub open spec fn comb_upto(self, x: int, y: int) -> bool {
        let nodes = self.cells();
        &&& forall|i: int|
            0 <= i < nodes.len() ==> #[trigger] nodes[i].target == (if self.built_before(i, x, y) {
                self.comb_parent(i)
            } else {
                None
            })
        &&& forall|q: int, k: int| #![trigger nodes[q].paths@[k]]
            0 <= q < nodes.len() && 0 <= k < nodes[q].paths@.len() ==> self.built_before(
                nodes[q].paths@[k] as int,
                x,
                y,
            ) && nodes[nodes[q].paths@[k] as int].target == Some(q as usize)
        &&& forall|i: int| #![trigger nodes[i]]
            0 <= i < nodes.len() && self.built_before(i, x, y) && nodes[i].target is Some
                ==> nodes[nodes[i].target->0 as int].paths@.contains(i as usize)
        &&& children_unique(nodes)
    }

    proof fn lemma_comb_step(self, before: Maze, x: int, y: int, c: int, p: int, fresh: bool)
        requires
            before.wf(),
            self.width == before.width,
            self.height == before.height,
            self.nodes@.len() == before.nodes@.len(),
            before.in_grid(x, y),
            x > 0 || y > 0,
            c == before.at(x, y),
            p == (if x > 0 { before.at(x - 1, y) } else { before.at(x, y - 1) }),
            0 <= p < before.nodes@.len(),
            0 <= c < before.nodes@.len(),
            c != p,
            forall|i: int| 0 <= i < self.nodes@.len() && i != c && i != p ==> #[trigger] self.nodes@[i] == before.nodes@[i],
            self.nodes@[c].x == before.nodes@[c].x,
            self.nodes@[c].y == before.nodes@[c].y,
            self.nodes@[c].paths == before.nodes@[c].paths,
            self.nodes@[c].target == Some(p as usize),
            self.nodes@[p].x == before.nodes@[p].x,
            self.nodes@[p].y == before.nodes@[p].y,
            self.nodes@[p].target == before.nodes@[p].target,
            self.nodes@[p].paths@ == before.nodes@[p].paths@.push(c as usize),
            fresh ==> before.comb_upto(x, y),
        ensures
            self.wf(),
            fresh ==> self.comb_upto(x, y + 1),
    {
        let n = self.nodes@.len();
        let nodes = self.nodes@;
        let old_nodes = before.nodes@;
        assert forall|i: int| #![trigger nodes[i]]
            0 <= i < n implies nodes[i].x == old_nodes[i].x && nodes[i].y == old_nodes[i].y by {
            assert(old_nodes[i] == old_nodes[i]);
        }
        assert forall|i: int, m: int| #![trigger nodes[i].paths@[m]]
            0 <= i < n && 0 <= m < nodes[i].paths@.len() implies nodes[i].paths@[m] < n by {
            assert(old_nodes[i] == old_nodes[i]);
            if i == p && m < old_nodes[p].paths@.len() {
                assert(nodes[i].paths@[m] == old_nodes[p].paths@[m]);
            }
        }
        assert forall|i: int| #![trigger nodes[i].target]
            0 <= i < n && nodes[i].target is Some implies nodes[i].target->0 < n by {
            assert(old_nodes[i] == old_nodes[i]);
        }
        assert(self.wf());
        if fresh {
            lemma_index(self.w(), self.h(), x, y);
            assert(nodes[c] == nodes[c]);
            assert(old_nodes[c] == old_nodes[c]);
            assert(self.comb_parent(c) == Some(p as usize));
            assert forall|i: int| 0 <= i < n implies #[trigger] nodes[i].target == (if self.built_before(i, x, y + 1) {
                self.comb_parent(i)
            } else {
                None
            }) by {
                assert(old_nodes[i] == old_nodes[i]);
                self.lemma_cell_index(i);
                before.lemma_cell_index(i);
                assert(before.comb_parent(i) == self.comb_parent(i));
            }
            assert forall|q: int, k: int| #![trigger nodes[q].paths@[k]]
                0 <= q < n && 0 <= k < nodes[q].paths@.len() implies self.built_before(nodes[q].paths@[k] as int, x, y + 1)
                && nodes[nodes[q].paths@[k] as int].target == Some(q as usize) by {
                assert(old_nodes[q] == old_nodes[q]);
                if q == p && k == old_nodes[p].paths@.len() {
                } else {
                    assert(nodes[q].paths@[k] == old_nodes[q].paths@[k]);
                    let v = old_nodes[q].paths@[k] as int;
                    assert(before.built_before(v, x, y));
                    assert(old_nodes[v] == old_nodes[v]);
                    assert(v != c);
                }
            }
            assert forall|i: int| #![trigger nodes[i]]
                0 <= i < n && self.built_before(i, x, y + 1) && nodes[i].target is Some implies nodes[nodes[i].target->0 as int].paths@.contains(
                i as usize,
            ) by {
                assert(old_nodes[i] == old_nodes[i]);
                if i == c {
                    assert(nodes[p].paths@[old_nodes[p].paths@.len() as int] == c as usize);
                } else {
                    self.lemma_cell_index(i);
                    let q = old_nodes[i].target->0 as int;
                    assert(old_nodes[q].paths@.contains(i as usize));
                    let m = choose|m: int| 0 <= m < old_nodes[q].paths@.len() && old_nodes[q].paths@[m] == i as usize;
                    assert(old_nodes[q] == old_nodes[q]);
                    assert(nodes[q].paths@[m] == i as usize);
                }
            }
            assert(!old_nodes[p].paths@.contains(c as usize)) by {
                if old_nodes[p].paths@.contains(c as usize) {
                    let m = choose|m: int| 0 <= m < old_nodes[p].paths@.len() && old_nodes[p].paths@[m] == c as usize;
                    assert(before.built_before(old_nodes[p].paths@[m] as int, x, y));
                }
            }
            assert forall|q: int| 0 <= q < n implies (#[trigger] nodes[q].paths@).no_duplicates() by {
                assert(old_nodes[q].paths@.no_duplicates());
                if q == p {
                    let s = old_nodes[p].paths@;
                    assert forall|a: int, b: int|
                        0 <= a < s.len() + 1 && 0 <= b < s.len() + 1 && a != b implies nodes[q].paths@[a]
                        != nodes[q].paths@[b] by {
                        if a == s.len() {
                            assert(nodes[q].paths@[b] == s[b]);
                        } else if b == s.len() {
                            assert(nodes[q].paths@[a] == s[a]);
                        }
                    }
                } else if q != c {
                    assert(nodes[q] == old_nodes[q]);
                }
            }
        }
    }

    proof fn lemma_comb_origin(self)
        requires
            self.wf(),
            self.comb_upto(0, 0),
        ensures
            self.comb_upto(0, 1),
    {
        let nodes = self.cells();
        lemma_index(self.w(), self.h(), 0, 0);
        assert forall|i: int| 0 <= i < nodes.len() implies #[trigger] nodes[i].target == (if self.built_before(i, 0, 1) {
            self.comb_parent(i)
        } else {
            None
        }) by {
            self.lemma_cell_index(i);
            assert(nodes[i] == nodes[i]);
        }
        assert forall|q: int, k: int| #![trigger nodes[q].paths@[k]]
            0 <= q < nodes.len() && 0 <= k < nodes[q].paths@.len() implies self.built_before(nodes[q].paths@[k] as int, 0, 1)
            && nodes[nodes[q].paths@[k] as int].target == Some(q as usize) by {
            assert(self.built_before(nodes[q].paths@[k] as int, 0, 0));
        }
        assert forall|i: int| #![trigger nodes[i]]
            0 <= i < nodes.len() && self.built_before(i, 0, 1) && nodes[i].target is Some implies nodes[nodes[i].target->0 as int].paths@.contains(
            i as usize,
        ) by {
            self.lemma_cell_index(i);
        }
    }

    proof fn lemma_comb_row(self, x: int)
        requires
            self.wf(),
            self.comb_upto(x, self.h()),
        ensures
            self.comb_upto(x + 1, 0),
    {
        let nodes = self.cells();
        assert forall|i: int| 0 <= i < nodes.len() implies self.built_before(i, x, self.h()) == self.built_before(
            i,
            x + 1,
            0,
        ) by {
            self.lemma_cell_index(i);
        }
        assert forall|i: int| 0 <= i < nodes.len() implies #[trigger] nodes[i].target == (if self.built_before(i, x + 1, 0) {
            self.comb_parent(i)
        } else {
            None
        }) by {
            assert(self.built_before(i, x, self.h()) == self.built_before(i, x + 1, 0));
        }
        assert forall|q: int, k: int| #![trigger nodes[q].paths@[k]]
            0 <= q < nodes.len() && 0 <= k < nodes[q].paths@.len() implies self.built_before(nodes[q].paths@[k] as int, x + 1, 0)
            && nodes[nodes[q].paths@[k] as int].target == Some(q as usize) by {
            let v = nodes[q].paths@[k] as int;
            assert(self.built_before(v, x, self.h()) == self.built_before(v, x + 1, 0));
        }
        assert forall|i: int| #![trigger nodes[i]]
            0 <= i < nodes.len() && self.built_before(i, x + 1, 0) && nodes[i].target is Some implies nodes[nodes[i].target->0 as int].paths@.contains(
            i as usize,
        ) by {
            assert(self.built_before(i, x, self.h()) == self.built_before(i, x + 1, 0));
        }
    }

    proof fn lemma_comb_done(self)
        requires
            self.wf(),
            self.comb_upto(self.w(), 0),
        ensures
            self.is_comb(),
            consistent(self.cells()),
    {
        let nodes = self.cells();
        assert forall|i: int| 0 <= i < nodes.len() implies #[trigger] self.built_before(i, self.w(), 0) by {
            self.lemma_cell_index(i);
        }
        assert forall|i: int| 0 <= i < nodes.len() implies #[trigger] nodes[i].target == self.comb_parent(i) by {
            assert(self.built_before(i, self.w(), 0));
        }
        assert forall|i: int| #![trigger nodes[i].target]
            0 <= i < nodes.len() && nodes[i].target is Some implies nodes[nodes[i].target->0 as int].paths@.contains(
            i as usize,
        ) by {
            assert(nodes[i] == nodes[i]);
            assert(self.built_before(i, self.w(), 0));
        }
    }

    /// The comb-shaped tree: every cell but `(0, 0)` becomes a child of the
    /// cell to its west, or in the first column of the cell to its north.
    /// From a cleared grid this is one tree rooted at `(0, 0)`. It does not
    /// clear first, and on a grid that already has edges the edges of the two
    /// trees mix.
    pub fn generate_template(&mut self)
        requires
            old(self).wf(),
        ensures
            final(self).wf(),
            final(self).w() == old(self).w(),
            final(self).h() == old(self).h(),
            cleared(old(self).cells()) ==> final(self).is_comb() && consistent(final(self).cells()),
            cleared(old(self).cells()) ==> children_unique(final(self).cells()),
            cleared(old(self).cells()) ==> spanning_tree(final(self).cells(), 0),
            cleared(old(self).cells()) ==> forall|i: int|
                0 <= i < final(self).cells().len() ==> #[trigger] climb(
                    final(self).cells(),
                    i,
                    (final(self).w() + final(self).h() - 2) as nat,
                ) == 0,
    {
        let ghost fresh = cleared(self.nodes@);
        let ghost n = self.nodes@.len();
        let ghost start = *self;
        let mut x: u32 = 0;
        while x < self.width
            invariant
                self.wf(),
                self.w() == old(self).w(),
                self.h() == old(self).h(),
                n == self.nodes@.len(),
                x <= self.width,
                fresh == cleared(start.nodes@),
                start.nodes@.len() == n,
                forall|i: int| #![trigger self.nodes@[i]]
                    0 <= i < n ==> self.nodes@[i].x == start.nodes@[i].x && self.nodes@[i].y == start.nodes@[i].y,
                fresh ==> self.comb_upto(x as int, 0),
            decreases self.width - x,
        {
            let mut y: u32 = 0;
            while y < self.height
                invariant
                    self.wf(),
                    self.w() == old(self).w(),
                    self.h() == old(self).h(),
                    n == self.nodes@.len(),
                    x < self.width,
                    y <= self.height,
                    fresh == cleared(start.nodes@),
                    start.nodes@.len() == n,
                    forall|i: int| #![trigger self.nodes@[i]]
                        0 <= i < n ==> self.nodes@[i].x == start.nodes@[i].x && self.nodes@[i].y == start.nodes@[i].y,
                    fresh ==> self.comb_upto(x as int, y as int),
                decreases self.height - y,
            {
                if x > 0 || y > 0 {
                    let c = self.index_of(x, y);
                    let p = if x > 0 {
                        self.index_of(x - 1, y)
                    } else {
                        self.index_of(x, y - 1)
                    };
                    let ghost before = *self;
                    self.nodes[c].target = Some(p);
                    self.nodes[p].paths.push(c);
                    proof {
                        lemma_index(self.w(), self.h(), x as int, y as int);
                        if x > 0 {
                            lemma_index(self.w(), self.h(), x - 1, y as int);
                        } else {
                            lemma_index(self.w(), self.h(), x as int, y - 1);
                        }
                        let nodes = self.nodes@;
                        assert(nodes[c as int].paths == before.nodes@[c as int].paths);
                        assert(nodes[p as int].paths@ == before.nodes@[p as int].paths@.push(c));
                        assert forall|i: int| 0 <= i < n && i != c && i != p implies #[trigger] nodes[i]
                            == before.nodes@[i] by {}
                        self.lemma_comb_step(before, x as int, y as int, c as int, p as int, fresh);
                    }
                } else {
                    proof {
                        if fresh {
                            self.lemma_comb_origin();
                        }
                    }
                }
                y = y + 1;
            }
            proof {
                if fresh {
                    self.lemma_comb_row(x as int);
                }
            }
            x = x + 1;
        }
        let o = self.index_of(0, 0);
        let ghost before = *self;
        self.nodes[o].target = None;
        proof {
            let nodes = self.nodes@;
            assert forall|i: int| #![trigger nodes[i]]
                0 <= i < n implies nodes[i].x == before.nodes@[i].x && nodes[i].y == before.nodes@[i].y
                && nodes[i].paths == before.nodes@[i].paths && (i != o ==> nodes[i].target
                == before.nodes@[i].target) by {
                assert(before.nodes@[i] == before.nodes@[i]);
            }
            assert forall|i: int, m: int| #![trigger nodes[i].paths@[m]]
                0 <= i < n && 0 <= m < nodes[i].paths@.len() implies nodes[i].paths@[m] < n by {
                assert(before.nodes@[i] == before.nodes@[i]);
            }
            if fresh {
                lemma_index(self.w(), self.h(), 0, 0);
                assert(before.comb_upto(self.w(), 0));
                assert(nodes =~= before.nodes@);
                self.lemma_comb_done();
                self.lemma_comb_is_tree();
            }
        }
    }

    /// Asking for the root of a root gives the same cell back: the chain
    /// from `(a, b)` meets a root, and the only root that it meets is
    /// `(a, b)` itself.
    pub proof fn lemma_find_root_idempotent(self, a: u32, b: u32)
        requires
            self.wf(),
            self.in_grid(a as int, b as int),
            is_root(self.cells(), self.at(a as int, b as int)),
        ensures
            exists|k: nat| is_root(self.cells(), #[trigger] climb(self.cells(), self.at(a as int, b as int), k)),
            forall|a2: u32, b2: u32|
                self.in_grid(a2 as int, b2 as int) && #[trigger] reaches(
                    self.cells(),
                    self.at(a as int, b as int),
                    self.at(a2 as int, b2 as int),
                ) ==> a2 == a && b2 == b,
    {
        let r = self.at(a as int, b as int);
        lemma_root_stays(self.cells(), r, 0);
        assert(is_root(self.cells(), climb(self.cells(), r, 0)));
        assert forall|a2: u32, b2: u32|
            self.in_grid(a2 as int, b2 as int) && #[trigger] reaches(
                self.cells(),
                self.at(a as int, b as int),
                self.at(a2 as int, b2 as int),
            ) implies a2 == a && b2 == b by {
            let k = choose|k: nat| climb(self.cells(), r, k) == self.at(a2 as int, b2 as int);
            lemma_root_stays(self.cells(), r, k);
            lemma_index(self.w(), self.h(), a as int, b as int);
            lemma_index(self.w(), self.h(), a2 as int, b2 as int);
        }
    }

    /// Builds a tree over the grid in the way `t` names; see
    /// `generate_random` and `generate_template`. `HUNTANDKILL` builds
    /// nothing.
    pub fn gen(&mut self, t: GenerationTypes)
        requires
            old(self).wf(),
        ensures
            final(self).wf(),
            final(self).w() == old(self).w(),
            final(self).h() == old(self).h(),
            t is DEPTHFIRST && cleared(old(self).cells()) ==> (exists|r: int| spanning_tree(final(self).cells(), r))
                && forall|i: int| 0 <= i < final(self).cells().len() ==> #[trigger] final(self).cells()[i].conn,
            t is DEPTHFIRST && cleared(old(self).cells()) ==> forall|i: int|
                0 <= i < final(self).cells().len() && #[trigger] final(self).cells()[i].target is Some ==> touching(
                    final(self).cells(),
                    i,
                    final(self).cells()[i].target->0 as int,
                ),
            t is TEMPLATE && cleared(old(self).cells()) ==> final(self).is_comb() && spanning_tree(
                final(self).cells(),
                0,
            ),
            !(t is HUNTANDKILL) && cleared(old(self).cells()) ==> children_unique(final(self).cells()),
            t is HUNTANDKILL ==> final(self).cells() == old(self).cells(),
    {
        match t {
            GenerationTypes::DEPTHFIRST => self.generate_random(),
            GenerationTypes::HUNTANDKILL => {},
            GenerationTypes::TEMPLATE => self.generate_template(),
        }
    }

    /// Whether the side of cell `i` in direction `d` opens onto its parent or
    /// one of its children.
    pub open spec fn opens(self, i: int, d: int) -> bool {
        let nodes = self.cells();
        let x = nodes[i].x as int;
        let y = nodes[i].y as int;
        ||| nodes[i].target matches Some(p) && lies(x, y, nodes[p as int].x as int, nodes[p as int].y as int, d)
        ||| exists|k: int|
            0 <= k < nodes[i].paths@.len() && #[trigger] lies(
                x,
                y,
                nodes[nodes[i].paths@[k] as int].x as int,
                nodes[nodes[i].paths@[k] as int].y as int,
                d,
            )
    }

    /// The open sides of `(x, y)`; a renderer draws walls on the others.
    pub fn open_sides(&self, x: u32, y: u32) -> (r: Sides)
        requires
            self.wf(),
            self.in_grid(x as int, y as int),
        ensures
            r.east == self.opens(self.at(x as int, y as int), 0),
            r.west == self.opens(self.at(x as int, y as int), 1),
            r.south == self.opens(self.at(x as int, y as int), 2),
            r.north == self.opens(self.at(x as int, y as int), 3),
    {
        let i = self.index_of(x, y);
        proof {
            lemma_index(self.w(), self.h(), x as int, y as int);
            assert(self.nodes@[i as int] == self.nodes@[i as int]);
        }
        let mut sides = Sides { east: false, west: false, south: false, north: false };
        if let Some(p) = self.nodes[i].target {
            let (a, b) = (self.nodes[p].x, self.nodes[p].y);
            sides = Sides { east: a > x, west: a < x, south: b > y, north: b < y };
        }
        let ghost nodes = self.nodes@;
        let ghost kids = self.nodes@[i as int].paths@;
        let mut k: usize = 0;
        while k < self.nodes[i].paths.len()
            invariant
                self.wf(),
                nodes == self.nodes@,
                kids == nodes[i as int].paths@,
                i < nodes.len(),
                x == nodes[i as int].x,
                y == nodes[i as int].y,
                k <= kids.len(),
                sides.east == ((nodes[i as int].target matches Some(p) && lies(x as int, y as int, nodes[p as int].x as int, nodes[p as int].y as int, 0))
                    || exists|m: int| 0 <= m < k && #[trigger] lies(x as int, y as int, nodes[kids[m] as int].x as int, nodes[kids[m] as int].y as int, 0)),
                sides.west == ((nodes[i as int].target matches Some(p) && lies(x as int, y as int, nodes[p as int].x as int, nodes[p as int].y as int, 1))
                    || exists|m: int| 0 <= m < k && #[trigger] lies(x as int, y as int, nodes[kids[m] as int].x as int, nodes[kids[m] as int].y as int, 1)),
                sides.south == ((nodes[i as int].target matches Some(p) && lies(x as int, y as int, nodes[p as int].x as int, nodes[p as int].y as int, 2))
                    || exists|m: int| 0 <= m < k && #[trigger] lies(x as int, y as int, nodes[kids[m] as int].x as int, nodes[kids[m] as int].y as int, 2)),
                sides.north == ((nodes[i as int].target matches Some(p) && lies(x as int, y as int, nodes[p as int].x as int, nodes[p as int].y as int, 3))
                    || exists|m: int| 0 <= m < k && #[trigger] lies(x as int, y as int, nodes[kids[m] as int].x as int, nodes[kids[m] as int].y as int, 3)),
            decreases kids.len() - k,
        {
            let c = self.nodes[i].paths[k];
            let (a, b) = (self.nodes[c].x, self.nodes[c].y);
            proof {
                assert(kids[k as int] == c);
                assert(lies(x as int, y as int, a as int, b as int, 0) == (a > x));
                assert(lies(x as int, y as int, a as int, b as int, 1) == (a < x));
                assert(lies(x as int, y as int, a as int, b as int, 2) == (b > y));
                assert(lies(x as int, y as int, a as int, b as int, 3) == (b < y));
            }
            sides = Sides {
                east: sides.east || a > x,
                west: sides.west || a < x,
                south: sides.south || b > y,
                north: sides.north || b < y,
            };
            k = k + 1;
        }
        sides
    }

    /// Number of columns.
    pub fn width(&self) -> (r: u32)
        ensures
            r == self.w(),
    {
        self.width
    }

    /// Number of rows.
    pub fn height(&self) -> (r: u32)
        ensures
            r == self.h(),
    {
        self.height
    }

    /// The cell at `(x, y)`.
    pub fn node(&self, x: u32, y: u32) -> (r: &Node)
        requires
            self.wf(),
            self.in_grid(x as int, y as int),
        ensures
            *r == self.cells()[self.at(x as int, y as int)],
    {
        let i = self.index_of(x, y);
        &self.nodes[i]
    }

    /// Whether `(x, y)` has been taken into the tree by the randomized walk.
    pub fn is_visited(&self, x: u32, y: u32) -> (r: bool)
        requires
            self.wf(),
            self.in_grid(x as int, y as int),
        ensures
            r == self.cells()[self.at(x as int, y as int)].conn,
    {
        let i = self.index_of(x, y);
        self.nodes[i].conn
    }

    /// The coordinates of the parent of `(x, y)`, if it has one.
    pub fn parent(&self, x: u32, y: u32) -> (r: Option<(u32, u32)>)
        requires
            self.wf(),
            self.in_grid(x as int, y as int),
        ensures
            r is Some <==> self.cells()[self.at(x as int, y as int)].target is Some,
            r matches Some((a, b)) ==> self.in_grid(a as int, b as int) && self.at(a as int, b as int)
                == self.cells()[self.at(x as int, y as int)].target->0,
    {
        let i = self.index_of(x, y);
        match self.nodes[i].target {
            Some(p) => {
                proof {
                    self.lemma_cell_index(p as int);
                }
                Some((self.nodes[p].x, self.nodes[p].y))
            },
            None => None,
        }
    }

    /// The coordinates of the children of `(x, y)`, in the order they were
    /// attached.
    pub fn children(&self, x: u32, y: u32) -> (r: Vec<(u32, u32)>)
        requires
            self.wf(),
            self.in_grid(x as int, y as int),
        ensures
            r@.len() == self.cells()[self.at(x as int, y as int)].paths@.len(),
            forall|k: int| #![trigger r@[k]]
                0 <= k < r@.len() ==> self.in_grid(r@[k].0 as int, r@[k].1 as int) && self.at(r@[k].0 as int, r@[k].1 as int)
                    == self.cells()[self.at(x as int, y as int)].paths@[k],
    {
        let i = self.index_of(x, y);
        let mut r: Vec<(u32, u32)> = Vec::new();
        let mut k: usize = 0;
        while k < self.nodes[i].paths.len()
            invariant
                self.wf(),
                i < self.nodes@.len(),
                i == self.at(x as int, y as int),
                k <= self.nodes@[i as int].paths@.len(),
                r@.len() == k,
                forall|m: int| #![trigger r@[m]]
                    0 <= m < k ==> self.in_grid(r@[m].0 as int, r@[m].1 as int) && self.at(r@[m].0 as int, r@[m].1 as int)
                        == self.nodes@[i as int].paths@[m],
            decreases self.nodes@[i as int].paths@.len() - k,
        {
            let c = self.nodes[i].paths[k];
            proof {
                assert(self.nodes@[i as int] == self.nodes@[i as int]);
                self.lemma_cell_index(c as int);
            }
            r.push((self.nodes[c].x, self.nodes[c].y));
            k = k + 1;
        }
        r
    }

    /// Resets every cell to unvisited, without children or parent.
    pub fn clear(&mut self)
        requires
            old(self).wf(),
        ensures
            final(self).wf(),
            final(self).w() == old(self).w(),
            final(self).h() == old(self).h(),
            cleared(final(self).cells()),
    {
        let n = self.nodes.len();
        let mut i: usize = 0;
        while i < n
            invariant
                old(self).wf(),
                n == self.nodes@.len(),
                edges_in_range(self.nodes@),
                self.width == old(self).width,
                self.height == old(self).height,
                self.nodes@.len() == old(self).nodes@.len(),
                i <= n,
                forall|j: int| #![trigger self.nodes@[j]]
                    0 <= j < n ==> self.nodes@[j].x == old(self).nodes@[j].x && self.nodes@[j].y
                        == old(self).nodes@[j].y,
                forall|j: int| #![trigger self.nodes@[j]]
                    0 <= j < i ==> !self.nodes@[j].conn && self.nodes@[j].paths@.len() == 0
                        && self.nodes@[j].target is None,
                forall|j: int| #![trigger self.nodes@[j]]
                    i <= j < n ==> self.nodes@[j] == old(self).nodes@[j],
            decreases n - i,
        {
            let cell = Node::new(self.nodes[i].x, self.nodes[i].y);
            self.nodes.set(i, cell);
            i = i + 1;
        }
    }
}

} // verus!
