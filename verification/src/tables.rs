//! The tables of a pyramid puzzle: a triangle of cells, row `i` holding
//! `i + 1` of them, each cell numbered row by row, with one ball in each.

use crate::mcg::Mcg;
use vstd::prelude::*;

verus! {

/// Largest number of rows a pyramid may have.
pub const MAX_ROWS: usize = 1024;

/// The number of cells in the first `i` rows.
pub open spec fn tri(i: nat) -> nat
    decreases i,
{
    if i == 0 {
        0
    } else {
        tri((i - 1) as nat) + i
    }
}

pub proof fn lemma_tri_mono(a: nat, b: nat)
    requires
        a <= b,
    ensures
        tri(a) <= tri(b),
    decreases b,
{
    if a < b {
        lemma_tri_mono(a, (b - 1) as nat);
    }
}

pub proof fn lemma_tri_bound(n: nat)
    requires
        n <= MAX_ROWS,
    ensures
        tri(n) <= 1024 * n,
    decreases n,
{
    if n > 0 {
        lemma_tri_bound((n - 1) as nat);
    }
}

/// The row step of direction `d`: up-left, up-right, right, down-right,
/// down-left, left.
pub open spec fn di(d: int) -> int {
    if d == 0 || d == 1 {
        -1
    } else if d == 3 || d == 4 {
        1
    } else {
        0
    }
}

/// The column step of direction `d`.
pub open spec fn dj(d: int) -> int {
    if d == 0 || d == 5 {
        -1
    } else if d == 2 || d == 3 {
        1
    } else {
        0
    }
}

/// The number of the cell next to cell `(i, j)` in direction `d`, in a
/// pyramid of `n` rows; the number of cells where there is none.
pub open spec fn nb(n: int, i: int, j: int, d: int) -> int {
    let ni = i + di(d);
    let nj = j + dj(d);
    if 0 <= ni < n && 0 <= nj <= ni {
        tri(ni as nat) + nj
    } else {
        tri(n as nat) as int
    }
}

/// Why a pyramid could not be built from what was given.
#[derive(Clone, Copy, Debug, PartialEq, Eq)]
pub enum InputError {
    /// The number of rows is 0 or above [`MAX_ROWS`].
    BadRows,
    /// The grid does not have one entry for each cell.
    BadLength,
    /// The grid does not hold each ball once.
    NotPermutation,
}

/// One or two swaps of the balls in two cells each; a second swap that
/// starts at the number of cells is no swap.
#[derive(Clone, Copy, Debug, PartialEq, Eq)]
pub struct Op {
    pub first: (usize, usize),
    pub second: (usize, usize),
}

/// A move of two swaps: the cell two rows up whose ball comes down, and the
/// swaps that bring it down.
pub type Hop = (usize, Op);

/// The tables of one problem instance.
pub struct Input {
    pub(crate) n: usize,
    pub(crate) grid: Vec<usize>,
    pub(crate) home: Vec<usize>,
    pub(crate) zob: Vec<u64>,
    pub(crate) dd: Vec<[usize; 6]>,
    pub(crate) dd2: Vec<[Hop; 4]>,
    pub(crate) height: Vec<i64>,
    pub(crate) to_pos: Vec<(usize, usize)>,
}

/// The fingerprint of cell `p`: the number that the generator gives at its
/// step `p + 1` from the seed 0.
pub open spec fn print_of(p: int) -> u64 {
    crate::mcg::out(crate::mcg::state_at(0, (p + 1) as nat))
}

impl Input {
    /// The number of rows.
    pub open(crate) spec fn rows(&self) -> nat {
        self.n as nat
    }

    /// The number of cells.
    pub open(crate) spec fn cells(&self) -> nat {
        self.grid@.len()
    }

    /// The ball that each cell holds at the start.
    pub open(crate) spec fn balls(&self) -> Seq<usize> {
        self.grid@
    }

    /// The cell that each ball lies in at the start.
    pub open(crate) spec fn homes(&self) -> Seq<usize> {
        self.home@
    }

    /// The fingerprint of each cell.
    pub open(crate) spec fn prints(&self) -> Seq<u64> {
        self.zob@
    }

    /// The cell next to cell `p` in direction `d`; the number of cells where
    /// there is none.
    pub open(crate) spec fn next_to(&self, p: int, d: int) -> int {
        self.dd@[p][d] as int
    }

    /// The weight of cell `p` in the score: its row.
    pub open(crate) spec fn weight(&self, p: int) -> int {
        self.height@[p] as int
    }

    /// Row and column of cell `p`.
    pub open(crate) spec fn place(&self, p: int) -> (usize, usize) {
        self.to_pos@[p]
    }

    /// The move of two swaps number `j` from cell `p`.
    pub open(crate) spec fn hop(&self, p: int, j: int) -> Hop {
        self.dd2@[p][j]
    }

    /// What the move of two swaps number `j` from cell `p` must be: through
    /// the cell `mp` above `p` on the left (`j` even) or right (`j` odd), to
    /// the cell `np` above `mp` on the left (`j < 2`) or right.
    pub open(crate) spec fn hop_spec(&self, p: int, j: int) -> Hop {
        hop_of(self.dd@, self.grid@.len() as usize, p, j)
    }

    /// The tables are those of a pyramid of `rows()` rows, and the grid
    /// holds each ball once.
    pub open(crate) spec fn wf(&self) -> bool {
        let l = self.grid@.len();
        &&& 1 <= self.n <= MAX_ROWS
        &&& l == tri(self.n as nat)
        &&& l <= 1024 * 1024
        &&& self.home@.len() == l
        &&& self.zob@.len() == l
        &&& self.dd@.len() == l
        &&& self.dd2@.len() == l
        &&& self.height@.len() == l
        &&& self.to_pos@.len() == l
        &&& forall|i: int| 0 <= i < l ==> (#[trigger] self.grid@[i]) < l
            && self.home@[self.grid@[i] as int] == i
        &&& forall|k: int| 0 <= k < l ==> (#[trigger] self.home@[k]) < l
            && self.grid@[self.home@[k] as int] == k
        &&& forall|p: int|
            0 <= p < l ==> 0 <= (#[trigger] self.to_pos@[p]).1 <= self.to_pos@[p].0 < self.n && p
                == tri(self.to_pos@[p].0 as nat) + self.to_pos@[p].1
        &&& forall|p: int| 0 <= p < l ==> (#[trigger] self.height@[p]) == self.to_pos@[p].0
        &&& forall|p: int, d: int|
            0 <= p < l && 0 <= d < 6 ==> (#[trigger] self.dd@[p][d]) == nb(
                self.n as int,
                self.to_pos@[p].0 as int,
                self.to_pos@[p].1 as int,
                d,
            )
        &&& forall|p: int, d: int|
            0 <= p < l && 0 <= d < 6 ==> (#[trigger] self.dd@[p][d]) <= l && self.dd@[p][d] != p
        &&& forall|p: int, j: int|
            0 <= p < l && 0 <= j < 4 ==> (#[trigger] self.dd2@[p][j]) == self.hop_spec(p, j)
    }

    /// The number of rows.
    pub fn n(&self) -> (r: usize)
        ensures
            r == self.rows(),
    {
        self.n
    }

    /// The number of cells.
    pub fn len(&self) -> (r: usize)
        ensures
            r == self.cells(),
    {
        self.grid.len()
    }

    /// The ball that cell `p` holds at the start.
    pub fn grid(&self, p: usize) -> (r: usize)
        requires
            p < self.cells(),
        ensures
            r == self.balls()[p as int],
    {
        self.grid[p]
    }

    /// The fingerprint of cell `p`.
    pub fn zob(&self, p: usize) -> (r: u64)
        requires
            self.wf(),
            p < self.cells(),
        ensures
            r == self.prints()[p as int],
    {
        self.zob[p]
    }

    /// The cell next to cell `p` in direction `d`; the number of cells where
    /// there is none.
    pub fn dd(&self, p: usize, d: usize) -> (r: usize)
        requires
            self.wf(),
            p < self.cells(),
            d < 6,
        ensures
            r == self.next_to(p as int, d as int),
            r == nb(
                self.rows() as int,
                self.place(p as int).0 as int,
                self.place(p as int).1 as int,
                d as int,
            ),
    {
        self.dd[p][d]
    }

    /// The move of two swaps number `j` from cell `p`.
    pub fn dd2(&self, p: usize, j: usize) -> (r: Hop)
        requires
            self.wf(),
            p < self.cells(),
            j < 4,
        ensures
            r == self.hop(p as int, j as int),
            r == self.hop_spec(p as int, j as int),
    {
        self.dd2[p][j]
    }

    /// The weight of cell `p` in the score: its row.
    pub fn height(&self, p: usize) -> (r: i64)
        requires
            self.wf(),
            p < self.cells(),
        ensures
            r == self.weight(p as int),
            r == self.place(p as int).0,
    {
        self.height[p]
    }

    /// Row and column of cell `p`.
    pub fn to_pos(&self, p: usize) -> (r: (usize, usize))
        requires
            self.wf(),
            p < self.cells(),
        ensures
            r == self.place(p as int),
    {
        self.to_pos[p]
    }
}

/// The neighbour of a cell differs from the cell and is a cell or the number
/// of cells.
pub proof fn lemma_nb(n: int, i: int, j: int, d: int)
    requires
        0 <= j <= i < n,
        0 <= d < 6,
    ensures
        0 <= nb(n, i, j, d) <= tri(n as nat),
        nb(n, i, j, d) != tri(i as nat) + j,
{
    let ni = i + di(d);
    let nj = j + dj(d);
    if 0 <= ni < n && 0 <= nj <= ni {
        lemma_tri_mono((ni + 1) as nat, n as nat);
        assert(tri((ni + 1) as nat) == tri(ni as nat) + ni + 1);
        if ni < i {
            assert(tri(i as nat) == tri(ni as nat) + i);
        } else if ni > i {
            assert(tri(ni as nat) == tri(i as nat) + ni);
        }
    } else {
        lemma_tri_mono((i + 1) as nat, n as nat);
        assert(tri((i + 1) as nat) == tri(i as nat) + i + 1);
    }
}

/// The number of the cell next to cell `(i, j)` in direction `d`.
fn neighbor(n: usize, base: &Vec<usize>, i: usize, j: usize, d: usize) -> (r: usize)
    requires
        1 <= n <= MAX_ROWS,
        base@.len() == n + 1,
        forall|r: int| 0 <= r <= n ==> #[trigger] base@[r] == tri(r as nat),
        j <= i < n,
        d < 6,
    ensures
        r == nb(n as int, i as int, j as int, d as int),
{
    proof {
        lemma_tri_bound(n as nat);
        lemma_nb(n as int, i as int, j as int, d as int);
    }
    let l = base[n];
    if d == 0 {
        if i >= 1 && j >= 1 {
            base[i - 1] + (j - 1)
        } else {
            l
        }
    } else if d == 1 {
        if i >= 1 && j <= i - 1 {
            base[i - 1] + j
        } else {
            l
        }
    } else if d == 2 {
        if j + 1 <= i {
            base[i] + j + 1
        } else {
            l
        }
    } else if d == 3 {
        if i + 1 < n {
            base[i + 1] + j + 1
        } else {
            l
        }
    } else if d == 4 {
        if i + 1 < n {
            base[i + 1] + j
        } else {
            l
        }
    } else {
        if j >= 1 {
            base[i] + j - 1
        } else {
            l
        }
    }
}

impl Input {
    /// Builds the tables of a pyramid of `n` rows whose cells hold, in the
    /// order of their numbers, the balls of `i_grid`.
    #[verifier::rlimit(60)]
    pub fn input(n: usize, i_grid: Vec<usize>) -> (r: Result<Input, InputError>)
        ensures
            r matches Ok(t) ==> t.wf() && t.rows() == n && t.balls() == i_grid@,
            r matches Ok(t) ==> forall|p: int|
                0 <= p < t.prints().len() ==> #[trigger] t.prints()[p] == print_of(p),
            r is Ok <==> 1 <= n <= MAX_ROWS && i_grid@.len() == tri(n as nat) && each_once(i_grid@),
            r matches Err(e) ==> {
                &&& e == InputError::BadRows <==> !(1 <= n <= MAX_ROWS)
                &&& e == InputError::BadLength <==> 1 <= n <= MAX_ROWS && i_grid@.len() != tri(
                    n as nat,
                )
            },
    {
        if n < 1 || n > MAX_ROWS {
            return Err(InputError::BadRows);
        }
        proof {
            lemma_tri_bound(n as nat);
        }
        let mut base: Vec<usize> = Vec::new();
        base.push(0);
        let mut r: usize = 0;
        while r < n
            invariant
                r <= n <= MAX_ROWS,
                base@.len() == r + 1,
                forall|k: int| 0 <= k <= r ==> #[trigger] base@[k] == tri(k as nat),
            decreases n - r,
        {
            proof {
                lemma_tri_bound((r + 1) as nat);
            }
            let next = base[r] + r + 1;
            base.push(next);
            r = r + 1;
        }
        let l = base[n];
        if i_grid.len() != l {
            return Err(InputError::BadLength);
        }
        let mut to_pos: Vec<(usize, usize)> = Vec::new();
        let mut height: Vec<i64> = Vec::new();
        let mut i: usize = 0;
        while i < n
            invariant
                i <= n <= MAX_ROWS,
                base@.len() == n + 1,
                forall|k: int| 0 <= k <= n ==> #[trigger] base@[k] == tri(k as nat),
                to_pos@.len() == tri(i as nat),
                height@.len() == tri(i as nat),
                forall|p: int|
                    0 <= p < to_pos@.len() ==> 0 <= (#[trigger] to_pos@[p]).1 <= to_pos@[p].0 < n && p
                        == tri(to_pos@[p].0 as nat) + to_pos@[p].1,
                forall|p: int| 0 <= p < height@.len() ==> (#[trigger] height@[p]) == to_pos@[p].0,
            decreases n - i,
        {
            let mut j: usize = 0;
            while j <= i
                invariant
                    j <= i + 1,
                    i < n <= MAX_ROWS,
                    to_pos@.len() == tri(i as nat) + j,
                    height@.len() == tri(i as nat) + j,
                    forall|p: int|
                        0 <= p < to_pos@.len() ==> 0 <= (#[trigger] to_pos@[p]).1 <= to_pos@[p].0 < n
                            && p == tri(to_pos@[p].0 as nat) + to_pos@[p].1,
                    forall|p: int|
                        0 <= p < height@.len() ==> (#[trigger] height@[p]) == to_pos@[p].0,
                decreases i + 1 - j,
            {
                to_pos.push((i, j));
                height.push(i as i64);
                j = j + 1;
            }
            i = i + 1;
        }
        let mut home: Vec<usize> = Vec::new();
        let mut k: usize = 0;
        while k < l
            invariant
                k <= l,
                home@.len() == k,
                forall|q: int| 0 <= q < k ==> #[trigger] home@[q] == l,
            decreases l - k,
        {
            home.push(l);
            k = k + 1;
        }
        let mut c: usize = 0;
        while c < l
            invariant
                c <= l,
                l == i_grid@.len(),
                1 <= n <= MAX_ROWS,
                l == tri(n as nat),
                home@.len() == l,
                forall|b: int, q: int|
                    0 <= b < l && 0 <= q < c && #[trigger] home@[b] == l ==> #[trigger] i_grid@[q]
                        != b,
                forall|q: int, q2: int| 0 <= q < q2 < c ==> i_grid@[q] != i_grid@[q2],
                forall|q: int| 0 <= q < c ==> (#[trigger] i_grid@[q]) < l
                    && home@[i_grid@[q] as int] == q,
                forall|b: int|
                    0 <= b < l ==> (#[trigger] home@[b]) == l || (home@[b] < c
                        && i_grid@[home@[b] as int]
                        == b),
            decreases l - c,
        {
            let g = i_grid[c];
            if g >= l || home[g] != l {
                proof {
                    if g < l {
                        let q = home@[g as int] as int;
                        assert(i_grid@[q] == i_grid@[c as int]);
                    }
                }
                return Err(InputError::NotPermutation);
            }
            home[g] = c;
            c = c + 1;
        }
        let mut b: usize = 0;
        while b < l
            invariant
                b <= l,
                l == i_grid@.len(),
                1 <= n <= MAX_ROWS,
                l == tri(n as nat),
                home@.len() == l,
                forall|q: int| 0 <= q < b ==> (#[trigger] home@[q]) != l,
                forall|b2: int, q: int|
                    0 <= b2 < l && 0 <= q < l && #[trigger] home@[b2] == l ==> #[trigger] i_grid@[q]
                        != b2,
            decreases l - b,
        {
            if home[b] == l {
                proof {
                    if i_grid@.contains(b) {
                        let q = choose|q: int| 0 <= q < i_grid@.len() && i_grid@[q] == b;
                        assert(home@[b as int] == l);
                        assert(i_grid@[q] != b);
                    }
                }
                return Err(InputError::NotPermutation);
            }
            b = b + 1;
        }
        proof {
            assert forall|b2: usize| b2 < l implies #[trigger] i_grid@.contains(b2) by {
                let i = home@[b2 as int] as int;
                assert(i_grid@[i] == b2);
            }
            assert(each_once(i_grid@));
        }
        let mut rng = Mcg::new(0);
        let mut zob: Vec<u64> = Vec::new();
        let mut z: usize = 0;
        while z < l
            invariant
                z <= l,
                zob@.len() == z,
                rng.state() == crate::mcg::state_at(0, z as nat),
                forall|p: int| 0 <= p < z ==> #[trigger] zob@[p] == print_of(p),
            decreases l - z,
        {
            let x = rng.next_u64();
            zob.push(x);
            z = z + 1;
        }
        let mut dd: Vec<[usize; 6]> = Vec::new();
        let mut p: usize = 0;
        while p < l
            invariant
                p <= l,
                1 <= n <= MAX_ROWS,
                l == tri(n as nat),
                base@.len() == n + 1,
                forall|k: int| 0 <= k <= n ==> #[trigger] base@[k] == tri(k as nat),
                to_pos@.len() == l,
                forall|q: int|
                    0 <= q < to_pos@.len() ==> 0 <= (#[trigger] to_pos@[q]).1 <= to_pos@[q].0 < n && q
                        == tri(to_pos@[q].0 as nat) + to_pos@[q].1,
                dd@.len() == p,
                forall|q: int, d: int|
                    0 <= q < p && 0 <= d < 6 ==> (#[trigger] dd@[q][d]) == nb(
                        n as int,
                        to_pos@[q].0 as int,
                        to_pos@[q].1 as int,
                        d,
                    ),
            decreases l - p,
        {
            let (ci, cj) = to_pos[p];
            let mut arr: [usize; 6] = [l;6];
            let mut d: usize = 0;
            while d < 6
                invariant
                    d <= 6,
                    1 <= n <= MAX_ROWS,
                    base@.len() == n + 1,
                    forall|k: int| 0 <= k <= n ==> #[trigger] base@[k] == tri(k as nat),
                    cj <= ci < n,
                    forall|e: int|
                        0 <= e < d ==> (#[trigger] arr[e]) == nb(n as int, ci as int, cj as int, e),
                decreases 6 - d,
            {
                let x = neighbor(n, &base, ci, cj, d);
                arr[d] = x;
                d = d + 1;
            }
            dd.push(arr);
            p = p + 1;
        }
        proof {
            assert forall|q: int, d: int| 0 <= q < l && 0 <= d < 6 implies (#[trigger] dd@[q][d]) <= l
                && dd@[q][d] != q by {
                lemma_nb(n as int, to_pos@[q].0 as int, to_pos@[q].1 as int, d);
            }
        }
        let mut dd2: Vec<[Hop; 4]> = Vec::new();
        let mut cell: usize = 0;
        while cell < l
            invariant
                cell <= l,
                l == i_grid@.len(),
                dd@.len() == l,
                forall|q: int, d: int|
                    0 <= q < l && 0 <= d < 6 ==> (#[trigger] dd@[q][d]) <= l && dd@[q][d] != q,
                dd2@.len() == cell,
                forall|q: int, j: int|
                    0 <= q < cell && 0 <= j < 4 ==> (#[trigger] dd2@[q][j]) == hop_of(dd@, l, q, j),
            decreases l - cell,
        {
            let mut arr: [Hop; 4] = [(l, Op { first: (l, l), second: (l, l) });4];
            let mut j: usize = 0;
            while j < 4
                invariant
                    j <= 4,
                    cell < l,
                    dd@.len() == l,
                    forall|q: int, d: int|
                        0 <= q < l && 0 <= d < 6 ==> (#[trigger] dd@[q][d]) <= l && dd@[q][d] != q,
                    forall|e: int| 0 <= e < j ==> (#[trigger] arr[e]) == hop_of(dd@, l, cell as int, e),
                decreases 4 - j,
            {
                let mp = dd[cell][j % 2];
                if mp != l {
                    let np = dd[mp][j / 2];
                    arr[j] = (np, Op { first: (np, mp), second: (mp, cell) });
                } else {
                    arr[j] = (l, Op { first: (l, l), second: (l, l) });
                }
                j = j + 1;
            }
            dd2.push(arr);
            cell = cell + 1;
        }
        let t = Input { n, grid: i_grid, home, zob, dd, dd2, height, to_pos };
        proof {
            assert forall|q: int, j: int| 0 <= q < l && 0 <= j < 4 implies (#[trigger] t.dd2@[q][j])
                == t.hop_spec(q, j) by {
                assert(t.dd2@[q][j] == hop_of(t.dd@, l, q, j));
            }
        }
        Ok(t)
    }
}

/// `g` holds each of the numbers below its length once.
pub open spec fn each_once(g: Seq<usize>) -> bool {
    &&& forall|i: int| 0 <= i < g.len() ==> (#[trigger] g[i]) < g.len()
    &&& forall|i: int, j: int| 0 <= i < j < g.len() ==> g[i] != g[j]
    &&& forall|b: usize| b < g.len() ==> #[trigger] g.contains(b)
}

/// The move of two swaps number `j` from cell `p`, read off the table of
/// neighbours `dd` of a pyramid of `l` cells.
pub open spec fn hop_of(dd: Seq<[usize; 6]>, l: usize, p: int, j: int) -> Hop {
    let mp = dd[p][j % 2];
    if mp == l {
        (l, Op { first: (l, l), second: (l, l) })
    } else {
        let np = dd[mp as int][j / 2];
        (np, Op { first: (np, mp), second: (mp, p as usize) })
    }
}

} // verus!
