//! A crane on a rectangular yard: where it stands, what it carries, and the
//! moves it makes. A crane keeps a fingerprint of its own situation and the
//! set of fingerprints it has been through, so that a search can keep it
//! from going round in circles.

use crate::ops::{code, Operation};
use crate::zobrist::ZobristHashSet;
use std::collections::HashSet;
use vstd::prelude::*;

verus! {

/// Largest number of rows or columns of a yard.
pub const MAX_SIDE: usize = 8;

/// Largest number a container may have, plus one.
pub const MAX_CONT: i64 = 0x8000_0000;

/// The instance: the side of the yard, and for each row the containers that
/// come in there, in order.
pub struct Input {
    pub n: usize,
    pub a: Vec<Vec<i64>>,
}

impl Input {
    /// The yard has a side in range, and each row has that many containers
    /// coming in, each with a number below the square of the side.
    pub open spec fn ok(&self) -> bool {
        &&& 1 <= self.n <= MAX_SIDE
        &&& self.a@.len() == self.n
        &&& forall|i: int| 0 <= i < self.n ==> (#[trigger] self.a@[i])@.len() == self.n
        &&& forall|i: int, j: int|
            0 <= i < self.n && 0 <= j < self.n ==> 0 <= (#[trigger] self.a@[i]@[j]) < self.n
                * self.n
    }

    /// Whether the yard is in order: a side in range, and in every row as
    /// many containers as the side says, each with a number of the yard.
    pub fn valid(&self) -> (r: bool)
        ensures
            r == self.ok(),
    {
        let n = self.n;
        if n < 1 || n > MAX_SIDE || self.a.len() != n {
            return false;
        }
        proof {
            assert(n * n <= 64) by (nonlinear_arith)
                requires
                    1 <= n <= 8,
            ;
        }
        let mut i: usize = 0;
        while i < n
            invariant
                i <= n,
                n == self.n,
                1 <= n <= MAX_SIDE,
                n * n <= 64,
                self.a@.len() == n,
                forall|r: int| 0 <= r < i ==> (#[trigger] self.a@[r])@.len() == n,
                forall|r: int, j: int|
                    0 <= r < i && 0 <= j < n ==> 0 <= (#[trigger] self.a@[r]@[j]) < n * n,
            decreases n - i,
        {
            if self.a[i].len() != n {
                return false;
            }
            let mut j: usize = 0;
            while j < n
                invariant
                    i < n,
                    j <= n,
                    n == self.n,
                    n * n <= 64,
                    self.a@.len() == n,
                    self.a@[i as int]@.len() == n,
                    forall|q: int| 0 <= q < j ==> 0 <= (#[trigger] self.a@[i as int]@[q]) < n * n,
                decreases n - j,
            {
                let c = self.a[i][j];
                if c < 0 || c >= (n * n) as i64 {
                    return false;
                }
                j = j + 1;
            }
            i = i + 1;
        }
        true
    }
}

/// The step in rows that direction `dir` makes: right, down, left, up.
pub open spec fn dx_spec(dir: int) -> int {
    if dir == 1 {
        1
    } else if dir == 3 {
        -1
    } else {
        0
    }
}

/// The step in columns that direction `dir` makes.
pub open spec fn dy_spec(dir: int) -> int {
    if dir == 0 {
        1
    } else if dir == 2 {
        -1
    } else {
        0
    }
}

/// The step in rows that direction `dir` makes.
pub fn dx(dir: usize) -> (r: isize)
    requires
        dir < 4,
    ensures
        r == dx_spec(dir as int),
{
    if dir == 1 {
        1
    } else if dir == 3 {
        -1
    } else {
        0
    }
}

/// The step in columns that direction `dir` makes.
pub fn dy(dir: usize) -> (r: isize)
    requires
        dir < 4,
    ensures
        r == dy_spec(dir as int),
{
    if dir == 0 {
        1
    } else if dir == 2 {
        -1
    } else {
        0
    }
}

/// The letter that stands for direction `dir` in the output.
pub open spec fn dir_char(dir: int) -> char {
    if dir == 0 {
        'R'
    } else if dir == 1 {
        'D'
    } else if dir == 2 {
        'L'
    } else {
        'U'
    }
}

/// The layer of a cell that a crane works on: a large crane carries its
/// container above the ground, on layer 1, a small one on layer 0.
pub open spec fn layer(big: bool) -> int {
    if big {
        1
    } else {
        0
    }
}

/// The grid of containers has `h` rows of `w` cells of two layers, each
/// holding a container number or -1.
pub open spec fn cells_ok(g: Seq<Vec<Vec<i64>>>, h: int, w: int) -> bool {
    &&& g.len() == h
    &&& forall|i: int| 0 <= i < h ==> (#[trigger] g[i])@.len() == w
    &&& forall|i: int, j: int| 0 <= i < h && 0 <= j < w ==> (#[trigger] g[i]@[j])@.len() == 2
    &&& forall|i: int, j: int, k: int|
        0 <= i < h && 0 <= j < w && 0 <= k < 2 ==> -1 <= (#[trigger] g[i]@[j]@[k]) < MAX_CONT
}

/// The grid of cranes has `h` rows of `w` cells.
pub open spec fn cranes_ok(g: Seq<Vec<isize>>, h: int, w: int) -> bool {
    &&& g.len() == h
    &&& forall|i: int| 0 <= i < h ==> (#[trigger] g[i])@.len() == w
}

/// The grid of flags has `h` rows of `w` cells of two layers.
pub open spec fn flags_ok(g: Seq<Vec<Vec<bool>>>, h: int, w: int) -> bool {
    &&& g.len() == h
    &&& forall|i: int| 0 <= i < h ==> (#[trigger] g[i])@.len() == w
    &&& forall|i: int, j: int| 0 <= i < h && 0 <= j < w ==> (#[trigger] g[i]@[j])@.len() == 2
}

/// The key under which a crane's situation is fingerprinted: its cell,
/// whether it carries, the container on its layer of the cell, and its last
/// operation, packed into one number.
pub open spec fn key_of(x: int, y: int, s: bool, cont: int, op: int) -> u64 {
    (x * 0x1_0000_0000_0000 + y * 0x100_0000_0000 + (if s {
        0x10_0000_0000int
    } else {
        0int
    }) + (cont + 1) * 8 + op) as u64
}

/// The key under which a crane's situation is fingerprinted.
pub fn key(x: usize, y: usize, s: bool, cont: i64, op: usize) -> (r: u64)
    requires
        x < MAX_SIDE,
        y < MAX_SIDE,
        -1 <= cont < MAX_CONT,
        op < 8,
    ensures
        r == key_of(x as int, y as int, s, cont as int, op as int),
{
    let a: u64 = (x as u64) * 0x1_0000_0000_0000;
    let b: u64 = (y as u64) * 0x100_0000_0000;
    let c: u64 = if s {
        0x10_0000_0000
    } else {
        0
    };
    let d: u64 = ((cont + 1) as u64) * 8;
    a + b + c + d + (op as u64)
}

/// Different situations have different keys.
pub proof fn key_injective(
    x1: int,
    y1: int,
    s1: bool,
    c1: int,
    o1: int,
    x2: int,
    y2: int,
    s2: bool,
    c2: int,
    o2: int,
)
    requires
        0 <= x1 < MAX_SIDE,
        0 <= y1 < MAX_SIDE,
        -1 <= c1 < MAX_CONT,
        0 <= o1 < 8,
        0 <= x2 < MAX_SIDE,
        0 <= y2 < MAX_SIDE,
        -1 <= c2 < MAX_CONT,
        0 <= o2 < 8,
        key_of(x1, y1, s1, c1, o1) == key_of(x2, y2, s2, c2, o2),
    ensures
        x1 == x2,
        y1 == y2,
        s1 == s2,
        c1 == c2,
        o1 == o2,
{
}

/// A crane.
pub struct Crane {
    pub h: usize,
    pub w: usize,
    pub x: usize,
    pub y: usize,
    pub idx: usize,
    pub suspended: bool,
    pub big: bool,
    pub exploded: bool,
    pub pre_op: usize,
    pub hash_set: HashSet<i64>,
    pub zobrist: ZobristHashSet,
    /// For each operation carried out and not taken back, oldest first: the
    /// operation before it, and whether it led to a situation that was new.
    pub trail: Vec<(usize, bool)>,
}

impl Crane {
    /// The fingerprints of the situations the crane has been through.
    pub open spec fn seen(&self) -> Set<i64> {
        self.hash_set@
    }

    /// The fingerprint of the crane's situation, with the codes behind it.
    pub open spec fn print(&self) -> ZobristHashSet {
        self.zobrist
    }

    /// The crane stands on a yard whose sides are in range, and its last
    /// operation and those it remembers are among the eight.
    pub open spec fn placed(&self) -> bool {
        &&& self.h <= MAX_SIDE
        &&& self.w <= MAX_SIDE
        &&& self.x < self.h
        &&& self.y < self.w
        &&& self.pre_op < 8
        &&& self.idx < 0x8000_0000
        &&& forall|i: int| 0 <= i < self.trail@.len() ==> (#[trigger] self.trail@[i]).0 < 8
    }

    /// The key of the crane's situation on the grid `g`.
    pub open spec fn key(&self, g: Seq<Vec<Vec<i64>>>) -> u64 {
        key_of(
            self.x as int,
            self.y as int,
            self.suspended,
            g[self.x as int]@[self.y as int]@[layer(self.big)] as int,
            self.pre_op as int,
        )
    }

    /// `new` is this crane but for its fingerprint, the codes behind it and
    /// the fingerprints it has been through.
    pub open spec fn same_but_print(&self, new: &Self) -> bool {
        &&& new.h == self.h
        &&& new.w == self.w
        &&& new.x == self.x
        &&& new.y == self.y
        &&& new.idx == self.idx
        &&& new.suspended == self.suspended
        &&& new.big == self.big
        &&& new.exploded == self.exploded
        &&& new.pre_op == self.pre_op
        &&& new.trail@ == self.trail@
    }

    /// `new` has the codes of this crane and those of the keys `k1` and
    /// `k2`, and its fingerprint is this one flipped by the codes of both.
    pub open spec fn flipped2(&self, new: &Self, k1: u64, k2: u64) -> bool {
        &&& new.print().codes().dom() == self.print().codes().dom().insert(k1).insert(k2)
        &&& forall|k: u64|
            self.print().codes().dom().contains(k) ==> #[trigger] new.print().codes()[k]
                == self.print().codes()[k]
        &&& new.print().value() == self.print().value() ^ new.print().codes()[k1]
            ^ new.print().codes()[k2]
    }

    /// A crane with number `idx` in cell `(x, y)` of the yard of `input`,
    /// carrying nothing, whose last operation counts as a stop. Its
    /// fingerprint is that of this situation with the first container of
    /// row `x` under it.
    pub fn new(input: &Input, idx: usize, x: usize, y: usize, big: bool) -> (r: Self)
        requires
            input.ok(),
            x < input.n,
            y < input.n,
            idx < 0x8000_0000,
        ensures
            r.placed(),
            r.h == input.n && r.w == input.n,
            r.x == x && r.y == y && r.idx == idx && r.big == big,
            !r.suspended && !r.exploded,
            r.pre_op == 6,
            r.print().codes().dom() == Set::<u64>::empty().insert(
                key_of(x as int, y as int, false, input.a@[x as int]@[0] as int, 6),
            ),
            r.print().value() == r.print().codes()[key_of(
                x as int,
                y as int,
                false,
                input.a@[x as int]@[0] as int,
                6,
            )],
            r.seen() == Set::<i64>::empty().insert(r.print().value()),
            r.trail@.len() == 0,
    {
        let mut zobrist = ZobristHashSet::new();
        let mut hash_set: HashSet<i64> = HashSet::new();
        zobrist.init();
        proof {
            assert(1 <= input.n * input.n <= 64) by (nonlinear_arith)
                requires
                    1 <= input.n <= 8,
            ;
        }
        let cont = input.a[x][0];
        zobrist.flip(key(x, y, false, cont, code(Operation::Stop)));
        hash_set.insert(zobrist.get());
        proof {
            let c = zobrist.codes()[key_of(x as int, y as int, false, cont as int, 6)];
            crate::zobrist::flip_from_zero(c);
            assert(zobrist.codes().dom() =~= Set::<u64>::empty().insert(
                key_of(x as int, y as int, false, cont as int, 6),
            ));
        }
        Crane {
            h: input.n,
            w: input.n,
            x,
            y,
            idx,
            suspended: false,
            big,
            exploded: false,
            pre_op: code(Operation::Stop),
            hash_set,
            zobrist,
            trail: Vec::new(),
        }
    }

    /// Flips the key of the crane's situation on the grid `grid_cont` in or
    /// out of its fingerprint.
    pub fn hash_flip(&mut self, grid_cont: &Vec<Vec<Vec<i64>>>)
        requires
            old(self).placed(),
            cells_ok(grid_cont@, old(self).h as int, old(self).w as int),
        ensures
            old(self).same_but_print(final(self)),
            final(self).seen() == old(self).seen(),
            old(self).print().flips(&final(self).print(), old(self).key(grid_cont@)),
    {
        let l: usize = if self.big {
            1
        } else {
            0
        };
        let cont = grid_cont[self.x][self.y][l];
        self.zobrist.flip(key(self.x, self.y, self.suspended, cont, self.pre_op));
    }
}

/// `after` is the grid of cranes `before` with cell `(x, y)` holding `v`.
pub open spec fn crane_set(
    before: Seq<Vec<isize>>,
    after: Seq<Vec<isize>>,
    h: int,
    w: int,
    x: int,
    y: int,
    v: isize,
) -> bool {
    &&& cranes_ok(after, h, w)
    &&& forall|i: int, j: int|
        0 <= i < h && 0 <= j < w ==> (#[trigger] after[i]@[j]) == (if i == x && j == y {
            v
        } else {
            before[i]@[j]
        })
}

/// `after` is the grid of cranes `before` with the crane `idx` gone from
/// `(x, y)` to `(nx, ny)`.
pub open spec fn crane_moved(
    before: Seq<Vec<isize>>,
    after: Seq<Vec<isize>>,
    h: int,
    w: int,
    x: int,
    y: int,
    nx: int,
    ny: int,
    idx: isize,
) -> bool {
    &&& cranes_ok(after, h, w)
    &&& forall|i: int, j: int|
        0 <= i < h && 0 <= j < w ==> (#[trigger] after[i]@[j]) == (if i == x && j == y {
            -1isize
        } else if i == nx && j == ny {
            idx
        } else {
            before[i]@[j]
        })
}

/// `after` is the grid of containers `before` with the container on layer
/// `l` of `(x, y)` gone to `(nx, ny)`.
pub open spec fn cont_moved(
    before: Seq<Vec<Vec<i64>>>,
    after: Seq<Vec<Vec<i64>>>,
    h: int,
    w: int,
    x: int,
    y: int,
    nx: int,
    ny: int,
    l: int,
) -> bool {
    &&& cells_ok(after, h, w)
    &&& forall|i: int, j: int, k: int|
        0 <= i < h && 0 <= j < w && 0 <= k < 2 ==> (#[trigger] after[i]@[j]@[k]) == (if i == x
            && j == y && k == l {
            -1i64
        } else if i == nx && j == ny && k == l {
            before[x]@[y]@[l]
        } else {
            before[i]@[j]@[k]
        })
}

/// `after` is the grid of containers `before` with the two layers of cell
/// `(x, y)` exchanged if `turn` holds, and the same otherwise.
pub open spec fn cont_turned(
    before: Seq<Vec<Vec<i64>>>,
    after: Seq<Vec<Vec<i64>>>,
    h: int,
    w: int,
    x: int,
    y: int,
    turn: bool,
) -> bool {
    &&& cells_ok(after, h, w)
    &&& forall|i: int, j: int, k: int|
        0 <= i < h && 0 <= j < w && 0 <= k < 2 ==> (#[trigger] after[i]@[j]@[k]) == (if turn && i
            == x && j == y {
            before[x]@[y]@[1 - k]
        } else {
            before[i]@[j]@[k]
        })
}

/// `after` is the grid of flags `before` with layer `l` of cell `(x, y)`
/// holding `v`.
pub open spec fn flag_set(
    before: Seq<Vec<Vec<bool>>>,
    after: Seq<Vec<Vec<bool>>>,
    h: int,
    w: int,
    x: int,
    y: int,
    l: int,
    v: bool,
) -> bool {
    &&& flags_ok(after, h, w)
    &&& forall|i: int, j: int, k: int|
        0 <= i < h && 0 <= j < w && 0 <= k < 2 ==> (#[trigger] after[i]@[j]@[k]) == (if i == x
            && j == y && k == l {
            v
        } else {
            before[i]@[j]@[k]
        })
}

/// `after` is the grid of flags `before` with the flag on layer `l` gone
/// from `(x, y)` to `(nx, ny)`.
pub open spec fn flag_moved(
    before: Seq<Vec<Vec<bool>>>,
    after: Seq<Vec<Vec<bool>>>,
    h: int,
    w: int,
    x: int,
    y: int,
    nx: int,
    ny: int,
    l: int,
) -> bool {
    &&& flags_ok(after, h, w)
    &&& forall|i: int, j: int, k: int|
        0 <= i < h && 0 <= j < w && 0 <= k < 2 ==> (#[trigger] after[i]@[j]@[k]) == (if i == x
            && j == y && k == l {
            false
        } else if i == nx && j == ny && k == l {
            true
        } else {
            before[i]@[j]@[k]
        })
}

impl Crane {
    /// `new` is this crane after an operation that left it at `(nx, ny)`,
    /// carrying or not as `s` says, with `op` as its last operation: its
    /// fingerprint has the key of the old situation on the grid `g0`
    /// flipped out and the key of the new one on the grid `g1` flipped in,
    /// the new fingerprint is among those it has been through, and the
    /// crane remembers the operation before and whether the fingerprint was
    /// new.
    pub open spec fn stepped(
        &self,
        new: &Self,
        nx: int,
        ny: int,
        s: bool,
        op: int,
        g0: Seq<Vec<Vec<i64>>>,
        g1: Seq<Vec<Vec<i64>>>,
    ) -> bool {
        &&& new.h == self.h
        &&& new.w == self.w
        &&& new.idx == self.idx
        &&& new.big == self.big
        &&& new.x == nx
        &&& new.y == ny
        &&& new.suspended == s
        &&& new.pre_op == op
        &&& self.flipped2(new, self.key(g0), new.key(g1))
        &&& new.seen() == self.seen().insert(new.print().value())
        &&& new.trail@ == self.trail@.push(
            (self.pre_op, !self.seen().contains(new.print().value())),
        )
    }

    /// The two flips of an operation, put together.
    proof fn lemma_flipped2(
        z0: ZobristHashSet,
        z1: ZobristHashSet,
        z2: ZobristHashSet,
        k1: u64,
        k2: u64,
    )
        requires
            z0.flips(&z1, k1),
            z1.flips(&z2, k2),
        ensures
            z2.codes().dom() == z0.codes().dom().insert(k1).insert(k2),
            forall|k: u64| z0.codes().dom().contains(k) ==> #[trigger] z2.codes()[k] == z0.codes()[k],
            z2.value() == z0.value() ^ z2.codes()[k1] ^ z2.codes()[k2],
    {
        assert(z1.codes().dom().contains(k1));
        assert(z2.codes()[k1] == z1.codes()[k1]);
        assert forall|k: u64| z0.codes().dom().contains(k) implies #[trigger] z2.codes()[k]
            == z0.codes()[k] by {
            assert(z1.codes().dom().contains(k));
            assert(z1.codes()[k] == z0.codes()[k]);
        }
    }

    /// Moves the crane `idx`, and the container on layer `l` if `carried`
    /// holds, from `(x, y)` to `(nx, ny)` on the grids.
    #[verifier::rlimit(60)]
    fn carry(
        h: usize,
        w: usize,
        x: usize,
        y: usize,
        nx: usize,
        ny: usize,
        idx: usize,
        l: usize,
        carried: bool,
        grid_crane: &mut Vec<Vec<isize>>,
        grid_cont: &mut Vec<Vec<Vec<i64>>>,
        cont_suspended: &mut Vec<Vec<Vec<bool>>>,
    )
        requires
            x < h,
            y < w,
            nx < h,
            ny < w,
            l < 2,
            idx < 0x8000_0000,
            x != nx || y != ny,
            cranes_ok(old(grid_crane)@, h as int, w as int),
            cells_ok(old(grid_cont)@, h as int, w as int),
            flags_ok(old(cont_suspended)@, h as int, w as int),
        ensures
            crane_moved(
                old(grid_crane)@,
                final(grid_crane)@,
                h as int,
                w as int,
                x as int,
                y as int,
                nx as int,
                ny as int,
                idx as isize,
            ),
            carried ==> cont_moved(
                old(grid_cont)@,
                final(grid_cont)@,
                h as int,
                w as int,
                x as int,
                y as int,
                nx as int,
                ny as int,
                l as int,
            ) && flag_moved(
                old(cont_suspended)@,
                final(cont_suspended)@,
                h as int,
                w as int,
                x as int,
                y as int,
                nx as int,
                ny as int,
                l as int,
            ),
            !carried ==> final(grid_cont)@ == old(grid_cont)@ && final(cont_suspended)@
                == old(cont_suspended)@,
    {
        grid_crane[nx][ny] = idx as isize;
        grid_crane[x][y] = -1;
        if carried {
            let v = grid_cont[x][y][l];
            grid_cont[nx][ny][l] = v;
            grid_cont[x][y][l] = -1;
            cont_suspended[nx][ny][l] = true;
            cont_suspended[x][y][l] = false;
        }
    }

    /// Moves the crane one cell in direction `dir`, with its container if it
    /// carries one. Returns the letter of the direction.
    #[verifier::rlimit(60)]
    pub fn shift(
        &mut self,
        dir: usize,
        grid_crane: &mut Vec<Vec<isize>>,
        grid_cont: &mut Vec<Vec<Vec<i64>>>,
        cont_suspended: &mut Vec<Vec<Vec<bool>>>,
    ) -> (c: char)
        requires
            old(self).placed(),
            dir < 4,
            0 <= old(self).x + dx_spec(dir as int) < old(self).h,
            0 <= old(self).y + dy_spec(dir as int) < old(self).w,
            cranes_ok(old(grid_crane)@, old(self).h as int, old(self).w as int),
            cells_ok(old(grid_cont)@, old(self).h as int, old(self).w as int),
            flags_ok(old(cont_suspended)@, old(self).h as int, old(self).w as int),
            old(self).suspended ==> old(grid_cont)@[old(self).x as int]@[old(self).y as int]@[layer(
                old(self).big,
            )] != -1,
        ensures
            c == dir_char(dir as int),
            final(self).placed(),
            final(self).exploded == old(self).exploded,
            old(self).stepped(
                final(self),
                old(self).x + dx_spec(dir as int),
                old(self).y + dy_spec(dir as int),
                old(self).suspended,
                dir as int,
                old(grid_cont)@,
                final(grid_cont)@,
            ),
            crane_moved(
                old(grid_crane)@,
                final(grid_crane)@,
                old(self).h as int,
                old(self).w as int,
                old(self).x as int,
                old(self).y as int,
                old(self).x + dx_spec(dir as int),
                old(self).y + dy_spec(dir as int),
                old(self).idx as isize,
            ),
            old(self).suspended ==> cont_moved(
                old(grid_cont)@,
                final(grid_cont)@,
                old(self).h as int,
                old(self).w as int,
                old(self).x as int,
                old(self).y as int,
                old(self).x + dx_spec(dir as int),
                old(self).y + dy_spec(dir as int),
                layer(old(self).big),
            ) && flag_moved(
                old(cont_suspended)@,
                final(cont_suspended)@,
                old(self).h as int,
                old(self).w as int,
                old(self).x as int,
                old(self).y as int,
                old(self).x + dx_spec(dir as int),
                old(self).y + dy_spec(dir as int),
                layer(old(self).big),
            ),
            !old(self).suspended ==> final(grid_cont)@ == old(grid_cont)@ && final(cont_suspended)@
                == old(cont_suspended)@,
    {
        let ghost z0 = self.zobrist;
        self.hash_flip(grid_cont);
        let ghost z1 = self.zobrist;
        let nx = (self.x as isize + dx(dir)) as usize;
        let ny = (self.y as isize + dy(dir)) as usize;
        let l: usize = if self.big {
            1
        } else {
            0
        };
        Self::carry(
            self.h,
            self.w,
            self.x,
            self.y,
            nx,
            ny,
            self.idx,
            l,
            self.suspended,
            grid_crane,
            grid_cont,
            cont_suspended,
        );
        self.x = nx;
        self.y = ny;
        let before = self.pre_op;
        self.pre_op = dir;
        self.hash_flip(grid_cont);
        let fresh = self.hash_set.insert(self.zobrist.get());
        self.trail.push((before, fresh));
        proof {
            Self::lemma_flipped2(z0, z1, self.zobrist, old(self).key(old(grid_cont)@),
                self.key(grid_cont@));
        }
        if dir == 0 {
            'R'
        } else if dir == 1 {
            'D'
        } else if dir == 2 {
            'L'
        } else {
            'U'
        }
    }
}

impl Crane {
    /// Exchanges the two layers of the crane's cell.
    fn turn_over(&self, grid_cont: &mut Vec<Vec<Vec<i64>>>)
        requires
            self.placed(),
            cells_ok(old(grid_cont)@, self.h as int, self.w as int),
        ensures
            cont_turned(
                old(grid_cont)@,
                final(grid_cont)@,
                self.h as int,
                self.w as int,
                self.x as int,
                self.y as int,
                true,
            ),
    {
        let a = grid_cont[self.x][self.y][0];
        let b = grid_cont[self.x][self.y][1];
        grid_cont[self.x][self.y][0] = b;
        grid_cont[self.x][self.y][1] = a;
    }

    /// Picks up the container under the crane. A large crane lifts it to
    /// the upper layer of the cell. Returns the letter `P`.
    #[verifier::rlimit(60)]
    pub fn suspend(
        &mut self,
        grid_cont: &mut Vec<Vec<Vec<i64>>>,
        cont_suspended: &mut Vec<Vec<Vec<bool>>>,
    ) -> (c: char)
        requires
            old(self).placed(),
            cells_ok(old(grid_cont)@, old(self).h as int, old(self).w as int),
            flags_ok(old(cont_suspended)@, old(self).h as int, old(self).w as int),
            old(grid_cont)@[old(self).x as int]@[old(self).y as int]@[0] != -1
                || old(grid_cont)@[old(self).x as int]@[old(self).y as int]@[1] != -1,
        ensures
            c == 'P',
            final(self).placed(),
            final(self).exploded == old(self).exploded,
            old(self).stepped(
                final(self),
                old(self).x as int,
                old(self).y as int,
                true,
                4,
                old(grid_cont)@,
                final(grid_cont)@,
            ),
            cont_turned(
                old(grid_cont)@,
                final(grid_cont)@,
                old(self).h as int,
                old(self).w as int,
                old(self).x as int,
                old(self).y as int,
                old(self).big,
            ),
            flag_set(
                old(cont_suspended)@,
                final(cont_suspended)@,
                old(self).h as int,
                old(self).w as int,
                old(self).x as int,
                old(self).y as int,
                layer(old(self).big),
                true,
            ),
    {
        let ghost z0 = self.zobrist;
        self.hash_flip(grid_cont);
        let ghost z1 = self.zobrist;
        self.suspended = true;
        let l: usize = if self.big {
            1
        } else {
            0
        };
        cont_suspended[self.x][self.y][l] = true;
        if self.big {
            self.turn_over(grid_cont);
        }
        let before = self.pre_op;
        self.pre_op = code(Operation::Suspend);
        self.hash_flip(grid_cont);
        let fresh = self.hash_set.insert(self.zobrist.get());
        self.trail.push((before, fresh));
        proof {
            Self::lemma_flipped2(z0, z1, self.zobrist, old(self).key(old(grid_cont)@),
                self.key(grid_cont@));
        }
        'P'
    }

    /// Puts down the container the crane carries. A large crane lowers it
    /// from the upper layer of the cell. Returns the letter `Q`.
    #[verifier::rlimit(60)]
    pub fn lower(
        &mut self,
        grid_cont: &mut Vec<Vec<Vec<i64>>>,
        cont_suspended: &mut Vec<Vec<Vec<bool>>>,
    ) -> (c: char)
        requires
            old(self).placed(),
            cells_ok(old(grid_cont)@, old(self).h as int, old(self).w as int),
            flags_ok(old(cont_suspended)@, old(self).h as int, old(self).w as int),
        ensures
            c == 'Q',
            final(self).placed(),
            final(self).exploded == old(self).exploded,
            old(self).stepped(
                final(self),
                old(self).x as int,
                old(self).y as int,
                false,
                5,
                old(grid_cont)@,
                final(grid_cont)@,
            ),
            cont_turned(
                old(grid_cont)@,
                final(grid_cont)@,
                old(self).h as int,
                old(self).w as int,
                old(self).x as int,
                old(self).y as int,
                old(self).big,
            ),
            flag_set(
                old(cont_suspended)@,
                final(cont_suspended)@,
                old(self).h as int,
                old(self).w as int,
                old(self).x as int,
                old(self).y as int,
                layer(old(self).big),
                false,
            ),
    {
        let ghost z0 = self.zobrist;
        self.hash_flip(grid_cont);
        let ghost z1 = self.zobrist;
        self.suspended = false;
        let l: usize = if self.big {
            1
        } else {
            0
        };
        cont_suspended[self.x][self.y][l] = false;
        if self.big {
            self.turn_over(grid_cont);
        }
        let before = self.pre_op;
        self.pre_op = code(Operation::Lower);
        self.hash_flip(grid_cont);
        let fresh = self.hash_set.insert(self.zobrist.get());
        self.trail.push((before, fresh));
        proof {
            Self::lemma_flipped2(z0, z1, self.zobrist, old(self).key(old(grid_cont)@),
                self.key(grid_cont@));
        }
        'Q'
    }

    /// Lets the crane stand for a turn. Returns the letter `.`.
    pub fn stop(&mut self, grid_cont: &Vec<Vec<Vec<i64>>>) -> (c: char)
        requires
            old(self).placed(),
            cells_ok(grid_cont@, old(self).h as int, old(self).w as int),
            old(self).suspended ==> grid_cont@[old(self).x as int]@[old(self).y as int]@[0] != -1
                || grid_cont@[old(self).x as int]@[old(self).y as int]@[1] != -1,
        ensures
            c == '.',
            final(self).placed(),
            final(self).exploded == old(self).exploded,
            old(self).stepped(
                final(self),
                old(self).x as int,
                old(self).y as int,
                old(self).suspended,
                6,
                grid_cont@,
                grid_cont@,
            ),
    {
        let ghost z0 = self.zobrist;
        self.hash_flip(grid_cont);
        let ghost z1 = self.zobrist;
        let before = self.pre_op;
        self.pre_op = code(Operation::Stop);
        self.hash_flip(grid_cont);
        let fresh = self.hash_set.insert(self.zobrist.get());
        self.trail.push((before, fresh));
        proof {
            Self::lemma_flipped2(z0, z1, self.zobrist, old(self).key(grid_cont@), self.key(grid_cont@));
        }
        '.'
    }

    /// Takes the crane off the yard for good. Returns the letter `B`.
    pub fn explode(
        &mut self,
        grid_cont: &Vec<Vec<Vec<i64>>>,
        grid_crane: &mut Vec<Vec<isize>>,
    ) -> (c: char)
        requires
            old(self).placed(),
            cells_ok(grid_cont@, old(self).h as int, old(self).w as int),
            cranes_ok(old(grid_crane)@, old(self).h as int, old(self).w as int),
        ensures
            c == 'B',
            final(self).placed(),
            final(self).exploded,
            old(self).stepped(
                final(self),
                old(self).x as int,
                old(self).y as int,
                old(self).suspended,
                7,
                grid_cont@,
                grid_cont@,
            ),
            crane_set(
                old(grid_crane)@,
                final(grid_crane)@,
                old(self).h as int,
                old(self).w as int,
                old(self).x as int,
                old(self).y as int,
                -1isize,
            ),
    {
        let ghost z0 = self.zobrist;
        self.hash_flip(grid_cont);
        let ghost z1 = self.zobrist;
        self.exploded = true;
        grid_crane[self.x][self.y] = -1;
        let before = self.pre_op;
        self.pre_op = code(Operation::Explode);
        self.hash_flip(grid_cont);
        let fresh = self.hash_set.insert(self.zobrist.get());
        self.trail.push((before, fresh));
        proof {
            Self::lemma_flipped2(z0, z1, self.zobrist, old(self).key(grid_cont@), self.key(grid_cont@));
        }
        'B'
    }
}

impl Crane {
    /// The fingerprint this crane would have with the keys `k1` and `k2`
    /// flipped, by the codes of `new`.
    pub open spec fn would_be(&self, new: &Self, k1: u64, k2: u64) -> i64 {
        self.print().value() ^ new.print().codes()[k1] ^ new.print().codes()[k2]
    }

    /// `new` is this crane after it was asked whether the situation with
    /// `k1` flipped out and `k2` flipped in is one it has been through: the
    /// two keys have codes now, and the crane is otherwise as it was, its
    /// fingerprint too.
    pub open spec fn asked(&self, new: &Self, k1: u64, k2: u64) -> bool {
        &&& self.same_but_print(new)
        &&& new.seen() == self.seen()
        &&& new.print().codes().dom() == self.print().codes().dom().insert(k1).insert(k2)
        &&& forall|k: u64|
            self.print().codes().dom().contains(k) ==> #[trigger] new.print().codes()[k]
                == self.print().codes()[k]
        &&& new.print().value() == self.print().value()
    }

    /// Flips `k1` and `k2`, looks the fingerprint up among those the crane
    /// has been through, and flips the two keys back whatever the answer.
    #[verifier::rlimit(60)]
    fn been_there(&mut self, k1: u64, k2: u64) -> (hit: bool)
        ensures
            old(self).asked(final(self), k1, k2),
            hit == old(self).seen().contains(old(self).would_be(final(self), k1, k2)),
    {
        let ghost z0 = self.zobrist;
        self.zobrist.flip(k1);
        let ghost z1 = self.zobrist;
        self.zobrist.flip(k2);
        let ghost z2 = self.zobrist;
        proof {
            Self::lemma_flipped2(z0, z1, z2, k1, k2);
        }
        let v = self.zobrist.get();
        let hit = self.hash_set.contains(&v);
        self.zobrist.flip(k2);
        let ghost z3 = self.zobrist;
        self.zobrist.flip(k1);
        proof {
            assert(z3.codes().dom() =~= z2.codes().dom());
            assert(self.zobrist.codes().dom() =~= z2.codes().dom());
            assert(z3.codes()[k2] == z2.codes()[k2]);
            assert(self.zobrist.codes()[k1] == z2.codes()[k1]);
            crate::zobrist::flip_both_twice(z0.value(), z2.codes()[k1], z2.codes()[k2]);
            assert forall|k: u64| z0.codes().dom().contains(k) implies #[trigger] self.zobrist.codes()[k]
                == z0.codes()[k] by {
                assert(z2.codes().dom().contains(k));
                assert(z3.codes()[k] == z2.codes()[k]);
            }
        }
        hit
    }

    /// One of the containers that are due to leave next is the one on the
    /// crane's layer of its cell.
    pub open spec fn carries_due(&self, g: Seq<Vec<Vec<i64>>>, out: Seq<usize>) -> bool {
        exists|i: int|
            0 <= i < self.h && #[trigger] out[i] as int == g[self.x as int]@[self.y as int]@[layer(
                self.big,
            )]
    }

    /// Whether one of the containers that are due to leave next is the one
    /// on the crane's layer of its cell.
    fn has_due(&self, grid_cont: &Vec<Vec<Vec<i64>>>, out_cont_idx: &Vec<usize>) -> (flag: bool)
        requires
            self.placed(),
            cells_ok(grid_cont@, self.h as int, self.w as int),
            out_cont_idx@.len() >= self.h,
            forall|i: int| 0 <= i < self.h ==> #[trigger] out_cont_idx@[i] <= 0x7fff_ffff_ffff_ffff,
        ensures
            flag == self.carries_due(grid_cont@, out_cont_idx@),
    {
        let l: usize = if self.big {
            1
        } else {
            0
        };
        let cont = grid_cont[self.x][self.y][l];
        let mut flag = false;
        let mut i: usize = 0;
        while i < self.h
            invariant
                i <= self.h,
                out_cont_idx@.len() >= self.h,
                forall|i: int|
                    0 <= i < self.h ==> #[trigger] out_cont_idx@[i] <= 0x7fff_ffff_ffff_ffff,
                cont == grid_cont@[self.x as int]@[self.y as int]@[layer(self.big)],
                flag == exists|k: int| 0 <= k < i && #[trigger] out_cont_idx@[k] as int == cont,
            decreases self.h - i,
        {
            let v = out_cont_idx[i];
            if v as i64 == cont {
                flag = true;
            }
            i = i + 1;
        }
        flag
    }

    /// A move in direction `dir` is looked up on the grids: the crane is
    /// still on the yard, and so is the cell it would move to.
    pub open spec fn reads_grids(&self, dir: int) -> bool {
        &&& !self.exploded
        &&& 0 <= self.x + dx_spec(dir) < self.h
        &&& 0 <= self.y + dy_spec(dir) < self.w
    }

    /// What asking whether the crane may move in direction `dir` does to the crane, and the answer `r`.
    pub open spec fn shift_ok_asked(&self, new: &Self, r: bool, dir: int,
        grid_crane: Seq<Vec<isize>>, grid_cont: Seq<Vec<Vec<i64>>>,
        out_cont_idx: Seq<usize>) -> bool {

                let nx = self.x + dx_spec(dir);
                let ny = self.y + dy_spec(dir);
                let inside = 0 <= nx < self.h && 0 <= ny < self.w;
                let k1 = self.key(grid_cont);
                let k2 = key_of(
                    nx,
                    ny,
                    self.suspended,
                    grid_cont[nx]@[ny]@[layer(self.big)] as int,
                    dir,
                );
                &&& self.exploded || !inside ==> *new == *self && !r
                &&& !self.exploded && inside ==> {
                    &&& self.asked(new, k1, k2)
                    &&& r == (!self.seen().contains(self.would_be(new, k1, k2))
                        && grid_crane[nx]@[ny] == -1 && !(!self.big && self.suspended
                        && grid_cont[nx]@[ny]@[0] != -1) && !(self.suspended && ny == self.w - 1
                            && !self.carries_due(grid_cont, out_cont_idx)))
                }
    }

    /// Whether the crane may move one cell in direction `dir`: it is still
    /// on the yard, the cell is on the yard, it has not been in that
    /// situation before, no crane stands there, a small crane that carries
    /// finds the ground there free, and a crane that carries goes to the
    /// last column only with a container that is due to leave.
    #[verifier::rlimit(60)]
    pub fn shift_ok(
        &mut self,
        dir: usize,
        grid_crane: &Vec<Vec<isize>>,
        grid_cont: &Vec<Vec<Vec<i64>>>,
        out_cont_idx: &Vec<usize>,
    ) -> (r: bool)
        requires
            old(self).placed(),
            dir < 4,
            old(self).reads_grids(dir as int) ==> {
                &&& cranes_ok(grid_crane@, old(self).h as int, old(self).w as int)
                &&& cells_ok(grid_cont@, old(self).h as int, old(self).w as int)
                &&& out_cont_idx@.len() >= old(self).h
                &&& forall|i: int|
                    0 <= i < old(self).h ==> #[trigger] out_cont_idx@[i] <= 0x7fff_ffff_ffff_ffff
            },
        ensures
            old(self).shift_ok_asked(final(self), r, dir as int, grid_crane@, grid_cont@, out_cont_idx@),
            final(self).print().value() == old(self).print().value(),
    {
        if self.exploded {
            return false;
        }
        let nxi = self.x as isize + dx(dir);
        let nyi = self.y as isize + dy(dir);
        if crate::ops::out_field(nxi, nyi, self.h as isize, self.w as isize) {
            return false;
        }
        let nx = nxi as usize;
        let ny = nyi as usize;
        let l: usize = if self.big {
            1
        } else {
            0
        };
        let k1 = key(self.x, self.y, self.suspended, grid_cont[self.x][self.y][l], self.pre_op);
        let k2 = key(nx, ny, self.suspended, grid_cont[nx][ny][l], dir);
        if self.been_there(k1, k2) {
            return false;
        }
        if grid_crane[nx][ny] != -1 {
            return false;
        }
        if !self.big && self.suspended && grid_cont[nx][ny][0] != -1 {
            return false;
        }
        let flag = self.has_due(grid_cont, out_cont_idx);
        if self.suspended && ny == self.w - 1 && !flag {
            return false;
        }
        true
    }

    /// What asking whether the crane may pick up does to the crane, and the answer `r`.
    pub open spec fn suspend_ok_asked(&self, new: &Self, r: bool,
        grid_cont: Seq<Vec<Vec<i64>>>) -> bool {

                let cont = grid_cont[self.x as int]@[self.y as int]@[layer(
                    self.big,
                )];
                let k1 = self.key(grid_cont);
                let k2 = key_of(self.x as int, self.y as int, true, cont as int, 4);
                &&& self.exploded || self.suspended ==> *new == *self && !r
                &&& !self.exploded && !self.suspended ==> {
                    &&& self.asked(new, k1, k2)
                    &&& r == (!self.seen().contains(self.would_be(new, k1, k2))
                        && grid_cont[self.x as int]@[self.y as int]@[0] != -1)
                }
    }

    /// Whether the crane may pick up what is under it: it is still on the
    /// yard and carries nothing, it has not been in that situation before,
    /// and there is a container on the ground.
    pub fn suspend_ok(&mut self, grid_cont: &Vec<Vec<Vec<i64>>>) -> (r: bool)
        requires
            old(self).placed(),
            !old(self).exploded && !old(self).suspended ==> cells_ok(
                grid_cont@,
                old(self).h as int,
                old(self).w as int,
            ),
        ensures
            old(self).suspend_ok_asked(final(self), r, grid_cont@),
            final(self).print().value() == old(self).print().value(),
    {
        if self.exploded || self.suspended {
            return false;
        }
        let l: usize = if self.big {
            1
        } else {
            0
        };
        let cont = grid_cont[self.x][self.y][l];
        let k1 = key(self.x, self.y, false, cont, self.pre_op);
        let k2 = key(self.x, self.y, true, cont, code(Operation::Suspend));
        if self.been_there(k1, k2) {
            return false;
        }
        if grid_cont[self.x][self.y][0] == -1 {
            return false;
        }
        true
    }

    /// What asking whether the crane may put down does to the crane, and the answer `r`.
    pub open spec fn lower_ok_asked(&self, new: &Self, r: bool, grid_cont: Seq<Vec<Vec<i64>>>,
        out_cont_idx: Seq<usize>) -> bool {

                let cont = grid_cont[self.x as int]@[self.y as int]@[layer(
                    self.big,
                )];
                let k1 = self.key(grid_cont);
                let k2 = key_of(self.x as int, self.y as int, false, cont as int, 5);
                &&& self.exploded || !self.suspended ==> *new == *self
                    && !r
                &&& !self.exploded && self.suspended ==> {
                    &&& self.asked(new, k1, k2)
                    &&& r == (!self.seen().contains(self.would_be(new, k1, k2))
                        && !(self.big && grid_cont[self.x as int]@[self.y as int]@[0] != -1)
                            && (self.y != self.w - 1 || (self.x
                        == (cont as int) / (self.h as int) && out_cont_idx[self.x as int] == cont)))
                }
    }

    /// Whether the crane may put down what it carries: it is still on the
    /// yard and carries, it has not been in that situation before, a large
    /// crane finds the ground free, and in the last column the container is
    /// in its own row and due to leave.
    #[verifier::rlimit(60)]
    pub fn lower_ok(&mut self, grid_cont: &Vec<Vec<Vec<i64>>>, out_cont_idx: &Vec<usize>) -> (r:
        bool)
        requires
            old(self).placed(),
            !old(self).exploded && old(self).suspended ==> {
                &&& cells_ok(grid_cont@, old(self).h as int, old(self).w as int)
                &&& out_cont_idx@.len() >= old(self).h
                &&& grid_cont@[old(self).x as int]@[old(self).y as int]@[layer(old(self).big)]
                    != -1
            },
        ensures
            old(self).lower_ok_asked(final(self), r, grid_cont@, out_cont_idx@),
            final(self).print().value() == old(self).print().value(),
    {
        if self.exploded || !self.suspended {
            return false;
        }
        let l: usize = if self.big {
            1
        } else {
            0
        };
        let cont = grid_cont[self.x][self.y][l];
        let k1 = key(self.x, self.y, true, cont, self.pre_op);
        let k2 = key(self.x, self.y, false, cont, code(Operation::Lower));
        if self.been_there(k1, k2) {
            return false;
        }
        if self.big && grid_cont[self.x][self.y][0] != -1 {
            return false;
        }
        let cond_idx = cont as usize;
        let x = cond_idx / self.h;
        if !(self.y != self.w - 1 || self.x == x && out_cont_idx[x] == cond_idx) {
            return false;
        }
        true
    }

    /// What asking whether the crane may stand does to the crane, and the answer `r`.
    pub open spec fn stop_ok_asked(&self, new: &Self, r: bool, grid_cont: Seq<Vec<Vec<i64>>>) -> bool {

                let cont = grid_cont[self.x as int]@[self.y as int]@[layer(
                    self.big,
                )];
                let k1 = self.key(grid_cont);
                let k2 = key_of(
                    self.x as int,
                    self.y as int,
                    self.suspended,
                    cont as int,
                    6,
                );
                &&& self.asked(new, k1, k2)
                &&& r == !self.seen().contains(self.would_be(new, k1, k2))
    }

    /// Whether the crane may stand for a turn: it has not been in that
    /// situation before.
    pub fn stop_ok(&mut self, grid_cont: &Vec<Vec<Vec<i64>>>) -> (r: bool)
        requires
            old(self).placed(),
            cells_ok(grid_cont@, old(self).h as int, old(self).w as int),
            old(self).suspended ==> grid_cont@[old(self).x as int]@[old(self).y as int]@[0] != -1
                || grid_cont@[old(self).x as int]@[old(self).y as int]@[1] != -1,
        ensures
            old(self).stop_ok_asked(final(self), r, grid_cont@),
            final(self).print().value() == old(self).print().value(),
    {
        let l: usize = if self.big {
            1
        } else {
            0
        };
        let cont = grid_cont[self.x][self.y][l];
        let k1 = key(self.x, self.y, self.suspended, cont, self.pre_op);
        let k2 = key(self.x, self.y, self.suspended, cont, code(Operation::Stop));
        if self.been_there(k1, k2) {
            return false;
        }
        true
    }

    /// Whether the crane may be taken off the yard: it is still on it.
    pub fn explode_ok(&self) -> (r: bool)
        ensures
            r == !self.exploded,
    {
        if self.exploded {
            return false;
        }
        true
    }
}

/// The letter that stands for operation `action` in the output.
pub open spec fn op_char(action: int) -> char {
    if action < 4 {
        dir_char(action)
    } else if action == 4 {
        'P'
    } else if action == 5 {
        'Q'
    } else if action == 6 {
        '.'
    } else {
        'B'
    }
}

impl Crane {
    /// Operation `action` can be carried out: a move stays on the yard and
    /// takes along what the crane carries, and a crane that picks up, or
    /// stands while it carries, has a container in its cell.
    pub open spec fn can(&self, action: int, grid_cont: Seq<Vec<Vec<i64>>>) -> bool {
        let here = grid_cont[self.x as int]@[self.y as int];
        &&& 0 <= action < 8
        &&& action < 4 ==> {
            &&& 0 <= self.x + dx_spec(action) < self.h
            &&& 0 <= self.y + dy_spec(action) < self.w
            &&& self.suspended ==> here@[layer(self.big)] != -1
        }
        &&& action == 4 ==> here@[0] != -1 || here@[1] != -1
        &&& action == 6 && self.suspended ==> here@[0] != -1 || here@[1] != -1
    }

    /// `new` is this crane, and `gc1`, `g1` and `f1` are the grids of cranes,
    /// of containers and of flags, after the crane carried out operation
    /// `action` on the grids `gc0`, `g0` and `f0`.
    pub open spec fn acted(
        &self,
        new: &Self,
        action: int,
        gc0: Seq<Vec<isize>>,
        gc1: Seq<Vec<isize>>,
        g0: Seq<Vec<Vec<i64>>>,
        g1: Seq<Vec<Vec<i64>>>,
        f0: Seq<Vec<Vec<bool>>>,
        f1: Seq<Vec<Vec<bool>>>,
    ) -> bool {
        &&& new.placed()
        &&& new.exploded == (self.exploded || action == 7)
        &&& cranes_ok(gc1, self.h as int, self.w as int)
        &&& cells_ok(g1, self.h as int, self.w as int)
        &&& flags_ok(f1, self.h as int, self.w as int)
        &&& self.stepped(
                new,
                if action < 4 {
                    self.x + dx_spec(action)
                } else {
                    self.x as int
                },
                if action < 4 {
                    self.y + dy_spec(action)
                } else {
                    self.y as int
                },
                if action == 4 {
                    true
                } else if action == 5 {
                    false
                } else {
                    self.suspended
                },
                action,
                g0,
                g1,
            )
        &&& action < 4 ==> crane_moved(
                gc0,
                gc1,
                self.h as int,
                self.w as int,
                self.x as int,
                self.y as int,
                self.x + dx_spec(action),
                self.y + dy_spec(action),
                self.idx as isize,
            )
        &&& action < 4 && self.suspended ==> cont_moved(
                g0,
                g1,
                self.h as int,
                self.w as int,
                self.x as int,
                self.y as int,
                self.x + dx_spec(action),
                self.y + dy_spec(action),
                layer(self.big),
            ) && flag_moved(
                f0,
                f1,
                self.h as int,
                self.w as int,
                self.x as int,
                self.y as int,
                self.x + dx_spec(action),
                self.y + dy_spec(action),
                layer(self.big),
            )
        &&& (action < 4 && !self.suspended) || action >= 6 ==> g1 == g0 && f1 == f0
        &&& action == 4 || action == 5 ==> cont_turned(
                g0,
                g1,
                self.h as int,
                self.w as int,
                self.x as int,
                self.y as int,
                self.big,
            ) && flag_set(
                f0,
                f1,
                self.h as int,
                self.w as int,
                self.x as int,
                self.y as int,
                layer(self.big),
                action == 4,
            )
        &&& 4 <= action <= 6 ==> gc1 == gc0
        &&& action == 7 ==> crane_set(
                gc0,
                gc1,
                self.h as int,
                self.w as int,
                self.x as int,
                self.y as int,
                -1isize,
            )
    }

    /// Carries out operation number `action`: a move in one of the four
    /// directions, picking up, putting down, standing, or leaving the yard.
    /// Returns the letter of the operation.
    #[verifier::rlimit(60)]
    pub fn action(
        &mut self,
        action: usize,
        grid_crane: &mut Vec<Vec<isize>>,
        grid_cont: &mut Vec<Vec<Vec<i64>>>,
        cont_suspended: &mut Vec<Vec<Vec<bool>>>,
    ) -> (c: char)
        requires
            old(self).placed(),
            old(self).can(action as int, old(grid_cont)@),
            cranes_ok(old(grid_crane)@, old(self).h as int, old(self).w as int),
            cells_ok(old(grid_cont)@, old(self).h as int, old(self).w as int),
            flags_ok(old(cont_suspended)@, old(self).h as int, old(self).w as int),
        ensures
            c == op_char(action as int),
            old(self).acted(
                final(self),
                action as int,
                old(grid_crane)@,
                final(grid_crane)@,
                old(grid_cont)@,
                final(grid_cont)@,
                old(cont_suspended)@,
                final(cont_suspended)@,
            ),
    {
        if action < 4 {
            self.shift(action, grid_crane, grid_cont, cont_suspended)
        } else if action == 4 {
            self.suspend(grid_cont, cont_suspended)
        } else if action == 5 {
            self.lower(grid_cont, cont_suspended)
        } else if action == 6 {
            self.stop(grid_cont)
        } else {
            self.explode(grid_cont, grid_crane)
        }
    }

    /// Operation `op` can be taken back: the crane remembers an operation
    /// before it, and the cell it came from by a move is on the yard.
    pub open spec fn can_take_back(&self, op: int) -> bool {
        &&& 0 <= op < 7
        &&& self.trail@.len() >= 1
        &&& op < 4 ==> {
            &&& 0 <= self.x - dx_spec(op) < self.h
            &&& 0 <= self.y - dy_spec(op) < self.w
        }
    }

    /// `new` is this crane, and `gc1`, `g1` and `f1` are the grids of cranes,
    /// of containers and of flags, after operation `op`, the last that the
    /// crane carried out, was taken back on the grids `gc0`, `g0` and `f0`:
    /// the crane and what it carries are where they came from, its last
    /// operation is the one before `op`, it has forgotten the situation
    /// that `op` led to if that was new, and its fingerprint has the key of
    /// that situation flipped out and the key of the one before flipped in.
    pub open spec fn taken_back(
        &self,
        new: &Self,
        op: int,
        gc0: Seq<Vec<isize>>,
        gc1: Seq<Vec<isize>>,
        g0: Seq<Vec<Vec<i64>>>,
        g1: Seq<Vec<Vec<i64>>>,
        f0: Seq<Vec<Vec<bool>>>,
        f1: Seq<Vec<Vec<bool>>>,
    ) -> bool {
        let last = self.trail@.last();
        let bx = if op < 4 {
            self.x - dx_spec(op)
        } else {
            self.x as int
        };
        let by = if op < 4 {
            self.y - dy_spec(op)
        } else {
            self.y as int
        };
        &&& new.placed()
        &&& new.h == self.h
        &&& new.w == self.w
        &&& new.idx == self.idx
        &&& new.big == self.big
        &&& new.exploded == self.exploded
        &&& new.x == bx
        &&& new.y == by
        &&& new.suspended == (if op == 4 {
            false
        } else if op == 5 {
            true
        } else {
            self.suspended
        })
        &&& new.pre_op == last.0
        &&& new.trail@ == self.trail@.drop_last()
        &&& new.seen() == (if last.1 {
            self.seen().remove(self.print().value())
        } else {
            self.seen()
        })
        &&& self.flipped2(new, self.key(g0), new.key(g1))
        &&& cranes_ok(gc1, self.h as int, self.w as int)
        &&& cells_ok(g1, self.h as int, self.w as int)
        &&& flags_ok(f1, self.h as int, self.w as int)
        &&& op < 4 ==> crane_moved(
            gc0,
            gc1,
            self.h as int,
            self.w as int,
            self.x as int,
            self.y as int,
            bx,
            by,
            self.idx as isize,
        )
        &&& op < 4 && self.suspended ==> cont_moved(
            g0,
            g1,
            self.h as int,
            self.w as int,
            self.x as int,
            self.y as int,
            bx,
            by,
            layer(self.big),
        ) && flag_moved(
            f0,
            f1,
            self.h as int,
            self.w as int,
            self.x as int,
            self.y as int,
            bx,
            by,
            layer(self.big),
        )
        &&& (op < 4 && !self.suspended) || op >= 6 ==> g1 == g0 && f1 == f0
        &&& op == 4 || op == 5 ==> cont_turned(
            g0,
            g1,
            self.h as int,
            self.w as int,
            self.x as int,
            self.y as int,
            self.big,
        ) && flag_set(
            f0,
            f1,
            self.h as int,
            self.w as int,
            self.x as int,
            self.y as int,
            layer(self.big),
            op == 5,
        )
        &&& op >= 4 ==> gc1 == gc0
    }

    /// Sets whether the crane carries, on the crane and on the grids: the
    /// flag of its layer of its cell, and for a large crane the exchange of
    /// the two layers.
    fn hold(
        &mut self,
        on: bool,
        grid_cont: &mut Vec<Vec<Vec<i64>>>,
        cont_suspended: &mut Vec<Vec<Vec<bool>>>,
    )
        requires
            old(self).placed(),
            cells_ok(old(grid_cont)@, old(self).h as int, old(self).w as int),
            flags_ok(old(cont_suspended)@, old(self).h as int, old(self).w as int),
        ensures
            *final(self) == (Crane { suspended: on, ..*old(self) }),
            cont_turned(
                old(grid_cont)@,
                final(grid_cont)@,
                old(self).h as int,
                old(self).w as int,
                old(self).x as int,
                old(self).y as int,
                old(self).big,
            ),
            flag_set(
                old(cont_suspended)@,
                final(cont_suspended)@,
                old(self).h as int,
                old(self).w as int,
                old(self).x as int,
                old(self).y as int,
                layer(old(self).big),
                on,
            ),
    {
        self.suspended = on;
        let l: usize = if self.big {
            1
        } else {
            0
        };
        cont_suspended[self.x][self.y][l] = on;
        if self.big {
            self.turn_over(grid_cont);
        }
    }

    /// Takes back operation `op`, the last that the crane carried out: the
    /// crane and what it carries go back where they came from, the crane's
    /// last operation is the one before again, and so is its fingerprint.
    /// The situation that `op` led to is forgotten if it was new.
    #[verifier::rlimit(80)]
    pub fn take_back(
        &mut self,
        op: usize,
        grid_crane: &mut Vec<Vec<isize>>,
        grid_cont: &mut Vec<Vec<Vec<i64>>>,
        cont_suspended: &mut Vec<Vec<Vec<bool>>>,
    )
        requires
            old(self).placed(),
            old(self).can_take_back(op as int),
            cranes_ok(old(grid_crane)@, old(self).h as int, old(self).w as int),
            cells_ok(old(grid_cont)@, old(self).h as int, old(self).w as int),
            flags_ok(old(cont_suspended)@, old(self).h as int, old(self).w as int),
        ensures
            old(self).taken_back(
                final(self),
                op as int,
                old(grid_crane)@,
                final(grid_crane)@,
                old(grid_cont)@,
                final(grid_cont)@,
                old(cont_suspended)@,
                final(cont_suspended)@,
            ),
    {
        let ghost z0 = self.zobrist;
        let entry = self.trail.pop();
        let (last, fresh) = entry.unwrap();
        if fresh {
            let v = self.zobrist.get();
            self.hash_set.remove(&v);
        }
        self.hash_flip(grid_cont);
        let ghost z1 = self.zobrist;
        if op < 4 {
            let bx = (self.x as isize - dx(op)) as usize;
            let by = (self.y as isize - dy(op)) as usize;
            let l: usize = if self.big {
                1
            } else {
                0
            };
            Self::carry(
                self.h,
                self.w,
                self.x,
                self.y,
                bx,
                by,
                self.idx,
                l,
                self.suspended,
                grid_crane,
                grid_cont,
                cont_suspended,
            );
            self.x = bx;
            self.y = by;
        } else if op == 4 {
            self.hold(false, grid_cont, cont_suspended);
        } else if op == 5 {
            self.hold(true, grid_cont, cont_suspended);
        }
        self.pre_op = last;
        self.hash_flip(grid_cont);
        proof {
            Self::lemma_flipped2(z0, z1, self.zobrist, old(self).key(old(grid_cont)@),
                self.key(grid_cont@));
        }
    }

    /// The crane stands where the grid of cranes `gc` says, and the flag of
    /// its layer of its cell in `f` says whether it carries.
    pub open spec fn on_grids(&self, gc: Seq<Vec<isize>>, f: Seq<Vec<Vec<bool>>>) -> bool {
        &&& gc[self.x as int]@[self.y as int] == self.idx as isize
        &&& f[self.x as int]@[self.y as int]@[layer(self.big)] == self.suspended
    }

    /// Nothing is in the way of operation `op`: no crane stands in the cell
    /// that a move leads to, and nothing is on the crane's layer there if it
    /// carries; a crane that picks up carries nothing, and one that puts
    /// down carries.
    pub open spec fn way_free(
        &self,
        op: int,
        gc: Seq<Vec<isize>>,
        g: Seq<Vec<Vec<i64>>>,
        f: Seq<Vec<Vec<bool>>>,
    ) -> bool {
        let nx = self.x + dx_spec(op);
        let ny = self.y + dy_spec(op);
        &&& op < 4 ==> gc[nx]@[ny] == -1
        &&& op < 4 && self.suspended ==> g[nx]@[ny]@[layer(self.big)] == -1 && !f[nx]@[ny]@[layer(
            self.big,
        )]
        &&& op == 4 ==> !self.suspended
        &&& op == 5 ==> self.suspended
    }

    /// Taking an operation back undoes it. If the crane `c0` stands on the
    /// grids as they say, unless it only stands for a turn, nothing is in
    /// the way of operation `op`, `c1` and
    /// the grids `gc1`, `g1`, `f1` are what carrying `op` out gives, and `c2`
    /// and the grids `gc2`, `g2`, `f2` are what taking it back gives from
    /// there, on a grid of containers `g1b` that holds what `g1` holds, then
    /// `c2` is `c0` in place, load, last operation, memory and fingerprint,
    /// only with codes for more keys, and every cell of the three grids
    /// holds what it held.
    pub proof fn take_back_undoes(
        c0: Crane,
        c1: Crane,
        c2: Crane,
        op: int,
        gc0: Seq<Vec<isize>>,
        gc1: Seq<Vec<isize>>,
        gc2: Seq<Vec<isize>>,
        g0: Seq<Vec<Vec<i64>>>,
        g1: Seq<Vec<Vec<i64>>>,
        g1b: Seq<Vec<Vec<i64>>>,
        g2: Seq<Vec<Vec<i64>>>,
        f0: Seq<Vec<Vec<bool>>>,
        f1: Seq<Vec<Vec<bool>>>,
        f2: Seq<Vec<Vec<bool>>>,
    )
        requires
            c0.placed(),
            cranes_ok(gc0, c0.h as int, c0.w as int),
            cells_ok(g0, c0.h as int, c0.w as int),
            flags_ok(f0, c0.h as int, c0.w as int),
            0 <= op < 7,
            c0.can(op, g0),
            op != 6 ==> c0.on_grids(gc0, f0),
            c0.way_free(op, gc0, g0, f0),
            c0.acted(&c1, op, gc0, gc1, g0, g1, f0, f1),
            cells_ok(g1b, c0.h as int, c0.w as int),
            forall|i: int, j: int, k: int|
                0 <= i < c0.h && 0 <= j < c0.w && 0 <= k < 2 ==> #[trigger] g1b[i]@[j]@[k]
                    == g1[i]@[j]@[k],
            c1.taken_back(&c2, op, gc1, gc2, g1b, g2, f1, f2),
        ensures
            c0.same_but_print(&c2),
            c2.seen() == c0.seen(),
            c2.print().value() == c0.print().value(),
            forall|k: u64|
                c0.print().codes().dom().contains(k) ==> c2.print().codes().dom().contains(k)
                    && #[trigger] c2.print().codes()[k] == c0.print().codes()[k],
            forall|i: int, j: int| 0 <= i < c0.h && 0 <= j < c0.w ==> #[trigger] gc2[i]@[j] == gc0[i]@[j],
            forall|i: int, j: int, k: int|
                0 <= i < c0.h && 0 <= j < c0.w && 0 <= k < 2 ==> #[trigger] g2[i]@[j]@[k]
                    == g0[i]@[j]@[k],
            forall|i: int, j: int, k: int|
                0 <= i < c0.h && 0 <= j < c0.w && 0 <= k < 2 ==> #[trigger] f2[i]@[j]@[k]
                    == f0[i]@[j]@[k],
    {
        let v1 = c1.print().value();
        assert(c1.trail@.last() == (c0.pre_op, !c0.seen().contains(v1)));
        assert(c2.trail@ =~= c0.trail@);
        assert(c2.seen() =~= c0.seen());
        assert forall|i: int, j: int| 0 <= i < c0.h && 0 <= j < c0.w implies #[trigger] gc2[i]@[j]
            == gc0[i]@[j] by {
            let through = gc1[i]@[j];
        }
        assert forall|i: int, j: int, k: int|
            0 <= i < c0.h && 0 <= j < c0.w && 0 <= k < 2 implies #[trigger] g2[i]@[j]@[k]
            == g0[i]@[j]@[k] by {
            assert(g1b[i]@[j]@[k] == g1[i]@[j]@[k]);
            assert(g1b[i]@[j]@[1 - k] == g1[i]@[j]@[1 - k]);
            assert(g1b[c1.x as int]@[c1.y as int]@[k] == g1[c1.x as int]@[c1.y as int]@[k]);
            assert(g1b[c1.x as int]@[c1.y as int]@[1 - k] == g1[c1.x as int]@[c1.y as int]@[1 - k]);
        }
        assert forall|i: int, j: int, k: int|
            0 <= i < c0.h && 0 <= j < c0.w && 0 <= k < 2 implies #[trigger] f2[i]@[j]@[k]
            == f0[i]@[j]@[k] by {
            let through = f1[i]@[j]@[k];
        }
        let ka = c0.key(g0);
        let kb = c1.key(g1);
        assert(c1.key(g1b) == kb);
        assert(c2.key(g2) == ka);
        assert(c1.print().codes().dom().contains(ka));
        assert(c1.print().codes().dom().contains(kb));
        assert(c2.print().codes()[ka] == c1.print().codes()[ka]);
        assert(c2.print().codes()[kb] == c1.print().codes()[kb]);
        crate::zobrist::flip_both_twice(
            c0.print().value(),
            c1.print().codes()[ka],
            c1.print().codes()[kb],
        );
        assert forall|k: u64| c0.print().codes().dom().contains(k) implies c2.print().codes().dom().contains(
            k,
        ) && #[trigger] c2.print().codes()[k] == c0.print().codes()[k] by {
            assert(c1.print().codes().dom().contains(k));
            assert(c1.print().codes()[k] == c0.print().codes()[k]);
        }
    }

    /// What asking whether operation number `action` is open does to the
    /// crane, and the answer `r`: the crane stays where and as it is, its
    /// fingerprint too, but for the codes that new keys were given, and the
    /// answer is that of the operation's own check.
    pub open spec fn action_ok_asked(
        &self,
        new: &Self,
        r: bool,
        action: int,
        grid_crane: Seq<Vec<isize>>,
        grid_cont: Seq<Vec<Vec<i64>>>,
        out_cont_idx: Seq<usize>,
    ) -> bool {
        &&& self.same_but_print(new)
        &&& new.seen() == self.seen()
        &&& new.print().value() == self.print().value()
        &&& action < 4 ==> self.shift_ok_asked(new, r, action, grid_crane, grid_cont, out_cont_idx)
        &&& action == 4 ==> self.suspend_ok_asked(new, r, grid_cont)
        &&& action == 5 ==> self.lower_ok_asked(new, r, grid_cont, out_cont_idx)
        &&& action == 6 ==> self.stop_ok_asked(new, r, grid_cont)
        &&& action == 7 ==> *new == *self && r == !self.exploded
    }

    /// What the crane finds open it can carry out: if the answer to the
    /// question about operation `action` is yes, on grids on which a crane
    /// that carries has its container, then the operation can be carried
    /// out; a move leads to a cell without a crane, and for a small crane
    /// that carries to one without a container on the ground; a crane that
    /// picks up carries nothing and has a container on the ground, and one
    /// that puts down carries, a large one above free ground. Only standing
    /// is open to a crane that has left the yard.
    pub proof fn open_can_act(
        c: Crane,
        new: Crane,
        action: int,
        grid_crane: Seq<Vec<isize>>,
        grid_cont: Seq<Vec<Vec<i64>>>,
        out_cont_idx: Seq<usize>,
    )
        requires
            c.placed(),
            0 <= action < 8,
            c.suspended ==> grid_cont[c.x as int]@[c.y as int]@[layer(c.big)] != -1,
            c.action_ok_asked(&new, true, action, grid_crane, grid_cont, out_cont_idx),
        ensures
            new.can(action, grid_cont),
            action != 6 ==> !c.exploded,
            action < 4 ==> grid_crane[c.x + dx_spec(action)]@[c.y + dy_spec(action)] == -1,
            action < 4 && c.suspended && !c.big ==> grid_cont[c.x + dx_spec(action)]@[c.y + dy_spec(
                action,
            )]@[0] == -1,
            action == 4 ==> !c.suspended && grid_cont[c.x as int]@[c.y as int]@[0] != -1,
            action == 5 ==> c.suspended && (c.big ==> grid_cont[c.x as int]@[c.y as int]@[0] == -1),
    {
    }

    /// Whether operation number `action` is open to the crane.
    #[verifier::rlimit(60)]
    pub fn action_ok(
        &mut self,
        action: usize,
        grid_crane: &Vec<Vec<isize>>,
        grid_cont: &Vec<Vec<Vec<i64>>>,
        out_cont_idx: &Vec<usize>,
    ) -> (r: bool)
        requires
            old(self).placed(),
            action < 8,
            cranes_ok(grid_crane@, old(self).h as int, old(self).w as int),
            cells_ok(grid_cont@, old(self).h as int, old(self).w as int),
            out_cont_idx@.len() >= old(self).h,
            forall|i: int|
                0 <= i < old(self).h ==> #[trigger] out_cont_idx@[i] <= 0x7fff_ffff_ffff_ffff,
            old(self).suspended ==> grid_cont@[old(self).x as int]@[old(self).y as int]@[layer(
                old(self).big,
            )] != -1,
        ensures
            final(self).placed(),
            old(self).same_but_print(final(self)),
            final(self).seen() == old(self).seen(),
            final(self).print().value() == old(self).print().value(),
            action < 4 ==> old(self).shift_ok_asked(
                final(self),
                r,
                action as int,
                grid_crane@,
                grid_cont@,
                out_cont_idx@,
            ),
            action == 4 ==> old(self).suspend_ok_asked(final(self), r, grid_cont@),
            action == 5 ==> old(self).lower_ok_asked(final(self), r, grid_cont@, out_cont_idx@),
            action == 6 ==> old(self).stop_ok_asked(final(self), r, grid_cont@),
            action == 7 ==> *final(self) == *old(self) && r == !old(self).exploded,
            old(self).action_ok_asked(
                final(self),
                r,
                action as int,
                grid_crane@,
                grid_cont@,
                out_cont_idx@,
            ),
    {
        if action < 4 {
            self.shift_ok(action, grid_crane, grid_cont, out_cont_idx)
        } else if action == 4 {
            self.suspend_ok(grid_cont)
        } else if action == 5 {
            self.lower_ok(grid_cont, out_cont_idx)
        } else if action == 6 {
            self.stop_ok(grid_cont)
        } else {
            self.explode_ok()
        }
    }
}

} // verus!
