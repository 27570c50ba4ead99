//! The grid: where the mines lie, what is open, and what a click opens.
use vstd::prelude::*;

use crate::rng::{draw, seeded, Rng};

pub mod laws;

verus! {

#[derive(Clone, Copy, PartialEq, Eq, Debug, Structural)]
pub enum Reveal {
    Hidden,
    Flagged,
    Shown,
}

impl Reveal {
    /// The state as the two bits it takes in a hash.
    pub open spec fn code(self) -> u8 {
        match self {
            Reveal::Hidden => 0,
            Reveal::Flagged => 1,
            Reveal::Shown => 2,
        }
    }
}

#[derive(Clone, Copy, PartialEq, Eq, Debug, Structural)]
pub enum Status {
    Playing,
    Won,
    Lost,
}

#[derive(Clone, Copy, PartialEq, Eq, Debug, Structural)]
pub struct Cell {
    pub mine: bool,
    pub adj: u8,
    pub state: Reveal,
}

/// A `w` by `h` grid, its cells in rows from the top.
pub struct Board {
    pub w: u8,
    pub h: u8,
    pub mines: u16,
    pub cells: Vec<Cell>,
}

/// The cells, in rows from the top.
impl View for Board {
    type V = Seq<Cell>;

    open spec fn view(&self) -> Seq<Cell> {
        self.cells@
    }
}

// ---------------------------------------------------------------------------
// Cells, places and neighbours.
// ---------------------------------------------------------------------------
/// A cell nobody has touched, with no mine in it.
pub open spec fn blank_cell() -> Cell {
    Cell { mine: false, adj: 0, state: Reveal::Hidden }
}

/// A grid of untouched cells.
pub open spec fn blank(w: u8, h: u8) -> Seq<Cell> {
    Seq::new((w * h) as nat, |i: int| blank_cell())
}

/// The place of column `x` in row `y`.
pub open spec fn place(w: u8, x: int, y: int) -> int {
    y * w + x
}

pub open spec fn inside(w: u8, h: u8, x: int, y: int) -> bool {
    0 <= x < w && 0 <= y < h
}

/// `(x, y)` where it lies on the grid, nothing where it does not.
pub open spec fn if_inside(w: u8, h: u8, x: int, y: int) -> Seq<(u8, u8)> {
    if inside(w, h, x, y) {
        seq![(x as u8, y as u8)]
    } else {
        seq![]
    }
}

/// The up to eight places around `(x, y)`, row by row.
pub open spec fn around(w: u8, h: u8, x: int, y: int) -> Seq<(u8, u8)> {
    if_inside(w, h, x - 1, y - 1) + if_inside(w, h, x, y - 1) + if_inside(w, h, x + 1, y - 1)
        + if_inside(w, h, x - 1, y) + if_inside(w, h, x + 1, y) + if_inside(w, h, x - 1, y + 1)
        + if_inside(w, h, x, y + 1) + if_inside(w, h, x + 1, y + 1)
}

/// The places `i` and `j` touch, by a side or a corner.
pub open spec fn touching(w: u8, h: u8, i: int, j: int) -> bool {
    &&& 0 <= i < w * h
    &&& 0 <= j < w * h
    &&& i != j
    &&& -1 <= i % w as int - j % w as int <= 1
    &&& -1 <= i / w as int - j / w as int <= 1
}

/// One for a mine at `(x, y)`, nought for anything else.
pub open spec fn mine_there(cells: Seq<Cell>, w: u8, h: u8, x: int, y: int) -> nat {
    if inside(w, h, x, y) && cells[place(w, x, y)].mine {
        1
    } else {
        0
    }
}

/// How many of the places around `(x, y)` hold a mine.
pub open spec fn mines_around(cells: Seq<Cell>, w: u8, h: u8, x: int, y: int) -> nat {
    mine_there(cells, w, h, x - 1, y - 1) + mine_there(cells, w, h, x, y - 1) + mine_there(
        cells,
        w,
        h,
        x + 1,
        y - 1,
    ) + mine_there(cells, w, h, x - 1, y) + mine_there(cells, w, h, x + 1, y) + mine_there(
        cells,
        w,
        h,
        x - 1,
        y + 1,
    ) + mine_there(cells, w, h, x, y + 1) + mine_there(cells, w, h, x + 1, y + 1)
}

/// How many cells satisfy `f`.
pub open spec fn count(cells: Seq<Cell>, f: spec_fn(Cell) -> bool) -> nat
    decreases cells.len(),
{
    if cells.len() == 0 {
        0
    } else {
        count(cells.drop_last(), f) + if f(cells.last()) {
            1nat
        } else {
            0nat
        }
    }
}

pub proof fn lemma_count_update(cells: Seq<Cell>, f: spec_fn(Cell) -> bool, i: int, c: Cell)
    requires
        0 <= i < cells.len(),
    ensures
        count(cells.update(i, c), f) + (if f(cells[i]) {
            1nat
        } else {
            0nat
        }) == count(cells, f) + (if f(c) {
            1nat
        } else {
            0nat
        }),
    decreases cells.len(),
{
    let changed = cells.update(i, c);
    if i == cells.len() - 1 {
        assert(changed.drop_last() =~= cells.drop_last());
    } else {
        lemma_count_update(cells.drop_last(), f, i, c);
        assert(changed.drop_last() =~= cells.drop_last().update(i, c));
    }
}

/// None of the cells counts where none satisfies `f`.
pub proof fn lemma_count_none(cells: Seq<Cell>, f: spec_fn(Cell) -> bool)
    requires
        forall|i: int| 0 <= i < cells.len() ==> !f(#[trigger] cells[i]),
    ensures
        count(cells, f) == 0,
    decreases cells.len(),
{
    if cells.len() > 0 {
        let rest = cells.drop_last();
        assert forall|i: int| 0 <= i < rest.len() implies !f(#[trigger] rest[i]) by {
            assert(rest[i] == cells[i]);
        }
        lemma_count_none(rest, f);
        assert(!f(cells[cells.len() - 1]));
    }
}

pub proof fn lemma_place(w: u8, h: u8, x: int, y: int)
    requires
        inside(w, h, x, y),
    ensures
        0 <= place(w, x, y) < w * h,
        place(w, x, y) % w as int == x,
        place(w, x, y) / w as int == y,
{
    let i = place(w, x, y);
    assert(y * w + x < w * h) by (nonlinear_arith)
        requires
            0 <= x < w,
            0 <= y < h,
            i == y * w + x,
    ;
    assert(0 <= y * w) by (nonlinear_arith)
        requires
            0 <= y,
    ;
    vstd::arithmetic::div_mod::lemma_fundamental_div_mod_converse(i, w as int, y, x);
}

pub proof fn lemma_place_back(w: u8, h: u8, i: int)
    requires
        0 <= i < w * h,
    ensures
        inside(w, h, i % w as int, i / w as int),
        place(w, i % w as int, i / w as int) == i,
{
    assert(w > 0) by (nonlinear_arith)
        requires
            0 <= i < w * h,
    ;
    vstd::arithmetic::div_mod::lemma_fundamental_div_mod(i, w as int);
    let y = i / w as int;
    assert(w as int * y == y * w as int) by (nonlinear_arith);
    assert(y < h) by (nonlinear_arith)
        requires
            y * w <= i,
            i < w * h,
            w > 0,
    ;
    assert(y >= 0) by (nonlinear_arith)
        requires
            y * w + i % (w as int) == i,
            0 <= i,
            0 <= i % (w as int) < w,
            w > 0,
    ;
}

/// What is around a place is exactly what touches it.
pub proof fn lemma_around_touches(w: u8, h: u8, x: int, y: int)
    requires
        inside(w, h, x, y),
    ensures
        forall|k: int|
            0 <= k < around(w, h, x, y).len() ==> {
                let n = #[trigger] around(w, h, x, y)[k];
                &&& inside(w, h, n.0 as int, n.1 as int)
                &&& touching(w, h, place(w, x, y), place(w, n.0 as int, n.1 as int))
            },
        forall|j: int| #[trigger]
            touching(w, h, place(w, x, y), j) ==> around(w, h, x, y).contains(
                ((j % w as int) as u8, (j / w as int) as u8),
            ),
{
    let a = around(w, h, x, y);
    lemma_place(w, h, x, y);
    let i = place(w, x, y);
    assert forall|k: int| 0 <= k < a.len() implies {
        let n = #[trigger] a[k];
        &&& inside(w, h, n.0 as int, n.1 as int)
        &&& touching(w, h, i, place(w, n.0 as int, n.1 as int))
    } by {
        let n = a[k];
        lemma_around_members(w, h, x, y, k);
        lemma_place(w, h, n.0 as int, n.1 as int);
    }
    assert forall|j: int| #[trigger] touching(w, h, i, j) implies a.contains(
        ((j % w as int) as u8, (j / w as int) as u8),
    ) by {
        lemma_place_back(w, h, j);
        lemma_around_has(w, h, x, y, j % w as int, j / w as int);
    }
}

proof fn lemma_around_members(w: u8, h: u8, x: int, y: int, k: int)
    requires
        inside(w, h, x, y),
        0 <= k < around(w, h, x, y).len(),
    ensures
        ({
            let n = around(w, h, x, y)[k];
            &&& inside(w, h, n.0 as int, n.1 as int)
            &&& -1 <= n.0 - x <= 1
            &&& -1 <= n.1 - y <= 1
            &&& !(n.0 == x && n.1 == y)
        }),
{
}

/// Whatever is around a place is on the grid.
proof fn lemma_around_inside(w: u8, h: u8, x: int, y: int, k: int)
    requires
        0 <= k < around(w, h, x, y).len(),
    ensures
        ({
            let n = around(w, h, x, y)[k];
            inside(w, h, n.0 as int, n.1 as int)
        }),
{
}

proof fn lemma_around_has(w: u8, h: u8, x: int, y: int, nx: int, ny: int)
    requires
        inside(w, h, x, y),
        inside(w, h, nx, ny),
        -1 <= nx - x <= 1,
        -1 <= ny - y <= 1,
        !(nx == x && ny == y),
    ensures
        around(w, h, x, y).contains((nx as u8, ny as u8)),
{
    let a1 = if_inside(w, h, x - 1, y - 1);
    let a2 = a1 + if_inside(w, h, x, y - 1);
    let a3 = a2 + if_inside(w, h, x + 1, y - 1);
    let a4 = a3 + if_inside(w, h, x - 1, y);
    let a5 = a4 + if_inside(w, h, x + 1, y);
    let a6 = a5 + if_inside(w, h, x - 1, y + 1);
    let a7 = a6 + if_inside(w, h, x, y + 1);
    let a8 = a7 + if_inside(w, h, x + 1, y + 1);
    assert(a8 =~= around(w, h, x, y));
    let k: int = if ny == y - 1 {
        if nx == x - 1 {
            0
        } else if nx == x {
            a1.len() as int
        } else {
            a2.len() as int
        }
    } else if ny == y {
        if nx == x - 1 {
            a3.len() as int
        } else {
            a4.len() as int
        }
    } else {
        if nx == x - 1 {
            a5.len() as int
        } else if nx == x {
            a6.len() as int
        } else {
            a7.len() as int
        }
    };
    assert(a8[k] == (nx as u8, ny as u8));
}

impl Board {
    /// The grid holds one cell for each place.
    pub open spec fn wf(&self) -> bool {
        self@.len() == self.w * self.h
    }

    /// A grid of untouched cells, to be mined later.
    pub fn new(w: u8, h: u8, mines: u16) -> (b: Self)
        ensures
            b.wf(),
            b.w == w,
            b.h == h,
            b.mines == mines,
            b@ == blank(w, h),
    {
        let blank: Cell = Cell { mine: false, adj: 0, state: Reveal::Hidden };
        proof {
            assert(w * h <= 255 * 255) by (nonlinear_arith)
                requires
                    0 <= w <= 255,
                    0 <= h <= 255,
            ;
            assert(0 <= w * h) by (nonlinear_arith)
                requires
                    0 <= w,
                    0 <= h,
            ;
        }
        let size: usize = w as usize * h as usize;
        let cells: Vec<Cell> = vec![blank; size];
        let b = Board { w, h, mines, cells };
        assert(b@ =~= crate::board::blank(w, h));
        b
    }

    pub fn cells(&self) -> (c: &[Cell])
        ensures
            c@ == self@,
    {
        self.cells.as_slice()
    }

    /// The cells, to be changed in place.
    pub fn cells_mut(&mut self) -> (c: &mut [Cell])
        ensures
            c@ == old(self)@,
            final(self)@ == final(c)@,
            final(self).w == old(self).w,
            final(self).h == old(self).h,
            final(self).mines == old(self).mines,
    {
        self.cells.as_mut_slice()
    }

    pub fn idx(&self, x: u8, y: u8) -> (i: usize)
        ensures
            i == place(self.w, x as int, y as int),
    {
        proof {
            let w = self.w;
            assert(0 <= y * w <= 255 * 255) by (nonlinear_arith)
                requires
                    0 <= w <= 255,
                    0 <= y <= 255,
            ;
        }
        y as usize * self.w as usize + x as usize
    }

    pub fn get(&self, x: u8, y: u8) -> (c: Cell)
        requires
            place(self.w, x as int, y as int) < self@.len(),
        ensures
            c == self@[place(self.w, x as int, y as int)],
    {
        proof {
            let w = self.w;
            assert(0 <= y * w) by (nonlinear_arith)
                requires
                    0 <= w,
                    0 <= y,
            ;
        }
        self.cells[self.idx(x, y)]
    }

    pub fn in_bounds(&self, x: i32, y: i32) -> (b: bool)
        ensures
            b == inside(self.w, self.h, x as int, y as int),
    {
        x >= 0 && y >= 0 && x < self.w as i32 && y < self.h as i32
    }

    fn push_if_inside(&self, out: &mut Vec<(u8, u8)>, x: i32, y: i32)
        ensures
            final(out)@ == old(out)@ + if_inside(self.w, self.h, x as int, y as int),
    {
        if self.in_bounds(x, y) {
            out.push((x as u8, y as u8));
        }
        assert(out@ =~= old(out)@ + if_inside(self.w, self.h, x as int, y as int));
    }

    /// The places around `(x, y)` that lie on the grid, row by row.
    pub fn neighbors(&self, x: u8, y: u8) -> (out: Vec<(u8, u8)>)
        ensures
            out@ == around(self.w, self.h, x as int, y as int),
    {
        let cx: i32 = x as i32;
        let cy: i32 = y as i32;
        let mut out: Vec<(u8, u8)> = Vec::new();
        self.push_if_inside(&mut out, cx - 1, cy - 1);
        self.push_if_inside(&mut out, cx, cy - 1);
        self.push_if_inside(&mut out, cx + 1, cy - 1);
        self.push_if_inside(&mut out, cx - 1, cy);
        self.push_if_inside(&mut out, cx + 1, cy);
        self.push_if_inside(&mut out, cx - 1, cy + 1);
        self.push_if_inside(&mut out, cx, cy + 1);
        self.push_if_inside(&mut out, cx + 1, cy + 1);
        assert(out@ =~= around(self.w, self.h, x as int, y as int));
        out
    }
}

// ---------------------------------------------------------------------------
// Laying the mines.
// ---------------------------------------------------------------------------
/// No mine goes here: the first click and what touches it.
pub open spec fn kept_clear(w: u8, h: u8, first: (u8, u8), i: int) -> bool {
    let a = around(w, h, first.0 as int, first.1 as int);
    ||| i == place(w, first.0 as int, first.1 as int)
    ||| exists|k: int| 0 <= k < a.len() && i == place(w, (#[trigger] a[k]).0 as int, a[k].1 as int)
}

/// The places below `n` where a mine may go, in order.
pub open spec fn free_places(w: u8, h: u8, first: (u8, u8), n: nat) -> Seq<usize>
    decreases n,
{
    if n == 0 {
        seq![]
    } else {
        let before = free_places(w, h, first, (n - 1) as nat);
        if kept_clear(w, h, first, n - 1) {
            before
        } else {
            before.push((n - 1) as usize)
        }
    }
}

/// The pool after `k` steps of a Fisher–Yates shuffle from the front, and the
/// generator's state: step `i` swaps slot `i` with a slot drawn from `i` on.
pub open spec fn shuffled(pool: Seq<usize>, s: u64, k: nat) -> (Seq<usize>, u64)
    decreases k,
{
    if k == 0 {
        (pool, s)
    } else {
        let i = k - 1;
        let (p, t) = shuffled(pool, s, i as nat);
        let (r, u) = draw(t, (p.len() - i) as u64);
        (p.update(i, p[i + r]).update(i + r, p[i]), u)
    }
}

/// How many mines a pool can take.
pub open spec fn takes(mines: u16, pool: Seq<usize>) -> nat {
    if mines <= pool.len() {
        mines as nat
    } else {
        pool.len()
    }
}

/// The places that get a mine, in the order they are drawn.
pub open spec fn mine_picks(
    w: u8,
    h: u8,
    mines: u16,
    size: nat,
    seed: u64,
    first: (u8, u8),
) -> Seq<usize> {
    let pool = free_places(w, h, first, size);
    let k = takes(mines, pool);
    shuffled(pool, seeded(seed), k).0.take(k as int)
}

/// The cells with a mine more at each of the picks.
pub open spec fn mined(cells: Seq<Cell>, picks: Seq<usize>) -> Seq<Cell> {
    Seq::new(
        cells.len(),
        |i: int| Cell { mine: cells[i].mine || picks.contains(i as usize), ..cells[i] },
    )
}

/// The cells with the number of every cell that is no mine set to the mines
/// around it.
pub open spec fn counted(cells: Seq<Cell>, w: u8, h: u8) -> Seq<Cell> {
    Seq::new(
        cells.len(),
        |i: int|
            if cells[i].mine {
                cells[i]
            } else {
                Cell {
                    adj: mines_around(cells, w, h, i % w as int, i / w as int) as u8,
                    ..cells[i]
                }
            },
    )
}

/// The cells once the mines are laid.
pub open spec fn dealt(
    cells: Seq<Cell>,
    w: u8,
    h: u8,
    mines: u16,
    seed: u64,
    first: (u8, u8),
) -> Seq<Cell> {
    counted(mined(cells, mine_picks(w, h, mines, cells.len(), seed, first)), w, h)
}

proof fn lemma_free_places(w: u8, h: u8, first: (u8, u8), n: nat)
    requires
        n <= 65025,
    ensures
        free_places(w, h, first, n).len() <= n,
        free_places(w, h, first, n).no_duplicates(),
        forall|k: int|
            0 <= k < free_places(w, h, first, n).len() ==> {
                &&& (#[trigger] free_places(w, h, first, n)[k]) < n
                &&& !kept_clear(w, h, first, free_places(w, h, first, n)[k] as int)
            },
    decreases n,
{
    if n > 0 {
        lemma_free_places(w, h, first, (n - 1) as nat);
    }
}

/// A shuffle keeps the length, and what is in the pool, once each.
proof fn lemma_shuffled(pool: Seq<usize>, s: u64, k: nat)
    requires
        k <= pool.len() <= u64::MAX,
        pool.no_duplicates(),
    ensures
        shuffled(pool, s, k).0.len() == pool.len(),
        shuffled(pool, s, k).0.no_duplicates(),
        forall|j: int|
            0 <= j < pool.len() ==> pool.contains(#[trigger] shuffled(pool, s, k).0[j]),
    decreases k,
{
    if k == 0 {
        assert forall|j: int| 0 <= j < pool.len() implies pool.contains(
            #[trigger] shuffled(pool, s, k).0[j],
        ) by {
            assert(pool.contains(pool[j]));
        }
    } else {
        let i = k - 1;
        lemma_shuffled(pool, s, i as nat);
        let (p, t) = shuffled(pool, s, i as nat);
        let (r, u) = draw(t, (p.len() - i) as u64);
        assert(i + r < p.len());
    }
}

pub proof fn lemma_mines_around_same(a: Seq<Cell>, b: Seq<Cell>, w: u8, h: u8, x: int, y: int)
    requires
        a.len() == b.len() == w * h,
        forall|i: int| 0 <= i < a.len() ==> (#[trigger] a[i]).mine == b[i].mine,
    ensures
        mines_around(a, w, h, x, y) == mines_around(b, w, h, x, y),
{
    assert forall|nx: int, ny: int| inside(w, h, nx, ny) implies #[trigger] mine_there(
        a,
        w,
        h,
        nx,
        ny,
    ) == mine_there(b, w, h, nx, ny) by {
        lemma_place(w, h, nx, ny);
        assert(a[place(w, nx, ny)].mine == b[place(w, nx, ny)].mine);
    }
}

impl Board {
    /// Lays the mines, away from the first click. Deterministic given
    /// `(seed, first_click)`: both are in the event log, so every peer
    /// reconstructs this exact layout without being told it. A board that
    /// cannot hold all its mines gets as many as fit.
    pub fn place_mines(&mut self, seed: u64, first_click: (u8, u8))
        requires
            old(self).wf(),
        ensures
            final(self).wf(),
            final(self).w == old(self).w,
            final(self).h == old(self).h,
            final(self).mines == old(self).mines,
            final(self)@ == dealt(
                old(self)@,
                old(self).w,
                old(self).h,
                old(self).mines,
                seed,
                first_click,
            ),
    {
        let ghost before = self@;
        let ghost w = self.w;
        let ghost h = self.h;
        let (sx, sy) = first_click;
        let near: Vec<(u8, u8)> = self.neighbors(sx, sy);
        let centre: usize = self.idx(sx, sy);
        let size: usize = self.cells.len();
        proof {
            assert(w * h <= 255 * 255) by (nonlinear_arith)
                requires
                    0 <= w <= 255,
                    0 <= h <= 255,
            ;
        }

        let mut pool: Vec<usize> = Vec::new();
        let mut i: usize = 0;
        while i < size
            invariant
                i <= size,
                pool@ == free_places(w, h, first_click, i as nat),
                near@ == around(w, h, sx as int, sy as int),
                centre == place(w, sx as int, sy as int),
                first_click == (sx, sy),
                self.w == w,
            decreases size - i,
        {
            let mut clear: bool = i == centre;
            let mut k: usize = 0;
            while k < near.len()
                invariant
                    k <= near.len(),
                    clear <==> (i == centre || exists|m: int|
                        0 <= m < k && i == place(w, (#[trigger] near@[m]).0 as int, near@[m].1 as int)),
                    self.w == w,
                decreases near.len() - k,
            {
                if self.idx(near[k].0, near[k].1) == i {
                    clear = true;
                }
                k = k + 1;
            }
            if !clear {
                pool.push(i);
            }
            i = i + 1;
        }
        proof {
            lemma_free_places(w, h, first_click, size as nat);
        }
        let ghost full = pool@;

        let k: usize = if (self.mines as usize) < pool.len() {
            self.mines as usize
        } else {
            pool.len()
        };

        // Shuffle exactly the first k slots, take those.
        let mut rng = Rng::new(seed);
        let mut n: usize = 0;
        assert(self@ =~= mined(before, pool@.take(0)));
        while n < k
            invariant
                n <= k <= full.len(),
                full.len() <= 65025,
                before.len() <= 65025,
                full.no_duplicates(),
                forall|j: int| 0 <= j < full.len() ==> (#[trigger] full[j]) < before.len(),
                (pool@, rng@) == shuffled(full, seeded(seed), n as nat),
                self@ == mined(before, pool@.take(n as int)),
                self.w == w,
                self.h == h,
                self.mines == old(self).mines,
            decreases k - n,
        {
            proof {
                lemma_shuffled(full, seeded(seed), n as nat);
                lemma_shuffled(full, seeded(seed), (n + 1) as nat);
            }
            let ghost was = pool@;
            let left: u64 = (pool.len() - n) as u64;
            let j: usize = n + rng.below(left) as usize;
            let a: usize = pool[n];
            let b: usize = pool[j];
            pool.set(n, b);
            pool.set(j, a);
            assert(full.contains(shuffled(full, seeded(seed), (n + 1) as nat).0[n as int]));
            let mut c: Cell = self.cells[pool[n]];
            c.mine = true;
            self.cells.set(pool[n], c);
            proof {
                let had = was.take(n as int);
                let now = pool@.take(n + 1);
                assert(now =~= had.push(b));
                assert forall|v: usize| now.contains(v) <==> (had.contains(v) || v == b) by {
                    if had.contains(v) {
                        let m = choose|m: int| 0 <= m < had.len() && had[m] == v;
                        assert(now[m] == v);
                    }
                    if v == b {
                        assert(now[n as int] == v);
                    }
                    if now.contains(v) && v != b {
                        let m = choose|m: int| 0 <= m < now.len() && now[m] == v;
                        assert(had[m] == v);
                    }
                }
                assert(self@ =~= mined(before, now));
            }
            n = n + 1;
        }
        proof {
            lemma_shuffled(full, seeded(seed), k as nat);
        }
        self.count_adjacent();
    }

    fn mine_at(&self, x: i32, y: i32) -> (n: u8)
        requires
            self.wf(),
        ensures
            n == mine_there(self@, self.w, self.h, x as int, y as int),
    {
        if self.in_bounds(x, y) {
            proof {
                lemma_place(self.w, self.h, x as int, y as int);
            }
            if self.get(x as u8, y as u8).mine {
                1
            } else {
                0
            }
        } else {
            0
        }
    }

    /// Sets the number of every cell that is no mine.
    pub fn count_adjacent(&mut self)
        requires
            old(self).wf(),
        ensures
            final(self).wf(),
            final(self).w == old(self).w,
            final(self).h == old(self).h,
            final(self).mines == old(self).mines,
            final(self)@ == counted(old(self)@, old(self).w, old(self).h),
    {
        let ghost before = self@;
        let ghost after = counted(self@, self.w, self.h);
        let w: usize = self.w as usize;
        let mut i: usize = 0;
        while i < self.cells.len()
            invariant
                self.wf(),
                w == self.w,
                self.w == old(self).w,
                self.h == old(self).h,
                self.mines == old(self).mines,
                i <= before.len(),
                self@.len() == before.len(),
                after == counted(before, self.w, self.h),
                forall|j: int| 0 <= j < i ==> self@[j] == #[trigger] after[j],
                forall|j: int| i <= j < before.len() ==> self@[j] == #[trigger] before[j],
            decreases before.len() - i,
        {
            proof {
                lemma_place_back(self.w, self.h, i as int);
            }
            let mut c: Cell = self.cells[i];
            if !c.mine {
                let x: i32 = (i % w) as i32;
                let y: i32 = (i / w) as i32;
                c.adj = self.mine_at(x - 1, y - 1) + self.mine_at(x, y - 1) + self.mine_at(
                    x + 1,
                    y - 1,
                ) + self.mine_at(x - 1, y) + self.mine_at(x + 1, y) + self.mine_at(x - 1, y + 1)
                    + self.mine_at(x, y + 1) + self.mine_at(x + 1, y + 1);
                proof {
                    assert forall|j: int| 0 <= j < before.len() implies (#[trigger] self@[j]).mine
                        == before[j].mine by {
                        if j < i {
                            assert(self@[j] == after[j]);
                        } else {
                            assert(self@[j] == before[j]);
                        }
                    }
                    lemma_mines_around_same(self@, before, self.w, self.h, x as int, y as int);
                }
                self.cells.set(i, c);
            }
            i = i + 1;
        }
        assert(self@ =~= after);
    }
}

// ---------------------------------------------------------------------------
// Opening cells.
// ---------------------------------------------------------------------------
/// A cell that opens its neighbours along with itself.
pub open spec fn spreads(c: Cell) -> bool {
    c.adj == 0 && !c.mine
}

/// A walk over hidden cells, each touching the next, in which every cell but
/// the last spreads.
pub open spec fn is_trail(cells: Seq<Cell>, w: u8, h: u8, p: Seq<int>) -> bool {
    &&& p.len() > 0
    &&& forall|k: int|
        0 <= k < p.len() ==> 0 <= #[trigger] p[k] < cells.len() && cells[p[k]].state
            == Reveal::Hidden
    &&& forall|k: int|
        0 <= k < p.len() - 1 ==> spreads(cells[#[trigger] p[k]]) && touching(w, h, p[k], p[k + 1])
}

/// A click on `from` opens `to`.
pub open spec fn reaches(cells: Seq<Cell>, w: u8, h: u8, from: int, to: int) -> bool {
    exists|p: Seq<int>| #[trigger]
        is_trail(cells, w, h, p) && p[0] == from && p.last() == to
}

/// The cell, open.
pub open spec fn shown(c: Cell) -> Cell {
    Cell { state: Reveal::Shown, ..c }
}

/// The cells after a click on place `from`.
pub open spec fn opened(cells: Seq<Cell>, w: u8, h: u8, from: int) -> Seq<Cell> {
    Seq::new(
        cells.len(),
        |i: int|
            if reaches(cells, w, h, from, i) {
                shown(cells[i])
            } else {
                cells[i]
            },
    )
}

/// The cells after a click on each of the places, in turn.
pub open spec fn opened_each(cells: Seq<Cell>, w: u8, h: u8, at: Seq<int>) -> Seq<Cell>
    decreases at.len(),
{
    if at.len() == 0 {
        cells
    } else {
        opened(opened_each(cells, w, h, at.drop_last()), w, h, at.last())
    }
}

/// Where columns and rows are.
pub open spec fn places(w: u8, at: Seq<(u8, u8)>) -> Seq<int> {
    at.map_values(|p: (u8, u8)| place(w, p.0 as int, p.1 as int))
}

/// The cells after a click on column `x` of row `y`. A column past the edge
/// runs on into the rows below, and opens the cell it comes to there; but what
/// lies around it is what lies around the column.
pub open spec fn clicked(cells: Seq<Cell>, w: u8, h: u8, x: u8, y: u8) -> Seq<Cell> {
    let i = place(w, x as int, y as int);
    if inside(w, h, x as int, y as int) {
        opened(cells, w, h, i)
    } else if cells[i].state != Reveal::Hidden {
        cells
    } else {
        let open = cells.update(i, shown(cells[i]));
        if spreads(cells[i]) {
            opened_each(open, w, h, places(w, around(w, h, x as int, y as int)))
        } else {
            open
        }
    }
}

/// Where a cell goes when its flag is toggled. An open cell stays as it is.
pub open spec fn toggled(c: Cell) -> Cell {
    Cell {
        state: match c.state {
            Reveal::Hidden => Reveal::Flagged,
            Reveal::Flagged => Reveal::Hidden,
            Reveal::Shown => Reveal::Shown,
        },
        ..c
    }
}

/// Where a cell goes when it is claimed. One that is flagged or open stays.
pub open spec fn claimed(c: Cell) -> Cell {
    Cell {
        state: match c.state {
            Reveal::Hidden => Reveal::Flagged,
            Reveal::Flagged => Reveal::Flagged,
            Reveal::Shown => Reveal::Shown,
        },
        ..c
    }
}

/// A mine has been opened.
pub open spec fn blown(cells: Seq<Cell>) -> bool {
    exists|i: int| 0 <= i < cells.len() && (#[trigger] cells[i]).mine && cells[i].state == Reveal::Shown
}

/// Everything but the mines has been opened.
pub open spec fn cleared(cells: Seq<Cell>) -> bool {
    forall|i: int|
        0 <= i < cells.len() ==> (#[trigger] cells[i]).mine || cells[i].state == Reveal::Shown
}

pub open spec fn status_of(cells: Seq<Cell>) -> Status {
    if blown(cells) {
        Status::Lost
    } else if cleared(cells) {
        Status::Won
    } else {
        Status::Playing
    }
}

pub open spec fn is_hidden() -> spec_fn(Cell) -> bool {
    |c: Cell| c.state == Reveal::Hidden
}

proof fn lemma_reaches_itself(cells: Seq<Cell>, w: u8, h: u8, i: int)
    requires
        0 <= i < cells.len(),
        cells[i].state == Reveal::Hidden,
    ensures
        reaches(cells, w, h, i, i),
{
    let p = seq![i];
    assert(is_trail(cells, w, h, p) && p[0] == i && p.last() == i);
}

/// One more step at the end of a walk.
proof fn lemma_reaches_step(cells: Seq<Cell>, w: u8, h: u8, from: int, mid: int, to: int)
    requires
        reaches(cells, w, h, from, mid),
        spreads(cells[mid]),
        touching(w, h, mid, to),
        0 <= to < cells.len(),
        cells[to].state == Reveal::Hidden,
    ensures
        reaches(cells, w, h, from, to),
{
    let p = choose|p: Seq<int>| #[trigger]
        is_trail(cells, w, h, p) && p[0] == from && p.last() == mid;
    let q = p.push(to);
    assert forall|k: int| 0 <= k < q.len() - 1 implies spreads(cells[#[trigger] q[k]]) && touching(
        w,
        h,
        q[k],
        q[k + 1],
    ) by {
        if k < p.len() - 1 {
            assert(q[k] == p[k] && q[k + 1] == p[k + 1]);
        }
    }
    assert(is_trail(cells, w, h, q) && q[0] == from && q.last() == to);
}

/// What is reached was hidden, and lies on the grid.
proof fn lemma_reached(cells: Seq<Cell>, w: u8, h: u8, from: int, to: int)
    requires
        reaches(cells, w, h, from, to),
    ensures
        0 <= from < cells.len(),
        cells[from].state == Reveal::Hidden,
        0 <= to < cells.len(),
        cells[to].state == Reveal::Hidden,
{
    let p = choose|p: Seq<int>| #[trigger]
        is_trail(cells, w, h, p) && p[0] == from && p.last() == to;
    assert(p[0] == from && p[p.len() - 1] == to);
}

/// A walk that starts in a set which no step leaves ends in it.
proof fn lemma_trail_stays(
    cells: Seq<Cell>,
    w: u8,
    h: u8,
    p: Seq<int>,
    open: spec_fn(int) -> bool,
    k: int,
)
    requires
        is_trail(cells, w, h, p),
        0 <= k < p.len(),
        open(p[0]),
        forall|i: int, j: int|
            open(i) && 0 <= i < cells.len() && spreads(cells[i]) && cells[i].state
                == Reveal::Hidden && #[trigger] touching(w, h, i, j) && cells[j].state
                == Reveal::Hidden ==> open(j),
    ensures
        open(p[k]),
    decreases k,
{
    if k > 0 {
        lemma_trail_stays(cells, w, h, p, open, k - 1);
        assert(0 <= p[k - 1] < cells.len());
        assert(touching(w, h, p[k - 1], p[k - 1 + 1]));
        assert(cells[p[k]].state == Reveal::Hidden);
    }
}

/// Place `j` stands on the stack.
spec fn waits(stack: Seq<(u8, u8)>, w: u8, j: int) -> bool {
    exists|k: int|
        0 <= k < stack.len() && j == place(w, (#[trigger] stack[k]).0 as int, stack[k].1 as int)
}

/// Midway through a flood from `start`: what is open was reached, what is on
/// the stack would be, and nothing next to an open cell that spreads is
/// forgotten.
#[verifier::opaque]
spec fn flooding(
    c0: Seq<Cell>,
    now: Seq<Cell>,
    stack: Seq<(u8, u8)>,
    w: u8,
    h: u8,
    start: int,
) -> bool {
    &&& now.len() == c0.len() == w * h
    &&& 0 <= start < c0.len()
    &&& forall|k: int|
        0 <= k < stack.len() ==> inside(w, h, (#[trigger] stack[k]).0 as int, stack[k].1 as int)
    &&& forall|k: int|
        0 <= k < stack.len() ==> {
            let j = place(w, (#[trigger] stack[k]).0 as int, stack[k].1 as int);
            c0[j].state == Reveal::Hidden ==> reaches(c0, w, h, start, j)
        }
    &&& forall|i: int|
        0 <= i < c0.len() ==> {
            ||| #[trigger] now[i] == c0[i]
            ||| reaches(c0, w, h, start, i) && now[i] == shown(c0[i])
        }
    &&& c0[start].state == Reveal::Hidden ==> now[start] == shown(c0[start]) || waits(
        stack,
        w,
        start,
    )
    &&& forall|i: int, j: int|
        #![trigger touching(w, h, i, j)]
        touching(w, h, i, j) && spreads(c0[i]) && c0[i].state == Reveal::Hidden && now[i] == shown(
            c0[i],
        ) && c0[j].state == Reveal::Hidden ==> now[j] == shown(c0[j]) || waits(stack, w, j)
}

proof fn lemma_flood_starts(c0: Seq<Cell>, w: u8, h: u8, at: (u8, u8))
    requires
        c0.len() == w * h,
        inside(w, h, at.0 as int, at.1 as int),
    ensures
        flooding(c0, c0, seq![at], w, h, place(w, at.0 as int, at.1 as int)),
{
    reveal(flooding);
    let start = place(w, at.0 as int, at.1 as int);
    lemma_place(w, h, at.0 as int, at.1 as int);
    if c0[start].state == Reveal::Hidden {
        lemma_reaches_itself(c0, w, h, start);
    }
    assert(seq![at][0] == at);
    assert(waits(seq![at], w, start));
}

proof fn lemma_flood_top(
    c0: Seq<Cell>,
    now: Seq<Cell>,
    stack: Seq<(u8, u8)>,
    w: u8,
    h: u8,
    start: int,
)
    requires
        flooding(c0, now, stack, w, h, start),
        stack.len() > 0,
    ensures
        inside(w, h, stack.last().0 as int, stack.last().1 as int),
        now.len() == w * h,
{
    reveal(flooding);
    assert(stack.last() == stack[stack.len() - 1]);
}

proof fn lemma_waits_below(stack: Seq<(u8, u8)>, w: u8, j: int)
    requires
        stack.len() > 0,
        waits(stack, w, j),
        j != place(w, stack.last().0 as int, stack.last().1 as int),
    ensures
        waits(stack.drop_last(), w, j),
{
    let k = choose|k: int|
        0 <= k < stack.len() && j == place(w, (#[trigger] stack[k]).0 as int, stack[k].1 as int);
    assert(stack.drop_last()[k] == stack[k]);
}

proof fn lemma_waits_longer(stack: Seq<(u8, u8)>, more: Seq<(u8, u8)>, w: u8, j: int)
    requires
        waits(stack, w, j),
    ensures
        waits(stack + more, w, j),
{
    let k = choose|k: int|
        0 <= k < stack.len() && j == place(w, (#[trigger] stack[k]).0 as int, stack[k].1 as int);
    assert((stack + more)[k] == stack[k]);
}

proof fn lemma_flood_skips(
    c0: Seq<Cell>,
    now: Seq<Cell>,
    stack: Seq<(u8, u8)>,
    w: u8,
    h: u8,
    start: int,
)
    requires
        flooding(c0, now, stack, w, h, start),
        stack.len() > 0,
        now[place(w, stack.last().0 as int, stack.last().1 as int)].state != Reveal::Hidden,
    ensures
        flooding(c0, now, stack.drop_last(), w, h, start),
{
    reveal(flooding);
    let top = place(w, stack.last().0 as int, stack.last().1 as int);
    lemma_flood_top(c0, now, stack, w, h, start);
    lemma_place(w, h, stack.last().0 as int, stack.last().1 as int);
    assert(c0[top].state == Reveal::Hidden ==> now[top] == shown(c0[top]));
    let less = stack.drop_last();
    assert forall|j: int| waits(stack, w, j) && j != top implies waits(less, w, j) by {
        lemma_waits_below(stack, w, j);
    }
    assert forall|k: int| 0 <= k < less.len() implies #[trigger] less[k] == stack[k] by {}
}

proof fn lemma_flood_opens(
    c0: Seq<Cell>,
    now: Seq<Cell>,
    stack: Seq<(u8, u8)>,
    w: u8,
    h: u8,
    start: int,
)
    requires
        flooding(c0, now, stack, w, h, start),
        stack.len() > 0,
        now[place(w, stack.last().0 as int, stack.last().1 as int)].state == Reveal::Hidden,
    ensures
        ({
            let (x, y) = stack.last();
            let i = place(w, x as int, y as int);
            let near = if spreads(now[i]) {
                around(w, h, x as int, y as int)
            } else {
                seq![]
            };
            flooding(c0, now.update(i, shown(now[i])), stack.drop_last() + near, w, h, start)
        }),
{
    reveal(flooding);
    let (x, y) = stack.last();
    let i = place(w, x as int, y as int);
    lemma_flood_top(c0, now, stack, w, h, start);
    lemma_place(w, h, x as int, y as int);
    let near = if spreads(now[i]) {
        around(w, h, x as int, y as int)
    } else {
        seq![]
    };
    let after = now.update(i, shown(now[i]));
    let less = stack.drop_last();
    let next = less + near;
    assert(now[i] == c0[i]);
    assert(stack[stack.len() - 1] == stack.last());
    assert(reaches(c0, w, h, start, i));
    lemma_around_touches(w, h, x as int, y as int);
    assert forall|k: int| 0 <= k < next.len() implies {
        let s = #[trigger] next[k];
        let j = place(w, s.0 as int, s.1 as int);
        &&& inside(w, h, s.0 as int, s.1 as int)
        &&& c0[j].state == Reveal::Hidden ==> reaches(c0, w, h, start, j)
    } by {
        if k < less.len() {
            assert(next[k] == stack[k]);
        } else {
            let s = near[k - less.len()];
            assert(next[k] == s);
            let j = place(w, s.0 as int, s.1 as int);
            if c0[j].state == Reveal::Hidden {
                lemma_place(w, h, s.0 as int, s.1 as int);
                lemma_reaches_step(c0, w, h, start, i, j);
            }
        }
    }
    assert forall|j: int| waits(stack, w, j) && j != i implies waits(next, w, j) by {
        lemma_waits_below(stack, w, j);
        lemma_waits_longer(less, near, w, j);
    }
    assert forall|j: int| spreads(c0[i]) && #[trigger] touching(w, h, i, j) implies waits(
        next,
        w,
        j,
    ) by {
        lemma_place_back(w, h, j);
        let s = ((j % w as int) as u8, (j / w as int) as u8);
        assert(near.contains(s));
        let k = choose|k: int| 0 <= k < near.len() && near[k] == s;
        assert(next[less.len() + k] == s);
    }
    assert forall|m: int, j: int|
        #![trigger touching(w, h, m, j)]
        touching(w, h, m, j) && spreads(c0[m]) && c0[m].state == Reveal::Hidden && after[m]
            == shown(c0[m]) && c0[j].state == Reveal::Hidden implies after[j] == shown(c0[j])
        || waits(next, w, j) by {
        if m != i && j != i {
            assert(after[m] == now[m] && after[j] == now[j]);
        }
    }
}

proof fn lemma_flood_ends(
    c0: Seq<Cell>,
    now: Seq<Cell>,
    stack: Seq<(u8, u8)>,
    w: u8,
    h: u8,
    start: int,
)
    requires
        flooding(c0, now, stack, w, h, start),
        stack.len() == 0,
    ensures
        now == opened(c0, w, h, start),
{
    reveal(flooding);
    let open = |j: int| now[j] == shown(c0[j]);
    assert forall|m: int, n: int|
        open(m) && 0 <= m < c0.len() && spreads(c0[m]) && c0[m].state == Reveal::Hidden
            && #[trigger] touching(w, h, m, n) && c0[n].state == Reveal::Hidden implies open(
        n,
    ) by {
        assert(!waits(stack, w, n));
    }
    assert(!waits(stack, w, start));
    assert forall|j: int| 0 <= j < c0.len() implies now[j] == #[trigger] opened(
        c0,
        w,
        h,
        start,
    )[j] by {
        if reaches(c0, w, h, start, j) {
            lemma_reached(c0, w, h, start, j);
            let p = choose|p: Seq<int>| #[trigger]
                is_trail(c0, w, h, p) && p[0] == start && p.last() == j;
            assert(open(p[0]));
            lemma_trail_stays(c0, w, h, p, open, p.len() - 1);
        }
    }
    assert(now =~= opened(c0, w, h, start));
}

impl Board {
    /// Opens `(x, y)`, and on through every cell with nothing around it.
    /// Only hidden cells open: flags are walls to it.
    pub fn reveal_cell(&mut self, x: u8, y: u8)
        requires
            old(self).wf(),
            place(old(self).w, x as int, y as int) < old(self)@.len(),
        ensures
            final(self).wf(),
            final(self).w == old(self).w,
            final(self).h == old(self).h,
            final(self).mines == old(self).mines,
            final(self)@ == clicked(old(self)@, old(self).w, old(self).h, x, y),
    {
        if self.in_bounds(x as i32, y as i32) {
            self.flood(x, y);
            return;
        }
        let ghost c0 = self@;
        let ghost w = self.w;
        let ghost h = self.h;
        let i: usize = self.idx(x, y);
        let mut c: Cell = self.cells[i];
        if c.state == Reveal::Hidden {
            let spread: bool = c.adj == 0 && !c.mine;
            c.state = Reveal::Shown;
            self.cells.set(i, c);
            if spread {
                let near: Vec<(u8, u8)> = self.neighbors(x, y);
                let ghost open = self@;
                let ghost at = places(w, near@);
                let mut k: usize = 0;
                assert(at.take(0) =~= seq![]);
                while k < near.len()
                    invariant
                        k <= near@.len(),
                        self.wf(),
                        self.w == w,
                        self.h == h,
                        self.mines == old(self).mines,
                        near@ == around(w, h, x as int, y as int),
                        at == places(w, near@),
                        self@ == opened_each(open, w, h, at.take(k as int)),
                    decreases near@.len() - k,
                {
                    proof {
                        lemma_around_inside(w, h, x as int, y as int, k as int);
                        assert(at.take(k + 1).drop_last() =~= at.take(k as int));
                    }
                    self.flood(near[k].0, near[k].1);
                    k = k + 1;
                }
                assert(at.take(k as int) =~= at);
            }
        }
    }

    /// Opens a place on the grid, and what it leads to.
    fn flood(&mut self, x: u8, y: u8)
        requires
            old(self).wf(),
            inside(old(self).w, old(self).h, x as int, y as int),
        ensures
            final(self).wf(),
            final(self).w == old(self).w,
            final(self).h == old(self).h,
            final(self).mines == old(self).mines,
            final(self)@ == opened(
                old(self)@,
                old(self).w,
                old(self).h,
                place(old(self).w, x as int, y as int),
            ),
    {
        let ghost c0 = self@;
        let ghost w = self.w;
        let ghost h = self.h;
        let ghost start = place(w, x as int, y as int);
        let mut stack: Vec<(u8, u8)> = vec![(x, y)];
        proof {
            lemma_place(w, h, x as int, y as int);
            assert(stack@ =~= seq![(x, y)]);
            lemma_flood_starts(c0, w, h, (x, y));
        }
        while stack.len() > 0
            invariant
                self.wf(),
                self.w == w,
                self.h == h,
                self.mines == old(self).mines,
                flooding(c0, self@, stack@, w, h, start),
            decreases count(self@, is_hidden()), stack@.len(),
        {
            let ghost before = self@;
            let ghost waiting = stack@;
            let (cx, cy) = stack.pop().unwrap();
            let i: usize = self.idx(cx, cy);
            proof {
                lemma_flood_top(c0, before, waiting, w, h, start);
                lemma_place(w, h, cx as int, cy as int);
            }
            let mut c: Cell = self.cells[i];
            if c.state == Reveal::Hidden {
                let spread: bool = c.adj == 0 && !c.mine;
                c.state = Reveal::Shown;
                proof {
                    lemma_count_update(self@, is_hidden(), i as int, c);
                    lemma_flood_opens(c0, before, waiting, w, h, start);
                }
                self.cells.set(i, c);
                if spread {
                    let mut near: Vec<(u8, u8)> = self.neighbors(cx, cy);
                    stack.append(&mut near);
                } else {
                    assert(stack@ =~= stack@ + seq![]);
                }
            } else {
                proof {
                    lemma_flood_skips(c0, before, waiting, w, h, start);
                }
            }
        }
        proof {
            lemma_flood_ends(c0, self@, stack@, w, h, start);
        }
    }

    /// Derived, never stored. Flags do not win: flagging every mine is not
    /// the end of a game, clearing every other cell is.
    pub fn status(&self) -> (s: Status)
        ensures
            s == status_of(self@),
    {
        let mut won: bool = true;
        let mut i: usize = 0;
        while i < self.cells.len()
            invariant
                i <= self@.len(),
                forall|j: int|
                    0 <= j < i ==> !((#[trigger] self@[j]).mine && self@[j].state == Reveal::Shown),
                won <==> forall|j: int|
                    0 <= j < i ==> (#[trigger] self@[j]).mine || self@[j].state == Reveal::Shown,
            decreases self@.len() - i,
        {
            let c: Cell = self.cells[i];
            assert(c == self@[i as int]);
            if c.mine && c.state == Reveal::Shown {
                return Status::Lost;
            }
            if !(c.mine || c.state == Reveal::Shown) {
                won = false;
            }
            i = i + 1;
        }
        if won {
            Status::Won
        } else {
            Status::Playing
        }
    }

    /// Flags a hidden cell, or takes its flag away.
    pub fn toggle_flag(&mut self, x: u8, y: u8)
        requires
            place(old(self).w, x as int, y as int) < old(self)@.len(),
        ensures
            final(self).w == old(self).w,
            final(self).h == old(self).h,
            final(self).mines == old(self).mines,
            ({
                let i = place(old(self).w, x as int, y as int);
                final(self)@ == old(self)@.update(i, toggled(old(self)@[i]))
            }),
    {
        let i: usize = self.idx(x, y);
        let mut c: Cell = self.cells[i];
        c.state = match c.state {
            Reveal::Hidden => Reveal::Flagged,
            Reveal::Flagged => Reveal::Hidden,
            Reveal::Shown => Reveal::Shown,
        };
        self.cells.set(i, c);
    }

    /// Flags a hidden cell for good: claiming it again changes nothing.
    pub fn claim(&mut self, x: u8, y: u8)
        requires
            place(old(self).w, x as int, y as int) < old(self)@.len(),
        ensures
            final(self).w == old(self).w,
            final(self).h == old(self).h,
            final(self).mines == old(self).mines,
            ({
                let i = place(old(self).w, x as int, y as int);
                final(self)@ == old(self)@.update(i, claimed(old(self)@[i]))
            }),
    {
        let i: usize = self.idx(x, y);
        let mut c: Cell = self.cells[i];
        if c.state == Reveal::Hidden {
            c.state = Reveal::Flagged;
        }
        self.cells.set(i, c);
    }
}

} // verus!
