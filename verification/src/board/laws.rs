//! What holds of every board, whatever the seed and whatever is clicked.
use vstd::prelude::*;

use crate::board::{
    around, blank, blown, claimed, cleared, clicked, count, counted, dealt, free_places, if_inside,
    inside, is_trail, kept_clear, lemma_around_inside, lemma_around_touches, lemma_count_none,
    lemma_count_update, lemma_free_places, lemma_mines_around_same, lemma_place, lemma_place_back,
    lemma_reached, lemma_reaches_itself, lemma_reaches_step, lemma_shuffled, lemma_trail_stays,
    mine_picks, mine_there, mined, mines_around, opened, opened_each, place, places, reaches, shown,
    shuffled, spreads, status_of, takes, toggled, touching, Cell, Reveal, Status,
};
use crate::rng::{draw, law_a_draw_is_below_its_bound, seeded};

verus! {

// ---------------------------------------------------------------------------
// Where the mines lie.
// ---------------------------------------------------------------------------
pub open spec fn is_mine() -> spec_fn(Cell) -> bool {
    |c: Cell| c.mine
}

/// Every number on the board is right: what a cell without a mine says is how
/// many of the places around it hold one.
pub open spec fn numbered(cells: Seq<Cell>, w: u8, h: u8) -> bool {
    forall|i: int|
        0 <= i < cells.len() && !(#[trigger] cells[i]).mine ==> cells[i].adj == mines_around(
            cells,
            w,
            h,
            i % w as int,
            i / w as int,
        )
}

proof fn lemma_size(w: u8, h: u8)
    ensures
        0 <= w * h <= 65025,
{
    assert(0 <= w * h <= 65025) by (nonlinear_arith)
        requires
            0 <= w <= 255,
            0 <= h <= 255,
    ;
}

proof fn lemma_picks(w: u8, h: u8, mines: u16, seed: u64, first: (u8, u8))
    ensures
        ({
            let size = (w * h) as nat;
            let picks = mine_picks(w, h, mines, size, seed, first);
            &&& picks.len() == takes(mines, free_places(w, h, first, size))
            &&& picks.no_duplicates()
            &&& forall|k: int|
                0 <= k < picks.len() ==> (#[trigger] picks[k]) < size && !kept_clear(
                    w,
                    h,
                    first,
                    picks[k] as int,
                )
        }),
{
    lemma_size(w, h);
    let size = (w * h) as nat;
    let pool = free_places(w, h, first, size);
    let k = takes(mines, pool);
    lemma_free_places(w, h, first, size);
    lemma_shuffled(pool, seeded(seed), k);
    let picks = mine_picks(w, h, mines, size, seed, first);
    assert forall|j: int| 0 <= j < picks.len() implies (#[trigger] picks[j]) < size && !kept_clear(
        w,
        h,
        first,
        picks[j] as int,
    ) by {
        assert(pool.contains(shuffled(pool, seeded(seed), k).0[j]));
    }
}

/// No deal puts a mine on the first click or next to it.
pub proof fn law_the_first_click_has_room(w: u8, h: u8, mines: u16, seed: u64, first: (u8, u8), i: int)
    requires
        inside(w, h, first.0 as int, first.1 as int),
        ({
            let at = place(w, first.0 as int, first.1 as int);
            i == at || touching(w, h, at, i)
        }),
    ensures
        0 <= i < w * h,
        !dealt(blank(w, h), w, h, mines, seed, first)[i].mine,
{
    lemma_size(w, h);
    lemma_picks(w, h, mines, seed, first);
    lemma_place(w, h, first.0 as int, first.1 as int);
    lemma_around_touches(w, h, first.0 as int, first.1 as int);
    let at = place(w, first.0 as int, first.1 as int);
    let a = around(w, h, first.0 as int, first.1 as int);
    if i != at {
        let s = ((i % w as int) as u8, (i / w as int) as u8);
        assert(a.contains(s));
        let k = choose|k: int| 0 <= k < a.len() && a[k] == s;
        lemma_place_back(w, h, i);
        assert(i == place(w, a[k].0 as int, a[k].1 as int));
    }
    assert(kept_clear(w, h, first, i));
    let picks = mine_picks(w, h, mines, (w * h) as nat, seed, first);
    if picks.contains(i as usize) {
        let k = choose|k: int| 0 <= k < picks.len() && picks[k] == i as usize;
        assert(!kept_clear(w, h, first, picks[k] as int));
    }
}

proof fn lemma_mined_count(cells: Seq<Cell>, picks: Seq<usize>)
    requires
        cells.len() <= 65025,
        picks.no_duplicates(),
        forall|k: int| 0 <= k < picks.len() ==> (#[trigger] picks[k]) < cells.len(),
        forall|i: int| 0 <= i < cells.len() ==> !(#[trigger] cells[i]).mine,
    ensures
        count(mined(cells, picks), is_mine()) == picks.len(),
    decreases picks.len(),
{
    if picks.len() == 0 {
        lemma_count_none(mined(cells, picks), is_mine());
    } else {
        let fewer = picks.drop_last();
        let last = picks.last();
        assert(picks[picks.len() - 1] == last);
        assert forall|k: int| 0 <= k < fewer.len() implies (#[trigger] fewer[k]) < cells.len() by {
            assert(fewer[k] == picks[k]);
        }
        lemma_mined_count(cells, fewer);
        let a = mined(cells, fewer);
        let b = mined(cells, picks);
        if fewer.contains(last) {
            let k = choose|k: int| 0 <= k < fewer.len() && fewer[k] == last;
            assert(picks[k] == picks[picks.len() - 1]);
        }
        assert forall|v: usize| picks.contains(v) <==> (fewer.contains(v) || v == last) by {
            if fewer.contains(v) {
                let k = choose|k: int| 0 <= k < fewer.len() && fewer[k] == v;
                assert(picks[k] == v);
            }
            if picks.contains(v) && v != last {
                let k = choose|k: int| 0 <= k < picks.len() && picks[k] == v;
                assert(fewer[k] == v);
            }
        }
        lemma_count_update(a, is_mine(), last as int, b[last as int]);
        assert(b =~= a.update(last as int, b[last as int]));
    }
}

/// As many mines where the mines are the same.
pub proof fn lemma_same_mine_count(cells: Seq<Cell>, changed: Seq<Cell>)
    requires
        cells.len() == changed.len(),
        forall|i: int| 0 <= i < cells.len() ==> (#[trigger] cells[i]).mine == changed[i].mine,
    ensures
        count(cells, is_mine()) == count(changed, is_mine()),
    decreases cells.len(),
{
    if cells.len() > 0 {
        let a = cells.drop_last();
        let b = changed.drop_last();
        assert forall|i: int| 0 <= i < a.len() implies (#[trigger] a[i]).mine == b[i].mine by {
            assert(a[i] == cells[i] && b[i] == changed[i]);
        }
        lemma_same_mine_count(a, b);
        assert(cells[cells.len() - 1].mine == changed[cells.len() - 1].mine);
    }
}

/// The places around the first click, and the click itself.
spec fn clear_set(w: u8, h: u8, first: (u8, u8), k: nat) -> Set<int>
    decreases k,
{
    let a = around(w, h, first.0 as int, first.1 as int);
    if k == 0 {
        set![place(w, first.0 as int, first.1 as int)]
    } else {
        clear_set(w, h, first, (k - 1) as nat).insert(place(w, a[k - 1].0 as int, a[k - 1].1 as int))
    }
}

proof fn lemma_clear_set(w: u8, h: u8, first: (u8, u8), k: nat)
    requires
        k <= around(w, h, first.0 as int, first.1 as int).len(),
    ensures
        clear_set(w, h, first, k).finite(),
        clear_set(w, h, first, k).len() <= k + 1,
        ({
            let a = around(w, h, first.0 as int, first.1 as int);
            forall|i: int|
                clear_set(w, h, first, k).contains(i) <==> (i == place(
                    w,
                    first.0 as int,
                    first.1 as int,
                ) || exists|m: int|
                    0 <= m < k && i == place(w, (#[trigger] a[m]).0 as int, a[m].1 as int))
        }),
    decreases k,
{
    if k > 0 {
        lemma_clear_set(w, h, first, (k - 1) as nat);
    }
}

proof fn lemma_few_kept_clear(w: u8, h: u8, first: (u8, u8), n: nat, kept: Set<int>)
    requires
        n <= 65025,
        kept.finite(),
        forall|i: int| 0 <= i < n && #[trigger] kept_clear(w, h, first, i) ==> kept.contains(i),
        forall|i: int| #[trigger] kept.contains(i) ==> kept_clear(w, h, first, i),
    ensures
        free_places(w, h, first, n).len() + kept.len() >= n,
    decreases n,
{
    if n > 0 {
        let less = kept.remove(n - 1);
        lemma_few_kept_clear(w, h, first, (n - 1) as nat, less);
    }
}

/// Every mine of a deal is laid when the board has room for it beside the
/// first click and what touches it, and as many as there is room for when it
/// has not.
pub proof fn law_the_mines_are_all_laid(w: u8, h: u8, mines: u16, seed: u64, first: (u8, u8))
    ensures
        count(dealt(blank(w, h), w, h, mines, seed, first), is_mine()) == takes(
            mines,
            free_places(w, h, first, (w * h) as nat),
        ),
        mines + 9 <= w * h ==> count(dealt(blank(w, h), w, h, mines, seed, first), is_mine())
            == mines,
{
    lemma_size(w, h);
    lemma_picks(w, h, mines, seed, first);
    let size = (w * h) as nat;
    let picks = mine_picks(w, h, mines, size, seed, first);
    let laid = mined(blank(w, h), picks);
    lemma_mined_count(blank(w, h), picks);
    lemma_same_mine_count(laid, counted(laid, w, h));
    let a = around(w, h, first.0 as int, first.1 as int);
    assert(a.len() <= 8);
    let kept = clear_set(w, h, first, a.len());
    lemma_clear_set(w, h, first, a.len());
    assert forall|i: int| kept.contains(i) <==> #[trigger] kept_clear(w, h, first, i) by {}
    lemma_few_kept_clear(w, h, first, size, kept);
}

/// Every number of a deal is right.
pub proof fn law_the_numbers_are_right(w: u8, h: u8, mines: u16, seed: u64, first: (u8, u8))
    ensures
        numbered(dealt(blank(w, h), w, h, mines, seed, first), w, h),
{
    lemma_size(w, h);
    let laid = mined(blank(w, h), mine_picks(w, h, mines, blank(w, h).len(), seed, first));
    law_counting_sets_the_numbers_right(laid, w, h);
}

/// Counting leaves every number right, wherever the mines lie.
pub proof fn law_counting_sets_the_numbers_right(cells: Seq<Cell>, w: u8, h: u8)
    requires
        cells.len() == w * h,
    ensures
        numbered(counted(cells, w, h), w, h),
{
    let c = counted(cells, w, h);
    assert forall|i: int| 0 <= i < c.len() && !(#[trigger] c[i]).mine implies c[i].adj
        == mines_around(c, w, h, i % w as int, i / w as int) by {
        lemma_mines_around_same(c, cells, w, h, i % w as int, i / w as int);
    }
}

/// The places next to `i` that hold a mine.
pub open spec fn mines_next_to(cells: Seq<Cell>, w: u8, h: u8, i: int) -> Set<int> {
    Set::new(|j: int| touching(w, h, i, j) && cells[j].mine)
}

proof fn lemma_one_more(
    cells: Seq<Cell>,
    w: u8,
    h: u8,
    s: Set<int>,
    x: int,
    y: int,
) -> (t: Set<int>)
    requires
        s.finite(),
        inside(w, h, x, y) ==> !s.contains(place(w, x, y)),
    ensures
        t.finite(),
        t.len() == s.len() + mine_there(cells, w, h, x, y),
        forall|j: int|
            t.contains(j) <==> s.contains(j) || (inside(w, h, x, y) && j == place(w, x, y)
                && cells[j].mine),
{
    if mine_there(cells, w, h, x, y) == 1 {
        s.insert(place(w, x, y))
    } else {
        s
    }
}

/// What is counted around a place is how many places touch it and hold a
/// mine.
pub proof fn law_mines_around_counts_touching_mines(cells: Seq<Cell>, w: u8, h: u8, i: int)
    requires
        cells.len() == w * h,
        0 <= i < w * h,
    ensures
        mines_next_to(cells, w, h, i).finite(),
        mines_next_to(cells, w, h, i).len() == mines_around(
            cells,
            w,
            h,
            i % w as int,
            i / w as int,
        ),
{
    lemma_place_back(w, h, i);
    let x = i % w as int;
    let y = i / w as int;
    assert forall|ax: int, ay: int, bx: int, by: int|
        inside(w, h, ax, ay) && inside(w, h, bx, by) && #[trigger] place(w, ax, ay)
            == #[trigger] place(w, bx, by) implies ax == bx && ay == by by {
        lemma_place(w, h, ax, ay);
        lemma_place(w, h, bx, by);
    }
    let s1 = lemma_one_more(cells, w, h, Set::empty(), x - 1, y - 1);
    let s2 = lemma_one_more(cells, w, h, s1, x, y - 1);
    let s3 = lemma_one_more(cells, w, h, s2, x + 1, y - 1);
    let s4 = lemma_one_more(cells, w, h, s3, x - 1, y);
    let s5 = lemma_one_more(cells, w, h, s4, x + 1, y);
    let s6 = lemma_one_more(cells, w, h, s5, x - 1, y + 1);
    let s7 = lemma_one_more(cells, w, h, s6, x, y + 1);
    let s8 = lemma_one_more(cells, w, h, s7, x + 1, y + 1);
    assert forall|j: int| mines_next_to(cells, w, h, i).contains(j) <==> s8.contains(j) by {
        if 0 <= j < w * h {
            lemma_place_back(w, h, j);
        }
        if s8.contains(j) {
            assert(0 <= j < w * h) by {
                assert forall|ax: int, ay: int| inside(w, h, ax, ay) implies 0 <= #[trigger] place(
                    w,
                    ax,
                    ay,
                ) < w * h by {
                    lemma_place(w, h, ax, ay);
                }
            }
        }
    }
    assert(mines_next_to(cells, w, h, i) =~= s8);
}

/// A corner has three neighbours, an edge five, any other place eight.
pub proof fn law_neighbour_count_is_three_five_or_eight(w: u8, h: u8, x: u8, y: u8)
    requires
        w >= 2,
        h >= 2,
        inside(w, h, x as int, y as int),
    ensures
        ({
            let side = x == 0 || x == w - 1;
            let end = y == 0 || y == h - 1;
            around(w, h, x as int, y as int).len() == if side && end {
                3nat
            } else if side || end {
                5nat
            } else {
                8nat
            }
        }),
{
}

// ---------------------------------------------------------------------------
// What a click opens.
// ---------------------------------------------------------------------------
/// On a board whose numbers are right, a click on a cell without a mine opens
/// no mine.
pub proof fn law_mines_never_open_by_themselves(
    cells: Seq<Cell>,
    w: u8,
    h: u8,
    from: int,
    i: int,
)
    requires
        cells.len() == w * h,
        numbered(cells, w, h),
        reaches(cells, w, h, from, i),
        !cells[from].mine,
    ensures
        !cells[i].mine,
{
    let p = choose|p: Seq<int>| #[trigger]
        is_trail(cells, w, h, p) && p[0] == from && p.last() == i;
    let k = p.len() - 1;
    assert(p[k] == i);
    if k > 0 {
        let j = p[k - 1];
        assert(spreads(cells[j]) && touching(w, h, j, p[k - 1 + 1]));
        law_mines_around_counts_touching_mines(cells, w, h, j);
        if cells[i].mine {
            assert(mines_next_to(cells, w, h, j).contains(i));
            assert(mines_next_to(cells, w, h, j).len() > 0) by {
                vstd::set_lib::lemma_len_subset(set![i], mines_next_to(cells, w, h, j));
            }
        }
    }
}

/// The first click never opens a mine, and always opens the cell it is on.
pub proof fn law_the_first_click_never_hits_a_mine(
    w: u8,
    h: u8,
    mines: u16,
    seed: u64,
    first: (u8, u8),
)
    requires
        inside(w, h, first.0 as int, first.1 as int),
    ensures
        ({
            let at = place(w, first.0 as int, first.1 as int);
            let cells = opened(dealt(blank(w, h), w, h, mines, seed, first), w, h, at);
            !blown(cells) && cells[at].state == Reveal::Shown
        }),
{
    lemma_size(w, h);
    let at = place(w, first.0 as int, first.1 as int);
    lemma_place(w, h, first.0 as int, first.1 as int);
    let cells = dealt(blank(w, h), w, h, mines, seed, first);
    law_the_first_click_has_room(w, h, mines, seed, first, at);
    law_the_numbers_are_right(w, h, mines, seed, first);
    lemma_reaches_itself(cells, w, h, at);
    let after = opened(cells, w, h, at);
    assert forall|i: int| 0 <= i < after.len() && (#[trigger] after[i]).mine implies after[i].state
        != Reveal::Shown by {
        if reaches(cells, w, h, at, i) {
            law_mines_never_open_by_themselves(cells, w, h, at, i);
        }
    }
}

/// A click changes hidden cells only: a flag survives every flood.
pub proof fn law_flags_survive_the_flood(cells: Seq<Cell>, w: u8, h: u8, from: int, i: int)
    requires
        0 <= i < cells.len(),
        cells[i].state != Reveal::Hidden,
    ensures
        opened(cells, w, h, from)[i] == cells[i],
{
    if reaches(cells, w, h, from, i) {
        lemma_reached(cells, w, h, from, i);
    }
}

/// A click on a number or on a mine opens exactly that cell.
pub proof fn law_a_number_opens_alone(cells: Seq<Cell>, w: u8, h: u8, from: int)
    requires
        0 <= from < cells.len(),
        cells[from].state == Reveal::Hidden,
        !spreads(cells[from]),
    ensures
        opened(cells, w, h, from) == cells.update(from, shown(cells[from])),
{
    lemma_reaches_itself(cells, w, h, from);
    assert forall|i: int| reaches(cells, w, h, from, i) implies i == from by {
        let p = choose|p: Seq<int>| #[trigger]
            is_trail(cells, w, h, p) && p[0] == from && p.last() == i;
        if p.len() > 1 {
            assert(spreads(cells[p[0]]));
        }
    }
    assert(opened(cells, w, h, from) =~= cells.update(from, shown(cells[from])));
}

proof fn lemma_reaches_on(cells: Seq<Cell>, w: u8, h: u8, a: int, b: int, c: int)
    requires
        reaches(cells, w, h, a, b),
        reaches(cells, w, h, b, c),
    ensures
        reaches(cells, w, h, a, c),
{
    let p = choose|p: Seq<int>| #[trigger]
        is_trail(cells, w, h, p) && p[0] == a && p.last() == b;
    let q = choose|q: Seq<int>| #[trigger]
        is_trail(cells, w, h, q) && q[0] == b && q.last() == c;
    let r = p.drop_last() + q;
    let n = p.len() - 1;
    assert forall|k: int| 0 <= k < r.len() implies 0 <= #[trigger] r[k] < cells.len()
        && cells[r[k]].state == Reveal::Hidden by {
        if k < n {
            assert(r[k] == p[k]);
        } else {
            assert(r[k] == q[k - n]);
        }
    }
    assert forall|k: int| 0 <= k < r.len() - 1 implies spreads(cells[#[trigger] r[k]]) && touching(
        w,
        h,
        r[k],
        r[k + 1],
    ) by {
        if k < n {
            assert(r[k] == p[k]);
            assert(r[k + 1] == p[k + 1]);
        } else {
            assert(r[k] == q[k - n]);
            assert(r[k + 1] == q[k - n + 1]);
        }
    }
    assert(r[0] == a) by {
        if n > 0 {
            assert(r[0] == p[0]);
        } else {
            assert(r[0] == q[0]);
        }
    }
    assert(is_trail(cells, w, h, r) && r[0] == a && r.last() == c);
}

proof fn lemma_rest_of_trail(cells: Seq<Cell>, w: u8, h: u8, p: Seq<int>, k: int)
    requires
        is_trail(cells, w, h, p),
        0 <= k < p.len(),
    ensures
        reaches(cells, w, h, p[k], p.last()),
{
    let r = p.subrange(k, p.len() as int);
    assert forall|m: int| 0 <= m < r.len() implies 0 <= #[trigger] r[m] < cells.len()
        && cells[r[m]].state == Reveal::Hidden by {
        assert(r[m] == p[k + m]);
    }
    assert forall|m: int| 0 <= m < r.len() - 1 implies spreads(cells[#[trigger] r[m]]) && touching(
        w,
        h,
        r[m],
        r[m + 1],
    ) by {
        assert(r[m] == p[k + m]);
        assert(r[m + 1] == p[k + m + 1]);
    }
    assert(is_trail(cells, w, h, r) && r[0] == p[k] && r.last() == p.last());
}

/// Some click of the list opens `i`.
pub open spec fn some_reaches(cells: Seq<Cell>, w: u8, h: u8, at: Seq<int>, i: int) -> bool {
    exists|k: int| 0 <= k < at.len() && reaches(cells, w, h, #[trigger] at[k], i)
}

/// A list of clicks opens exactly what one of them would open by itself.
pub proof fn law_clicks_open_what_each_would(cells: Seq<Cell>, w: u8, h: u8, at: Seq<int>)
    ensures
        opened_each(cells, w, h, at) == Seq::new(
            cells.len(),
            |i: int|
                if some_reaches(cells, w, h, at, i) {
                    shown(cells[i])
                } else {
                    cells[i]
                },
        ),
    decreases at.len(),
{
    let want = Seq::new(
        cells.len(),
        |i: int|
            if some_reaches(cells, w, h, at, i) {
                shown(cells[i])
            } else {
                cells[i]
            },
    );
    if at.len() > 0 {
        let less = at.drop_last();
        let b = at.last();
        law_clicks_open_what_each_would(cells, w, h, less);
        let mid = opened_each(cells, w, h, less);
        let after = opened(mid, w, h, b);
        assert forall|i: int| 0 <= i < cells.len() implies #[trigger] after[i] == want[i] by {
            lemma_some_reaches_splits(cells, w, h, at, i);
            if reaches(mid, w, h, b, i) {
                let p = choose|p: Seq<int>| #[trigger]
                    is_trail(mid, w, h, p) && p[0] == b && p.last() == i;
                assert forall|k: int| 0 <= k < p.len() implies mid[#[trigger] p[k]]
                    == cells[p[k]] by {
                    assert(mid[p[k]].state == Reveal::Hidden);
                }
                assert(is_trail(cells, w, h, p) && p[0] == b && p.last() == i);
            } else if reaches(cells, w, h, b, i) && !some_reaches(cells, w, h, less, i) {
                let p = choose|p: Seq<int>| #[trigger]
                    is_trail(cells, w, h, p) && p[0] == b && p.last() == i;
                assert forall|k: int| 0 <= k < p.len() implies mid[#[trigger] p[k]]
                    == cells[p[k]] by {
                    if some_reaches(cells, w, h, less, p[k]) {
                        let m = choose|m: int|
                            0 <= m < less.len() && reaches(cells, w, h, #[trigger] less[m], p[k]);
                        lemma_rest_of_trail(cells, w, h, p, k);
                        lemma_reaches_on(cells, w, h, less[m], p[k], i);
                    }
                }
                assert(is_trail(mid, w, h, p) && p[0] == b && p.last() == i);
            }
        }
        assert(after =~= want);
    } else {
        assert(cells =~= want);
    }
}

proof fn lemma_some_reaches_splits(cells: Seq<Cell>, w: u8, h: u8, at: Seq<int>, i: int)
    requires
        at.len() > 0,
    ensures
        some_reaches(cells, w, h, at, i) <==> some_reaches(cells, w, h, at.drop_last(), i)
            || reaches(cells, w, h, at.last(), i),
{
    let less = at.drop_last();
    if some_reaches(cells, w, h, less, i) {
        let k = choose|k: int| 0 <= k < less.len() && reaches(cells, w, h, #[trigger] less[k], i);
        assert(at[k] == less[k]);
    }
    if reaches(cells, w, h, at.last(), i) {
        assert(at[at.len() - 1] == at.last());
    }
    if some_reaches(cells, w, h, at, i) {
        let k = choose|k: int| 0 <= k < at.len() && reaches(cells, w, h, #[trigger] at[k], i);
        if k < less.len() {
            assert(less[k] == at[k]);
        }
    }
}

/// The same clicks in any order, and any number of times each, give the same
/// board.
pub proof fn law_clicks_commute(cells: Seq<Cell>, w: u8, h: u8, a: Seq<int>, b: Seq<int>)
    requires
        forall|i: int| a.contains(i) <==> b.contains(i),
    ensures
        opened_each(cells, w, h, a) == opened_each(cells, w, h, b),
{
    law_clicks_open_what_each_would(cells, w, h, a);
    law_clicks_open_what_each_would(cells, w, h, b);
    assert forall|i: int| some_reaches(cells, w, h, a, i) <==> some_reaches(cells, w, h, b, i) by {
        if some_reaches(cells, w, h, a, i) {
            let k = choose|k: int| 0 <= k < a.len() && reaches(cells, w, h, #[trigger] a[k], i);
            assert(b.contains(a[k]));
            let m = choose|m: int| 0 <= m < b.len() && b[m] == a[k];
            assert(reaches(cells, w, h, b[m], i));
        }
        if some_reaches(cells, w, h, b, i) {
            let k = choose|k: int| 0 <= k < b.len() && reaches(cells, w, h, #[trigger] b[k], i);
            assert(a.contains(b[k]));
            let m = choose|m: int| 0 <= m < a.len() && a[m] == b[k];
            assert(reaches(cells, w, h, a[m], i));
        }
    }
    assert(opened_each(cells, w, h, a) =~= opened_each(cells, w, h, b));
}

/// A second click on the same place changes nothing.
pub proof fn law_a_second_click_changes_nothing(cells: Seq<Cell>, w: u8, h: u8, at: int)
    ensures
        opened(opened(cells, w, h, at), w, h, at) == opened(cells, w, h, at),
{
    let after = opened(cells, w, h, at);
    assert forall|i: int| !reaches(after, w, h, at, i) by {
        if reaches(after, w, h, at, i) {
            lemma_reached(after, w, h, at, i);
            if cells[at].state == Reveal::Hidden {
                lemma_reaches_itself(cells, w, h, at);
            }
        }
    }
    assert(opened(after, w, h, at) =~= after);
}

// ---------------------------------------------------------------------------
// What ends a game.
// ---------------------------------------------------------------------------
/// On a board whose numbers are right and where nothing is flagged, clicking
/// every cell without a mine, and no other, wins.
pub proof fn law_clearing_every_safe_cell_wins(cells: Seq<Cell>, w: u8, h: u8, at: Seq<int>)
    requires
        cells.len() == w * h,
        numbered(cells, w, h),
        forall|i: int| 0 <= i < cells.len() ==> (#[trigger] cells[i]).state == Reveal::Hidden,
        forall|i: int| 0 <= i < cells.len() ==> (!cells[i].mine <==> #[trigger] at.contains(i)),
        forall|k: int| 0 <= k < at.len() ==> 0 <= #[trigger] at[k] < cells.len(),
    ensures
        status_of(opened_each(cells, w, h, at)) == Status::Won,
{
    law_clicks_open_what_each_would(cells, w, h, at);
    let after = opened_each(cells, w, h, at);
    assert forall|i: int| 0 <= i < after.len() implies (#[trigger] after[i]).mine <==> after[i].state
        != Reveal::Shown by {
        if cells[i].mine {
            if some_reaches(cells, w, h, at, i) {
                let k = choose|k: int|
                    0 <= k < at.len() && reaches(cells, w, h, #[trigger] at[k], i);
                assert(at.contains(at[k]));
                law_mines_never_open_by_themselves(cells, w, h, at[k], i);
            }
        } else {
            assert(at.contains(i));
            let k = choose|k: int| 0 <= k < at.len() && at[k] == i;
            lemma_reaches_itself(cells, w, h, i);
            assert(reaches(cells, w, h, at[k], i));
        }
    }
}

/// Clicking a hidden mine loses.
pub proof fn law_opening_a_mine_loses(cells: Seq<Cell>, w: u8, h: u8, at: int)
    requires
        0 <= at < cells.len(),
        cells[at].mine,
        cells[at].state == Reveal::Hidden,
    ensures
        status_of(opened(cells, w, h, at)) == Status::Lost,
{
    lemma_reaches_itself(cells, w, h, at);
    assert(opened(cells, w, h, at)[at].mine);
}

/// Flags decide nothing: however they change, a game stands as it stood.
pub proof fn law_flags_decide_nothing(cells: Seq<Cell>, i: int)
    requires
        0 <= i < cells.len(),
    ensures
        status_of(cells.update(i, toggled(cells[i]))) == status_of(cells),
        status_of(cells.update(i, claimed(cells[i]))) == status_of(cells),
{
    let t = cells.update(i, toggled(cells[i]));
    let c = cells.update(i, claimed(cells[i]));
    lemma_same_status(cells, t);
    lemma_same_status(cells, c);
}

proof fn lemma_same_status(a: Seq<Cell>, b: Seq<Cell>)
    requires
        a.len() == b.len(),
        forall|i: int|
            0 <= i < a.len() ==> (#[trigger] a[i]).mine == b[i].mine && (a[i].state
                == Reveal::Shown <==> b[i].state == Reveal::Shown),
    ensures
        status_of(a) == status_of(b),
{
    if blown(a) {
        let i = choose|i: int|
            0 <= i < a.len() && (#[trigger] a[i]).mine && a[i].state == Reveal::Shown;
        assert(b[i].mine);
    }
    if blown(b) {
        let i = choose|i: int|
            0 <= i < b.len() && (#[trigger] b[i]).mine && b[i].state == Reveal::Shown;
        assert(a[i].mine);
    }
    if cleared(a) {
        assert forall|i: int| 0 <= i < b.len() implies (#[trigger] b[i]).mine || b[i].state
            == Reveal::Shown by {
            assert(a[i].mine || a[i].state == Reveal::Shown);
        }
    }
    if cleared(b) {
        assert forall|i: int| 0 <= i < a.len() implies (#[trigger] a[i]).mine || a[i].state
            == Reveal::Shown by {
            assert(b[i].mine || b[i].state == Reveal::Shown);
        }
    }
}

/// A flag put and taken away leaves the cell as it was; a claim made twice is
/// a claim made once.
pub proof fn law_flags_come_off_and_claims_stay(c: Cell)
    ensures
        toggled(toggled(c)) == c,
        claimed(claimed(c)) == claimed(c),
{
}

// ---------------------------------------------------------------------------
// The deal, draw by draw.
// ---------------------------------------------------------------------------
/// The first `k` draws of a generator at `s` from a pool that loses one with
/// each: below `n`, below `n - 1`, and so on; and the state they leave.
pub open spec fn rolls(s: u64, n: nat, k: nat) -> (Seq<int>, u64)
    decreases k,
{
    if k == 0 {
        (seq![], s)
    } else {
        let (before, t) = rolls(s, n, (k - 1) as nat);
        let (r, u) = draw(t, (n - (k - 1)) as u64);
        (before.push(r as int), u)
    }
}

/// Draws that a pool of `n` allows.
pub open spec fn are_rolls(n: nat, rs: Seq<int>) -> bool {
    rs.len() <= n && forall|i: int| 0 <= i < rs.len() ==> 0 <= #[trigger] rs[i] < n - i
}

/// The pool once each draw has swapped its own slot with the one drawn.
pub open spec fn swapped_by(pool: Seq<usize>, rs: Seq<int>) -> Seq<usize>
    decreases rs.len(),
{
    if rs.len() == 0 {
        pool
    } else {
        let p = swapped_by(pool, rs.drop_last());
        let i = rs.len() - 1;
        let j = i + rs.last();
        Seq::new(
            p.len(),
            |k: int|
                if k == i {
                    p[j]
                } else if k == j {
                    p[i]
                } else {
                    p[k]
                },
        )
    }
}

proof fn lemma_fewer_rolls(n: nat, rs: Seq<int>)
    requires
        are_rolls(n, rs),
        rs.len() > 0,
    ensures
        are_rolls(n, rs.drop_last()),
        0 <= rs.last() < n - (rs.len() - 1),
{
    let less = rs.drop_last();
    assert forall|i: int| 0 <= i < less.len() implies 0 <= #[trigger] less[i] < n - i by {
        assert(less[i] == rs[i]);
    }
    assert(rs[rs.len() - 1] == rs.last());
}

proof fn lemma_swapped(pool: Seq<usize>, rs: Seq<int>)
    requires
        pool.no_duplicates(),
        are_rolls(pool.len(), rs),
    ensures
        swapped_by(pool, rs).len() == pool.len(),
        swapped_by(pool, rs).no_duplicates(),
        forall|v: usize| pool.contains(v) ==> swapped_by(pool, rs).contains(v),
        rs.len() > 0 ==> {
            &&& swapped_by(pool, rs).take(rs.len() - 1) == swapped_by(pool, rs.drop_last()).take(
                rs.len() - 1,
            )
            &&& swapped_by(pool, rs)[rs.len() - 1] == swapped_by(pool, rs.drop_last())[rs.len() - 1
                + rs.last()]
        },
    decreases rs.len(),
{
    if rs.len() > 0 {
        lemma_fewer_rolls(pool.len(), rs);
        lemma_swapped(pool, rs.drop_last());
        let p = swapped_by(pool, rs.drop_last());
        let q = swapped_by(pool, rs);
        let i = rs.len() - 1;
        let j = i + rs.last();
        assert forall|v: usize| pool.contains(v) implies q.contains(v) by {
            assert(p.contains(v));
            let k = choose|k: int| 0 <= k < p.len() && p[k] == v;
            if k == i {
                assert(q[j] == v);
            } else if k == j {
                assert(q[i] == v);
            } else {
                assert(q[k] == v);
            }
        }
        assert(q.take(i) =~= p.take(i));
    }
}

proof fn lemma_rolls(s: u64, n: nat, k: nat)
    requires
        k <= n <= u64::MAX,
    ensures
        rolls(s, n, k).0.len() == k,
        are_rolls(n, rolls(s, n, k).0),
    decreases k,
{
    if k > 0 {
        lemma_rolls(s, n, (k - 1) as nat);
        let (before, t) = rolls(s, n, (k - 1) as nat);
        law_a_draw_is_below_its_bound(t, (n - (k - 1)) as u64);
        let rs = rolls(s, n, k).0;
        assert forall|i: int| 0 <= i < rs.len() implies 0 <= #[trigger] rs[i] < n - i by {
            if i < k - 1 {
                assert(rs[i] == before[i]);
            }
        }
    }
}

proof fn lemma_shuffled_by_rolls(pool: Seq<usize>, s: u64, k: nat)
    requires
        pool.no_duplicates(),
        k <= pool.len() <= u64::MAX,
    ensures
        shuffled(pool, s, k) == (
            swapped_by(pool, rolls(s, pool.len(), k).0),
            rolls(s, pool.len(), k).1,
        ),
    decreases k,
{
    if k > 0 {
        let n = pool.len();
        lemma_shuffled_by_rolls(pool, s, (k - 1) as nat);
        lemma_rolls(s, n, (k - 1) as nat);
        lemma_rolls(s, n, k);
        lemma_swapped(pool, rolls(s, n, (k - 1) as nat).0);
        let rs = rolls(s, n, k).0;
        assert(rs.drop_last() =~= rolls(s, n, (k - 1) as nat).0);
        assert(0 <= rs[k - 1] < n - (k - 1));
        assert(shuffled(pool, s, k).0 =~= swapped_by(pool, rs));
    }
}

/// Every mine is a draw: of as many mines as the pool can take, the `i`-th is
/// what the generator's next fair draw below what is left of the pool picks out
/// of the rest, and the generator has moved on by that draw. A place of a fresh
/// deal holds a mine exactly where one of the draws picked it.
pub proof fn law_every_mine_is_a_draw(w: u8, h: u8, mines: u16, seed: u64, first: (u8, u8))
    ensures
        ({
            let pool = free_places(w, h, first, (w * h) as nat);
            let k = if mines <= pool.len() {
                mines as nat
            } else {
                pool.len()
            };
            let rs = rolls(seeded(seed), pool.len(), k).0;
            let cells = dealt(blank(w, h), w, h, mines, seed, first);
            &&& rs.len() == k
            &&& are_rolls(pool.len(), rs)
            &&& cells.len() == w * h
            &&& forall|i: int|
                0 <= i < w * h ==> ((#[trigger] cells[i]).mine <==> swapped_by(pool, rs).take(
                    k as int,
                ).contains(i as usize))
            &&& forall|i: int|
                0 <= i < k ==> (#[trigger] swapped_by(pool, rs).take(k as int)[i]) == swapped_by(
                    pool,
                    rs.take(i),
                )[i + rs[i]]
        }),
{
    lemma_size(w, h);
    let size = (w * h) as nat;
    let pool = free_places(w, h, first, size);
    lemma_free_places(w, h, first, size);
    let k = if mines <= pool.len() {
        mines as nat
    } else {
        pool.len()
    };
    let rs = rolls(seeded(seed), pool.len(), k).0;
    lemma_rolls(seeded(seed), pool.len(), k);
    lemma_shuffled_by_rolls(pool, seeded(seed), k);
    lemma_swapped(pool, rs);
    assert forall|i: int| 0 <= i < k implies (#[trigger] swapped_by(pool, rs).take(k as int)[i])
        == swapped_by(pool, rs.take(i))[i + rs[i]] by {
        lemma_pick_is_settled(pool, rs, i);
    }
}

/// A pick stays what its own draw made it.
proof fn lemma_pick_is_settled(pool: Seq<usize>, rs: Seq<int>, i: int)
    requires
        pool.no_duplicates(),
        are_rolls(pool.len(), rs),
        0 <= i < rs.len(),
    ensures
        swapped_by(pool, rs)[i] == swapped_by(pool, rs.take(i))[i + rs[i]],
    decreases rs.len(),
{
    lemma_swapped(pool, rs);
    let less = rs.drop_last();
    if i == rs.len() - 1 {
        assert(rs.take(i) =~= less);
    } else {
        lemma_fewer_rolls(pool.len(), rs);
        lemma_pick_is_settled(pool, less, i);
        assert(less.take(i) =~= rs.take(i));
        let a = swapped_by(pool, rs).take(rs.len() - 1);
        let b = swapped_by(pool, less).take(rs.len() - 1);
        assert(a[i] == b[i]);
    }
}

/// Any mines can be dealt: whichever places of the pool, in whichever order,
/// there are draws that pick exactly them. So for any mine and any free place
/// there are draws under which it lies there.
pub proof fn law_any_mines_can_be_drawn(pool: Seq<usize>, picks: Seq<usize>)
    requires
        pool.no_duplicates(),
        picks.no_duplicates(),
        picks.len() <= pool.len(),
        forall|i: int| 0 <= i < picks.len() ==> pool.contains(#[trigger] picks[i]),
    ensures
        exists|rs: Seq<int>| #[trigger]
            are_rolls(pool.len(), rs) && rs.len() == picks.len() && swapped_by(pool, rs).take(
                picks.len() as int,
            ) == picks,
    decreases picks.len(),
{
    if picks.len() == 0 {
        let rs = Seq::<int>::empty();
        assert(swapped_by(pool, rs).take(0) =~= picks);
        assert(are_rolls(pool.len(), rs));
    } else {
        let less = picks.drop_last();
        let v = picks[picks.len() - 1];
        let i = picks.len() - 1;
        assert forall|k: int| 0 <= k < less.len() implies pool.contains(#[trigger] less[k]) by {
            assert(less[k] == picks[k]);
        }
        law_any_mines_can_be_drawn(pool, less);
        let before = choose|rs: Seq<int>| #[trigger]
            are_rolls(pool.len(), rs) && rs.len() == less.len() && swapped_by(pool, rs).take(
                less.len() as int,
            ) == less;
        lemma_swapped(pool, before);
        let p = swapped_by(pool, before);
        assert(p.contains(v));
        let j = choose|j: int| 0 <= j < p.len() && p[j] == v;
        if j < i {
            assert(p.take(i)[j] == less[j]);
            assert(picks[j] == picks[i]);
        }
        let rs = before.push(j - i);
        assert(rs.drop_last() =~= before);
        assert forall|k: int| 0 <= k < rs.len() implies 0 <= #[trigger] rs[k] < pool.len() - k by {
            if k < i {
                assert(rs[k] == before[k]);
            }
        }
        assert(are_rolls(pool.len(), rs));
        lemma_swapped(pool, rs);
        let q = swapped_by(pool, rs);
        assert forall|k: int| 0 <= k < picks.len() implies #[trigger] q.take(picks.len() as int)[k]
            == picks[k] by {
            if k < i {
                assert(q.take(i)[k] == p.take(i)[k]);
                assert(less[k] == picks[k]);
            }
        }
        assert(q.take(picks.len() as int) =~= picks);
    }
}

/// And by one list of draws only, so that fair draws deal fairly.
pub proof fn law_mines_are_drawn_one_way(pool: Seq<usize>, a: Seq<int>, b: Seq<int>)
    requires
        pool.no_duplicates(),
        are_rolls(pool.len(), a),
        are_rolls(pool.len(), b),
        a.len() == b.len(),
        swapped_by(pool, a).take(a.len() as int) == swapped_by(pool, b).take(a.len() as int),
    ensures
        a == b,
    decreases a.len(),
{
    if a.len() > 0 {
        let i = a.len() - 1;
        lemma_swapped(pool, a);
        lemma_swapped(pool, b);
        lemma_fewer_rolls(pool.len(), a);
        lemma_fewer_rolls(pool.len(), b);
        let x = a.drop_last();
        let y = b.drop_last();
        let qa = swapped_by(pool, a).take(a.len() as int);
        let qb = swapped_by(pool, b).take(a.len() as int);
        assert(swapped_by(pool, a).take(i) =~= qa.take(i));
        assert(swapped_by(pool, b).take(i) =~= qb.take(i));
        law_mines_are_drawn_one_way(pool, x, y);
        lemma_swapped(pool, x);
        let p = swapped_by(pool, x);
        assert(qa[i] == p[i + a.last()]);
        assert(qb[i] == p[i + b.last()]);
        assert(a =~= x.push(a.last()));
        assert(b =~= y.push(b.last()));
    } else {
        assert(a =~= b);
    }
}

/// The pool is the whole board but for the click and what touches it, in order.
pub proof fn law_the_pool_is_all_but_the_click(w: u8, h: u8, first: (u8, u8))
    requires
        inside(w, h, first.0 as int, first.1 as int),
    ensures
        ({
            let at = place(w, first.0 as int, first.1 as int);
            let pool = free_places(w, h, first, (w * h) as nat);
            &&& forall|i: int|
                0 <= i < w * h ==> (#[trigger] pool.contains(i as usize) <==> i != at && !touching(
                    w,
                    h,
                    at,
                    i,
                ))
            &&& forall|j: int, k: int|
                0 <= j < k < pool.len() ==> #[trigger] pool[j] < #[trigger] pool[k] < w * h
        }),
{
    lemma_size(w, h);
    lemma_pool(w, h, first, (w * h) as nat);
    lemma_place(w, h, first.0 as int, first.1 as int);
    lemma_around_touches(w, h, first.0 as int, first.1 as int);
    let at = place(w, first.0 as int, first.1 as int);
    let a = around(w, h, first.0 as int, first.1 as int);
    assert forall|i: int| 0 <= i < w * h implies (kept_clear(w, h, first, i) <==> i == at || touching(
        w,
        h,
        at,
        i,
    )) by {
        if touching(w, h, at, i) {
            lemma_place_back(w, h, i);
            let s = ((i % w as int) as u8, (i / w as int) as u8);
            assert(a.contains(s));
            let k = choose|k: int| 0 <= k < a.len() && a[k] == s;
            assert(i == place(w, a[k].0 as int, a[k].1 as int));
        }
        if kept_clear(w, h, first, i) && i != at {
            let k = choose|k: int|
                0 <= k < a.len() && i == place(w, (#[trigger] a[k]).0 as int, a[k].1 as int);
            assert(touching(w, h, at, place(w, a[k].0 as int, a[k].1 as int)));
        }
    }
}

proof fn lemma_pool(w: u8, h: u8, first: (u8, u8), n: nat)
    requires
        n <= 65025,
    ensures
        ({
            let pool = free_places(w, h, first, n);
            &&& forall|i: int|
                0 <= i < 65536 ==> (#[trigger] pool.contains(i as usize) <==> i < n && !kept_clear(
                    w,
                    h,
                    first,
                    i,
                ))
            &&& forall|j: int, k: int|
                0 <= j < k < pool.len() ==> #[trigger] pool[j] < #[trigger] pool[k] < n
            &&& forall|j: int| 0 <= j < pool.len() ==> #[trigger] pool[j] < n
        }),
    decreases n,
{
    let pool = free_places(w, h, first, n);
    if n > 0 {
        let before = free_places(w, h, first, (n - 1) as nat);
        lemma_pool(w, h, first, (n - 1) as nat);
        assert forall|i: int| 0 <= i < 65536 implies (#[trigger] pool.contains(i as usize) <==> i < n
            && !kept_clear(w, h, first, i)) by {
            if before.contains(i as usize) {
                let k = choose|k: int| 0 <= k < before.len() && before[k] == i as usize;
                assert(pool[k] == i as usize);
            }
            if i == n - 1 && !kept_clear(w, h, first, i) {
                assert(pool[pool.len() - 1] == i as usize);
            }
            if pool.contains(i as usize) {
                let k = choose|k: int| 0 <= k < pool.len() && pool[k] == i as usize;
                if k < before.len() {
                    assert(before[k] == i as usize);
                    assert(before.contains(i as usize));
                }
            }
        }
    }
}

/// Laying mines moves no flag and opens nothing, and takes no mine away.
pub proof fn law_dealing_only_lays_mines(
    cells: Seq<Cell>,
    w: u8,
    h: u8,
    mines: u16,
    seed: u64,
    first: (u8, u8),
    i: int,
)
    requires
        0 <= i < cells.len(),
    ensures
        ({
            let d = dealt(cells, w, h, mines, seed, first);
            &&& d.len() == cells.len()
            &&& d[i].state == cells[i].state
            &&& cells[i].mine ==> d[i].mine
        }),
{
}

// ---------------------------------------------------------------------------
// What the words mean.
// ---------------------------------------------------------------------------
/// Two places touch when they are different and neither their columns nor their
/// rows are more than one apart.
pub proof fn law_touching_is_by_a_side_or_a_corner(
    w: u8,
    h: u8,
    x: int,
    y: int,
    nx: int,
    ny: int,
)
    requires
        0 <= x < w && 0 <= y < h,
        0 <= nx < w && 0 <= ny < h,
    ensures
        touching(w, h, y * w + x, ny * w + nx) <==> (x, y) != (nx, ny) && -1 <= x - nx <= 1 && -1
            <= y - ny <= 1,
{
    assert(inside(w, h, x, y) && inside(w, h, nx, ny));
    lemma_place(w, h, x, y);
    lemma_place(w, h, nx, ny);
    assert(place(w, x, y) == y * w + x);
    assert(place(w, nx, ny) == ny * w + nx);
}

/// The neighbours of a place are the places on the grid whose column and row
/// are at most one away.
pub proof fn law_neighbours_are_what_is_one_away(w: u8, h: u8, x: u8, y: u8, nx: u8, ny: u8)
    requires
        x < w,
        y < h,
    ensures
        around(w, h, x as int, y as int).contains((nx, ny)) <==> nx < w && ny < h && (nx, ny) != (
            x,
            y,
        ) && -1 <= nx - x <= 1 && -1 <= ny - y <= 1,
{
    lemma_around_touches(w, h, x as int, y as int);
    let a = around(w, h, x as int, y as int);
    lemma_place(w, h, x as int, y as int);
    if a.contains((nx, ny)) {
        let k = choose|k: int| 0 <= k < a.len() && a[k] == (nx, ny);
        assert(touching(w, h, place(w, x as int, y as int), place(w, nx as int, ny as int)));
        lemma_place(w, h, nx as int, ny as int);
    }
    if nx < w && ny < h && (nx, ny) != (x, y) && -1 <= nx - x <= 1 && -1 <= ny - y <= 1 {
        lemma_place(w, h, nx as int, ny as int);
        let j = place(w, nx as int, ny as int);
        assert(touching(w, h, place(w, x as int, y as int), j));
    }
}

/// Row by row, and each once.
pub open spec fn row_by_row(a: Seq<(u8, u8)>) -> bool {
    forall|j: int, k: int|
        0 <= j < k < a.len() ==> (#[trigger] a[j]).1 < (#[trigger] a[k]).1 || (a[j].1 == a[k].1
            && a[j].0 < a[k].0)
}

/// Everything comes before the place `(x, y)`.
spec fn all_before(a: Seq<(u8, u8)>, x: int, y: int) -> bool {
    forall|j: int| 0 <= j < a.len() ==> (#[trigger] a[j]).1 < y || (a[j].1 == y && a[j].0 < x)
}

proof fn lemma_row_by_row(a: Seq<(u8, u8)>, w: u8, h: u8, x: int, y: int, nx: int, ny: int)
    requires
        row_by_row(a),
        all_before(a, x, y),
        y < ny || (y == ny && x < nx),
    ensures
        row_by_row(a + if_inside(w, h, x, y)),
        all_before(a + if_inside(w, h, x, y), nx, ny),
{
    let b = a + if_inside(w, h, x, y);
    assert forall|j: int| 0 <= j < b.len() implies (#[trigger] b[j]).1 < ny || (b[j].1 == ny
        && b[j].0 < nx) by {
        if j < a.len() {
            assert(b[j] == a[j]);
        }
    }
    assert forall|j: int, k: int| 0 <= j < k < b.len() implies (#[trigger] b[j]).1 < (
    #[trigger] b[k]).1 || (b[j].1 == b[k].1 && b[j].0 < b[k].0) by {
        assert(b[j] == a[j]);
        if k < a.len() {
            assert(b[k] == a[k]);
        }
    }
}

/// The neighbours of a place come row by row, each once.
pub proof fn law_neighbours_come_row_by_row(w: u8, h: u8, x: u8, y: u8)
    ensures
        row_by_row(around(w, h, x as int, y as int)),
{
    let x = x as int;
    let y = y as int;
    let a0 = Seq::<(u8, u8)>::empty();
    lemma_row_by_row(a0, w, h, x - 1, y - 1, x, y - 1);
    let a1 = a0 + if_inside(w, h, x - 1, y - 1);
    lemma_row_by_row(a1, w, h, x, y - 1, x + 1, y - 1);
    let a2 = a1 + if_inside(w, h, x, y - 1);
    lemma_row_by_row(a2, w, h, x + 1, y - 1, x - 1, y);
    let a3 = a2 + if_inside(w, h, x + 1, y - 1);
    lemma_row_by_row(a3, w, h, x - 1, y, x + 1, y);
    let a4 = a3 + if_inside(w, h, x - 1, y);
    lemma_row_by_row(a4, w, h, x + 1, y, x - 1, y + 1);
    let a5 = a4 + if_inside(w, h, x + 1, y);
    lemma_row_by_row(a5, w, h, x - 1, y + 1, x, y + 1);
    let a6 = a5 + if_inside(w, h, x - 1, y + 1);
    lemma_row_by_row(a6, w, h, x, y + 1, x + 1, y + 1);
    let a7 = a6 + if_inside(w, h, x, y + 1);
    lemma_row_by_row(a7, w, h, x + 1, y + 1, x + 2, y + 1);
    let a8 = a7 + if_inside(w, h, x + 1, y + 1);
    assert(a8 =~= around(w, h, x, y));
}

/// How many cells satisfy a condition is how many places have one that does.
pub proof fn law_counting_counts_places(cells: Seq<Cell>, f: spec_fn(Cell) -> bool)
    ensures
        ({
            let s = Set::new(|i: int| 0 <= i < cells.len() && f(cells[i]));
            s.finite() && s.len() == count(cells, f)
        }),
    decreases cells.len(),
{
    let s = Set::new(|i: int| 0 <= i < cells.len() && f(cells[i]));
    if cells.len() == 0 {
        assert(s =~= Set::empty());
    } else {
        let less = cells.drop_last();
        let n = cells.len() - 1;
        let t = Set::new(|i: int| 0 <= i < less.len() && f(less[i]));
        law_counting_counts_places(less, f);
        if f(cells.last()) {
            assert(s =~= t.insert(n));
        } else {
            assert(s =~= t);
        }
    }
}

/// What toggling a flag and claiming do to a cell: they change its state alone,
/// and no open cell's.
pub proof fn law_what_flags_do_to_a_cell(c: Cell)
    ensures
        toggled(c).mine == c.mine && toggled(c).adj == c.adj,
        claimed(c).mine == c.mine && claimed(c).adj == c.adj,
        c.state == Reveal::Hidden ==> toggled(c).state == Reveal::Flagged && claimed(c).state
            == Reveal::Flagged,
        c.state == Reveal::Flagged ==> toggled(c).state == Reveal::Hidden && claimed(c).state
            == Reveal::Flagged,
        c.state == Reveal::Shown ==> toggled(c) == c && claimed(c) == c,
{
}

/// A board is lost exactly when a mine is open, won exactly when none is and
/// everything else is open, and on otherwise.
pub proof fn law_what_a_board_stands_at(cells: Seq<Cell>)
    ensures
        status_of(cells) == Status::Lost <==> exists|i: int|
            0 <= i < cells.len() && (#[trigger] cells[i]).mine && cells[i].state == Reveal::Shown,
        status_of(cells) == Status::Won <==> forall|i: int|
            0 <= i < cells.len() ==> ((#[trigger] cells[i]).mine <==> cells[i].state
                != Reveal::Shown),
{
    if status_of(cells) == Status::Won {
        assert forall|i: int| 0 <= i < cells.len() implies ((#[trigger] cells[i]).mine
            <==> cells[i].state != Reveal::Shown) by {}
    }
}

/// A flood goes all the way: with every cell it opens that has nothing around
/// it, it opens every hidden cell that touches it.
pub proof fn law_a_flood_goes_all_the_way(cells: Seq<Cell>, w: u8, h: u8, from: int)
    requires
        cells.len() == w * h,
        0 <= from < cells.len(),
        cells[from].state == Reveal::Hidden,
    ensures
        ({
            let after = opened(cells, w, h, from);
            &&& after.len() == cells.len()
            &&& after[from] == (Cell { state: Reveal::Shown, ..cells[from] })
            &&& forall|i: int, j: int|
                #![trigger touching(w, h, i, j)]
                touching(w, h, i, j) && after[i] != cells[i] && cells[i].adj == 0 && !cells[i].mine
                    && cells[j].state == Reveal::Hidden ==> after[j].state == Reveal::Shown
            &&& forall|i: int|
                0 <= i < cells.len() ==> #[trigger] after[i] == cells[i] || (cells[i].state
                    == Reveal::Hidden && after[i] == (Cell { state: Reveal::Shown, ..cells[i] }))
        }),
{
    let after = opened(cells, w, h, from);
    lemma_reaches_itself(cells, w, h, from);
    assert forall|i: int, j: int|
        #![trigger touching(w, h, i, j)]
        touching(w, h, i, j) && after[i] != cells[i] && cells[i].adj == 0 && !cells[i].mine
            && cells[j].state == Reveal::Hidden implies after[j].state == Reveal::Shown by {
        lemma_reaches_step(cells, w, h, from, i, j);
    }
    assert forall|i: int| 0 <= i < cells.len() implies #[trigger] after[i] == cells[i] || (
    cells[i].state == Reveal::Hidden && after[i] == (Cell {
        state: Reveal::Shown,
        ..cells[i]
    })) by {
        if reaches(cells, w, h, from, i) {
            lemma_reached(cells, w, h, from, i);
        }
    }
}

/// And no more than that: whatever holds of the clicked cell, and of every
/// hidden cell that touches one with nothing around it of which it holds, holds
/// of every cell that opens.
pub proof fn law_a_flood_opens_no_more(
    cells: Seq<Cell>,
    w: u8,
    h: u8,
    from: int,
    holds: spec_fn(int) -> bool,
    i: int,
)
    requires
        holds(from),
        forall|i: int, j: int|
            #![trigger touching(w, h, i, j)]
            holds(i) && touching(w, h, i, j) && cells[i].adj == 0 && !cells[i].mine
                && cells[j].state == Reveal::Hidden ==> holds(j),
        0 <= i < cells.len(),
        opened(cells, w, h, from)[i] != cells[i],
    ensures
        holds(i),
{
    let p = choose|p: Seq<int>| #[trigger]
        is_trail(cells, w, h, p) && p[0] == from && p.last() == i;
    lemma_trail_stays(cells, w, h, p, holds, p.len() - 1);
}

/// Clicking what is no longer hidden opens nothing.
pub proof fn law_an_open_or_flagged_cell_opens_nothing(cells: Seq<Cell>, w: u8, h: u8, from: int)
    requires
        0 <= from < cells.len(),
        cells[from].state != Reveal::Hidden,
    ensures
        opened(cells, w, h, from) == cells,
{
    assert forall|i: int| !reaches(cells, w, h, from, i) by {
        if reaches(cells, w, h, from, i) {
            lemma_reached(cells, w, h, from, i);
        }
    }
    assert(opened(cells, w, h, from) =~= cells);
}

/// A click on the board opens what its place leads to.
pub proof fn law_a_click_on_the_board_opens_its_place(
    cells: Seq<Cell>,
    w: u8,
    h: u8,
    x: u8,
    y: u8,
)
    requires
        x < w,
        y < h,
    ensures
        clicked(cells, w, h, x, y) == opened(cells, w, h, y * w + x),
{
}

/// Flags that went up before the deal make no difference to it: mines and
/// numbers are those of a deal on an untouched board.
pub proof fn law_flags_do_not_move_the_mines(
    cells: Seq<Cell>,
    w: u8,
    h: u8,
    mines: u16,
    seed: u64,
    first: (u8, u8),
    i: int,
)
    requires
        cells.len() == w * h,
        forall|k: int| 0 <= k < cells.len() ==> !(#[trigger] cells[k]).mine,
        0 <= i < cells.len(),
    ensures
        ({
            let d = dealt(cells, w, h, mines, seed, first)[i];
            let e = dealt(blank(w, h), w, h, mines, seed, first)[i];
            &&& d.mine == e.mine
            &&& !d.mine ==> d.adj == e.adj
            &&& d.state == cells[i].state
        }),
{
    lemma_size(w, h);
    let picks = mine_picks(w, h, mines, cells.len(), seed, first);
    let a = mined(cells, picks);
    let b = mined(blank(w, h), picks);
    assert forall|k: int| 0 <= k < a.len() implies (#[trigger] a[k]).mine == b[k].mine by {
        assert(!cells[k].mine);
    }
    if !a[i].mine {
        lemma_mines_around_same(a, b, w, h, i % w as int, i / w as int);
    }
}

/// A place is on the board if its column and its row are, and places count
/// along the rows.
pub proof fn law_where_places_stand(w: u8, h: u8, x: int, y: int)
    ensures
        inside(w, h, x, y) <==> 0 <= x && x < w && 0 <= y && y < h,
        place(w, 0, 0) == 0,
        place(w, x + 1, y) == place(w, x, y) + 1,
        place(w, x, y + 1) == place(w, x, y) + w,
{
    assert((y + 1) * w == y * w + w) by (nonlinear_arith);
    assert(0 * w == 0);
}

/// Counting changes the numbers of cells that are no mines, and nothing else.
pub proof fn law_counting_changes_only_numbers(cells: Seq<Cell>, w: u8, h: u8, i: int)
    requires
        0 <= i < cells.len(),
    ensures
        counted(cells, w, h).len() == cells.len(),
        counted(cells, w, h)[i].mine == cells[i].mine,
        counted(cells, w, h)[i].state == cells[i].state,
        cells[i].mine ==> counted(cells, w, h)[i].adj == cells[i].adj,
{
}

/// Clicks in turn open every hidden cell among the places clicked, and close or
/// flag none.
proof fn lemma_clicks_in_turn(cells: Seq<Cell>, w: u8, h: u8, at: Seq<int>)
    requires
        cells.len() == w * h,
        forall|k: int| 0 <= k < at.len() ==> 0 <= #[trigger] at[k] < cells.len(),
    ensures
        ({
            let after = opened_each(cells, w, h, at);
            &&& after.len() == cells.len()
            &&& forall|i: int|
                0 <= i < cells.len() ==> #[trigger] after[i] == cells[i] || (cells[i].state
                    == Reveal::Hidden && after[i] == (Cell { state: Reveal::Shown, ..cells[i] }))
            &&& forall|k: int| 0 <= k < at.len() ==> after[#[trigger] at[k]].state != Reveal::Hidden
        }),
    decreases at.len(),
{
    if at.len() > 0 {
        let less = at.drop_last();
        let last = at[at.len() - 1];
        let mid = opened_each(cells, w, h, less);
        let after = opened_each(cells, w, h, at);
        assert forall|k: int| 0 <= k < less.len() implies 0 <= #[trigger] less[k] < cells.len() by {
            assert(less[k] == at[k]);
        }
        lemma_clicks_in_turn(cells, w, h, less);
        if mid[last].state == Reveal::Hidden {
            law_a_flood_goes_all_the_way(mid, w, h, last);
        } else {
            law_an_open_or_flagged_cell_opens_nothing(mid, w, h, last);
        }
        assert forall|i: int| 0 <= i < cells.len() implies #[trigger] after[i] == cells[i] || (
        cells[i].state == Reveal::Hidden && after[i] == (Cell {
            state: Reveal::Shown,
            ..cells[i]
        })) by {
            assert(mid[i] == cells[i] || mid[i].state == Reveal::Shown);
            assert(after[i] == mid[i] || after[i] == (Cell { state: Reveal::Shown, ..mid[i] }));
        }
        assert forall|k: int| 0 <= k < at.len() implies after[#[trigger] at[k]].state
            != Reveal::Hidden by {
            if k < less.len() {
                assert(mid[less[k]].state != Reveal::Hidden);
                assert(after[at[k]] == mid[at[k]] || after[at[k]].state == Reveal::Shown);
            }
        }
    }
}

/// A click on a column past the edge opens the hidden cell that the column runs
/// on to, and if that has nothing around it, the cells around the column. It
/// closes and flags none, and where the cell is open or flagged it does nothing.
pub proof fn law_a_click_past_the_edge(cells: Seq<Cell>, w: u8, h: u8, x: u8, y: u8)
    requires
        cells.len() == w * h,
        y * w + x < cells.len(),
        x >= w || y >= h,
    ensures
        ({
            let after = clicked(cells, w, h, x, y);
            let at = y * w + x;
            let near = around(w, h, x as int, y as int);
            &&& cells[at].state != Reveal::Hidden ==> after == cells
            &&& cells[at].state == Reveal::Hidden ==> after[at] == (Cell {
                state: Reveal::Shown,
                ..cells[at]
            })
            &&& cells[at].mine || cells[at].adj > 0 ==> forall|i: int|
                0 <= i < cells.len() && i != at ==> #[trigger] after[i] == cells[i]
            &&& cells[at].state == Reveal::Hidden && !cells[at].mine && cells[at].adj == 0
                ==> forall|k: int|
                0 <= k < near.len() ==> after[(#[trigger] near[k]).1 * w + near[k].0].state
                    != Reveal::Hidden
            &&& after.len() == cells.len()
            &&& forall|i: int|
                0 <= i < cells.len() ==> #[trigger] after[i] == cells[i] || (cells[i].state
                    == Reveal::Hidden && after[i] == (Cell { state: Reveal::Shown, ..cells[i] }))
        }),
{
    let at = y * w + x;
    assert(0 <= y * w) by (nonlinear_arith)
        requires
            0 <= y,
            0 <= w,
    ;
    let near = around(w, h, x as int, y as int);
    if cells[at].state == Reveal::Hidden && spreads(cells[at]) {
        let open = cells.update(at, shown(cells[at]));
        let p = places(w, near);
        assert forall|k: int| 0 <= k < p.len() implies 0 <= #[trigger] p[k] < open.len() by {
            lemma_around_inside(w, h, x as int, y as int, k);
            lemma_place(w, h, near[k].0 as int, near[k].1 as int);
        }
        lemma_clicks_in_turn(open, w, h, p);
        let after = clicked(cells, w, h, x, y);
        assert forall|k: int| 0 <= k < near.len() implies after[(#[trigger] near[k]).1 * w
            + near[k].0].state != Reveal::Hidden by {
            assert(p[k] == near[k].1 * w + near[k].0);
        }
        assert forall|i: int| 0 <= i < cells.len() implies #[trigger] after[i] == cells[i] || (
        cells[i].state == Reveal::Hidden && after[i] == (Cell {
            state: Reveal::Shown,
            ..cells[i]
        })) by {
            assert(after[i] == open[i] || open[i].state == Reveal::Hidden);
        }
        assert(after[at] == open[at]);
    }
}

} // verus!
