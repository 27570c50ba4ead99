//! What holds of every game.
use vstd::prelude::*;

use crate::board::laws::{
    is_mine, law_a_flood_goes_all_the_way, law_a_number_opens_alone,
    law_an_open_or_flagged_cell_opens_nothing, law_clicks_commute, law_clicks_open_what_each_would,
    law_counting_counts_places, law_counting_sets_the_numbers_right, law_flags_decide_nothing,
    law_mines_never_open_by_themselves, law_the_first_click_has_room, law_the_mines_are_all_laid,
    lemma_same_mine_count, numbered, some_reaches,
};
use crate::board::{
    blank, blown, claimed, cleared, count, counted, dealt, inside, lemma_mines_around_same,
    lemma_place, mine_picks, mined, opened_each, place, reaches, spreads, status_of, Cell,
    Reveal, Status,
};
use crate::event::{Event, Mode, Stamped};
use crate::eventlog::laws::{agree, law_peers_converge};
use crate::eventlog::{holds, merged, same, strictly, Payload};
use crate::fnv::{fnv, law_one_changed_byte_shows};
use crate::game::{
    applied, cell_byte, deal_bytes, ending, flags, flags_in, fresh, game_status, hashed, hashed_log,
    is_claimed, is_game, laid, lemma_applied_wf, lemma_score_bound, mode_in, no_game, opening,
    played, raced, replayed, score, score_bytes, score_in, takes_moves, GameState,
};
use crate::bytes::{law_le_reads_back, le, le_value, lemma_rooms};
use crate::wire::event_bytes;

verus! {

// ---------------------------------------------------------------------------
// What every move keeps.
// ---------------------------------------------------------------------------
/// A cell of a board whose mines are not laid: it holds nothing and shows
/// nothing, but may be flagged.
pub open spec fn unlaid(c: Cell) -> bool {
    !c.mine && c.adj == 0 && c.state != Reveal::Shown
}

/// The numbers are right from the moment the mines are laid, and until then
/// there is nothing to be right about.
pub open spec fn sound(s: GameState) -> bool {
    &&& s.wf()
    &&& forall|i: int| 0 <= i < s.cells.len() ==> (#[trigger] s.cells[i]).adj <= 8
    &&& s.placed ==> numbered(s.cells, s.w, s.h)
    &&& !s.placed ==> forall|i: int| 0 <= i < s.cells.len() ==> unlaid(#[trigger] s.cells[i])
}

/// A deal is sound.
pub proof fn law_a_deal_is_sound(seed: u64, w: u8, h: u8, mines: u16, mode: Mode)
    ensures
        sound(fresh(seed, w, h, mines, mode)),
{
    assert(0 <= w * h) by (nonlinear_arith)
        requires
            0 <= w,
            0 <= h,
    ;
}

proof fn lemma_laid_is_sound(s: GameState, x: u8, y: u8)
    requires
        sound(s),
    ensures
        sound(laid(s, x, y)),
        laid(s, x, y).placed,
        forall|i: int|
            0 <= i < s.cells.len() ==> (#[trigger] laid(s, x, y).cells[i]).state
                == s.cells[i].state,
{
    if !s.placed {
        let first = opening(s, x, y);
        let l = laid(s, x, y);
        let m = mined(s.cells, mine_picks(s.w, s.h, s.mines, s.cells.len(), s.seed, first));
        assert(l.cells == counted(m, s.w, s.h));
        law_counting_sets_the_numbers_right(m, s.w, s.h);
        assert forall|i: int| 0 <= i < l.cells.len() implies (#[trigger] l.cells[i]).adj <= 8 by {
            assert(unlaid(s.cells[i]));
        }
        assert forall|i: int| 0 <= i < l.cells.len() implies ((#[trigger] l.planted[i]) is Some
            <==> l.cells[i].state == Reveal::Flagged) by {
            assert(s.planted[i] is Some <==> s.cells[i].state == Reveal::Flagged);
        }
    }
}

/// Changing states only leaves the numbers right.
proof fn lemma_states_keep_numbers(a: Seq<Cell>, b: Seq<Cell>, w: u8, h: u8)
    requires
        a.len() == b.len() == w * h,
        numbered(a, w, h),
        forall|i: int|
            0 <= i < a.len() ==> (#[trigger] b[i]).mine == a[i].mine && b[i].adj == a[i].adj,
    ensures
        numbered(b, w, h),
{
    assert forall|i: int| 0 <= i < a.len() implies (#[trigger] a[i]).mine == b[i].mine by {
        assert(b[i].mine == a[i].mine);
    }
    assert forall|i: int| 0 <= i < b.len() && !(#[trigger] b[i]).mine implies b[i].adj
        == crate::board::mines_around(b, w, h, i % w as int, i / w as int) by {
        lemma_mines_around_same(a, b, w, h, i % w as int, i / w as int);
        assert(!a[i].mine);
    }
}

/// A move changes where mines lie and what the numbers say only by laying
/// them.
proof fn lemma_moves_keep_layout(s: GameState, ev: Event, i: int)
    requires
        s.wf(),
        !(ev is Start),
        0 <= i < s.cells.len(),
    ensures
        applied(s, ev).cells.len() == s.cells.len(),
        (applied(s, ev).w, applied(s, ev).h, applied(s, ev).mines) == (s.w, s.h, s.mines),
        (applied(s, ev).mode, applied(s, ev).seed) == (s.mode, s.seed),
        ({
            let t = applied(s, ev);
            let l = match ev {
                Event::Reveal { x, y, .. } => if takes_moves(s, x, y) {
                    laid(s, x, y)
                } else {
                    s
                },
                _ => s,
            };
            &&& t.placed == l.placed
            &&& t.cells[i].mine == l.cells[i].mine
            &&& t.cells[i].adj == l.cells[i].adj
        }),
{
    match ev {
        Event::Reveal { player, x, y } => {
            if takes_moves(s, x, y) {
                lemma_place(s.w, s.h, x as int, y as int);
            }
        },
        Event::Flag { player, x, y } => {
            if takes_moves(s, x, y) {
                lemma_place(s.w, s.h, x as int, y as int);
            }
        },
        _ => {},
    }
}

/// Every event keeps a game sound.
pub proof fn law_every_event_keeps_a_game_sound(s: GameState, ev: Event)
    requires
        sound(s),
    ensures
        sound(applied(s, ev)),
{
    lemma_applied_wf(s, ev);
    match ev {
        Event::Start { seed, w, h, mines, mode } => {
            law_a_deal_is_sound(seed, w, h, mines, mode);
        },
        _ => {
            let t = applied(s, ev);
            let l = match ev {
                Event::Reveal { x, y, .. } => if takes_moves(s, x, y) {
                    laid(s, x, y)
                } else {
                    s
                },
                _ => s,
            };
            if let Event::Reveal { x, y, .. } = ev {
                lemma_laid_is_sound(s, x, y);
            }
            assert forall|i: int| 0 <= i < t.cells.len() implies (#[trigger] t.cells[i]).mine
                == l.cells[i].mine && t.cells[i].adj == l.cells[i].adj by {
                lemma_moves_keep_layout(s, ev, i);
            }
            assert(t.placed == l.placed && t.w == l.w && t.h == l.h);
            assert(t.cells.len() == l.cells.len());
            if t.placed {
                lemma_states_keep_numbers(l.cells, t.cells, l.w, l.h);
            } else {
                assert forall|i: int| 0 <= i < t.cells.len() implies unlaid(
                    #[trigger] t.cells[i],
                ) by {
                    assert(unlaid(s.cells[i]));
                    if let Event::Flag { x, y, .. } = ev {
                        if takes_moves(s, x, y) {
                            lemma_place(s.w, s.h, x as int, y as int);
                        }
                    }
                }
            }
        },
    }
}

/// Every log comes to a sound game.
pub proof fn law_every_log_comes_to_a_sound_game(events: Seq<Event>)
    ensures
        sound(replayed(events)),
    decreases events.len(),
{
    if events.len() == 0 {
        law_a_deal_is_sound(0, 0, 0, 0, Mode::Race);
    } else {
        law_every_log_comes_to_a_sound_game(events.drop_last());
        law_every_event_keeps_a_game_sound(replayed(events.drop_last()), events.last());
    }
}

/// A finished game ignores every move, and any game ignores one off the
/// board; a deal always gets through, or you could never play again.
pub proof fn law_what_is_ignored(s: GameState, ev: Event)
    ensures
        game_status(s) != Status::Playing && !(ev is Start) ==> applied(s, ev) == s,
        match ev {
            Event::Start { seed, w, h, mines, mode } => applied(s, ev) == fresh(
                seed,
                w,
                h,
                mines,
                mode,
            ),
            Event::Reveal { x, y, .. } => !inside(s.w, s.h, x as int, y as int) ==> applied(s, ev)
                == s,
            Event::Flag { x, y, .. } => !inside(s.w, s.h, x as int, y as int) ==> applied(s, ev)
                == s,
        },
{
}

/// A deal with a cell that is no mine to open can be played.
pub proof fn law_a_deal_is_on(seed: u64, w: u8, h: u8, mines: u16, mode: Mode)
    requires
        w > 0,
        h > 0,
        mode == Mode::FlagRace ==> mines > 0,
    ensures
        game_status(fresh(seed, w, h, mines, mode)) == Status::Playing,
{
    assert(w * h > 0) by (nonlinear_arith)
        requires
            w > 0,
            h > 0,
    ;
    let cells = blank(w, h);
    assert(cells[0].state == Reveal::Hidden && !cells[0].mine);
    crate::board::lemma_count_none(cells, is_claimed());
}

/// The first click of a game, wherever the mines are laid around it, loses
/// nothing.
pub proof fn law_the_first_click_never_loses(s: GameState, player: u8, x: u8, y: u8)
    requires
        sound(s),
        !s.placed,
        s.mode != Mode::Race || (x, y) == opening(s, x, y),
    ensures
        game_status(applied(s, Event::Reveal { player, x, y })) != Status::Lost,
{
    let t = applied(s, Event::Reveal { player, x, y });
    if s.mode != Mode::FlagRace {
        if takes_moves(s, x, y) {
            let l = laid(s, x, y);
            let at = place(s.w, x as int, y as int);
            lemma_laid_is_sound(s, x, y);
            lemma_place(s.w, s.h, x as int, y as int);
            law_the_first_click_has_room(s.w, s.h, s.mines, s.seed, (x, y), at);
            lemma_same_deal(s.cells, s.w, s.h, s.mines, s.seed, (x, y), at);
            assert forall|i: int| 0 <= i < t.cells.len() && (#[trigger] t.cells[i]).mine implies t.cells[i].state
                != Reveal::Shown by {
                assert(unlaid(s.cells[i]));
                assert(l.cells[i].state == s.cells[i].state);
                if reaches(l.cells, l.w, l.h, at, i) {
                    law_mines_never_open_by_themselves(l.cells, l.w, l.h, at, i);
                }
            }
        } else {
            assert forall|i: int| 0 <= i < t.cells.len() implies (#[trigger] t.cells[i]).state
                != Reveal::Shown by {
                assert(unlaid(s.cells[i]));
            }
        }
    }
}

/// Flags do not move the mines.
proof fn lemma_same_deal(
    cells: Seq<Cell>,
    w: u8,
    h: u8,
    mines: u16,
    seed: u64,
    first: (u8, u8),
    i: int,
)
    requires
        cells.len() == w * h,
        forall|i: int| 0 <= i < cells.len() ==> unlaid(#[trigger] cells[i]),
        0 <= i < cells.len(),
    ensures
        dealt(cells, w, h, mines, seed, first)[i].mine == dealt(
            blank(w, h),
            w,
            h,
            mines,
            seed,
            first,
        )[i].mine,
        dealt(cells, w, h, mines, seed, first)[i].adj == dealt(
            blank(w, h),
            w,
            h,
            mines,
            seed,
            first,
        )[i].adj,
{
    let picks = mine_picks(w, h, mines, cells.len(), seed, first);
    let a = mined(cells, picks);
    let b = mined(blank(w, h), picks);
    assert forall|k: int| 0 <= k < a.len() implies (#[trigger] a[k]).mine == b[k].mine by {
        assert(unlaid(cells[k]));
    }
    lemma_mines_around_same(a, b, w, h, i % w as int, i / w as int);
    assert(unlaid(cells[i]));
    assert(a[i].mine == b[i].mine);
}

// ---------------------------------------------------------------------------
// Flags.
// ---------------------------------------------------------------------------
/// Outside a flag race, a flag changes nothing about how a game stands.
pub proof fn law_a_flag_decides_nothing(s: GameState, player: u8, x: u8, y: u8)
    requires
        s.wf(),
        s.mode != Mode::FlagRace,
    ensures
        game_status(applied(s, Event::Flag { player, x, y })) == game_status(s),
{
    if takes_moves(s, x, y) {
        lemma_place(s.w, s.h, x as int, y as int);
        law_flags_decide_nothing(s.cells, place(s.w, x as int, y as int));
    }
}

/// A flag put and taken away again leaves the cells as they were, and where
/// there was none before, the whole game.
pub proof fn law_a_flag_comes_off(s: GameState, a: u8, b: u8, x: u8, y: u8)
    requires
        s.wf(),
        game_status(applied(s, Event::Flag { player: a, x, y })) == Status::Playing,
    ensures
        ({
            let t = applied(
                applied(s, Event::Flag { player: a, x, y }),
                Event::Flag { player: b, x, y },
            );
            &&& t.cells == s.cells
            &&& (inside(s.w, s.h, x as int, y as int) && s.cells[place(
                s.w,
                x as int,
                y as int,
            )].state != Reveal::Flagged ==> t == s)
        }),
{
    let m = applied(s, Event::Flag { player: a, x, y });
    let t = applied(m, Event::Flag { player: b, x, y });
    if takes_moves(s, x, y) {
        let i = place(s.w, x as int, y as int);
        lemma_place(s.w, s.h, x as int, y as int);
        assert(t.cells =~= s.cells);
        if s.cells[i].state != Reveal::Flagged {
            assert(s.planted[i] is None);
            assert(t.planted =~= s.planted);
        }
    }
}

/// Flags are toggles: two of them on different cells agree in either order.
pub proof fn law_flags_agree_in_either_order(s: GameState, p: (u8, u8, u8), q: (u8, u8, u8))
    requires
        s.wf(),
        s.mode != Mode::FlagRace,
        (p.1, p.2) != (q.1, q.2),
    ensures
        ({
            let a = Event::Flag { player: p.0, x: p.1, y: p.2 };
            let b = Event::Flag { player: q.0, x: q.1, y: q.2 };
            applied(applied(s, a), b) == applied(applied(s, b), a)
        }),
{
    let a = Event::Flag { player: p.0, x: p.1, y: p.2 };
    let b = Event::Flag { player: q.0, x: q.1, y: q.2 };
    law_a_flag_decides_nothing(s, p.0, p.1, p.2);
    law_a_flag_decides_nothing(s, q.0, q.1, q.2);
    if takes_moves(s, p.1, p.2) && takes_moves(s, q.1, q.2) {
        lemma_place(s.w, s.h, p.1 as int, p.2 as int);
        lemma_place(s.w, s.h, q.1 as int, q.2 as int);
        assert(place(s.w, p.1 as int, p.2 as int) != place(s.w, q.1 as int, q.2 as int));
        assert(applied(applied(s, a), b) =~= applied(applied(s, b), a));
    }
}

/// A mine, a number up to eight and a state each have bits of their own.
proof fn lemma_cell_bytes_differ(c: Cell, d: Cell)
    requires
        c.adj <= 8,
        d.adj <= 8,
        c != d,
    ensures
        cell_byte(c) != cell_byte(d),
{
    let m: u8 = if c.mine {
        1
    } else {
        0
    };
    let n: u8 = if d.mine {
        1
    } else {
        0
    };
    let a = c.adj;
    let b = d.adj;
    let x = c.state.code();
    let y = d.state.code();
    assert((m | (a << 1u8) | (x << 5u8)) == (n | (b << 1u8) | (y << 5u8)) ==> m == n && a == b && x
        == y) by (bit_vector)
        requires
            a <= 8u8,
            b <= 8u8,
            m <= 1u8,
            n <= 1u8,
            x <= 2u8,
            y <= 2u8,
    ;
}

/// Two games of one deal that differ in one cell — in its mine, its number or
/// its state — have different hashes. In a flag race the scoreboard is hashed
/// too, so there the two have to stand at the same scores.
pub proof fn law_one_changed_cell_shows(s: GameState, t: GameState, i: int)
    requires
        s.cells.len() == t.cells.len(),
        0 <= i < s.cells.len(),
        s.cells[i].adj <= 8,
        t.cells[i].adj <= 8,
        s.cells[i] != t.cells[i],
        forall|k: int| 0 <= k < s.cells.len() && k != i ==> s.cells[k] == t.cells[k],
        (t.seed, t.w, t.h, t.mines, t.mode) == (s.seed, s.w, s.h, s.mines, s.mode),
        s.mode == Mode::FlagRace ==> score(s, 0) == score(t, 0) && score(s, 1) == score(t, 1),
    ensures
        fnv(hashed(s)) != fnv(hashed(t)),
{
    let a = hashed(s);
    let b = hashed(t);
    let n = deal_bytes(s).len();
    let len = s.cells.len();
    let ca = s.cells.map_values(|c: Cell| cell_byte(c));
    let cb = t.cells.map_values(|c: Cell| cell_byte(c));
    let tail = if s.mode == Mode::FlagRace {
        score_bytes(score(s, 0)) + score_bytes(score(s, 1))
    } else {
        seq![]
    };
    assert(a == deal_bytes(s) + ca + tail);
    assert(b == deal_bytes(s) + cb + tail);
    lemma_cell_bytes_differ(s.cells[i], t.cells[i]);
    assert(a[n + i] == ca[i]);
    assert(b[n + i] == cb[i]);
    assert forall|k: int| 0 <= k < a.len() && k != n + i implies a[k] == b[k] by {
        if n <= k < n + len {
            assert(a[k] == ca[k - n]);
            assert(b[k] == cb[k - n]);
            assert(s.cells[k - n] == t.cells[k - n]);
        }
    }
    law_one_changed_byte_shows(a, b, n + i);
}

/// A flag that comes off again restores the hash, except where there was one
/// in a flag race, which may have changed hands.
pub proof fn law_a_flag_that_comes_off_restores_the_hash(
    s: GameState,
    a: u8,
    b: u8,
    x: u8,
    y: u8,
)
    requires
        s.wf(),
        inside(s.w, s.h, x as int, y as int),
        game_status(applied(s, Event::Flag { player: a, x, y })) == Status::Playing,
        s.mode != Mode::FlagRace || s.cells[place(s.w, x as int, y as int)].state
            != Reveal::Flagged,
    ensures
        ({
            let t = applied(
                applied(s, Event::Flag { player: a, x, y }),
                Event::Flag { player: b, x, y },
            );
            fnv(hashed(t)) == fnv(hashed(s))
        }),
{
    law_a_flag_comes_off(s, a, b, x, y);
    let t = applied(applied(s, Event::Flag { player: a, x, y }), Event::Flag { player: b, x, y });
    if s.mode != Mode::FlagRace {
        assert(hashed(t) =~= hashed(s));
    }
}

/// Every flag that goes up or comes off shows in the hash.
pub proof fn law_a_flag_shows_in_the_hash(s: GameState, player: u8, x: u8, y: u8)
    requires
        sound(s),
        s.mode != Mode::FlagRace,
        takes_moves(s, x, y),
        s.cells[place(s.w, x as int, y as int)].state != Reveal::Shown,
    ensures
        fnv(hashed(applied(s, Event::Flag { player, x, y }))) != fnv(hashed(s)),
{
    let t = applied(s, Event::Flag { player, x, y });
    let i = place(s.w, x as int, y as int);
    lemma_place(s.w, s.h, x as int, y as int);
    assert(s.cells[i].adj <= 8);
    assert(t.cells =~= s.cells.update(i, t.cells[i]));
    law_one_changed_cell_shows(s, t, i);
}

/// Every number or mine that is opened shows in the hash.
pub proof fn law_an_opened_number_shows_in_the_hash(s: GameState, player: u8, x: u8, y: u8)
    requires
        sound(s),
        s.placed,
        s.mode != Mode::FlagRace,
        takes_moves(s, x, y),
        s.cells[place(s.w, x as int, y as int)].state == Reveal::Hidden,
        !spreads(s.cells[place(s.w, x as int, y as int)]),
    ensures
        fnv(hashed(applied(s, Event::Reveal { player, x, y }))) != fnv(hashed(s)),
{
    let t = applied(s, Event::Reveal { player, x, y });
    let i = place(s.w, x as int, y as int);
    lemma_place(s.w, s.h, x as int, y as int);
    assert(s.cells[i].adj <= 8);
    law_a_number_opens_alone(s.cells, s.w, s.h, i);
    law_one_changed_cell_shows(s, t, i);
}

// ---------------------------------------------------------------------------
// Reveals.
// ---------------------------------------------------------------------------
/// Nothing but reveals, by whomever.
pub open spec fn all_reveals(events: Seq<Event>) -> bool {
    forall|k: int| 0 <= k < events.len() ==> (#[trigger] events[k]) is Reveal
}

/// The event reveals `(x, y)`.
pub open spec fn reveals_at(ev: Event, x: u8, y: u8) -> bool {
    match ev {
        Event::Reveal { x: ex, y: ey, .. } => ex == x && ey == y,
        _ => false,
    }
}

/// Somebody reveals `(x, y)`.
pub open spec fn some_reveals(events: Seq<Event>, x: u8, y: u8) -> bool {
    exists|k: int| 0 <= k < events.len() && reveals_at(#[trigger] events[k], x, y)
}

/// Where on the board the events reveal, in order; those off it are left out.
spec fn revealed_places(w: u8, h: u8, events: Seq<Event>) -> Seq<int>
    decreases events.len(),
{
    if events.len() == 0 {
        seq![]
    } else {
        let before = revealed_places(w, h, events.drop_last());
        match events.last() {
            Event::Reveal { x, y, .. } => if inside(w, h, x as int, y as int) {
                before.push(place(w, x as int, y as int))
            } else {
                before
            },
            _ => before,
        }
    }
}

proof fn lemma_revealed_places(w: u8, h: u8, events: Seq<Event>, i: int)
    ensures
        revealed_places(w, h, events).contains(i) <==> exists|x: u8, y: u8| #[trigger]
            some_reveals(events, x, y) && inside(w, h, x as int, y as int) && place(
                w,
                x as int,
                y as int,
            ) == i,
    decreases events.len(),
{
    let all = revealed_places(w, h, events);
    if events.len() > 0 {
        let less = events.drop_last();
        let last = events[events.len() - 1];
        let before = revealed_places(w, h, less);
        lemma_revealed_places(w, h, less, i);
        assert forall|x: u8, y: u8| #[trigger] some_reveals(events, x, y) <==> some_reveals(less, x, y)
            || reveals_at(last, x, y) by {
            if some_reveals(less, x, y) {
                let k = choose|k: int| 0 <= k < less.len() && reveals_at(#[trigger] less[k], x, y);
                assert(reveals_at(events[k], x, y));
            }
            if some_reveals(events, x, y) {
                let k = choose|k: int|
                    0 <= k < events.len() && reveals_at(#[trigger] events[k], x, y);
                if k < less.len() {
                    assert(reveals_at(less[k], x, y));
                }
            }
        }
        if before.contains(i) {
            let k = choose|k: int| 0 <= k < before.len() && before[k] == i;
            assert(all[k] == i);
            let (x, y) = choose|x: u8, y: u8| #[trigger]
                some_reveals(less, x, y) && inside(w, h, x as int, y as int) && place(
                    w,
                    x as int,
                    y as int,
                ) == i;
            assert(some_reveals(events, x, y));
        }
        if all.contains(i) && !before.contains(i) {
            let k = choose|k: int| 0 <= k < all.len() && all[k] == i;
            if k < before.len() {
                assert(before[k] == i);
            }
            if let Event::Reveal { x, y, .. } = last {
                assert(reveals_at(last, x, y));
                assert(some_reveals(events, x, y));
            }
        }
        if exists|x: u8, y: u8| #[trigger]
            some_reveals(events, x, y) && inside(w, h, x as int, y as int) && place(
                w,
                x as int,
                y as int,
            ) == i {
            let (x, y) = choose|x: u8, y: u8| #[trigger]
                some_reveals(events, x, y) && inside(w, h, x as int, y as int) && place(
                    w,
                    x as int,
                    y as int,
                ) == i;
            if !some_reveals(less, x, y) {
                assert(reveals_at(last, x, y));
                assert(all[all.len() - 1] == i);
            }
        }
    }
}

/// A board is blown or cleared by a list of clicks if it is by a part of it.
proof fn lemma_clicks_settle(cells: Seq<Cell>, w: u8, h: u8, at: Seq<int>, more: Seq<int>)
    requires
        forall|i: int| at.contains(i) ==> more.contains(i),
        status_of(opened_each(cells, w, h, more)) == Status::Playing,
    ensures
        status_of(opened_each(cells, w, h, at)) == Status::Playing,
{
    let a = opened_each(cells, w, h, at);
    let b = opened_each(cells, w, h, more);
    law_clicks_open_what_each_would(cells, w, h, at);
    law_clicks_open_what_each_would(cells, w, h, more);
    assert forall|i: int| 0 <= i < cells.len() && (#[trigger] a[i]).state == Reveal::Shown implies b[i].state
        == Reveal::Shown && b[i].mine == a[i].mine by {
        if some_reaches(cells, w, h, at, i) {
            let k = choose|k: int| 0 <= k < at.len() && reaches(cells, w, h, #[trigger] at[k], i);
            assert(more.contains(at[k]));
            let m = choose|m: int| 0 <= m < more.len() && more[m] == at[k];
            assert(reaches(cells, w, h, more[m], i));
        }
    }
    if blown(a) {
        let i = choose|i: int|
            0 <= i < a.len() && (#[trigger] a[i]).mine && a[i].state == Reveal::Shown;
        assert(b[i].mine && b[i].state == Reveal::Shown);
    }
    if cleared(a) {
        assert forall|i: int| 0 <= i < b.len() implies (#[trigger] b[i]).mine || b[i].state
            == Reveal::Shown by {
            assert(a[i].mine || a[i].state == Reveal::Shown);
        }
    }
}

/// While the game stays on, a list of reveals is a list of clicks.
proof fn lemma_reveals_are_clicks(s: GameState, events: Seq<Event>)
    requires
        s.wf(),
        s.placed,
        s.mode != Mode::FlagRace,
        all_reveals(events),
        status_of(opened_each(s.cells, s.w, s.h, revealed_places(s.w, s.h, events)))
            == Status::Playing,
    ensures
        played(s, events) == (GameState {
            cells: opened_each(s.cells, s.w, s.h, revealed_places(s.w, s.h, events)),
            ..s
        }),
    decreases events.len(),
{
    if events.len() > 0 {
        let less = events.drop_last();
        let at = revealed_places(s.w, s.h, events);
        let before = revealed_places(s.w, s.h, less);
        lemma_fewer_reveals(events);
        assert forall|i: int| before.contains(i) implies at.contains(i) by {
            let k = choose|k: int| 0 <= k < before.len() && before[k] == i;
            assert(at[k] == i);
        }
        lemma_clicks_settle(s.cells, s.w, s.h, before, at);
        lemma_reveals_are_clicks(s, less);
        lemma_one_reveal_more(s, events);
    }
}

proof fn lemma_fewer_reveals(events: Seq<Event>)
    requires
        all_reveals(events),
        events.len() > 0,
    ensures
        all_reveals(events.drop_last()),
        events.last() is Reveal,
{
    let less = events.drop_last();
    assert forall|k: int| 0 <= k < less.len() implies (#[trigger] less[k]) is Reveal by {
        assert(less[k] == events[k]);
    }
    assert(events[events.len() - 1] is Reveal);
}

/// A reveal on the board is one click more; one off it changes nothing.
proof fn lemma_one_reveal_more(s: GameState, events: Seq<Event>)
    requires
        s.wf(),
        s.placed,
        s.mode != Mode::FlagRace,
        events.len() > 0,
        events.last() is Reveal,
        ({
            let less = events.drop_last();
            let at = revealed_places(s.w, s.h, less);
            &&& status_of(opened_each(s.cells, s.w, s.h, at)) == Status::Playing
            &&& played(s, less) == (GameState { cells: opened_each(s.cells, s.w, s.h, at), ..s })
        }),
    ensures
        played(s, events) == (GameState {
            cells: opened_each(s.cells, s.w, s.h, revealed_places(s.w, s.h, events)),
            ..s
        }),
{
    let before = revealed_places(s.w, s.h, events.drop_last());
    if let Event::Reveal { x, y, .. } = events.last() {
        if inside(s.w, s.h, x as int, y as int) {
            let i = place(s.w, x as int, y as int);
            assert(before.push(i).drop_last() =~= before);
        }
    }
}

/// And the other way round: a game that stays on was one long list of clicks.
proof fn lemma_game_on_is_clicks(s: GameState, events: Seq<Event>)
    requires
        s.wf(),
        s.placed,
        s.mode != Mode::FlagRace,
        all_reveals(events),
        game_status(played(s, events)) == Status::Playing,
    ensures
        played(s, events) == (GameState {
            cells: opened_each(s.cells, s.w, s.h, revealed_places(s.w, s.h, events)),
            ..s
        }),
    decreases events.len(),
{
    if events.len() > 0 {
        let less = events.drop_last();
        lemma_fewer_reveals(events);
        law_what_is_ignored(played(s, less), events.last());
        lemma_game_on_is_clicks(s, less);
        lemma_one_reveal_more(s, events);
    }
}

/// Reveals commute once the mines are laid, whoever makes them and wherever: if
/// a list of them leaves the game on, so does any other list that reveals the
/// same places, in whatever order and by whichever players, and the game is the
/// same.
pub proof fn law_reveals_agree_in_any_order(s: GameState, events: Seq<Event>, shuffled: Seq<Event>)
    requires
        s.wf(),
        s.placed,
        s.mode != Mode::FlagRace,
        all_reveals(events),
        all_reveals(shuffled),
        forall|x: u8, y: u8| #[trigger]
            some_reveals(events, x, y) <==> some_reveals(shuffled, x, y),
        game_status(played(s, events)) == Status::Playing,
    ensures
        played(s, shuffled) == played(s, events),
{
    let a = revealed_places(s.w, s.h, events);
    let b = revealed_places(s.w, s.h, shuffled);
    lemma_game_on_is_clicks(s, events);
    assert forall|i: int| a.contains(i) <==> b.contains(i) by {
        lemma_revealed_places(s.w, s.h, events, i);
        lemma_revealed_places(s.w, s.h, shuffled, i);
        if a.contains(i) {
            let (x, y) = choose|x: u8, y: u8| #[trigger]
                some_reveals(events, x, y) && inside(s.w, s.h, x as int, y as int) && place(
                    s.w,
                    x as int,
                    y as int,
                ) == i;
            assert(some_reveals(shuffled, x, y));
        }
        if b.contains(i) {
            let (x, y) = choose|x: u8, y: u8| #[trigger]
                some_reveals(shuffled, x, y) && inside(s.w, s.h, x as int, y as int) && place(
                    s.w,
                    x as int,
                    y as int,
                ) == i;
            assert(some_reveals(events, x, y));
        }
    }
    law_clicks_commute(s.cells, s.w, s.h, a, b);
    lemma_reveals_are_clicks(s, shuffled);
}

// ---------------------------------------------------------------------------
// The flag race.
// ---------------------------------------------------------------------------
/// In a flag race uncovering a mine claims it for whoever did, and never
/// loses.
pub proof fn law_a_mine_is_claimed_not_stepped_on(s: GameState, player: u8, x: u8, y: u8)
    requires
        s.wf(),
        s.placed,
        s.mode == Mode::FlagRace,
        takes_moves(s, x, y),
        s.cells[place(s.w, x as int, y as int)].mine,
        s.cells[place(s.w, x as int, y as int)].state == Reveal::Hidden,
    ensures
        ({
            let t = applied(s, Event::Reveal { player, x, y });
            let i = place(s.w, x as int, y as int);
            &&& t.cells[i].state == Reveal::Flagged
            &&& t.planted[i] == Some(player)
            &&& game_status(t) != Status::Lost
        }),
{
    lemma_place(s.w, s.h, x as int, y as int);
}

/// A claimed mine cannot be handed back by uncovering it again, whoever does.
pub proof fn law_a_claim_stays(s: GameState, player: u8, x: u8, y: u8)
    requires
        s.wf(),
        s.placed,
        s.mode == Mode::FlagRace,
        inside(s.w, s.h, x as int, y as int),
        s.cells[place(s.w, x as int, y as int)].mine,
        s.cells[place(s.w, x as int, y as int)].state == Reveal::Flagged,
    ensures
        applied(s, Event::Reveal { player, x, y }) == s,
{
    lemma_place(s.w, s.h, x as int, y as int);
    let i = place(s.w, x as int, y as int);
    assert(s.cells.update(i, claimed(s.cells[i])) =~= s.cells);
}

/// Nobody loses a flag race, and it is over exactly when every mine on the
/// board is claimed.
pub proof fn law_a_flag_race_ends_with_the_last_mine(s: GameState)
    requires
        s.mode == Mode::FlagRace,
        count(s.cells, is_mine()) == s.mines,
    ensures
        game_status(s) != Status::Lost,
        game_status(s) == Status::Won <==> forall|i: int|
            0 <= i < s.cells.len() && (#[trigger] s.cells[i]).mine ==> s.cells[i].state
                == Reveal::Flagged,
{
    lemma_all_claimed(s.cells);
}

/// Every event describes something that can be played.
pub open spec fn all_playable(events: Seq<Event>) -> bool {
    forall|i: int| 0 <= i < events.len() ==> (#[trigger] events[i]).playable()
}

/// The mines of a deal are all on the board once they are laid, when every
/// event of the log can be played.
pub proof fn law_a_playable_game_holds_all_its_mines(events: Seq<Event>)
    requires
        is_game(events),
        all_playable(events),
    ensures
        ({
            let g = replayed(events);
            &&& g.mines + 9 <= g.w * g.h
            &&& g.placed ==> count(g.cells, is_mine()) == g.mines
        }),
    decreases events.len(),
{
    let less = events.drop_last();
    let ev = events[events.len() - 1];
    let before = replayed(less);
    let g = replayed(events);
    assert(g == applied(before, ev));
    assert(ev.playable());
    if !(ev is Start) {
        assert(less.len() > 0);
        assert(less[0] == events[0]);
        assert forall|i: int| 0 <= i < less.len() implies (#[trigger] less[i]).playable() by {
            assert(less[i] == events[i]);
        }
        law_a_playable_game_holds_all_its_mines(less);
        law_every_log_comes_to_a_sound_game(less);
        let l = match ev {
            Event::Reveal { x, y, .. } => if takes_moves(before, x, y) {
                laid(before, x, y)
            } else {
                before
            },
            _ => before,
        };
        assert(g.cells.len() == l.cells.len() && g.placed == l.placed && g.mines == before.mines
            && g.w == before.w && g.h == before.h) by {
            if before.cells.len() > 0 {
                lemma_moves_keep_layout(before, ev, 0);
            }
        }
        assert forall|i: int| 0 <= i < g.cells.len() implies (#[trigger] g.cells[i]).mine
            == l.cells[i].mine by {
            lemma_moves_keep_layout(before, ev, i);
        }
        lemma_same_mine_count(g.cells, l.cells);
        if g.placed && !before.placed {
            if let Event::Reveal { x, y, .. } = ev {
                let first = opening(before, x, y);
                let d = dealt(
                    blank(before.w, before.h),
                    before.w,
                    before.h,
                    before.mines,
                    before.seed,
                    first,
                );
                assert forall|i: int| 0 <= i < l.cells.len() implies (#[trigger] l.cells[i]).mine
                    == d[i].mine by {
                    lemma_same_deal(
                        before.cells,
                        before.w,
                        before.h,
                        before.mines,
                        before.seed,
                        first,
                        i,
                    );
                }
                lemma_same_mine_count(l.cells, d);
                law_the_mines_are_all_laid(
                    before.w,
                    before.h,
                    before.mines,
                    before.seed,
                    first,
                );
            }
        }
    }
}

/// A flag race of events that can be played waits for no prize that was never
/// dealt: once the mines are laid it is over exactly when each is claimed.
pub proof fn law_a_playable_flag_race_can_be_finished(events: Seq<Event>)
    requires
        is_game(events),
        all_playable(events),
        replayed(events).mode == Mode::FlagRace,
        replayed(events).placed,
    ensures
        ({
            let g = replayed(events);
            game_status(g) == Status::Won <==> forall|i: int|
                0 <= i < g.cells.len() && (#[trigger] g.cells[i]).mine ==> g.cells[i].state
                    == Reveal::Flagged
        }),
{
    law_a_playable_game_holds_all_its_mines(events);
    law_a_flag_race_ends_with_the_last_mine(replayed(events));
}

proof fn lemma_all_claimed(cells: Seq<Cell>)
    ensures
        count(cells, is_claimed()) <= count(cells, is_mine()),
        count(cells, is_claimed()) == count(cells, is_mine()) <==> forall|i: int|
            0 <= i < cells.len() && (#[trigger] cells[i]).mine ==> cells[i].state
                == Reveal::Flagged,
    decreases cells.len(),
{
    if cells.len() > 0 {
        let rest = cells.drop_last();
        lemma_all_claimed(rest);
        let last = cells[cells.len() - 1];
        assert(cells.last() == last);
        if forall|i: int|
            0 <= i < cells.len() && (#[trigger] cells[i]).mine ==> cells[i].state
                == Reveal::Flagged {
            assert forall|i: int| 0 <= i < rest.len() && (#[trigger] rest[i]).mine implies rest[i].state
                == Reveal::Flagged by {
                assert(cells[i] == rest[i]);
            }
        }
        if count(cells, is_claimed()) == count(cells, is_mine()) {
            assert forall|i: int| 0 <= i < cells.len() && (#[trigger] cells[i]).mine implies cells[i].state
                == Reveal::Flagged by {
                if i < rest.len() {
                    assert(rest[i] == cells[i]);
                }
            }
        }
    }
}

// ---------------------------------------------------------------------------
// The race.
// ---------------------------------------------------------------------------
/// In a race the deal does not depend on who opened where: every first click
/// lays the same mines.
pub proof fn law_a_race_deals_everyone_the_same_mines(
    s: GameState,
    a: (u8, u8),
    b: (u8, u8),
)
    requires
        s.mode == Mode::Race,
    ensures
        laid(s, a.0, a.1) == laid(s, b.0, b.1),
{
}

/// The centre is the safe opening of a race.
pub proof fn law_the_centre_is_safe_in_a_race(seed: u64, w: u8, h: u8, mines: u16, x: u8, y: u8)
    requires
        w > 0,
        h > 0,
    ensures
        ({
            let t = laid(fresh(seed, w, h, mines, Mode::Race), x, y);
            !t.cells[place(w, (w / 2) as int, (h / 2) as int)].mine
        }),
{
    let first = ((w / 2) as u8, (h / 2) as u8);
    lemma_place(w, h, first.0 as int, first.1 as int);
    law_the_first_click_has_room(
        w,
        h,
        mines,
        seed,
        first,
        place(w, first.0 as int, first.1 as int),
    );
}

/// Every player is one of the two.
pub open spec fn two_seats(events: Seq<Event>) -> bool {
    forall|i: int|
        0 <= i < events.len() ==> match #[trigger] events[i] {
            Event::Start { .. } => true,
            Event::Reveal { player, .. } => player < 2,
            Event::Flag { player, .. } => player < 2,
        }
}

/// A race seen from the other seat is the same race with the boards swapped:
/// the two name one winner and one deciding move.
pub proof fn law_the_seats_swap_the_boards(events: Seq<Event>)
    requires
        two_seats(events),
    ensures
        ({
            let a = raced(events, 0);
            let b = raced(events, 1);
            &&& a.mine == b.theirs
            &&& a.theirs == b.mine
            &&& a.winner == b.winner
            &&& a.ended == b.ended
        }),
    decreases events.len(),
{
    if events.len() > 0 {
        let less = events.drop_last();
        assert forall|i: int| 0 <= i < less.len() implies match #[trigger] less[i] {
            Event::Start { .. } => true,
            Event::Reveal { player, .. } => player < 2,
            Event::Flag { player, .. } => player < 2,
        } by {
            assert(less[i] == events[i]);
        }
        law_the_seats_swap_the_boards(less);
        assert(events[events.len() - 1] == events.last());
    }
}

/// A race that has a winner ignores moves until the next deal.
pub proof fn law_a_decided_race_stays_decided(events: Seq<Event>, me: u8, ev: Event)
    requires
        raced(events, me).winner is Some,
        !(ev is Start),
    ensures
        raced(events.push(ev), me) == raced(events, me),
{
    assert(events.push(ev).drop_last() =~= events);
}

/// The board is one that a deal of this seed and size made, wherever it has
/// been opened since.
pub open spec fn dealt_at_centre(s: GameState) -> bool {
    let c = ((s.w / 2) as u8, (s.h / 2) as u8);
    let d = dealt(blank(s.w, s.h), s.w, s.h, s.mines, s.seed, c);
    forall|i: int|
        0 <= i < s.cells.len() ==> (#[trigger] s.cells[i]).mine == d[i].mine && s.cells[i].adj
            == d[i].adj
}

proof fn lemma_race_layout(s: GameState, ev: Event)
    requires
        sound(s),
        s.mode == Mode::Race,
        s.placed ==> dealt_at_centre(s),
        !(ev is Start),
    ensures
        applied(s, ev).placed ==> dealt_at_centre(applied(s, ev)),
        sound(applied(s, ev)),
        applied(s, ev).mode == Mode::Race,
        (applied(s, ev).w, applied(s, ev).h, applied(s, ev).mines, applied(s, ev).seed) == (
            s.w,
            s.h,
            s.mines,
            s.seed,
        ),
{
    law_every_event_keeps_a_game_sound(s, ev);
    let t = applied(s, ev);
    let c = ((s.w / 2) as u8, (s.h / 2) as u8);
    let d = dealt(blank(s.w, s.h), s.w, s.h, s.mines, s.seed, c);
    if t.placed {
        assert forall|i: int| 0 <= i < t.cells.len() implies (#[trigger] t.cells[i]).mine
            == d[i].mine && t.cells[i].adj == d[i].adj by {
            lemma_moves_keep_layout(s, ev, i);
            if s.placed {
                assert(s.cells[i].mine == d[i].mine);
            } else {
                lemma_same_deal(s.cells, s.w, s.h, s.mines, s.seed, c, i);
            }
        }
    }
}

/// In a race the two boards are the same board: once both have been opened,
/// the mines lie in the same places and the numbers are the same.
pub proof fn law_racers_share_a_layout(events: Seq<Event>, me: u8, i: int)
    requires
        ({
            let r = raced(events, me);
            &&& r.mine.mode == Mode::Race
            &&& r.mine.placed
            &&& r.theirs.placed
            &&& 0 <= i < r.mine.cells.len()
        }),
    ensures
        ({
            let r = raced(events, me);
            &&& r.mine.cells[i].mine == r.theirs.cells[i].mine
            &&& r.mine.cells[i].adj == r.theirs.cells[i].adj
        }),
{
    lemma_race_boards(events, me);
    let r = raced(events, me);
    assert(r.theirs.cells.len() == r.mine.cells.len());
    assert(r.theirs.cells[i].mine == r.theirs.cells[i].mine);
}

pub proof fn lemma_race_boards(events: Seq<Event>, me: u8)
    ensures
        ({
            let r = raced(events, me);
            &&& (r.mine.w, r.mine.h, r.mine.mines, r.mine.seed, r.mine.mode) == (
                r.theirs.w,
                r.theirs.h,
                r.theirs.mines,
                r.theirs.seed,
                r.theirs.mode,
            )
            &&& sound(r.mine)
            &&& sound(r.theirs)
            &&& r.mine.mode == Mode::Race && r.mine.placed ==> dealt_at_centre(r.mine)
            &&& r.mine.mode == Mode::Race && r.theirs.placed ==> dealt_at_centre(r.theirs)
        }),
    decreases events.len(),
{
    if events.len() == 0 {
        law_a_deal_is_sound(0, 0, 0, 0, Mode::Race);
    } else {
        let less = events.drop_last();
        let ev = events.last();
        lemma_race_boards(less, me);
        let r = raced(less, me);
        match ev {
            Event::Start { seed, w, h, mines, mode } => {
                law_a_deal_is_sound(seed, w, h, mines, mode);
            },
            _ => {
                law_every_event_keeps_a_game_sound(r.mine, ev);
                law_every_event_keeps_a_game_sound(r.theirs, ev);
                if r.mine.mode == Mode::Race {
                    lemma_race_layout(r.mine, ev);
                    lemma_race_layout(r.theirs, ev);
                }
            },
        }
    }
}

// ---------------------------------------------------------------------------
// The ending.
// ---------------------------------------------------------------------------
/// The marked ending is where the game was decided: it was on until then, or
/// dealt there, it was over from then on, and nothing since has changed it. A
/// game without one is still on.
pub proof fn law_the_ending_is_the_deciding_move(events: Seq<Event>)
    requires
        is_game(events),
        events.len() <= usize::MAX,
    ensures
        match ending(events) {
            None => game_status(replayed(events)) == Status::Playing,
            Some(i) => {
                &&& i < events.len()
                &&& game_status(replayed(events)) != Status::Playing
                &&& replayed(events.take(i + 1)) == replayed(events)
                &&& (events[i as int] is Start || game_status(replayed(events.take(i as int)))
                    == Status::Playing)
                &&& forall|k: int| i < k < events.len() ==> !((#[trigger] events[k]) is Start)
            },
        },
    decreases events.len(),
{
    if game_status(replayed(events)) != Status::Playing {
        let less = events.drop_last();
        assert(events.take(events.len() as int) =~= events);
        assert(events.take(events.len() - 1) =~= less);
        if !(events.last() is Start) {
            assert(less.len() > 0);
            assert(less[0] == events[0]);
            law_the_ending_is_the_deciding_move(less);
            if ending(less) is Some {
                let i = ending(less)->Some_0;
                assert(events.take(i + 1) =~= less.take(i + 1));
                assert(events.take(i as int) =~= less.take(i as int));
                assert(less[i as int] == events[i as int]);
                law_what_is_ignored(replayed(less), events.last());
                assert forall|k: int| i < k < events.len() implies !((#[trigger] events[k]) is Start) by {
                    if k < less.len() {
                        assert(less[k] == events[k]);
                    }
                }
            }
        }
    }
}

// ---------------------------------------------------------------------------
// Two peers.
// ---------------------------------------------------------------------------
/// What a log's entries do, in order.
pub open spec fn events_of(log: Seq<Stamped>) -> Seq<Event> {
    log.map_values(|s: Stamped| s.ev)
}

/// Logs that agree are one game, one race, and one hash.
pub proof fn law_agreeing_logs_are_one_game(a: Seq<Stamped>, b: Seq<Stamped>, me: u8)
    requires
        agree(a, b),
    ensures
        events_of(a) == events_of(b),
        replayed(events_of(a)) == replayed(events_of(b)),
        raced(events_of(a), me) == raced(events_of(b), me),
        hashed_log(a) == hashed_log(b),
    decreases a.len(),
{
    assert forall|i: int| 0 <= i < a.len() implies #[trigger] events_of(a)[i] == events_of(
        b,
    )[i] by {
        assert(same(a[i], b[i]));
    }
    assert(events_of(a) =~= events_of(b));
    if a.len() > 0 {
        assert forall|i: int| 0 <= i < a.drop_last().len() implies same(
            #[trigger] a.drop_last()[i],
            b.drop_last()[i],
        ) by {
            assert(same(a[i], b[i]));
        }
        law_agreeing_logs_are_one_game(a.drop_last(), b.drop_last(), me);
        assert(same(a[a.len() - 1], b[a.len() - 1]));
    }
}

/// The property that makes peer-to-peer safe: two peers who have seen the same
/// events, in whatever order they heard of them, play the same game.
pub proof fn law_peers_play_one_game(
    ours: Seq<Stamped>,
    heard: Seq<Stamped>,
    theirs: Seq<Stamped>,
    told: Seq<Stamped>,
    me: u8,
)
    requires
        strictly(ours),
        strictly(theirs),
        forall|s: Stamped|
            (#[trigger] holds(ours, s) || holds(heard, s)) <==> (holds(theirs, s) || holds(told, s)),
    ensures
        replayed(events_of(merged(ours, heard))) == replayed(events_of(merged(theirs, told))),
        raced(events_of(merged(ours, heard)), me) == raced(events_of(merged(theirs, told)), me),
        hashed_log(merged(ours, heard)) == hashed_log(merged(theirs, told)),
{
    law_peers_converge(ours, heard, theirs, told);
    law_agreeing_logs_are_one_game(merged(ours, heard), merged(theirs, told), me);
}

// ---------------------------------------------------------------------------
// What each event does.
// ---------------------------------------------------------------------------
/// A deal gives a board nobody has touched: as many cells as it is wide and
/// high, all hidden, no mine laid and no flag planted.
pub proof fn law_a_deal_is_untouched(s: GameState, seed: u64, w: u8, h: u8, mines: u16, mode: Mode)
    ensures
        ({
            let t = applied(s, Event::Start { seed, w, h, mines, mode });
            &&& (t.seed, t.w, t.h, t.mines, t.mode) == (seed, w, h, mines, mode)
            &&& !t.placed
            &&& t.cells.len() == w * h
            &&& t.planted.len() == w * h
            &&& forall|i: int|
                0 <= i < w * h ==> (#[trigger] t.cells[i]) == (Cell {
                    mine: false,
                    adj: 0,
                    state: Reveal::Hidden,
                })
            &&& forall|i: int| 0 <= i < w * h ==> (#[trigger] t.planted[i]) is None
        }),
{
    assert(0 <= w * h) by (nonlinear_arith)
        requires
            0 <= w,
            0 <= h,
    ;
}

/// No move changes the deal it is made in, nor how many cells there are.
pub proof fn law_moves_keep_the_deal(s: GameState, ev: Event)
    requires
        s.wf(),
        !(ev is Start),
    ensures
        ({
            let t = applied(s, ev);
            &&& (t.seed, t.w, t.h, t.mines, t.mode) == (s.seed, s.w, s.h, s.mines, s.mode)
            &&& t.cells.len() == s.cells.len()
            &&& t.planted.len() == s.planted.len()
            &&& s.placed ==> t.placed
        }),
{
    match ev {
        Event::Reveal { x, y, .. } => {
            if takes_moves(s, x, y) {
                lemma_place(s.w, s.h, x as int, y as int);
            }
        },
        Event::Flag { x, y, .. } => {
            if takes_moves(s, x, y) {
                lemma_place(s.w, s.h, x as int, y as int);
            }
        },
        _ => {},
    }
    if s.cells.len() > 0 {
        lemma_moves_keep_layout(s, ev, 0);
    }
}

/// The board that a reveal meets: the one there is, or where no mine is laid
/// yet, the deal of the seed around the click, or around the centre in a race.
pub proof fn law_a_first_reveal_deals(s: GameState, x: u8, y: u8)
    ensures
        laid(s, x, y).placed,
        s.placed ==> laid(s, x, y) == s,
        !s.placed ==> laid(s, x, y).cells == dealt(
            s.cells,
            s.w,
            s.h,
            s.mines,
            s.seed,
            if s.mode == Mode::Race {
                ((s.w / 2) as u8, (s.h / 2) as u8)
            } else {
                (x, y)
            },
        ),
        laid(s, x, y).planted == s.planted,
        (laid(s, x, y).seed, laid(s, x, y).w, laid(s, x, y).h, laid(s, x, y).mines, laid(
            s,
            x,
            y,
        ).mode) == (s.seed, s.w, s.h, s.mines, s.mode),
{
}

/// In every mode, a reveal of a hidden cell that is no mine, in a game that is
/// on, opens that cell and exactly what a click on it reaches, and plants no
/// flag. So does one of a mine, except in a flag race.
pub proof fn law_a_reveal_opens_in_every_mode(s: GameState, player: u8, x: u8, y: u8)
    requires
        s.wf(),
        game_status(s) == Status::Playing,
        x < s.w,
        y < s.h,
        laid(s, x, y).cells[y * s.w + x].state == Reveal::Hidden,
        s.mode == Mode::FlagRace ==> !laid(s, x, y).cells[y * s.w + x].mine,
    ensures
        ({
            let l = laid(s, x, y);
            let t = applied(s, Event::Reveal { player, x, y });
            let at = y * s.w + x;
            &&& t.placed
            &&& t.planted == s.planted
            &&& t.cells.len() == s.cells.len()
            &&& t.cells[at].state == Reveal::Shown
            &&& forall|i: int|
                0 <= i < t.cells.len() ==> (#[trigger] t.cells[i]) == (if reaches(
                    l.cells,
                    s.w,
                    s.h,
                    at,
                    i,
                ) {
                    Cell { state: Reveal::Shown, ..l.cells[i] }
                } else {
                    l.cells[i]
                })
        }),
{
    let l = laid(s, x, y);
    let at = y * s.w + x;
    lemma_place(s.w, s.h, x as int, y as int);
    assert(place(s.w, x as int, y as int) == at);
    law_a_flood_goes_all_the_way(l.cells, s.w, s.h, at);
}

/// Only a mine in a flag race is claimed instead: it alone changes, to a flag of
/// whoever uncovered it.
pub proof fn law_a_reveal_claims_in_a_flag_race(s: GameState, player: u8, x: u8, y: u8)
    requires
        s.wf(),
        s.mode == Mode::FlagRace,
        game_status(s) == Status::Playing,
        x < s.w,
        y < s.h,
        laid(s, x, y).cells[y * s.w + x].state == Reveal::Hidden,
        laid(s, x, y).cells[y * s.w + x].mine,
    ensures
        ({
            let l = laid(s, x, y);
            let t = applied(s, Event::Reveal { player, x, y });
            let at = y * s.w + x;
            &&& t.placed
            &&& t.cells.len() == s.cells.len()
            &&& t.cells[at] == (Cell { state: Reveal::Flagged, ..l.cells[at] })
            &&& t.planted[at] == Some(player)
            &&& forall|i: int|
                0 <= i < t.cells.len() && i != at ==> (#[trigger] t.cells[i]) == l.cells[i]
            &&& forall|i: int|
                0 <= i < t.cells.len() && i != at ==> (#[trigger] t.planted[i]) == s.planted[i]
        }),
{
    lemma_place(s.w, s.h, x as int, y as int);
    assert(place(s.w, x as int, y as int) == y * s.w + x);
}

/// A reveal of a cell that is flagged or open changes no cell, in any mode.
pub proof fn law_a_reveal_of_what_is_not_hidden_changes_nothing(
    s: GameState,
    player: u8,
    x: u8,
    y: u8,
)
    requires
        s.wf(),
        x < s.w,
        y < s.h,
        s.placed,
        s.cells[y * s.w + x].state != Reveal::Hidden,
    ensures
        applied(s, Event::Reveal { player, x, y }) == s,
{
    let at = y * s.w + x;
    lemma_place(s.w, s.h, x as int, y as int);
    assert(place(s.w, x as int, y as int) == at);
    law_an_open_or_flagged_cell_opens_nothing(s.cells, s.w, s.h, at);
    assert(s.cells.update(at, claimed(s.cells[at])) =~= s.cells);
}

/// In every mode, a flag on a hidden cell of a game that is on puts up the
/// player's flag there, one on a flagged cell takes the flag away whoever's it
/// was, one on an open cell changes nothing, and no other cell changes.
pub proof fn law_a_flag_toggles_in_every_mode(s: GameState, player: u8, x: u8, y: u8)
    requires
        s.wf(),
        game_status(s) == Status::Playing,
        x < s.w,
        y < s.h,
    ensures
        ({
            let t = applied(s, Event::Flag { player, x, y });
            let at = y * s.w + x;
            let was = s.cells[at];
            &&& t.placed == s.placed
            &&& t.cells.len() == s.cells.len()
            &&& t.cells[at] == (Cell {
                state: if was.state == Reveal::Hidden {
                    Reveal::Flagged
                } else if was.state == Reveal::Flagged {
                    Reveal::Hidden
                } else {
                    Reveal::Shown
                },
                ..was
            })
            &&& t.planted[at] == (if was.state == Reveal::Hidden {
                Some(player)
            } else {
                None
            })
            &&& forall|i: int|
                0 <= i < t.cells.len() && i != at ==> (#[trigger] t.cells[i]) == s.cells[i]
            &&& forall|i: int|
                0 <= i < t.cells.len() && i != at ==> (#[trigger] t.planted[i]) == s.planted[i]
        }),
{
    lemma_place(s.w, s.h, x as int, y as int);
    assert(place(s.w, x as int, y as int) == y * s.w + x);
}

/// Outside a flag race a game stands as its board does; a flag race is won when
/// as many mines are flagged as were dealt, and on until then.
pub proof fn law_how_a_game_stands(s: GameState)
    ensures
        s.mode != Mode::FlagRace ==> game_status(s) == status_of(s.cells),
        s.mode == Mode::FlagRace ==> (game_status(s) == Status::Won <==> Set::new(
            |i: int|
                0 <= i < s.cells.len() && s.cells[i].mine && s.cells[i].state == Reveal::Flagged,
        ).len() == s.mines) && game_status(s) != Status::Lost,
{
    law_counting_counts_places(s.cells, is_claimed());
    assert(Set::new(|i: int| 0 <= i < s.cells.len() && is_claimed()(s.cells[i])) =~= Set::new(
        |i: int|
            0 <= i < s.cells.len() && s.cells[i].mine && s.cells[i].state == Reveal::Flagged,
    ));
}

// ---------------------------------------------------------------------------
// Replays.
// ---------------------------------------------------------------------------
/// Playing one list and then another is playing the two as one, and playing a
/// single event is applying it.
pub proof fn law_games_are_played_in_parts(s: GameState, a: Seq<Event>, b: Seq<Event>, ev: Event)
    ensures
        played(s, a + b) == played(played(s, a), b),
        played(s, seq![]) == s,
        played(s, seq![ev]) == applied(s, ev),
    decreases b.len(),
{
    assert(seq![ev].drop_last() =~= seq![]);
    assert(played(s, seq![ev].drop_last()) == s);
    if b.len() == 0 {
        assert(a + b =~= a);
    } else {
        law_games_are_played_in_parts(s, a, b.drop_last(), ev);
        assert((a + b).drop_last() =~= a + b.drop_last());
        assert((a + b).last() == b.last());
    }
}

/// A log comes to its last deal and what was played since: nothing before the
/// deal counts, and everything after it does.
pub proof fn law_a_log_is_its_last_deal_and_what_follows(
    before: Seq<Event>,
    seed: u64,
    w: u8,
    h: u8,
    mines: u16,
    mode: Mode,
    after: Seq<Event>,
)
    ensures
        replayed(before.push(Event::Start { seed, w, h, mines, mode }) + after) == played(
            fresh(seed, w, h, mines, mode),
            after,
        ),
{
    let deal = Event::Start { seed, w, h, mines, mode };
    law_games_are_played_in_parts(no_game(), before.push(deal), after, deal);
    assert(before.push(deal).drop_last() =~= before);
}

/// The mode in play is the last deal's: of the `i`-th entry, where that is a
/// deal and no later one is.
pub proof fn law_the_mode_is_the_last_deals(log: Seq<Stamped>, i: int)
    requires
        0 <= i < log.len(),
        log[i].ev is Start,
        forall|k: int| i < k < log.len() ==> !((#[trigger] log[k]).ev is Start),
    ensures
        log[i].ev matches Event::Start { mode, .. } && mode_in(log) == mode,
    decreases log.len(),
{
    let less = log.drop_last();
    if i < log.len() - 1 {
        assert(!(log[log.len() - 1].ev is Start));
        assert(less[i] == log[i]);
        assert forall|k: int| i < k < less.len() implies !((#[trigger] less[k]).ev is Start) by {
            assert(less[k] == log[k]);
        }
        law_the_mode_is_the_last_deals(less, i);
    }
}

/// For a log that is a game, the mode in play is that of the game it comes to.
pub proof fn law_the_mode_is_the_games(log: Seq<Stamped>)
    requires
        is_game(events_of(log)),
    ensures
        mode_in(log) == replayed(events_of(log)).mode,
    decreases log.len(),
{
    let less = log.drop_last();
    assert(events_of(log).drop_last() =~= events_of(less));
    assert(events_of(log).last() == log.last().ev);
    if !(log.last().ev is Start) {
        assert(events_of(log)[0] == log[0].ev);
        assert(less.len() > 0);
        assert(events_of(less)[0] == less[0].ev);
        law_the_mode_is_the_games(less);
        law_every_log_comes_to_a_sound_game(events_of(less));
        law_moves_keep_the_deal(replayed(events_of(less)), log.last().ev);
    }
}

// ---------------------------------------------------------------------------
// The race, board by board.
// ---------------------------------------------------------------------------
/// Whose event it is; nobody's, where it is a deal.
pub open spec fn made_by(ev: Event, player: u8) -> bool {
    match ev {
        Event::Start { .. } => false,
        Event::Reveal { player: p, .. } => p == player,
        Event::Flag { player: p, .. } => p == player,
    }
}

/// The moves since the last deal that `me` made, or that anybody else did.
pub open spec fn moves_since_deal(events: Seq<Event>, me: u8, mine: bool) -> Seq<Event>
    decreases events.len(),
{
    if events.len() == 0 || events.last() is Start {
        seq![]
    } else {
        let before = moves_since_deal(events.drop_last(), me, mine);
        if made_by(events.last(), me) == mine {
            before.push(events.last())
        } else {
            before
        }
    }
}

/// The last deal of a log, as a game nobody has moved in.
pub open spec fn last_deal(events: Seq<Event>) -> GameState
    decreases events.len(),
{
    if events.len() == 0 {
        no_game()
    } else {
        match events.last() {
            Event::Start { seed, w, h, mines, mode } => fresh(seed, w, h, mines, mode),
            _ => last_deal(events.drop_last()),
        }
    }
}

/// Until a race is decided, my board is the last deal with all of my moves
/// since, flags and all, played on it, and theirs is the deal with all of
/// theirs.
pub proof fn law_a_race_is_two_replays(events: Seq<Event>, me: u8)
    requires
        raced(events, me).winner is None,
    ensures
        raced(events, me).mine == played(last_deal(events), moves_since_deal(events, me, true)),
        raced(events, me).theirs == played(last_deal(events), moves_since_deal(events, me, false)),
    decreases events.len(),
{
    if events.len() > 0 && !(events.last() is Start) {
        let less = events.drop_last();
        let ev = events.last();
        law_a_race_is_two_replays(less, me);
        let a = moves_since_deal(less, me, true);
        let b = moves_since_deal(less, me, false);
        assert(a.push(ev).drop_last() =~= a);
        assert(b.push(ev).drop_last() =~= b);
    }
}

/// A decided race is the race as it stood after the deciding move.
proof fn lemma_race_ended(events: Seq<Event>, me: u8)
    requires
        raced(events, me).winner is Some,
        events.len() <= usize::MAX,
    ensures
        ({
            let r = raced(events, me);
            let n = r.ended->Some_0 as int;
            &&& r.ended is Some
            &&& 0 <= n < events.len()
            &&& r == raced(events.take(n + 1), me)
            &&& raced(events.take(n), me).winner is None
            &&& forall|k: int| n <= k < events.len() ==> !((#[trigger] events[k]) is Start)
        }),
    decreases events.len(),
{
    let less = events.drop_last();
    let last = events.len() - 1;
    if raced(less, me).winner is Some {
        lemma_race_ended(less, me);
        let n = raced(less, me).ended->Some_0 as int;
        assert(!(events.last() is Start));
        assert(less.take(n) =~= events.take(n));
        assert(less.take(n + 1) =~= events.take(n + 1));
        assert forall|k: int| n <= k < events.len() implies !((#[trigger] events[k]) is Start) by {
            if k < less.len() {
                assert(less[k] == events[k]);
            }
        }
    } else {
        assert(events.take(last) =~= less);
        assert(events.take(last + 1) =~= events);
        assert(events[last] == events.last());
    }
}

/// A race is decided by the first move that ends one of the two boards: whoever
/// made it wins if they are home, and the other does if they stepped on a mine.
/// Nothing since has changed either board.
pub proof fn law_the_first_one_home_wins(events: Seq<Event>, me: u8)
    requires
        raced(events, me).winner is Some,
        events.len() <= usize::MAX,
    ensures
        ({
            let r = raced(events, me);
            let n = r.ended->Some_0 as int;
            let before = raced(events.take(n), me);
            let own = made_by(events[n], me);
            let on = if own {
                game_status(before.mine)
            } else {
                game_status(before.theirs)
            };
            let over = if own {
                game_status(r.mine)
            } else {
                game_status(r.theirs)
            };
            let them = if me == 0 {
                1u8
            } else {
                0u8
            };
            &&& r.ended is Some
            &&& 0 <= n < events.len()
            &&& !(events[n] is Start)
            &&& forall|k: int| n < k < events.len() ==> !((#[trigger] events[k]) is Start)
            &&& before.winner is None
            &&& on == Status::Playing
            &&& over != Status::Playing
            &&& (me < 2 ==> r.winner == (if own == (over == Status::Won) {
                Some(me)
            } else {
                Some(them)
            }))
            &&& r.mine == (if own {
                applied(before.mine, events[n])
            } else {
                before.mine
            })
            &&& r.theirs == (if own {
                before.theirs
            } else {
                applied(before.theirs, events[n])
            })
        }),
{
    lemma_race_ended(events, me);
    let n = raced(events, me).ended->Some_0 as int;
    let upto = events.take(n + 1);
    assert(upto.drop_last() =~= events.take(n));
    assert(upto.last() == events[n]);
}

/// While a race that was dealt to be played is undecided, both boards are on.
pub proof fn law_an_undecided_race_is_on(events: Seq<Event>, me: u8)
    requires
        raced(events, me).winner is None,
        game_status(last_deal(events)) == Status::Playing,
    ensures
        game_status(raced(events, me).mine) == Status::Playing,
        game_status(raced(events, me).theirs) == Status::Playing,
        raced(events, me).ended is None,
    decreases events.len(),
{
    if events.len() > 0 && !(events.last() is Start) {
        law_an_undecided_race_is_on(events.drop_last(), me);
    }
}

// ---------------------------------------------------------------------------
// Scores.
// ---------------------------------------------------------------------------
/// Where a flag of `player` stands on a cell that is a mine, or is none.
pub open spec fn flags_on(s: GameState, player: u8, mine: bool, n: nat) -> Set<int> {
    Set::new(|i: int| 0 <= i < n && s.planted[i] == Some(player) && s.cells[i].mine == mine)
}

/// A score is how many of the player's flags stand on mines less how many stand
/// elsewhere; the flags placed are both together.
pub proof fn law_a_score_is_right_flags_less_wrong_ones(s: GameState, player: u8)
    ensures
        ({
            let n = s.planted.len();
            let right = flags_on(s, player, true, n);
            let wrong = flags_on(s, player, false, n);
            &&& right.finite() && wrong.finite()
            &&& score(s, player) == right.len() - wrong.len()
            &&& flags(s, player) == right.len() + wrong.len()
        }),
{
    lemma_scores(s, player, s.planted.len());
}

proof fn lemma_scores(s: GameState, player: u8, n: nat)
    ensures
        flags_on(s, player, true, n).finite(),
        flags_on(s, player, false, n).finite(),
        score_in(s, player, n) == flags_on(s, player, true, n).len() - flags_on(
            s,
            player,
            false,
            n,
        ).len(),
        flags_in(s, player, n) == flags_on(s, player, true, n).len() + flags_on(
            s,
            player,
            false,
            n,
        ).len(),
    decreases n,
{
    let right = flags_on(s, player, true, n);
    let wrong = flags_on(s, player, false, n);
    if n == 0 {
        assert(right =~= Set::empty());
        assert(wrong =~= Set::empty());
    } else {
        let i = n - 1;
        lemma_scores(s, player, i as nat);
        let r = flags_on(s, player, true, i as nat);
        let w = flags_on(s, player, false, i as nat);
        if s.planted[i] == Some(player) {
            if s.cells[i].mine {
                assert(right =~= r.insert(i));
                assert(wrong =~= w);
            } else {
                assert(right =~= r);
                assert(wrong =~= w.insert(i));
            }
        } else {
            assert(right =~= r);
            assert(wrong =~= w);
        }
    }
}

// ---------------------------------------------------------------------------
// What is hashed.
// ---------------------------------------------------------------------------
/// What is hashed of a game tells all there is to tell: two games of which the
/// same is hashed have the same deal, the same cells and, in a flag race, the
/// same scores.
pub proof fn law_what_is_hashed_tells_games_apart(s: GameState, t: GameState)
    requires
        s.wf(),
        t.wf(),
        forall|i: int| 0 <= i < s.cells.len() ==> (#[trigger] s.cells[i]).adj <= 8,
        forall|i: int| 0 <= i < t.cells.len() ==> (#[trigger] t.cells[i]).adj <= 8,
        hashed(s) == hashed(t),
    ensures
        (s.seed, s.w, s.h, s.mines, s.mode) == (t.seed, t.w, t.h, t.mines, t.mode),
        s.cells == t.cells,
        s.mode == Mode::FlagRace ==> score(s, 0) == score(t, 0) && score(s, 1) == score(t, 1),
{
    let a = hashed(s);
    let ds = Event::Start { seed: s.seed, w: s.w, h: s.h, mines: s.mines, mode: s.mode };
    let dt = Event::Start { seed: t.seed, w: t.w, h: t.h, mines: t.mines, mode: t.mode };
    let cs = s.cells.map_values(|c: Cell| cell_byte(c));
    let ct = t.cells.map_values(|c: Cell| cell_byte(c));
    let es = if s.mode == Mode::FlagRace {
        score_bytes(score(s, 0)) + score_bytes(score(s, 1))
    } else {
        seq![]
    };
    let et = if t.mode == Mode::FlagRace {
        score_bytes(score(t, 0)) + score_bytes(score(t, 1))
    } else {
        seq![]
    };
    assert(a =~= event_bytes(ds) + (cs + es));
    assert(a =~= event_bytes(dt) + (ct + et));
    ds.reads_back(cs + es);
    dt.reads_back(ct + et);
    let n = event_bytes(ds).len();
    assert(a.skip(n as int) =~= cs + es);
    assert(a.skip(n as int) =~= ct + et);
    let len = s.cells.len();
    assert(cs + es == ct + et);
    assert forall|i: int| 0 <= i < len implies s.cells[i] == t.cells[i] by {
        assert((cs + es)[i] == cs[i]);
        assert((ct + et)[i] == ct[i]);
        if s.cells[i] != t.cells[i] {
            lemma_cell_bytes_differ(s.cells[i], t.cells[i]);
        }
    }
    assert(s.cells =~= t.cells);
    if s.mode == Mode::FlagRace {
        assert((cs + es).skip(len as int) =~= es);
        assert((ct + et).skip(len as int) =~= et);
        lemma_score_bytes(s, 0);
        lemma_score_bytes(s, 1);
        lemma_score_bytes(t, 0);
        lemma_score_bytes(t, 1);
        assert(es.take(4) =~= score_bytes(score(s, 0)));
        assert(et.take(4) =~= score_bytes(score(t, 0)));
        assert(es.skip(4) =~= score_bytes(score(s, 1)));
        assert(et.skip(4) =~= score_bytes(score(t, 1)));
    }
}

proof fn lemma_score_bytes(s: GameState, player: u8)
    requires
        s.wf(),
    ensures
        score_bytes(score(s, player)).len() == 4,
        le_value(score_bytes(score(s, player))) == score(s, player) + 0x8000_0000,
{
    let w = s.w;
    let h = s.h;
    assert(0 <= w * h <= 65025) by (nonlinear_arith)
        requires
            0 <= w <= 255,
            0 <= h <= 255,
    ;
    lemma_score_bound(s, player, s.planted.len());
    lemma_rooms();
    law_le_reads_back((score(s, player) + 0x8000_0000) as nat, 4);
}

proof fn lemma_hashed_log_front(log: Seq<Stamped>)
    requires
        log.len() > 0,
    ensures
        hashed_log(log) == le(log[0].seq as nat, 4) + event_bytes(log[0].ev) + hashed_log(
            log.skip(1),
        ),
    decreases log.len(),
{
    let rest = log.skip(1);
    if log.len() == 1 {
        assert(log.drop_last() =~= seq![]);
        assert(rest =~= seq![]);
        assert(hashed_log(log.drop_last()) =~= seq![]);
        assert(hashed_log(rest) =~= seq![]);
        assert(hashed_log(log) =~= le(log[0].seq as nat, 4) + event_bytes(log[0].ev) + hashed_log(
            rest,
        ));
    } else {
        lemma_hashed_log_front(log.drop_last());
        assert(log.drop_last().skip(1) =~= rest.drop_last());
        assert(log.drop_last()[0] == log[0]);
        assert(rest.last() == log.last());
        assert(hashed_log(log) =~= le(log[0].seq as nat, 4) + event_bytes(log[0].ev) + hashed_log(
            rest,
        ));
    }
}

/// What is hashed of a log tells all there is to tell but the times: two logs of
/// which the same is hashed agree.
pub proof fn law_what_is_hashed_tells_logs_apart(a: Seq<Stamped>, b: Seq<Stamped>)
    requires
        hashed_log(a) == hashed_log(b),
    ensures
        agree(a, b),
    decreases a.len(),
{
    lemma_rooms();
    if a.len() > 0 {
        lemma_hashed_log_front(a);
        law_le_reads_back(a[0].seq as nat, 4);
        lemma_event_is_some_bytes(a[0].ev);
    }
    if b.len() > 0 {
        lemma_hashed_log_front(b);
        law_le_reads_back(b[0].seq as nat, 4);
        lemma_event_is_some_bytes(b[0].ev);
    }
    if a.len() > 0 && b.len() > 0 {
        let h = hashed_log(a);
        let ra = hashed_log(a.skip(1));
        let rb = hashed_log(b.skip(1));
        assert(h.take(4) =~= le(a[0].seq as nat, 4));
        assert(h.take(4) =~= le(b[0].seq as nat, 4));
        assert(h.skip(4) =~= event_bytes(a[0].ev) + ra);
        assert(h.skip(4) =~= event_bytes(b[0].ev) + rb);
        a[0].ev.reads_back(ra);
        b[0].ev.reads_back(rb);
        let n = event_bytes(a[0].ev).len();
        assert(h.skip(4).skip(n as int) =~= ra);
        assert(h.skip(4).skip(n as int) =~= rb);
        law_what_is_hashed_tells_logs_apart(a.skip(1), b.skip(1));
        assert forall|i: int| 0 <= i < a.len() implies same(#[trigger] a[i], b[i]) by {
            if i > 0 {
                assert(same(a.skip(1)[i - 1], b.skip(1)[i - 1]));
            }
        }
    }
}

proof fn lemma_event_is_some_bytes(ev: Event)
    ensures
        event_bytes(ev).len() > 0,
{
}

/// What is hashed of a game is no more than its deal, its cells and, in a flag
/// race, its scores: games that are alike in these hash alike, whoever put up
/// which flag.
pub proof fn law_games_alike_hash_alike(s: GameState, t: GameState)
    requires
        (s.seed, s.w, s.h, s.mines, s.mode) == (t.seed, t.w, t.h, t.mines, t.mode),
        s.cells == t.cells,
        s.mode == Mode::FlagRace ==> score(s, 0) == score(t, 0) && score(s, 1) == score(t, 1),
    ensures
        hashed(s) == hashed(t),
{
}

/// A log is a game exactly if it opens with a deal.
pub proof fn law_a_game_opens_with_a_deal(events: Seq<Event>, ev: Event)
    ensures
        !is_game(seq![]),
        is_game(seq![ev] + events) <==> ev is Start,
{
}

} // verus!
