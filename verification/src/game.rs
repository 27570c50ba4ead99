//! A game: a board, the rules in play, and the fold that turns a log of moves
//! into one.
use vstd::prelude::*;

use crate::board::laws::law_flags_survive_the_flood;
use crate::board::{
    blank, claimed, count, dealt, inside, lemma_place, opened, place, status_of, toggled, Board,
    Cell, Reveal, Status,
};
use crate::bytes::{le, put_le};
use crate::event::{Event, Mode, Stamped};
use crate::fnv::{fnv, hash_bytes};
use crate::wire::event_bytes;

pub mod laws;

verus! {

pub struct Game {
    pub board: Board,
    pub mode: Mode,
    pub seed: u64,
    /// The mines are laid.
    pub placed: bool,
    /// Who planted the flag that stands on each cell.
    pub planted: Vec<Option<u8>>,
}

/// All there is to a game.
#[verifier::ext_equal]
pub struct GameState {
    pub w: u8,
    pub h: u8,
    pub mines: u16,
    pub cells: Seq<Cell>,
    pub mode: Mode,
    pub seed: u64,
    pub placed: bool,
    pub planted: Seq<Option<u8>>,
}

impl View for Game {
    type V = GameState;

    open spec fn view(&self) -> GameState {
        GameState {
            w: self.board.w,
            h: self.board.h,
            mines: self.board.mines,
            cells: self.board@,
            mode: self.mode,
            seed: self.seed,
            placed: self.placed,
            planted: self.planted@,
        }
    }
}

impl GameState {
    /// One cell for each place, and a planter for each flag.
    pub open spec fn wf(self) -> bool {
        &&& self.cells.len() == self.w * self.h
        &&& self.planted.len() == self.cells.len()
        &&& forall|i: int|
            0 <= i < self.cells.len() ==> ((#[trigger] self.planted[i]) is Some
                <==> self.cells[i].state == Reveal::Flagged)
    }
}

// ---------------------------------------------------------------------------
// The rules.
// ---------------------------------------------------------------------------
/// A game nobody has moved in.
pub open spec fn fresh(seed: u64, w: u8, h: u8, mines: u16, mode: Mode) -> GameState {
    GameState {
        w,
        h,
        mines,
        cells: blank(w, h),
        mode,
        seed,
        placed: false,
        planted: Seq::new((w * h) as nat, |i: int| None),
    }
}

pub open spec fn is_claimed() -> spec_fn(Cell) -> bool {
    |c: Cell| c.mine && c.state == Reveal::Flagged
}

/// How a game stands. A flag race ends when the last mine is claimed: nobody
/// can lose it. Any other game ends as its board does.
pub open spec fn game_status(s: GameState) -> Status {
    if s.mode == Mode::FlagRace {
        if count(s.cells, is_claimed()) == s.mines {
            Status::Won
        } else {
            Status::Playing
        }
    } else {
        status_of(s.cells)
    }
}

/// The cell that is sure to be safe: the first click, or the centre in a
/// race, where two boards have to be the *same* board and the layout cannot
/// depend on who clicked where first.
pub open spec fn opening(s: GameState, x: u8, y: u8) -> (u8, u8) {
    if s.mode == Mode::Race {
        ((s.w / 2) as u8, (s.h / 2) as u8)
    } else {
        (x, y)
    }
}

/// The game with its mines laid: the board does not exist until the first
/// click, so that click can be guaranteed safe.
pub open spec fn laid(s: GameState, x: u8, y: u8) -> GameState {
    if s.placed {
        s
    } else {
        GameState {
            cells: dealt(s.cells, s.w, s.h, s.mines, s.seed, opening(s, x, y)),
            placed: true,
            ..s
        }
    }
}

/// The game once `player` has uncovered `(x, y)`. In a flag race the mines
/// are the prize, not the punishment: uncovering one claims it.
pub open spec fn uncovered(s: GameState, player: u8, x: u8, y: u8) -> GameState {
    let i = place(s.w, x as int, y as int);
    if s.mode == Mode::FlagRace && s.cells[i].mine {
        GameState {
            cells: s.cells.update(i, claimed(s.cells[i])),
            planted: if s.cells[i].state == Reveal::Hidden {
                s.planted.update(i, Some(player))
            } else {
                s.planted
            },
            ..s
        }
    } else {
        GameState { cells: opened(s.cells, s.w, s.h, i), ..s }
    }
}

/// The game once `player` has toggled the flag on `(x, y)`.
pub open spec fn flagged(s: GameState, player: u8, x: u8, y: u8) -> GameState {
    let i = place(s.w, x as int, y as int);
    GameState {
        cells: s.cells.update(i, toggled(s.cells[i])),
        planted: s.planted.update(
            i,
            if s.cells[i].state == Reveal::Hidden {
                Some(player)
            } else {
                None
            },
        ),
        ..s
    }
}

/// A move at `(x, y)` can be made: the game is on, and the place is on the
/// board.
pub open spec fn takes_moves(s: GameState, x: u8, y: u8) -> bool {
    game_status(s) == Status::Playing && inside(s.w, s.h, x as int, y as int)
}

/// The game after one more event.
pub open spec fn applied(s: GameState, ev: Event) -> GameState {
    match ev {
        Event::Start { seed, w, h, mines, mode } => fresh(seed, w, h, mines, mode),
        Event::Reveal { player, x, y } => if takes_moves(s, x, y) {
            uncovered(laid(s, x, y), player, x, y)
        } else {
            s
        },
        Event::Flag { player, x, y } => if takes_moves(s, x, y) {
            flagged(s, player, x, y)
        } else {
            s
        },
    }
}

/// The game after each of the events in turn.
pub open spec fn played(s: GameState, events: Seq<Event>) -> GameState
    decreases events.len(),
{
    if events.len() == 0 {
        s
    } else {
        applied(played(s, events.drop_last()), events.last())
    }
}

/// A game on a board without cells: what there is before any deal.
pub open spec fn no_game() -> GameState {
    fresh(0, 0, 0, 0, Mode::Race)
}

/// A log is a game when a deal opens it.
pub open spec fn is_game(events: Seq<Event>) -> bool {
    events.len() > 0 && events[0] is Start
}

/// The game that a log comes to.
pub open spec fn replayed(events: Seq<Event>) -> GameState {
    played(no_game(), events)
}

/// Which event ended the game that the log comes to: the first one since its
/// deal after which it was over.
pub open spec fn ending(events: Seq<Event>) -> Option<usize>
    decreases events.len(),
{
    if events.len() == 0 || game_status(replayed(events)) == Status::Playing {
        None
    } else if events.last() is Start || ending(events.drop_last()) is None {
        Some((events.len() - 1) as usize)
    } else {
        ending(events.drop_last())
    }
}

/// The mode of the last deal in the log.
pub open spec fn mode_in(log: Seq<Stamped>) -> Mode
    decreases log.len(),
{
    if log.len() == 0 {
        Mode::Coop
    } else {
        match log.last().ev {
            Event::Start { mode, .. } => mode,
            _ => mode_in(log.drop_last()),
        }
    }
}

// ---------------------------------------------------------------------------
// The scoreboard.
// ---------------------------------------------------------------------------
/// What the flags of `player` on the first `n` cells come to: one for each on
/// a mine, less one for each on a safe cell.
pub open spec fn score_in(s: GameState, player: u8, n: nat) -> int
    decreases n,
{
    if n == 0 {
        0
    } else {
        let i = n - 1;
        score_in(s, player, i as nat) + (if s.planted[i] == Some(player) {
            if s.cells[i].mine {
                1int
            } else {
                -1int
            }
        } else {
            0int
        })
    }
}

pub open spec fn score(s: GameState, player: u8) -> int {
    score_in(s, player, s.planted.len())
}

/// How many flags of `player` stand on the first `n` cells.
pub open spec fn flags_in(s: GameState, player: u8, n: nat) -> nat
    decreases n,
{
    if n == 0 {
        0
    } else {
        flags_in(s, player, (n - 1) as nat) + (if s.planted[n - 1] == Some(player) {
            1nat
        } else {
            0nat
        })
    }
}

pub open spec fn flags(s: GameState, player: u8) -> nat {
    flags_in(s, player, s.planted.len())
}

// ---------------------------------------------------------------------------
// Hashes.
// ---------------------------------------------------------------------------
/// A cell in seven bits: a mine 1, its number 4, its state 2.
pub open spec fn cell_byte(c: Cell) -> u8 {
    (if c.mine {
        1u8
    } else {
        0u8
    }) | (c.adj << 1u8) | (c.state.code() << 5u8)
}

/// What a score is hashed as: its distance from the lowest there could be.
pub open spec fn score_bytes(score: int) -> Seq<u8> {
    le((score + 0x8000_0000) as nat, 4)
}

/// The deal that a game came from.
pub open spec fn deal_bytes(s: GameState) -> Seq<u8> {
    event_bytes(
        Event::Start { seed: s.seed, w: s.w, h: s.h, mines: s.mines, mode: s.mode },
    )
}

/// What is hashed of a game: the deal, every cell, and in a flag race the
/// scoreboard.
pub open spec fn hashed(s: GameState) -> Seq<u8> {
    deal_bytes(s) + s.cells.map_values(|c: Cell| cell_byte(c)) + (if s.mode == Mode::FlagRace {
        score_bytes(score(s, 0)) + score_bytes(score(s, 1))
    } else {
        seq![]
    })
}

/// What is hashed of a log: the place and the content of every event.
pub open spec fn hashed_log(log: Seq<Stamped>) -> Seq<u8>
    decreases log.len(),
{
    if log.len() == 0 {
        seq![]
    } else {
        hashed_log(log.drop_last()) + le(log.last().seq as nat, 4) + event_bytes(log.last().ev)
    }
}

proof fn lemma_size(w: u8, h: u8)
    ensures
        0 <= w * h <= 65025,
{
    assert(0 <= w * h <= 65025) by (nonlinear_arith)
        requires
            0 <= w <= 255,
            0 <= h <= 255,
    ;
}

pub proof fn lemma_score_bound(s: GameState, player: u8, n: nat)
    ensures
        -n <= score_in(s, player, n) <= n,
        flags_in(s, player, n) <= n,
    decreases n,
{
    if n > 0 {
        lemma_score_bound(s, player, (n - 1) as nat);
    }
}

/// Every event keeps a planter for each flag.
pub proof fn lemma_applied_wf(s: GameState, ev: Event)
    requires
        s.wf(),
    ensures
        applied(s, ev).wf(),
{
    let t = applied(s, ev);
    lemma_size(t.w, t.h);
    match ev {
        Event::Start { seed, w, h, mines, mode } => {},
        Event::Reveal { player, x, y } => {
            if takes_moves(s, x, y) {
                let l = laid(s, x, y);
                let at = place(s.w, x as int, y as int);
                lemma_place(s.w, s.h, x as int, y as int);
                assert(l.wf());
                assert forall|i: int| 0 <= i < t.cells.len() implies ((#[trigger] t.planted[i]) is Some
                    <==> t.cells[i].state == Reveal::Flagged) by {
                    assert(l.planted[i] is Some <==> l.cells[i].state == Reveal::Flagged);
                    if !(s.mode == Mode::FlagRace && l.cells[at].mine) {
                        if l.cells[i].state != Reveal::Hidden {
                            law_flags_survive_the_flood(l.cells, l.w, l.h, at, i);
                        }
                    }
                }
            }
        },
        Event::Flag { player, x, y } => {
            if takes_moves(s, x, y) {
                lemma_place(s.w, s.h, x as int, y as int);
                assert forall|i: int| 0 <= i < t.cells.len() implies ((#[trigger] t.planted[i]) is Some
                    <==> t.cells[i].state == Reveal::Flagged) by {
                    assert(s.planted[i] is Some <==> s.cells[i].state == Reveal::Flagged);
                }
            }
        },
    }
}

impl Game {
    pub fn new(seed: u64, w: u8, h: u8, mines: u16, mode: Mode) -> (g: Self)
        ensures
            g@.wf(),
            g@ == fresh(seed, w, h, mines, mode),
    {
        proof {
            lemma_size(w, h);
        }
        let size: usize = w as usize * h as usize;
        let mut planted: Vec<Option<u8>> = Vec::new();
        let mut i: usize = 0;
        while i < size
            invariant
                i <= size,
                planted@ == Seq::new(i as nat, |k: int| None::<u8>),
            decreases size - i,
        {
            planted.push(None);
            i = i + 1;
            assert(planted@ =~= Seq::new(i as nat, |k: int| None::<u8>));
        }
        let g = Game { board: Board::new(w, h, mines), mode, seed, placed: false, planted };
        assert(g@ =~= fresh(seed, w, h, mines, mode));
        g
    }

    /// Folds one event into the game. `Start` always deals anew: restarting
    /// is exactly what you do from a finished game. A finished game ignores
    /// every other move — peers may still have some in flight — and so is one
    /// off the board ignored.
    pub fn apply(&mut self, ev: &Event)
        requires
            old(self)@.wf(),
        ensures
            final(self)@.wf(),
            final(self)@ == applied(old(self)@, *ev),
    {
        let ghost s = self@;
        proof {
            lemma_applied_wf(s, *ev);
        }
        match *ev {
            Event::Start { seed, w, h, mines, mode } => {
                *self = Game::new(seed, w, h, mines, mode);
            },
            Event::Reveal { player, x, y } => {
                if self.status() != Status::Playing || !self.board.in_bounds(x as i32, y as i32) {
                    return;
                }
                proof {
                    lemma_place(s.w, s.h, x as int, y as int);
                }
                if !self.placed {
                    let first: (u8, u8) = match self.mode {
                        Mode::Race => (self.board.w / 2, self.board.h / 2),
                        _ => (x, y),
                    };
                    self.board.place_mines(self.seed, first);
                    self.placed = true;
                }
                assert(self@ =~= laid(s, x, y));
                let c: Cell = self.board.get(x, y);
                if self.mode == Mode::FlagRace && c.mine {
                    self.board.claim(x, y);
                    if c.state == Reveal::Hidden {
                        let i: usize = self.board.idx(x, y);
                        self.planted.set(i, Some(player));
                    }
                } else {
                    self.board.reveal_cell(x, y);
                }
                assert(self@ =~= applied(s, *ev));
            },
            Event::Flag { player, x, y } => {
                if self.status() != Status::Playing || !self.board.in_bounds(x as i32, y as i32) {
                    return;
                }
                proof {
                    lemma_place(s.w, s.h, x as int, y as int);
                }
                let i: usize = self.board.idx(x, y);
                let hidden: bool = self.board.get(x, y).state == Reveal::Hidden;
                self.board.toggle_flag(x, y);
                self.planted.set(
                    i,
                    if hidden {
                        Some(player)
                    } else {
                        None
                    },
                );
                assert(self@ =~= applied(s, *ev));
            },
        }
    }

    /// A flag race ends when the last mine is claimed — nobody can lose it,
    /// so the board's own "did anyone step on a mine" rule never fires and
    /// its "is everything safe uncovered" rule would drag the game past the
    /// point where the result is settled.
    pub fn status(&self) -> (s: Status)
        requires
            self@.wf(),
        ensures
            s == game_status(self@),
    {
        if self.mode == Mode::FlagRace {
            let cells: &[Cell] = self.board.cells();
            let mut n: usize = 0;
            let mut i: usize = 0;
            assert(cells@.take(0) =~= seq![]);
            while i < cells.len()
                invariant
                    i <= cells@.len(),
                    n <= i,
                    n == count(cells@.take(i as int), is_claimed()),
                decreases cells@.len() - i,
            {
                assert(cells@.take(i + 1).drop_last() =~= cells@.take(i as int));
                if cells[i].mine && cells[i].state == Reveal::Flagged {
                    n = n + 1;
                }
                i = i + 1;
            }
            assert(cells@.take(i as int) =~= cells@);
            if n == self.board.mines as usize {
                Status::Won
            } else {
                Status::Playing
            }
        } else {
            self.board.status()
        }
    }

    /// The game a log comes to; nothing where no deal opens it.
    pub fn replay(events: &[Event]) -> (r: Option<Game>)
        ensures
            match r {
                Some(g) => is_game(events@) && g@.wf() && g@ == replayed(events@),
                None => !is_game(events@),
            },
    {
        match Game::replay_marking_end(events) {
            Some((g, _)) => Some(g),
            None => None,
        }
    }

    /// The game a log comes to, and which event ended it: the clock stops
    /// there, not at whatever arrived afterwards.
    pub fn replay_marking_end(events: &[Event]) -> (r: Option<(Game, Option<usize>)>)
        ensures
            match r {
                Some((g, ended)) => {
                    &&& is_game(events@)
                    &&& g@.wf()
                    &&& g@ == replayed(events@)
                    &&& ended == ending(events@)
                },
                None => !is_game(events@),
            },
    {
        if events.len() == 0 {
            return None;
        }
        match events[0] {
            Event::Start { .. } => {},
            _ => {
                return None;
            },
        }
        let mut g: Game = Game::new(0, 0, 0, 0, Mode::Race);
        let mut ended: Option<usize> = None;
        let mut i: usize = 0;
        assert(events@.take(0) =~= seq![]);
        while i < events.len()
            invariant
                i <= events@.len(),
                g@.wf(),
                g@ == replayed(events@.take(i as int)),
                ended == ending(events@.take(i as int)),
            decreases events@.len() - i,
        {
            let ev: Event = events[i];
            assert(events@.take(i + 1).drop_last() =~= events@.take(i as int));
            g.apply(&ev);
            let deal: bool = match ev {
                Event::Start { .. } => true,
                _ => false,
            };
            if g.status() == Status::Playing {
                ended = None;
            } else if deal || ended.is_none() {
                ended = Some(i);
            }
            i = i + 1;
        }
        assert(events@.take(i as int) =~= events@);
        Some((g, ended))
    }

    /// Each player's standing flags: the ones on mines less the ones on safe
    /// cells.
    pub fn flag_scores(&self) -> (scores: [i32; 2])
        requires
            self@.wf(),
        ensures
            scores@.len() == 2,
            scores@[0] == score(self@, 0),
            scores@[1] == score(self@, 1),
    {
        proof {
            lemma_size(self.board.w, self.board.h);
        }
        let ghost s = self@;
        let cells: &[Cell] = self.board.cells();
        let mut red: i32 = 0;
        let mut blue: i32 = 0;
        let mut i: usize = 0;
        while i < cells.len()
            invariant
                s == self@,
                i <= cells@.len() <= 65025,
                cells@ == s.cells,
                self.planted@ == s.planted,
                s.planted.len() == s.cells.len(),
                red == score_in(s, 0, i as nat),
                blue == score_in(s, 1, i as nat),
            decreases cells@.len() - i,
        {
            proof {
                lemma_score_bound(s, 0, i as nat);
                lemma_score_bound(s, 1, i as nat);
            }
            let worth: i32 = if cells[i].mine {
                1
            } else {
                -1
            };
            match self.planted[i] {
                Some(0) => {
                    red = red + worth;
                },
                Some(1) => {
                    blue = blue + worth;
                },
                _ => {},
            }
            i = i + 1;
        }
        [red, blue]
    }

    /// How many flags of each player stand, right or wrong.
    pub fn flags_placed(&self) -> (placed: [u32; 2])
        requires
            self@.wf(),
        ensures
            placed@.len() == 2,
            placed@[0] == flags(self@, 0),
            placed@[1] == flags(self@, 1),
            placed@[0] + placed@[1] <= 65025,
    {
        proof {
            lemma_size(self.board.w, self.board.h);
        }
        let ghost s = self@;
        let mut red: u32 = 0;
        let mut blue: u32 = 0;
        let mut i: usize = 0;
        while i < self.planted.len()
            invariant
                s == self@,
                i <= self.planted@.len() <= 65025,
                red == flags_in(s, 0, i as nat),
                blue == flags_in(s, 1, i as nat),
                red + blue <= i,
            decreases self.planted@.len() - i,
        {
            match self.planted[i] {
                Some(0) => {
                    red = red + 1;
                },
                Some(1) => {
                    blue = blue + 1;
                },
                _ => {},
            }
            i = i + 1;
        }
        [red, blue]
    }

    /// FNV-1a over the whole game: the deal, every cell, and the flag-race
    /// scoreboard, because two peers can hold identical cells while playing
    /// different games. Two peers compare this after each event and detect
    /// divergence in 8 bytes instead of shipping the whole board.
    pub fn hash(&self) -> (h: u64)
        requires
            self@.wf(),
        ensures
            h == fnv(hashed(self@)),
    {
        let ghost s = self@;
        let mut out: Vec<u8> = Vec::new();
        let deal: Event = Event::Start {
            seed: self.seed,
            w: self.board.w,
            h: self.board.h,
            mines: self.board.mines,
            mode: self.mode,
        };
        deal.encode(&mut out);
        let cells: &[Cell] = self.board.cells();
        let ghost bytes = s.cells.map_values(|c: Cell| cell_byte(c));
        let mut i: usize = 0;
        assert(out@ =~= deal_bytes(s) + bytes.take(0));
        while i < cells.len()
            invariant
                i <= cells@.len(),
                cells@ == s.cells,
                bytes == s.cells.map_values(|c: Cell| cell_byte(c)),
                out@ == deal_bytes(s) + bytes.take(i as int),
            decreases cells@.len() - i,
        {
            let c: Cell = cells[i];
            let mine: u8 = if c.mine {
                1
            } else {
                0
            };
            let state: u8 = match c.state {
                Reveal::Hidden => 0,
                Reveal::Flagged => 1,
                Reveal::Shown => 2,
            };
            out.push(mine | (c.adj << 1u8) | (state << 5u8));
            i = i + 1;
            assert(out@ =~= deal_bytes(s) + bytes.take(i as int));
        }
        assert(bytes.take(i as int) =~= bytes);
        if self.mode == Mode::FlagRace {
            proof {
                lemma_size(s.w, s.h);
                lemma_score_bound(s, 0, s.planted.len());
                lemma_score_bound(s, 1, s.planted.len());
            }
            let scores: [i32; 2] = self.flag_scores();
            put_le(&mut out, (scores[0] as i64 + 0x8000_0000) as u64, 4);
            put_le(&mut out, (scores[1] as i64 + 0x8000_0000) as u64, 4);
        }
        assert(out@ =~= hashed(s));
        hash_bytes(out.as_slice())
    }
}

/// The mode of the game in play: the last deal's.
pub fn mode_of(log: &[Stamped]) -> (m: Mode)
    ensures
        m == mode_in(log@),
{
    let mut i: usize = log.len();
    assert(log@.take(i as int) =~= log@);
    while i > 0
        invariant
            i <= log@.len(),
            mode_in(log@) == mode_in(log@.take(i as int)),
        decreases i,
    {
        i = i - 1;
        assert(log@.take(i + 1).drop_last() =~= log@.take(i as int));
        match log[i].ev {
            Event::Start { mode, .. } => {
                return mode;
            },
            _ => {},
        }
    }
    Mode::Coop
}

/// FNV-1a over the log: the place and the content of every event, and not
/// when it was made. In a race the two boards are *supposed* to differ, so
/// this is the agreement worth checking.
pub fn log_hash(log: &[Stamped]) -> (h: u64)
    ensures
        h == fnv(hashed_log(log@)),
{
    let mut out: Vec<u8> = Vec::new();
    let mut i: usize = 0;
    assert(log@.take(0) =~= seq![]);
    while i < log.len()
        invariant
            i <= log@.len(),
            out@ == hashed_log(log@.take(i as int)),
        decreases log@.len() - i,
    {
        assert(log@.take(i + 1).drop_last() =~= log@.take(i as int));
        put_le(&mut out, log[i].seq as u64, 4);
        log[i].ev.encode(&mut out);
        i = i + 1;
    }
    assert(log@.take(i as int) =~= log@);
    hash_bytes(out.as_slice())
}

// ---------------------------------------------------------------------------
// The race: one log, two boards.
// ---------------------------------------------------------------------------
/// A race as one of the two sees it.
#[verifier::ext_equal]
pub struct RaceState {
    pub mine: GameState,
    pub theirs: GameState,
    pub winner: Option<u8>,
    pub ended: Option<usize>,
}

/// The seat across the table.
pub open spec fn other(me: u8) -> u8 {
    if me == 0 {
        1
    } else {
        0
    }
}

/// Who has won, where the move that `player` made on their board decided it:
/// the first one home, or the other one where it was a step on a mine.
pub open spec fn decided(before: GameState, after: GameState, player: u8) -> Option<u8> {
    if game_status(before) != Status::Playing {
        None
    } else {
        match game_status(after) {
            Status::Playing => None,
            Status::Won => Some(player),
            Status::Lost => Some(other(player)),
        }
    }
}

/// One more event of a race, the `n`-th of the log. A deal gives both a fresh
/// board; a move lands on the board of whoever made it, until somebody has
/// won.
pub open spec fn race_step(r: RaceState, me: u8, ev: Event, n: usize) -> RaceState {
    let by = match ev {
        Event::Start { .. } => me,
        Event::Reveal { player, .. } => player,
        Event::Flag { player, .. } => player,
    };
    if let Event::Start { seed, w, h, mines, mode } = ev {
        RaceState {
            mine: fresh(seed, w, h, mines, mode),
            theirs: fresh(seed, w, h, mines, mode),
            winner: None,
            ended: None,
        }
    } else if r.winner is Some {
        r
    } else if by == me {
        let mine = applied(r.mine, ev);
        let winner = decided(r.mine, mine, me);
        RaceState { mine, winner, ended: if winner is Some { Some(n) } else { r.ended }, ..r }
    } else {
        let theirs = applied(r.theirs, ev);
        let winner = decided(r.theirs, theirs, other(me));
        RaceState { theirs, winner, ended: if winner is Some { Some(n) } else { r.ended }, ..r }
    }
}

/// The race that a log comes to, seen from seat `me`.
pub open spec fn raced(events: Seq<Event>, me: u8) -> RaceState
    decreases events.len(),
{
    if events.len() == 0 {
        RaceState { mine: no_game(), theirs: no_game(), winner: None, ended: None }
    } else {
        race_step(
            raced(events.drop_last(), me),
            me,
            events.last(),
            (events.len() - 1) as usize,
        )
    }
}

/// Folds one log into two boards: my events onto mine, all others onto
/// theirs. Returns both, who got home first, and which event decided it.
pub fn race_fold(events: &[Event], me: u8) -> (r: (Game, Game, Option<u8>, Option<usize>))
    ensures
        r.0@.wf(),
        r.1@.wf(),
        raced(events@, me) == (RaceState {
            mine: r.0@,
            theirs: r.1@,
            winner: r.2,
            ended: r.3,
        }),
{
    let mut mine: Game = Game::new(0, 0, 0, 0, Mode::Race);
    let mut theirs: Game = Game::new(0, 0, 0, 0, Mode::Race);
    let mut winner: Option<u8> = None;
    let mut ended: Option<usize> = None;
    let them: u8 = if me == 0 {
        1
    } else {
        0
    };
    let mut i: usize = 0;
    assert(events@.take(0) =~= seq![]);
    while i < events.len()
        invariant
            i <= events@.len(),
            them == other(me),
            mine@.wf(),
            theirs@.wf(),
            raced(events@.take(i as int), me) == (RaceState {
                mine: mine@,
                theirs: theirs@,
                winner,
                ended,
            }),
        decreases events@.len() - i,
    {
        let ev: Event = events[i];
        let ghost was = raced(events@.take(i as int), me);
        assert(events@.take(i + 1).drop_last() =~= events@.take(i as int));
        let by: u8 = match ev {
            Event::Start { .. } => me,
            Event::Reveal { player, .. } => player,
            Event::Flag { player, .. } => player,
        };
        if let Event::Start { seed, w, h, mines, mode } = ev {
            mine = Game::new(seed, w, h, mines, mode);
            theirs = Game::new(seed, w, h, mines, mode);
            winner = None;
            ended = None;
        } else if winner.is_some() {
        } else if by == me {
            let on: bool = mine.status() == Status::Playing;
            mine.apply(&ev);
            if on {
                match mine.status() {
                    Status::Playing => {},
                    Status::Won => {
                        winner = Some(me);
                        ended = Some(i);
                    },
                    Status::Lost => {
                        winner = Some(them);
                        ended = Some(i);
                    },
                }
            }
        } else {
            let on: bool = theirs.status() == Status::Playing;
            theirs.apply(&ev);
            if on {
                match theirs.status() {
                    Status::Playing => {},
                    Status::Won => {
                        winner = Some(them);
                        ended = Some(i);
                    },
                    Status::Lost => {
                        winner = Some(if them == 0 {
                            1
                        } else {
                            0
                        });
                        ended = Some(i);
                    },
                }
            }
        }
        i = i + 1;
        assert(raced(events@.take(i as int), me) == race_step(
            was,
            me,
            ev,
            (i - 1) as usize,
        ));
    }
    assert(events@.take(i as int) =~= events@);
    (mine, theirs, winner, ended)
}

} // verus!
