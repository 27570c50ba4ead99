//! Shared game state, and the two ways it changes: a local click, or bytes
//! arriving from the peer.
//!
//! Both paths do the same things in the same order — append to the log, fold
//! the log into the board. What to draw, say and send follows from the state.
use vstd::prelude::*;
use vstd::string::*;

use crate::board::{count, Board, Cell, Reveal, Status};
use crate::event::{Event, Mode, Stamped};
use crate::eventlog::laws::law_tidying_has_one_result;
use crate::eventlog::{
    brings_news, inserted, last_seq, later, merged, next_seq, overflows, sanitised, tidy_of, Log,
    Payload,
};
use crate::fnv::fnv;
use crate::framing::{decode_msg, parse_msg, Message};
use crate::game::laws::{
    events_of, law_a_deal_is_sound, law_every_log_comes_to_a_sound_game, lemma_race_boards, sound,
};
use crate::game::{
    ending, fresh, game_status, hashed, hashed_log, is_game, log_hash, mode_in, mode_of, race_fold,
    raced, replayed, score, Game, GameState,
};
use crate::text::{push_signed, signed};
use crate::wire::{event_before, Msg};

pub mod laws;
pub mod page;
pub mod presence;

verus! {

/// `(w, h, mines, name)`. The picker is built from this, so the label and the
/// numbers cannot drift apart. The classic three; anything else is a number
/// nobody has an intuition for.
pub const LEVELS: [(u8, u8, u16, &'static str); 3] = [
    (9, 9, 10, "Beginner"),
    (16, 16, 40, "Intermediate"),
    (30, 16, 99, "Expert"),
];

/// The most events we will fold. A peer can send a log as large as it likes,
/// and every message re-folds the whole thing — a few thousand moves is far
/// past any real game and still refolds in microseconds.
pub const MAX_LOG: usize = 20_000;

// ---------------------------------------------------------------------------
// Questions about a log.
// ---------------------------------------------------------------------------
/// The opening of a game that is not ours: the first event of a log, a
/// `Start` at seq 0. A restart is a move and carries seq >= 1, which is what
/// keeps the two apart.
pub open spec fn foreign(s: Stamped, ours: Option<Stamped>) -> bool {
    s.seq == 0 && s.ev is Start && ours != Some(s)
}

/// Is this event the opening of a game that is not ours?
pub fn is_foreign_start(s: &Stamped, ours: Option<&Stamped>) -> (b: bool)
    ensures
        b == foreign(
            *s,
            match ours {
                Some(o) => Some(*o),
                None => None,
            },
        ),
{
    let same: bool = match ours {
        Some(o) => o.seq == s.seq && o.ev == s.ev && o.at_ms == s.at_ms,
        None => false,
    };
    s.seq == 0 && opens(&s.ev) && !same
}

/// A `Start` is what a log may open with — what [`sanitised`] demands at seq 0
/// before a peer's log is adopted wholesale.
pub fn opens(ev: &Event) -> (b: bool)
    ensures
        b == ev is Start,
{
    match ev {
        Event::Start { .. } => true,
        _ => false,
    }
}

/// When the first reveal since the last deal was made.
pub open spec fn first_reveal(log: Seq<Stamped>) -> Option<u64>
    decreases log.len(),
{
    if log.len() == 0 {
        None
    } else {
        let s = log.last();
        match s.ev {
            Event::Start { .. } => None,
            Event::Flag { .. } => first_reveal(log.drop_last()),
            Event::Reveal { .. } => match first_reveal(log.drop_last()) {
                Some(t) => Some(t),
                None => Some(s.at_ms),
            },
        }
    }
}

/// When the clock started and, if the game is over, when it stopped — both
/// read out of the log, so every peer shows the same numbers no matter when
/// they joined.
///
/// It starts at the first reveal of the current board, which is when the game
/// really begins: mines are not placed until then. Only events after the last
/// `Start` count, because a restart leaves the old moves in the log.
///
/// `ended_at` is the timestamp of the move that actually finished the game.
/// It cannot be read off the end of the log: peers keep sending moves until
/// they hear the bad news, and those merge in behind the losing click.
pub fn clock_window(log: &[Stamped], ended_at: Option<u64>) -> (r: (Option<u64>, Option<u64>))
    ensures
        r.0 == first_reveal(log@),
        r.1 == (if first_reveal(log@) is Some {
            ended_at
        } else {
            None
        }),
{
    let mut started: Option<u64> = None;
    let mut i: usize = 0;
    assert(log@.take(0) =~= seq![]);
    while i < log.len()
        invariant
            i <= log@.len(),
            started == first_reveal(log@.take(i as int)),
        decreases log@.len() - i,
    {
        assert(log@.take(i + 1).drop_last() =~= log@.take(i as int));
        match log[i].ev {
            Event::Start { .. } => {
                started = None;
            },
            Event::Flag { .. } => {},
            Event::Reveal { .. } => {
                if started.is_none() {
                    started = Some(log[i].at_ms);
                }
            },
        }
        i = i + 1;
    }
    assert(log@.take(i as int) =~= log@);
    match started {
        Some(_) => (started, ended_at),
        None => (None, None),
    }
}

/// Whether a peer's report means the two of us have actually parted company.
///
/// Only comparable at the same point in the log: a different count means one
/// side is simply behind, which happens constantly and is not a fault.
pub fn is_desync(theirs_count: u32, theirs_hash: u64, ours_len: usize, ours_hash: u64) -> (b: bool)
    ensures
        b == (theirs_count == ours_len && theirs_hash != ours_hash),
{
    theirs_count as u64 == ours_len as u64 && theirs_hash != ours_hash
}

/// How many entries of the log are moves rather than deals.
pub open spec fn moves_in(log: Seq<Stamped>) -> nat
    decreases log.len(),
{
    if log.len() == 0 {
        0
    } else {
        moves_in(log.drop_last()) + (if log.last().ev is Start {
            0nat
        } else {
            1nat
        })
    }
}

fn count_moves(log: &[Stamped]) -> (n: usize)
    ensures
        n == moves_in(log@),
        n <= log@.len(),
{
    let mut n: usize = 0;
    let mut i: usize = 0;
    assert(log@.take(0) =~= seq![]);
    while i < log.len()
        invariant
            i <= log@.len(),
            n <= i,
            n == moves_in(log@.take(i as int)),
        decreases log@.len() - i,
    {
        assert(log@.take(i + 1).drop_last() =~= log@.take(i as int));
        if !opens(&log[i].ev) {
            n = n + 1;
        }
        i = i + 1;
    }
    assert(log@.take(i as int) =~= log@);
    n
}

/// The first entry, where there is one.
pub open spec fn first(log: Seq<Stamped>) -> Option<Stamped> {
    if log.len() == 0 {
        None
    } else {
        Some(log[0])
    }
}

/// The order of stamps: by place, by event, and last by time.
pub open spec fn stamp_before(a: Stamped, b: Stamped) -> bool {
    ||| a.seq < b.seq
    ||| a.seq == b.seq && event_before(a.ev, b.ev)
    ||| a.seq == b.seq && a.ev == b.ev && a.at_ms < b.at_ms
}

/// The order of stamps that may be missing: none comes before any.
pub open spec fn first_before(a: Option<Stamped>, b: Option<Stamped>) -> bool {
    match (a, b) {
        (None, Some(_)) => true,
        (Some(x), Some(y)) => stamp_before(x, y),
        _ => false,
    }
}

/// A game with more moves in it survives; between equals, the one whose deal
/// comes first.
pub open spec fn survives(ours: Seq<Stamped>, theirs: Seq<Stamped>) -> bool {
    ||| moves_in(theirs) > moves_in(ours)
    ||| moves_in(theirs) == moves_in(ours) && first_before(first(theirs), first(ours))
}

/// Which of two games survives when peers meet holding different ones.
///
/// Both sides run this over the same pair of logs, so they agree without
/// negotiating: a game with moves in it beats an untouched deal, and a tie is
/// broken by the deals themselves so the answer cannot depend on who asked.
pub fn theirs_survives(ours: &[Stamped], theirs: &[Stamped]) -> (b: bool)
    ensures
        b == survives(ours@, theirs@),
{
    let t: usize = count_moves(theirs);
    let o: usize = count_moves(ours);
    if t != o {
        t > o
    } else if theirs.len() == 0 || ours.len() == 0 {
        theirs.len() == 0 && ours.len() > 0
    } else {
        let a: Stamped = theirs[0];
        let b: Stamped = ours[0];
        a.seq < b.seq || (a.seq == b.seq && (a.ev.precedes(&b.ev) || (a.ev == b.ev && a.at_ms
            < b.at_ms)))
    }
}

/// Who made a move; nobody makes a deal.
pub open spec fn mover(ev: Event) -> Option<u8> {
    match ev {
        Event::Start { .. } => None,
        Event::Reveal { player, .. } => Some(player),
        Event::Flag { player, .. } => Some(player),
    }
}

fn mover_of(ev: &Event) -> (r: Option<u8>)
    ensures
        r == mover(*ev),
{
    match *ev {
        Event::Start { .. } => None,
        Event::Reveal { player, .. } => Some(player),
        Event::Flag { player, .. } => Some(player),
    }
}

/// The player has made a move in this log.
pub open spec fn has_played(log: Seq<Stamped>, player: u8) -> bool {
    exists|i: int| 0 <= i < log.len() && mover((#[trigger] log[i]).ev) == Some(player)
}

fn played(log: &[Stamped], player: u8) -> (b: bool)
    ensures
        b == has_played(log@, player),
{
    let mut i: usize = 0;
    while i < log.len()
        invariant
            i <= log@.len(),
            forall|k: int| 0 <= k < i ==> mover((#[trigger] log@[k]).ev) != Some(player),
        decreases log@.len() - i,
    {
        match mover_of(&log[i].ev) {
            Some(p) => {
                if p == player {
                    assert(mover(log@[i as int].ev) == Some(player));
                    return true;
                }
            },
            None => {},
        }
        i = i + 1;
    }
    false
}

pub open spec fn free_seat(log: Seq<Stamped>, is_host: bool) -> u8 {
    if has_played(log, 0) && !has_played(log, 1) {
        1
    } else if has_played(log, 1) && !has_played(log, 0) {
        0
    } else if is_host {
        0
    } else {
        1
    }
}

/// The seat left over once we take on somebody else's game: the one their
/// moves are not already using.
pub fn seat_in(log: &[Stamped], is_host: bool) -> (s: u8)
    ensures
        s == free_seat(log@, is_host),
{
    match (played(log, 0), played(log, 1)) {
        (true, false) => 1,
        (false, true) => 0,
        _ => if is_host {
            0
        } else {
            1
        },
    }
}

pub open spec fn seat_taken(current: u8, is_host: bool, log: Seq<Stamped>) -> u8 {
    if has_played(log, current) {
        current
    } else if is_host {
        0
    } else {
        1
    }
}

/// Which seat we take on a connection.
///
/// Identity cannot be "whoever pressed Host is player 0": after a drop either
/// side may host, and a peer that changes seat mid-game takes its own past
/// moves with it — in a race its board and the opponent's swap wholesale, in a
/// flag race the two scores trade places.
pub fn seat(current: u8, is_host: bool, log: &[Stamped]) -> (s: u8)
    ensures
        s == seat_taken(current, is_host, log@),
{
    if played(log, current) {
        current
    } else if is_host {
        0
    } else {
        1
    }
}

// ---------------------------------------------------------------------------
// What to say of a game.
// ---------------------------------------------------------------------------
/// What a decided game is called, and in which colour.
pub open spec fn verdict_text(
    mode: Mode,
    status: Status,
    winner: Option<u8>,
    me: u8,
    scores: Seq<i32>,
    solo: bool,
    ender: Option<u8>,
) -> (Seq<char>, Seq<char>) {
    match mode {
        Mode::Race => match winner {
            None => (""@, ""@),
            Some(w) => if w == me {
                done("YOU WIN"@, "win"@)
            } else if status == Status::Lost {
                if solo {
                    done("BOOM"@, "lose"@)
                } else {
                    done("BOOM — the race is theirs"@, "lose"@)
                }
            } else {
                done("THEY GOT THERE FIRST"@, "lose"@)
            },
        },
        Mode::FlagRace => match status {
            Status::Lost => if solo {
                done("BOOM"@, "lose"@)
            } else if ender == Some(me) {
                done("BOOM — you set it off, nobody wins"@, "lose"@)
            } else {
                done("BOOM — they set it off, nobody wins"@, "lose"@)
            },
            Status::Won => {
                let mine = scores[me as int] as int;
                let theirs = scores[1 - me] as int;
                let tally = signed(mine) + "–"@ + signed(theirs);
                if solo {
                    done("cleared — flag score "@ + signed(mine), "win"@)
                } else if mine > theirs {
                    done("YOU WIN "@ + tally, "win"@)
                } else if mine < theirs {
                    done("YOU LOSE "@ + tally, "lose"@)
                } else {
                    done("A DRAW "@ + tally, "win"@)
                }
            },
            Status::Playing => (""@, ""@),
        },
        Mode::Coop => match status {
            Status::Won => done("YOU WIN"@, "win"@),
            Status::Lost => done("BOOM"@, "lose"@),
            Status::Playing => (""@, ""@),
        },
    }
}

/// Every ending tells you how to start another.
pub open spec fn done(head: Seq<char>, class: Seq<char>) -> (Seq<char>, Seq<char>) {
    (head + " — press New game"@, class)
}

fn finish(head: String, class: &'static str) -> (r: (String, &'static str))
    ensures
        (r.0@, r.1@) == done(head@, class@),
{
    let mut head: String = head;
    head.append(" — press New game");
    (head, class)
}

/// What to say once a game is decided, and which colour to say it in.
///
/// `scores` is the duel's net flag score (right minus wrong, per player);
/// `ender` is who made the move that finished the game. Only the flag duel
/// reads them.
pub fn verdict(
    mode: Mode,
    status: Status,
    winner: Option<u8>,
    me: u8,
    scores: [i32; 2],
    solo: bool,
    ender: Option<u8>,
) -> (r: (String, &'static str))
    requires
        mode == Mode::FlagRace && status == Status::Won ==> me < 2,
    ensures
        (r.0@, r.1@) == verdict_text(mode, status, winner, me, scores@, solo, ender),
{
    match mode {
        // A race is decided by who got home first, not by the board in front
        // of you: you can finish and still have lost.
        Mode::Race => match winner {
            None => (String::from_str(""), ""),
            Some(w) => if w == me {
                finish(String::from_str("YOU WIN"), "win")
            } else if status == Status::Lost {
                if solo {
                    finish(String::from_str("BOOM"), "lose")
                } else {
                    finish(String::from_str("BOOM — the race is theirs"), "lose")
                }
            } else {
                finish(String::from_str("THEY GOT THERE FIRST"), "lose")
            },
        },
        Mode::FlagRace => match status {
            // A mine ends it for both — nobody wins a duel that blew up. The
            // banner still says whose click it was.
            Status::Lost => {
                let mine: bool = match ender {
                    Some(p) => p == me,
                    None => false,
                };
                if solo {
                    finish(String::from_str("BOOM"), "lose")
                } else if mine {
                    finish(String::from_str("BOOM — you set it off, nobody wins"), "lose")
                } else {
                    finish(String::from_str("BOOM — they set it off, nobody wins"), "lose")
                }
            },
            Status::Won => {
                let mine: i32 = scores[me as usize];
                let theirs: i32 = scores[1 - me as usize];
                let ghost tally = signed(mine as int) + "–"@ + signed(theirs as int);
                let head: &'static str = if solo {
                    "cleared — flag score "
                } else if mine > theirs {
                    "YOU WIN "
                } else if mine < theirs {
                    "YOU LOSE "
                } else {
                    "A DRAW "
                };
                let mut text: String = String::from_str(head);
                push_signed(&mut text, mine as i64);
                if !solo {
                    text.append("–");
                    push_signed(&mut text, theirs as i64);
                    assert(text@ =~= head@ + tally);
                }
                finish(
                    text,
                    if !solo && mine < theirs {
                        "lose"
                    } else {
                        "win"
                    },
                )
            },
            Status::Playing => (String::from_str(""), ""),
        },
        Mode::Coop => match status {
            Status::Won => finish(String::from_str("YOU WIN"), "win"),
            Status::Lost => finish(String::from_str("BOOM"), "lose"),
            Status::Playing => (String::from_str(""), ""),
        },
    }
}

/// Whether the game has finished under the rules actually in play.
///
/// A race ends for *both* players the moment one of them is home, and the
/// loser's own board is still `Playing` at that point — so asking the board
/// alone keeps a decided race accepting moves.
pub fn is_over(status: Status, winner: Option<u8>) -> (b: bool)
    ensures
        b == (winner is Some || status != Status::Playing),
{
    winner.is_some() || status != Status::Playing
}

pub open spec fn is_shown() -> spec_fn(Cell) -> bool {
    |c: Cell| c.state == Reveal::Shown
}

pub open spec fn is_flagged() -> spec_fn(Cell) -> bool {
    |c: Cell| c.state == Reveal::Flagged
}

fn count_state(cells: &[Cell], state: Reveal) -> (n: usize)
    ensures
        n == count(cells@, |c: Cell| c.state == state),
        n <= cells@.len(),
{
    let ghost f = |c: Cell| c.state == state;
    let mut n: usize = 0;
    let mut i: usize = 0;
    assert(cells@.take(0) =~= seq![]);
    while i < cells.len()
        invariant
            i <= cells@.len(),
            n <= i,
            f == (|c: Cell| c.state == state),
            n == count(cells@.take(i as int), f),
        decreases cells@.len() - i,
    {
        assert(cells@.take(i + 1).drop_last() =~= cells@.take(i as int));
        if cells[i].state == state {
            n = n + 1;
        }
        i = i + 1;
    }
    assert(cells@.take(i as int) =~= cells@);
    n
}

/// The cells there are to open: all but the mines. A board can claim more
/// mines than it has cells; then there are none.
pub open spec fn to_open(size: nat, mines: u16) -> nat {
    if size < mines {
        0
    } else {
        (size - mines) as nat
    }
}

proof fn lemma_size(w: u8, h: u8)
    ensures
        0 <= w * h <= 65025,
{
    assert(0 <= w * h <= 65025) by (nonlinear_arith)
        requires
            0 <= w <= 255,
            0 <= h <= 255,
    ;
}

/// How much of a board is uncovered, as cells shown out of cells to show.
pub fn progress(b: &Board) -> (r: (u32, u32))
    requires
        b.wf(),
    ensures
        r.0 == count(b@, is_shown()),
        r.1 == to_open(b@.len(), b.mines),
{
    proof {
        lemma_size(b.w, b.h);
        assert(is_shown() == (|c: Cell| c.state == Reveal::Shown));
    }
    let cells: &[Cell] = b.cells();
    let shown: u32 = count_state(cells, Reveal::Shown) as u32;
    let total: u32 = (cells.len() as u32).saturating_sub(b.mines as u32);
    (shown, total)
}

/// Flags outstanding: the classic counter, which counts flags rather than
/// mines and so goes negative if you over-flag.
pub fn mines_left(b: &Board) -> (n: i32)
    requires
        b.wf(),
    ensures
        n == b.mines - count(b@, is_flagged()),
{
    proof {
        lemma_size(b.w, b.h);
        assert(is_flagged() == (|c: Cell| c.state == Reveal::Flagged));
    }
    b.mines as i32 - count_state(b.cells(), Reveal::Flagged) as i32
}

// ---------------------------------------------------------------------------
// The state of one player's page.
// ---------------------------------------------------------------------------
pub struct App {
    pub game: Game,
    /// The log and its Lamport clock, so a move we make now always sorts
    /// after everything we knew about when we made it.
    pub log: Log<Event>,
    /// 0 for the host, 1 for the joiner.
    pub player: u8,
    /// Touch has no right button, so flagging needs a mode instead of a
    /// modifier. It also works with a mouse.
    pub flag_mode: bool,
    /// Somebody else is here.
    pub connected: bool,
    /// Race only: the opponent's board, folded from their half of the log, and
    /// whoever got home first. Both are `None` in the shared-board modes.
    pub foe: Option<Game>,
    pub winner: Option<u8>,
    /// When the move that ended this game was made, so the clock freezes
    /// there rather than at whatever arrived afterwards.
    pub ended_at: Option<u64>,
    /// Who made that move. In a lost flag duel this is the player who set
    /// the mine off — both lose, but the banner names the one who did it.
    pub ender: Option<u8>,
}

/// All there is to one player's page.
#[verifier::ext_equal]
pub struct AppState {
    pub game: GameState,
    pub log: Seq<Stamped>,
    pub clock: u32,
    pub player: u8,
    pub flag_mode: bool,
    pub connected: bool,
    pub foe: Option<GameState>,
    pub winner: Option<u8>,
    pub ended_at: Option<u64>,
    pub ender: Option<u8>,
}

impl View for App {
    type V = AppState;

    open spec fn view(&self) -> AppState {
        AppState {
            game: self.game@,
            log: self.log@,
            clock: self.log.clock(),
            player: self.player,
            flag_mode: self.flag_mode,
            connected: self.connected,
            foe: match self.foe {
                Some(g) => Some(g@),
                None => None,
            },
            winner: self.winner,
            ended_at: self.ended_at,
            ender: self.ender,
        }
    }
}

/// When the `i`-th event of the log was made.
pub open spec fn time_at(log: Seq<Stamped>, i: Option<usize>) -> Option<u64> {
    match i {
        Some(k) => if k < log.len() {
            Some(log[k as int].at_ms)
        } else {
            None
        },
        None => None,
    }
}

/// Who made the `i`-th event of the log.
pub open spec fn mover_at(log: Seq<Stamped>, i: Option<usize>) -> Option<u8> {
    match i {
        Some(k) => if k < log.len() {
            mover(log[k as int].ev)
        } else {
            None
        },
        None => None,
    }
}

/// The page once the log has been folded again.
pub open spec fn rebuilt(a: AppState) -> AppState {
    let events = events_of(a.log);
    if mode_in(a.log) == Mode::Race {
        let r = raced(events, a.player);
        AppState {
            game: r.mine,
            foe: Some(r.theirs),
            winner: r.winner,
            ended_at: time_at(a.log, r.ended),
            ender: None,
            ..a
        }
    } else if is_game(events) {
        AppState {
            game: replayed(events),
            foe: None,
            winner: None,
            ended_at: time_at(a.log, ending(events)),
            ender: mover_at(a.log, ending(events)),
            ..a
        }
    } else {
        AppState { foe: None, winner: None, ..a }
    }
}

/// What the peer compares against. In the shared-board modes that is the
/// board itself; in a race the two boards are *supposed* to differ, so the
/// agreement worth checking is the log both sides hold.
pub open spec fn sync(a: AppState) -> u64 {
    if mode_in(a.log) == Mode::Race {
        fnv(hashed_log(a.log))
    } else {
        fnv(hashed(a.game))
    }
}

/// Where a log stands: how many events it holds, and what they come to.
pub open spec fn report(a: AppState) -> Message<Event> {
    Message::State { count: (a.log.len() % 0x1_0000_0000) as u32, hash: sync(a) }
}

/// What events come to once sorted and freed of duplicates.
pub open spec fn tidied(events: Seq<Stamped>) -> Seq<Stamped> {
    choose|t: Seq<Stamped>| tidy_of(t, events)
}

/// Events that could be adopted as a game: not too many, and opening with a
/// deal.
pub open spec fn adoptable(events: Seq<Stamped>) -> bool {
    let t = tidied(events);
    events.len() <= MAX_LOG && t.len() > 0 && t[0].seq == 0 && t[0].ev is Start
}

/// Some event opens a game that is not ours.
pub open spec fn redeals(events: Seq<Stamped>, ours: Option<Stamped>) -> bool {
    exists|k: int| 0 <= k < events.len() && foreign(#[trigger] events[k], ours)
}

/// What came of a message.
#[derive(Clone, Copy, PartialEq, Eq, Debug, Structural)]
pub enum Heard {
    /// It could not be read.
    Malformed { len: usize },
    /// It hands over a log that could not be a game.
    NotAGame,
    /// It handed over a game, which is ours now.
    Adopted { len: usize },
    /// It handed over a game with less in it than ours.
    Kept,
    /// It hides a deal behind a move.
    Redeal,
    /// It would push our log past its cap.
    PastTheCap,
    /// Its events are in our log now.
    Merged { len: usize, new: bool },
    /// It reports where they stand, and nothing is wrong.
    InStep,
    /// It reports a board that is not ours.
    Desync { count: u32, ours: u64, theirs: u64 },
}

/// The page after events from the peer, and what came of them.
pub open spec fn heard_events(a: AppState, events: Seq<Stamped>) -> (AppState, Heard) {
    let ours = first(a.log);
    if events.len() > 0 && foreign(events[0], ours) {
        let t = tidied(events);
        if !adoptable(events) {
            (a, Heard::NotAGame)
        } else if survives(a.log, t) {
            (
                rebuilt(
                    AppState {
                        log: t,
                        clock: later(a.clock, last_seq(t)),
                        player: free_seat(t, a.player == 0),
                        ..a
                    },
                ),
                Heard::Adopted { len: t.len() as usize },
            )
        } else {
            (rebuilt(a), Heard::Kept)
        }
    } else if redeals(events, ours) {
        (a, Heard::Redeal)
    } else if a.log.len() + events.len() > MAX_LOG {
        (a, Heard::PastTheCap)
    } else {
        let log = merged(a.log, events);
        (
            rebuilt(AppState { log, clock: later(a.clock, last_seq(log)), ..a }),
            Heard::Merged { len: events.len() as usize, new: brings_news(a.log, events) },
        )
    }
}

/// The page after a message from the peer, and what came of it.
pub open spec fn heard(a: AppState, bytes: Seq<u8>) -> (AppState, Heard) {
    match parse_msg::<Event>(bytes) {
        None => (a, Heard::Malformed { len: bytes.len() as usize }),
        Some(Message::Events(events)) => heard_events(a, events),
        Some(Message::State { count, hash }) => if count == a.log.len() && hash != sync(a) {
            (a, Heard::Desync { count, ours: sync(a), theirs: hash })
        } else {
            (a, Heard::InStep)
        },
    }
}

fn events_in(log: &[Stamped]) -> (out: Vec<Event>)
    ensures
        out@ == events_of(log@),
{
    let mut out: Vec<Event> = Vec::new();
    let mut i: usize = 0;
    while i < log.len()
        invariant
            i <= log@.len(),
            out@ == events_of(log@.take(i as int)),
        decreases log@.len() - i,
    {
        out.push(log[i].ev);
        i = i + 1;
        assert(out@ =~= events_of(log@.take(i as int)));
    }
    assert(log@.take(i as int) =~= log@);
    out
}

impl App {
    /// The log in order, the boards sound, and a seat at the table.
    pub open spec fn wf(&self) -> bool {
        &&& self.log.wf()
        &&& sound(self.game@)
        &&& (self@.foe is Some ==> sound(self@.foe->Some_0))
        &&& self.player < 2
    }

    /// A page that has just been opened: a beginner's board, and nobody else.
    pub fn new(seed: u64, now_ms: u64) -> (a: Self)
        ensures
            a.wf(),
            a@ == (AppState {
                game: fresh(seed, 9, 9, 10, Mode::Coop),
                log: seq![
                    Stamped {
                        seq: 0u32,
                        ev: Event::Start { seed, w: 9, h: 9, mines: 10, mode: Mode::Coop },
                        at_ms: now_ms,
                    },
                ],
                clock: 0,
                player: 0,
                flag_mode: false,
                connected: false,
                foe: None,
                winner: None,
                ended_at: None,
                ender: None,
            }),
    {
        let (w, h, mines, _) = LEVELS[0];
        proof {
            law_a_deal_is_sound(seed, w, h, mines, Mode::Coop);
        }
        let a = App {
            game: Game::new(seed, w, h, mines, Mode::Coop),
            log: Log::open(Event::Start { seed, w, h, mines, mode: Mode::Coop }, now_ms),
            player: 0,
            flag_mode: false,
            connected: false,
            foe: None,
            winner: None,
            ended_at: None,
            ender: None,
        };
        a
    }

    /// Folds the whole log again. A remote event can land anywhere in the
    /// order, including before moves we have already applied, so the board is
    /// rebuilt rather than patched.
    fn rebuild(&mut self)
        requires
            old(self).wf(),
        ensures
            final(self).wf(),
            final(self)@ == rebuilt(old(self)@),
    {
        let ghost before = self@;
        let events: Vec<Event> = events_in(self.log.as_slice());
        if mode_of(self.log.as_slice()) == Mode::Race {
            let (mine, theirs, winner, ended) = race_fold(events.as_slice(), self.player);
            proof {
                lemma_race_boards(events@, self.player);
            }
            self.game = mine;
            self.foe = Some(theirs);
            self.winner = winner;
            self.ended_at = match ended {
                Some(i) => if i < self.log.len() {
                    Some(self.log.as_slice()[i].at_ms)
                } else {
                    None
                },
                None => None,
            };
            self.ender = None;  // a race names its winner instead
            assert(self@ =~= rebuilt(before));
            return;
        }
        self.foe = None;
        self.winner = None;
        match Game::replay_marking_end(events.as_slice()) {
            Some((g, ended)) => {
                proof {
                    law_every_log_comes_to_a_sound_game(events@);
                }
                self.game = g;
                match ended {
                    Some(i) => {
                        if i < self.log.len() {
                            let s: Stamped = self.log.as_slice()[i];
                            self.ended_at = Some(s.at_ms);
                            self.ender = mover_of(&s.ev);
                        } else {
                            self.ended_at = None;
                            self.ender = None;
                        }
                    },
                    None => {
                        self.ended_at = None;
                        self.ender = None;
                    },
                }
            },
            None => {},
        }
        assert(self@ =~= rebuilt(before));
    }

    /// What the peer compares against.
    fn sync_hash(&self) -> (h: u64)
        requires
            self.wf(),
        ensures
            h == sync(self@),
    {
        if mode_of(self.log.as_slice()) != Mode::Race {
            self.game.hash()
        } else {
            log_hash(self.log.as_slice())
        }
    }

    /// Takes the seat that a side of the connection implies, unless we have
    /// one in this game already. Called as soon as the role is known, not when
    /// the channel opens: the peer's opening log can arrive before that.
    pub fn take_seat(&mut self, is_host: bool)
        requires
            old(self).wf(),
        ensures
            final(self).wf(),
            final(self)@ == (AppState {
                player: seat_taken(old(self)@.player, is_host, old(self)@.log),
                ..old(self)@
            }),
    {
        self.player = seat(self.player, is_host, self.log.as_slice());
    }

    /// There is a channel to somebody else, or there is none any more. A drop
    /// is not the end of the game: the log stays.
    pub fn set_connected(&mut self, connected: bool)
        requires
            old(self).wf(),
        ensures
            final(self).wf(),
            final(self)@ == (AppState { connected, ..old(self)@ }),
    {
        self.connected = connected;
    }

    /// Finished, under this mode's rules. The click handler has to ask the
    /// same question the renderer and clock ask.
    pub fn over(&self) -> (b: bool)
        requires
            self.wf(),
        ensures
            b == (self@.winner is Some || game_status(self@.game) != Status::Playing),
    {
        is_over(self.game.status(), self.winner)
    }

    /// What our board looks like now. The peer compares it against its own
    /// and shouts if they differ — eight bytes instead of a board.
    pub fn state(&self) -> (m: Msg)
        requires
            self.wf(),
        ensures
            m@ == report(self@),
    {
        let len: u64 = self.log.len() as u64;
        Msg::State { count: (len % 0x1_0000_0000) as u32, hash: self.sync_hash() }
    }
}

/// A move made on this device. Returns what to send: the move, and where it
/// leaves us.
pub fn local(app: &mut App, ev: Event, now_ms: u64) -> (out: (Msg, Msg))
    requires
        old(app).wf(),
    ensures
        final(app).wf(),
        ({
            let a = old(app)@;
            let s = Stamped { seq: next_seq(a.clock), ev, at_ms: now_ms };
            &&& final(app)@ == rebuilt(
                AppState { log: inserted(a.log, s), clock: next_seq(a.clock), ..a },
            )
            &&& out.0@ == Message::Events(seq![s])
            &&& out.1@ == report(final(app)@)
        }),
{
    let s: Stamped = app.log.append(ev, now_ms);
    // Refold rather than patching the board with this one event: the fold is
    // the only thing that knows about a race's two boards and its verdict.
    app.rebuild();
    let mut events: Vec<Stamped> = Vec::new();
    events.push(s);
    assert(events@ =~= seq![s]);
    (Msg::Events(events), app.state())
}

/// Bytes from the peer. This is a trust boundary: anything malformed is
/// dropped whole rather than acted on in part.
pub fn remote(app: &mut App, bytes: &[u8]) -> (h: Heard)
    requires
        old(app).wf(),
    ensures
        final(app).wf(),
        (final(app)@, h) == heard(old(app)@, bytes@),
{
    match decode_msg::<Event>(bytes) {
        None => Heard::Malformed { len: bytes.len() },
        Some(Msg::State { count, hash }) => {
            let ours: u64 = app.sync_hash();
            if is_desync(count, hash, app.log.len(), ours) {
                Heard::Desync { count, ours, theirs: hash }
            } else {
                Heard::InStep
            }
        },
        Some(Msg::Events(events)) => remote_events(app, events),
    }
}

/// Whether any of the events opens a game that is not ours.
fn any_foreign(events: &[Stamped], ours: Option<&Stamped>) -> (b: bool)
    ensures
        b == redeals(
            events@,
            match ours {
                Some(o) => Some(*o),
                None => None,
            },
        ),
{
    let ghost o = match ours {
        Some(o) => Some(*o),
        None => None,
    };
    let mut i: usize = 0;
    while i < events.len()
        invariant
            i <= events@.len(),
            o == (match ours {
                Some(o) => Some(*o),
                None => None,
            }),
            forall|k: int| 0 <= k < i ==> !foreign(#[trigger] events@[k], o),
        decreases events@.len() - i,
    {
        if is_foreign_start(&events[i], ours) {
            assert(foreign(events@[i as int], o));
            return true;
        }
        i = i + 1;
    }
    false
}

fn remote_events(app: &mut App, events: Vec<Stamped>) -> (h: Heard)
    requires
        old(app).wf(),
    ensures
        final(app).wf(),
        (final(app)@, h) == heard_events(old(app)@, events@),
{
    let ghost a = app@;
    let ghost evs = events@;
    let ours: Option<Stamped> = if app.log.len() > 0 {
        Some(app.log.as_slice()[0])
    } else {
        None
    };
    let first_is_foreign: bool = events.len() > 0 && is_foreign_start(&events[0], ours.as_ref());
    if first_is_foreign {
        // Someone handing over their game on connect.
        match sanitised(events, MAX_LOG, opens) {
            None => {
                proof {
                    if evs.len() <= MAX_LOG {
                        let t = choose|t: Seq<Stamped>| #[trigger]
                            tidy_of(t, evs) && (t.len() == 0 || t[0].seq != 0 || call_ensures(
                                opens,
                                (&t[0].ev,),
                                false,
                            ));
                        law_tidying_has_one_result(t, tidied(evs), evs, evs);
                    }
                }
                Heard::NotAGame
            },
            Some(log) => {
                proof {
                    law_tidying_has_one_result(log@, tidied(evs), evs, evs);
                }
                if theirs_survives(app.log.as_slice(), log.as_slice()) {
                    let len: usize = log.len();
                    // Their game, so their seats: we take the one their moves
                    // are not using. The seat our discarded log gave us no
                    // longer means anything.
                    app.player = seat_in(log.as_slice(), app.player == 0);
                    app.log.adopt(log);
                    app.rebuild();
                    Heard::Adopted { len }
                } else {
                    app.rebuild();
                    Heard::Kept
                }
            },
        }
    } else if any_foreign(events.as_slice(), ours.as_ref()) {
        // A deal hidden behind a move: not a handover by position, so it
        // would have merged straight into our log and re-dealt the board
        // underneath us.
        Heard::Redeal
    } else if overflows(app.log.len(), events.len(), MAX_LOG) {
        Heard::PastTheCap
    } else {
        // Same game: this is either a move or a whole log arriving after a
        // reconnect. Merging handles both, and handles them being partly or
        // entirely things we already know.
        let new: bool = app.log.merge(events.as_slice());
        app.rebuild();
        Heard::Merged { len: events.len(), new }
    }
}

/// Called when the channel opens — the first time, or again after a drop.
/// Returns what to send.
///
/// Both sides hand over the whole log. On a fresh join that is what settles
/// the seed; on a reconnect it is the catch-up, because merging two logs of
/// the same game is exactly "ship the missing tail" in both directions at
/// once.
pub fn on_connect(app: &mut App, is_host: bool) -> (out: (Msg, Msg))
    requires
        old(app).wf(),
    ensures
        final(app).wf(),
        ({
            let a = old(app)@;
            &&& final(app)@ == (AppState { player: seat_taken(a.player, is_host, a.log), ..a })
            &&& out.0@ == Message::Events(a.log)
            &&& out.1@ == report(final(app)@)
        }),
{
    app.take_seat(is_host);
    let mut log: Vec<Stamped> = Vec::new();
    let all: &[Stamped] = app.log.as_slice();
    let mut i: usize = 0;
    while i < all.len()
        invariant
            i <= all@.len(),
            log@ == all@.take(i as int),
        decreases all@.len() - i,
    {
        log.push(all[i]);
        i = i + 1;
        assert(log@ =~= all@.take(i as int));
    }
    assert(all@.take(i as int) =~= all@);
    (Msg::Events(log), app.state())
}

} // verus!
