//! What the page shows and what a click on it means.
use vstd::prelude::*;
use vstd::string::*;

use crate::app::presence::{last_played, owners, presence, Presence};
use crate::app::{
    clock_window, count, first_reveal, is_flagged, is_shown, mines_left, progress, to_open,
    verdict, verdict_text, App, AppState, Heard, LEVELS,
};
use crate::board::{inside, lemma_place, place, Cell, Reveal, Status};
use crate::event::{Event, Mode};
use crate::fnv::fnv;
use crate::game::{flags, game_status, hashed, mode_in, mode_of, score};
use crate::text::{decimal, hex, push_decimal, push_hex, push_signed, signed};

verus! {

/// One colour each. Player 0 hosts, player 1 joins.
pub const PLAYERS: [(&'static str, &'static str); 2] = [("#c0392b", "red"), ("#2b6fc8", "blue")];

/// Canvas pixels along one side of a cell: 32 logical pixels, twice over so
/// that CSS can shrink the board without softening the digits.
pub const CELL_PIXELS: u32 = 64;

pub open spec fn colour(player: u8) -> Seq<char> {
    if player % 2 == 0 {
        "#c0392b"@
    } else {
        "#2b6fc8"@
    }
}

fn colour_of(player: u8) -> (s: &'static str)
    ensures
        s@ == colour(player),
{
    PLAYERS[(player % 2) as usize].0
}

/// Classic digit colours.
pub open spec fn digit_colour(n: u8) -> Seq<char> {
    match n {
        1 => "#2b52c8"@,
        2 => "#2e7d32"@,
        3 => "#c0392b"@,
        4 => "#1f3070"@,
        5 => "#8c3b2e"@,
        6 => "#17727a"@,
        7 => "#2b3038"@,
        _ => "#6d7684"@,
    }
}

fn digit_colour_of(n: u8) -> (s: &'static str)
    ensures
        s@ == digit_colour(n),
{
    match n {
        1 => "#2b52c8",
        2 => "#2e7d32",
        3 => "#c0392b",
        4 => "#1f3070",
        5 => "#8c3b2e",
        6 => "#17727a",
        7 => "#2b3038",
        _ => "#6d7684",
    }
}

// ---------------------------------------------------------------------------
// The text above the board.
// ---------------------------------------------------------------------------
/// Seconds on the clock at `now`: live while playing, frozen once it is over.
pub open spec fn clock(a: AppState, now_ms: u64) -> int {
    match first_reveal(a.log) {
        None => 0,
        Some(start) => {
            let end = match a.ended_at {
                Some(t) => t,
                None => now_ms,
            };
            if end < start {
                0
            } else {
                ((end - start) / 1000) % 0x1_0000_0000
            }
        },
    }
}

/// The first part of the line above the board.
pub open spec fn headline(a: AppState) -> Seq<char> {
    let g = a.game;
    match mode_in(a.log) {
        Mode::Coop => signed(g.mines - count(g.cells, is_flagged())) + " flags left"@,
        Mode::FlagRace => "red "@ + decimal(flags(g, 0)) + " – "@ + decimal(flags(g, 1))
            + " blue · "@ + signed(g.mines - (flags(g, 0) + flags(g, 1))) + " mines unflagged"@,
        Mode::Race => {
            let total = decimal(to_open(g.cells.len(), g.mines));
            let theirs = match a.foe {
                Some(f) => count(f.cells, is_shown()),
                None => 0,
            };
            "you "@ + decimal(count(g.cells, is_shown())) + "/"@ + total + " · them "@ + decimal(
                theirs,
            ) + "/"@ + total
        },
    }
}

/// The line above the board.
pub open spec fn hud_text(a: AppState, now_ms: u64) -> Seq<char> {
    headline(a) + " · "@ + decimal(clock(a, now_ms) as nat) + "s"@ + (if a.connected {
        " · you are "@ + (if a.player == 0 {
            "red"@
        } else {
            "blue"@
        })
    } else {
        ""@
    })
}

/// The result, where there is one, and its colour.
pub open spec fn banner_text(a: AppState) -> (Seq<char>, Seq<char>) {
    verdict_text(
        mode_in(a.log),
        game_status(a.game),
        a.winner,
        a.player,
        seq![score(a.game, 0) as i32, score(a.game, 1) as i32],
        !a.connected,
        a.ender,
    )
}

// ---------------------------------------------------------------------------
// The board.
// ---------------------------------------------------------------------------
/// How to paint one cell.
pub struct Tile {
    pub fill: &'static str,
    /// The colour of the flag on it.
    pub flag: Option<&'static str>,
    /// The flag turned out to be wrong.
    pub crossed: bool,
    /// The number on it, and its colour.
    pub digit: Option<(u8, &'static str)>,
}

/// What a cell is filled with. Once the game is over, mines come into view:
/// the one you hit, and the ones you missed.
pub open spec fn fill(over: bool, c: Cell) -> Seq<char> {
    if over && c.mine {
        if c.state == Reveal::Shown {
            "#c0392b"@
        } else {
            "#e8a5a0"@
        }
    } else if c.state == Reveal::Shown {
        "#dfe2e7"@
    } else {
        "#b6bcc6"@
    }
}

/// Whose flag stands at `at`. In a race this board is only ever yours, so the
/// flags on it are too; otherwise it is whoever touched the cell last.
pub open spec fn flag_owner(a: AppState, at: (u8, u8)) -> u8 {
    if mode_in(a.log) == Mode::Race {
        a.player
    } else if owners(a.log).contains_key(at) {
        owners(a.log)[at]
    } else {
        0
    }
}

pub open spec fn is_over_in(a: AppState) -> bool {
    a.winner is Some || game_status(a.game) != Status::Playing
}

/// The tile paints this cell.
pub open spec fn paints(t: Tile, a: AppState, x: u8, y: u8) -> bool {
    let c = a.game.cells[place(a.game.w, x as int, y as int)];
    let over = is_over_in(a);
    &&& t.fill@ == fill(over, c)
    &&& match t.flag {
        Some(f) => c.state == Reveal::Flagged && f@ == colour(flag_owner(a, (x, y))),
        None => c.state != Reveal::Flagged,
    }
    &&& t.crossed == (c.state == Reveal::Flagged && over && !c.mine)
    &&& match t.digit {
        Some((n, s)) => {
            &&& c.state == Reveal::Shown
            &&& !c.mine
            &&& n == c.adj
            &&& n > 0
            &&& s@ == digit_colour(n)
        },
        None => !(c.state == Reveal::Shown && !c.mine && c.adj > 0),
    }
}

/// What a click on `(x, y)` means.
pub open spec fn meant(a: AppState, right: bool, x: u8, y: u8) -> Option<Event> {
    if is_over_in(a) {
        None
    } else if right || a.flag_mode {
        Some(Event::Flag { player: a.player, x, y })
    } else {
        Some(Event::Reveal { player: a.player, x, y })
    }
}

/// Where the other player last played. Not in a race: their last move
/// happened on their own board.
pub open spec fn peer_spot(a: AppState) -> Option<(u8, u8)> {
    if mode_in(a.log) == Mode::Race {
        None
    } else {
        last_played(a.log, (1 - a.player) as u8)
    }
}

impl App {
    /// Seconds on the clock.
    ///
    /// While the game runs this is our own clock minus the author's, so two
    /// devices whose clocks disagree will disagree by that much. The final
    /// time is subtracted entirely out of the log, so it is the same number
    /// on both screens — and that is the one worth being right.
    pub fn seconds(&self, now_ms: u64) -> (s: u32)
        ensures
            s == clock(self@, now_ms),
    {
        let (started, stopped) = clock_window(self.log.as_slice(), self.ended_at);
        match started {
            None => 0,
            Some(start) => {
                let end: u64 = match stopped {
                    Some(t) => t,
                    None => now_ms,
                };
                ((end.saturating_sub(start) / 1000) % 0x1_0000_0000) as u32
            },
        }
    }

    fn headline(&self) -> (s: String)
        requires
            self.wf(),
        ensures
            s@ == headline(self@),
    {
        let mut s: String = String::new();
        match mode_of(self.log.as_slice()) {
            Mode::Coop => {
                push_signed(&mut s, mines_left(&self.game.board) as i64);
                s.append(" flags left");
            },
            Mode::FlagRace => {
                // Flags placed, not flags *right* — the true score is a mine
                // detector until the board is cleared, so it waits for the
                // banner.
                let placed: [u32; 2] = self.game.flags_placed();
                let red: u32 = placed[0];
                let blue: u32 = placed[1];
                let left: i64 = self.game.board.mines as i64 - (red as i64 + blue as i64);
                s.append("red ");
                push_decimal(&mut s, red as u64);
                s.append(" – ");
                push_decimal(&mut s, blue as u64);
                s.append(" blue · ");
                push_signed(&mut s, left);
                s.append(" mines unflagged");
            },
            Mode::Race => {
                let (mine, total) = progress(&self.game.board);
                let theirs: u32 = match &self.foe {
                    Some(g) => progress(&g.board).0,
                    None => 0,
                };
                s.append("you ");
                push_decimal(&mut s, mine as u64);
                s.append("/");
                push_decimal(&mut s, total as u64);
                s.append(" · them ");
                push_decimal(&mut s, theirs as u64);
                s.append("/");
                push_decimal(&mut s, total as u64);
            },
        }
        assert(s@ =~= headline(self@));
        s
    }

    /// The line above the board.
    pub fn hud(&self, now_ms: u64) -> (s: String)
        requires
            self.wf(),
        ensures
            s@ == hud_text(self@, now_ms),
    {
        let mut s: String = self.headline();
        s.append(" · ");
        push_decimal(&mut s, self.seconds(now_ms) as u64);
        s.append("s");
        // The colour only means anything once someone else is here.
        if self.connected {
            s.append(" · you are ");
            s.append(PLAYERS[self.player as usize].1);
        }
        proof {
            reveal_strlit("");
            assert(s@ =~= hud_text(self@, now_ms));
        }
        s
    }

    /// The result, in the page rather than painted over the board, and the
    /// class it is shown in.
    pub fn banner(&self) -> (r: (String, &'static str))
        requires
            self.wf(),
        ensures
            (r.0@, r.1@) == banner_text(self@),
    {
        let scores: [i32; 2] = self.game.flag_scores();
        assert(scores@ =~= seq![score(self@.game, 0) as i32, score(self@.game, 1) as i32]);
        verdict(
            mode_of(self.log.as_slice()),
            self.game.status(),
            self.winner,
            self.player,
            scores,
            !self.connected,
            self.ender,
        )
    }

    /// The size of the board's bitmap.
    pub fn bitmap(&self) -> (r: (u32, u32))
        ensures
            r.0 == self@.game.w * 64,
            r.1 == self@.game.h * 64,
    {
        (self.game.board.w as u32 * CELL_PIXELS, self.game.board.h as u32 * CELL_PIXELS)
    }

    /// Who touched what, read out of the log.
    pub fn who(&self) -> (p: Presence)
        ensures
            p.owner@ == owners(self@.log),
            p.last@ == seq![last_played(self@.log, 0), last_played(self@.log, 1)],
    {
        presence(self.log.as_slice())
    }

    /// How to paint the cell at `(x, y)`.
    pub fn tile(&self, who: &Presence, x: u8, y: u8) -> (t: Tile)
        requires
            self.wf(),
            inside(self@.game.w, self@.game.h, x as int, y as int),
            who.owner@ == owners(self@.log),
        ensures
            paints(t, self@, x, y),
    {
        proof {
            lemma_place(self.game.board.w, self.game.board.h, x as int, y as int);
        }
        let c: Cell = self.game.board.get(x, y);
        let over: bool = self.over();
        let shown: bool = c.state == Reveal::Shown;
        let fill: &'static str = if over && c.mine {
            if shown {
                "#c0392b"
            } else {
                "#e8a5a0"
            }
        } else if shown {
            "#dfe2e7"
        } else {
            "#b6bcc6"
        };
        let flagged: bool = c.state == Reveal::Flagged;
        let flag: Option<&'static str> = if flagged {
            let p: u8 = if mode_of(self.log.as_slice()) == Mode::Race {
                self.player
            } else {
                match who.owner.get(&(x, y)) {
                    Some(p) => *p,
                    None => 0,
                }
            };
            Some(colour_of(p))
        } else {
            None
        };
        let digit: Option<(u8, &'static str)> = if shown && !c.mine && c.adj > 0 {
            Some((c.adj, digit_colour_of(c.adj)))
        } else {
            None
        };
        Tile { fill, flag, crossed: flagged && over && !c.mine, digit }
    }

    /// Where the other player last played, and their colour — the closest
    /// thing to seeing them without streaming a cursor over the channel.
    pub fn ring(&self, who: &Presence) -> (r: Option<((u8, u8), &'static str)>)
        requires
            self.wf(),
            who.last@ == seq![last_played(self@.log, 0), last_played(self@.log, 1)],
        ensures
            match r {
                Some((at, s)) => peer_spot(self@) == Some(at) && s@ == colour(
                    (1 - self@.player) as u8,
                ),
                None => peer_spot(self@) is None,
            },
    {
        if mode_of(self.log.as_slice()) == Mode::Race {
            return None;
        }
        let them: u8 = 1 - self.player;
        match who.last[them as usize] {
            Some(at) => Some((at, colour_of(them))),
            None => None,
        }
    }

    /// What a click on `(x, y)` does: nothing once the game is over — New game
    /// restarts it — and otherwise a flag or a reveal.
    pub fn click(&self, right: bool, x: u8, y: u8) -> (ev: Option<Event>)
        requires
            self.wf(),
        ensures
            ev == (if is_over_in(self@) {
                None
            } else if right || self@.flag_mode {
                Some(Event::Flag { player: self@.player, x, y })
            } else {
                Some(Event::Reveal { player: self@.player, x, y })
            }),
            ev == meant(self@, right, x, y),
    {
        let player: u8 = self.player;
        if self.over() {
            None
        } else if right || self.flag_mode {
            Some(Event::Flag { player, x, y })
        } else {
            Some(Event::Reveal { player, x, y })
        }
    }

    /// Flips flag mode; returns what the button then says, and its colour.
    pub fn toggle_flag_mode(&mut self) -> (r: (&'static str, &'static str))
        ensures
            final(self)@ == (AppState { flag_mode: !old(self)@.flag_mode, ..old(self)@ }),
            old(self).wf() ==> final(self).wf(),
            r.0@ == (if final(self)@.flag_mode {
                "Flag mode: ON"@
            } else {
                "Flag mode: off"@
            }),
            r.1@ == (if final(self)@.flag_mode {
                "#c0392b"@
            } else {
                "#2b3038"@
            }),
    {
        self.flag_mode = !self.flag_mode;
        if self.flag_mode {
            ("Flag mode: ON", "#c0392b")
        } else {
            ("Flag mode: off", "#2b3038")
        }
    }

    /// The board hash in hexadecimal. Two peers agreeing on this is the
    /// entire sync guarantee.
    pub fn debug_hash(&self) -> (s: String)
        requires
            self.wf(),
        ensures
            s@ == hex(fnv(hashed(self@.game)) as nat, 16),
    {
        let mut s: String = String::new();
        push_hex(&mut s, self.game.hash(), 16);
        assert(s@ =~= hex(fnv(hashed(self@.game)) as nat, 16));
        s
    }
}

/// The level a picker's index stands for: the nearest there is.
pub open spec fn level_at(i: i32) -> int {
    if i < 0 {
        0
    } else if i > 2 {
        2
    } else {
        i as int
    }
}

/// The mode a picker's index stands for. The picker's order is the modes'
/// own; anything else falls back to co-op rather than guessing.
pub open spec fn mode_picked(i: i32) -> Mode {
    let v = if i < 0 {
        0
    } else {
        i % 256
    };
    if v == 1 {
        Mode::FlagRace
    } else if v == 2 {
        Mode::Race
    } else {
        Mode::Coop
    }
}

/// A new game at whatever the pickers say. The seed is the time, made odd.
pub fn deal(level: i32, mode: i32, now_ms: u64) -> (ev: Event)
    ensures
        ({
            let (w, h, mines, _) = LEVELS[level_at(level)];
            ev == (Event::Start { seed: now_ms | 1, w, h, mines, mode: mode_picked(mode) })
        }),
{
    let i: usize = if level < 0 {
        0
    } else if level > 2 {
        2
    } else {
        level as usize
    };
    let (w, h, mines, _) = LEVELS[i];
    let byte: u8 = if mode < 0 {
        0
    } else {
        (mode % 256) as u8
    };
    let mode: Mode = match Mode::from_u8(byte) {
        Some(m) => m,
        None => Mode::Coop,
    };
    Event::Start { seed: now_ms | 1, w, h, mines, mode }
}

// ---------------------------------------------------------------------------
// What to say of a message.
// ---------------------------------------------------------------------------
/// The line for the log, where there is one.
pub open spec fn log_text(h: Heard) -> Option<Seq<char>> {
    match h {
        Heard::Malformed { len } => Some("dropped "@ + decimal(len as nat) + " malformed bytes"@),
        Heard::Adopted { len } => Some("adopted their game, "@ + decimal(len as nat) + " events"@),
        Heard::Kept => Some("kept our game — theirs had less in it"@),
        Heard::Merged { len, new } => if len > 1 {
            Some(
                "merged "@ + decimal(len as nat) + " events, "@ + (if new {
                    "some were new"@
                } else {
                    "all known"@
                }),
            )
        } else {
            None
        },
        Heard::Desync { count, ours, theirs } => Some(
            "desync at event "@ + decimal(count as nat) + ": ours "@ + hex(ours as nat, 16)
                + ", theirs "@ + hex(theirs as nat, 16),
        ),
        _ => None,
    }
}

/// The note for the player, where there is one.
pub open spec fn note_text(h: Heard) -> Option<Seq<char>> {
    match h {
        Heard::NotAGame => Some("ignored a log that could not be a game"@),
        Heard::Redeal => Some("ignored a message trying to re-deal the board"@),
        Heard::PastTheCap => Some("ignored a message past the log cap"@),
        Heard::Desync { .. } => Some("DESYNC — boards no longer match"@),
        _ => None,
    }
}

impl Heard {
    /// The line for the log, where there is one.
    pub fn log_line(&self) -> (r: Option<String>)
        ensures
            match r {
                Some(s) => log_text(*self) == Some(s@),
                None => log_text(*self) is None,
            },
    {
        let mut s: String = String::new();
        match *self {
            Heard::Malformed { len } => {
                s.append("dropped ");
                push_decimal(&mut s, len as u64);
                s.append(" malformed bytes");
            },
            Heard::Adopted { len } => {
                s.append("adopted their game, ");
                push_decimal(&mut s, len as u64);
                s.append(" events");
            },
            Heard::Kept => {
                s.append("kept our game — theirs had less in it");
            },
            Heard::Merged { len, new } => {
                if len <= 1 {
                    return None;
                }
                s.append("merged ");
                push_decimal(&mut s, len as u64);
                s.append(" events, ");
                s.append(
                    if new {
                        "some were new"
                    } else {
                        "all known"
                    },
                );
            },
            Heard::Desync { count, ours, theirs } => {
                s.append("desync at event ");
                push_decimal(&mut s, count as u64);
                s.append(": ours ");
                push_hex(&mut s, ours, 16);
                s.append(", theirs ");
                push_hex(&mut s, theirs, 16);
            },
            _ => {
                return None;
            },
        }
        assert(s@ =~= log_text(*self)->Some_0);
        Some(s)
    }

    /// The note for the player, where there is one.
    pub fn note(&self) -> (r: Option<&'static str>)
        ensures
            match r {
                Some(s) => note_text(*self) == Some(s@),
                None => note_text(*self) is None,
            },
    {
        match *self {
            Heard::NotAGame => Some("ignored a log that could not be a game"),
            Heard::Redeal => Some("ignored a message trying to re-deal the board"),
            Heard::PastTheCap => Some("ignored a message past the log cap"),
            Heard::Desync { .. } => Some("DESYNC — boards no longer match"),
            _ => None,
        }
    }

    /// Whether the board was folded again, so that the page has to be redrawn
    /// and the peer told where that left us.
    pub fn answers(&self) -> (b: bool)
        ensures
            b == (self is Adopted || self is Kept || self is Merged),
    {
        match *self {
            Heard::Adopted { .. } => true,
            Heard::Kept => true,
            Heard::Merged { .. } => true,
            _ => false,
        }
    }
}

} // verus!
