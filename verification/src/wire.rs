//! Byte format for the moves.
//!
//! Layout, little-endian:
//!
//! ```text
//! Start   0x00  seed(8)  w(1)  h(1)  mines(2)  mode(1)  = 14 bytes
//! Reveal  0x01  player(1)  x(1)  y(1)                   =  4 bytes
//! Flag    0x02  player(1)  x(1)  y(1)                   =  4 bytes
//! ```
//!
//! The stamped-log framing around these lives in [`crate::framing`]; this
//! module only says what a move looks like in bytes, and how moves that share
//! a `seq` are ordered.
use vstd::prelude::*;

use crate::bytes::{
    get_le, law_le_reads_back, law_le_writes_back, le, le_value, lemma_le_value_bound, lemma_rooms,
    put_le,
};
use crate::event::{Event, Mode};
use crate::eventlog::Payload;
use crate::framing::{canonical, whole_or_nothing, written_as_read};

verus! {

/// The message envelope, carrying moves.
pub type Msg = crate::framing::Msg<Event>;

const TAG_START: u8 = 0;

const TAG_REVEAL: u8 = 1;

const TAG_FLAG: u8 = 2;

const START_LEN: usize = 14;

const MOVE_LEN: usize = 4;

/// The mode of a byte.
pub open spec fn mode_at(v: u8) -> Option<Mode> {
    if v == 0 {
        Some(Mode::Coop)
    } else if v == 1 {
        Some(Mode::FlagRace)
    } else if v == 2 {
        Some(Mode::Race)
    } else {
        None
    }
}

pub open spec fn event_bytes(ev: Event) -> Seq<u8> {
    match ev {
        Event::Start { seed, w, h, mines, mode } => seq![0u8] + le(seed as nat, 8) + seq![w, h]
            + le(mines as nat, 2) + seq![mode.code()],
        Event::Reveal { player, x, y } => seq![1u8, player, x, y],
        Event::Flag { player, x, y } => seq![2u8, player, x, y],
    }
}

pub open spec fn parse_event(b: Seq<u8>) -> Option<(Event, nat)> {
    if b.len() >= 14 && b[0] == 0 {
        match mode_at(b[13]) {
            Some(mode) => Some(
                (
                    Event::Start {
                        seed: le_value(b.subrange(1, 9)) as u64,
                        w: b[9],
                        h: b[10],
                        mines: le_value(b.subrange(11, 13)) as u16,
                        mode,
                    },
                    14,
                ),
            ),
            None => None,
        }
    } else if b.len() >= 4 && b[0] == 1 {
        Some((Event::Reveal { player: b[1], x: b[2], y: b[3] }, 4))
    } else if b.len() >= 4 && b[0] == 2 {
        Some((Event::Flag { player: b[1], x: b[2], y: b[3] }, 4))
    } else {
        None
    }
}

/// Two moves by player, then column, then row.
pub open spec fn move_before(a: (u8, u8, u8), b: (u8, u8, u8)) -> bool {
    ||| a.0 < b.0
    ||| a.0 == b.0 && a.1 < b.1
    ||| a.0 == b.0 && a.1 == b.1 && a.2 < b.2
}

/// The order of events: by variant, then field by field.
pub open spec fn event_before(a: Event, b: Event) -> bool {
    match (a, b) {
        (
            Event::Start { seed: s1, w: w1, h: h1, mines: m1, mode: o1 },
            Event::Start { seed: s2, w: w2, h: h2, mines: m2, mode: o2 },
        ) => {
            ||| s1 < s2
            ||| s1 == s2 && w1 < w2
            ||| s1 == s2 && w1 == w2 && h1 < h2
            ||| s1 == s2 && w1 == w2 && h1 == h2 && m1 < m2
            ||| s1 == s2 && w1 == w2 && h1 == h2 && m1 == m2 && o1.code() < o2.code()
        },
        (Event::Start { .. }, _) => true,
        (Event::Reveal { .. }, Event::Start { .. }) => false,
        (
            Event::Reveal { player: p1, x: x1, y: y1 },
            Event::Reveal { player: p2, x: x2, y: y2 },
        ) => move_before((p1, x1, y1), (p2, x2, y2)),
        (Event::Reveal { .. }, Event::Flag { .. }) => true,
        (
            Event::Flag { player: p1, x: x1, y: y1 },
            Event::Flag { player: p2, x: x2, y: y2 },
        ) => move_before((p1, x1, y1), (p2, x2, y2)),
        (Event::Flag { .. }, _) => false,
    }
}

fn move_precedes(p1: u8, x1: u8, y1: u8, p2: u8, x2: u8, y2: u8) -> (b: bool)
    ensures
        b == move_before((p1, x1, y1), (p2, x2, y2)),
{
    p1 < p2 || (p1 == p2 && (x1 < x2 || (x1 == x2 && y1 < y2)))
}

impl Event {
    pub fn encode(&self, out: &mut Vec<u8>)
        ensures
            final(out)@ == old(out)@ + event_bytes(*self),
    {
        match *self {
            Event::Start { seed, w, h, mines, mode } => {
                out.push(TAG_START);
                put_le(out, seed, 8);
                out.push(w);
                out.push(h);
                put_le(out, mines as u64, 2);
                out.push(mode.to_u8());
            },
            Event::Reveal { player, x, y } => {
                out.push(TAG_REVEAL);
                out.push(player);
                out.push(x);
                out.push(y);
            },
            Event::Flag { player, x, y } => {
                out.push(TAG_FLAG);
                out.push(player);
                out.push(x);
                out.push(y);
            },
        }
        assert(out@ =~= old(out)@ + event_bytes(*self));
    }

    /// Decodes one event from the front of `bytes`, returning it and how many
    /// bytes it consumed. `None` means the input is truncated or malformed.
    pub fn decode(bytes: &[u8]) -> (r: Option<(Event, usize)>)
        ensures
            match r {
                Some((ev, n)) => parse_event(bytes@) == Some((ev, n as nat)) && n <= bytes@.len(),
                None => parse_event(bytes@) is None,
            },
    {
        let len: usize = bytes.len();
        if len >= START_LEN && bytes[0] == TAG_START {
            proof {
                lemma_rooms();
            }
            let seed: u64 = get_le(bytes, 1, 8);
            let mines: u16 = get_le(bytes, 11, 2) as u16;
            match Mode::from_u8(bytes[13]) {
                Some(mode) => Some(
                    (Event::Start { seed, w: bytes[9], h: bytes[10], mines, mode }, START_LEN),
                ),
                None => None,
            }
        } else if len >= MOVE_LEN && bytes[0] == TAG_REVEAL {
            Some((Event::Reveal { player: bytes[1], x: bytes[2], y: bytes[3] }, MOVE_LEN))
        } else if len >= MOVE_LEN && bytes[0] == TAG_FLAG {
            Some((Event::Flag { player: bytes[1], x: bytes[2], y: bytes[3] }, MOVE_LEN))
        } else {
            // Truncated, or a tag we don't know: a newer peer, or corruption.
            None
        }
    }
}

/// How moves plug into the log. An event that decodes cleanly but describes an
/// impossible game is refused at the trust boundary rather than folded over
/// later.
impl Payload for Event {
    open spec fn before(self, other: Self) -> bool {
        event_before(self, other)
    }

    open spec fn bytes(self) -> Seq<u8> {
        event_bytes(self)
    }

    open spec fn parse(bytes: Seq<u8>) -> Option<(Self, nat)> {
        parse_event(bytes)
    }

    open spec fn allowed(self) -> bool {
        self.playable()
    }

    proof fn order_is_total(a: Self, b: Self, c: Self) {
    }

    proof fn reads_back(self, rest: Seq<u8>) {
        lemma_rooms();
        let b = event_bytes(self) + rest;
        match self {
            Event::Start { seed, w, h, mines, mode } => {
                law_le_reads_back(seed as nat, 8);
                law_le_reads_back(mines as nat, 2);
                assert(b.subrange(1, 9) =~= le(seed as nat, 8));
                assert(b.subrange(11, 13) =~= le(mines as nat, 2));
            },
            _ => {},
        }
    }

    proof fn stays_within(bytes: Seq<u8>) {
    }

    fn precedes(&self, other: &Self) -> (b: bool) {
        match (*self, *other) {
            (
                Event::Start { seed: s1, w: w1, h: h1, mines: m1, mode: o1 },
                Event::Start { seed: s2, w: w2, h: h2, mines: m2, mode: o2 },
            ) => s1 < s2 || (s1 == s2 && (w1 < w2 || (w1 == w2 && (h1 < h2 || (h1 == h2 && (m1 < m2
                || (m1 == m2 && o1.to_u8() < o2.to_u8()))))))),
            (Event::Start { .. }, _) => true,
            (
                Event::Reveal { player: p1, x: x1, y: y1 },
                Event::Reveal { player: p2, x: x2, y: y2 },
            ) => move_precedes(p1, x1, y1, p2, x2, y2),
            (Event::Reveal { .. }, Event::Flag { .. }) => true,
            (
                Event::Flag { player: p1, x: x1, y: y1 },
                Event::Flag { player: p2, x: x2, y: y2 },
            ) => move_precedes(p1, x1, y1, p2, x2, y2),
            (_, _) => false,
        }
    }

    fn encode(&self, out: &mut Vec<u8>) {
        Event::encode(self, out);
    }

    fn decode(bytes: &[u8]) -> (r: Option<(Self, usize)>) {
        Event::decode(bytes)
    }

    fn valid(&self) -> (b: bool) {
        self.is_playable()
    }
}

/// No part of a move from the front is a move.
pub proof fn law_a_partial_move_is_refused(ev: Event)
    ensures
        whole_or_nothing(ev),
{
    lemma_rooms();
    match ev {
        Event::Start { seed, w, h, mines, mode } => {
            law_le_reads_back(seed as nat, 8);
            law_le_reads_back(mines as nat, 2);
        },
        _ => {},
    }
}

/// There is one way to write each move: bytes that read as it are its bytes.
pub proof fn law_moves_are_written_one_way()
    ensures
        canonical::<Event>(),
{
    assert forall|b: Seq<u8>| #[trigger] written_as_read::<Event>(b) by {
        lemma_rooms();
        match parse_event(b) {
            Some((ev, n)) => {
                if ev is Start {
                    lemma_le_value_bound(b.subrange(1, 9));
                    lemma_le_value_bound(b.subrange(11, 13));
                    law_le_writes_back(b.subrange(1, 9));
                    law_le_writes_back(b.subrange(11, 13));
                }
                assert(b.take(n as int) =~= event_bytes(ev));
            },
            None => {},
        }
    }
}

/// A deal comes before every move and a reveal before every flag; two deals
/// are in the order of their seeds, and two of one seed of their boards and
/// modes; two moves of one sort are in the order of their players, and two of
/// one player of their places.
pub proof fn law_how_events_are_ordered(a: Event, b: Event)
    ensures
        a is Start && !(b is Start) ==> event_before(a, b) && !event_before(b, a),
        a is Reveal && b is Flag ==> event_before(a, b) && !event_before(b, a),
        (a matches Event::Start { seed: s, w, h, mines: m, mode: o } && (
        b matches Event::Start { seed: s2, w: w2, h: h2, mines: m2, mode: o2 } && {
            &&& s != s2 ==> event_before(a, b) == (s < s2)
            &&& s == s2 && w != w2 ==> event_before(a, b) == (w < w2)
            &&& (s, w) == (s2, w2) && h != h2 ==> event_before(a, b) == (h < h2)
            &&& (s, w, h) == (s2, w2, h2) && m != m2 ==> event_before(a, b) == (m < m2)
            &&& (s, w, h, m) == (s2, w2, h2, m2) ==> event_before(a, b) == (match (o, o2) {
                (Mode::Coop, Mode::FlagRace) => true,
                (Mode::Coop, Mode::Race) => true,
                (Mode::FlagRace, Mode::Race) => true,
                _ => false,
            })
        })) || !(a is Start) || !(b is Start),
        (a matches Event::Reveal { player: p, x, y } && (
        b matches Event::Reveal { player: p2, x: x2, y: y2 } && {
            &&& p != p2 ==> event_before(a, b) == (p < p2)
            &&& p == p2 && x != x2 ==> event_before(a, b) == (x < x2)
            &&& (p, x) == (p2, x2) ==> event_before(a, b) == (y < y2)
        })) || !(a is Reveal) || !(b is Reveal),
        (a matches Event::Flag { player: p, x, y } && (
        b matches Event::Flag { player: p2, x: x2, y: y2 } && {
            &&& p != p2 ==> event_before(a, b) == (p < p2)
            &&& p == p2 && x != x2 ==> event_before(a, b) == (x < x2)
            &&& (p, x) == (p2, x2) ==> event_before(a, b) == (y < y2)
        })) || !(a is Flag) || !(b is Flag),
{
}

/// Where each field of an event stands in its bytes.
pub proof fn law_where_the_fields_stand(
    seed: u64,
    w: u8,
    h: u8,
    mines: u16,
    mode: Mode,
    player: u8,
    x: u8,
    y: u8,
)
    ensures
        ({
            let b = event_bytes(Event::Start { seed, w, h, mines, mode });
            &&& b.len() == 14
            &&& b[0] == 0
            &&& le_value(b.subrange(1, 9)) == seed
            &&& b[9] == w
            &&& b[10] == h
            &&& le_value(b.subrange(11, 13)) == mines
            &&& b[13] == (match mode {
                Mode::Coop => 0u8,
                Mode::FlagRace => 1u8,
                Mode::Race => 2u8,
            })
        }),
        event_bytes(Event::Reveal { player, x, y }) == seq![1u8, player, x, y],
        event_bytes(Event::Flag { player, x, y }) == seq![2u8, player, x, y],
{
    lemma_rooms();
    law_le_reads_back(seed as nat, 8);
    law_le_reads_back(mines as nat, 2);
    let b = event_bytes(Event::Start { seed, w, h, mines, mode });
    assert(b.subrange(1, 9) =~= le(seed as nat, 8));
    assert(b.subrange(11, 13) =~= le(mines as nat, 2));
}

} // verus!
