//! A shared tally: two peers, one button each, both screens agree on the
//! count. Everything interesting comes from the event log; what is left is a
//! payload type and a fold.
use vstd::prelude::*;
use vstd::string::*;

use crate::eventlog::laws::{agree, law_peers_converge};
use crate::eventlog::{
    holds, inserted, merged, next_seq, overflows, same, strictly, Log, Payload, Stamped,
};
use crate::framing::{decode_msg, parse_msg, Message, Msg};
use crate::text::{decimal, push_decimal};

verus! {

/// The whole protocol: a log opens, and people tap.
#[derive(Clone, Copy, PartialEq, Eq, PartialOrd, Ord, Debug, Structural)]
pub enum Ev {
    Open,
    Tap { player: u8 },
}

const TAG_OPEN: u8 = 0;

const TAG_TAP: u8 = 1;

/// Far past any thumb: a peer inventing events forever must not grow the log —
/// and the refold — without bound.
pub const MAX_LOG: usize = 10_000;

impl Payload for Ev {
    open spec fn before(self, other: Self) -> bool {
        match (self, other) {
            (Ev::Open, Ev::Tap { .. }) => true,
            (Ev::Tap { player: a }, Ev::Tap { player: b }) => a < b,
            _ => false,
        }
    }

    open spec fn bytes(self) -> Seq<u8> {
        match self {
            Ev::Open => seq![0u8],
            Ev::Tap { player } => seq![1u8, player],
        }
    }

    open spec fn parse(bytes: Seq<u8>) -> Option<(Self, nat)> {
        if bytes.len() >= 1 && bytes[0] == 0 {
            Some((Ev::Open, 1))
        } else if bytes.len() >= 2 && bytes[0] == 1 {
            Some((Ev::Tap { player: bytes[1] }, 2))
        } else {
            None
        }
    }

    open spec fn allowed(self) -> bool {
        match self {
            Ev::Open => true,
            Ev::Tap { player } => player < 2,
        }
    }

    proof fn order_is_total(a: Self, b: Self, c: Self) {
    }

    proof fn reads_back(self, rest: Seq<u8>) {
    }

    proof fn stays_within(bytes: Seq<u8>) {
    }

    fn precedes(&self, other: &Self) -> (b: bool) {
        match (*self, *other) {
            (Ev::Open, Ev::Tap { .. }) => true,
            (Ev::Tap { player: a }, Ev::Tap { player: b }) => a < b,
            _ => false,
        }
    }

    fn encode(&self, out: &mut Vec<u8>) {
        match *self {
            Ev::Open => {
                out.push(TAG_OPEN);
            },
            Ev::Tap { player } => {
                out.push(TAG_TAP);
                out.push(player);
            },
        }
        assert(out@ =~= old(out)@ + self.bytes());
    }

    fn decode(bytes: &[u8]) -> (r: Option<(Self, usize)>) {
        let len: usize = bytes.len();
        if len >= 1 && bytes[0] == TAG_OPEN {
            Some((Ev::Open, 1))
        } else if len >= 2 && bytes[0] == TAG_TAP {
            Some((Ev::Tap { player: bytes[1] }, 2))
        } else {
            None
        }
    }

    fn valid(&self) -> (b: bool) {
        match *self {
            Ev::Open => true,
            Ev::Tap { player } => player < 2,
        }
    }
}

/// How many taps of one side the log holds.
pub open spec fn taps(log: Seq<Stamped<Ev>>, side: int) -> nat
    decreases log.len(),
{
    if log.len() == 0 {
        0
    } else {
        taps(log.drop_last(), side) + (match log.last().ev {
            Ev::Tap { player } => if player % 2 == side {
                1nat
            } else {
                0nat
            },
            Ev::Open => 0nat,
        })
    }
}

/// Both sides' taps.
pub fn tallies(log: &[Stamped<Ev>]) -> (t: [u32; 2])
    requires
        log@.len() <= u32::MAX,
    ensures
        t@.len() == 2,
        t@[0] == taps(log@, 0),
        t@[1] == taps(log@, 1),
        t@[0] + t@[1] <= log@.len(),
{
    let mut a: u32 = 0;
    let mut b: u32 = 0;
    let mut i: usize = 0;
    assert(log@.take(0) =~= seq![]);
    while i < log.len()
        invariant
            i <= log@.len() <= u32::MAX,
            a == taps(log@.take(i as int), 0),
            b == taps(log@.take(i as int), 1),
            a + b <= i,
        decreases log@.len() - i,
    {
        assert(log@.take(i + 1).drop_last() =~= log@.take(i as int));
        match log[i].ev {
            Ev::Tap { player } => {
                if player % 2 == 0 {
                    a = a + 1;
                } else {
                    b = b + 1;
                }
            },
            Ev::Open => {},
        }
        i = i + 1;
    }
    assert(log@.take(i as int) =~= log@);
    [a, b]
}

/// One player's page.
pub struct Counter {
    pub log: Log<Ev>,
    /// 0 for the host, 1 for the joiner.
    pub player: u8,
}

/// What came of a message.
#[derive(Clone, Copy, PartialEq, Eq, Debug, Structural)]
pub enum Outcome {
    /// Junk, or a report that this page never asks for.
    Dropped,
    /// It would push the log past its cap.
    PastTheCap,
    /// Its events are in the log now.
    Merged,
}

/// What the page says.
pub open spec fn tally_text(log: Seq<Stamped<Ev>>, player: u8) -> Seq<char> {
    let mine = taps(log, player as int);
    let theirs = taps(log, 1 - player);
    "you "@ + decimal(mine) + " — "@ + decimal(theirs) + " them   ("@ + decimal(mine + theirs)
        + " total)"@
}

impl Counter {
    pub open spec fn wf(&self) -> bool {
        self.log.wf() && self.player < 2
    }

    pub fn new(now_ms: u64) -> (c: Self)
        ensures
            c.wf(),
            c.log@ == seq![Stamped { seq: 0u32, ev: Ev::Open, at_ms: now_ms }],
            c.log.clock() == 0,
            c.player == 0,
    {
        Counter { log: Log::open(Ev::Open, now_ms), player: 0 }
    }

    /// Takes the seat that a side of the connection implies.
    pub fn sit(&mut self, is_host: bool)
        requires
            old(self).wf(),
        ensures
            final(self).wf(),
            final(self).log == old(self).log,
            final(self).player == (if is_host {
                0u8
            } else {
                1u8
            }),
    {
        self.player = if is_host {
            0
        } else {
            1
        };
    }

    /// A tap on this device. Returns what to send.
    pub fn tap(&mut self, now_ms: u64) -> (m: Msg<Ev>)
        requires
            old(self).wf(),
        ensures
            final(self).wf(),
            final(self).player == old(self).player,
            ({
                let s = Stamped {
                    seq: next_seq(old(self).log.clock()),
                    ev: Ev::Tap { player: old(self).player },
                    at_ms: now_ms,
                };
                &&& final(self).log@ == inserted(old(self).log@, s)
                &&& final(self).log.clock() == s.seq
                &&& m@ == Message::Events(seq![s])
            }),
    {
        let player: u8 = self.player;
        let s: Stamped<Ev> = self.log.append(Ev::Tap { player }, now_ms);
        let mut events: Vec<Stamped<Ev>> = Vec::new();
        events.push(s);
        assert(events@ =~= seq![s]);
        Msg::Events(events)
    }

    /// The whole log, to hand over when the channel opens: on a fresh join
    /// that is the catch-up, and merging makes re-delivery harmless.
    pub fn handover(&self) -> (m: Msg<Ev>)
        ensures
            m@ == Message::Events(self.log@),
    {
        let all: &[Stamped<Ev>] = self.log.as_slice();
        let mut log: Vec<Stamped<Ev>> = Vec::new();
        let mut i: usize = 0;
        while i < all.len()
            invariant
                i <= all@.len(),
                log@ == all@.take(i as int),
            decreases all@.len() - i,
        {
            log.push(all[i]);
            i = i + 1;
            assert(log@ =~= all@.take(i as int));
        }
        assert(all@.take(i as int) =~= all@);
        Msg::Events(log)
    }

    /// Bytes from the peer: malformed or oversized input is dropped whole,
    /// never half-believed.
    pub fn remote(&mut self, bytes: &[u8]) -> (r: Outcome)
        requires
            old(self).wf(),
        ensures
            final(self).wf(),
            final(self).player == old(self).player,
            match parse_msg::<Ev>(bytes@) {
                Some(Message::Events(events)) => if old(self).log@.len() + events.len() > MAX_LOG {
                    r == Outcome::PastTheCap && final(self).log == old(self).log
                } else {
                    r == Outcome::Merged && final(self).log@ == merged(old(self).log@, events)
                },
                _ => r == Outcome::Dropped && final(self).log == old(self).log,
            },
    {
        match decode_msg::<Ev>(bytes) {
            Some(Msg::Events(events)) => {
                if overflows(self.log.len(), events.len(), MAX_LOG) {
                    Outcome::PastTheCap
                } else {
                    self.log.merge(events.as_slice());
                    Outcome::Merged
                }
            },
            _ => Outcome::Dropped,
        }
    }

    /// What the page says.
    pub fn text(&self) -> (s: String)
        requires
            self.wf(),
            self.log@.len() <= u32::MAX,
        ensures
            s@ == tally_text(self.log@, self.player),
    {
        let t: [u32; 2] = tallies(self.log.as_slice());
        let me: usize = self.player as usize;
        let mut s: String = String::new();
        s.append("you ");
        push_decimal(&mut s, t[me] as u64);
        s.append(" — ");
        push_decimal(&mut s, t[1 - me] as u64);
        s.append(" them   (");
        push_decimal(&mut s, t[0] as u64 + t[1] as u64);
        s.append(" total)");
        assert(s@ =~= tally_text(self.log@, self.player));
        s
    }
}

/// Logs that agree hold the same tallies.
pub proof fn law_agreeing_logs_tally_alike(a: Seq<Stamped<Ev>>, b: Seq<Stamped<Ev>>, side: int)
    requires
        agree(a, b),
    ensures
        taps(a, side) == taps(b, side),
    decreases a.len(),
{
    if a.len() > 0 {
        assert(same(a[a.len() - 1], b[a.len() - 1]));
        assert forall|i: int| 0 <= i < a.drop_last().len() implies same(
            #[trigger] a.drop_last()[i],
            b.drop_last()[i],
        ) by {
            assert(same(a[i], b[i]));
        }
        law_agreeing_logs_tally_alike(a.drop_last(), b.drop_last(), side);
    }
}

/// Both screens agree: two peers who have seen the same taps, in whatever
/// order, show the same tallies.
pub proof fn law_both_screens_agree(
    ours: Seq<Stamped<Ev>>,
    heard: Seq<Stamped<Ev>>,
    theirs: Seq<Stamped<Ev>>,
    told: Seq<Stamped<Ev>>,
    side: int,
)
    requires
        strictly(ours),
        strictly(theirs),
        forall|s: Stamped<Ev>|
            (#[trigger] holds(ours, s) || holds(heard, s)) <==> (holds(theirs, s) || holds(told, s)),
    ensures
        taps(merged(ours, heard), side) == taps(merged(theirs, told), side),
{
    law_peers_converge(ours, heard, theirs, told);
    law_agreeing_logs_tally_alike(merged(ours, heard), merged(theirs, told), side);
}

/// Where the taps of one side stand in a log.
pub open spec fn taps_at(log: Seq<Stamped<Ev>>, side: int) -> Set<int> {
    Set::new(
        |i: int|
            0 <= i < log.len() && log[i].ev is Tap && log[i].ev->player as int % 2 == side,
    )
}

/// A side's tally is how many taps of that side the log holds.
pub proof fn law_every_tap_counts_once(log: Seq<Stamped<Ev>>, side: int)
    ensures
        taps_at(log, side).finite(),
        taps(log, side) == taps_at(log, side).len(),
    decreases log.len(),
{
    if log.len() == 0 {
        assert(taps_at(log, side) =~= Set::empty());
    } else {
        let less = log.drop_last();
        law_every_tap_counts_once(less, side);
        if log.last().ev is Tap && log.last().ev->player as int % 2 == side {
            assert(taps_at(log, side) =~= taps_at(less, side).insert(log.len() - 1));
        } else {
            assert(taps_at(log, side) =~= taps_at(less, side));
        }
    }
}

/// One more tap adds one to the tally of the side that made it, and nothing to
/// the other's.
pub proof fn law_a_tap_adds_one(log: Seq<Stamped<Ev>>, s: Stamped<Ev>, player: u8)
    requires
        player < 2,
        s.ev == (Ev::Tap { player }),
    ensures
        taps(log.push(s), player as int) == taps(log, player as int) + 1,
        taps(log.push(s), 1 - player) == taps(log, 1 - player),
{
    assert(log.push(s).drop_last() =~= log);
}

/// A log opens before anybody taps, and taps are in the order of the players;
/// one byte opens it, and two make a tap of either player.
pub proof fn law_how_taps_are_ordered_and_written(a: u8, b: u8)
    ensures
        (Ev::Tap { player: a }).before(Ev::Tap { player: b }) == (a < b),
        Ev::Open.before(Ev::Tap { player: a }),
        !(Ev::Tap { player: a }).before(Ev::Open),
        !Ev::Open.before(Ev::Open),
        Ev::Open.bytes() == seq![0u8],
        (Ev::Tap { player: a }).bytes() == seq![1u8, a],
        Ev::Open.allowed(),
        (Ev::Tap { player: a }).allowed() <==> a == 0 || a == 1,
{
}

/// The page says my taps, then theirs, then both together.
pub proof fn law_what_the_page_says(log: Seq<Stamped<Ev>>, player: u8)
    requires
        player < 2,
    ensures
        ({
            let mine = taps_at(log, player as int).len();
            let theirs = taps_at(log, 1 - player).len();
            tally_text(log, player) == "you "@ + decimal(mine) + " — "@ + decimal(theirs)
                + " them   ("@ + decimal(mine + theirs) + " total)"@
        }),
{
    law_every_tap_counts_once(log, player as int);
    law_every_tap_counts_once(log, 1 - player);
}

} // verus!
