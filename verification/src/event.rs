//! The moves of a game, and the game they are moves in.
use vstd::prelude::*;

verus! {

/// Which game the two of them are playing. It rides on `Start` because it has
/// to be agreed before the first move, and `Start` is the one event both peers
/// are guaranteed to share.
#[derive(Clone, Copy, PartialEq, Eq, PartialOrd, Ord, Debug, Structural)]
pub enum Mode {
    /// One board, cleared together. Hitting a mine ends it for both.
    Coop,
    /// One board, survived together, but the flags are the score.
    FlagRace,
    /// Same seed, a board each, first to clear theirs wins.
    Race,
}

impl Default for Mode {
    fn default() -> (m: Self)
        ensures
            m == Mode::Coop,
    {
        Mode::Coop
    }
}

impl Mode {
    /// Every mode, in wire order. The picker is built from this, so the list
    /// the player sees and the byte on the wire cannot drift apart.
    pub const ALL: [Mode; 3] = [Mode::Coop, Mode::FlagRace, Mode::Race];

    /// The byte a mode travels as.
    pub open spec fn code(self) -> u8 {
        match self {
            Mode::Coop => 0,
            Mode::FlagRace => 1,
            Mode::Race => 2,
        }
    }

    pub fn to_u8(self) -> (v: u8)
        ensures
            v == self.code(),
    {
        match self {
            Mode::Coop => 0,
            Mode::FlagRace => 1,
            Mode::Race => 2,
        }
    }

    /// A mode we do not know is a peer from the future. Refusing the event is
    /// better than silently playing a different game.
    pub fn from_u8(v: u8) -> (r: Option<Mode>)
        ensures
            match r {
                Some(m) => m.code() == v,
                None => v >= 3,
            },
    {
        match v {
            0 => Some(Mode::Coop),
            1 => Some(Mode::FlagRace),
            2 => Some(Mode::Race),
            _ => None,
        }
    }

    /// What the picker calls it.
    pub open spec fn name(self) -> Seq<char> {
        match self {
            Mode::Coop => "Co-op — clear it together"@,
            Mode::FlagRace => "Flag duel — survive together, best flags win"@,
            Mode::Race => "Race — same deal, a board each"@,
        }
    }

    /// What the picker calls it. Exhaustive on purpose: a new mode fails to
    /// compile here rather than quietly appearing as an unnamed option.
    pub fn label(self) -> (s: &'static str)
        ensures
            s@ == self.name(),
    {
        match self {
            Mode::Coop => "Co-op — clear it together",
            Mode::FlagRace => "Flag duel — survive together, best flags win",
            Mode::Race => "Race — same deal, a board each",
        }
    }
}

/// A move. The event log is the game; board state is what you get by
/// folding these over a fresh board.
///
/// `player` is who made the move. The rules ignore it in co-op; the renderer
/// uses it to say who did what, the other modes score by it, and it is part of
/// the ordering key.
#[derive(Clone, Copy, PartialEq, Eq, PartialOrd, Ord, Debug, Structural)]
pub enum Event {
    Start { seed: u64, w: u8, h: u8, mines: u16, mode: Mode },
    Reveal { player: u8, x: u8, y: u8 },
    Flag { player: u8, x: u8, y: u8 },
}

/// A move with its place in the total order. Two peers moving at the same
/// time pick the same `seq`, so the order of the events breaks the tie —
/// variant, then player, then coordinates.
pub type Stamped = crate::eventlog::Stamped<Event>;

impl Event {
    /// The widest board this game deals. A peer can put any `u8` in `w`/`h`,
    /// so the limit is part of what "a legal event" means rather than a UI
    /// rule.
    pub const MAX_W: u8 = 30;

    pub const MAX_H: u8 = 16;

    /// The first click and its neighbours are never mined, so a board has to
    /// hold that many cells over and above its mines.
    pub const SAFE_ZONE: usize = 9;

    /// Seats at the table. Anything else splits a race: an event that is "not
    /// me" on both peers lands on the opponent's board on both peers.
    pub const SEATS: u8 = 2;

    /// The event describes a game that can actually be played.
    pub open spec fn playable(self) -> bool {
        match self {
            Event::Start { w, h, mines, .. } => {
                &&& 1 <= w <= 30
                &&& 1 <= h <= 16
                &&& mines + 9 <= w * h
            },
            Event::Reveal { player, .. } => player < 2,
            Event::Flag { player, .. } => player < 2,
        }
    }

    /// Whether this event describes a game that can actually be played.
    ///
    /// Every field arrives from a peer that may be buggy or hostile, and the
    /// engine is folded over these without further checks — a board with more
    /// mines than cells, or no cells at all, is refused here rather than
    /// trapped over later.
    pub fn is_playable(&self) -> (b: bool)
        ensures
            b == self.playable(),
    {
        match *self {
            Event::Start { w, h, mines, .. } => {
                proof {
                    assert(0 <= w * h <= 65025) by (nonlinear_arith)
                        requires
                            0 <= w <= 255,
                            0 <= h <= 255,
                    ;
                }
                w >= 1 && h >= 1 && w <= Self::MAX_W && h <= Self::MAX_H && mines as usize
                    + Self::SAFE_ZONE <= w as usize * h as usize
            },
            Event::Reveal { player, .. } => player < Self::SEATS,
            Event::Flag { player, .. } => player < Self::SEATS,
        }
    }
}

/// Every mode is at its own index, and reads back from its own byte; no two
/// share a byte.
pub proof fn law_a_mode_is_its_index(a: Mode, b: Mode)
    ensures
        a.code() < 3,
        Mode::ALL[a.code() as int] == a,
        a.code() == b.code() ==> a == b,
{
}

/// No two modes share a label.
pub proof fn law_the_labels_are_distinct(a: Mode, b: Mode)
    ensures
        a.name().len() > 0,
        a != b ==> a.name() != b.name(),
{
    reveal_strlit("Co-op — clear it together");
    reveal_strlit("Flag duel — survive together, best flags win");
    reveal_strlit("Race — same deal, a board each");
    assert("Co-op — clear it together"@[0] == 'C');
    assert("Flag duel — survive together, best flags win"@[0] == 'F');
    assert("Race — same deal, a board each"@[0] == 'R');
}

/// What can be played: a deal of at most thirty by sixteen cells, at least one
/// each way, which leaves nine cells free of mines, and moves of the two seats.
pub proof fn law_what_can_be_played(ev: Event)
    ensures
        ev matches Event::Start { w, h, mines, .. } ==> (ev.playable() <==> 0 < w && w <= 30 && 0
            < h && h <= 16 && mines <= w * h - 9),
        ev matches Event::Reveal { player, .. } ==> (ev.playable() <==> player == 0 || player
            == 1),
        ev matches Event::Flag { player, .. } ==> (ev.playable() <==> player == 0 || player == 1),
{
}

} // verus!
