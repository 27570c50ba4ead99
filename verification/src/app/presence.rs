//! Who touched which cell, and where each player last played.
use vstd::prelude::*;

use std::collections::HashMap;

use crate::event::{Event, Stamped};

verus! {

/// Who last touched each cell.
pub struct Owners {
    cells: HashMap<u16, u8>,
}

/// One number for each place: the column, then the row.
pub open spec fn packed(at: (u8, u8)) -> u16 {
    (at.0 * 256 + at.1) as u16
}

impl View for Owners {
    type V = Map<(u8, u8), u8>;

    closed spec fn view(&self) -> Map<(u8, u8), u8> {
        Map::new(
            |at: (u8, u8)| self.cells@.contains_key(packed(at)),
            |at: (u8, u8)| self.cells@[packed(at)],
        )
    }
}

fn pack(at: &(u8, u8)) -> (k: u16)
    ensures
        k == packed(*at),
{
    at.0 as u16 * 256 + at.1 as u16
}

impl Owners {
    pub fn new() -> (o: Self)
        ensures
            o@ == Map::<(u8, u8), u8>::empty(),
    {
        let o = Owners { cells: HashMap::new() };
        assert(o@ =~= Map::<(u8, u8), u8>::empty());
        o
    }

    pub fn insert(&mut self, at: (u8, u8), player: u8)
        ensures
            final(self)@ == old(self)@.insert(at, player),
    {
        self.cells.insert(pack(&at), player);
        assert(self@ =~= old(self)@.insert(at, player));
    }

    pub fn get(&self, at: &(u8, u8)) -> (r: Option<&u8>)
        ensures
            match r {
                Some(p) => self@.contains_key(*at) && self@[*at] == *p,
                None => !self@.contains_key(*at),
            },
    {
        self.cells.get(&pack(at))
    }

    pub fn is_empty(&self) -> (b: bool)
        ensures
            b == (self@ == Map::<(u8, u8), u8>::empty()),
    {
        let b: bool = self.cells.is_empty();
        proof {
            if b {
                assert(self@ =~= Map::<(u8, u8), u8>::empty());
            } else {
                let k = choose|k: u16| self.cells@.contains_key(k);
                assert(self.cells@.contains_key(k)) by {
                    if forall|k: u16| !self.cells@.contains_key(k) {
                        assert(self.cells@ =~= Map::<u16, u8>::empty());
                    }
                }
                let at = ((k / 256) as u8, (k % 256) as u8);
                assert(packed(at) == k);
                assert(self@.contains_key(at));
            }
        }
        b
    }
}

/// Derived from the log on every draw instead of being stored, so it cannot
/// drift from the board — the log is already the source of truth.
pub struct Presence {
    pub owner: Owners,
    pub last: [Option<(u8, u8)>; 2],
}

impl Default for Presence {
    fn default() -> (p: Self)
        ensures
            p.owner@ == Map::<(u8, u8), u8>::empty(),
            p.last@ == seq![None::<(u8, u8)>, None],
    {
        let p = Presence { owner: Owners::new(), last: [None, None] };
        assert(p.last@ =~= seq![None::<(u8, u8)>, None]);
        p
    }
}

/// Where and by whom a move was made; a deal has no place.
pub open spec fn spot(ev: Event) -> Option<(u8, (u8, u8))> {
    match ev {
        Event::Start { .. } => None,
        Event::Reveal { player, x, y } => Some((player, (x, y))),
        Event::Flag { player, x, y } => Some((player, (x, y))),
    }
}

/// Who last touched each cell since the last deal.
pub open spec fn owners(log: Seq<Stamped>) -> Map<(u8, u8), u8>
    decreases log.len(),
{
    if log.len() == 0 {
        Map::empty()
    } else {
        match spot(log.last().ev) {
            None => Map::empty(),
            Some((player, at)) => owners(log.drop_last()).insert(at, player),
        }
    }
}

/// Where `player` last played since the last deal.
pub open spec fn last_played(log: Seq<Stamped>, player: u8) -> Option<(u8, u8)>
    decreases log.len(),
{
    if log.len() == 0 {
        None
    } else {
        match spot(log.last().ev) {
            None => None,
            Some((p, at)) => if p == player {
                Some(at)
            } else {
                last_played(log.drop_last(), player)
            },
        }
    }
}

pub fn presence(log: &[Stamped]) -> (p: Presence)
    ensures
        p.owner@ == owners(log@),
        p.last@ == seq![last_played(log@, 0), last_played(log@, 1)],
{
    let mut p = Presence::default();
    let mut i: usize = 0;
    assert(log@.take(0) =~= seq![]);
    while i < log.len()
        invariant
            i <= log@.len(),
            p.owner@ == owners(log@.take(i as int)),
            p.last@ == seq![
                last_played(log@.take(i as int), 0),
                last_played(log@.take(i as int), 1),
            ],
        decreases log@.len() - i,
    {
        assert(log@.take(i + 1).drop_last() =~= log@.take(i as int));
        match log[i].ev {
            // A new board wipes what came before it.
            Event::Start { .. } => {
                p = Presence::default();
            },
            Event::Reveal { player, x, y } => {
                p.owner.insert((x, y), player);
                if player < 2 {
                    p.last[player as usize] = Some((x, y));
                }
            },
            Event::Flag { player, x, y } => {
                p.owner.insert((x, y), player);
                if player < 2 {
                    p.last[player as usize] = Some((x, y));
                }
            },
        }
        i = i + 1;
        assert(p.last@ =~= seq![
            last_played(log@.take(i as int), 0),
            last_played(log@.take(i as int), 1),
        ]);
    }
    assert(log@.take(i as int) =~= log@);
    p
}

} // verus!
