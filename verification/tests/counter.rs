//! The shared tally.
use minesweeper::counter::{tallies, Ev};
use minesweeper::eventlog::{Log, Payload};

const TAG_TAP: u8 = 1;

#[test]
fn the_payload_round_trips_and_refuses_junk() {
    for ev in [Ev::Open, Ev::Tap { player: 1 }] {
        let mut v = Vec::new();
        ev.encode(&mut v);
        assert_eq!(Ev::decode(&v), Some((ev, v.len())));
    }
    assert_eq!(Ev::decode(&[9]), None);
    assert_eq!(Ev::decode(&[TAG_TAP]), None, "a tap needs its player");
    assert!(!Ev::Tap { player: 7 }.valid(), "a third seat is not a seat");

    // And two peers tapping at once agree on one tally.
    let mut ours = Log::open(Ev::Open, 0);
    let mine = ours.append(Ev::Tap { player: 0 }, 1);
    let mut theirs = Log::open(Ev::Open, 0);
    let their_tap = theirs.append(Ev::Tap { player: 1 }, 1);
    ours.merge(&[their_tap]);
    theirs.merge(&[mine]);
    assert_eq!(tallies(&ours), [1, 1]);
    assert_eq!(tallies(&ours), tallies(&theirs));
}
