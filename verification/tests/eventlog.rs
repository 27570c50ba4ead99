//! The replicated log.
use minesweeper::eventlog::{merge, overflows, sanitised, Log, Stamped};
use minesweeper::framing::{decode_log, decode_msg, encode_log, encode_msg, Msg, STAMP_LEN, STATE_LEN};
use minesweeper::tick::Tick;

fn at(seq: u32, ev: u8, at_ms: u64) -> Stamped<Tick> {
    Stamped {
        seq,
        ev: Tick(ev),
        at_ms,
    }
}

#[test]
fn peers_converge_whatever_order_events_arrive_in() {
    let (a, b) = (at(1, 10, 0), at(1, 20, 0));
    let mut ours = vec![at(0, 1, 0), a];
    merge(&mut ours, &[b]);
    let mut theirs = vec![at(0, 1, 0), b];
    merge(&mut theirs, &[a]);
    assert_eq!(ours, theirs);
    assert!(ours.windows(2).all(|w| w[0] < w[1]));
}

/// A peer can echo one of our own events back with a fresh timestamp. If
/// the timestamp were part of an event's identity, that echo would land
/// as a second event — with both peers agreeing on the corrupted state,
/// so no desync check would ever fire.
#[test]
fn an_event_re_stamped_with_a_new_time_is_not_a_second_event() {
    let mut log = vec![at(0, 1, 0), at(1, 5, 1_000)];
    assert!(!merge(&mut log, &[at(1, 5, 9_999)]));
    assert_eq!(log.len(), 2);
    assert_eq!(log[1].at_ms, 1_000, "the original timestamp was replaced");
}

#[test]
fn the_log_owns_its_clock() {
    let mut log = Log::open(Tick(1), 0);
    let s = log.append(Tick(2), 10);
    assert_eq!(s.seq, 1);

    // Hearing a peer far ahead pulls the clock up...
    log.merge(&[at(7, 3, 20)]);
    assert_eq!(log.append(Tick(4), 30).seq, 8);
    // ...and a saturated clock cannot unsort the log.
    log.merge(&[at(u32::MAX, 5, 40)]);
    log.append(Tick(6), 50);
    assert!(log.windows(2).all(|w| w[0] < w[1]));

    // Adoption resets the events but never lets the clock fall behind.
    log.adopt(vec![at(0, 1, 0), at(3, 9, 5)]);
    assert!(log.append(Tick(7), 60).seq > 3);
}

#[test]
fn sanitised_rebuilds_only_a_log_we_could_have_built() {
    let opens = |p: &Tick| p.0 == 1;
    let tidy = sanitised(vec![at(2, 5, 20), at(0, 1, 0), at(1, 3, 10), at(2, 5, 99)], 10, opens)
        .expect("a real log was refused");
    assert_eq!(tidy.len(), 3, "the duplicate survived");
    assert!(tidy.windows(2).all(|w| w[0] < w[1]));

    assert!(sanitised::<Tick>(vec![], 10, opens).is_none());
    assert!(sanitised(vec![at(1, 3, 0)], 10, opens).is_none(), "no opening");
    assert!(sanitised(vec![at(0, 1, 0); 11], 10, opens).is_none(), "past the cap");
}

#[test]
fn the_cap_refuses_what_would_overflow_it() {
    assert!(!overflows(0, 10, 10));
    assert!(overflows(0, 11, 10));
    assert!(overflows(10, 1, 10));
    assert!(overflows(usize::MAX, usize::MAX, 10));
}

#[test]
fn framing_round_trips_and_rejects_partials() {
    let log = vec![at(0, 1, 7), at(1, 2, 8)];
    let bytes = encode_log(&log);
    assert_eq!(decode_log::<Tick>(&bytes), Some(log.clone()));
    // Cutting inside the second record: the first still decodes, the log
    // as a whole must not.
    for cut in STAMP_LEN + 2..bytes.len() {
        assert!(decode_log::<Tick>(&bytes[..cut]).is_none(), "accepted {cut} bytes");
    }

    let m = Msg::Events(log);
    assert_eq!(decode_msg::<Tick>(&encode_msg(&m)), Some(m));
    let s = Msg::State { count: 7, hash: 0x0102_0304_0506_0708 };
    let sb = encode_msg::<Tick>(&s);
    assert_eq!(sb.len(), STATE_LEN);
    assert_eq!(decode_msg::<Tick>(&sb), Some(s));
    assert!(decode_msg::<Tick>(&sb[..STATE_LEN - 1]).is_none());
    assert!(decode_msg::<Tick>(&[0x7F]).is_none());
}

/// One invalid event poisons its whole message: half a log is how peers
/// diverge without anyone noticing.
#[test]
fn an_invalid_event_drops_the_whole_message() {
    let good = Msg::Events(vec![at(0, 1, 0)]);
    assert!(decode_msg::<Tick>(&encode_msg(&good)).is_some());
    let bad = Msg::Events(vec![at(0, 1, 0), at(1, 0xFF, 0)]);
    assert_eq!(decode_msg::<Tick>(&encode_msg(&bad)), None);
}
