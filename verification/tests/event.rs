//! Modes.
use minesweeper::event::Mode;

/// The picker is built from `ALL`, and the wire reads the same index back.
#[test]
fn every_mode_round_trips_its_own_index() {
    for (i, mode) in Mode::ALL.into_iter().enumerate() {
        assert_eq!(mode as u8 as usize, i, "{mode:?} is not at its own index");
        assert_eq!(Mode::from_u8(i as u8), Some(mode));
        assert!(!mode.label().is_empty());
    }
    assert_eq!(Mode::from_u8(Mode::ALL.len() as u8), None);
    assert_eq!(Mode::from_u8(255), None);
}

#[test]
fn the_labels_are_distinct() {
    let mut seen: Vec<&str> = Mode::ALL.iter().map(|m| m.label()).collect();
    seen.sort_unstable();
    let before = seen.len();
    seen.dedup();
    assert_eq!(seen.len(), before, "two modes share a label");
}
