//! The grid.
use minesweeper::board::{Board, Reveal, Status};

#[test]
fn new_board_is_blank() {
    let b = Board::new(9, 9, 10);
    assert_eq!(b.cells().len(), 81);
    assert!(b.cells().iter().all(|c| c.state == Reveal::Hidden));
    assert!(b.cells().iter().all(|c| !c.mine && c.adj == 0));
}

#[test]
fn indexing_is_row_major_and_totalo() {
    let b = Board::new(4, 3, 1);
    assert_eq!(b.idx(0, 0), 0);
    assert_eq!(b.idx(3, 0), 3);
    assert_eq!(b.idx(0, 1), 4);
    assert_eq!(b.idx(3, 2), 11);
}

#[test]
fn bounds_reject_negatives_and_overflow() {
    let b = Board::new(4, 3, 1);
    assert!(b.in_bounds(0, 0));
    assert!(b.in_bounds(3, 2));
    assert!(!b.in_bounds(-1, 0));
    assert!(!b.in_bounds(4, 0));
    assert!(!b.in_bounds(0, 3));
}

#[test]
fn placement_is_deterministic() {
    let mut a = Board::new(16, 16, 40);
    let mut b = Board::new(16, 16, 40);
    a.place_mines(0xC0FFEE, (3, 3));
    b.place_mines(0xC0FFEE, (3, 3));
    let mines_of = |bd: &Board| bd.cells().iter().map(|c| c.mine).collect::<Vec<_>>();
    assert_eq!(mines_of(&a), mines_of(&b));
}

#[test]
fn placement_respects_count_and_safe_zone() {
    let mut b = Board::new(16, 16, 40);
    b.place_mines(1, (5, 5));
    assert_eq!(b.cells().iter().filter(|c| c.mine).count(), 40);
    for dy in -1..=1i32 {
        for dx in -1..=1i32 {
            let (x, y) = ((5 + dx) as u8, (5 + dy) as u8);
            assert!(!b.get(x, y).mine, "mine inside safe zone at {x},{y}");
        }
    }
}

#[test]
fn different_first_click_gives_different_board() {
    let mut a = Board::new(16, 16, 40);
    let mut b = Board::new(16, 16, 40);
    a.place_mines(99, (2, 2));
    b.place_mines(99, (12, 12));
    assert_ne!(
        a.cells().iter().map(|c| c.mine).collect::<Vec<_>>(),
        b.cells().iter().map(|c| c.mine).collect::<Vec<_>>()
    );
}

/// A wall of mines down column 2, splitting the board in two:
///
///     . 2 * ? ?      `.` zero adjacent    `*` mine
///     . 3 * ? ?      `2` `3` numbered     `?` unreachable from the left
///     . 3 * ? ?
///     . 3 * ? ?      click (0,0) and the left half opens; the right
///     . 2 * ? ?      half can never be reached through the wall.
fn fixture() -> Board {
    let mut b = Board::new(5, 5, 5);
    for y in 0..5u8 {
        let i = b.idx(2, y);
        b.cells_mut()[i].mine = true;
    }
    b.count_adjacent();
    b
}

/// Prints the board as ASCII. Not a test — a debugging tool. Call it from
/// any test with `--nocapture` when an assertion says something surprising.
#[allow(dead_code)]
fn dump(b: &Board, label: &str) {
    println!("--- {label} ---");
    for y in 0..b.h {
        let mut row = String::new();
        for x in 0..b.w {
            let c = b.get(x, y);
            row.push(match (c.mine, c.state) {
                (true, Reveal::Shown) => '@',
                (true, _) => '*',
                (_, Reveal::Flagged) => 'F',
                (_, Reveal::Shown) if c.adj == 0 => '.',
                (_, Reveal::Shown) => (b'0' + c.adj) as char,
                _ => '#',
            });
            row.push(' ');
        }
        println!("{row}");
    }
}

#[test]
fn flood_opens_region_and_stops_at_numbers() {
    let mut b = fixture();
    b.reveal_cell(0, 0);
    assert_eq!(b.get(0, 0).state, Reveal::Shown);
    assert_eq!(b.get(1, 0).state, Reveal::Shown, "numbered border opens");
    assert_eq!(b.get(2, 0).state, Reveal::Hidden, "mines never auto-open");
    assert_eq!(
        b.get(3, 0).state,
        Reveal::Hidden,
        "past the wall stays shut"
    );
}

#[test]
fn flood_never_crosses_a_flag() {
    let mut b = fixture();
    b.toggle_flag(1, 2);
    b.reveal_cell(0, 2);
    assert_eq!(
        b.get(1, 2).state,
        Reveal::Flagged,
        "flag survives the flood"
    );
    assert_eq!(b.get(0, 2).state, Reveal::Shown);
}

#[test]
fn revealing_a_number_opens_exactly_one_cell() {
    let mut b = fixture();
    b.reveal_cell(1, 0);
    let shown = b
        .cells()
        .iter()
        .filter(|c| c.state == Reveal::Shown)
        .count();
    assert_eq!(shown, 1);
}

#[test]
fn flagging_every_mine_does_not_win() {
    let mut b = fixture();
    for y in 0..5u8 {
        b.toggle_flag(2, y); // every mine on the board, correctly flagged
    }
    assert_eq!(b.status(), Status::Playing);
}

#[test]
fn opening_a_mine_loses_immediately() {
    let mut b = fixture();
    b.reveal_cell(2, 0);
    assert_eq!(b.status(), Status::Lost);
}

#[test]
fn clearing_every_safe_cell_wins() {
    let mut b = fixture();
    for y in 0..5u8 {
        for x in 0..5u8 {
            if !b.get(x, y).mine {
                b.reveal_cell(x, y);
            }
        }
    }
    assert_eq!(b.status(), Status::Won);
}
