//! The rules.
use minesweeper::{Event, Game, Mode, Reveal, Status};

fn script(seed: u64) -> Vec<Event> {
    vec![
        Event::Start {
            seed,
            w: 9,
            h: 9,
            mines: 10,
            mode: Mode::Coop,
        },
        Event::Reveal {
            player: 0,
            x: 4,
            y: 4,
        },
        Event::Flag {
            player: 1,
            x: 0,
            y: 0,
        },
        Event::Reveal {
            player: 1,
            x: 8,
            y: 8,
        },
        Event::Flag {
            player: 0,
            x: 0,
            y: 0,
        }, // un-flag
    ]
}

#[test]
fn replay_is_deterministic() {
    let a = Game::replay(&script(7)).unwrap();
    let b = Game::replay(&script(7)).unwrap();
    assert_eq!(a.hash(), b.hash());
}

#[test]
fn replay_needs_a_start_event() {
    assert!(Game::replay(&[]).is_none());
    assert!(Game::replay(&[Event::Reveal {
        player: 0,
        x: 0,
        y: 0
    }])
    .is_none());
}

#[test]
fn hash_reacts_to_every_move() {
    let mut g = Game::new(7, 9, 9, 10, Mode::Coop);
    let mut seen = vec![g.hash()];
    for ev in &script(7)[1..] {
        g.apply(ev);
        seen.push(g.hash());
    }
    assert_ne!(seen[0], seen[1], "revealing changed nothing in the hash");
    assert_ne!(seen[1], seen[2], "flagging changed nothing in the hash");
}

#[test]
fn flag_then_unflag_restores_the_hash() {
    let mut g = Game::new(7, 9, 9, 10, Mode::Coop);
    let before = g.hash();
    g.apply(&Event::Flag {
        player: 0,
        x: 0,
        y: 0,
    });
    assert_ne!(before, g.hash(), "flagging is invisible to the hash");
    g.apply(&Event::Flag {
        player: 0,
        x: 0,
        y: 0,
    });
    assert_eq!(before, g.hash(), "un-flagging did not restore the state");
}

#[test]
fn out_of_bounds_events_are_ignored_not_fatal() {
    let mut g = Game::new(7, 9, 9, 10, Mode::Coop);
    let before = g.hash();
    g.apply(&Event::Reveal {
        player: 9,
        x: 200,
        y: 200,
    });
    assert_eq!(g.hash(), before);
}

#[test]
fn moves_after_the_game_ends_are_ignored() {
    let mut g = Game::new(7, 9, 9, 10, Mode::Coop);
    g.apply(&Event::Reveal {
        player: 0,
        x: 4,
        y: 4,
    });
    // Open every mine's neighbour-free path by brute force until we lose.
    let mine = (0..9u8)
        .flat_map(|y| (0..9u8).map(move |x| (x, y)))
        .find(|&(x, y)| g.board.get(x, y).mine)
        .unwrap();
    g.apply(&Event::Reveal {
        player: 0,
        x: mine.0,
        y: mine.1,
    });
    assert_eq!(g.status(), Status::Lost);

    let after_loss = g.hash();
    g.apply(&Event::Flag {
        player: 1,
        x: 0,
        y: 0,
    });
    assert_eq!(
        g.hash(),
        after_loss,
        "a finished game still accepted a move"
    );

    // ...but Start must still get through, or you can never play again.
    g.apply(&Event::Start {
        seed: 8,
        w: 9,
        h: 9,
        mines: 10,
        mode: Mode::Coop,
    });
    assert_eq!(
        g.status(),
        Status::Playing,
        "could not restart after losing"
    );
}

fn start() -> Event {
    Event::Start {
        seed: 11,
        w: 9,
        h: 9,
        mines: 10,
        mode: Mode::Coop,
    }
}

/// **The first reveal decides the whole board.** Mines are placed on the
/// first Reveal, using that cell as the safe zone — so two peers whose
/// first reveals differ do not merely disagree about one cell, they are
/// playing different games.
///
/// In practice the host ships its log on connect, so both sides share a
/// first reveal. The hazard is both peers opening their first cell before
/// either has heard from the other.
#[test]
fn the_first_reveal_decides_the_board() {
    let p = Event::Reveal {
        player: 0,
        x: 4,
        y: 4,
    };
    let q = Event::Reveal {
        player: 1,
        x: 7,
        y: 2,
    };
    let a = Game::replay(&[start(), p, q]).unwrap();
    let b = Game::replay(&[start(), q, p]).unwrap();
    assert_ne!(
        a.hash(),
        b.hash(),
        "if these agree, placement no longer depends on the first click"
    );
}

/// A losing move silences every move after it, so if one peer's ordering
/// puts the mine first and the other's puts it last, the boards differ.
#[test]
fn a_lost_game_makes_order_matter() {
    let opened = Event::Reveal {
        player: 0,
        x: 0,
        y: 0,
    };
    let base = Game::replay(&[start(), opened]).unwrap();

    let cells = || (0..9u8).flat_map(|y| (0..9u8).map(move |x| (x, y)));
    let (mx, my) = cells().find(|&(x, y)| base.board.get(x, y).mine).unwrap();
    let (sx, sy) = cells()
        .find(|&(x, y)| {
            let c = base.board.get(x, y);
            !c.mine && c.state == Reveal::Hidden
        })
        .unwrap();

    let boom = Event::Reveal {
        player: 0,
        x: mx,
        y: my,
    };
    let safe = Event::Reveal {
        player: 1,
        x: sx,
        y: sy,
    };

    let a = Game::replay(&[start(), opened, boom, safe]).unwrap();
    let b = Game::replay(&[start(), opened, safe, boom]).unwrap();
    assert_eq!(a.status(), Status::Lost);
    assert_eq!(b.status(), Status::Lost);
    assert_ne!(a.hash(), b.hash(), "the safe cell opened in only one order");
}

/// Flags are toggles, so applying both peers' flags in either order lands
/// in the same place.
#[test]
fn flags_in_either_order_agree() {
    let start = Event::Start {
        seed: 11,
        w: 9,
        h: 9,
        mines: 10,
        mode: Mode::Coop,
    };
    let p = Event::Flag {
        player: 0,
        x: 1,
        y: 1,
    };
    let q = Event::Flag {
        player: 1,
        x: 5,
        y: 5,
    };
    let a = Game::replay(&[start, p, q]).unwrap();
    let b = Game::replay(&[start, q, p]).unwrap();
    assert_eq!(a.hash(), b.hash());
}

/// ...but a reveal and a flag on the SAME cell do not commute, and this is
/// the one case that can genuinely desync two peers.
///
/// Reveal-then-flag: the cell opens, and the flag is ignored because it is
/// already Shown. Flag-then-reveal: the cell is Flagged, and `reveal` skips
/// anything that is not Hidden — so nothing opens at all.
///
/// Two peers clicking the same cell at the same moment, one revealing and
/// one flagging, each apply their own first. They end up with different
/// boards, which is why the log has one order.
#[test]
fn reveal_and_flag_on_one_cell_do_not_commute() {
    let start = Event::Start {
        seed: 11,
        w: 9,
        h: 9,
        mines: 10,
        mode: Mode::Coop,
    };
    let reveal = Event::Reveal {
        player: 0,
        x: 4,
        y: 4,
    };
    let flag = Event::Flag {
        player: 1,
        x: 4,
        y: 4,
    };
    let a = Game::replay(&[start, reveal, flag]).unwrap();
    let b = Game::replay(&[start, flag, reveal]).unwrap();
    assert_ne!(
        a.hash(),
        b.hash(),
        "a reveal and a flag on one cell came to the same board"
    );
}



fn mines_of(g: &Game) -> Vec<(u8, u8)> {
    (0..g.board.h)
        .flat_map(|y| (0..g.board.w).map(move |x| (x, y)))
        .filter(|&(x, y)| g.board.get(x, y).mine)
        .collect()
}

/// The whole point of a flag race: a mine is a prize, not an ending.
#[test]
fn a_mine_claims_instead_of_killing() {
    let mut g = Game::new(7, 9, 9, 10, Mode::FlagRace);
    g.apply(&Event::Reveal {
        player: 0,
        x: 4,
        y: 4,
    });
    let mine = mines_of(&g)[0];

    g.apply(&Event::Reveal {
        player: 1,
        x: mine.0,
        y: mine.1,
    });
    assert_eq!(g.board.get(mine.0, mine.1).state, Reveal::Flagged);
    assert_eq!(g.status(), Status::Playing, "a claim must not end the game");

    // The same click in co-op is death, which is the difference.
    let mut c = Game::new(7, 9, 9, 10, Mode::Coop);
    c.apply(&Event::Reveal {
        player: 0,
        x: 4,
        y: 4,
    });
    c.apply(&Event::Reveal {
        player: 1,
        x: mine.0,
        y: mine.1,
    });
    assert_eq!(c.status(), Status::Lost);
}

#[test]
fn a_claimed_mine_cannot_be_handed_back() {
    let mut g = Game::new(7, 9, 9, 10, Mode::FlagRace);
    g.apply(&Event::Reveal {
        player: 0,
        x: 4,
        y: 4,
    });
    let mine = mines_of(&g)[0];
    g.apply(&Event::Reveal {
        player: 0,
        x: mine.0,
        y: mine.1,
    });
    // Claiming again is a no-op rather than a toggle back to hidden.
    g.apply(&Event::Reveal {
        player: 1,
        x: mine.0,
        y: mine.1,
    });
    assert_eq!(g.board.get(mine.0, mine.1).state, Reveal::Flagged);
}

#[test]
fn the_race_ends_when_the_last_mine_is_claimed() {
    let mut g = Game::new(7, 9, 9, 10, Mode::FlagRace);
    g.apply(&Event::Reveal {
        player: 0,
        x: 4,
        y: 4,
    });
    let mines = mines_of(&g);
    for (i, &(x, y)) in mines.iter().enumerate() {
        assert_eq!(g.status(), Status::Playing, "ended early at mine {i}");
        g.apply(&Event::Reveal {
            player: (i % 2) as u8,
            x,
            y,
        });
    }
    assert_eq!(g.status(), Status::Won, "claiming every mine must end it");
}

/// Race is co-op's rules on a board each; the engine treats it the same
/// and the shell folds one log into two boards.
#[test]
fn race_keeps_the_ordinary_rules() {
    let mut g = Game::new(7, 9, 9, 10, Mode::Race);
    g.apply(&Event::Reveal {
        player: 0,
        x: 4,
        y: 4,
    });
    let mine = mines_of(&g)[0];
    g.apply(&Event::Reveal {
        player: 0,
        x: mine.0,
        y: mine.1,
    });
    assert_eq!(g.status(), Status::Lost);
}


fn layout(first: (u8, u8), mode: Mode) -> Vec<bool> {
    let mut g = Game::new(42, 9, 9, 10, mode);
    g.apply(&Event::Reveal {
        player: 0,
        x: first.0,
        y: first.1,
    });
    g.board.cells().iter().map(|c| c.mine).collect()
}

/// The two racers each open somewhere different, and must still be playing
/// the same board — otherwise it is two solitaire games with one clock.
#[test]
fn a_race_deals_both_players_the_same_mines() {
    assert_eq!(
        layout((0, 0), Mode::Race),
        layout((8, 8), Mode::Race),
        "the race layout moved with the first click"
    );
    // Co-op keeps first-click safety, so its layout does depend on it.
    assert_ne!(layout((0, 0), Mode::Coop), layout((8, 8), Mode::Coop));
}

#[test]
fn the_centre_is_the_safe_opening_in_a_race() {
    let mut g = Game::new(42, 9, 9, 10, Mode::Race);
    g.apply(&Event::Reveal {
        player: 0,
        x: 4,
        y: 4,
    });
    assert!(!g.board.get(4, 4).mine, "the agreed opening was a mine");
    assert_eq!(g.status(), Status::Playing);
}
