//! One player's page.
use minesweeper::app::presence::presence;
use minesweeper::app::{
    clock_window, is_desync, is_foreign_start, mines_left, opens, progress, seat, seat_in,
    theirs_survives, verdict, LEVELS, MAX_LOG,
};
use minesweeper::eventlog::merge;
use minesweeper::board::Status::{Lost, Playing, Won};
use minesweeper::{race_fold, Board, Event, Game, Mode, Stamped};

#[test]
fn flags_left_counts_down_and_can_go_negative() {
    let mut g = Game::new(1, 9, 9, 10, Mode::Coop);
    assert_eq!(mines_left(&g.board), 10);

    // Eleven flags: a full row of nine, then two on the next row.
    for (x, y) in (0..9).map(|x| (x, 0)).chain((0..2).map(|x| (x, 1))) {
        g.apply(&Event::Flag { player: 0, x, y });
    }
    // Eleven flags on a ten-mine board: the counter is flags, not mines.
    assert_eq!(mines_left(&g.board), -1);
}

/// `at_ms` follows `seq` unless a test cares about the clock, in which
/// case it uses `at`.
fn stamp(seq: u32, ev: Event) -> Stamped {
    at(seq, ev, seq as u64)
}

fn at(seq: u32, ev: Event, at_ms: u64) -> Stamped {
    Stamped { seq, ev, at_ms }
}

fn start(seed: u64) -> Stamped {
    stamp(
        0,
        Event::Start {
            seed,
            w: 9,
            h: 9,
            mines: 10,
            mode: Mode::Coop,
        },
    )
}

#[test]
fn presence_attributes_cells_and_remembers_each_last_move() {
    let log = [
        start(1),
        stamp(
            1,
            Event::Flag {
                player: 0,
                x: 1,
                y: 1,
            },
        ),
        stamp(
            2,
            Event::Flag {
                player: 1,
                x: 2,
                y: 2,
            },
        ),
        // Player 1 takes over a cell player 0 had.
        stamp(
            3,
            Event::Reveal {
                player: 1,
                x: 1,
                y: 1,
            },
        ),
    ];
    let p = presence(&log);
    assert_eq!(p.owner.get(&(1, 1)), Some(&1));
    assert_eq!(p.owner.get(&(2, 2)), Some(&1));
    assert_eq!(p.last, [Some((1, 1)), Some((1, 1))]);

    // A restart mid-log wipes everything before it.
    let restarted = presence(&[log[1], start(2)]);
    assert!(restarted.owner.is_empty());
    assert_eq!(restarted.last, [None, None]);
}

/// Two peers who each make a move before hearing the other's end up with the
/// same board, even where it is the opening move that decides the layout.
#[test]
fn peers_converge_whatever_order_the_moves_arrive_in() {
    let seed = 0x5EED;
    let mine = stamp(
        1,
        Event::Reveal {
            player: 0,
            x: 0,
            y: 0,
        },
    );
    let theirs = stamp(
        1,
        Event::Reveal {
            player: 1,
            x: 8,
            y: 8,
        },
    );

    // Us: our move, then theirs arrives. Them: the mirror image.
    let mut ours = vec![start(seed), mine];
    merge(&mut ours, &[theirs]);
    let mut peer = vec![start(seed), theirs];
    merge(&mut peer, &[mine]);

    assert_eq!(ours, peer, "the logs must be the same sequence");
    let fold = |log: &[Stamped]| {
        Game::replay(&log.iter().map(|s| s.ev).collect::<Vec<_>>())
            .unwrap()
            .hash()
    };
    assert_eq!(fold(&ours), fold(&peer));
}

/// Reconnect: each side played on while the channel was down, then they
/// swap whole logs. Nobody has to work out which events are missing.
#[test]
fn swapping_whole_logs_catches_both_sides_up() {
    let flag = |seq, player, x| stamp(seq, Event::Flag { player, x, y: 0 });
    let mut ours = vec![start(7), flag(1, 0, 1), flag(3, 0, 2)];
    let mut theirs = vec![start(7), flag(2, 1, 5)];

    let (ours_before, theirs_before) = (ours.clone(), theirs.clone());
    assert!(merge(&mut ours, &theirs_before));
    assert!(merge(&mut theirs, &ours_before));

    assert_eq!(ours, theirs);
    assert_eq!(ours.len(), 4, "three moves and the Start");
    // And the seq order, not arrival order, is what survives.
    assert!(ours.windows(2).all(|w| w[0] < w[1]));
}

/// The clock runs for the board in front of you, not for the log — and it
/// stops at the move that ended the game, not at whatever arrived after.
#[test]
fn the_clock_is_read_from_the_log() {
    let reveal = at(
        1,
        Event::Reveal {
            player: 0,
            x: 1,
            y: 1,
        },
        10_000,
    );
    let ending = at(
        2,
        Event::Flag {
            player: 1,
            x: 5,
            y: 5,
        },
        42_000,
    );
    // A move made by a peer who had not yet heard the bad news.
    let straggler = at(
        3,
        Event::Flag {
            player: 1,
            x: 6,
            y: 6,
        },
        99_000,
    );

    // Nothing opened yet: stopped, and no start to count from.
    assert_eq!(clock_window(&[start(1)], None), (None, None));
    // Running: it began at the first reveal and has no end.
    assert_eq!(
        clock_window(&[start(1), reveal, ending], None),
        (Some(10_000), None)
    );
    // Over: the clock stops at the move that ended it — 32 seconds of
    // game — however many stragglers land behind it.
    assert_eq!(
        clock_window(&[start(1), reveal, ending, straggler], Some(42_000)),
        (Some(10_000), Some(42_000))
    );
    // New game: the old reveal is still in the log and must not count.
    assert_eq!(
        clock_window(&[start(1), reveal, at(3, START2.ev, 99_000)], None),
        (None, None)
    );
}

const START2: Stamped = Stamped {
    seq: 3,
    ev: Event::Start {
        seed: 2,
        w: 9,
        h: 9,
        mines: 10,
        mode: Mode::Coop,
    },
    at_ms: 0,
};

/// A restart is a move, not a new game being handed over. Merging it is
/// what keeps both logs the same length — and the length is what decides
/// whether the two hashes are compared at all.
#[test]
fn a_restart_is_a_move_not_a_whole_log() {
    let handshake = start(1); // seq 0: the opening of somebody's game
    let restart = at(
        4,
        Event::Start {
            seed: 99,
            w: 16,
            h: 16,
            mines: 40,
            mode: Mode::Coop,
        },
        5_000,
    );
    let ours = Some(&handshake);
    assert!(
        !is_foreign_start(&handshake, ours),
        "our own game is not foreign"
    );
    assert!(!is_foreign_start(&restart, ours), "a restart is a move");
    assert!(
        is_foreign_start(&start(2), ours),
        "somebody else's deal is foreign"
    );

    // And merging it leaves both sides holding the same number of events.
    let mut ours = vec![
        handshake,
        stamp(
            1,
            Event::Reveal {
                player: 0,
                x: 1,
                y: 1,
            },
        ),
    ];
    let mut theirs = ours.clone();
    merge(&mut ours, &[restart]);
    merge(&mut theirs, &[restart]);
    assert_eq!(ours.len(), 3);
    assert_eq!(ours, theirs);
}

/// Two different moves that share a seq are still two moves.
#[test]
fn the_same_seq_from_two_players_keeps_both_moves() {
    let mine = stamp(
        1,
        Event::Reveal {
            player: 0,
            x: 1,
            y: 1,
        },
    );
    let theirs = stamp(
        1,
        Event::Reveal {
            player: 1,
            x: 2,
            y: 2,
        },
    );
    let mut log = vec![start(1), mine];
    assert!(merge(&mut log, &[theirs]));
    assert_eq!(log.len(), 3);
    assert!(
        log.windows(2).all(|w| w[0] < w[1]),
        "the log came back unsorted"
    );
}

/// A board that claims more mines than it has cells is a peer's invention,
/// not a crash.
#[test]
fn progress_survives_a_board_with_more_mines_than_cells() {
    let b = Board::new(4, 4, 500);
    assert_eq!(progress(&b), (0, 0));
}

/// The opening predicate handed to `minesweeper::eventlog::sanitised`: only a deal
/// opens a game, so a log that leads with a move is refused wholesale.
#[test]
fn only_a_deal_can_open_an_adopted_log() {
    let mv = at(
        1,
        Event::Reveal {
            player: 1,
            x: 2,
            y: 2,
        },
        10,
    );
    assert!(minesweeper::eventlog::sanitised(vec![start(1), mv], MAX_LOG, opens).is_some());
    assert!(
        minesweeper::eventlog::sanitised(vec![mv], MAX_LOG, opens).is_none(),
        "a log with no deal was accepted"
    );
}

/// Every difficulty has to survive the wire. Expert sits exactly on both
/// dimension limits, so shrinking a bound — or adding a bigger level —
/// would have the peer silently drop every message containing that deal,
/// with no error and no DESYNC, because the counts would never match.
#[test]
fn every_difficulty_is_an_event_a_peer_will_accept() {
    for (w, h, mines, _) in LEVELS {
        let deal = Event::Start {
            seed: 1,
            w,
            h,
            mines,
            mode: Mode::Coop,
        };
        assert!(
            deal.is_playable(),
            "{w}x{h} with {mines} mines is unplayable"
        );
    }
}

/// Seats must survive a reconnect. After a drop either peer may host, and
/// a player who changed seat would take their own past moves with them:
/// in a race their board and the opponent's swap, in a flag race the two
/// scores do. Nothing else in the protocol would notice — the logs stay
/// identical, so the hashes agree while the two screens disagree.
#[test]
fn a_player_keeps_their_seat_across_a_role_reversal() {
    let played_by = |p: u8| {
        vec![
            start(1),
            stamp(
                1,
                Event::Reveal {
                    player: p,
                    x: 1,
                    y: 1,
                },
            ),
        ]
    };

    // The host drops and comes back as the joiner: still player 0.
    assert_eq!(seat(0, false, &played_by(0)), 0);
    // The joiner hosts the reconnect: still player 1.
    assert_eq!(seat(1, true, &played_by(1)), 1);
    // Somebody with nothing at stake takes the seat the connection implies.
    assert_eq!(seat(0, false, &[start(1)]), 1);
    assert_eq!(seat(1, true, &[start(1)]), 0);
    // A deal alone is nobody's move, whoever dealt it.
    assert_eq!(seat(1, false, &played_by(0)), 1);
}

/// The consequence the seat rule exists to prevent, spelled out: flipping
/// `me` swaps the two boards wholesale.
#[test]
fn a_race_folded_from_the_other_seat_swaps_the_boards() {
    let deal = at(
        0,
        Event::Start {
            seed: 5,
            w: 9,
            h: 9,
            mines: 10,
            mode: Mode::Race,
        },
        0,
    );
    let log = [
        deal,
        stamp(
            1,
            Event::Reveal {
                player: 0,
                x: 4,
                y: 4,
            },
        ),
        stamp(
            2,
            Event::Reveal {
                player: 1,
                x: 0,
                y: 0,
            },
        ),
    ];
    let events: Vec<Event> = log.iter().map(|s| s.ev).collect();

    let (mine0, theirs0, w0, _) = race_fold(&events, 0);
    let (mine1, theirs1, w1, _) = race_fold(&events, 1);
    assert_eq!(
        mine0.hash(),
        theirs1.hash(),
        "my board is not their 'theirs'"
    );
    assert_eq!(theirs0.hash(), mine1.hash());
    assert_eq!(w0, w1, "the two peers named different winners");
}

/// Whose game survives cannot depend on who pressed Host, or a newcomer
/// hosting a reconnect wipes the game that was already in progress.
#[test]
fn the_game_with_moves_in_it_survives_a_meeting() {
    let played = vec![
        start(1),
        stamp(
            1,
            Event::Reveal {
                player: 0,
                x: 1,
                y: 1,
            },
        ),
    ];
    let fresh = vec![start(2)];

    assert!(
        theirs_survives(&fresh, &played),
        "an untouched deal outranked a game"
    );
    assert!(
        !theirs_survives(&played, &fresh),
        "a game yielded to an untouched deal"
    );
    // Both sides must reach the same verdict about the same pair.
    assert_ne!(
        theirs_survives(&played, &fresh),
        theirs_survives(&fresh, &played)
    );
    // Two untouched deals still resolve, the same way for both peers.
    assert_ne!(
        theirs_survives(&[start(1)], &[start(2)]),
        theirs_survives(&[start(2)], &[start(1)])
    );

    // Taking on their game means taking the seat their moves left free.
    assert_eq!(seat_in(&played, true), 1);
    assert_eq!(seat_in(&fresh, true), 0);
    assert_eq!(seat_in(&fresh, false), 1);
}

/// The loudest failure path there is.
#[test]
fn a_desync_is_only_called_at_the_same_point_in_the_log() {
    // Same length, different boards: this is the real thing.
    assert!(is_desync(3, 0xAAAA, 3, 0xBBBB));
    // Same length, same board: silence.
    assert!(!is_desync(3, 0xAAAA, 3, 0xAAAA));
    // Behind is not broken — the counts differ constantly in normal play.
    assert!(!is_desync(2, 0xAAAA, 3, 0xBBBB));
    assert!(!is_desync(9, 0xAAAA, 3, 0xBBBB));
    // A count no log could reach must not panic on the cast.
    assert!(!is_desync(u32::MAX, 0xAAAA, 3, 0xBBBB));
}

/// Every way a game can end, alone and with somebody else.
#[test]
fn every_ending_says_the_right_thing() {
    let (red, blue) = (0, 1);

    // Co-op: the board decides, and an unfinished game says nothing.
    let coop = |st| verdict(Mode::Coop, st, None, red, [0, 0], true, None).0;
    assert_eq!(coop(Playing), "");
    assert!(coop(Won).starts_with("YOU WIN"));
    assert!(coop(Lost).starts_with("BOOM"));

    // Flag duel, survived: the net flag score decides, from the reader's
    // own side — and it can be negative, wrong flags being -1.
    let score = |me, s: [i32; 2]| verdict(Mode::FlagRace, Won, None, me, s, false, None).0;
    assert!(score(red, [7, 3]).starts_with("YOU WIN 7–3"));
    assert!(score(blue, [7, 3]).starts_with("YOU LOSE 3–7"));
    assert!(score(red, [5, 5]).starts_with("A DRAW 5–5"));
    assert!(score(red, [-2, 1]).starts_with("YOU LOSE -2–1"));
    // Alone there is nobody to beat, but the score is still yours.
    assert!(
        verdict(Mode::FlagRace, Won, None, blue, [3, 7], true, None)
            .0
            .starts_with("cleared — flag score 7")
    );

    // Flag duel, blown up: both lose, and the clicker is named.
    let boom = |me, ender| verdict(Mode::FlagRace, Lost, None, me, [9, 0], false, ender);
    assert!(boom(red, Some(red)).0.starts_with("BOOM — you set it off"));
    assert!(
        boom(red, Some(blue))
            .0
            .starts_with("BOOM — they set it off")
    );
    // Nobody wins, however far ahead the scoreboard was.
    assert_eq!(boom(red, Some(blue)).1, "lose");
    assert_eq!(boom(blue, Some(red)).1, "lose");
    assert!(
        verdict(Mode::FlagRace, Lost, None, red, [0, 0], true, Some(red))
            .0
            .starts_with("BOOM — press"),
        "solo has nobody to blame"
    );

    // Race: the verdict decides, and losing has two flavours.
    let race = |w, st, solo| verdict(Mode::Race, st, w, red, [0, 0], solo, None).0;
    assert!(race(Some(red), Playing, false).starts_with("YOU WIN"));
    assert!(race(Some(blue), Playing, false).starts_with("THEY GOT THERE FIRST"));
    assert!(race(Some(blue), Lost, false).starts_with("BOOM — the race is theirs"));
    assert!(race(Some(blue), Lost, true).starts_with("BOOM — press"));
    assert_eq!(race(None, Playing, false), "");

    // Every ending tells you how to start another.
    for m in [Mode::Coop, Mode::FlagRace, Mode::Race] {
        let (text, class) = verdict(m, Won, Some(red), red, [1, 0], false, None);
        assert!(text.ends_with("press New game"), "{m:?}: {text}");
        assert!(!class.is_empty());
    }
}
