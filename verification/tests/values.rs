//! Exact values, and what holds of them.
use minesweeper::app::page::{deal, PLAYERS};
use minesweeper::app::{local, on_connect, remote, App, Heard, LEVELS, MAX_LOG};
use minesweeper::b64;
use minesweeper::board::{Board, Reveal, Status};
use minesweeper::counter::{Counter, Outcome};
use minesweeper::eventlog::{merge, sanitised, Log};
use minesweeper::fnv::hash_bytes;
use minesweeper::ip::{format_v4, format_v6, parse_v4, parse_v6};
use minesweeper::net::{
    candidate_summary, normalize_sdp, Connection, Gathering, Reaction, GATHER_CAP_MS,
};
use minesweeper::panel::{clipboard, connected_note, go, hash_brings_offer, link_ready, Go};
use minesweeper::qr::{lay_out, render, QrFault};
use minesweeper::rng::Rng;
use minesweeper::sdp::{compact, expand, uuid_of, uuid_text};
use minesweeper::session::{
    carry, inflated, link_of, packed_line, sdp_from_input, shape_of, url_has_offer, Accept,
    LinkKind, Lost, Next, Opened, Pasted, Role, Session,
};
use minesweeper::{
    decode_msg, encode_msg, log_hash, mode_of, race_fold, Event, Game, Mode, Msg, Stamped,
};

fn chars(s: &str) -> Vec<char> {
    s.chars().collect()
}

fn open_at(player: u8, x: u8, y: u8) -> Event {
    Event::Reveal { player, x, y }
}

fn flag(player: u8, x: u8, y: u8) -> Event {
    Event::Flag { player, x, y }
}

fn start(seed: u64, mode: Mode) -> Event {
    Event::Start {
        seed,
        w: 9,
        h: 9,
        mines: 10,
        mode,
    }
}

fn at(seq: u32, ev: Event, at_ms: u64) -> Stamped {
    Stamped { seq, ev, at_ms }
}

// ---------------------------------------------------------------------------
// The generator and the deal.
// ---------------------------------------------------------------------------

#[test]
fn the_stream_of_a_seed_is_fixed() {
    let mut r = Rng::new(42);
    let got: Vec<u64> = (0..4).map(|_| r.next_u64()).collect();
    assert_eq!(
        got,
        [
            0x8328d7f03bcec1a,
            0x77e7279e17ab6cd,
            0xc4e098f541bb09e,
            0xd861fcf47b8b124e
        ]
    );
    // The one seed that mixes to zero starts somewhere else.
    assert_eq!(Rng::new(0x9E37_79B9_7F4A_7C15).next_u64(), 0x514d4ec202774de6);
    let mut d = Rng::new(7);
    let dice: Vec<u64> = (0..10).map(|_| d.below(6)).collect();
    assert_eq!(dice, [0, 3, 0, 3, 2, 4, 2, 2, 2, 5]);
    assert_eq!(d.below(1), 0);
}

#[test]
fn the_deal_of_a_seed_is_fixed() {
    let mut b = Board::new(9, 9, 10);
    b.place_mines(7, (4, 4));
    let mines: Vec<usize> = (0..81).filter(|&i| b.cells()[i].mine).collect();
    assert_eq!(mines, [12, 28, 29, 36, 46, 53, 55, 59, 69, 73]);
    let row: Vec<u8> = b.cells()[18..27].iter().map(|c| c.adj).collect();
    assert_eq!(row, [1, 2, 3, 2, 1, 0, 0, 0, 0]);
    b.reveal_cell(4, 4);
    let shown = b.cells().iter().filter(|c| c.state == Reveal::Shown).count();
    assert_eq!(shown, 46);
}

#[test]
fn a_board_takes_as_many_mines_as_fit() {
    let mut b = Board::new(4, 4, 500);
    b.place_mines(3, (0, 0));
    let mines: Vec<usize> = (0..16).filter(|&i| b.cells()[i].mine).collect();
    assert_eq!(mines, [2, 3, 6, 7, 8, 9, 10, 11, 12, 13, 14, 15]);
    // One cell and a click on it: no room at all.
    let mut tiny = Board::new(1, 1, 1);
    tiny.place_mines(9, (0, 0));
    assert!(!tiny.get(0, 0).mine);
}

#[test]
fn neighbours_come_row_by_row() {
    let b = Board::new(12, 12, 0);
    assert_eq!(
        b.neighbors(1, 1),
        [(0, 0), (1, 0), (2, 0), (0, 1), (2, 1), (0, 2), (1, 2), (2, 2)]
    );
    for x in 0..12u8 {
        for y in 0..12u8 {
            let corner = (x == 0 || x == 11) && (y == 0 || y == 11);
            let edge = x == 0 || x == 11 || y == 0 || y == 11;
            let want = if corner {
                3
            } else if edge {
                5
            } else {
                8
            };
            assert_eq!(b.neighbors(x, y).len(), want);
        }
    }
}

#[test]
fn clicks_commute_and_a_full_clear_wins() {
    for seed in 0..20u64 {
        let mut a = Board::new(9, 9, 10);
        let mut b = Board::new(9, 9, 10);
        a.place_mines(seed, (4, 4));
        b.place_mines(seed, (4, 4));
        for i in 0..81u8 {
            if !a.get(i % 9, i / 9).mine {
                a.reveal_cell(i % 9, i / 9);
                a.reveal_cell(i % 9, i / 9);
            }
            let j = 80 - i;
            if !b.get(j % 9, j / 9).mine {
                b.reveal_cell(j % 9, j / 9);
            }
        }
        assert_eq!(a.status(), Status::Won);
        assert_eq!(a.cells(), b.cells());
        for (i, c) in a.cells().iter().enumerate() {
            assert_eq!(c.mine, c.state != Reveal::Shown, "cell {i}");
        }
    }
}

#[test]
fn numbers_count_the_mines_that_touch() {
    let mut b = Board::new(12, 12, 20);
    b.place_mines(5, (3, 9));
    for y in 0..12u8 {
        for x in 0..12u8 {
            if b.get(x, y).mine {
                continue;
            }
            let mut n = 0u8;
            for yy in 0..12u8 {
                for xx in 0..12u8 {
                    let near = (xx as i32 - x as i32).abs() <= 1
                        && (yy as i32 - y as i32).abs() <= 1
                        && (xx, yy) != (x, y);
                    if near && b.get(xx, yy).mine {
                        n += 1;
                    }
                }
            }
            assert_eq!(b.get(x, y).adj, n);
        }
    }
}

#[test]
fn a_claim_is_made_once() {
    let mut b = Board::new(3, 3, 0);
    b.claim(1, 1);
    assert_eq!(b.get(1, 1).state, Reveal::Flagged);
    b.claim(1, 1);
    assert_eq!(b.get(1, 1).state, Reveal::Flagged);
    b.toggle_flag(1, 1);
    assert_eq!(b.get(1, 1).state, Reveal::Hidden);
    b.reveal_cell(0, 0);
    b.claim(0, 0);
    b.toggle_flag(0, 0);
    assert_eq!(b.get(0, 0).state, Reveal::Shown);
}

// ---------------------------------------------------------------------------
// Games.
// ---------------------------------------------------------------------------

#[test]
fn hashes_are_fixed() {
    assert_eq!(hash_bytes(b""), 0xcbf2_9ce4_8422_2325);
    assert_eq!(hash_bytes(b"a"), 0xaf63_dc4c_8601_ec8c);
    let mut g = Game::new(7, 9, 9, 10, Mode::Coop);
    assert_eq!(g.hash(), 0xaabd6675a0c1ca94);
    g.apply(&flag(0, 0, 0));
    assert_eq!(g.hash(), 0xbb36417355def8f4);
    g.apply(&flag(1, 0, 0));
    g.apply(&open_at(0, 4, 4));
    assert_eq!(g.hash(), 0x736311c1f012817a);
    assert_eq!(
        Game::new(7, 3, 3, 1, Mode::FlagRace).hash(),
        0x158f9b9e1dcae70e
    );
    // The same cells, another deal.
    assert_ne!(
        Game::new(8, 9, 9, 10, Mode::Coop).hash(),
        Game::new(7, 9, 9, 10, Mode::Coop).hash()
    );
    let log = [at(0, start(1, Mode::Race), 5), at(1, open_at(0, 4, 4), 6)];
    assert_eq!(log_hash(&log), 0x93179ad38850ab2c);
    // Not when it was made.
    let later = [at(0, start(1, Mode::Race), 7), at(1, open_at(0, 4, 4), 9)];
    assert_eq!(log_hash(&later), log_hash(&log));
}

#[test]
fn the_scoreboard_is_the_standing_flags() {
    let mut g = Game::new(7, 9, 9, 10, Mode::FlagRace);
    g.apply(&open_at(0, 4, 4));
    // (3, 1) is a mine, (0, 4) is one too, (8, 4) is not.
    g.apply(&open_at(0, 3, 1));
    g.apply(&flag(1, 0, 4));
    let before = g.hash();
    g.apply(&flag(1, 2, 2));
    assert_eq!(g.flags_placed(), [1, 2]);
    assert_eq!(g.flag_scores(), [1, 0]);
    assert_ne!(g.hash(), before);
    g.apply(&flag(0, 2, 2));
    assert_eq!(g.flags_placed(), [1, 1]);
    assert_eq!(g.flag_scores(), [1, 1]);
    assert_eq!(g.hash(), before);
}

#[test]
fn the_same_flags_by_other_hands_are_another_game() {
    let mut a = Game::new(7, 9, 9, 10, Mode::FlagRace);
    let mut b = Game::new(7, 9, 9, 10, Mode::FlagRace);
    for g in [&mut a, &mut b] {
        g.apply(&open_at(0, 4, 4));
    }
    a.apply(&open_at(0, 3, 1));
    b.apply(&open_at(1, 3, 1));
    assert_eq!(a.board.cells(), b.board.cells());
    assert_ne!(a.hash(), b.hash());
}

#[test]
fn a_finished_flag_race_ignores_moves() {
    let mut g = Game::new(7, 9, 9, 10, Mode::FlagRace);
    g.apply(&open_at(0, 4, 4));
    for i in [12, 28, 29, 36, 46, 53, 55, 59, 69, 73u8] {
        assert_eq!(g.status(), Status::Playing);
        g.apply(&open_at(i % 2, i % 9, i / 9));
    }
    assert_eq!(g.status(), Status::Won);
    let done = g.hash();
    g.apply(&flag(0, 3, 1));
    assert_eq!(g.hash(), done);
}

#[test]
fn the_ending_is_marked_where_it_was() {
    let s = start(7, Mode::Coop);
    let boom = open_at(1, 3, 1);
    let (g, ended) = Game::replay_marking_end(&[s, open_at(0, 4, 4), boom, flag(0, 8, 8)]).unwrap();
    assert_eq!(g.status(), Status::Lost);
    assert_eq!(ended, Some(2));
    let (_, again) = Game::replay_marking_end(&[s, open_at(0, 4, 4), boom, s, flag(0, 8, 8)]).unwrap();
    assert_eq!(again, None);
    assert!(Game::replay_marking_end(&[boom]).is_none());
    assert!(Game::replay_marking_end(&[]).is_none());
}

#[test]
fn reveals_agree_in_any_order_while_the_game_is_on() {
    let moves = [open_at(0, 8, 0), open_at(1, 0, 0), open_at(0, 8, 8), open_at(1, 8, 8)];
    let mut forward = vec![start(7, Mode::Coop), open_at(0, 4, 4)];
    let mut backward = forward.clone();
    forward.extend(moves);
    backward.extend(moves.into_iter().rev());
    let a = Game::replay(&forward).unwrap();
    let b = Game::replay(&backward).unwrap();
    assert_eq!(a.status(), Status::Playing);
    assert_eq!(a.hash(), b.hash());
    // The same places by other players, and some clicks off the board.
    let mut others = vec![start(7, Mode::Coop), open_at(0, 4, 4), open_at(1, 200, 3)];
    others.extend([open_at(1, 8, 8), open_at(1, 0, 0), open_at(0, 0, 0), open_at(0, 8, 0)]);
    others.push(open_at(0, 9, 9));
    assert_eq!(Game::replay(&others).unwrap().hash(), a.hash());
}

#[test]
fn a_race_is_won_by_the_first_one_home() {
    let deal = start(7, Mode::Race);
    let mines = [12, 28, 29, 36, 46, 53, 55, 59, 69, 73u8];
    // The centre is opened first, so these are the mines of this deal.
    let mut events = vec![deal, open_at(0, 4, 4), open_at(1, 4, 4)];
    for i in (0..81u8).filter(|i| !mines.contains(i)) {
        events.push(open_at(1, i % 9, i / 9));
    }
    let decided = events.len() - 1;
    events.push(open_at(0, 3, 1));
    let (mine, theirs, winner, ended) = race_fold(&events, 0);
    assert_eq!(winner, Some(1));
    assert_eq!(theirs.status(), Status::Won);
    assert_eq!(mine.status(), Status::Playing, "a decided race took a move");
    assert!(ended.unwrap() <= decided);
    let (a, b, w, e) = race_fold(&events, 1);
    assert_eq!((a.hash(), b.hash(), w, e), (theirs.hash(), mine.hash(), winner, ended));

    // Stepping on a mine hands it over.
    let (_, _, w, e) = race_fold(&[deal, open_at(0, 4, 4), open_at(0, 3, 1)], 0);
    assert_eq!((w, e), (Some(1), Some(2)));
    let (_, _, w, e) = race_fold(&[deal, open_at(1, 4, 4), open_at(1, 3, 1)], 0);
    assert_eq!((w, e), (Some(0), Some(2)));
    // A new deal starts over.
    let (_, _, w, e) = race_fold(&[deal, open_at(0, 4, 4), open_at(0, 3, 1), deal], 0);
    assert_eq!((w, e), (None, None));
    // Nothing dealt, nothing decided.
    assert_eq!(race_fold(&[open_at(0, 0, 0)], 0).2, None);
}

#[test]
fn the_mode_is_the_last_deals() {
    let log = [
        at(0, start(1, Mode::Race), 0),
        at(1, start(2, Mode::FlagRace), 0),
        at(2, flag(0, 1, 1), 0),
    ];
    assert_eq!(mode_of(&log), Mode::FlagRace);
    assert_eq!(mode_of(&log[..1]), Mode::Race);
    assert_eq!(mode_of(&[]), Mode::Coop);
    assert_eq!(Mode::default(), Mode::Coop);
}

// ---------------------------------------------------------------------------
// Logs.
// ---------------------------------------------------------------------------

#[test]
fn merging_twice_is_merging_once() {
    let mut log = vec![at(0, start(1, Mode::Coop), 0), at(2, flag(0, 1, 1), 7)];
    let news = [at(1, flag(1, 2, 2), 3), at(2, flag(0, 1, 1), 99)];
    assert!(merge(&mut log, &news));
    let once = log.clone();
    assert!(!merge(&mut log, &news));
    assert_eq!(log, once);
    assert_eq!(log[2].at_ms, 7);
    assert!(!merge(&mut log, &[]));
}

#[test]
fn tidying_keeps_the_earliest_time() {
    let opens = |ev: &Event| matches!(ev, Event::Start { .. });
    let s = start(1, Mode::Coop);
    let a = vec![at(3, flag(0, 1, 1), 9), at(0, s, 5), at(3, flag(0, 1, 1), 4)];
    let mut b = a.clone();
    b.reverse();
    let tidy = sanitised(a, 10, opens).unwrap();
    assert_eq!(tidy, [at(0, s, 5), at(3, flag(0, 1, 1), 4)]);
    assert_eq!(sanitised(b, 10, opens).unwrap(), tidy);
    assert_eq!(sanitised(tidy.clone(), 2, opens), Some(tidy.clone()));
    assert_eq!(sanitised(tidy, 1, opens), None);
    // A move at seq 0 sorts behind a deal, but one without a deal opens nothing.
    assert_eq!(sanitised(vec![at(0, flag(0, 0, 0), 0)], 10, opens), None);
    assert_eq!(sanitised(vec![at(1, s, 0)], 10, opens), None);
}

#[test]
fn a_pinned_clock_repeats_nothing() {
    let mut log = Log::open(start(1, Mode::Coop), 0);
    log.merge(&[at(u32::MAX, flag(0, 1, 1), 1)]);
    let s = log.append(flag(0, 1, 1), 2);
    assert_eq!(s.seq, u32::MAX);
    assert_eq!(log.len(), 2, "the same move at the same place is one move");
    log.append(flag(0, 0, 1), 3);
    assert_eq!(log.len(), 3);
    assert_eq!(log[1].ev, flag(0, 0, 1));
}

// ---------------------------------------------------------------------------
// Pages.
// ---------------------------------------------------------------------------

fn bytes_of(m: &Msg) -> Vec<u8> {
    encode_msg(m)
}

#[test]
fn two_pages_meet_play_and_agree() {
    let mut host = App::new(1, 100);
    let mut guest = App::new(2, 200);
    // Each plays alone first; the host twice.
    local(&mut host, open_at(0, 4, 4), 1_000);
    local(&mut host, flag(0, 0, 0), 2_000);
    local(&mut guest, open_at(0, 1, 1), 1_500);

    let (hl, hs) = on_connect(&mut host, true);
    let (gl, gs) = on_connect(&mut guest, false);
    assert_eq!((host.player, guest.player), (0, 0), "both have moved as red");
    assert_eq!(remote(&mut guest, &bytes_of(&hl)), Heard::Adopted { len: 3 });
    assert_eq!(remote(&mut host, &bytes_of(&gl)), Heard::Kept);
    assert_eq!(guest.player, 1, "the seat their moves left free");
    // Reports from before the meeting compare games of different lengths.
    assert_eq!(remote(&mut guest, &bytes_of(&hs)), Heard::InStep);
    assert_eq!(remote(&mut host, &bytes_of(&gs)), Heard::InStep);
    assert_eq!(host.debug_hash(), guest.debug_hash());

    // Both move at once, and hear of it in different orders.
    let (a, ra) = local(&mut host, flag(0, 8, 8), 3_000);
    let (b, rb) = local(&mut guest, flag(1, 8, 0), 3_001);
    assert_eq!(
        remote(&mut host, &bytes_of(&b)),
        Heard::Merged { len: 1, new: true }
    );
    assert_eq!(
        remote(&mut guest, &bytes_of(&a)),
        Heard::Merged { len: 1, new: true }
    );
    assert_eq!(
        remote(&mut guest, &bytes_of(&a)),
        Heard::Merged { len: 1, new: false }
    );
    assert_eq!(host.log.as_slice(), guest.log.as_slice());
    assert_eq!(host.debug_hash(), guest.debug_hash());
    // Each report was made before the other's move arrived.
    assert_eq!(remote(&mut host, &bytes_of(&rb)), Heard::InStep);
    assert_eq!(remote(&mut guest, &bytes_of(&ra)), Heard::InStep);
    assert_eq!(remote(&mut guest, &bytes_of(&host.state())), Heard::InStep);
}

#[test]
fn what_cannot_be_believed_changes_nothing() {
    let mut a = App::new(1, 0);
    local(&mut a, flag(0, 1, 1), 10);
    let before = a.log.to_vec();
    let hash = a.debug_hash();

    let junk = remote(&mut a, &[9, 9, 9]);
    assert_eq!(junk, Heard::Malformed { len: 3 });
    assert_eq!(junk.log_line().unwrap(), "dropped 3 malformed bytes");
    assert_eq!(junk.note(), None);

    // More events than any game has, opening with somebody else's deal.
    let foreign = at(0, start(9, Mode::Coop), 1);
    let huge = Msg::Events(vec![foreign; MAX_LOG + 1]);
    let h = remote(&mut a, &bytes_of(&huge));
    assert_eq!(h, Heard::NotAGame);
    assert_eq!(h.note(), Some("ignored a log that could not be a game"));

    let hidden = Msg::Events(vec![at(5, flag(1, 2, 2), 1), foreign]);
    let h = remote(&mut a, &bytes_of(&hidden));
    assert_eq!(h, Heard::Redeal);
    assert_eq!(h.note(), Some("ignored a message trying to re-deal the board"));

    let flood = Msg::Events(vec![at(5, flag(1, 2, 2), 1); MAX_LOG]);
    let h = remote(&mut a, &bytes_of(&flood));
    assert_eq!(h, Heard::PastTheCap);
    assert_eq!(h.note(), Some("ignored a message past the log cap"));
    assert!(!h.answers());

    let wrong = Msg::State { count: 2, hash: 1 };
    let h = remote(&mut a, &bytes_of(&wrong));
    assert!(matches!(h, Heard::Desync { count: 2, theirs: 1, .. }));
    assert_eq!(h.note(), Some("DESYNC — boards no longer match"));
    assert_eq!(
        h.log_line().unwrap(),
        format!("desync at event 2: ours {hash}, theirs 0000000000000001")
    );

    assert_eq!(a.log.to_vec(), before);
    assert_eq!(a.debug_hash(), hash);
}

#[test]
fn lines_for_what_was_heard() {
    assert_eq!(
        Heard::Adopted { len: 12 }.log_line().unwrap(),
        "adopted their game, 12 events"
    );
    assert_eq!(
        Heard::Kept.log_line().unwrap(),
        "kept our game — theirs had less in it"
    );
    assert_eq!(
        Heard::Merged { len: 30, new: true }.log_line().unwrap(),
        "merged 30 events, some were new"
    );
    assert_eq!(
        Heard::Merged { len: 2, new: false }.log_line().unwrap(),
        "merged 2 events, all known"
    );
    assert_eq!(Heard::Merged { len: 1, new: true }.log_line(), None);
    assert_eq!(Heard::InStep.log_line(), None);
    assert!(Heard::Kept.answers() && !Heard::InStep.answers());
}

#[test]
fn the_line_above_the_board() {
    let mut a = App::new(7, 0);
    assert_eq!(a.hud(5_000), "10 flags left · 0s");
    local(&mut a, open_at(0, 4, 4), 10_000);
    local(&mut a, flag(0, 3, 1), 12_000);
    assert_eq!(a.hud(73_999), "9 flags left · 63s");
    a.set_connected(true);
    assert_eq!(a.hud(73_999), "9 flags left · 63s · you are red");
    // A clock behind the log shows nought rather than an age.
    assert_eq!(a.hud(1), "9 flags left · 0s · you are red");
    // Over: frozen at the move that ended it.
    local(&mut a, flag(0, 3, 1), 13_000);
    local(&mut a, open_at(0, 3, 1), 42_500);
    assert!(a.over());
    assert_eq!(a.hud(999_999), "10 flags left · 32s · you are red");
    assert_eq!(a.banner(), ("BOOM — press New game".to_string(), "lose"));
    assert_eq!(a.click(false, 0, 0), None);

    let mut d = App::new(7, 0);
    local(&mut d, deal(0, 1, 7), 1);
    local(&mut d, open_at(0, 4, 4), 1_000);
    local(&mut d, open_at(0, 3, 1), 2_000);
    assert_eq!(d.hud(3_000), "red 1 – 0 blue · 9 mines unflagged · 2s");
    let mut r = App::new(7, 0);
    local(&mut r, deal(0, 2, 7), 1);
    local(&mut r, open_at(0, 4, 4), 1_000);
    assert_eq!(r.hud(3_000), "you 46/71 · them 0/71 · 2s");
    assert_eq!(r.banner().0, "");
    r.take_seat(false);
    assert_eq!(r.player, 0, "a player who has moved changed seats");
    let mut n = App::new(7, 0);
    n.take_seat(false);
    assert_eq!(n.player, 1);
}

#[test]
fn deals_follow_the_pickers() {
    assert_eq!(
        deal(1, 1, 6),
        Event::Start {
            seed: 7,
            w: 16,
            h: 16,
            mines: 40,
            mode: Mode::FlagRace
        }
    );
    assert_eq!(deal(-1, -1, 0), start(1, Mode::Coop));
    assert_eq!(
        deal(99, 3, 1),
        Event::Start {
            seed: 1,
            w: LEVELS[2].0,
            h: LEVELS[2].1,
            mines: LEVELS[2].2,
            mode: Mode::Coop
        }
    );
    assert_eq!(LEVELS[0].3, "Beginner");
}

#[test]
fn tiles_show_what_there_is_to_see() {
    let mut a = App::new(7, 0);
    assert_eq!(a.bitmap(), (576, 576));
    local(&mut a, open_at(0, 4, 4), 1_000);
    local(&mut a, flag(1, 8, 8), 2_000);
    let who = a.who();
    let open = a.tile(&who, 4, 4);
    assert_eq!((open.fill, open.flag, open.crossed), ("#dfe2e7", None, false));
    assert!(open.digit.is_none());
    let two = a.tile(&who, 3, 2);
    assert_eq!(two.fill, "#dfe2e7");
    assert_eq!(two.digit, Some((2, "#2e7d32")));
    let flagged = a.tile(&who, 8, 8);
    assert_eq!((flagged.fill, flagged.flag, flagged.crossed), ("#b6bcc6", Some(PLAYERS[1].0), false));
    assert_eq!(a.ring(&who), Some(((8, 8), PLAYERS[1].0)));
    // Over: mines come into view, and the wrong flag is crossed out.
    local(&mut a, open_at(0, 3, 1), 3_000);
    let who = a.who();
    assert_eq!(a.tile(&who, 3, 1).fill, "#c0392b");
    assert_eq!(a.tile(&who, 1, 3).fill, "#e8a5a0");
    assert!(a.tile(&who, 8, 8).crossed);
}

#[test]
fn clicks_flag_or_reveal() {
    let mut a = App::new(7, 0);
    assert_eq!(a.click(false, 2, 3), Some(open_at(0, 2, 3)));
    assert_eq!(a.click(true, 2, 3), Some(flag(0, 2, 3)));
    assert_eq!(a.toggle_flag_mode(), ("Flag mode: ON", "#c0392b"));
    assert_eq!(a.click(false, 2, 3), Some(flag(0, 2, 3)));
    assert_eq!(a.toggle_flag_mode(), ("Flag mode: off", "#2b3038"));
}

#[test]
fn tallies_travel() {
    let mut a = Counter::new(0);
    let mut b = Counter::new(5);
    a.sit(true);
    b.sit(false);
    let m = a.tap(1);
    b.tap(2);
    b.tap(3);
    assert_eq!(b.text(), "you 2 — 0 them   (2 total)");
    assert_eq!(b.remote(&encode_msg(&m)), Outcome::Merged);
    assert_eq!(b.text(), "you 2 — 1 them   (3 total)");
    assert_eq!(a.remote(&encode_msg(&b.handover())), Outcome::Merged);
    assert_eq!(a.text(), "you 1 — 2 them   (3 total)");
    assert_eq!(a.remote(&[7]), Outcome::Dropped);
    assert_eq!(a.remote(&[1, 0, 0, 0, 0, 0, 0, 0, 0, 0, 0, 0, 0]), Outcome::Dropped);
    let flood = vec![a.log[0]; 10_000];
    let m = minesweeper::framing::Msg::Events(flood);
    assert_eq!(a.remote(&encode_msg(&m)), Outcome::PastTheCap);
}

// ---------------------------------------------------------------------------
// Text and links.
// ---------------------------------------------------------------------------

#[test]
fn addresses_read_and_write() {
    for (text, bytes) in [
        ("0.0.0.0", [0, 0, 0, 0]),
        ("203.0.113.7", [203, 0, 113, 7]),
        ("255.255.255.255", [255; 4]),
    ] {
        assert_eq!(parse_v4(&chars(text)), Some(bytes.to_vec()));
        assert_eq!(format_v4(&bytes), text);
    }
    for bad in ["", "1.2.3", "1.2.3.4.5", "256.0.0.1", "01.2.3.4", "1.2.3.", "1.2.3.+4", "1.2.3.1000", "a.b.c.d"] {
        assert_eq!(parse_v4(&chars(bad)), None, "{bad}");
    }
    for (text, g) in [
        ("::", [0; 8]),
        ("::1", [0, 0, 0, 0, 0, 0, 0, 1]),
        ("1::", [1, 0, 0, 0, 0, 0, 0, 0]),
        ("2001:db8::1234:5678", [0x2001, 0xdb8, 0, 0, 0, 0, 0x1234, 0x5678]),
        ("1:0:2:3:4:5:6:7", [1, 0, 2, 3, 4, 5, 6, 7]),
        ("1:0:0:2::3", [1, 0, 0, 2, 0, 0, 0, 3]),
        ("1::2:0:0:3:4", [1, 0, 0, 2, 0, 0, 3, 4]),
        ("::ffff:192.0.2.128", [0, 0, 0, 0, 0, 0xffff, 0xc000, 0x280]),
        ("fe80::abcd:ef", [0xfe80, 0, 0, 0, 0, 0, 0xabcd, 0xef]),
    ] {
        assert_eq!(parse_v6(&chars(text)), Some(g.to_vec()), "{text}");
        assert_eq!(parse_v6(&chars(&format_v6(&g))), Some(g.to_vec()));
    }
    assert_eq!(format_v6(&[1, 0, 0, 2, 0, 0, 0, 3]), "1:0:0:2::3");
    assert_eq!(format_v6(&[1, 0, 0, 2, 0, 0, 3, 4]), "1::2:0:0:3:4");
    assert_eq!(format_v6(&[0, 0, 0, 0, 0, 0xffff, 0xc000, 0x280]), "::ffff:192.0.2.128");
    assert_eq!(format_v6(&[1, 0, 2, 3, 4, 5, 6, 7]), "1:0:2:3:4:5:6:7");
    assert_eq!(parse_v6(&chars("1:2:3:4:5:6:1.2.3.4")), Some(vec![1, 2, 3, 4, 5, 6, 0x102, 0x304]));
    for bad in [
        "", ":", ":::", "1:2:3:4:5:6:7", "1:2:3:4:5:6:7:8:9", "1::2::3", "12345::", "1.2.3.4::",
        "1:2:3:4:5:6:7:8::", "::1.2.3.4:5", "1:2:3:4:5:6:7:1.2.3.4", "g::", ":1::", "1:",
    ] {
        assert_eq!(parse_v6(&chars(bad)), None, "{bad}");
    }
}

#[test]
fn repaired_descriptions_end_in_one_newline() {
    assert_eq!(normalize_sdp("  v=0\r\na=b\rc\n\n\t"), "v=0\na=b\nc\n");
    assert_eq!(normalize_sdp("\u{3000}x\r\r\ny\u{85}"), "x\n\ny\n");
    assert_eq!(normalize_sdp(""), "\n");
    for s in ["  v=0\r\na=b\rc\n\n\t", "\u{3000}x\r\r\ny\u{85}", "", " \r\n ", SDP] {
        let once = normalize_sdp(s);
        assert_eq!(normalize_sdp(&once), once);
        assert!(!once.contains('\r') && !once.ends_with("\n\n"));
    }
}

#[test]
fn candidates_are_counted() {
    let sdp = "typ host typ host typ srflxtyp relaytyp hos";
    assert_eq!(candidate_summary(sdp), "2 host / 1 srflx / 1 relay");
    assert_eq!(candidate_summary(""), "0 host / 0 srflx / 0 relay");
}

#[test]
fn connection_states_call_for_something() {
    assert_eq!(Connection::Failed.reaction(), Reaction::Drop);
    assert_eq!(Connection::Closed.reaction(), Reaction::Drop);
    assert_eq!(Connection::Disconnected.reaction(), Reaction::Wait);
    assert_eq!(Connection::Connecting.reaction(), Reaction::Nothing);
    assert!(Connection::Connected.is_back() && !Connection::New.is_back());
    assert_eq!(Connection::Failed.line("host"), "[host] connection: Failed");
    assert!(Gathering::Complete.is_enough(0) && !Gathering::New.is_enough(0));
    assert!(!Gathering::Gathering.is_enough(GATHER_CAP_MS - 1));
    assert!(Gathering::Gathering.is_enough(GATHER_CAP_MS));
    assert_eq!(Gathering::Complete.line(), None);
    assert!(Gathering::Gathering.line().unwrap().starts_with("gathering capped"));
}

#[test]
fn a_code_is_laid_out_with_its_margin() {
    let sheet = render("HELLO").unwrap_or_else(|e| panic!("{}", e.text()));
    assert_eq!((sheet.modules, sheet.scale, sheet.size), (21, 22, 638));
    // The finder pattern in the corner: a dark frame, a light one inside it.
    for k in 4..11 {
        assert!(sheet.squares.contains(&(k * 22, 4 * 22)));
    }
    assert!(!sheet.squares.contains(&(5 * 22, 5 * 22)));
    assert!(sheet.squares.contains(&(6 * 22, 6 * 22)));
    for &(x, y) in &sheet.squares {
        assert!(x >= 88 && y >= 88 && x + 22 <= 638 - 88 && y + 22 <= 638 - 88);
    }
    let other = render("WORLD").unwrap_or_else(|e| panic!("{}", e.text()));
    assert_ne!(other.squares, sheet.squares);
    let small = lay_out(2, &[true, false, false, true]);
    assert_eq!((small.scale, small.size), (64, 640));
    assert_eq!(small.squares, [(256, 256), (320, 320)]);
}

#[test]
fn too_much_for_a_code_is_said_so() {
    assert!(matches!(render(&"A".repeat(8000)), Err(QrFault::DataTooLong)));
    assert_eq!(QrFault::DataTooLong.text(), "data too long");
    assert_eq!(QrFault::InvalidVersion.text(), "invalid version");
    assert_eq!(QrFault::UnsupportedCharacterSet.text(), "unsupported character set");
    assert_eq!(QrFault::InvalidEciDesignator.text(), "invalid ECI designator");
    assert_eq!(QrFault::InvalidCharacter.text(), "invalid character");
}

const SDP: &str = "v=0\r\n\
    o=- 1 2 IN IP4 127.0.0.1\r\n\
    s=-\r\n\
    t=0 0\r\n\
    a=group:BUNDLE 0\r\n\
    a=msid-semantic: WMS\r\n\
    m=application 9 UDP/DTLS/SCTP webrtc-datachannel\r\n\
    c=IN IP4 0.0.0.0\r\n\
    a=candidate:1 1 udp 2130706431 192.0.2.1 9 typ host\r\n\
    a=candidate:2 1 udp 1694498814 ::1 65535 typ srflx raddr 0.0.0.0 rport 0\r\n\
    a=ice-ufrag:u\r\n\
    a=ice-pwd:p+/9\r\n\
    a=fingerprint:sha-256 00:01:02:03:04:05:06:07:08:09:0A:0B:0C:0D:0E:0F:10:11:12:13:14:15:16:17:18:19:1A:1B:1C:1D:1E:FF\r\n\
    a=setup:passive\r\n\
    a=mid:0\r\n\
    a=sctp-port:5000\r\n\
    a=max-message-size:262144\r\n";

#[test]
fn a_template_is_rebuilt_letter_for_letter() {
    let b = compact(SDP).expect("the template itself was refused");
    let mut want = vec![1, 2, 1, b'u', 4, b'p', b'+', b'/', b'9'];
    want.extend(0..31u8);
    want.push(0xFF);
    want.extend([2, 1, 192, 0, 2, 1, 9, 0, 4]);
    want.extend([0u8; 15]);
    want.extend([1, 0xFF, 0xFF]);
    assert_eq!(b, want);
    assert_eq!(expand(&b).as_deref(), Some(SDP));
}

#[test]
fn ports_may_carry_a_plus_and_zeros() {
    let odd = SDP.replace(" 9 typ", " +0009 typ");
    assert_eq!(compact(&odd), compact(SDP));
    let upper = SDP.replace("1 udp 2130706431", "1 UDP x").replace("\r\n", "\n");
    assert_eq!(compact(&upper), compact(SDP));
    assert_eq!(compact(&SDP.replace("65535", "65536")).map(|b| b.len()), compact(SDP).map(|b| b.len() - 19));
    assert_eq!(compact(&SDP.replace("sha-256 00", "sha-256 100")), None);
    assert_eq!(compact(&SDP.replace("ufrag:u", "ufrag:u-")), None);
    assert_eq!(compact(&SDP.replace("setup:passive", "setup:holdconn")), None);
}

#[test]
fn candidates_that_cannot_be_rebuilt_change_nothing() {
    let lines = [
        "a=candidate:1 1 tcp 1518280447 192.0.2.9 9 typ host tcptype active",
        "a=candidate:2 1 udp 1 192.0.2.9 9 typ relay raddr 0.0.0.0 rport 0",
        "a=candidate:3 2 udp 1 192.0.2.9 9 typ host",
        "a=candidate:",
    ];
    let starts: Vec<usize> = SDP.match_indices('\n').map(|(i, _)| i + 1).chain([0]).collect();
    for line in lines {
        for &at in &starts {
            let more = format!("{}{line}\r\n{}", &SDP[..at], &SDP[at..]);
            assert_eq!(compact(&more), compact(SDP), "{line} at {at}");
        }
        let end = format!("{}\n{line}", SDP.trim_end());
        assert_eq!(compact(&end), compact(SDP));
    }
    let all = SDP.replace("s=-", &format!("s=-\n{}", lines.join("\n")));
    assert_eq!(compact(&all), compact(SDP));
}

#[test]
fn each_fact_has_one_line() {
    let mut b = compact(SDP).unwrap();
    let sdp = expand(&b).unwrap();
    let lines = |p: &str| sdp.lines().filter(|l| l.starts_with(p)).count();
    for p in ["a=ice-ufrag:", "a=ice-pwd:", "a=fingerprint:sha-256 ", "a=setup:"] {
        assert_eq!(lines(p), 1, "{p}");
    }
    assert_eq!(lines("a=candidate:"), 2);
    assert_eq!(sdp.lines().count(), 15 + 2);
    for evil in [b'\n', b'\r', b' ', b'-', 0, 0xFF] {
        b[3] = evil;
        assert_eq!(expand(&b), None, "{evil} came through");
    }
}

#[test]
fn a_fingerprint_is_thirty_two_pairs() {
    for bad in ["+0:01:", "0:01:", "00:1:", "00:001:", "000:01:", ":01:", "0g:01:", "00:01:02:"] {
        assert_eq!(compact(&SDP.replace("00:01:", bad)), None, "{bad}");
    }
    assert_eq!(compact(&SDP.replace("1E:FF", "1E")), None);
    // Either case reads; the upper one is written.
    assert_eq!(compact(&SDP.replace("1E:FF", "1e:fF")), compact(SDP));
}

#[test]
fn a_name_has_exactly_one_shape() {
    let name = "1b932746-add2-4fb5-bdc5-99783097cabc.local";
    assert_eq!(uuid_text(&uuid_of(name).unwrap()), name);
    assert_eq!(uuid_of(&name.to_uppercase().replace(".LOCAL", ".local")), uuid_of(name));
    for bad in [
        "1b932746add24fb5bdc599783097cabc.local",
        "1b93-2746add2-4fb5-bdc5-99783097cabc.local",
        "1b932746-add2-4fb5-bdc599783097-cabc.local",
        "+b932746-add2-4fb5-bdc5-99783097cabc.local",
        "1b932746-add2-4fb5-bdc5-99783097cab-.local",
        "1b932746-add2-4fb5-bdc5-99783097cabc0.local",
        "1b932746-add2-4fb5-bdc5-99783097cabg.local",
        "1b932746-add2-4fb5-bdc5-99783097cabc.LOCAL",
        "1b932746-add2-4fb5-bdc5-99783097cabc",
        ".local",
    ] {
        assert_eq!(uuid_of(bad), None, "{bad}");
        // A candidate of that name is no candidate.
        assert_eq!(compact(&SDP.replace("192.0.2.1", bad)).map(|b| b.len()), compact(SDP).map(|b| b.len() - 7));
    }
}

#[test]
fn a_link_gives_back_what_it_carries() {
    let b = carry(SDP, None);
    assert_eq!(Some(b.clone()), compact(SDP));
    let link = link_of("https://x.dev/mine/", LinkKind::Offer, &b);
    assert!(link.starts_with("https://x.dev/mine/#o="));
    assert_eq!(shape_of(&link), Some(Pasted::Packed(b.clone())));
    assert_eq!(shape_of(&format!("\n {} \t", b64::encode(&b))), Some(Pasted::Packed(b)));
    assert_eq!(sdp_from_input(&link), Some(Opened::Sdp(SDP.to_string())));
    assert_eq!(sdp_from_input(SDP), Some(Opened::Sdp(SDP.to_string())));
    let answer = link_of("", LinkKind::Answer, b"foo");
    assert_eq!(answer, "#a=Zm9v");
    assert_eq!(sdp_from_input(&answer), Some(Opened::Inflate(b"foo".to_vec())));
    assert_eq!(sdp_from_input("no!"), None);
    assert_eq!(packed_line(994, 118), "sdp 994 bytes -> 118 on the wire");
    assert!(url_has_offer("#o=x") && !url_has_offer("#a=x") && !url_has_offer("#o"));
}

#[test]
fn an_unknown_description_is_carried_whole() {
    assert_eq!(carry("v=0\r\n\u{e9}", None), "v=0\r\n\u{e9}".as_bytes());
    assert_eq!(carry("v=0\r\n", Some(vec![3, 4])), [3, 4]);
    // And comes back by whichever way it went.
    assert_eq!(inflated(vec![3, 4], Some(b"v=0\r\n".to_vec())).as_deref(), Some("v=0\r\n"));
    assert_eq!(inflated("v=\u{e9}".as_bytes().to_vec(), None).as_deref(), Some("v=\u{e9}"));
    assert_eq!(inflated(b"hello".to_vec(), None), None, "plain text is no description");
    assert_eq!(inflated(vec![0xFF, 0xFE], None), None, "nor is what is not text");
    assert_eq!(inflated(vec![1], Some(vec![0xC0, 0x80])), None);
    assert_eq!(inflated(vec![1], Some(vec![b'v'; 65_537])), None, "past the output cap");
    assert_eq!(inflated(vec![1], Some(vec![b'v'; 65_536])).map(|s| s.len()), Some(65_536));
}

#[test]
fn a_handshake_takes_its_turns() {
    let mut host = Session::new();
    assert_eq!(host.role(), Role::Idle);
    assert!(host.host());
    host.watched();
    host.offered();
    assert!(!host.host());
    assert_eq!(host.accept("?", true), Accept::Complain);
    assert_eq!(host.accept("?", false), Accept::Ignore);
    assert_eq!(host.accept("#a=Zm9v", false), Accept::Decode { was: Role::Host });
    assert_eq!(host.decoded(Role::Host, false, true), Next::Complain);
    assert_eq!(host.decoded(Role::Host, false, false), Next::Ignore);
    assert_eq!(host.decoded(Role::Host, true, true), Next::Finish);
    assert_eq!(host.decoded(Role::Host, true, true), Next::Ignore, "a second paste got there first");
    assert_eq!(host.accept("#a=Zm9v", true), Accept::Ignore);
    assert!(host.finish_host());

    let mut guest = Session::new();
    assert!(!guest.join_url_offer("#a=Zm9v"));
    assert!(guest.join_url_offer("#o=Zm9v"));
    assert!(!guest.join_url_offer("#o=Zm9v"), "a second trigger started a second join");
    guest.failed();
    assert_eq!(guest.decoded(Role::Idle, true, false), Next::Join);
    guest.answered();
    // ICE gives up while the reply is still being carried.
    assert_eq!(guest.dropped(0), Lost::NotYet);
    assert_eq!(guest.role(), Role::Done);
    guest.watched();
    assert_eq!(guest.dropped(0), Lost::Dropped);
    assert_eq!((guest.role(), guest.era), (Role::Idle, 1));
    assert_eq!(guest.dropped(0), Lost::Stale);
    assert!(!guest.finish_host(), "there is nothing to answer");
    guest.era = u32::MAX;
    guest.reset();
    assert_eq!(guest.era, 0);
    assert!(Session::looks_like_link("#o=Zm9v") && !Session::looks_like_link("hello world"));
}

#[test]
fn the_panel_says_what_to_do() {
    assert!(matches!(go(Role::Idle), Go::Host));
    assert!(matches!(go(Role::Host), Go::Copy(s) if s.contains("box below")));
    assert!(matches!(go(Role::Done), Go::Copy(s) if s.contains("back to the host")));
    let offer = link_ready(LinkKind::Offer);
    assert!(offer.reply_box && offer.go == "Copy the link again");
    assert!(offer.note.starts_with("link copied"));
    let answer = link_ready(LinkKind::Answer);
    assert!(!answer.reply_box && answer.note.starts_with("reply copied"));
    assert!(connected_note(true).contains("you are red"));
    assert!(connected_note(false).contains("you are blue"));
    assert_eq!(clipboard(None), (false, "paste the host's link into the box below"));
    assert_eq!(clipboard(Some("hello world")).0, false);
    assert_eq!(clipboard(Some("#o=Zm9v")), (true, "link read from clipboard — answering…"));
    assert!(hash_brings_offer(Role::Host, "#o=x"));
    assert!(!hash_brings_offer(Role::Done, "#o=x"));
}

#[test]
fn messages_are_read_back_whole() {
    let m = Msg::Events(vec![at(0, start(1, Mode::Race), 3), at(4, open_at(1, 2, 3), 9)]);
    let b = encode_msg(&m);
    assert_eq!(b.len(), 1 + 26 + 16);
    assert_eq!(decode_msg::<Event>(&b), Some(m));
    for cut in (0..b.len()).filter(|c| ![1, 27].contains(c)) {
        assert_eq!(decode_msg::<Event>(&b[..cut]), None, "accepted {cut} bytes");
    }
}

#[test]
fn a_column_past_the_edge_runs_on() {
    let mut b = Board::new(3, 3, 0);
    b.cells_mut()[0].mine = true;
    b.count_adjacent();
    // Column 3 of row 0 is column 0 of row 1, which has a number.
    b.reveal_cell(3, 0);
    let shown: Vec<usize> = (0..9).filter(|&i| b.cells()[i].state == Reveal::Shown).collect();
    assert_eq!(shown, [3]);
    let mut blank = Board::new(3, 3, 0);
    blank.reveal_cell(3, 0);
    assert!(blank.cells().iter().all(|c| c.state == Reveal::Shown));
    b.reveal_cell(3, 0);
    assert_eq!(b.get(3, 0).state, Reveal::Shown);
}

#[test]
fn every_change_of_one_cell_shows_in_the_hash() {
    let mut g = Game::new(7, 9, 9, 10, Mode::Coop);
    g.apply(&open_at(0, 4, 4));
    let mut seen = vec![g.hash()];
    for ev in [flag(0, 0, 0), flag(1, 0, 0), open_at(0, 2, 2), open_at(1, 3, 1)] {
        g.apply(&ev);
        assert_ne!(g.hash(), *seen.last().unwrap(), "{ev:?}");
        seen.push(g.hash());
    }
    assert_eq!(seen[0], seen[2], "a flag that came off left a trace");
    assert_eq!(g.status(), Status::Lost);
    // A mine or a number that changes shows as well.
    let before = g.hash();
    g.board.cells_mut()[80].mine = true;
    let mined = g.hash();
    assert_ne!(mined, before);
    g.board.cells_mut()[80].adj = 8;
    assert_ne!(g.hash(), mined);
}

#[test]
fn a_playable_deal_lays_every_mine() {
    for (w, h, mines) in [(9, 9, 72), (30, 16, 99), (1, 9, 0), (3, 4, 3)] {
        let deal = Event::Start {
            seed: 3,
            w,
            h,
            mines,
            mode: Mode::FlagRace,
        };
        assert!(deal.is_playable());
        let mut g = Game::replay(&[deal]).unwrap();
        g.apply(&open_at(0, 0, 0));
        let laid = g.board.cells().iter().filter(|c| c.mine).count();
        assert_eq!(laid, mines as usize);
        assert!(!g.board.get(0, 0).mine);
        let wider = Event::Start {
            seed: 3,
            w,
            h,
            mines: mines + w as u16 * h as u16,
            mode: Mode::FlagRace,
        };
        assert!(!wider.is_playable());
    }
}

#[test]
fn a_stopped_clock_reads_alike_on_both_screens() {
    let mut a = App::new(7, 0);
    let mut b = App::new(8, 0);
    local(&mut a, open_at(0, 4, 4), 10_000);
    let (log, _) = on_connect(&mut a, true);
    on_connect(&mut b, false);
    remote(&mut b, &bytes_of(&log));
    let (m, _) = local(&mut b, open_at(1, 3, 1), 15_000);
    remote(&mut a, &bytes_of(&m));
    let (late, _) = local(&mut a, flag(0, 8, 8), 90_000);
    remote(&mut b, &bytes_of(&late));
    assert_eq!(a.seconds(99_000), 5);
    assert_eq!(b.seconds(1), 5);
    assert_eq!(a.ender, Some(1));
    assert_eq!(a.banner(), b.banner());
}

#[test]
fn a_race_is_read_from_both_sides() {
    let mut a = App::new(7, 0);
    let mut b = App::new(8, 0);
    let (m, _) = local(&mut a, deal(0, 2, 6), 1);
    let (log, _) = on_connect(&mut a, true);
    on_connect(&mut b, false);
    remote(&mut b, &bytes_of(&log));
    remote(&mut b, &bytes_of(&m));
    a.set_connected(true);
    b.set_connected(true);
    for (ev, at_ms) in [(open_at(1, 4, 4), 1_000), (open_at(1, 3, 1), 4_000)] {
        let (m, _) = local(&mut b, ev, at_ms);
        remote(&mut a, &bytes_of(&m));
    }
    assert_eq!(a.winner, Some(0));
    assert_eq!(b.winner, Some(0));
    assert_eq!(a.banner(), ("YOU WIN — press New game".to_string(), "win"));
    assert_eq!(
        b.banner(),
        ("BOOM — the race is theirs — press New game".to_string(), "lose")
    );
    assert_eq!((a.seconds(9), b.seconds(9_999_999)), (3, 3));
    assert_eq!(a.state(), b.state());
    assert_eq!(remote(&mut a, &bytes_of(&b.state())), Heard::InStep);
    // Their last move happened on their own board.
    assert_eq!(a.ring(&a.who()), None);
}

#[test]
fn the_longest_compact_form_fits_a_link() {
    let b = vec![0xFF; 16_384];
    let link = link_of("https://x.dev/", LinkKind::Answer, &b);
    assert_eq!(link.len(), 14 + 3 + 21_846);
    assert_eq!(shape_of(&link), Some(Pasted::Packed(b)));
    // One byte over the cap, and so on: refused, whether the text shows it or
    // only the bytes do.
    for over in [16_385, 16_386, 16_387, 20_000] {
        let link = link_of("", LinkKind::Offer, &vec![0; over]);
        assert_eq!(shape_of(&link), None, "{over} bytes came through");
    }
}
