//! What two peers can rely on of each other.
use vstd::prelude::*;
use vstd::string::*;

use crate::app::page::{
    clock, headline, hud_text, level_at, log_text, meant, mode_picked, note_text, paints, peer_spot,
    Tile,
};
use crate::app::{
    done, first, first_reveal, foreign, free_seat, has_played, heard, heard_events, is_flagged,
    is_shown, mover, moves_in, rebuilt, redeals, report, seat_taken, stamp_before, survives, sync,
    tidied, to_open, verdict_text, AppState, Heard, LEVELS, MAX_LOG,
};
use crate::board::{count, Cell, Reveal, Status};
use crate::event::{Event, Mode, Stamped};
use crate::eventlog::laws::{
    agree, law_a_sorted_log_is_tidy, law_peers_converge, law_tidying_has_one_result,
    law_tidying_never_grows_a_log,
};
use crate::eventlog::{
    earlier, holds, inserted, lemma_merged, lemma_merged_has, lemma_slot, lemma_strictly_sorted,
    merged, next_seq, same, slot, sorted, strictly, tidy_of,
};
use crate::framing::{all_allowed, law_messages_read_back, msg_bytes, Message};
use crate::game::laws::{
    events_of, law_agreeing_logs_are_one_game, law_the_seats_swap_the_boards, made_by, two_seats,
};
use crate::game::{
    ending, flags, game_status, hashed, hashed_log, is_game, mode_in, raced, replayed,
};
use crate::text::{decimal, hex, signed};
use crate::wire::event_before;
use crate::fnv::fnv;
use crate::app::presence::{last_played, owners};
use crate::board::laws::law_counting_counts_places;

verus! {

/// The log opens with a deal, at the very start.
pub open spec fn opens_with_a_deal(log: Seq<Stamped>) -> bool {
    log.len() > 0 && log[0].seq == 0 && log[0].ev is Start
}

// ---------------------------------------------------------------------------
// Meetings.
// ---------------------------------------------------------------------------
/// Stamps are strictly and totally ordered.
proof fn lemma_stamps(a: Stamped, b: Stamped)
    ensures
        !(stamp_before(a, b) && stamp_before(b, a)),
        a != b ==> stamp_before(a, b) || stamp_before(b, a),
{
}

/// Two peers who hold different games name the same survivor: what one gives
/// up for the other's, the other keeps.
pub proof fn law_peers_name_one_survivor(ours: Seq<Stamped>, theirs: Seq<Stamped>)
    requires
        moves_in(ours) != moves_in(theirs) || first(ours) != first(theirs),
    ensures
        survives(ours, theirs) != survives(theirs, ours),
{
    match (first(ours), first(theirs)) {
        (Some(a), Some(b)) => {
            lemma_stamps(a, b);
        },
        _ => {},
    }
}

/// A game with moves in it is never given up for one with fewer.
pub proof fn law_the_game_with_moves_survives(ours: Seq<Stamped>, theirs: Seq<Stamped>)
    requires
        moves_in(ours) > moves_in(theirs),
    ensures
        survives(theirs, ours),
        !survives(ours, theirs),
{
}

proof fn lemma_sorted_is_tidied(log: Seq<Stamped>)
    requires
        strictly(log),
    ensures
        tidied(log) == log,
{
    law_a_sorted_log_is_tidy(log);
    law_tidying_has_one_result(tidied(log), log, log, log);
}

/// Two strangers who hand each other their logs end up in one game, the one
/// that survives, whichever of them hosts.
pub proof fn law_a_meeting_leaves_one_game(a: AppState, b: AppState)
    requires
        strictly(a.log),
        strictly(b.log),
        opens_with_a_deal(a.log),
        opens_with_a_deal(b.log),
        a.log.len() <= MAX_LOG,
        b.log.len() <= MAX_LOG,
        a.log[0] != b.log[0],
    ensures
        ({
            let kept = if survives(a.log, b.log) {
                b.log
            } else {
                a.log
            };
            &&& heard_events(a, b.log).0.log == kept
            &&& heard_events(b, a.log).0.log == kept
        }),
{
    lemma_sorted_is_tidied(a.log);
    lemma_sorted_is_tidied(b.log);
    law_peers_name_one_survivor(a.log, b.log);
}

/// Two peers of one game who hand each other their logs after a drop end up
/// with logs that agree.
pub proof fn law_reconnecting_brings_both_up_to_date(a: AppState, b: AppState)
    requires
        strictly(a.log),
        strictly(b.log),
        a.log.len() + b.log.len() <= MAX_LOG,
        first(a.log) == first(b.log),
        !redeals(b.log, first(a.log)),
        !redeals(a.log, first(b.log)),
    ensures
        agree(heard_events(a, b.log).0.log, heard_events(b, a.log).0.log),
{
    law_peers_converge(a.log, b.log, b.log, a.log);
    if a.log.len() > 0 {
        assert(!foreign(a.log[0], first(b.log)));
    }
    if b.log.len() > 0 {
        assert(!foreign(b.log[0], first(a.log)));
    }
}

/// What is sent is heard: events that could be acted on arrive as they were
/// sent.
pub proof fn law_sent_events_are_heard(a: AppState, events: Seq<Stamped>)
    requires
        all_allowed(events),
    ensures
        heard(a, msg_bytes(Message::Events(events))) == heard_events(a, events),
{
    law_messages_read_back(Message::Events(events));
}

proof fn lemma_agree_holds(a: Seq<Stamped>, b: Seq<Stamped>, s: Stamped)
    requires
        agree(a, b),
        holds(a, s),
    ensures
        holds(b, s),
{
    let i = choose|i: int| 0 <= i < a.len() && same(#[trigger] a[i], s);
    assert(same(b[i], s));
}

/// A move reaches the other side: where two logs agree, one of them makes a
/// move and the other hears of it, they agree again.
pub proof fn law_a_move_reaches_the_peer(a: AppState, b: AppState, ev: Event, now_ms: u64)
    requires
        strictly(a.log),
        strictly(b.log),
        agree(a.log, b.log),
        ev.playable(),
        b.log.len() < MAX_LOG,
    ensures
        ({
            let s = Stamped { seq: next_seq(a.clock), ev, at_ms: now_ms };
            let (after, h) = heard(b, msg_bytes(Message::Events(seq![s])));
            &&& h is Merged
            &&& agree(inserted(a.log, s), after.log)
        }),
{
    let s = Stamped { seq: next_seq(a.clock), ev, at_ms: now_ms };
    let one = seq![s];
    law_sent_events_are_heard(b, one);
    assert forall|x: Stamped|
        (#[trigger] holds(a.log, x) || holds(one, x)) <==> (holds(b.log, x) || holds(one, x)) by {
        if holds(a.log, x) {
            lemma_agree_holds(a.log, b.log, x);
        }
        if holds(b.log, x) {
            assert forall|i: int| 0 <= i < b.log.len() implies same(#[trigger] b.log[i], a.log[i]) by {
                assert(same(a.log[i], b.log[i]));
            }
            lemma_agree_holds(b.log, a.log, x);
        }
    }
    law_peers_converge(a.log, one, b.log, one);
    assert(one.drop_last() =~= seq![]);
    assert(merged(a.log, one.drop_last()) == a.log);
    assert(one.last() == s);
}

// ---------------------------------------------------------------------------
// Seats.
// ---------------------------------------------------------------------------
/// A player who has moved keeps their seat, whoever hosts.
pub proof fn law_a_player_keeps_their_seat(log: Seq<Stamped>, player: u8, is_host: bool)
    requires
        has_played(log, player),
    ensures
        seat_taken(player, is_host, log) == player,
{
}

/// Two who have not moved sit on different sides of the table.
pub proof fn law_newcomers_sit_apart(log: Seq<Stamped>, a: u8, b: u8)
    requires
        !has_played(log, a),
        !has_played(log, b),
    ensures
        seat_taken(a, true, log) != seat_taken(b, false, log),
{
}

// ---------------------------------------------------------------------------
// What a message can and cannot do.
// ---------------------------------------------------------------------------
/// A message that is dropped, refused or only reports leaves everything as it
/// was.
pub proof fn law_what_is_refused_changes_nothing(a: AppState, bytes: Seq<u8>)
    ensures
        ({
            let (after, h) = heard(a, bytes);
            !(h is Adopted || h is Kept || h is Merged) ==> after == a
        }),
{
}

/// One event more makes a log longer by one at most.
proof fn lemma_merged_len(log: Seq<Stamped>, incoming: Seq<Stamped>)
    requires
        strictly(log),
    ensures
        log.len() <= merged(log, incoming).len() <= log.len() + incoming.len(),
    decreases incoming.len(),
{
    if incoming.len() > 0 {
        let mid = merged(log, incoming.drop_last());
        lemma_merged_len(log, incoming.drop_last());
        lemma_strictly_sorted(log);
        lemma_merged(log, incoming.drop_last());
        lemma_slot(mid, incoming.last());
    }
}

/// No message pushes a log past its cap.
pub proof fn law_no_message_outgrows_the_cap(a: AppState, bytes: Seq<u8>)
    requires
        strictly(a.log),
        a.log.len() <= MAX_LOG,
    ensures
        heard(a, bytes).0.log.len() <= MAX_LOG,
{
    match crate::framing::parse_msg::<Event>(bytes) {
        Some(crate::framing::Message::Events(events)) => {
            lemma_merged_len(a.log, events);
            let t = tidied(events);
            if tidy_of(t, events) {
                law_tidying_never_grows_a_log(t, events);
            } else {
                lemma_tidied(events);
            }
        },
        _ => {},
    }
}

/// Any events can be tidied.
proof fn lemma_tidied(events: Seq<Stamped>)
    ensures
        tidy_of(tidied(events), events),
    decreases events.len(),
{
    if events.len() == 0 {
        law_a_sorted_log_is_tidy(events);
        assert(tidy_of(events, events));
    } else {
        let less = events.drop_last();
        let s = events.last();
        lemma_tidied(less);
        let t = tidied(less);
        assert(less.push(s) =~= events);
        if holds(t, s) {
            let at = choose|i: int| 0 <= i < t.len() && same(#[trigger] t[i], s);
            crate::eventlog::lemma_tidy_again(t, less, s, at);
        } else {
            crate::eventlog::lemma_tidy_insert(t, less, s);
        }
    }
}

/// Nothing that is merged gets in front of the deal.
proof fn lemma_the_deal_stays(log: Seq<Stamped>, incoming: Seq<Stamped>)
    requires
        strictly(log),
        opens_with_a_deal(log),
        !redeals(incoming, first(log)),
    ensures
        merged(log, incoming).len() > 0,
        merged(log, incoming)[0] == log[0],
    decreases incoming.len(),
{
    if incoming.len() > 0 {
        let less = incoming.drop_last();
        let s = incoming[incoming.len() - 1];
        assert(!foreign(s, first(log)));
        if redeals(less, first(log)) {
            let k = choose|k: int| 0 <= k < less.len() && foreign(#[trigger] less[k], first(log));
            assert(foreign(incoming[k], first(log)));
        }
        lemma_the_deal_stays(log, less);
        let mid = merged(log, less);
        lemma_strictly_sorted(log);
        lemma_merged(log, less);
        if !holds(mid, s) {
            lemma_slot(mid, s);
            assert(!same(mid[0], s));
            assert(earlier(mid[0], s));
            assert(slot(mid, s) > 0);
        }
    }
}

/// A log that opens with a deal goes on doing so whatever arrives: it is
/// always a game, and only a whole game can take its place.
pub proof fn law_a_log_stays_a_game(a: AppState, bytes: Seq<u8>)
    requires
        strictly(a.log),
        opens_with_a_deal(a.log),
    ensures
        opens_with_a_deal(heard(a, bytes).0.log),
        is_game(events_of(heard(a, bytes).0.log)),
        !(heard(a, bytes).1 is Adopted) ==> heard(a, bytes).0.log[0] == a.log[0],
{
    match crate::framing::parse_msg::<Event>(bytes) {
        Some(crate::framing::Message::Events(events)) => {
            if !redeals(events, first(a.log)) {
                if events.len() > 0 {
                    assert(!foreign(events[0], first(a.log)));
                }
                lemma_the_deal_stays(a.log, events);
            }
        },
        _ => {},
    }
}

/// A message keeps the log sorted and free of duplicates.
pub proof fn law_a_log_stays_sorted(a: AppState, bytes: Seq<u8>)
    requires
        strictly(a.log),
    ensures
        strictly(heard(a, bytes).0.log),
{
    lemma_strictly_sorted(a.log);
    match crate::framing::parse_msg::<Event>(bytes) {
        Some(crate::framing::Message::Events(events)) => {
            lemma_merged(a.log, events);
            lemma_tidied(events);
        },
        _ => {},
    }
}

// ---------------------------------------------------------------------------
// Agreement.
// ---------------------------------------------------------------------------
/// What is shown is what the log comes to.
pub open spec fn in_step(a: AppState) -> bool {
    a == rebuilt(a)
}

/// Folding the log a second time changes nothing.
pub proof fn law_folding_twice_is_folding_once(a: AppState)
    ensures
        in_step(rebuilt(a)),
{
}

/// Every message that changes the page leaves it showing what its log comes
/// to.
pub proof fn law_a_message_leaves_the_page_in_step(a: AppState, bytes: Seq<u8>)
    requires
        in_step(a),
    ensures
        in_step(heard(a, bytes).0),
{
}

proof fn lemma_same_mode(a: Seq<Stamped>, b: Seq<Stamped>)
    requires
        agree(a, b),
    ensures
        mode_in(a) == mode_in(b),
    decreases a.len(),
{
    if a.len() > 0 {
        assert(same(a[a.len() - 1], b[a.len() - 1]));
        assert forall|i: int| 0 <= i < a.drop_last().len() implies same(
            #[trigger] a.drop_last()[i],
            b.drop_last()[i],
        ) by {
            assert(same(a[i], b[i]));
        }
        lemma_same_mode(a.drop_last(), b.drop_last());
    }
}

/// There are no false alarms: a peer whose log agrees with ours reports what
/// we would report, and hearing it is silent.
pub proof fn law_agreeing_peers_raise_no_alarm(a: AppState, b: AppState)
    requires
        in_step(a),
        in_step(b),
        agree(a.log, b.log),
        opens_with_a_deal(a.log),
    ensures
        report(a) == report(b),
        heard(a, msg_bytes(report(b))) == (a, Heard::InStep),
{
    law_agreeing_logs_are_one_game(a.log, b.log, 0);
    lemma_same_mode(a.log, b.log);
    assert(is_game(events_of(a.log)));
    assert(sync(a) == sync(b));
    law_messages_read_back(report(b));
}

/// A report of another hash at the same count is always called out.
pub proof fn law_a_parting_is_called_out(a: AppState, b: AppState)
    requires
        a.log.len() == b.log.len(),
        b.log.len() <= u32::MAX,
        sync(a) != sync(b),
    ensures
        heard(a, msg_bytes(report(b))) == (
            a,
            Heard::Desync { count: a.log.len() as u32, ours: sync(a), theirs: sync(b) },
        ),
{
    law_messages_read_back(report(b));
}

// ---------------------------------------------------------------------------
// What the two of them read.
// ---------------------------------------------------------------------------
/// The two of them read verdicts that fit: of a flag race the one with the
/// better score has won and the other has lost, by the same tally, and equal
/// scores are a draw for both.
pub proof fn law_verdicts_of_a_flag_race_fit(
    winner: Option<u8>,
    scores: Seq<i32>,
    ender: Option<u8>,
    me: u8,
)
    requires
        me < 2,
        scores.len() == 2,
    ensures
        ({
            let them = (1 - me) as u8;
            let mine = signed(scores[me as int] as int);
            let theirs = signed(scores[them as int] as int);
            let a = verdict_text(Mode::FlagRace, Status::Won, winner, me, scores, false, ender);
            let b = verdict_text(Mode::FlagRace, Status::Won, winner, them, scores, false, ender);
            if scores[me as int] > scores[them as int] {
                &&& a == done("YOU WIN "@ + (mine + "–"@ + theirs), "win"@)
                &&& b == done("YOU LOSE "@ + (theirs + "–"@ + mine), "lose"@)
            } else if scores[me as int] == scores[them as int] {
                &&& a == done("A DRAW "@ + (mine + "–"@ + theirs), "win"@)
                &&& b == a
            } else {
                true
            }
        }),
{
}

/// Of a decided race exactly one of them reads that they have won.
pub proof fn law_a_race_has_one_winner(
    winner: u8,
    me: u8,
    mine: Status,
    theirs: Status,
    scores: Seq<i32>,
)
    requires
        winner < 2,
        me < 2,
    ensures
        ({
            let them = (1 - me) as u8;
            let a = verdict_text(Mode::Race, mine, Some(winner), me, scores, false, None);
            let b = verdict_text(Mode::Race, theirs, Some(winner), them, scores, false, None);
            (a == done("YOU WIN"@, "win"@) && b.1 == "lose"@) || (b == done("YOU WIN"@, "win"@)
                && a.1 == "lose"@)
        }),
{
}

/// A game that is over shows the same time on both screens, whatever their
/// clocks say: it is read out of the log.
pub proof fn law_a_stopped_clock_reads_alike(
    a: AppState,
    b: AppState,
    a_now: u64,
    b_now: u64,
)
    requires
        in_step(a),
        in_step(b),
        a.log == b.log,
        opens_with_a_deal(a.log),
        two_seats(events_of(a.log)),
        a.player < 2,
        b.player < 2,
        a.ended_at is Some,
    ensures
        clock(a, a_now) == clock(b, b_now),
{
    law_the_seats_swap_the_boards(events_of(a.log));
    assert(is_game(events_of(a.log)));
    assert(a.ended_at == b.ended_at);
}

// ---------------------------------------------------------------------------
// Moves, and which game survives.
// ---------------------------------------------------------------------------
/// Where the deals of a log stand.
pub open spec fn deals_in(log: Seq<Stamped>) -> Set<int> {
    Set::new(|i: int| 0 <= i < log.len() && log[i].ev is Start)
}

/// The moves of a log are all its entries but the deals, reveals and flags
/// alike.
pub proof fn law_moves_are_all_but_the_deals(log: Seq<Stamped>)
    ensures
        deals_in(log).finite(),
        moves_in(log) + deals_in(log).len() == log.len(),
    decreases log.len(),
{
    if log.len() == 0 {
        assert(deals_in(log) =~= Set::empty());
    } else {
        let less = log.drop_last();
        law_moves_are_all_but_the_deals(less);
        if log.last().ev is Start {
            assert(deals_in(log) =~= deals_in(less).insert(log.len() - 1));
        } else {
            assert(deals_in(log) =~= deals_in(less));
        }
    }
}

/// One more reveal, or one more flag, is one more move; one more deal is none.
pub proof fn law_every_reveal_and_every_flag_counts(log: Seq<Stamped>, s: Stamped)
    ensures
        s.ev is Reveal ==> moves_in(log.push(s)) == moves_in(log) + 1,
        s.ev is Flag ==> moves_in(log.push(s)) == moves_in(log) + 1,
        s.ev is Start ==> moves_in(log.push(s)) == moves_in(log),
{
    assert(log.push(s).drop_last() =~= log);
}

/// Of two logs with as many deals, the longer one survives, whoever asks.
pub proof fn law_the_longer_game_survives(ours: Seq<Stamped>, theirs: Seq<Stamped>)
    requires
        deals_in(ours).len() == deals_in(theirs).len(),
        ours.len() < theirs.len(),
    ensures
        survives(ours, theirs),
        !survives(theirs, ours),
{
    law_moves_are_all_but_the_deals(ours);
    law_moves_are_all_but_the_deals(theirs);
}

/// Of two logs as long with as many deals, the one that opens first survives:
/// by place in the log, by event, and by time.
pub proof fn law_a_tie_goes_to_the_first_opening(ours: Seq<Stamped>, theirs: Seq<Stamped>)
    requires
        deals_in(ours).len() == deals_in(theirs).len(),
        ours.len() == theirs.len(),
        ours.len() > 0,
    ensures
        ({
            let (o, t) = (ours[0], theirs[0]);
            &&& t.seq != o.seq ==> survives(ours, theirs) == (t.seq < o.seq)
            &&& t.seq == o.seq && t.ev != o.ev ==> survives(ours, theirs) == event_before(
                t.ev,
                o.ev,
            )
            &&& t.seq == o.seq && t.ev == o.ev ==> survives(ours, theirs) == (t.at_ms < o.at_ms)
        }),
{
    law_moves_are_all_but_the_deals(ours);
    law_moves_are_all_but_the_deals(theirs);
}

// ---------------------------------------------------------------------------
// The clock.
// ---------------------------------------------------------------------------
/// The clock starts with the first reveal after the last deal: the `i`-th
/// entry, where the `d`-th is the last deal, or -1 stands for there being none.
pub proof fn law_the_first_reveal_starts_the_clock(log: Seq<Stamped>, d: int, i: int)
    requires
        -1 <= d < i < log.len(),
        d >= 0 ==> log[d].ev is Start,
        forall|k: int| d < k < log.len() ==> !((#[trigger] log[k]).ev is Start),
        forall|k: int| d < k < i ==> !((#[trigger] log[k]).ev is Reveal),
        log[i].ev is Reveal,
    ensures
        first_reveal(log) == Some(log[i].at_ms),
    decreases log.len(),
{
    let less = log.drop_last();
    assert(!(log[log.len() - 1].ev is Start));
    assert forall|k: int| d < k < less.len() implies !((#[trigger] less[k]).ev is Start) by {
        assert(less[k] == log[k]);
    }
    if i < less.len() {
        assert forall|k: int| d < k < i implies !((#[trigger] less[k]).ev is Reveal) by {
            assert(less[k] == log[k]);
        }
        law_the_first_reveal_starts_the_clock(less, d, i);
    } else {
        law_the_clock_waits_for_a_reveal(less, d);
    }
}

/// Until there is a reveal after the last deal the clock has not started.
pub proof fn law_the_clock_waits_for_a_reveal(log: Seq<Stamped>, d: int)
    requires
        -1 <= d < log.len() || log.len() == 0,
        0 <= d < log.len() ==> log[d].ev is Start,
        forall|k: int| d < k < log.len() ==> !((#[trigger] log[k]).ev is Reveal),
    ensures
        first_reveal(log) is None,
    decreases log.len(),
{
    if log.len() > 0 && d < log.len() - 1 {
        let less = log.drop_last();
        assert(!(log[log.len() - 1].ev is Reveal));
        assert forall|k: int| d < k < less.len() implies !((#[trigger] less[k]).ev is Reveal) by {
            assert(less[k] == log[k]);
        }
        law_the_clock_waits_for_a_reveal(less, d);
    }
}

/// The clock reads whole seconds from the first reveal to the end of the game,
/// or to now while it is on; it never reads less than nothing.
pub proof fn law_the_clock_reads_seconds(a: AppState, now_ms: u64)
    ensures
        first_reveal(a.log) is None ==> clock(a, now_ms) == 0,
        first_reveal(a.log) matches Some(start) ==> {
            let end = if a.ended_at is Some {
                a.ended_at->Some_0
            } else {
                now_ms
            };
            let s = clock(a, now_ms);
            &&& end <= start ==> s == 0
            &&& start <= end && end - start < 4_294_967_296_000 ==> 1000 * s <= end - start
                < 1000 * (s + 1)
        },
{
}

// ---------------------------------------------------------------------------
// Seats.
// ---------------------------------------------------------------------------
/// Whoever takes on a game where just one of the seats has moved sits in the
/// other; where neither or both have, the host sits in the first.
pub proof fn law_the_unused_seat_is_free(log: Seq<Stamped>, is_host: bool)
    ensures
        has_played(log, 0) && !has_played(log, 1) ==> free_seat(log, is_host) == 1,
        has_played(log, 1) && !has_played(log, 0) ==> free_seat(log, is_host) == 0,
        has_played(log, 0) == has_played(log, 1) ==> free_seat(log, is_host) == (if is_host {
            0u8
        } else {
            1u8
        }),
{
}

/// A player has played in a log exactly if some reveal or some flag in it is
/// theirs.
pub proof fn law_playing_is_revealing_or_flagging(log: Seq<Stamped>, player: u8)
    ensures
        has_played(log, player) <==> exists|i: int|
            0 <= i < log.len() && made_by((#[trigger] log[i]).ev, player),
{
    if has_played(log, player) {
        let i = choose|i: int| 0 <= i < log.len() && mover((#[trigger] log[i]).ev) == Some(player);
        assert(made_by(log[i].ev, player));
    }
    if exists|i: int| 0 <= i < log.len() && made_by((#[trigger] log[i]).ev, player) {
        let i = choose|i: int| 0 <= i < log.len() && made_by((#[trigger] log[i]).ev, player);
        assert(mover(log[i].ev) == Some(player));
    }
}

/// Who has not moved takes the seat of their side of the connection.
pub proof fn law_a_newcomer_sits_by_side(log: Seq<Stamped>, player: u8)
    requires
        !has_played(log, player),
    ensures
        seat_taken(player, true, log) == 0,
        seat_taken(player, false, log) == 1,
{
}

// ---------------------------------------------------------------------------
// What the page holds.
// ---------------------------------------------------------------------------
/// Folding the log again touches nothing but what the log says.
pub proof fn law_folding_keeps_the_rest(a: AppState)
    ensures
        ({
            let b = rebuilt(a);
            (b.log, b.clock, b.player, b.flag_mode, b.connected) == (
                a.log,
                a.clock,
                a.player,
                a.flag_mode,
                a.connected,
            )
        }),
{
}

/// Outside a race the page shows the game its log comes to, when the move that
/// ended it was made and by whom; there is no other board and no winner.
pub proof fn law_the_page_shows_the_game(a: AppState)
    requires
        mode_in(a.log) != Mode::Race,
        is_game(events_of(a.log)),
        a.log.len() <= usize::MAX,
    ensures
        ({
            let b = rebuilt(a);
            let end = ending(events_of(a.log));
            &&& b.game == replayed(events_of(a.log))
            &&& b.foe is None
            &&& b.winner is None
            &&& end is None ==> b.ended_at is None && b.ender is None
            &&& end matches Some(i) ==> i < a.log.len() ==> b.ended_at == Some(
                a.log[i as int].at_ms,
            ) && forall|p: u8|
                (b.ender == Some(p)) == #[trigger] made_by(a.log[i as int].ev, p)
        }),
{
}

/// In a race the page shows both boards as the race came to, who won, and when
/// the move that decided it was made.
pub proof fn law_the_page_shows_the_race(a: AppState)
    requires
        mode_in(a.log) == Mode::Race,
    ensures
        ({
            let b = rebuilt(a);
            let r = raced(events_of(a.log), a.player);
            &&& b.game == r.mine
            &&& b.foe == Some(r.theirs)
            &&& b.winner == r.winner
            &&& b.ender is None
            &&& r.ended is None ==> b.ended_at is None
            &&& r.ended matches Some(i) ==> i < a.log.len() ==> b.ended_at == Some(
                a.log[i as int].at_ms,
            )
        }),
{
}

/// A report says how many events there are and what they come to: the hash of
/// the log in a race, where the boards differ, and of the board otherwise.
pub proof fn law_what_is_reported(a: AppState)
    requires
        a.log.len() < 0x1_0000_0000,
    ensures
        report(a) == (Message::<Event>::State {
            count: a.log.len() as u32,
            hash: if mode_in(a.log) == Mode::Race {
                fnv(hashed_log(a.log))
            } else {
                fnv(hashed(a.game))
            },
        }),
{
}

// ---------------------------------------------------------------------------
// What comes of events from the peer.
// ---------------------------------------------------------------------------
/// Events are merged whole if none of them deals another game and the log has
/// room for all of them. They are news if the log lacks any of them.
pub proof fn law_events_of_our_game_are_merged(a: AppState, events: Seq<Stamped>)
    requires
        sorted(a.log),
        forall|k: int|
            0 <= k < events.len() && (#[trigger] events[k]).seq == 0 && events[k].ev is Start
                ==> a.log.len() > 0 && events[k] == a.log[0],
        a.log.len() + events.len() <= 20_000,
    ensures
        ({
            let (b, h) = heard_events(a, events);
            &&& b.log == merged(a.log, events)
            &&& b.player == a.player
            &&& forall|s: Stamped| #[trigger]
                holds(b.log, s) <==> holds(a.log, s) || holds(events, s)
            &&& h matches Heard::Merged { len, new } && len == events.len() && (new
                <==> exists|k: int| 0 <= k < events.len() && !holds(a.log, #[trigger] events[k]))
        }),
{
    assert(!redeals(events, first(a.log)));
    if events.len() > 0 {
        assert(!foreign(events[0], first(a.log)));
    }
    assert forall|s: Stamped| #[trigger]
        holds(merged(a.log, events), s) <==> holds(a.log, s) || holds(events, s) by {
        lemma_merged_has(a.log, events, s);
    }
}

/// Events that would push the log past its cap are refused whole, and only
/// those are refused for that.
pub proof fn law_the_cap_is_what_is_refused(a: AppState, events: Seq<Stamped>)
    ensures
        heard_events(a, events).1 == Heard::PastTheCap ==> a.log.len() + events.len() > 20_000
            && heard_events(a, events).0 == a,
        a.log.len() + events.len() > 20_000 && (forall|k: int|
            0 <= k < events.len() && (#[trigger] events[k]).seq == 0 && events[k].ev is Start
                ==> a.log.len() > 0 && events[k] == a.log[0]) ==> heard_events(a, events) == (
            a,
            Heard::PastTheCap,
        ),
{
    if forall|k: int|
        0 <= k < events.len() && (#[trigger] events[k]).seq == 0 && events[k].ev is Start
            ==> a.log.len() > 0 && events[k] == a.log[0] {
        assert(!redeals(events, first(a.log)));
        if events.len() > 0 {
            assert(!foreign(events[0], first(a.log)));
        }
    }
}

/// A deal of another game behind some other event is refused, and changes
/// nothing.
pub proof fn law_a_hidden_deal_is_refused(a: AppState, events: Seq<Stamped>, k: int)
    requires
        0 < k < events.len(),
        events[k].seq == 0,
        events[k].ev is Start,
        a.log.len() == 0 || events[k] != a.log[0],
        !(events[0].seq == 0 && events[0].ev is Start) || a.log.len() > 0 && events[0] == a.log[0],
    ensures
        heard_events(a, events) == (a, Heard::Redeal),
{
    assert(foreign(events[k], first(a.log)));
}

/// A message that opens with the deal of another game hands that game over.
/// One too long is refused, and one which tidied does not open with a deal at
/// the start; another is taken on if it survives ours, and ours is kept if not.
pub proof fn law_a_whole_game_is_taken_or_left(a: AppState, events: Seq<Stamped>, t: Seq<Stamped>)
    requires
        events.len() > 0,
        events[0].seq == 0,
        events[0].ev is Start,
        a.log.len() == 0 || events[0] != a.log[0],
        tidy_of(t, events),
    ensures
        ({
            let (b, h) = heard_events(a, events);
            let fits = events.len() <= 20_000 && t.len() > 0 && t[0].seq == 0 && t[0].ev is Start;
            &&& !fits ==> (b, h) == (a, Heard::NotAGame)
            &&& fits && survives(a.log, t) ==> h == (Heard::Adopted { len: t.len() as usize })
                && b.log == t && b.player == free_seat(t, a.player == 0)
            &&& fits && !survives(a.log, t) ==> h == Heard::Kept && b.log == a.log && b.player
                == a.player
        }),
{
    law_tidying_has_one_result(t, tidied(events), events, events);
    assert(foreign(events[0], first(a.log)));
}

// ---------------------------------------------------------------------------
// Who touched what.
// ---------------------------------------------------------------------------
/// A cell is whose the last move on it since the last deal is: of the `i`-th
/// entry, where that is a move at `at` and no later one is a deal or at `at`.
pub proof fn law_the_last_touch_owns_a_cell(log: Seq<Stamped>, i: int, at: (u8, u8), player: u8)
    requires
        0 <= i < log.len(),
        log[i].ev == (Event::Reveal { player, x: at.0, y: at.1 }) || log[i].ev == (Event::Flag {
            player,
            x: at.0,
            y: at.1,
        }),
        forall|k: int|
            i < k < log.len() ==> (match (#[trigger] log[k]).ev {
                Event::Start { .. } => false,
                Event::Reveal { x, y, .. } => (x, y) != at,
                Event::Flag { x, y, .. } => (x, y) != at,
            }),
    ensures
        owners(log).contains_key(at),
        owners(log)[at] == player,
    decreases log.len(),
{
    if i < log.len() - 1 {
        let less = log.drop_last();
        assert(log[log.len() - 1] == log.last());
        assert(less[i] == log[i]);
        assert forall|k: int| i < k < less.len() implies (match (#[trigger] less[k]).ev {
            Event::Start { .. } => false,
            Event::Reveal { x, y, .. } => (x, y) != at,
            Event::Flag { x, y, .. } => (x, y) != at,
        }) by {
            assert(less[k] == log[k]);
        }
        law_the_last_touch_owns_a_cell(less, i, at, player);
    }
}

/// Nobody owns a cell that no move since the last deal was on.
pub proof fn law_an_untouched_cell_is_nobodys(log: Seq<Stamped>, d: int, at: (u8, u8))
    requires
        -1 <= d < log.len(),
        d >= 0 ==> log[d].ev is Start,
        forall|k: int|
            d < k < log.len() ==> (match (#[trigger] log[k]).ev {
                Event::Start { .. } => true,
                Event::Reveal { x, y, .. } => (x, y) != at,
                Event::Flag { x, y, .. } => (x, y) != at,
            }),
    ensures
        !owners(log).contains_key(at),
    decreases log.len(),
{
    if log.len() > 0 && d < log.len() - 1 {
        let less = log.drop_last();
        assert(log[log.len() - 1] == log.last());
        assert forall|k: int| d < k < less.len() implies (match (#[trigger] less[k]).ev {
            Event::Start { .. } => true,
            Event::Reveal { x, y, .. } => (x, y) != at,
            Event::Flag { x, y, .. } => (x, y) != at,
        }) by {
            assert(less[k] == log[k]);
        }
        law_an_untouched_cell_is_nobodys(less, d, at);
    }
}

/// A player last played at their last move since the last deal: at the `i`-th
/// entry, where that is a move of theirs and no later one is a deal or theirs.
pub proof fn law_where_a_player_last_played(log: Seq<Stamped>, i: int, at: (u8, u8), player: u8)
    requires
        0 <= i < log.len(),
        log[i].ev == (Event::Reveal { player, x: at.0, y: at.1 }) || log[i].ev == (Event::Flag {
            player,
            x: at.0,
            y: at.1,
        }),
        forall|k: int|
            i < k < log.len() ==> !((#[trigger] log[k]).ev is Start) && !made_by(log[k].ev, player),
    ensures
        last_played(log, player) == Some(at),
    decreases log.len(),
{
    if i < log.len() - 1 {
        let less = log.drop_last();
        assert(log[log.len() - 1] == log.last());
        assert(less[i] == log[i]);
        assert forall|k: int| i < k < less.len() implies !((#[trigger] less[k]).ev is Start)
            && !made_by(less[k].ev, player) by {
            assert(less[k] == log[k]);
        }
        law_where_a_player_last_played(less, i, at, player);
    }
}

/// A player who has not moved since the last deal last played nowhere.
pub proof fn law_a_deal_forgets_where_players_were(log: Seq<Stamped>, d: int, player: u8)
    requires
        -1 <= d < log.len(),
        d >= 0 ==> log[d].ev is Start,
        forall|k: int| d < k < log.len() ==> !made_by((#[trigger] log[k]).ev, player),
    ensures
        last_played(log, player) is None,
    decreases log.len(),
{
    if log.len() > 0 && d < log.len() - 1 {
        let less = log.drop_last();
        assert(log[log.len() - 1] == log.last());
        assert forall|k: int| d < k < less.len() implies !made_by(
            (#[trigger] less[k]).ev,
            player,
        ) by {
            assert(less[k] == log[k]);
        }
        law_a_deal_forgets_where_players_were(less, d, player);
    }
}

// ---------------------------------------------------------------------------
// What the page shows.
// ---------------------------------------------------------------------------
/// A flag stands where a cell is flagged, in the colour of whoever put it up:
/// red for the first seat and blue for the second. It is crossed out once the
/// game is over, if there is no mine under it.
pub proof fn law_flags_are_painted(t: Tile, a: AppState, x: u8, y: u8)
    requires
        paints(t, a, x, y),
    ensures
        ({
            let c = a.game.cells[y * a.game.w + x];
            let over = a.winner is Some || game_status(a.game) != Status::Playing;
            let whose = if mode_in(a.log) == Mode::Race {
                a.player
            } else if owners(a.log).contains_key((x, y)) {
                owners(a.log)[(x, y)]
            } else {
                0u8
            };
            &&& (t.flag is Some) == (c.state == Reveal::Flagged)
            &&& t.flag matches Some(f) ==> (whose == 0 ==> f@ == "#c0392b"@) && (whose == 1 ==> f@
                == "#2b6fc8"@)
            &&& t.crossed == (c.state == Reveal::Flagged && over && !c.mine)
        }),
{
}

/// A number stands on every open cell that touches mines and is none itself,
/// and nowhere else.
pub proof fn law_numbers_are_painted(t: Tile, a: AppState, x: u8, y: u8)
    requires
        paints(t, a, x, y),
    ensures
        ({
            let c = a.game.cells[y * a.game.w + x];
            let numbered = c.state == Reveal::Shown && !c.mine && c.adj > 0;
            &&& (t.digit is Some) == numbered
            &&& t.digit matches Some((n, _)) ==> n == c.adj
        }),
{
}

/// While a game is on a tile tells nothing but whether the cell is open: two
/// cells in the same state are filled alike, mine or no mine.
pub proof fn law_tiles_hide_the_mines(t: Tile, u: Tile, a: AppState, p: (u8, u8), q: (u8, u8))
    requires
        paints(t, a, p.0, p.1),
        paints(u, a, q.0, q.1),
        a.winner is None,
        game_status(a.game) == Status::Playing,
        a.game.cells[p.1 * a.game.w + p.0].state == a.game.cells[q.1 * a.game.w + q.0].state,
    ensures
        t.fill@ == u.fill@,
        !t.crossed && !u.crossed,
{
}

/// Once a game is over its mines come into view: the one that was hit in red,
/// the others paler. Cells without a mine are filled as they were.
pub proof fn law_an_ended_game_shows_its_mines(t: Tile, a: AppState, x: u8, y: u8)
    requires
        paints(t, a, x, y),
    ensures
        ({
            let c = a.game.cells[y * a.game.w + x];
            let over = a.winner is Some || game_status(a.game) != Status::Playing;
            let open = c.state == Reveal::Shown;
            &&& over && c.mine && open ==> t.fill@ == "#c0392b"@
            &&& over && c.mine && !open ==> t.fill@ == "#e8a5a0"@
            &&& !(over && c.mine) && open ==> t.fill@ == "#dfe2e7"@
            &&& !(over && c.mine) && !open ==> t.fill@ == "#b6bcc6"@
        }),
{
}

/// The other player's last move is pointed out on a board they share, and not
/// in a race.
pub proof fn law_the_peer_is_seen_on_a_shared_board(a: AppState)
    requires
        a.player < 2,
    ensures
        mode_in(a.log) == Mode::Race ==> peer_spot(a) is None,
        mode_in(a.log) != Mode::Race && a.player == 0 ==> peer_spot(a) == last_played(a.log, 1),
        mode_in(a.log) != Mode::Race && a.player == 1 ==> peer_spot(a) == last_played(a.log, 0),
{
}

/// What is left to open and what has been: the cells that are no mine, and
/// the cells that are open.
pub proof fn law_progress_counts_cells(cells: Seq<Cell>, mines: u16)
    ensures
        mines <= cells.len() ==> to_open(cells.len(), mines) + mines == cells.len(),
        mines > cells.len() ==> to_open(cells.len(), mines) == 0,
        count(cells, is_shown()) == Set::new(
            |i: int| 0 <= i < cells.len() && cells[i].state == Reveal::Shown,
        ).len(),
        count(cells, is_flagged()) == Set::new(
            |i: int| 0 <= i < cells.len() && cells[i].state == Reveal::Flagged,
        ).len(),
{
    law_counting_counts_places(cells, is_shown());
    law_counting_counts_places(cells, is_flagged());
    assert(Set::new(|i: int| 0 <= i < cells.len() && is_shown()(cells[i])) =~= Set::new(
        |i: int| 0 <= i < cells.len() && cells[i].state == Reveal::Shown,
    ));
    assert(Set::new(|i: int| 0 <= i < cells.len() && is_flagged()(cells[i])) =~= Set::new(
        |i: int| 0 <= i < cells.len() && cells[i].state == Reveal::Flagged,
    ));
}

/// Each player of a race reads the other's line with the two counts swapped.
pub proof fn law_race_headlines_mirror(a: AppState, b: AppState, total: nat, x: nat, y: nat)
    requires
        mode_in(a.log) == Mode::Race,
        mode_in(b.log) == Mode::Race,
        a.foe == Some(b.game),
        b.foe == Some(a.game),
        a.game.cells.len() == b.game.cells.len(),
        a.game.mines == b.game.mines,
        x == count(a.game.cells, is_shown()),
        y == count(b.game.cells, is_shown()),
        total == to_open(a.game.cells.len(), a.game.mines),
    ensures
        headline(a) == "you "@ + decimal(x) + "/"@ + decimal(total) + " · them "@ + decimal(y)
            + "/"@ + decimal(total),
        headline(b) == "you "@ + decimal(y) + "/"@ + decimal(total) + " · them "@ + decimal(x)
            + "/"@ + decimal(total),
{
}

/// On a shared board both players read the same line.
pub proof fn law_shared_headlines_are_one(a: AppState, b: AppState)
    requires
        a.log == b.log,
        a.game == b.game,
        mode_in(a.log) != Mode::Race,
    ensures
        headline(a) == headline(b),
{
}

/// A picker's index stands for the level of that number, or the nearest there
/// is, and for the mode of that number, or co-op.
pub proof fn law_pickers_mean_what_they_show(i: i32)
    ensures
        0 <= i <= 2 ==> level_at(i) == i,
        i < 0 ==> level_at(i) == 0,
        i > 2 ==> level_at(i) == 2,
        mode_picked(0) == Mode::Coop,
        mode_picked(1) == Mode::FlagRace,
        mode_picked(2) == Mode::Race,
        (i < 0 || 2 < i < 256) ==> mode_picked(i) == Mode::Coop,
{
}

/// What the end of a shared game without scores is called.
pub proof fn law_what_a_shared_ending_is_called(
    winner: Option<u8>,
    me: u8,
    scores: Seq<i32>,
    solo: bool,
    ender: Option<u8>,
)
    ensures
        verdict_text(Mode::Coop, Status::Won, winner, me, scores, solo, ender) == (
            "YOU WIN"@ + " — press New game"@,
            "win"@,
        ),
        verdict_text(Mode::Coop, Status::Lost, winner, me, scores, solo, ender) == (
            "BOOM"@ + " — press New game"@,
            "lose"@,
        ),
        verdict_text(Mode::Coop, Status::Playing, winner, me, scores, solo, ender) == (""@, ""@),
{
}

/// What the end of a race is called: it is won by the winner and nobody else,
/// whatever became of their board, and nothing is said until there is one.
pub proof fn law_what_a_race_ending_is_called(
    status: Status,
    winner: Option<u8>,
    me: u8,
    scores: Seq<i32>,
    solo: bool,
    ender: Option<u8>,
)
    ensures
        ({
            let v = verdict_text(Mode::Race, status, winner, me, scores, solo, ender);
            let more = " — press New game"@;
            &&& winner is None ==> v == (""@, ""@)
            &&& winner == Some(me) ==> v == ("YOU WIN"@ + more, "win"@)
            &&& winner is Some && winner != Some(me) && status != Status::Lost ==> v == (
                "THEY GOT THERE FIRST"@ + more,
                "lose"@,
            )
            &&& winner is Some && winner != Some(me) && status == Status::Lost && solo ==> v == (
                "BOOM"@ + more,
                "lose"@,
            )
            &&& winner is Some && winner != Some(me) && status == Status::Lost && !solo ==> v == (
                "BOOM — the race is theirs"@ + more,
                "lose"@,
            )
        }),
{
}

/// What the end of a flag race is called: by the two scores, mine first, once
/// every mine is flagged; by who set it off, once one has gone off.
pub proof fn law_what_a_flag_race_ending_is_called(
    winner: Option<u8>,
    me: u8,
    scores: Seq<i32>,
    solo: bool,
    ender: Option<u8>,
)
    requires
        me < 2,
        scores.len() == 2,
    ensures
        ({
            let won = verdict_text(Mode::FlagRace, Status::Won, winner, me, scores, solo, ender);
            let lost = verdict_text(Mode::FlagRace, Status::Lost, winner, me, scores, solo, ender);
            let more = " — press New game"@;
            let (mine, theirs) = if me == 0 {
                (scores[0] as int, scores[1] as int)
            } else {
                (scores[1] as int, scores[0] as int)
            };
            let tally = signed(mine) + "–"@ + signed(theirs);
            &&& solo ==> won == ("cleared — flag score "@ + signed(mine) + more, "win"@)
            &&& !solo && mine > theirs ==> won == ("YOU WIN "@ + tally + more, "win"@)
            &&& !solo && mine < theirs ==> won == ("YOU LOSE "@ + tally + more, "lose"@)
            &&& !solo && mine == theirs ==> won == ("A DRAW "@ + tally + more, "win"@)
            &&& solo ==> lost == ("BOOM"@ + more, "lose"@)
            &&& !solo && ender == Some(me) ==> lost == (
                "BOOM — you set it off, nobody wins"@ + more,
                "lose"@,
            )
            &&& !solo && ender != Some(me) ==> lost == (
                "BOOM — they set it off, nobody wins"@ + more,
                "lose"@,
            )
            &&& verdict_text(Mode::FlagRace, Status::Playing, winner, me, scores, solo, ender) == (
                ""@,
                ""@,
            )
        }),
{
}

/// A click means a move of the player's own at the place clicked: a flag with
/// the right button or in flag mode, and else a reveal. Once the game is over
/// it means nothing.
pub proof fn law_what_a_click_means(a: AppState, right: bool, x: u8, y: u8)
    ensures
        ({
            let over = a.winner is Some || game_status(a.game) != Status::Playing;
            let m = meant(a, right, x, y);
            &&& over ==> m is None
            &&& !over && !right && !a.flag_mode ==> m == Some(
                Event::Reveal { player: a.player, x, y },
            )
            &&& !over && right ==> m == Some(Event::Flag { player: a.player, x, y })
            &&& !over && a.flag_mode ==> m == Some(Event::Flag { player: a.player, x, y })
        }),
{
}

/// The line above the board ends in the seconds played and, where somebody else
/// is here, in the player's colour.
pub proof fn law_how_the_line_ends(a: AppState, now_ms: u64)
    ensures
        ({
            let line = headline(a) + " · "@ + decimal(clock(a, now_ms) as nat) + "s"@;
            &&& !a.connected ==> hud_text(a, now_ms) == line
            &&& a.connected && a.player == 0 ==> hud_text(a, now_ms) == line + (" · you are "@
                + "red"@)
            &&& a.connected && a.player == 1 ==> hud_text(a, now_ms) == line + (" · you are "@
                + "blue"@)
        }),
{
    let line = headline(a) + " · "@ + decimal(clock(a, now_ms) as nat) + "s"@;
    reveal_strlit("");
    assert(line + ""@ =~= line);
}

/// The counts above a shared board: the mines dealt less the flags that stand
/// on it, and in a flag race the flags of each player.
pub proof fn law_what_shared_headlines_count(a: AppState)
    ensures
        mode_in(a.log) == Mode::Coop ==> headline(a) == signed(
            a.game.mines - Set::new(
                |i: int|
                    0 <= i < a.game.cells.len() && a.game.cells[i].state == Reveal::Flagged,
            ).len(),
        ) + " flags left"@,
        mode_in(a.log) == Mode::FlagRace ==> headline(a) == "red "@ + decimal(flags(a.game, 0))
            + " – "@ + decimal(flags(a.game, 1)) + " blue · "@ + signed(
            a.game.mines - flags(a.game, 0) - flags(a.game, 1),
        ) + " mines unflagged"@,
{
    law_progress_counts_cells(a.game.cells, a.game.mines);
}

/// The player is told of every message that is refused as a game, and of every
/// parting, and of nothing else; the log gets the rest of what is worth a line.
pub proof fn law_what_is_said_of_a_message(h: Heard)
    ensures
        note_text(h) is Some <==> (h is NotAGame || h is Redeal || h is PastTheCap || h is Desync),
        log_text(h) is Some <==> (h is Malformed || h is Adopted || h is Kept || h is Desync || (
        h matches Heard::Merged { len, .. } && len > 1)),
        h matches Heard::Adopted { len } ==> log_text(h) == Some(
            "adopted their game, "@ + decimal(len as nat) + " events"@,
        ),
        h matches Heard::Malformed { len } ==> log_text(h) == Some(
            "dropped "@ + decimal(len as nat) + " malformed bytes"@,
        ),
        h matches Heard::Desync { count, ours, theirs } ==> log_text(h) == Some(
            "desync at event "@ + decimal(count as nat) + ": ours "@ + hex(ours as nat, 16)
                + ", theirs "@ + hex(theirs as nat, 16),
        ),
{
}

/// The three levels, by their sizes and their mines.
pub proof fn law_the_levels(i: i32)
    ensures
        ({
            let (w, h, mines, _) = LEVELS[level_at(i)];
            &&& i <= 0 ==> (w, h, mines) == (9u8, 9u8, 10u16)
            &&& i == 1 ==> (w, h, mines) == (16u8, 16u8, 40u16)
            &&& i >= 2 ==> (w, h, mines) == (30u8, 16u8, 99u16)
        }),
{
}

} // verus!
