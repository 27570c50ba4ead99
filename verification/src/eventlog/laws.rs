//! What holds of every log, whoever heard what first.
use vstd::prelude::*;

use crate::eventlog::{
    brings_news, covered, covers, drawn_from, earlier, holds, inserted, last_seq, later,
    lemma_earlier, lemma_merged, lemma_merged_has, lemma_slot, lemma_strictly_sorted, merged,
    next_seq, same, slot, sorted, strictly, tidy_of, Payload, Stamped,
};

verus! {

/// The same events in the same places, whenever either side says they were
/// made.
pub open spec fn agree<P>(a: Seq<Stamped<P>>, b: Seq<Stamped<P>>) -> bool {
    &&& a.len() == b.len()
    &&& forall|i: int| 0 <= i < a.len() ==> same(#[trigger] a[i], b[i])
}

/// The copies of an event bear one time throughout.
pub open spec fn one_time_each<P>(events: Seq<Stamped<P>>) -> bool {
    forall|i: int, j: int|
        0 <= i < events.len() && 0 <= j < events.len() && same(
            #[trigger] events[i],
            #[trigger] events[j],
        ) ==> events[i].at_ms == events[j].at_ms
}

/// Two strictly sorted logs that hold the same events agree.
pub proof fn law_the_order_is_one<P: Payload>(a: Seq<Stamped<P>>, b: Seq<Stamped<P>>)
    requires
        strictly(a),
        strictly(b),
        forall|s: Stamped<P>| #[trigger] holds(a, s) <==> holds(b, s),
    ensures
        agree(a, b),
    decreases a.len(),
{
    if a.len() == 0 {
        if b.len() > 0 {
            assert(same(b[0], b[0]));
            assert(holds(a, b[0]));
        }
    } else {
        let la = a[a.len() - 1];
        assert(same(a[a.len() - 1], la));
        assert(holds(a, la));
        let j = choose|j: int| 0 <= j < b.len() && same(#[trigger] b[j], la);
        let lb = b[b.len() - 1];
        assert(same(b[b.len() - 1], lb));
        assert(holds(b, lb));
        assert(holds(a, lb));
        let i = choose|i: int| 0 <= i < a.len() && same(#[trigger] a[i], lb);
        if j < b.len() - 1 {
            assert(earlier(b[j], lb));
            lemma_earlier(la, b[j], lb);
            lemma_earlier(la, lb, a[i]);
            if i < a.len() - 1 {
                assert(earlier(a[i], la));
                lemma_earlier(la, a[i], la);
            }
            lemma_earlier(la, la, la);
        }
        assert(same(la, lb));
        let ra = a.drop_last();
        let rb = b.drop_last();
        assert forall|i: int, j: int| 0 <= i < j < ra.len() implies earlier(
            #[trigger] ra[i],
            #[trigger] ra[j],
        ) by {
            assert(earlier(a[i], a[j]));
        }
        assert forall|i: int, j: int| 0 <= i < j < rb.len() implies earlier(
            #[trigger] rb[i],
            #[trigger] rb[j],
        ) by {
            assert(earlier(b[i], b[j]));
        }
        assert forall|s: Stamped<P>| #[trigger] holds(ra, s) <==> holds(rb, s) by {
            lemma_less_last(a, s);
            lemma_less_last(b, s);
        }
        law_the_order_is_one(ra, rb);
        assert forall|i: int| 0 <= i < a.len() implies same(#[trigger] a[i], b[i]) by {
            if i < a.len() - 1 {
                assert(same(ra[i], rb[i]));
            }
        }
    }
}

proof fn lemma_less_last<P: Payload>(a: Seq<Stamped<P>>, s: Stamped<P>)
    requires
        strictly(a),
        a.len() > 0,
    ensures
        holds(a.drop_last(), s) <==> holds(a, s) && !same(a[a.len() - 1], s),
{
    let ra = a.drop_last();
    if holds(ra, s) {
        let i = choose|i: int| 0 <= i < ra.len() && same(#[trigger] ra[i], s);
        assert(same(a[i], s));
        assert(earlier(a[i], a[a.len() - 1]));
        lemma_earlier(a[i], a[a.len() - 1], s);
    }
    if holds(a, s) && !same(a[a.len() - 1], s) {
        let i = choose|i: int| 0 <= i < a.len() && same(#[trigger] a[i], s);
        assert(same(ra[i], s));
    }
}

/// Every entry of a merged log was in the log or came in.
proof fn lemma_merged_from<P: Payload>(log: Seq<Stamped<P>>, incoming: Seq<Stamped<P>>, i: int)
    requires
        strictly(log),
        0 <= i < merged(log, incoming).len(),
    ensures
        (log + incoming).contains(merged(log, incoming)[i]),
    decreases incoming.len(),
{
    let all = log + incoming;
    let x = merged(log, incoming)[i];
    if incoming.len() == 0 {
        assert(all[i] == x);
    } else {
        let less = incoming.drop_last();
        let mid = merged(log, less);
        let s = incoming.last();
        lemma_strictly_sorted(log);
        lemma_merged(log, less);
        lemma_slot(mid, s);
        let at = slot(mid, s) as int;
        if !holds(mid, s) && i == at {
            assert(all[all.len() - 1] == x);
        } else {
            let k = if holds(mid, s) || i < at {
                i
            } else {
                i - 1
            };
            assert(mid[k] == x);
            lemma_merged_from(log, less, k);
            let m = choose|m: int| 0 <= m < (log + less).len() && (log + less)[m] == x;
            assert(all[m] == x);
        }
    }
}

/// Peers converge, whatever order events arrive in: two logs that have seen
/// the same events agree. Where every event bears one time, they are the same
/// log.
pub proof fn law_peers_converge<P: Payload>(
    ours: Seq<Stamped<P>>,
    heard: Seq<Stamped<P>>,
    theirs: Seq<Stamped<P>>,
    told: Seq<Stamped<P>>,
)
    requires
        strictly(ours),
        strictly(theirs),
        forall|s: Stamped<P>|
            (#[trigger] holds(ours, s) || holds(heard, s)) <==> (holds(theirs, s) || holds(told, s)),
    ensures
        agree(merged(ours, heard), merged(theirs, told)),
        one_time_each((ours + heard) + (theirs + told)) ==> merged(ours, heard) == merged(
            theirs,
            told,
        ),
{
    let a = merged(ours, heard);
    let b = merged(theirs, told);
    lemma_strictly_sorted(ours);
    lemma_strictly_sorted(theirs);
    lemma_merged(ours, heard);
    lemma_merged(theirs, told);
    assert forall|s: Stamped<P>| #[trigger] holds(a, s) <==> holds(b, s) by {
        lemma_merged_has(ours, heard, s);
        lemma_merged_has(theirs, told, s);
    }
    law_the_order_is_one(a, b);
    let all = (ours + heard) + (theirs + told);
    if one_time_each(all) {
        assert forall|i: int| 0 <= i < a.len() implies #[trigger] a[i] == b[i] by {
            lemma_merged_from(ours, heard, i);
            lemma_merged_from(theirs, told, i);
            let m = choose|m: int| 0 <= m < (ours + heard).len() && (ours + heard)[m] == a[i];
            let n = choose|n: int| 0 <= n < (theirs + told).len() && (theirs + told)[n] == b[i];
            assert(all[m] == a[i]);
            assert(all[(ours + heard).len() + n] == b[i]);
            assert(same(a[i], b[i]));
        }
        assert(a =~= b);
    }
}

/// Two peers who swap what they have, each merging the other's log into their
/// own, end up agreeing.
pub proof fn law_swapping_logs_brings_peers_together<P: Payload>(
    ours: Seq<Stamped<P>>,
    theirs: Seq<Stamped<P>>,
)
    requires
        strictly(ours),
        strictly(theirs),
    ensures
        agree(merged(ours, theirs), merged(theirs, ours)),
{
    law_peers_converge(ours, theirs, theirs, ours);
}

/// Re-delivery of what the log holds changes nothing, whatever time the copy
/// bears.
pub proof fn law_redelivery_changes_nothing<P: Payload>(
    log: Seq<Stamped<P>>,
    incoming: Seq<Stamped<P>>,
)
    requires
        forall|k: int| 0 <= k < incoming.len() ==> holds(log, #[trigger] incoming[k]),
    ensures
        merged(log, incoming) == log,
    decreases incoming.len(),
{
    if incoming.len() > 0 {
        let less = incoming.drop_last();
        assert forall|k: int| 0 <= k < less.len() implies holds(log, #[trigger] less[k]) by {
            assert(less[k] == incoming[k]);
        }
        law_redelivery_changes_nothing(log, less);
        assert(holds(log, incoming[incoming.len() - 1]));
    }
}

/// Merging the same events a second time changes nothing.
pub proof fn law_merging_twice_is_merging_once<P: Payload>(
    log: Seq<Stamped<P>>,
    incoming: Seq<Stamped<P>>,
)
    requires
        strictly(log),
    ensures
        merged(merged(log, incoming), incoming) == merged(log, incoming),
{
    lemma_strictly_sorted(log);
    assert forall|k: int| 0 <= k < incoming.len() implies holds(
        merged(log, incoming),
        #[trigger] incoming[k],
    ) by {
        assert(same(incoming[k], incoming[k]));
        lemma_merged_has(log, incoming, incoming[k]);
    }
    law_redelivery_changes_nothing(merged(log, incoming), incoming);
}

/// Merging takes nothing out of a log, and changes no time in it.
pub proof fn law_entries_stay<P: Payload>(
    log: Seq<Stamped<P>>,
    incoming: Seq<Stamped<P>>,
    s: Stamped<P>,
)
    requires
        strictly(log),
        log.contains(s),
    ensures
        merged(log, incoming).contains(s),
    decreases incoming.len(),
{
    if incoming.len() > 0 {
        let less = incoming.drop_last();
        let new = incoming.last();
        law_entries_stay(log, less, s);
        let mid = merged(log, less);
        lemma_strictly_sorted(log);
        lemma_merged(log, less);
        if !holds(mid, new) {
            lemma_slot(mid, new);
            let at = slot(mid, new) as int;
            let i = choose|i: int| 0 <= i < mid.len() && mid[i] == s;
            let j = if i < at {
                i
            } else {
                i + 1
            };
            assert(inserted(mid, new)[j] == s);
        }
    }
}

/// Tidying comes to one result, however the events were shuffled.
pub proof fn law_tidying_has_one_result<P: Payload>(
    a: Seq<Stamped<P>>,
    b: Seq<Stamped<P>>,
    events: Seq<Stamped<P>>,
    shuffled: Seq<Stamped<P>>,
)
    requires
        tidy_of(a, events),
        tidy_of(b, shuffled),
        forall|s: Stamped<P>| events.contains(s) <==> shuffled.contains(s),
    ensures
        a == b,
{
    assert forall|s: Stamped<P>| #[trigger] holds(a, s) <==> holds(b, s) by {
        lemma_tidy_holds(a, b, events, shuffled, s);
        lemma_tidy_holds(b, a, shuffled, events, s);
    }
    law_the_order_is_one(a, b);
    assert forall|i: int| 0 <= i < a.len() implies #[trigger] a[i] == b[i] by {
        assert(same(a[i], b[i]));
        lemma_tidy_time(a, b, events, shuffled, i);
        lemma_tidy_time(b, a, shuffled, events, i);
    }
    assert(a =~= b);
}

proof fn lemma_tidy_holds<P: Payload>(
    a: Seq<Stamped<P>>,
    b: Seq<Stamped<P>>,
    events: Seq<Stamped<P>>,
    shuffled: Seq<Stamped<P>>,
    s: Stamped<P>,
)
    requires
        drawn_from(a, events),
        covers(b, shuffled),
        forall|s: Stamped<P>| events.contains(s) <==> shuffled.contains(s),
    ensures
        holds(a, s) ==> holds(b, s),
{
    reveal(drawn_from);
    reveal(covers);
    if holds(a, s) {
        let i = choose|i: int| 0 <= i < a.len() && same(#[trigger] a[i], s);
        assert(shuffled.contains(a[i]));
        let k = choose|k: int| 0 <= k < shuffled.len() && shuffled[k] == a[i];
        assert(covered(b, shuffled[k]));
        let j = choose|j: int|
            0 <= j < b.len() && same(#[trigger] b[j], a[i]) && b[j].at_ms <= a[i].at_ms;
        assert(same(b[j], s));
    }
}

proof fn lemma_tidy_time<P: Payload>(
    a: Seq<Stamped<P>>,
    b: Seq<Stamped<P>>,
    events: Seq<Stamped<P>>,
    shuffled: Seq<Stamped<P>>,
    i: int,
)
    requires
        drawn_from(a, events),
        covers(b, shuffled),
        strictly(b),
        forall|s: Stamped<P>| events.contains(s) <==> shuffled.contains(s),
        0 <= i < a.len(),
        i < b.len(),
        same(a[i], b[i]),
    ensures
        b[i].at_ms <= a[i].at_ms,
{
    reveal(drawn_from);
    reveal(covers);
    assert(shuffled.contains(a[i]));
    let k = choose|k: int| 0 <= k < shuffled.len() && shuffled[k] == a[i];
    assert(covered(b, shuffled[k]));
    let j = choose|j: int|
        0 <= j < b.len() && same(#[trigger] b[j], a[i]) && b[j].at_ms <= a[i].at_ms;
    if j < i {
        assert(earlier(b[j], b[i]));
        lemma_earlier(b[j], b[i], b[i]);
    } else if i < j {
        assert(earlier(b[i], b[j]));
        lemma_earlier(b[i], b[j], b[j]);
    }
}

/// Tidying never makes a log longer, so one under the cap stays under it.
pub proof fn law_tidying_never_grows_a_log<P: Payload>(
    tidy: Seq<Stamped<P>>,
    events: Seq<Stamped<P>>,
)
    requires
        tidy_of(tidy, events),
    ensures
        tidy.len() <= events.len(),
{
    assert forall|i: int, j: int| 0 <= i < tidy.len() && 0 <= j < tidy.len() && i != j implies tidy[i]
        != tidy[j] by {
        if i < j {
            assert(earlier(tidy[i], tidy[j]));
        } else {
            assert(earlier(tidy[j], tidy[i]));
        }
        lemma_earlier(tidy[i], tidy[j], tidy[j]);
        lemma_earlier(tidy[j], tidy[i], tidy[i]);
    }
    tidy.unique_seq_to_set();
    events.lemma_cardinality_of_set();
    assert(tidy.to_set().subset_of(events.to_set())) by {
        reveal(drawn_from);
    }
    vstd::set_lib::lemma_len_subset(tidy.to_set(), events.to_set());
}

/// A tidy log is one that tidying leaves alone, and that merging into itself
/// leaves alone.
pub proof fn law_a_sorted_log_is_tidy<P: Payload>(log: Seq<Stamped<P>>)
    requires
        strictly(log),
    ensures
        tidy_of(log, log),
        merged(log, log) == log,
{
    reveal(drawn_from);
    reveal(covers);
    assert forall|k: int| 0 <= k < log.len() implies covered(log, #[trigger] log[k]) && holds(
        log,
        log[k],
    ) by {
        assert(same(log[k], log[k]));
    }
    assert forall|i: int| 0 <= i < log.len() implies log.contains(#[trigger] log[i]) by {}
    law_redelivery_changes_nothing(log, log);
}

/// A merged log holds what the log held and what came in, and nothing else.
pub proof fn law_a_merge_holds_both<P: Payload>(
    log: Seq<Stamped<P>>,
    incoming: Seq<Stamped<P>>,
    s: Stamped<P>,
)
    requires
        strictly(log),
    ensures
        (exists|i: int|
            0 <= i < merged(log, incoming).len() && (#[trigger] merged(log, incoming)[i]).seq
                == s.seq && merged(log, incoming)[i].ev == s.ev) <==> (exists|i: int|
            0 <= i < log.len() && (#[trigger] log[i]).seq == s.seq && log[i].ev == s.ev) || (
        exists|k: int|
            0 <= k < incoming.len() && (#[trigger] incoming[k]).seq == s.seq && incoming[k].ev
                == s.ev),
{
    lemma_strictly_sorted(log);
    lemma_merged_has(log, incoming, s);
    let all = merged(log, incoming);
    assert(holds(all, s) <==> exists|i: int|
        0 <= i < all.len() && (#[trigger] all[i]).seq == s.seq && all[i].ev == s.ev) by {
        lemma_holds(all, s);
    }
    lemma_holds(log, s);
    lemma_holds(incoming, s);
}

proof fn lemma_holds<P>(log: Seq<Stamped<P>>, s: Stamped<P>)
    ensures
        holds(log, s) <==> exists|i: int|
            0 <= i < log.len() && (#[trigger] log[i]).seq == s.seq && log[i].ev == s.ev,
{
    if holds(log, s) {
        let i = choose|i: int| 0 <= i < log.len() && same(#[trigger] log[i], s);
        assert(log[i].seq == s.seq && log[i].ev == s.ev);
    }
    if exists|i: int| 0 <= i < log.len() && (#[trigger] log[i]).seq == s.seq && log[i].ev == s.ev {
        let i = choose|i: int|
            0 <= i < log.len() && (#[trigger] log[i]).seq == s.seq && log[i].ev == s.ev;
        assert(same(log[i], s));
    }
}

/// Nothing is made up in a merge: every entry, time and all, was in the log or
/// came in.
pub proof fn law_a_merge_makes_nothing_up<P: Payload>(
    log: Seq<Stamped<P>>,
    incoming: Seq<Stamped<P>>,
    i: int,
)
    requires
        strictly(log),
        0 <= i < merged(log, incoming).len(),
    ensures
        log.contains(merged(log, incoming)[i]) || incoming.contains(merged(log, incoming)[i]),
{
    lemma_merged_from(log, incoming, i);
    let s = merged(log, incoming)[i];
    let all = log + incoming;
    let m = choose|m: int| 0 <= m < all.len() && all[m] == s;
    if m < log.len() {
        assert(log[m] == s);
    } else {
        assert(incoming[m - log.len()] == s);
    }
}

/// A merged log stays in order, with nothing in it twice: by place in the log,
/// and by event where two share one.
pub proof fn law_a_merge_keeps_the_order<P: Payload>(
    log: Seq<Stamped<P>>,
    incoming: Seq<Stamped<P>>,
    i: int,
    j: int,
)
    requires
        strictly(log),
        0 <= i < j < merged(log, incoming).len(),
    ensures
        ({
            let (a, b) = (merged(log, incoming)[i], merged(log, incoming)[j]);
            a.seq < b.seq || a.seq == b.seq && a.ev.before(b.ev)
        }),
{
    lemma_strictly_sorted(log);
    lemma_merged(log, incoming);
}

/// There is news in what comes in exactly if it makes the log longer.
pub proof fn law_news_makes_a_log_grow<P: Payload>(
    log: Seq<Stamped<P>>,
    incoming: Seq<Stamped<P>>,
)
    requires
        sorted(log),
    ensures
        merged(log, incoming).len() >= log.len(),
        merged(log, incoming).len() <= log.len() + incoming.len(),
        brings_news(log, incoming) <==> merged(log, incoming).len() > log.len(),
    decreases incoming.len(),
{
    if incoming.len() > 0 {
        let less = incoming.drop_last();
        let last = incoming.last();
        let mid = merged(log, less);
        law_news_makes_a_log_grow(log, less);
        lemma_merged(log, less);
        lemma_slot(mid, last);
        lemma_merged_has(log, less, last);
        if brings_news(log, less) {
            let k = choose|k: int| 0 <= k < less.len() && !holds(log, #[trigger] less[k]);
            assert(!holds(log, incoming[k]));
        } else {
            if holds(less, last) {
                let k = choose|k: int| 0 <= k < less.len() && same(#[trigger] less[k], last);
                assert(holds(log, less[k]));
                let i = choose|i: int| 0 <= i < log.len() && same(#[trigger] log[i], less[k]);
                assert(same(log[i], last));
            }
            if holds(mid, last) {
                assert forall|k: int| 0 <= k < incoming.len() implies holds(
                    log,
                    #[trigger] incoming[k],
                ) by {
                    if k < less.len() {
                        assert(holds(log, less[k]));
                    }
                }
            } else {
                assert(!holds(log, incoming[incoming.len() - 1]));
            }
        }
    }
}

/// Tidying loses no event.
pub proof fn law_tidying_loses_nothing<P: Payload>(
    tidy: Seq<Stamped<P>>,
    events: Seq<Stamped<P>>,
    k: int,
)
    requires
        tidy_of(tidy, events),
        0 <= k < events.len(),
    ensures
        exists|i: int|
            0 <= i < tidy.len() && (#[trigger] tidy[i]).seq == events[k].seq && tidy[i].ev
                == events[k].ev,
{
    reveal(covers);
    assert(covered(tidy, events[k]));
    let m = choose|m: int|
        0 <= m < tidy.len() && same(#[trigger] tidy[m], events[k]) && tidy[m].at_ms
            <= events[k].at_ms;
    assert(tidy[m].seq == events[k].seq && tidy[m].ev == events[k].ev);
}

/// Tidied events are in order with nothing twice. Each is one of the events,
/// at the earliest time any copy of it bears.
pub proof fn law_tidying_keeps_each_event_at_its_earliest<P: Payload>(
    tidy: Seq<Stamped<P>>,
    events: Seq<Stamped<P>>,
)
    requires
        tidy_of(tidy, events),
    ensures
        forall|i: int, j: int|
            0 <= i < j < tidy.len() ==> (#[trigger] tidy[i]).seq < (#[trigger] tidy[j]).seq
                || tidy[i].seq == tidy[j].seq && tidy[i].ev.before(tidy[j].ev),
        forall|i: int| 0 <= i < tidy.len() ==> events.contains(#[trigger] tidy[i]),
        forall|i: int, k: int|
            0 <= i < tidy.len() && 0 <= k < events.len() && (#[trigger] tidy[i]).seq == (
            #[trigger] events[k]).seq && tidy[i].ev == events[k].ev ==> tidy[i].at_ms
                <= events[k].at_ms,
{
    reveal(drawn_from);
    reveal(covers);
    assert forall|i: int, j: int| 0 <= i < j < tidy.len() implies (#[trigger] tidy[i]).seq < (
    #[trigger] tidy[j]).seq || tidy[i].seq == tidy[j].seq && tidy[i].ev.before(tidy[j].ev) by {
        assert(earlier(tidy[i], tidy[j]));
    }
    assert forall|i: int, k: int|
        0 <= i < tidy.len() && 0 <= k < events.len() && (#[trigger] tidy[i]).seq == (
        #[trigger] events[k]).seq && tidy[i].ev == events[k].ev implies tidy[i].at_ms
        <= events[k].at_ms by {
        assert(covered(tidy, events[k]));
        let m = choose|m: int|
            0 <= m < tidy.len() && same(#[trigger] tidy[m], events[k]) && tidy[m].at_ms
                <= events[k].at_ms;
        if m < i {
            assert(earlier(tidy[m], tidy[i]));
            lemma_earlier(tidy[m], tidy[i], tidy[i]);
        } else if i < m {
            assert(earlier(tidy[i], tidy[m]));
            lemma_earlier(tidy[i], tidy[m], tidy[m]);
        }
    }
}

/// A clock never runs back. The next place is past every one seen so far,
/// unless that is the last there is.
pub proof fn law_clocks_run_on(clock: u32, seen: u32)
    ensures
        later(clock, seen) >= clock,
        later(clock, seen) >= seen,
        later(clock, seen) == clock || later(clock, seen) == seen,
        clock < u32::MAX ==> next_seq(clock) == clock + 1,
        clock == u32::MAX ==> next_seq(clock) == clock,
{
}

/// The place of a log's last entry is its highest.
pub proof fn law_the_last_entry_is_the_highest<P: Payload>(log: Seq<Stamped<P>>)
    requires
        strictly(log),
    ensures
        forall|i: int| 0 <= i < log.len() ==> (#[trigger] log[i]).seq <= last_seq(log),
        log.len() == 0 ==> last_seq(log) == 0,
        log.len() > 0 ==> last_seq(log) == log[log.len() - 1].seq,
{
    assert forall|i: int| 0 <= i < log.len() implies (#[trigger] log[i]).seq <= last_seq(log) by {
        if i < log.len() - 1 {
            assert(earlier(log[i], log[log.len() - 1]));
        }
    }
}

} // verus!
