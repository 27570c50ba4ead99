//! A replicated event log for two peers on an unreliable channel.
//!
//! The log is the state: peers exchange stamped events, keep them in one
//! agreed total order, and fold their own domain state from the result. This
//! module owns the order, the Lamport clock and the merge; what an event
//! *means* belongs to the application, which plugs in via [`Payload`].
use vstd::prelude::*;

pub mod laws;

verus! {

/// What the application's events must provide to travel through a log.
///
/// The order is not a formality: it is what breaks ties between two peers who
/// picked the same `seq`, so both sides sort the same log identically without
/// negotiating.
pub trait Payload: Copy {
    /// The strict order of events that share a `seq`.
    spec fn before(self, other: Self) -> bool;

    /// The bytes an event travels as.
    spec fn bytes(self) -> Seq<u8>;

    /// The event at the front of some bytes, and how many of them it takes.
    spec fn parse(bytes: Seq<u8>) -> Option<(Self, nat)>;

    /// An event the application could act on.
    spec fn allowed(self) -> bool;

    /// The order is strict and total.
    proof fn order_is_total(a: Self, b: Self, c: Self)
        ensures
            !a.before(a),
            a.before(b) && b.before(c) ==> a.before(c),
            a.before(b) || a == b || b.before(a),
    ;

    /// An event reads back, whatever follows it.
    proof fn reads_back(self, rest: Seq<u8>)
        ensures
            Self::parse(self.bytes() + rest) == Some((self, self.bytes().len())),
    ;

    /// An event takes no more bytes than there are.
    proof fn stays_within(bytes: Seq<u8>)
        ensures
            Self::parse(bytes) is Some ==> (Self::parse(bytes)->Some_0).1 <= bytes.len(),
    ;

    fn precedes(&self, other: &Self) -> (b: bool)
        ensures
            b == self.before(*other),
    ;

    /// Appends this event's bytes to `out`. The format is the application's
    /// protocol; once two peers have spoken it, changing it means versioning.
    fn encode(&self, out: &mut Vec<u8>)
        ensures
            final(out)@ == old(out)@ + self.bytes(),
    ;

    /// Decodes one event from the front of `bytes`, returning it and how many
    /// bytes it consumed. `None` means truncated or malformed.
    fn decode(bytes: &[u8]) -> (r: Option<(Self, usize)>)
        ensures
            match r {
                Some((ev, n)) => Self::parse(bytes@) == Some((ev, n as nat)),
                None => Self::parse(bytes@) is None,
            },
    ;

    /// Whether this event is one the application could act on.
    fn valid(&self) -> (b: bool)
        ensures
            b == self.allowed(),
    ;
}

/// An event with its place in the total order, and when it happened.
///
/// `seq` is a Lamport clock: one more than the highest any peer has been seen
/// to use. Two peers moving at the same time pick the same `seq`, so the
/// order of the events themselves breaks the tie.
///
/// `at_ms` is the author's wall clock, in Unix milliseconds. It is last in the
/// field order, and therefore in the derived order, because it must never
/// decide the order of two events.
#[derive(Clone, Copy, PartialEq, Eq, PartialOrd, Ord, Debug)]
pub struct Stamped<P> {
    pub seq: u32,
    pub ev: P,
    pub at_ms: u64,
}

/// `a` comes before `b` in every log.
pub open spec fn earlier<P: Payload>(a: Stamped<P>, b: Stamped<P>) -> bool {
    a.seq < b.seq || (a.seq == b.seq && a.ev.before(b.ev))
}

/// `a` and `b` are the same event, whenever either says it was made.
pub open spec fn same<P>(a: Stamped<P>, b: Stamped<P>) -> bool {
    a.seq == b.seq && a.ev == b.ev
}

/// No entry comes before one that stands ahead of it.
pub open spec fn sorted<P: Payload>(log: Seq<Stamped<P>>) -> bool {
    forall|i: int, j: int| 0 <= i < j < log.len() ==> !earlier(#[trigger] log[j], #[trigger] log[i])
}

/// Every entry comes before all that stand behind it: sorted, and nothing
/// twice.
pub open spec fn strictly<P: Payload>(log: Seq<Stamped<P>>) -> bool {
    forall|i: int, j: int| 0 <= i < j < log.len() ==> earlier(#[trigger] log[i], #[trigger] log[j])
}

/// The log holds this event, at whatever time.
pub open spec fn holds<P>(log: Seq<Stamped<P>>, s: Stamped<P>) -> bool {
    exists|i: int| 0 <= i < log.len() && same(#[trigger] log[i], s)
}

/// Where `s` belongs: behind the last entry that comes before it.
pub open spec fn slot<P: Payload>(log: Seq<Stamped<P>>, s: Stamped<P>) -> nat
    decreases log.len(),
{
    if log.len() == 0 {
        0
    } else if earlier(log.last(), s) {
        log.len()
    } else {
        slot(log.drop_last(), s)
    }
}

/// The log with one event more, unless it holds that event already.
pub open spec fn inserted<P: Payload>(log: Seq<Stamped<P>>, s: Stamped<P>) -> Seq<Stamped<P>> {
    if holds(log, s) {
        log
    } else {
        log.insert(slot(log, s) as int, s)
    }
}

/// The log with each of the incoming events inserted in turn.
pub open spec fn merged<P: Payload>(
    log: Seq<Stamped<P>>,
    incoming: Seq<Stamped<P>>,
) -> Seq<Stamped<P>>
    decreases incoming.len(),
{
    if incoming.len() == 0 {
        log
    } else {
        inserted(merged(log, incoming.drop_last()), incoming.last())
    }
}

/// Something incoming is not in the log.
pub open spec fn brings_news<P>(log: Seq<Stamped<P>>, incoming: Seq<Stamped<P>>) -> bool {
    exists|k: int| 0 <= k < incoming.len() && !holds(log, #[trigger] incoming[k])
}

/// `tidy` is what `events` come to once sorted and freed of duplicates: each
/// event once, in order, with the earliest time that any copy of it bears.
pub open spec fn tidy_of<P: Payload>(tidy: Seq<Stamped<P>>, events: Seq<Stamped<P>>) -> bool {
    strictly(tidy) && drawn_from(tidy, events) && covers(tidy, events)
}

/// Every entry is one of the events.
#[verifier::opaque]
pub open spec fn drawn_from<P>(log: Seq<Stamped<P>>, events: Seq<Stamped<P>>) -> bool {
    forall|i: int| 0 <= i < log.len() ==> events.contains(#[trigger] log[i])
}

/// Every event is in the log, no later than it says.
#[verifier::opaque]
pub open spec fn covers<P>(log: Seq<Stamped<P>>, events: Seq<Stamped<P>>) -> bool {
    forall|k: int| 0 <= k < events.len() ==> covered(log, #[trigger] events[k])
}

/// The log holds this event, no later than it says.
pub open spec fn covered<P>(log: Seq<Stamped<P>>, s: Stamped<P>) -> bool {
    exists|i: int| 0 <= i < log.len() && same(#[trigger] log[i], s) && log[i].at_ms <= s.at_ms
}

pub proof fn lemma_earlier<P: Payload>(a: Stamped<P>, b: Stamped<P>, c: Stamped<P>)
    ensures
        !earlier(a, a),
        same(a, b) ==> !earlier(a, b),
        earlier(a, b) ==> !earlier(b, a),
        earlier(a, b) && earlier(b, c) ==> earlier(a, c),
        earlier(a, b) && same(b, c) ==> earlier(a, c),
        same(a, b) && earlier(b, c) ==> earlier(a, c),
        earlier(a, b) || same(a, b) || earlier(b, a),
{
    P::order_is_total(a.ev, b.ev, c.ev);
    P::order_is_total(b.ev, a.ev, c.ev);
    P::order_is_total(a.ev, b.ev, a.ev);
}

/// The slot parts what comes before `s` from what does not.
pub proof fn lemma_slot<P: Payload>(log: Seq<Stamped<P>>, s: Stamped<P>)
    requires
        sorted(log),
    ensures
        slot(log, s) <= log.len(),
        forall|i: int| 0 <= i < slot(log, s) ==> earlier(#[trigger] log[i], s),
        forall|i: int| slot(log, s) <= i < log.len() ==> !earlier(#[trigger] log[i], s),
    decreases log.len(),
{
    if log.len() > 0 {
        let rest = log.drop_last();
        assert(log.last() == log[log.len() - 1]);
        if earlier(log.last(), s) {
            assert forall|i: int| 0 <= i < log.len() implies earlier(#[trigger] log[i], s) by {
                if i < log.len() - 1 {
                    let l = log[log.len() - 1];
                    assert(!earlier(l, log[i]));
                    lemma_earlier(log[i], l, s);
                }
            }
        } else {
            lemma_slot(rest, s);
            assert forall|i: int| 0 <= i < slot(log, s) implies earlier(#[trigger] log[i], s) by {
                assert(rest[i] == log[i]);
            }
            assert forall|i: int| slot(log, s) <= i < log.len() implies !earlier(
                #[trigger] log[i],
                s,
            ) by {
                if i < rest.len() {
                    assert(rest[i] == log[i]);
                }
            }
        }
    }
}

/// There is one way to part a log around `s`.
pub proof fn lemma_slot_is<P: Payload>(log: Seq<Stamped<P>>, s: Stamped<P>, at: int)
    requires
        sorted(log),
        0 <= at <= log.len(),
        at > 0 ==> earlier(log[at - 1], s),
        at < log.len() ==> !earlier(log[at], s),
    ensures
        slot(log, s) == at,
{
    lemma_slot(log, s);
}

/// A new entry in its slot keeps the order.
pub proof fn lemma_inserted<P: Payload>(log: Seq<Stamped<P>>, s: Stamped<P>)
    requires
        sorted(log),
    ensures
        sorted(inserted(log, s)),
        strictly(log) ==> strictly(inserted(log, s)),
        holds(inserted(log, s), s),
{
    lemma_slot(log, s);
    if !holds(log, s) {
        let at = slot(log, s) as int;
        let new = inserted(log, s);
        assert(new[at] == s);
        assert(same(new[at], s));
        assert forall|i: int, j: int| 0 <= i < j < new.len() implies !earlier(
            #[trigger] new[j],
            #[trigger] new[i],
        ) && (strictly(log) ==> earlier(new[i], new[j])) by {
            if i != at && j != at {
                let oi = if i < at {
                    i
                } else {
                    i - 1
                };
                let oj = if j < at {
                    j
                } else {
                    j - 1
                };
                assert(new[i] == log[oi] && new[j] == log[oj]);
            } else if i == at {
                assert(new[j] == log[j - 1]);
                assert(!same(log[j - 1], s));
                lemma_earlier(log[j - 1], s, s);
                lemma_earlier(s, log[j - 1], s);
            } else {
                assert(new[i] == log[i]);
                lemma_earlier(log[i], s, s);
            }
        }
    }
}

pub proof fn lemma_strictly_sorted<P: Payload>(log: Seq<Stamped<P>>)
    requires
        strictly(log),
    ensures
        sorted(log),
{
    assert forall|i: int, j: int| 0 <= i < j < log.len() implies !earlier(
        #[trigger] log[j],
        #[trigger] log[i],
    ) by {
        lemma_earlier(log[i], log[j], log[j]);
    }
}

pub proof fn lemma_merged<P: Payload>(log: Seq<Stamped<P>>, incoming: Seq<Stamped<P>>)
    requires
        sorted(log),
    ensures
        sorted(merged(log, incoming)),
        strictly(log) ==> strictly(merged(log, incoming)),
    decreases incoming.len(),
{
    if incoming.len() > 0 {
        lemma_merged(log, incoming.drop_last());
        lemma_inserted(merged(log, incoming.drop_last()), incoming.last());
    }
}

/// What the log held, and what has come in, is held.
pub proof fn lemma_merged_has<P: Payload>(
    log: Seq<Stamped<P>>,
    incoming: Seq<Stamped<P>>,
    s: Stamped<P>,
)
    requires
        sorted(log),
    ensures
        holds(merged(log, incoming), s) <==> holds(log, s) || holds(incoming, s),
    decreases incoming.len(),
{
    if incoming.len() > 0 {
        let less = incoming.drop_last();
        let last = incoming.last();
        let mid = merged(log, less);
        lemma_merged_has(log, less, s);
        lemma_merged(log, less);
        lemma_has_push(less, last, s);
        assert(less.push(last) =~= incoming);
        lemma_inserted_has(mid, last, s);
    }
}

proof fn lemma_has_push<P>(log: Seq<Stamped<P>>, last: Stamped<P>, s: Stamped<P>)
    ensures
        holds(log.push(last), s) <==> holds(log, s) || same(last, s),
{
    let all = log.push(last);
    if holds(log, s) {
        let i = choose|i: int| 0 <= i < log.len() && same(#[trigger] log[i], s);
        assert(all[i] == log[i]);
    }
    if same(last, s) {
        assert(all[log.len() as int] == last);
    }
    if holds(all, s) {
        let i = choose|i: int| 0 <= i < all.len() && same(#[trigger] all[i], s);
        if i < log.len() {
            assert(log[i] == all[i]);
        }
    }
}

pub proof fn lemma_inserted_has<P: Payload>(
    log: Seq<Stamped<P>>,
    new: Stamped<P>,
    s: Stamped<P>,
)
    requires
        sorted(log),
    ensures
        holds(inserted(log, new), s) <==> holds(log, s) || same(new, s),
{
    lemma_slot(log, new);
    lemma_inserted(log, new);
    let at = slot(log, new) as int;
    let all = inserted(log, new);
    if holds(log, new) {
        if same(new, s) {
            let i = choose|i: int| 0 <= i < log.len() && same(#[trigger] log[i], new);
            assert(same(log[i], s));
        }
    } else {
        if holds(log, s) {
            let i = choose|i: int| 0 <= i < log.len() && same(#[trigger] log[i], s);
            assert(same(all[if i < at { i } else { i + 1 }], s));
        }
        if same(new, s) {
            assert(same(all[at], s));
        }
        if holds(all, s) {
            let i = choose|i: int| 0 <= i < all.len() && same(#[trigger] all[i], s);
            if i != at {
                assert(same(log[if i < at { i } else { i - 1 }], s));
            }
        }
    }
}

/// Where the event is, or the slot it belongs in.
fn find<P: Payload>(log: &Vec<Stamped<P>>, s: &Stamped<P>) -> (r: Result<usize, usize>)
    requires
        sorted(log@),
    ensures
        match r {
            Ok(i) => i < log@.len() && same(log@[i as int], *s),
            Err(i) => !holds(log@, *s) && i == slot(log@, *s),
        },
{
    let mut lo: usize = 0;
    let mut hi: usize = log.len();
    while lo < hi
        invariant
            sorted(log@),
            lo <= hi <= log@.len(),
            forall|i: int| 0 <= i < lo ==> earlier(#[trigger] log@[i], *s),
            forall|i: int| hi <= i < log@.len() ==> earlier(*s, #[trigger] log@[i]),
        decreases hi - lo,
    {
        let mid: usize = lo + (hi - lo) / 2;
        let p: &Stamped<P> = &log[mid];
        if p.seq < s.seq || (p.seq == s.seq && p.ev.precedes(&s.ev)) {
            proof {
                assert forall|i: int| 0 <= i < mid + 1 implies earlier(#[trigger] log@[i], *s) by {
                    if i < mid {
                        assert(!earlier(log@[mid as int], log@[i]));
                        lemma_earlier(log@[i], log@[mid as int], *s);
                    }
                }
            }
            lo = mid + 1;
        } else if s.seq < p.seq || (p.seq == s.seq && s.ev.precedes(&p.ev)) {
            proof {
                assert forall|i: int| mid <= i < log@.len() implies earlier(
                    *s,
                    #[trigger] log@[i],
                ) by {
                    if i > mid {
                        assert(!earlier(log@[i], log@[mid as int]));
                        lemma_earlier(*s, log@[mid as int], log@[i]);
                        lemma_earlier(log@[mid as int], log@[i], log@[i]);
                    }
                }
            }
            hi = mid;
        } else {
            proof {
                lemma_earlier(*p, *s, *s);
            }
            return Ok(mid);
        }
    }
    proof {
        assert forall|i: int| 0 <= i < log@.len() implies !same(#[trigger] log@[i], *s) by {
            lemma_earlier(log@[i], *s, *s);
            lemma_earlier(*s, log@[i], *s);
        }
        if lo < log@.len() {
            lemma_earlier(*s, log@[lo as int], *s);
        }
        lemma_slot_is(log@, *s, lo as int);
    }
    Err(lo)
}

/// Folds a peer's events into `log` and returns whether anything was new.
///
/// The log is kept sorted by an order both peers agree on, so it does not
/// matter who heard what first. An event is identified by its place in the
/// order and what it does, *not* by when it was made: re-delivery of an event
/// we already have is a no-op rather than a second move.
pub fn merge<P: Payload>(log: &mut Vec<Stamped<P>>, incoming: &[Stamped<P>]) -> (changed: bool)
    requires
        sorted(old(log)@),
    ensures
        final(log)@ == merged(old(log)@, incoming@),
        sorted(final(log)@),
        strictly(old(log)@) ==> strictly(final(log)@),
        changed == brings_news(old(log)@, incoming@),
{
    let ghost before = log@;
    let mut changed: bool = false;
    let mut k: usize = 0;
    assert(incoming@.take(0) =~= seq![]);
    while k < incoming.len()
        invariant
            k <= incoming@.len(),
            sorted(before),
            sorted(log@),
            log@ == merged(before, incoming@.take(k as int)),
            changed == brings_news(before, incoming@.take(k as int)),
        decreases incoming@.len() - k,
    {
        let s: Stamped<P> = incoming[k];
        let ghost had = incoming@.take(k as int);
        let ghost now = incoming@.take(k + 1);
        proof {
            assert(now.drop_last() =~= had);
            assert(now.last() == s);
            lemma_inserted(log@, s);
            lemma_merged_has(before, had, s);
            lemma_news(before, had, s);
            assert(now =~= had.push(s));
        }
        match find(log, &s) {
            Ok(i) => {
                assert(holds(log@, s));
            },
            Err(i) => {
                proof {
                    lemma_slot(log@, s);
                }
                log.insert(i, s);
                changed = true;
            },
        }
        k = k + 1;
    }
    proof {
        assert(incoming@.take(k as int) =~= incoming@);
        lemma_merged(before, incoming@);
    }
    changed
}

/// One more event brings news where it is in neither the log nor what came
/// before it.
proof fn lemma_news<P: Payload>(log: Seq<Stamped<P>>, had: Seq<Stamped<P>>, s: Stamped<P>)
    ensures
        brings_news(log, had.push(s)) <==> brings_news(log, had) || !(holds(log, s) || holds(had, s)),
{
    let all = had.push(s);
    assert(all[had.len() as int] == s);
    if brings_news(log, had) {
        let k = choose|k: int| 0 <= k < had.len() && !holds(log, #[trigger] had[k]);
        assert(!holds(log, all[k]));
    }
    if brings_news(log, all) {
        let k = choose|k: int| 0 <= k < all.len() && !holds(log, #[trigger] all[k]);
        if k < had.len() {
            assert(!holds(log, had[k]));
        }
    }
    if !holds(log, s) && holds(had, s) {
        let i = choose|i: int| 0 <= i < had.len() && same(#[trigger] had[i], s);
        if holds(log, had[i]) {
            let j = choose|j: int| 0 <= j < log.len() && same(#[trigger] log[j], had[i]);
            assert(same(log[j], s));
        }
    }
}

/// Whether merging `incoming` could push a log past `cap`. Saturating, so a
/// peer claiming an absurd count cannot wrap the sum into "plenty of room".
pub fn overflows(ours: usize, incoming: usize, cap: usize) -> (b: bool)
    ensures
        b == (if ours + incoming > usize::MAX {
            cap < usize::MAX
        } else {
            ours + incoming > cap
        }),
{
    ours.saturating_add(incoming) > cap
}

proof fn lemma_contains_push<P>(events: Seq<Stamped<P>>, s: Stamped<P>, x: Stamped<P>)
    requires
        events.contains(x) || x == s,
    ensures
        events.push(s).contains(x),
{
    let all = events.push(s);
    if x == s {
        assert(all[events.len() as int] == x);
    } else {
        let i = choose|i: int| 0 <= i < events.len() && events[i] == x;
        assert(all[i] == x);
    }
}

/// A new event goes in its slot.
pub proof fn lemma_tidy_insert<P: Payload>(
    tidy: Seq<Stamped<P>>,
    events: Seq<Stamped<P>>,
    s: Stamped<P>,
)
    requires
        tidy_of(tidy, events),
        !holds(tidy, s),
    ensures
        tidy_of(tidy.insert(slot(tidy, s) as int, s), events.push(s)),
{
    reveal(drawn_from);
    reveal(covers);
    let all = events.push(s);
    lemma_strictly_sorted(tidy);
    lemma_inserted(tidy, s);
    lemma_slot(tidy, s);
    let p = slot(tidy, s) as int;
    let next = tidy.insert(p, s);
    assert(next[p] == s);
    assert forall|i: int| 0 <= i < next.len() implies all.contains(#[trigger] next[i]) by {
        let x = next[i];
        if i < p {
            assert(x == tidy[i]);
            assert(events.contains(tidy[i]));
        } else if i > p {
            assert(x == tidy[i - 1]);
            assert(events.contains(tidy[i - 1]));
        }
        lemma_contains_push(events, s, x);
    }
    assert forall|k: int| 0 <= k < all.len() implies covered(next, #[trigger] all[k]) by {
        if k < events.len() {
            let e = events[k];
            assert(covered(tidy, e));
            let i = choose|i: int|
                0 <= i < tidy.len() && same(#[trigger] tidy[i], e) && tidy[i].at_ms <= e.at_ms;
            let j = if i < p {
                i
            } else {
                i + 1
            };
            assert(next[j] == tidy[i]);
            assert(all[k] == e);
        } else {
            assert(all[k] == s);
            assert(same(next[p], s));
        }
    }
}

/// Of an event that is there already, the earlier time stays.
pub proof fn lemma_tidy_again<P: Payload>(
    tidy: Seq<Stamped<P>>,
    events: Seq<Stamped<P>>,
    s: Stamped<P>,
    at: int,
)
    requires
        tidy_of(tidy, events),
        0 <= at < tidy.len(),
        same(tidy[at], s),
    ensures
        tidy_of(
            if s.at_ms < tidy[at].at_ms {
                tidy.update(at, s)
            } else {
                tidy
            },
            events.push(s),
        ),
{
    reveal(drawn_from);
    reveal(covers);
    let all = events.push(s);
    let next = if s.at_ms < tidy[at].at_ms {
        tidy.update(at, s)
    } else {
        tidy
    };
    assert forall|i: int, j: int| 0 <= i < j < next.len() implies earlier(
        #[trigger] next[i],
        #[trigger] next[j],
    ) by {
        assert(earlier(tidy[i], tidy[j]));
        assert(same(next[i], tidy[i]) && same(next[j], tidy[j]));
    }
    assert forall|i: int| 0 <= i < next.len() implies all.contains(#[trigger] next[i]) by {
        assert(events.contains(tidy[i]));
        lemma_contains_push(events, s, next[i]);
    }
    assert forall|k: int| 0 <= k < all.len() implies covered(next, #[trigger] all[k]) by {
        if k < events.len() {
            let e = events[k];
            assert(all[k] == e);
            assert(covered(tidy, e));
            let i = choose|i: int|
                0 <= i < tidy.len() && same(#[trigger] tidy[i], e) && tidy[i].at_ms <= e.at_ms;
            assert(same(next[i], e) && next[i].at_ms <= e.at_ms);
        } else {
            assert(all[k] == s);
            assert(same(next[at], s));
        }
    }
}

/// Puts `s` in its place, or keeps the earlier time of the two where it is
/// there already.
fn keep_earliest<P: Payload>(tidy: &mut Vec<Stamped<P>>, s: Stamped<P>)
    requires
        strictly(old(tidy)@),
    ensures
        forall|events: Seq<Stamped<P>>| #[trigger]
            tidy_of(old(tidy)@, events) ==> tidy_of(final(tidy)@, events.push(s)),
{
    let ghost was = tidy@;
    proof {
        lemma_strictly_sorted(was);
    }
    match find(tidy, &s) {
        Ok(i) => {
            if s.at_ms < tidy[i].at_ms {
                tidy.set(i, s);
            }
            proof {
                assert forall|events: Seq<Stamped<P>>| #[trigger] tidy_of(was, events) implies tidy_of(
                    tidy@,
                    events.push(s),
                ) by {
                    lemma_tidy_again(was, events, s, i as int);
                }
            }
        },
        Err(i) => {
            proof {
                lemma_slot(was, s);
            }
            tidy.insert(i, s);
            proof {
                assert forall|events: Seq<Stamped<P>>| #[trigger] tidy_of(was, events) implies tidy_of(
                    tidy@,
                    events.push(s),
                ) by {
                    lemma_tidy_insert(was, events, s);
                }
            }
        },
    }
}

/// A log we are about to adopt wholesale has to be one we could have built
/// ourselves: bounded by `cap`, sorted, free of duplicates, and opening with
/// an event `opens` recognises at seq 0. [`merge`] searches this afterwards,
/// so an unsorted log would quietly disable de-duplication for the rest of
/// the session.
pub fn sanitised<P: Payload>(
    events: Vec<Stamped<P>>,
    cap: usize,
    opens: impl Fn(&P) -> bool,
) -> (r: Option<Vec<Stamped<P>>>)
    requires
        forall|p: &P| #[trigger] call_requires(opens, (p,)),
    ensures
        match r {
            Some(tidy) => {
                &&& events@.len() <= cap
                &&& tidy_of(tidy@, events@)
                &&& tidy@.len() > 0
                &&& tidy@[0].seq == 0
                &&& call_ensures(opens, (&tidy@[0].ev,), true)
            },
            None => {
                ||| events@.len() > cap
                ||| exists|tidy: Seq<Stamped<P>>| #[trigger]
                    tidy_of(tidy, events@) && (tidy.len() == 0 || tidy[0].seq != 0 || call_ensures(
                        opens,
                        (&tidy[0].ev,),
                        false,
                    ))
            },
        },
{
    if events.len() > cap {
        return None;
    }
    let mut tidy: Vec<Stamped<P>> = Vec::new();
    let mut k: usize = 0;
    assert(tidy_of(tidy@, events@.take(0))) by {
        reveal(drawn_from);
        reveal(covers);
    }
    while k < events.len()
        invariant
            k <= events@.len(),
            tidy_of(tidy@, events@.take(k as int)),
        decreases events@.len() - k,
    {
        let s: Stamped<P> = events[k];
        assert(events@.take(k + 1) =~= events@.take(k as int).push(s));
        keep_earliest(&mut tidy, s);
        k = k + 1;
    }
    assert(events@.take(k as int) =~= events@);
    if tidy.len() > 0 && tidy[0].seq == 0 && opens(&tidy[0].ev) {
        Some(tidy)
    } else {
        None
    }
}

/// The log plus the Lamport clock that stamps additions to it. Owning both
/// keeps the two invariants that are easy to lose in application code: a
/// local event always sorts after everything already seen, and the clock
/// never falls behind a merged-in peer's.
#[derive(Clone, Debug)]
pub struct Log<P> {
    events: Vec<Stamped<P>>,
    clock: u32,
}

/// The entries, in order.
impl<P> View for Log<P> {
    type V = Seq<Stamped<P>>;

    closed spec fn view(&self) -> Seq<Stamped<P>> {
        self.events@
    }
}

impl<P> Log<P> {
    /// The highest `seq` this log has seen or used.
    pub closed spec fn clock(&self) -> u32 {
        self.clock
    }

    /// The entries, as a slice.
    pub fn as_slice(&self) -> (s: &[Stamped<P>])
        ensures
            s@ == self@,
    {
        self.events.as_slice()
    }

    pub fn len(&self) -> (n: usize)
        ensures
            n == self@.len(),
    {
        self.events.len()
    }
}

/// Reading a log is reading a slice.
impl<P> std::ops::Deref for Log<P> {
    type Target = [Stamped<P>];

    fn deref(&self) -> (s: &[Stamped<P>])
        ensures
            s@ == self@,
    {
        self.events.as_slice()
    }
}

/// The later of two clock readings.
pub open spec fn later(a: u32, b: u32) -> u32 {
    if a < b {
        b
    } else {
        a
    }
}

/// The `seq` of the last entry, nought where there is none.
pub open spec fn last_seq<P>(log: Seq<Stamped<P>>) -> u32 {
    if log.len() == 0 {
        0
    } else {
        log.last().seq
    }
}

/// The `seq` that follows, or the last one there is.
pub open spec fn next_seq(clock: u32) -> u32 {
    if clock == u32::MAX {
        clock
    } else {
        (clock + 1) as u32
    }
}

impl<P: Payload> Log<P> {
    /// Sorted, nothing twice, and the clock not behind any entry.
    pub open spec fn wf(&self) -> bool {
        &&& strictly(self@)
        &&& forall|i: int| 0 <= i < self@.len() ==> (#[trigger] self@[i]).seq <= self.clock()
    }

    /// A fresh log opened by its first event, at seq 0 — the shape
    /// [`sanitised`] demands of any log worth adopting.
    pub fn open(first: P, at_ms: u64) -> (log: Self)
        ensures
            log.wf(),
            log@ == seq![Stamped { seq: 0u32, ev: first, at_ms }],
            log.clock() == 0,
    {
        let s: Stamped<P> = Stamped { seq: 0, ev: first, at_ms };
        let mut events: Vec<Stamped<P>> = Vec::new();
        events.push(s);
        let log = Log { events, clock: 0 };
        assert(log@ =~= seq![s]);
        log
    }

    /// Stamps and records a local event, returning the stamp so the caller
    /// can send it. The clock saturates: a peer can hand us the highest `seq`
    /// there is, and wrapping would put our next event at the very start of
    /// the log.
    pub fn append(&mut self, ev: P, at_ms: u64) -> (s: Stamped<P>)
        requires
            old(self).wf(),
        ensures
            final(self).wf(),
            s == (Stamped { seq: next_seq(old(self).clock()), ev, at_ms }),
            final(self).clock() == next_seq(old(self).clock()),
            final(self)@ == inserted(old(self)@, s),
            old(self).clock() < u32::MAX ==> final(self)@ == old(self)@.push(s),
    {
        let ghost before = self@;
        self.clock = self.clock.saturating_add(1);
        let s: Stamped<P> = Stamped { seq: self.clock, ev, at_ms };
        proof {
            lemma_strictly_sorted(before);
            lemma_inserted(before, s);
            lemma_slot(before, s);
        }
        let one: [Stamped<P>; 1] = [s];
        // Through `merge`, not `push`: a pinned clock gives a `seq` that the
        // log may hold already.
        merge(&mut self.events, &one);
        proof {
            assert(one@ =~= seq![s]);
            assert(one@.drop_last() =~= seq![]);
            assert(one@.last() == s);
            assert(merged(before, one@.drop_last()) == before);
            assert(self@ == inserted(before, s));
            if old(self).clock() < u32::MAX {
                if holds(before, s) {
                    let i = choose|i: int| 0 <= i < before.len() && same(#[trigger] before[i], s);
                    assert(before[i].seq <= old(self).clock());
                }
                lemma_slot_is(before, s, before.len() as int);
                assert(self@ =~= before.push(s));
            }
            assert forall|i: int| 0 <= i < self@.len() implies (#[trigger] self@[i]).seq
                <= self.clock() by {
                if !holds(before, s) {
                    let at = slot(before, s) as int;
                    if i < at {
                        assert(self@[i] == before[i]);
                    } else if i > at {
                        assert(self@[i] == before[i - 1]);
                    } else {
                        assert(self@[i] == s);
                    }
                } else {
                    assert(self@[i] == before[i]);
                }
            }
        }
        s
    }

    /// Folds a peer's events in; returns whether anything was new.
    pub fn merge(&mut self, incoming: &[Stamped<P>]) -> (new: bool)
        requires
            old(self).wf(),
        ensures
            final(self).wf(),
            final(self)@ == merged(old(self)@, incoming@),
            final(self).clock() == later(old(self).clock(), last_seq(final(self)@)),
            new == brings_news(old(self)@, incoming@),
    {
        proof {
            lemma_strictly_sorted(self@);
        }
        let new: bool = merge(&mut self.events, incoming);
        self.catch_up();
        new
    }

    /// Replaces the whole log — a handover of somebody else's game. The
    /// caller decides *whether* (see [`sanitised`]); this keeps the clock
    /// honest afterwards.
    pub fn adopt(&mut self, events: Vec<Stamped<P>>)
        ensures
            final(self)@ == events@,
            final(self).clock() == later(old(self).clock(), last_seq(events@)),
            strictly(events@) ==> final(self).wf(),
    {
        self.events = events;
        self.catch_up();
    }

    /// Our clock must outrun anything we have now seen, or our next event
    /// would sort before one that has already happened.
    fn catch_up(&mut self)
        ensures
            final(self)@ == old(self)@,
            final(self).clock() == later(old(self).clock(), last_seq(old(self)@)),
            strictly(old(self)@) ==> final(self).wf(),
    {
        let n: usize = self.events.len();
        if n > 0 {
            let last: u32 = self.events[n - 1].seq;
            if self.clock < last {
                self.clock = last;
            }
        }
        proof {
            if strictly(self@) {
                assert forall|i: int| 0 <= i < self@.len() implies (#[trigger] self@[i]).seq
                    <= self.clock() by {
                    if i < self@.len() - 1 {
                        assert(earlier(self@[i], self@[self@.len() - 1]));
                    }
                }
            }
        }
    }
}

} // verus!
