//! The byte format around the events.
//!
//! Little-endian. A stamped event is `seq(4) at_ms(8)` followed by the
//! payload's own bytes; a message is a one-byte envelope. Every decode path is
//! a trust boundary — the bytes arrive from a peer, and a peer can be buggy,
//! outdated, or hostile. Malformed input returns `None` and the caller drops
//! the message.
use vstd::prelude::*;
use vstd::slice::slice_subrange;

use crate::bytes::{
    get_le, law_le_reads_back, law_le_writes_back, le, le_value, lemma_le_len, lemma_rooms,
    put_le,
};
use crate::eventlog::{Payload, Stamped};

verus! {

/// The `seq` + `at_ms` prefix on every record in a log.
pub const STAMP_LEN: usize = 12;

/// The length of a state message.
pub const STATE_LEN: usize = 13;

const MSG_EVENTS: u8 = 0x00;

const MSG_STATE: u8 = 0x01;

/// What one message on the channel can be.
///
/// The event stream alone cannot carry a checksum, so messages get a one-byte
/// envelope. Two kinds is all a replicated log needs: events, and "here is
/// what my state looks like now".
#[derive(Clone, PartialEq, Eq, Debug)]
pub enum Msg<P> {
    Events(Vec<Stamped<P>>),
    /// The sender's state hash after applying `count` events. Compared only
    /// when the receiver is also at `count` — different counts just mean one
    /// side is behind, which is normal and not a desync.
    State { count: u32, hash: u64 },
}

/// A message, its events as a sequence.
pub enum Message<P> {
    Events(Seq<Stamped<P>>),
    State { count: u32, hash: u64 },
}

impl<P> View for Msg<P> {
    type V = Message<P>;

    open spec fn view(&self) -> Message<P> {
        match self {
            Msg::Events(events) => Message::Events(events@),
            Msg::State { count, hash } => Message::State { count: *count, hash: *hash },
        }
    }
}

/// The bytes of one record.
pub open spec fn stamped_bytes<P: Payload>(s: Stamped<P>) -> Seq<u8> {
    le(s.seq as nat, 4) + le(s.at_ms as nat, 8) + s.ev.bytes()
}

/// The record at the front of some bytes, and its length.
pub open spec fn parse_stamped<P: Payload>(b: Seq<u8>) -> Option<(Stamped<P>, nat)> {
    if b.len() < 12 {
        None
    } else {
        match P::parse(b.skip(12)) {
            None => None,
            Some((ev, n)) => Some(
                (
                    Stamped {
                        seq: le_value(b.subrange(0, 4)) as u32,
                        ev,
                        at_ms: le_value(b.subrange(4, 12)) as u64,
                    },
                    12 + n,
                ),
            ),
        }
    }
}

/// The bytes of a log: its records, one after the other.
pub open spec fn log_bytes<P: Payload>(log: Seq<Stamped<P>>) -> Seq<u8>
    decreases log.len(),
{
    if log.len() == 0 {
        seq![]
    } else {
        log_bytes(log.drop_last()) + stamped_bytes(log.last())
    }
}

/// The log that some bytes are from end to end. A record that is malformed or
/// cut short makes the whole of it nothing.
pub open spec fn parse_log<P: Payload>(b: Seq<u8>) -> Option<Seq<Stamped<P>>>
    decreases b.len(),
{
    if b.len() == 0 {
        Some(seq![])
    } else {
        match parse_stamped::<P>(b) {
            None => None,
            Some((s, n)) => if 0 < n <= b.len() {
                match parse_log::<P>(b.skip(n as int)) {
                    None => None,
                    Some(rest) => Some(seq![s] + rest),
                }
            } else {
                None
            },
        }
    }
}

/// Every event is one the application could act on.
pub open spec fn all_allowed<P: Payload>(log: Seq<Stamped<P>>) -> bool {
    forall|i: int| 0 <= i < log.len() ==> (#[trigger] log[i]).ev.allowed()
}

pub open spec fn msg_bytes<P: Payload>(m: Message<P>) -> Seq<u8> {
    match m {
        Message::Events(events) => seq![0u8] + log_bytes(events),
        Message::State { count, hash } => seq![1u8] + le(count as nat, 4) + le(hash as nat, 8),
    }
}

/// The message that some bytes are. One event that could not be acted on
/// makes the whole of it nothing: half a log is how peers diverge quietly.
pub open spec fn parse_msg<P: Payload>(b: Seq<u8>) -> Option<Message<P>> {
    if b.len() > 0 && b[0] == 0 {
        match parse_log::<P>(b.skip(1)) {
            Some(log) => if all_allowed(log) {
                Some(Message::Events(log))
            } else {
                None
            },
            None => None,
        }
    } else if b.len() == 13 && b[0] == 1 {
        Some(
            Message::State {
                count: le_value(b.subrange(1, 5)) as u32,
                hash: le_value(b.subrange(5, 13)) as u64,
            },
        )
    } else {
        None
    }
}

impl<P: Payload> Stamped<P> {
    pub fn encode(&self, out: &mut Vec<u8>)
        ensures
            final(out)@ == old(out)@ + stamped_bytes(*self),
    {
        put_le(out, self.seq as u64, 4);
        put_le(out, self.at_ms, 8);
        self.ev.encode(out);
        assert(out@ =~= old(out)@ + stamped_bytes(*self));
    }

    pub fn decode(bytes: &[u8]) -> (r: Option<(Stamped<P>, usize)>)
        ensures
            match r {
                Some((s, n)) => parse_stamped::<P>(bytes@) == Some((s, n as nat)) && STAMP_LEN <= n
                    <= bytes@.len(),
                None => parse_stamped::<P>(bytes@) is None,
            },
    {
        let len: usize = bytes.len();
        if len < STAMP_LEN {
            return None;
        }
        proof {
            lemma_rooms();
            P::stays_within(bytes@.skip(12));
            assert(bytes@.skip(12) =~= bytes@.subrange(12, len as int));
        }
        let seq: u32 = get_le(bytes, 0, 4) as u32;
        let at_ms: u64 = get_le(bytes, 4, 8);
        let rest: &[u8] = slice_subrange(bytes, STAMP_LEN, len);
        match P::decode(rest) {
            None => None,
            Some((ev, n)) => Some((Stamped { seq, ev, at_ms }, STAMP_LEN + n)),
        }
    }
}

pub fn encode_msg<P: Payload>(msg: &Msg<P>) -> (out: Vec<u8>)
    ensures
        out@ == msg_bytes(msg@),
{
    let mut out: Vec<u8> = Vec::new();
    match msg {
        Msg::Events(events) => {
            out.push(MSG_EVENTS);
            let mut log: Vec<u8> = encode_log(events.as_slice());
            out.append(&mut log);
        },
        Msg::State { count, hash } => {
            out.push(MSG_STATE);
            put_le(&mut out, *count as u64, 4);
            put_le(&mut out, *hash, 8);
        },
    }
    assert(out@ =~= msg_bytes(msg@));
    out
}

/// Same trust rules as [`decode_log`]: a peer wrote these bytes, so anything
/// unexpected returns `None` instead of being partially believed.
pub fn decode_msg<P: Payload>(bytes: &[u8]) -> (r: Option<Msg<P>>)
    ensures
        match r {
            Some(m) => parse_msg::<P>(bytes@) == Some(m@),
            None => parse_msg::<P>(bytes@) is None,
        },
{
    let len: usize = bytes.len();
    if len == 0 {
        return None;
    }
    if bytes[0] == MSG_EVENTS {
        assert(bytes@.skip(1) =~= bytes@.subrange(1, len as int));
        match decode_log::<P>(slice_subrange(bytes, 1, len)) {
            None => None,
            Some(log) => {
                let mut i: usize = 0;
                while i < log.len()
                    invariant
                        i <= log@.len(),
                        len > 0,
                        bytes@[0] == 0,
                        len == bytes@.len(),
                        parse_log::<P>(bytes@.skip(1)) == Some(log@),
                        forall|j: int| 0 <= j < i ==> (#[trigger] log@[j]).ev.allowed(),
                    decreases log@.len() - i,
                {
                    if !log[i].ev.valid() {
                        return None;
                    }
                    i = i + 1;
                }
                Some(Msg::Events(log))
            },
        }
    } else if bytes[0] == MSG_STATE && len == STATE_LEN {
        proof {
            lemma_rooms();
        }
        Some(Msg::State { count: get_le(bytes, 1, 4) as u32, hash: get_le(bytes, 5, 8) })
    } else {
        None
    }
}

pub fn encode_log<P: Payload>(events: &[Stamped<P>]) -> (out: Vec<u8>)
    ensures
        out@ == log_bytes(events@),
{
    let mut out: Vec<u8> = Vec::new();
    let mut i: usize = 0;
    assert(events@.take(0) =~= seq![]);
    while i < events.len()
        invariant
            i <= events@.len(),
            out@ == log_bytes(events@.take(i as int)),
        decreases events@.len() - i,
    {
        events[i].encode(&mut out);
        assert(events@.take(i + 1).drop_last() =~= events@.take(i as int));
        i = i + 1;
    }
    assert(events@.take(i as int) =~= events@);
    out
}

/// What reading on from `i` comes to, given what has been read so far.
spec fn read_on<P: Payload>(read: Seq<Stamped<P>>, rest: Seq<u8>) -> Option<Seq<Stamped<P>>> {
    match parse_log::<P>(rest) {
        None => None,
        Some(more) => Some(read + more),
    }
}

/// Decodes a whole log. Leftover or truncated bytes are a failure, not a
/// partial success — accepting half a log would desync the peers silently,
/// which is exactly the failure mode this format exists to prevent.
pub fn decode_log<P: Payload>(bytes: &[u8]) -> (r: Option<Vec<Stamped<P>>>)
    ensures
        match r {
            Some(log) => parse_log::<P>(bytes@) == Some(log@),
            None => parse_log::<P>(bytes@) is None,
        },
{
    let len: usize = bytes.len();
    let mut out: Vec<Stamped<P>> = Vec::new();
    let mut i: usize = 0;
    proof {
        assert(bytes@.skip(0) =~= bytes@);
        if parse_log::<P>(bytes@) is Some {
            assert(out@ + parse_log::<P>(bytes@)->Some_0 =~= parse_log::<P>(bytes@)->Some_0);
        }
    }
    while i < len
        invariant
            i <= len,
            len == bytes@.len(),
            parse_log::<P>(bytes@) == read_on(out@, bytes@.skip(i as int)),
        decreases len - i,
    {
        let rest: &[u8] = slice_subrange(bytes, i, len);
        let ghost tail = bytes@.skip(i as int);
        assert(rest@ =~= tail);
        match Stamped::<P>::decode(rest) {
            None => {
                return None;
            },
            Some((s, n)) => {
                let ghost was = out@;
                out.push(s);
                proof {
                    assert(tail.skip(n as int) =~= bytes@.skip(i + n));
                    match parse_log::<P>(tail.skip(n as int)) {
                        None => {},
                        Some(more) => {
                            assert(was + (seq![s] + more) =~= out@ + more);
                        },
                    }
                }
                i = i + n;
            },
        }
    }
    proof {
        assert(bytes@.skip(i as int).len() == 0);
        assert(out@ + seq![] =~= out@);
    }
    Some(out)
}

// ---------------------------------------------------------------------------
// What is written can be read, and nothing else is believed.
// ---------------------------------------------------------------------------
/// A record reads back, whatever follows it.
pub proof fn law_records_read_back<P: Payload>(s: Stamped<P>, rest: Seq<u8>)
    ensures
        parse_stamped::<P>(stamped_bytes(s) + rest) == Some((s, stamped_bytes(s).len())),
{
    let b = stamped_bytes(s) + rest;
    lemma_rooms();
    law_le_reads_back(s.seq as nat, 4);
    law_le_reads_back(s.at_ms as nat, 8);
    assert(b.subrange(0, 4) =~= le(s.seq as nat, 4));
    assert(b.subrange(4, 12) =~= le(s.at_ms as nat, 8));
    assert(b.skip(12) =~= s.ev.bytes() + rest);
    s.ev.reads_back(rest);
}

proof fn lemma_log_bytes_front<P: Payload>(log: Seq<Stamped<P>>)
    requires
        log.len() > 0,
    ensures
        log_bytes(log) == stamped_bytes(log[0]) + log_bytes(log.drop_first()),
    decreases log.len(),
{
    if log.len() == 1 {
        assert(log.drop_last() =~= seq![]);
        assert(log.drop_first() =~= seq![]);
        assert(log_bytes(log.drop_last()) =~= seq![]);
        assert(log_bytes(log.drop_first()) =~= seq![]);
        assert(log_bytes(log) =~= stamped_bytes(log[0]) + log_bytes(log.drop_first()));
    } else {
        lemma_log_bytes_front(log.drop_last());
        assert(log.drop_last().drop_first() =~= log.drop_first().drop_last());
        assert(log.drop_last()[0] == log[0]);
        assert(log.drop_first().last() == log.last());
        assert(log_bytes(log) =~= stamped_bytes(log[0]) + log_bytes(log.drop_first()));
    }
}

/// Reading a log, then what follows it.
proof fn lemma_log_then<P: Payload>(log: Seq<Stamped<P>>, rest: Seq<u8>)
    ensures
        parse_log::<P>(log_bytes(log) + rest) == (match parse_log::<P>(rest) {
            None => None::<Seq<Stamped<P>>>,
            Some(more) => Some(log + more),
        }),
    decreases log.len(),
{
    if log.len() == 0 {
        assert(log_bytes(log) + rest =~= rest);
        match parse_log::<P>(rest) {
            None => {},
            Some(more) => {
                assert(log + more =~= more);
            },
        }
    } else {
        let tail = log.drop_first();
        lemma_log_bytes_front(log);
        let b = log_bytes(log) + rest;
        let after = log_bytes(tail) + rest;
        assert(b =~= stamped_bytes(log[0]) + after);
        law_records_read_back(log[0], after);
        lemma_le_len(log[0].seq as nat, 4);
        lemma_le_len(log[0].at_ms as nat, 8);
        assert(b.skip(stamped_bytes(log[0]).len() as int) =~= after);
        lemma_log_then(tail, rest);
        match parse_log::<P>(rest) {
            None => {},
            Some(more) => {
                assert(seq![log[0]] + (tail + more) =~= log + more);
            },
        }
    }
}

/// A log reads back.
pub proof fn law_logs_read_back<P: Payload>(log: Seq<Stamped<P>>)
    ensures
        parse_log::<P>(log_bytes(log)) == Some(log),
{
    lemma_log_then(log, seq![]);
    assert(log_bytes(log) + seq![] =~= log_bytes(log));
    assert(log + seq![] =~= log);
}

/// A message reads back when every event in it could be acted on, and is
/// dropped whole when one could not.
pub proof fn law_messages_read_back<P: Payload>(m: Message<P>)
    ensures
        parse_msg::<P>(msg_bytes(m)) == (match m {
            Message::Events(log) => if all_allowed(log) {
                Some(m)
            } else {
                None
            },
            Message::State { .. } => Some(m),
        }),
{
    let b = msg_bytes(m);
    match m {
        Message::Events(log) => {
            assert(b.skip(1) =~= log_bytes(log));
            law_logs_read_back(log);
        },
        Message::State { count, hash } => {
            lemma_rooms();
            law_le_reads_back(count as nat, 4);
            law_le_reads_back(hash as nat, 8);
            assert(b.subrange(1, 5) =~= le(count as nat, 4));
            assert(b.subrange(5, 13) =~= le(hash as nat, 8));
        },
    }
}

/// The event takes all of its bytes to read: no part of them from the front
/// is an event.
pub open spec fn whole_or_nothing<P: Payload>(ev: P) -> bool {
    forall|k: int| 0 <= k < ev.bytes().len() ==> P::parse(#[trigger] ev.bytes().take(k)) is None
}

/// A log that ends mid-record is refused whole: the records before the break
/// are not believed either.
pub proof fn law_a_log_cut_mid_record_is_refused<P: Payload>(
    log: Seq<Stamped<P>>,
    s: Stamped<P>,
    cut: int,
)
    requires
        whole_or_nothing(s.ev),
        0 < cut < stamped_bytes(s).len(),
    ensures
        parse_log::<P>(log_bytes(log) + stamped_bytes(s).take(cut)) is None,
{
    let part = stamped_bytes(s).take(cut);
    law_a_part_of_a_record_is_refused(s, cut);
    lemma_log_then(log, part);
}

/// A part of a record from the front is no record.
pub proof fn law_a_part_of_a_record_is_refused<P: Payload>(s: Stamped<P>, cut: int)
    requires
        whole_or_nothing(s.ev),
        0 <= cut < stamped_bytes(s).len(),
    ensures
        parse_stamped::<P>(stamped_bytes(s).take(cut)) is None,
{
    let part = stamped_bytes(s).take(cut);
    if cut >= 12 {
        lemma_le_len(s.seq as nat, 4);
        lemma_le_len(s.at_ms as nat, 8);
        assert(part.skip(12) =~= s.ev.bytes().take(cut - 12));
    }
}

/// Bytes left over that are no record make the whole log nothing.
pub proof fn law_trailing_garbage_is_refused<P: Payload>(log: Seq<Stamped<P>>, rest: Seq<u8>)
    requires
        rest.len() > 0,
        parse_stamped::<P>(rest) is None,
    ensures
        parse_log::<P>(log_bytes(log) + rest) is None,
{
    lemma_log_then(log, rest);
}

/// A state message has one length; any other is refused.
pub proof fn law_a_state_message_has_one_length<P: Payload>(b: Seq<u8>)
    requires
        b.len() > 0,
        b[0] == 1,
    ensures
        parse_msg::<P>(b) is Some <==> b.len() == 13,
{
}

/// A message of no known kind, or of no bytes, is refused.
pub proof fn law_an_unknown_kind_is_refused<P: Payload>(b: Seq<u8>)
    requires
        b.len() == 0 || b[0] > 1,
    ensures
        parse_msg::<P>(b) is None,
{
}

/// What is read off the front of `b`, if anything, is written as it stands
/// there.
pub open spec fn written_as_read<P: Payload>(b: Seq<u8>) -> bool {
    match P::parse(b) {
        Some((ev, n)) => n <= b.len() && b.take(n as int) == ev.bytes(),
        None => true,
    }
}

/// There is one way to write each event: what reads as it is its bytes.
pub open spec fn canonical<P: Payload>() -> bool {
    forall|b: Seq<u8>| #[trigger] written_as_read::<P>(b)
}

/// Where there is one way to write each event, there is one way to write each
/// log: bytes that read as a log are its bytes.
pub proof fn law_logs_write_back<P: Payload>(b: Seq<u8>)
    requires
        canonical::<P>(),
        parse_log::<P>(b) is Some,
    ensures
        log_bytes(parse_log::<P>(b)->Some_0) == b,
    decreases b.len(),
{
    if b.len() > 0 {
        let (s, n) = parse_stamped::<P>(b)->Some_0;
        let m = (P::parse(b.skip(12))->Some_0).1;
        lemma_rooms();
        law_le_writes_back(b.subrange(0, 4));
        law_le_writes_back(b.subrange(4, 12));
        crate::bytes::lemma_le_value_bound(b.subrange(0, 4));
        crate::bytes::lemma_le_value_bound(b.subrange(4, 12));
        assert(s.seq as nat == le_value(b.subrange(0, 4)));
        assert(s.at_ms as nat == le_value(b.subrange(4, 12)));
        assert(written_as_read::<P>(b.skip(12)));
        assert(b.skip(12).take(m as int) == s.ev.bytes());
        assert(stamped_bytes(s) =~= b.take(n as int));
        let rest = b.skip(n as int);
        law_logs_write_back::<P>(rest);
        let more = parse_log::<P>(rest)->Some_0;
        let log = seq![s] + more;
        lemma_log_bytes_front(log);
        assert(log.drop_first() =~= more);
        assert(log_bytes(log) =~= b);
    } else {
        assert(log_bytes(parse_log::<P>(b)->Some_0) =~= b);
    }
}

/// Where there is one way to write each event, there is one way to write each
/// message: bytes that read as a message are its bytes.
pub proof fn law_messages_write_back<P: Payload>(b: Seq<u8>)
    requires
        canonical::<P>(),
        parse_msg::<P>(b) is Some,
    ensures
        msg_bytes(parse_msg::<P>(b)->Some_0) == b,
        parse_msg::<P>(b)->Some_0 matches Message::Events(log) ==> forall|i: int|
            0 <= i < log.len() ==> (#[trigger] log[i]).ev.allowed(),
{
    match parse_msg::<P>(b)->Some_0 {
        Message::Events(log) => {
            law_logs_write_back::<P>(b.skip(1));
            assert(seq![0u8] + b.skip(1) =~= b);
        },
        Message::State { count, hash } => {
            lemma_rooms();
            law_le_writes_back(b.subrange(1, 5));
            law_le_writes_back(b.subrange(5, 13));
            crate::bytes::lemma_le_value_bound(b.subrange(1, 5));
            crate::bytes::lemma_le_value_bound(b.subrange(5, 13));
            assert(seq![1u8] + b.subrange(1, 5) + b.subrange(5, 13) =~= b);
        },
    }
}

/// A record is its place in four bytes, its time in eight, and its event.
pub proof fn law_where_a_record_keeps_what<P: Payload>(s: Stamped<P>)
    ensures
        ({
            let b = stamped_bytes(s);
            &&& le_value(b.subrange(0, 4)) == s.seq
            &&& le_value(b.subrange(4, 12)) == s.at_ms
            &&& b.skip(12) == s.ev.bytes()
        }),
{
    lemma_rooms();
    law_le_reads_back(s.seq as nat, 4);
    law_le_reads_back(s.at_ms as nat, 8);
    let b = stamped_bytes(s);
    assert(b.subrange(0, 4) =~= le(s.seq as nat, 4));
    assert(b.subrange(4, 12) =~= le(s.at_ms as nat, 8));
    assert(b.skip(12) =~= s.ev.bytes());
}

/// A log is written record by record, first to last.
pub proof fn law_logs_are_written_in_parts<P: Payload>(a: Seq<Stamped<P>>, b: Seq<Stamped<P>>)
    ensures
        log_bytes(a + b) == log_bytes(a) + log_bytes(b),
        b.len() == 1 ==> log_bytes(b) == stamped_bytes(b[0]),
    decreases b.len(),
{
    if b.len() == 0 {
        assert(a + b =~= a);
        assert(log_bytes(a) + log_bytes(b) =~= log_bytes(a));
    } else {
        law_logs_are_written_in_parts(a, b.drop_last());
        assert((a + b).drop_last() =~= a + b.drop_last());
        assert((a + b).last() == b.last());
        assert(log_bytes(a + b) =~= log_bytes(a) + log_bytes(b));
        if b.len() == 1 {
            assert(log_bytes(b.drop_last()) =~= seq![]);
            assert(log_bytes(b) =~= stamped_bytes(b[0]));
        }
    }
}

/// A message is one byte for its kind, and behind it the log, or how many
/// events there are in four bytes and what they come to in eight.
pub proof fn law_where_a_message_keeps_what<P: Payload>(
    log: Seq<Stamped<P>>,
    count: u32,
    hash: u64,
)
    ensures
        msg_bytes(Message::Events(log)) == seq![0u8] + log_bytes(log),
        ({
            let b = msg_bytes(Message::<P>::State { count, hash });
            &&& b.len() == 13
            &&& b[0] == 1
            &&& le_value(b.subrange(1, 5)) == count
            &&& le_value(b.subrange(5, 13)) == hash
        }),
{
    lemma_rooms();
    law_le_reads_back(count as nat, 4);
    law_le_reads_back(hash as nat, 8);
    let b = msg_bytes(Message::<P>::State { count, hash });
    assert(b.subrange(1, 5) =~= le(count as nat, 4));
    assert(b.subrange(5, 13) =~= le(hash as nat, 8));
}

} // verus!
