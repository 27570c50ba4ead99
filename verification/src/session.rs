//! Signalling by link.
//!
//! The host makes an offer and gets a URL. Anything that can carry a link can
//! carry it — chat, email, a QR code someone photographs. Opening that link
//! auto-joins: the page sees the offer in its own address bar, answers it, and
//! hands back a second link. The host pastes that one in and they are
//! connected. Two links, no server.
//!
//! The SDP rides in the URL **fragment**. Fragments are never sent to the
//! server, so even on static hosting the handshake stays between the two
//! peers.
//!
//! This module owns what a paste is, what a link says, and the state machine
//! of the handshake: which report means what, and what to do about it.
use vstd::prelude::*;
use vstd::string::*;
use vstd::utf8::{decode_utf8, encode_utf8, valid_utf8};

use crate::b64;
use crate::b64::{decoded, encoded};
use crate::net::{stands_at, starts, trim, trimmed};
use crate::sdp::{compact, compacted, expand, expanded};
use crate::text::{chars_of, decimal, push_decimal, string_of};

pub mod laws;

verus! {

/// Who we are in the handshake. Decides what a pasted link means.
#[derive(Clone, Copy, PartialEq, Eq, Debug, Structural)]
pub enum Role {
    /// Nothing started. Pasted text is an offer to answer.
    Idle,
    /// We made the offer. Pasted text is the answer that completes it.
    Host,
    /// Our side of the handshake is done. Further pastes mean nothing.
    Done,
}

/// Which of the two links there is to carry.
#[derive(Clone, Copy, PartialEq, Eq, Debug, Structural)]
pub enum LinkKind {
    /// The host's invite. Send it to the peer; their reply comes back.
    Offer,
    /// The joiner's reply. Send it back to the host and the channel opens.
    Answer,
}

/// Caps on what a paste may decode to. A real deflated SDP is under a
/// kilobyte and inflates to a couple; anything past these is not a link.
/// Capping the input bounds what inflating it can allocate; capping the output
/// rejects what still slips by.
pub const MAX_PACKED: usize = 16_384;

pub const MAX_SDP: usize = 65_536;

/// The longest base64 that is decoded at all. Four thirds of [`MAX_PACKED`]
/// and a few characters over: enough for all that the cap allows, so a longer
/// text is refused before it is decoded. The cap itself is on the bytes.
pub const MAX_PAYLOAD: usize = 21_849;

// ---------------------------------------------------------------------------
// Pastes.
// ---------------------------------------------------------------------------
/// What a pasted string turned out to be.
#[derive(Clone, PartialEq, Eq, Debug)]
pub enum Pasted {
    /// Someone pasted the SDP itself. Nothing to decode.
    Sdp(String),
    /// Bytes out of a link. Deflated, unless they are the compact form.
    Packed(Vec<u8>),
}

/// What a pasted text turned out to be.
pub enum Paste {
    Sdp(Seq<char>),
    Packed(Seq<u8>),
}

impl View for Pasted {
    type V = Paste;

    open spec fn view(&self) -> Paste {
        match self {
            Pasted::Sdp(s) => Paste::Sdp(s@),
            Pasted::Packed(b) => Paste::Packed(b@),
        }
    }
}

/// What stands behind the last `#` or `=`; all of it where there is neither.
pub open spec fn payload(t: Seq<char>) -> Seq<char>
    decreases t.len(),
{
    if t.len() == 0 {
        t
    } else if t.last() == '#' || t.last() == '=' {
        seq![]
    } else {
        payload(t.drop_last()).push(t.last())
    }
}

/// What a pasted text is: an SDP, which is left untouched, or a link or a part
/// of one that ends in base64, which is decoded, to no more than
/// [`MAX_PACKED`] bytes. Anything empty, too long or illegible is nothing.
pub open spec fn shape(s: Seq<char>) -> Option<Paste> {
    let t = trimmed(s);
    let p = payload(t);
    if t.len() == 0 {
        None
    } else if starts(t, "v="@) {
        Some(Paste::Sdp(s))
    } else if p.len() == 0 || p.len() > MAX_PAYLOAD {
        None
    } else {
        match decoded(p) {
            Some(b) => if b.len() <= MAX_PACKED {
                Some(Paste::Packed(b))
            } else {
                None
            },
            None => None,
        }
    }
}

/// Accepts whatever the user pasted: a whole link, a bare `#a=…` fragment,
/// raw base64, or the SDP itself. People paste all four.
pub fn shape_of(s: &str) -> (r: Option<Pasted>)
    ensures
        match r {
            Some(p) => shape(s@) == Some(p@),
            None => shape(s@) is None,
        },
{
    proof {
        reveal_strlit("v=");
    }
    let chars: Vec<char> = chars_of(s);
    let (lo, hi) = trim(chars.as_slice());
    let t: &[char] = vstd::slice::slice_subrange(chars.as_slice(), lo, hi);
    assert(t@ == trimmed(s@));
    if t.len() == 0 {
        return None;
    }
    let sdp: Vec<char> = chars_of("v=");
    assert(t@.skip(0) =~= t@);
    // Already an SDP: hand it back untouched. Trimming here would eat the
    // final line's terminator.
    if stands_at(t, 0, sdp.as_slice()) {
        return Some(Pasted::Sdp(s.to_owned()));
    }
    let end: usize = t.len();
    let mut from: usize = end;
    assert(t@.take(end as int) =~= t@);
    assert(t@.subrange(end as int, end as int) =~= seq![]);
    assert(payload(t@) =~= payload(t@.take(from as int)) + t@.subrange(from as int, end as int));
    while from > 0 && t[from - 1] != '#' && t[from - 1] != '='
        invariant
            from <= end == t@.len(),
            payload(t@) == payload(t@.take(from as int)) + t@.subrange(from as int, end as int),
        decreases from,
    {
        let ghost head = t@.take(from as int);
        assert(head.drop_last() =~= t@.take(from - 1));
        assert(payload(head) =~= payload(t@.take(from - 1)).push(t@[from - 1]));
        assert(payload(head) + t@.subrange(from as int, end as int) =~= payload(t@.take(from - 1))
            + t@.subrange(from - 1, end as int));
        from = from - 1;
    }
    let p: &[char] = vstd::slice::slice_subrange(t, from, end);
    assert(payload(t@.take(from as int)) =~= seq![]);
    assert(p@ =~= payload(t@));
    // Checking the text first means too large a paste is refused before it is
    // even decoded.
    if p.len() == 0 || p.len() > MAX_PAYLOAD {
        return None;
    }
    let text: String = string_of(p);
    match b64::decode(text.as_str()) {
        Some(b) => if b.len() <= MAX_PACKED {
            Some(Pasted::Packed(b))
        } else {
            None
        },
        None => None,
    }
}

/// `String::from_utf8` of std: the text that bytes encode, where they are
/// valid UTF-8, and nothing where they are not.
#[verifier::external_body]
fn text_from(bytes: Vec<u8>) -> (r: Option<String>)
    ensures
        match r {
            Some(s) => valid_utf8(bytes@) && s@ == decode_utf8(bytes@),
            None => !valid_utf8(bytes@),
        },
{
    String::from_utf8(bytes).ok()
}

/// What there is to do with a paste.
#[derive(Clone, PartialEq, Eq, Debug)]
pub enum Opened {
    /// This is the SDP.
    Sdp(String),
    /// These bytes have to be inflated first; see [`inflated`].
    Inflate(Vec<u8>),
}

/// The SDP a paste carries: as it stands, or expanded from the compact form;
/// or the bytes that may inflate to one.
pub fn sdp_from_input(s: &str) -> (r: Option<Opened>)
    ensures
        match shape(s@) {
            None => r is None,
            Some(Paste::Sdp(t)) => r matches Some(Opened::Sdp(x)) && x@ == t,
            Some(Paste::Packed(b)) => match expanded(b) {
                Some(t) => r matches Some(Opened::Sdp(x)) && x@ == t,
                None => r matches Some(Opened::Inflate(x)) && x@ == b,
            },
        },
{
    match shape_of(s) {
        None => None,
        Some(Pasted::Sdp(t)) => Some(Opened::Sdp(t)),
        Some(Pasted::Packed(b)) => match expand(b.as_slice()) {
            Some(t) => Some(Opened::Sdp(t)),
            None => Some(Opened::Inflate(b)),
        },
    }
}

/// The SDP in the older formats: inflated, or — older still — plain.
pub open spec fn unpack_text(bytes: Seq<u8>, plain: Option<Seq<u8>>) -> Option<Seq<char>> {
    match plain {
        Some(p) => if p.len() <= MAX_SDP && valid_utf8(p) {
            Some(decode_utf8(p))
        } else {
            None
        },
        None => if valid_utf8(bytes) && starts(decode_utf8(bytes), "v="@) {
            Some(decode_utf8(bytes))
        } else {
            None
        },
    }
}

/// The pre-compact formats: deflated SDP, or — older still — plain base64.
/// `plain` is what inflating the bytes gave, where it worked.
pub fn inflated(bytes: Vec<u8>, plain: Option<Vec<u8>>) -> (r: Option<String>)
    ensures
        ({
            let p = match plain {
                Some(p) => Some(p@),
                None => None,
            };
            match r {
                Some(s) => unpack_text(bytes@, p) == Some(s@),
                None => unpack_text(bytes@, p) is None,
            }
        }),
{
    match plain {
        // The output cap: input small enough to pass `shape_of` can still
        // inflate to far more than any SDP has business being.
        Some(p) => if p.len() <= MAX_SDP {
            text_from(p)
        } else {
            None
        },
        // Links made before the format was compressed are plain base64, and a
        // stray paste can be anything at all. Both land here.
        None => match text_from(bytes) {
            None => None,
            Some(s) => {
                let chars: Vec<char> = chars_of(s.as_str());
                let sdp: Vec<char> = chars_of("v=");
                assert(chars@.skip(0) =~= chars@);
                if stands_at(chars.as_slice(), 0, sdp.as_slice()) {
                    Some(s)
                } else {
                    None
                }
            },
        },
    }
}

// ---------------------------------------------------------------------------
// Links.
// ---------------------------------------------------------------------------
/// A link: `#o=` for an offer, `#a=` for an answer.
pub open spec fn link_text(base: Seq<char>, kind: LinkKind, bytes: Seq<u8>) -> Seq<char> {
    base + seq![
        '#',
        if kind == LinkKind::Offer {
            'o'
        } else {
            'a'
        },
        '=',
    ] + encoded(bytes)
}

/// The link that carries `bytes` to the page at `base`.
pub fn link_of(base: &str, kind: LinkKind, bytes: &[u8]) -> (s: String)
    ensures
        s@ == link_text(base@, kind, bytes@),
{
    let mut s: String = String::new();
    s.append(base);
    s.push('#');
    s.push(
        if kind == LinkKind::Offer {
            'o'
        } else {
            'a'
        },
    );
    s.push('=');
    s.append(b64::encode(bytes).as_str());
    assert(s@ =~= link_text(base@, kind, bytes@));
    s
}

/// What a link carries of an SDP. Compacted to its bare facts when the SDP is
/// one we fully understand; otherwise deflated whole, where `deflated` says
/// what that gave; and otherwise plain. Compression is an optimisation, never
/// a requirement.
pub open spec fn carried(sdp: Seq<char>, deflated: Option<Seq<u8>>) -> Seq<u8> {
    match compacted(sdp) {
        Some(b) => b,
        None => match deflated {
            Some(b) => b,
            None => encode_utf8(sdp),
        },
    }
}

/// What a link carries of an SDP. `deflated` is what deflating it gave, and is
/// read only where the SDP has no compact form.
pub fn carry(sdp: &str, deflated: Option<Vec<u8>>) -> (out: Vec<u8>)
    ensures
        out@ == carried(
            sdp@,
            match deflated {
                Some(b) => Some(b@),
                None => None,
            },
        ),
{
    match compact(sdp) {
        Some(b) => b,
        None => match deflated {
            Some(b) => b,
            None => vstd::slice::slice_to_vec(sdp.as_bytes()),
        },
    }
}

/// The line for the log when a link has been packed.
pub fn packed_line(sdp_bytes: usize, packed_bytes: usize) -> (s: String)
    ensures
        s@ == "sdp "@ + decimal(sdp_bytes as nat) + " bytes -> "@ + decimal(packed_bytes as nat)
            + " on the wire"@,
{
    let mut s: String = String::new();
    s.append("sdp ");
    push_decimal(&mut s, sdp_bytes as u64);
    s.append(" bytes -> ");
    push_decimal(&mut s, packed_bytes as u64);
    s.append(" on the wire");
    assert(s@ =~= "sdp "@ + decimal(sdp_bytes as nat) + " bytes -> "@ + decimal(
        packed_bytes as nat,
    ) + " on the wire"@);
    s
}

/// Is there an offer in this fragment? Cheap, so the decision to start a join
/// can be made before the decode.
pub fn url_has_offer(hash: &str) -> (b: bool)
    ensures
        b == starts(hash@, "#o="@),
{
    let chars: Vec<char> = chars_of(hash);
    let prefix: Vec<char> = chars_of("#o=");
    assert(chars@.skip(0) =~= chars@);
    stands_at(chars.as_slice(), 0, prefix.as_slice())
}

// ---------------------------------------------------------------------------
// The handshake.
// ---------------------------------------------------------------------------
/// One two-peer handshake at a time, restartable forever.
pub struct Session {
    pub role: Role,
    /// Which handshake is current. A connection we have walked away from
    /// keeps reporting for a while — a channel closing, ICE giving up — and
    /// those reports must not tear down whatever session has started since.
    /// Every flow remembers the generation it belongs to and stays quiet
    /// once it is stale.
    pub era: u32,
    /// Whether a channel has been handed over this era. What separates "the
    /// network died under us" from "ICE gave up while a human was still
    /// carrying the reply".
    pub has_chan: bool,
    /// Whether there is a connection to apply an answer to.
    pub has_conn: bool,
}

/// What a paste calls for.
#[derive(Clone, Copy, PartialEq, Eq, Debug, Structural)]
pub enum Accept {
    /// Nothing at all.
    Ignore,
    /// Say that it does not look like a link.
    Complain,
    /// Decode it, and come back with [`Session::decoded`].
    Decode { was: Role },
}

/// What a decoded paste calls for.
#[derive(Clone, Copy, PartialEq, Eq, Debug, Structural)]
pub enum Next {
    /// Nothing at all.
    Ignore,
    /// Say that the link did not decode.
    Complain,
    /// It is the answer to our offer.
    Finish,
    /// It is an offer to answer.
    Join,
}

/// What a report of a lost connection calls for.
#[derive(Clone, Copy, PartialEq, Eq, Debug, Structural)]
pub enum Lost {
    /// It is from a handshake we have left.
    Stale,
    /// There was never a channel: the reply is still on its way.
    NotYet,
    /// Tell the application; the handshake has started over.
    Dropped,
}

/// What a text from anywhere calls for, where `link` says whether it could be a
/// link at all.
pub open spec fn called_for(s: Session, link: bool, complain: bool) -> Accept {
    if s.role == Role::Done {
        Accept::Ignore
    } else if link {
        Accept::Decode { was: s.role }
    } else if complain {
        Accept::Complain
    } else {
        Accept::Ignore
    }
}

/// The handshake once a paste has been decoded, and what that calls for.
pub open spec fn after_decoding(
    s: Session,
    was: Role,
    found: bool,
    complain: bool,
) -> (Session, Next) {
    if !found {
        (
            s,
            if complain {
                Next::Complain
            } else {
                Next::Ignore
            },
        )
    } else if s.role == Role::Done {
        (s, Next::Ignore)
    } else {
        (
            Session { role: Role::Done, ..s },
            if was == Role::Host {
                Next::Finish
            } else {
                Next::Join
            },
        )
    }
}

/// The handshake once the page has found an offer in its own address bar, or
/// has not, and whether to answer one.
pub open spec fn after_looking(s: Session, offer: bool) -> (Session, bool) {
    if offer && s.role != Role::Done {
        (Session { role: Role::Done, ..s }, true)
    } else {
        (s, false)
    }
}

/// The handshake once the answer is here, and whether there is a connection to
/// apply it to.
pub open spec fn after_answering(s: Session) -> (Session, bool) {
    if s.has_conn {
        (s, true)
    } else {
        (Session { role: Role::Idle, ..s }, false)
    }
}

/// The handshake once that of era `mine` has reported its channel lost, and
/// what that calls for.
pub open spec fn after_losing(s: Session, mine: u32) -> (Session, Lost) {
    if s.era != mine {
        (s, Lost::Stale)
    } else if !s.has_chan {
        (s, Lost::NotYet)
    } else {
        (started_over(s), Lost::Dropped)
    }
}

/// The handshake as the page loads it.
pub open spec fn started_over(s: Session) -> Session {
    Session {
        role: Role::Idle,
        era: if s.era == u32::MAX {
            0
        } else {
            (s.era + 1) as u32
        },
        has_chan: false,
        has_conn: false,
    }
}

impl Session {
    pub fn new() -> (s: Session)
        ensures
            s == (Session { role: Role::Idle, era: 0, has_chan: false, has_conn: false }),
    {
        Session { role: Role::Idle, era: 0, has_chan: false, has_conn: false }
    }

    pub fn role(&self) -> (r: Role)
        ensures
            r == self.role,
    {
        self.role
    }

    /// Whether `text` could be a link or SDP at all — the cheap check, for
    /// callers that want to probe without starting a flow.
    pub fn looks_like_link(text: &str) -> (b: bool)
        ensures
            b == shape(text@) is Some,
    {
        shape_of(text).is_some()
    }

    /// Whether to start hosting: only where nothing has started.
    pub fn host(&self) -> (b: bool)
        ensures
            b == (self.role == Role::Idle),
    {
        self.role == Role::Idle
    }

    /// The offer is made, and the connection is waiting for its answer.
    pub fn offered(&mut self)
        ensures
            *final(self) == (Session { role: Role::Host, has_conn: true, ..*old(self) }),
    {
        self.has_conn = true;
        self.role = Role::Host;
    }

    /// The offer or the answer could not be made: back to where another try
    /// is possible, or a mistyped link would be the end of the session.
    pub fn failed(&mut self)
        ensures
            *final(self) == (Session { role: Role::Idle, ..*old(self) }),
    {
        self.role = Role::Idle;
    }

    /// The answer is made.
    pub fn answered(&mut self)
        ensures
            *final(self) == (Session { has_conn: true, ..*old(self) }),
    {
        self.has_conn = true;
    }

    /// A channel is handed over.
    pub fn watched(&mut self)
        ensures
            *final(self) == (Session { has_chan: true, ..*old(self) }),
    {
        self.has_chan = true;
    }

    /// What to do with a link or SDP from anywhere — a box, the clipboard, a
    /// paste.
    ///
    /// `complain` is for the paths where the user pressed something and
    /// deserves an answer. An input box firing on every keystroke should
    /// pass `false`, so half-typed text fails in silence.
    pub fn accept(&self, text: &str, complain: bool) -> (r: Accept)
        ensures
            r == (if self.role == Role::Done {
                Accept::Ignore
            } else if shape(text@) is Some {
                Accept::Decode { was: self.role }
            } else if complain {
                Accept::Complain
            } else {
                Accept::Ignore
            }),
            r == called_for(*self, shape(text@) is Some, complain),
    {
        if self.role == Role::Done {
            Accept::Ignore
        } else if shape_of(text).is_some() {
            Accept::Decode { was: self.role }
        } else if complain {
            Accept::Complain
        } else {
            Accept::Ignore
        }
    }

    /// The decode that [`Session::accept`] asked for is done; `found` says
    /// whether there was an SDP. Decoding took a turn of the event loop, and
    /// a second paste may have got here first.
    pub fn decoded(&mut self, was: Role, found: bool, complain: bool) -> (r: Next)
        ensures
            r == (if !found {
                if complain {
                    Next::Complain
                } else {
                    Next::Ignore
                }
            } else if old(self).role == Role::Done {
                Next::Ignore
            } else if was == Role::Host {
                Next::Finish
            } else {
                Next::Join
            }),
            *final(self) == (if found {
                Session { role: Role::Done, ..*old(self) }
            } else {
                *old(self)
            }),
            (*final(self), r) == after_decoding(*old(self), was, found, complain),
    {
        if !found {
            if complain {
                Next::Complain
            } else {
                Next::Ignore
            }
        } else if self.role == Role::Done {
            Next::Ignore
        } else {
            self.role = Role::Done;
            if was == Role::Host {
                Next::Finish
            } else {
                Next::Join
            }
        }
    }

    /// Whether to answer the offer in the page's own address bar: where there
    /// is one, and no handshake has finished. Claimed before the decode, so a
    /// second trigger cannot start a second join.
    pub fn join_url_offer(&mut self, hash: &str) -> (b: bool)
        ensures
            b == (old(self).role != Role::Done && starts(hash@, "#o="@)),
            *final(self) == (if b {
                Session { role: Role::Done, ..*old(self) }
            } else {
                *old(self)
            }),
            (*final(self), b) == after_looking(*old(self), starts(hash@, "#o="@)),
    {
        if self.role == Role::Done || !url_has_offer(hash) {
            false
        } else {
            self.role = Role::Done;
            true
        }
    }

    /// The answer is here. Whether there is a connection to apply it to; if
    /// there is none, the session is back where hosting can start again.
    pub fn finish_host(&mut self) -> (b: bool)
        ensures
            b == old(self).has_conn,
            *final(self) == (if b {
                *old(self)
            } else {
                Session { role: Role::Idle, ..*old(self) }
            }),
            (*final(self), b) == after_answering(*old(self)),
    {
        if self.has_conn {
            true
        } else {
            self.role = Role::Idle;
            false
        }
    }

    /// Back to the state the page loads in. Whatever the application keeps
    /// survives; reconnecting is a fresh handshake over that old state.
    pub fn reset(&mut self)
        ensures
            *final(self) == started_over(*old(self)),
    {
        self.era = self.era.wrapping_add(1);
        self.role = Role::Idle;
        self.has_chan = false;
        self.has_conn = false;
    }

    /// The channel is gone, says the handshake of era `mine` — whose channel
    /// closed, or whose connection failed, whichever noticed first. A report
    /// from a handshake we have already left says nothing about the one we
    /// are in now, and before there is a channel, ICE has only run out of
    /// patience while a human is still carrying the reply: it revives by
    /// itself when the answer lands.
    pub fn dropped(&mut self, mine: u32) -> (r: Lost)
        ensures
            r == (if old(self).era != mine {
                Lost::Stale
            } else if !old(self).has_chan {
                Lost::NotYet
            } else {
                Lost::Dropped
            }),
            *final(self) == (if r == Lost::Dropped {
                started_over(*old(self))
            } else {
                *old(self)
            }),
            (*final(self), r) == after_losing(*old(self), mine),
    {
        if self.era != mine {
            Lost::Stale
        } else if !self.has_chan {
            Lost::NotYet
        } else {
            self.reset();
            Lost::Dropped
        }
    }
}

} // verus!
