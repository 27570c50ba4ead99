//! What a paste and a handshake can be relied on for.
use vstd::prelude::*;
use vstd::string::*;
use vstd::utf8::{decode_utf8, encode_utf8, valid_utf8};

use crate::b64::{
    all_symbols, decoded, encoded, law_decoding_gives_back, law_encoding_grows_by_a_third,
    law_the_alphabet_is_url_safe, value,
};
use crate::net::{starts, trimmed, white};
use crate::sdp::laws::{
    law_compact_forms_are_short, law_every_fact_survives, law_facts_are_well_formed,
};
use crate::sdp::{compacted, expanded, facts_in};
use crate::session::{
    after_answering, after_decoding, after_looking, after_losing, called_for, carried, link_text,
    payload, shape, started_over, unpack_text, Accept, LinkKind, Lost, MAX_PACKED, MAX_PAYLOAD,
    Next, Paste, Role, Session,
};

verus! {

// ---------------------------------------------------------------------------
// Pastes.
// ---------------------------------------------------------------------------
proof fn lemma_payload_of(head: Seq<char>, c: char, b: Seq<char>)
    requires
        c == '#' || c == '=',
        all_symbols(b),
    ensures
        payload(head.push(c) + b) == b,
    decreases b.len(),
{
    let t = head.push(c) + b;
    if b.len() == 0 {
        assert(t =~= head.push(c));
        assert(t.last() == c);
        assert(b =~= seq![]);
    } else {
        let less = b.drop_last();
        assert(all_symbols(less)) by {
            assert forall|i: int| 0 <= i < less.len() implies value(#[trigger] less[i]) is Some by {
                assert(less[i] == b[i]);
            }
        }
        lemma_payload_of(head, c, less);
        assert(t.drop_last() =~= head.push(c) + less);
        assert(value(b[b.len() - 1]) is Some);
        assert(t.last() == b.last());
        assert(less.push(b.last()) =~= b);
    }
}

proof fn lemma_payload_whole(b: Seq<char>)
    requires
        all_symbols(b),
    ensures
        payload(b) == b,
    decreases b.len(),
{
    if b.len() > 0 {
        let less = b.drop_last();
        assert(all_symbols(less)) by {
            assert forall|i: int| 0 <= i < less.len() implies value(#[trigger] less[i]) is Some by {
                assert(less[i] == b[i]);
            }
        }
        lemma_payload_whole(less);
        assert(value(b[b.len() - 1]) is Some);
        assert(less.push(b.last()) =~= b);
    }
}

/// The link, a bare fragment of it, or the base64 alone, with or without white
/// space around it: every shape a user might paste comes out as the same
/// bytes.
pub proof fn law_every_shape_of_a_link_is_one_payload(
    s: Seq<char>,
    head: Seq<char>,
    c: char,
    bytes: Seq<u8>,
)
    requires
        0 < bytes.len() <= MAX_PACKED,
        c == '#' || c == '=',
        trimmed(s) == encoded(bytes) || (trimmed(s) == head.push(c) + encoded(bytes) && !starts(
            trimmed(s),
            "v="@,
        )),
    ensures
        shape(s) == Some(Paste::Packed(bytes)),
{
    reveal_strlit("v=");
    let b = encoded(bytes);
    law_decoding_gives_back(bytes);
    law_encoding_grows_by_a_third(bytes);
    law_the_alphabet_is_url_safe(bytes);
    if trimmed(s) == b {
        lemma_payload_whole(b);
        if starts(b, "v="@) {
            assert(b.take(2)[1] == "v="@[1]);
            assert(value(b[1]) is Some);
        }
    } else {
        lemma_payload_of(head, c, b);
    }
}

/// An SDP is passed through untouched, terminator and all.
pub proof fn law_an_sdp_is_left_untouched(s: Seq<char>)
    requires
        starts(trimmed(s), "v="@),
    ensures
        shape(s) == Some(Paste::Sdp(s)),
{
    reveal_strlit("v=");
}

/// A paste past the cap is refused, unless it is an SDP: one whose text is too
/// long whatever it says, and one that decodes to too many bytes.
pub proof fn law_a_paste_past_the_cap_is_refused(s: Seq<char>)
    requires
        !starts(trimmed(s), "v="@),
        payload(trimmed(s)).len() > MAX_PAYLOAD || match decoded(payload(trimmed(s))) {
            Some(b) => b.len() > MAX_PACKED,
            None => false,
        },
    ensures
        shape(s) is None,
{
}

/// Whatever comes out of a link has at most [`MAX_PACKED`] bytes, and is what
/// stands behind the last `#` or `=` of the paste, decoded.
pub proof fn law_what_is_packed_is_within_the_cap(s: Seq<char>)
    ensures
        match shape(s) {
            Some(Paste::Packed(b)) => {
                &&& b.len() <= MAX_PACKED
                &&& payload(trimmed(s)).len() > 0
                &&& decoded(payload(trimmed(s))) == Some(b)
            },
            _ => true,
        },
{
}

/// A text with no white space at either end is its own trimmed form.
proof fn lemma_trimmed(s: Seq<char>)
    requires
        s.len() > 0,
        !white(s[0]),
        !white(s.last()),
    ensures
        trimmed(s) == s,
{
}

/// A link says what it carries: pasted back, it gives the bytes it was made
/// of.
pub proof fn law_a_link_gives_back_what_it_carries(
    base: Seq<char>,
    kind: LinkKind,
    bytes: Seq<u8>,
)
    requires
        0 < bytes.len() <= MAX_PACKED,
        base.len() > 0 ==> !white(base[0]),
        !starts(base, "v="@),
        base != seq!['v'],
    ensures
        shape(link_text(base, kind, bytes)) == Some(Paste::Packed(bytes)),
{
    let l = link_text(base, kind, bytes);
    let b = encoded(bytes);
    let k = if kind == LinkKind::Offer {
        'o'
    } else {
        'a'
    };
    let head = base.push('#').push(k);
    reveal_strlit("v=");
    law_encoding_grows_by_a_third(bytes);
    law_the_alphabet_is_url_safe(bytes);
    assert(l =~= head.push('=') + b);
    assert(l.last() == b[b.len() - 1]);
    assert(value(b[b.len() - 1]) is Some);
    assert(l[0] == (if base.len() > 0 {
        base[0]
    } else {
        '#'
    }));
    lemma_trimmed(l);
    if starts(l, "v="@) {
        assert(l.take(2)[0] == 'v' && l.take(2)[1] == '=');
        if base.len() >= 2 {
            assert(base.take(2) =~= "v="@);
        } else if base.len() == 1 {
            assert(base =~= seq!['v']);
        }
    }
    law_every_shape_of_a_link_is_one_payload(l, head, '=', bytes);
}

/// An SDP that has a compact form arrives: the link that carries it, pasted on
/// the other side, expands to an SDP that gives the same facts.
pub proof fn law_a_compact_sdp_arrives(
    base: Seq<char>,
    kind: LinkKind,
    sdp: Seq<char>,
    deflated: Option<Seq<u8>>,
)
    requires
        compacted(sdp) is Some,
        base.len() > 0 ==> !white(base[0]),
        !starts(base, "v="@),
        base != seq!['v'],
    ensures
        ({
            let b = carried(sdp, deflated);
            &&& shape(link_text(base, kind, b)) == Some(Paste::Packed(b))
            &&& expanded(b) is Some
            &&& facts_in(expanded(b)->Some_0) == facts_in(sdp)
        }),
{
    let b = carried(sdp, deflated);
    law_facts_are_well_formed(sdp);
    law_compact_forms_are_short(facts_in(sdp)->Some_0);
    law_a_link_gives_back_what_it_carries(base, kind, b);
    law_every_fact_survives(sdp);
}

// ---------------------------------------------------------------------------
// The handshake.
// ---------------------------------------------------------------------------
/// Starting over always leaves the era behind, so a report from before it is
/// stale.
pub proof fn law_a_reset_leaves_the_era_behind(s: Session)
    ensures
        started_over(s).era != s.era,
        started_over(s).role == Role::Idle,
        !started_over(s).has_chan,
{
}

// ---------------------------------------------------------------------------
// What a paste is taken for.
// ---------------------------------------------------------------------------
/// The payload is what stands behind the last mark of a link, and all of a
/// text without one.
pub proof fn law_the_payload_is_behind_the_last_mark(t: Seq<char>) -> (n: int)
    ensures
        0 <= n <= t.len(),
        payload(t) == t.skip(n),
        forall|i: int| n <= i < t.len() ==> #[trigger] t[i] != '#' && t[i] != '=',
        n > 0 ==> t[n - 1] == '#' || t[n - 1] == '=',
    decreases t.len(),
{
    if t.len() == 0 {
        assert(t.skip(0) =~= t);
        0
    } else if t.last() == '#' || t.last() == '=' {
        assert(t.skip(t.len() as int) =~= seq![]);
        t.len() as int
    } else {
        let less = t.drop_last();
        let n = law_the_payload_is_behind_the_last_mark(less);
        assert(less.skip(n).push(t.last()) =~= t.skip(n));
        assert forall|i: int| n <= i < t.len() implies #[trigger] t[i] != '#' && t[i] != '=' by {
            if i < less.len() {
                assert(less[i] == t[i]);
            }
        }
        n
    }
}

/// What a paste is taken for: an SDP if it starts as one behind white space,
/// and else the bytes of its payload, if that decodes to at most 16 KiB.
pub proof fn law_what_a_paste_is_taken_for(s: Seq<char>)
    ensures
        ({
            let t = trimmed(s);
            let p = payload(t);
            let sdp = t.len() >= 2 && t[0] == 'v' && t[1] == '=';
            &&& sdp ==> shape(s) == Some(Paste::Sdp(s))
            &&& !sdp && (p.len() == 0 || p.len() > 21_849 || decoded(p) is None) ==> shape(
                s,
            ) is None
            &&& !sdp && 0 < p.len() <= 21_849 ==> (decoded(p) matches Some(b) ==> shape(s) == (
            if b.len() <= 16_384 {
                Some(Paste::Packed(b))
            } else {
                None
            }))
        }),
{
    reveal_strlit("v=");
    let t = trimmed(s);
    if t.len() >= 2 {
        assert(t.take(2)[0] == t[0] && t.take(2)[1] == t[1]);
        if t[0] == 'v' && t[1] == '=' {
            assert(t.take(2) =~= "v="@);
        }
    }
    if t.len() == 0 {
        assert(payload(t).len() == 0);
    }
}

/// What an older link holds: the text it inflates to, if that is no more than
/// 64 KiB; and if it does not inflate, its own text, if that is an SDP.
pub proof fn law_what_an_older_link_holds(bytes: Seq<u8>, plain: Option<Seq<u8>>)
    ensures
        plain matches Some(p) ==> unpack_text(bytes, plain) == (if p.len() <= 65_536
            && valid_utf8(p) {
            Some(decode_utf8(p))
        } else {
            None
        }),
        plain is None ==> unpack_text(bytes, plain) == (if valid_utf8(bytes) && starts(
            decode_utf8(bytes),
            "v="@,
        ) {
            Some(decode_utf8(bytes))
        } else {
            None
        }),
{
}

/// What a link carries: the compact form where there is one, else what the SDP
/// deflates to, else the SDP itself.
pub proof fn law_what_a_link_carries(sdp: Seq<char>, deflated: Option<Seq<u8>>)
    ensures
        compacted(sdp) matches Some(b) ==> carried(sdp, deflated) == b,
        compacted(sdp) is None ==> (deflated matches Some(b) ==> carried(sdp, deflated) == b),
        compacted(sdp) is None && deflated is None ==> carried(sdp, deflated) == encode_utf8(sdp),
{
}

/// The fragment of a link tells an offer from an answer, and is else the bytes
/// it carries.
pub proof fn law_a_link_says_what_it_is(base: Seq<char>, kind: LinkKind, bytes: Seq<u8>)
    ensures
        ({
            let fragment = link_text(base, kind, bytes).skip(base.len() as int);
            &&& link_text(base, kind, bytes).take(base.len() as int) == base
            &&& kind == LinkKind::Offer ==> fragment == "#o="@ + encoded(bytes)
            &&& kind == LinkKind::Answer ==> fragment == "#a="@ + encoded(bytes)
            &&& starts(fragment, "#o="@) == (kind == LinkKind::Offer)
        }),
{
    reveal_strlit("#o=");
    reveal_strlit("#a=");
    let link = link_text(base, kind, bytes);
    let fragment = link.skip(base.len() as int);
    assert(link.take(base.len() as int) =~= base);
    if kind == LinkKind::Offer {
        assert(fragment =~= "#o="@ + encoded(bytes));
        assert(fragment.take(3) =~= "#o="@);
    } else {
        assert(fragment =~= "#a="@ + encoded(bytes));
        assert(fragment.take(3)[1] == 'a');
    }
}

/// Eras follow one another, and the last is followed by the first.
pub proof fn law_eras_follow_one_another(s: Session)
    ensures
        s.era < u32::MAX ==> started_over(s).era == s.era + 1,
        s.era == u32::MAX ==> started_over(s).era == 0,
        !started_over(s).has_conn,
{
}

/// A handshake that is done takes no more links, and one that is not looks at
/// everything that could be one, and at nothing else.
pub proof fn law_links_are_taken_until_it_is_done(s: Session, link: bool, complain: bool)
    ensures
        s.role == Role::Done ==> called_for(s, link, complain) == Accept::Ignore,
        s.role != Role::Done && link ==> called_for(s, link, complain) == (Accept::Decode {
            was: s.role,
        }),
        s.role != Role::Done && !link ==> called_for(s, link, true) == Accept::Complain
            && called_for(s, link, false) == Accept::Ignore,
{
}

/// What a host pastes finishes their own handshake, and what anybody else does
/// joins another's. Of two pastes the first to be decoded counts, and the other
/// changes nothing.
pub proof fn law_one_paste_counts(s: Session, was: Role, again: Role, complain: bool)
    requires
        s.role != Role::Done,
    ensures
        ({
            let (t, next) = after_decoding(s, was, true, complain);
            &&& was == Role::Host ==> next == Next::Finish
            &&& was != Role::Host ==> next == Next::Join
            &&& t.role == Role::Done
            &&& (t.era, t.has_chan, t.has_conn) == (s.era, s.has_chan, s.has_conn)
            &&& after_decoding(t, again, true, complain) == (t, Next::Ignore)
        }),
{
}

/// A paste that does not decode changes nothing, and is remarked on where the
/// player asked for it.
pub proof fn law_a_paste_that_fails_changes_nothing(s: Session, was: Role)
    ensures
        after_decoding(s, was, false, true) == (s, Next::Complain),
        after_decoding(s, was, false, false) == (s, Next::Ignore),
{
}

/// A lost channel starts the handshake over, once: a second report from the
/// same era is stale. Nothing changes on a report from another era, nor before
/// there was a channel to lose.
pub proof fn law_a_channel_is_lost_once(s: Session, mine: u32)
    ensures
        ({
            let (t, lost) = after_losing(s, mine);
            &&& s.era != mine ==> t == s && lost == Lost::Stale
            &&& s.era == mine && !s.has_chan ==> t == s && lost == Lost::NotYet
            &&& s.era == mine && s.has_chan ==> lost == Lost::Dropped && t.role == Role::Idle
                && !t.has_chan && !t.has_conn && after_losing(t, mine) == (t, Lost::Stale)
        }),
{
}

/// An offer in the address bar is answered once, and not at all once a
/// handshake is done; looking again finds nothing to do.
pub proof fn law_an_offer_is_answered_once(s: Session)
    ensures
        ({
            let (t, b) = after_looking(s, true);
            &&& b == (s.role != Role::Done)
            &&& t.role == Role::Done
            &&& (t.era, t.has_chan, t.has_conn) == (s.era, s.has_chan, s.has_conn)
            &&& after_looking(t, true) == (t, false)
        }),
        after_looking(s, false) == (s, false),
{
}

/// An answer is applied where there is a connection for it; where there is none
/// the session is back where hosting can start again, and otherwise as it was.
pub proof fn law_an_answer_needs_a_connection(s: Session)
    ensures
        s.has_conn ==> after_answering(s) == (s, true),
        !s.has_conn ==> !after_answering(s).1 && after_answering(s).0.role == Role::Idle
            && after_answering(s).0.era == s.era && after_answering(s).0.has_chan == s.has_chan
            && !after_answering(s).0.has_conn,
{
}

} // verus!
