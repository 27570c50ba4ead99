//! The handshake panel: what its buttons do and what it says.
use vstd::prelude::*;

use crate::net::starts;
use crate::session::{shape, url_has_offer, LinkKind, Role, Session};

verus! {

/// What the one button does: start a game before there is a link, re-copy the
/// link after there is one.
#[derive(Clone, Copy, Debug)]
pub enum Go {
    Host,
    /// Copy the link again, and say so.
    Copy(&'static str),
}

/// The button is pressed.
pub fn go(role: Role) -> (g: Go)
    ensures
        match g {
            Go::Host => role == Role::Idle,
            Go::Copy(note) => role != Role::Idle && note@ == (if role == Role::Host {
                "copied again — send it, their reply goes in the box below"@
            } else {
                "copied again — send it back to the host to finish connecting"@
            }),
        },
{
    match role {
        Role::Idle => Go::Host,
        Role::Host => Go::Copy("copied again — send it, their reply goes in the box below"),
        Role::Done => Go::Copy("copied again — send it back to the host to finish connecting"),
    }
}

/// How the panel changes when a link is ready.
pub struct Ready {
    /// What the button says.
    pub go: &'static str,
    pub note: &'static str,
    /// Whether the reply gets a box of its own: the first one now holds our
    /// own link, so otherwise there is nowhere obvious to paste it.
    pub reply_box: bool,
}

/// A link is ready.
pub fn link_ready(kind: LinkKind) -> (r: Ready)
    ensures
        r.reply_box == (kind == LinkKind::Offer),
        r.go@ == (if kind == LinkKind::Offer {
            "Copy the link again"@
        } else {
            "Send this reply back to the host — tap to copy it again"@
        }),
        r.note@ == (if kind == LinkKind::Offer {
            "link copied — send it, or have them scan the QR. Their reply goes in the box below."@
        } else {
            "reply copied — send it back to the host and they will be connected to you"@
        }),
{
    match kind {
        LinkKind::Offer => Ready {
            go: "Copy the link again",
            note: "link copied — send it, or have them scan the QR. Their reply goes in the box below.",
            reply_box: true,
        },
        LinkKind::Answer => Ready {
            go: "Send this reply back to the host — tap to copy it again",
            note: "reply copied — send it back to the host and they will be connected to you",
            reply_box: false,
        },
    }
}

/// What to say when the channel opens.
pub fn connected_note(is_host: bool) -> (s: &'static str)
    ensures
        s@ == (if is_host {
            "connected — you are red, they are blue, same board for both"@
        } else {
            "connected — you are blue, they are red, same board for both"@
        }),
{
    if is_host {
        "connected — you are red, they are blue, same board for both"
    } else {
        "connected — you are blue, they are red, same board for both"
    }
}

/// What the clipboard held when Join was pressed: whether to act on it, and
/// what to say. A clipboard that could not be read just means "type it in".
pub fn clipboard(text: Option<&str>) -> (r: (bool, &'static str))
    ensures
        r.0 == (match text {
            Some(t) => shape(t@) is Some,
            None => false,
        }),
        r.1@ == (if r.0 {
            "link read from clipboard — answering…"@
        } else {
            "paste the host's link into the box below"@
        }),
{
    let link: bool = match text {
        Some(t) => Session::looks_like_link(t),
        None => false,
    };
    if link {
        (true, "link read from clipboard — answering…")
    } else {
        (false, "paste the host's link into the box below")
    }
}

/// Whether a change of the address bar brings an offer to answer. A link that
/// arrives while the tab is already open only changes the fragment.
pub fn hash_brings_offer(role: Role, hash: &str) -> (b: bool)
    ensures
        b == (role != Role::Done && starts(hash@, "#o="@)),
{
    role != Role::Done && url_has_offer(hash)
}

} // verus!
