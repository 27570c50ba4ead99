//! Session descriptions.
use minesweeper::sdp::{compact, expand, uuid_of, uuid_text, MAGIC};

/// Captured from headless Chromium, srflx addresses swapped for
/// documentation ones. The shapes are the point: mDNS host candidates,
/// IPv4 and IPv6 srflx, and the attribute soup around them.
const OFFER: &str = "v=0\r\n\
    o=- 2470171053369535424 2 IN IP4 127.0.0.1\r\n\
    s=-\r\n\
    t=0 0\r\n\
    a=group:BUNDLE 0\r\n\
    a=extmap-allow-mixed\r\n\
    a=msid-semantic: WMS\r\n\
    m=application 45776 UDP/DTLS/SCTP webrtc-datachannel\r\n\
    c=IN IP4 203.0.113.7\r\n\
    a=candidate:2563029213 1 udp 2113937151 1b932746-add2-4fb5-bdc5-99783097cabc.local 45776 typ host generation 0 network-cost 999\r\n\
    a=candidate:663244095 1 udp 1677732095 2001:db8::1234:5678 39612 typ srflx raddr :: rport 0 generation 0 network-cost 999\r\n\
    a=candidate:1436201420 1 udp 1677729535 203.0.113.7 45776 typ srflx raddr 0.0.0.0 rport 0 generation 0 network-cost 999\r\n\
    a=ice-ufrag:Al/p\r\n\
    a=ice-pwd:Mt8TTlbM1td+WRzFKJuXt9LQ\r\n\
    a=ice-options:trickle\r\n\
    a=fingerprint:sha-256 3A:2B:C2:7B:5C:50:F4:F2:B6:82:8E:19:9A:4F:C8:ED:FB:CB:C2:50:BF:8D:50:D3:2C:98:B7:EB:F2:97:4C:59\r\n\
    a=setup:actpass\r\n\
    a=mid:0\r\n\
    a=sctp-port:5000\r\n\
    a=max-message-size:262144\r\n";

#[test]
fn every_fact_survives_the_round_trip() {
    let packed = compact(OFFER).expect("a real offer was refused");
    let sdp = expand(&packed).expect("our own compact form was refused");

    for fact in [
        "a=ice-ufrag:Al/p",
        "a=ice-pwd:Mt8TTlbM1td+WRzFKJuXt9LQ",
        "a=fingerprint:sha-256 3A:2B:C2:7B",
        "a=setup:actpass",
        "1b932746-add2-4fb5-bdc5-99783097cabc.local 45776 typ host",
        "2001:db8::1234:5678 39612 typ srflx",
        "203.0.113.7 45776 typ srflx",
        "m=application 9 UDP/DTLS/SCTP webrtc-datachannel",
    ] {
        assert!(sdp.contains(fact), "lost {fact:?} in:\n{sdp}");
    }
    // And the rebuilt SDP compacts back to the same bytes: nothing the
    // format cares about lives only in the template.
    assert_eq!(compact(&sdp), Some(packed));
}

/// The size is the feature. If this creeps up, the QR code grows with it.
#[test]
fn a_real_offer_compacts_to_under_130_bytes() {
    let n = compact(OFFER).unwrap().len();
    assert!(n < 130, "compact offer is {n} bytes");
}

#[test]
fn the_answers_role_is_kept_not_assumed() {
    let answer = OFFER.replace("a=setup:actpass", "a=setup:active");
    let sdp = expand(&compact(&answer).unwrap()).unwrap();
    assert!(sdp.contains("a=setup:active"));
}

/// Everything `compact` cannot faithfully rebuild must be refused, so the
/// caller falls back to deflate instead of shipping a broken handshake.
#[test]
fn an_unrecognised_sdp_is_refused_not_mangled() {
    let sha1 = OFFER.replace("sha-256", "sha-1");
    assert!(compact(&sha1).is_none(), "unknown fingerprint accepted");
    let no_cand = OFFER
        .lines()
        .filter(|l| !l.starts_with("a=candidate"))
        .collect::<Vec<_>>()
        .join("\r\n");
    assert!(compact(&no_cand).is_none(), "candidate-free SDP accepted");
    assert!(compact("v=0\r\n").is_none());
}

/// TCP candidates cannot be rebuilt and are dropped; the UDP ones still
/// go through, which is a connection rather than a fallback.
#[test]
fn tcp_candidates_are_dropped_udp_kept() {
    let tcp = "a=candidate:1 1 tcp 1518280447 192.0.2.1 9 typ host tcptype active\r\n";
    let both = OFFER.replace("a=ice-ufrag", &format!("{tcp}a=ice-ufrag"));
    let sdp = expand(&compact(&both).unwrap()).unwrap();
    assert!(!sdp.contains("tcp"), "a tcp candidate was rebuilt");
    assert!(sdp.contains("typ srflx"));
}

/// The paste trust boundary: truncations and junk are `None`, not panics,
/// and not half an SDP.
#[test]
fn truncated_and_junk_bytes_are_refused() {
    let good = compact(OFFER).unwrap();
    for cut in 0..good.len() {
        assert!(expand(&good[..cut]).is_none(), "accepted {cut} bytes");
    }
    let mut long = good.clone();
    long.push(0);
    assert!(expand(&long).is_none(), "accepted a trailing byte");
    assert!(expand(&[]).is_none());
    assert!(expand(&[MAGIC]).is_none());
    // A deflated payload from an older peer must not expand by accident.
    assert!(expand(&[0x78, 0x9C, 1, 2, 3]).is_none());
}

/// A newline inside a stored field would become a forged SDP attribute
/// when the template is rebuilt around it.
#[test]
fn a_field_that_could_forge_an_attribute_is_refused() {
    let mut evil = compact(OFFER).unwrap();
    // The ufrag is at offset 3 with its length at 2; overwrite a byte
    // with a carriage return.
    evil[3] = b'\r';
    assert!(expand(&evil).is_none(), "a control byte survived expand");
}

#[test]
fn uuid_text_round_trips() {
    let name = "1b932746-add2-4fb5-bdc5-99783097cabc.local";
    assert_eq!(uuid_text(&uuid_of(name).unwrap()), name);
    assert!(uuid_of("not-a-uuid.local").is_none());
    assert!(
        uuid_of("1b932746add24fb5bdc599783097cabc").is_none(),
        "no suffix"
    );
}
