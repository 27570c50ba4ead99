//! Field-level SDP compression: send the facts, rebuild the file.
//!
//! An SDP for a data-channel-only connection is a page of boilerplate wrapped
//! around five facts the peer cannot guess: the ICE username and password,
//! the DTLS certificate fingerprint, the DTLS role, and the candidate
//! addresses. Everything else is identical in every SDP a browser emits, so
//! both sides can carry it as a template instead of on the wire.
//!
//! `compact` is honest about its limits: an SDP it does not fully recognise —
//! a fingerprint that is not sha-256, a candidate shape we cannot rebuild —
//! returns `None`, and the caller falls back to deflating the whole text.
//! `expand` is a trust boundary: the bytes come from a paste, so every read is
//! checked and anything malformed is `None`.
//!
//! Layout, after the magic byte:
//!
//! ```text
//! magic(1) setup(1) ufrag_len(1) ufrag pwd_len(1) pwd fp(32)
//! count(1) then per candidate: type(1) addr(4|16) port(2, LE)
//! ```
//!
//! Candidate types: 0 host over mDNS (a UUID, 16 bytes), 1 host IPv4,
//! 2 host IPv6, 3 srflx IPv4, 4 srflx IPv6. TCP candidates are dropped.
use vstd::prelude::*;
use vstd::string::*;

use crate::bytes::{get_le, le, le_value, lemma_rooms, put_le};
use crate::ip::{
    format_v4, format_v6, ints, parse_v4, parse_v6, v4_bytes, v4_text, v6_segments, v6_text,
};
use crate::net::{stands_at, starts};
use crate::number::{
    all_digits, decimal_chars, is_digit, number, parse_number, parsed, read_digits,
};
use crate::split::{join, join_with, split, split_at, split_words, texts, words};
use crate::text::{chars_of, decimal, hex, push_hex};

pub mod laws;

verus! {

/// First byte of the compact form, so a paste can be told apart from the
/// deflated payloads older peers still send. Collisions are settled by
/// structure, not by this byte alone: `expand` demands every length line up
/// exactly.
pub const MAGIC: u8 = 0x01;

// ---------------------------------------------------------------------------
// The facts.
// ---------------------------------------------------------------------------
/// Where a peer might be reached.
pub struct Candidate {
    pub tag: u8,
    pub addr: Vec<u8>,
    pub port: u16,
}

#[verifier::ext_equal]
pub struct Cand {
    pub tag: u8,
    pub addr: Seq<u8>,
    pub port: u16,
}

impl View for Candidate {
    type V = Cand;

    open spec fn view(&self) -> Cand {
        Cand { tag: self.tag, addr: self.addr@, port: self.port }
    }
}

/// The five facts that an SDP is about.
#[verifier::ext_equal]
pub struct Facts {
    pub setup: u8,
    pub ufrag: Seq<char>,
    pub pwd: Seq<char>,
    pub fp: Seq<u8>,
    pub cands: Seq<Cand>,
}

/// How many bytes the address of a candidate takes.
pub open spec fn addr_len(tag: u8) -> nat {
    if tag == 1 || tag == 3 {
        4
    } else {
        16
    }
}

pub open spec fn cand_ok(c: Cand) -> bool {
    c.tag <= 4 && c.addr.len() == addr_len(c.tag)
}

pub open spec fn is_srflx(tag: u8) -> bool {
    tag == 3 || tag == 4
}

/// ICE username and password characters, per RFC 8839. A character outside
/// this set could smuggle a newline — a whole forged attribute — into the SDP
/// that is rebuilt.
pub open spec fn ice_char(c: char) -> bool {
    ('a' <= c <= 'z') || ('A' <= c <= 'Z') || ('0' <= c <= '9') || c == '+' || c == '/'
}

/// A username or password: some ICE characters, and no more than a byte can
/// count.
pub open spec fn ice(s: Seq<char>) -> bool {
    0 < s.len() <= 255 && forall|i: int| 0 <= i < s.len() ==> ice_char(#[trigger] s[i])
}

pub open spec fn facts_ok(f: Facts) -> bool {
    &&& f.setup < 3
    &&& ice(f.ufrag)
    &&& ice(f.pwd)
    &&& f.fp.len() == 32
    &&& 0 < f.cands.len() <= 255
    &&& forall|i: int| 0 <= i < f.cands.len() ==> cand_ok(#[trigger] f.cands[i])
}

/// The DTLS role. The offer is always `actpass` (RFC 5763 requires it), but
/// the answer picks, so it rides along rather than being assumed.
pub open spec fn setup_name(setup: u8) -> Seq<char> {
    if setup == 0 {
        "actpass"@
    } else if setup == 1 {
        "active"@
    } else {
        "passive"@
    }
}

/// The role of that name.
pub open spec fn setup_of(s: Seq<char>) -> Option<u8> {
    if s == "actpass"@ {
        Some(0)
    } else if s == "active"@ {
        Some(1)
    } else if s == "passive"@ {
        Some(2)
    } else {
        None
    }
}

// ---------------------------------------------------------------------------
// mDNS names.
// ---------------------------------------------------------------------------
/// A byte as two hexadecimal digits.
pub open spec fn is_pair(s: Seq<char>) -> bool {
    s.len() == 2 && all_digits(s, 16)
}

/// `s` ends with `p`.
pub open spec fn ends(s: Seq<char>, p: Seq<char>) -> bool {
    s.len() >= p.len() && s.skip(s.len() - p.len()) == p
}

/// Where the digits of byte `i` stand in a UUID, which has a dash before bytes
/// 4, 6, 8 and 10.
pub open spec fn pair_at(i: int) -> int {
    2 * i + (if i < 4 {
        0int
    } else if i < 6 {
        1int
    } else if i < 8 {
        2int
    } else if i < 10 {
        3int
    } else {
        4int
    })
}

/// The digits of byte `i` of a UUID.
pub open spec fn pair_of(name: Seq<char>, i: int) -> Seq<char> {
    name.subrange(pair_at(i), pair_at(i) + 2)
}

/// Thirty-two hexadecimal digits, a dash behind the first eight and behind each
/// four of the next twelve, and `.local`.
pub open spec fn is_uuid_name(name: Seq<char>) -> bool {
    &&& name.len() == 42
    &&& ends(name, ".local"@)
    &&& name[8] == '-' && name[13] == '-' && name[18] == '-' && name[23] == '-'
    &&& forall|i: int| 0 <= i < 16 ==> is_pair(#[trigger] pair_of(name, i))
}

/// The sixteen bytes of a name such as
/// `1b932746-add2-4fb5-bdc5-99783097cabc.local`. Browsers hide LAN addresses
/// behind exactly this shape of mDNS name.
pub open spec fn uuid_bytes(name: Seq<char>) -> Option<Seq<u8>> {
    if is_uuid_name(name) {
        Some(Seq::new(16, |i: int| number(pair_of(name, i), 16) as u8))
    } else {
        None
    }
}

/// The first `n` bytes in hexadecimal, with the dashes where a UUID has them.
pub open spec fn uuid_hex(b: Seq<u8>, n: nat) -> Seq<char>
    decreases n,
{
    if n == 0 {
        seq![]
    } else {
        let i = n - 1;
        let before = uuid_hex(b, i as nat);
        (if i == 4 || i == 6 || i == 8 || i == 10 {
            before.push('-')
        } else {
            before
        }) + hex(b[i] as nat, 2)
    }
}

/// The name of sixteen bytes.
pub open spec fn uuid_name(b: Seq<u8>) -> Seq<char> {
    uuid_hex(b, 16) + ".local"@
}

/// Whether the characters are those of `s`.
fn is_text(v: &[char], s: &str) -> (b: bool)
    ensures
        b == (v@ == s@),
{
    let t: Vec<char> = chars_of(s);
    if v.len() != t.len() {
        return false;
    }
    assert(v@.skip(0) =~= v@);
    assert(v@.take(v@.len() as int) =~= v@);
    stands_at(v, 0, t.as_slice())
}

pub proof fn lemma_pair_is_a_byte(s: Seq<char>)
    requires
        is_pair(s),
    ensures
        0 <= number(s, 16) <= 255,
{
    reveal_with_fuel(number, 3);
    assert(is_digit(s[0], 16) && is_digit(s[1], 16));
}

/// Reads a byte of two hexadecimal digits.
fn read_pair(s: &[char]) -> (r: Option<u8>)
    ensures
        match r {
            Some(v) => is_pair(s@) && number(s@, 16) == v,
            None => !is_pair(s@),
        },
{
    if s.len() != 2 {
        return None;
    }
    proof {
        assert(s@.skip(0) =~= s@);
        if is_pair(s@) {
            lemma_pair_is_a_byte(s@);
        }
    }
    match read_digits(s, 0, 16, 255) {
        Some(v) => Some(v as u8),
        None => None,
    }
}

fn read_uuid(name: &[char]) -> (r: Option<Vec<u8>>)
    ensures
        match r {
            Some(b) => uuid_bytes(name@) == Some(b@) && b@.len() == 16,
            None => uuid_bytes(name@) is None,
        },
{
    proof {
        reveal_strlit(".local");
    }
    let suffix: Vec<char> = chars_of(".local");
    if name.len() != 42 {
        return None;
    }
    assert(name@.skip(36).take(6) =~= name@.skip(36));
    if !stands_at(name, 36, suffix.as_slice()) {
        return None;
    }
    if name[8] != '-' || name[13] != '-' || name[18] != '-' || name[23] != '-' {
        return None;
    }
    let mut out: Vec<u8> = Vec::new();
    let mut at: usize = 0;
    let mut k: usize = 0;
    while k < 16
        invariant
            k <= 16,
            at == (if k == 4 || k == 6 || k == 8 || k == 10 {
                pair_at(k as int) - 1
            } else {
                pair_at(k as int)
            }),
            name@.len() == 42,
            out@.len() == k,
            forall|j: int|
                0 <= j < k ==> is_pair(#[trigger] pair_of(name@, j)) && number(pair_of(name@, j), 16)
                    == out@[j],
        decreases 16 - k,
    {
        if k == 4 || k == 6 || k == 8 || k == 10 {
            at = at + 1;
        }
        let pair: [char; 2] = [name[at], name[at + 1]];
        assert(pair@ =~= pair_of(name@, k as int));
        match read_pair(&pair) {
            None => {
                assert(!is_pair(pair_of(name@, k as int)));
                return None;
            },
            Some(v) => {
                out.push(v);
            },
        }
        at = at + 2;
        k = k + 1;
    }
    assert(is_uuid_name(name@));
    assert(out@ =~= uuid_bytes(name@)->Some_0);
    Some(out)
}

/// The sixteen bytes of an mDNS name.
pub fn uuid_of(name: &str) -> (r: Option<Vec<u8>>)
    ensures
        match r {
            Some(b) => uuid_bytes(name@) == Some(b@) && b@.len() == 16,
            None => uuid_bytes(name@) is None,
        },
{
    let chars: Vec<char> = chars_of(name);
    read_uuid(chars.as_slice())
}

/// The mDNS name of sixteen bytes.
pub fn uuid_text(b: &[u8]) -> (s: String)
    requires
        b@.len() == 16,
    ensures
        s@ == uuid_name(b@),
{
    let mut s: String = String::new();
    let mut i: usize = 0;
    assert(s@ =~= uuid_hex(b@, 0));
    while i < 16
        invariant
            i <= 16,
            b@.len() == 16,
            s@ == uuid_hex(b@, i as nat),
        decreases 16 - i,
    {
        if i == 4 || i == 6 || i == 8 || i == 10 {
            s.push('-');
        }
        push_hex(&mut s, b[i] as u64, 2);
        i = i + 1;
    }
    s.append(".local");
    s
}

// ---------------------------------------------------------------------------
// Candidates.
// ---------------------------------------------------------------------------
/// Sixteen bytes as eight segments.
pub open spec fn segments_of(b: Seq<u8>) -> Seq<int> {
    Seq::new(8, |i: int| b[2 * i] * 256 + b[2 * i + 1])
}

/// Eight segments as sixteen bytes.
pub open spec fn octets_of(g: Seq<int>) -> Seq<u8> {
    Seq::new(
        16,
        |i: int|
            if i % 2 == 0 {
                (g[i / 2] / 256) as u8
            } else {
                (g[i / 2] % 256) as u8
            },
    )
}

/// The address as text.
pub open spec fn addr_text(c: Cand) -> Seq<char> {
    if c.tag == 0 {
        uuid_name(c.addr)
    } else if c.tag == 1 || c.tag == 3 {
        v4_text(c.addr)
    } else {
        v6_text(segments_of(c.addr))
    }
}

/// The type and the bytes of an address.
pub open spec fn addr_of(t: Seq<char>, srflx: bool) -> Option<(u8, Seq<u8>)> {
    match uuid_bytes(t) {
        Some(b) => Some((0u8, b)),
        None => match v4_bytes(t) {
            Some(b) => Some(
                (
                    if srflx {
                        3u8
                    } else {
                        1u8
                    },
                    b,
                ),
            ),
            None => match v6_segments(t) {
                Some(g) => Some(
                    (
                        if srflx {
                            4u8
                        } else {
                            2u8
                        },
                        octets_of(g),
                    ),
                ),
                None => None,
            },
        },
    }
}

/// `udp`, in whatever case.
pub open spec fn is_udp(s: Seq<char>) -> bool {
    &&& s.len() == 3
    &&& s[0] == 'u' || s[0] == 'U'
    &&& s[1] == 'd' || s[1] == 'D'
    &&& s[2] == 'p' || s[2] == 'P'
}

/// The candidate of a line such as
/// `a=candidate:2563029213 1 udp 2113937151 <addr> 45776 typ host ...`. Only
/// what can be rebuilt: component 1, UDP, typ host or srflx.
pub open spec fn cand_in(line: Seq<char>) -> Option<Cand> {
    let w = words(line.skip(12));
    if starts(line, "a=candidate:"@) && w.len() >= 8 && w[1] == "1"@ && is_udp(w[2]) && parsed(
        w[5],
        10,
        65535,
    ) is Some && w[6] == "typ"@ && (w[7] == "host"@ || w[7] == "srflx"@) {
        match addr_of(w[4], w[7] == "srflx"@) {
            Some((tag, addr)) => Some(
                Cand { tag, addr, port: parsed(w[5], 10, 65535)->Some_0 as u16 },
            ),
            None => None,
        }
    } else {
        None
    }
}

fn octets(g: &[u16]) -> (out: Vec<u8>)
    requires
        g@.len() == 8,
    ensures
        out@ == octets_of(ints(g@)),
        out@.len() == 16,
{
    let ghost want = octets_of(ints(g@));
    let mut out: Vec<u8> = Vec::new();
    let mut i: usize = 0;
    while i < 8
        invariant
            i <= 8 == g@.len(),
            want == octets_of(ints(g@)),
            out@.len() == 2 * i,
            forall|k: int| 0 <= k < 2 * i ==> out@[k] == #[trigger] want[k],
        decreases 8 - i,
    {
        out.push((g[i] / 256) as u8);
        out.push((g[i] % 256) as u8);
        assert(want[2 * i] == (ints(g@)[i as int] / 256) as u8);
        assert(want[2 * i + 1] == (ints(g@)[i as int] % 256) as u8);
        i = i + 1;
    }
    assert(out@ =~= want);
    out
}

pub fn candidate_of(line: &[char]) -> (r: Option<Candidate>)
    ensures
        match r {
            Some(c) => cand_in(line@) == Some(c@),
            None => cand_in(line@) is None,
        },
{
    proof {
        reveal_strlit("a=candidate:");
    }
    let prefix: Vec<char> = chars_of("a=candidate:");
    assert(line@.skip(0) =~= line@);
    if !stands_at(line, 0, prefix.as_slice()) {
        return None;
    }
    let rest: &[char] = vstd::slice::slice_subrange(line, 12, line.len());
    assert(rest@ =~= line@.skip(12));
    let w: Vec<Vec<char>> = split_words(rest);
    let ghost ws = words(line@.skip(12));
    assert(ws.len() == w@.len());
    if w.len() < 8 {
        return None;
    }
    assert(forall|i: int| 0 <= i < w@.len() ==> ws[i] == #[trigger] w@[i]@);
    if !is_text(w[1].as_slice(), "1") {
        return None;  // RTCP components died with rtcp-mux; only 1 exists
    }
    let t: &Vec<char> = &w[2];
    if !(t.len() == 3 && (t[0] == 'u' || t[0] == 'U') && (t[1] == 'd' || t[1] == 'D') && (t[2]
        == 'p' || t[2] == 'P')) {
        return None;
    }
    if !is_text(w[6].as_slice(), "typ") {
        return None;
    }
    let srflx: bool = is_text(w[7].as_slice(), "srflx");
    if !srflx && !is_text(w[7].as_slice(), "host") {
        return None;  // relay needs a TURN server we do not run
    }
    match parse_number(w[5].as_slice(), 10, 65535) {
        None => None,
        Some(port) => {
            let port: u16 = port as u16;
            match read_uuid(w[4].as_slice()) {
                Some(addr) => Some(Candidate { tag: 0, addr, port }),
                None => match parse_v4(w[4].as_slice()) {
                    Some(addr) => Some(
                        Candidate {
                            tag: if srflx {
                                3
                            } else {
                                1
                            },
                            addr,
                            port,
                        },
                    ),
                    None => match parse_v6(w[4].as_slice()) {
                        Some(g) => {
                            let addr: Vec<u8> = octets(g.as_slice());
                            Some(
                                Candidate {
                                    tag: if srflx {
                                        4
                                    } else {
                                        2
                                    },
                                    addr,
                                    port,
                                },
                            )
                        },
                        None => None,
                    },
                },
            }
        },
    }
}

// ---------------------------------------------------------------------------
// Fingerprints.
// ---------------------------------------------------------------------------
/// A digit in upper case.
pub open spec fn upper(d: int) -> char {
    if d < 10 {
        ('0' as int + d) as char
    } else {
        ('A' as int + (d - 10)) as char
    }
}

/// A byte as two digits in upper case.
pub open spec fn upper_pair(n: u8) -> Seq<char> {
    seq![upper(n as int / 16), upper(n as int % 16)]
}

/// Thirty-two bytes between colons, each of them two hexadecimal digits.
pub open spec fn fp_bytes(t: Seq<char>) -> Option<Seq<u8>> {
    let p = split(t, ':');
    if p.len() == 32 && all_bytes(p) {
        Some(Seq::new(32, |i: int| number(p[i], 16) as u8))
    } else {
        None
    }
}

/// Every piece is a byte of two hexadecimal digits.
pub open spec fn all_bytes(p: Seq<Seq<char>>) -> bool {
    forall|i: int| 0 <= i < p.len() ==> (#[trigger] p[i]).len() == 2 && all_digits(p[i], 16)
}

pub open spec fn fp_text(b: Seq<u8>) -> Seq<char> {
    join(b.map_values(|n: u8| upper_pair(n)), ':')
}

/// `3A:2B:...` (32 hex pairs) -> 32 bytes.
pub fn fingerprint_of(t: &[char]) -> (r: Option<Vec<u8>>)
    ensures
        match r {
            Some(b) => fp_bytes(t@) == Some(b@) && b@.len() == 32,
            None => fp_bytes(t@) is None,
        },
{
    let p: Vec<Vec<char>> = split_at(t, ':');
    let ghost ps = texts(p@);
    assert(ps.len() == p@.len());
    if p.len() != 32 {
        return None;
    }
    let mut out: Vec<u8> = Vec::new();
    let mut i: usize = 0;
    while i < 32
        invariant
            i <= 32 == p@.len(),
            ps == texts(p@),
            ps == split(t@, ':'),
            out@.len() == i,
            forall|k: int|
                0 <= k < i ==> is_pair(#[trigger] ps[k]) && number(ps[k], 16) == out@[k],
        decreases 32 - i,
    {
        assert(ps[i as int] == p@[i as int]@);
        match read_pair(p[i].as_slice()) {
            None => {
                assert(!is_pair(ps[i as int]));
                assert(!all_bytes(ps));
                return None;
            },
            Some(v) => {
                out.push(v);
            },
        }
        i = i + 1;
    }
    assert(all_bytes(ps));
    assert(out@ =~= fp_bytes(t@)->Some_0);
    Some(out)
}

fn upper_char(d: u8) -> (c: char)
    requires
        d < 16,
    ensures
        c == upper(d as int),
{
    if d < 10 {
        (48 + d) as char
    } else {
        (65 + (d - 10)) as char
    }
}

fn fingerprint_text(b: &[u8]) -> (s: String)
    ensures
        s@ == fp_text(b@),
{
    let mut p: Vec<Vec<char>> = Vec::new();
    let ghost want = b@.map_values(|n: u8| upper_pair(n));
    let mut i: usize = 0;
    assert(texts(p@) =~= want.take(0));
    while i < b.len()
        invariant
            i <= b@.len(),
            want == b@.map_values(|n: u8| upper_pair(n)),
            texts(p@) == want.take(i as int),
        decreases b@.len() - i,
    {
        let ghost was = texts(p@);
        let mut pair: Vec<char> = Vec::new();
        pair.push(upper_char(b[i] / 16));
        pair.push(upper_char(b[i] % 16));
        assert(pair@ =~= want[i as int]);
        p.push(pair);
        i = i + 1;
        assert(texts(p@) =~= was.push(want[i - 1]));
        assert(texts(p@) =~= want.take(i as int));
    }
    assert(want.take(i as int) =~= want);
    join_with(p.as_slice(), ':')
}

// ---------------------------------------------------------------------------
// Reading an SDP.
// ---------------------------------------------------------------------------
/// Without the carriage returns at its end.
pub open spec fn unreturned(s: Seq<char>) -> Seq<char>
    decreases s.len(),
{
    if s.len() > 0 && s.last() == '\r' {
        unreturned(s.drop_last())
    } else {
        s
    }
}

/// The lines of a text.
pub open spec fn rows(s: Seq<char>) -> Seq<Seq<char>> {
    split(s, '\n').map_values(|l: Seq<char>| unreturned(l))
}

/// What follows `prefix` on the first line that starts with it.
pub open spec fn attribute(r: Seq<Seq<char>>, prefix: Seq<char>) -> Option<Seq<char>>
    decreases r.len(),
{
    if r.len() == 0 {
        None
    } else if starts(r[0], prefix) {
        Some(r[0].skip(prefix.len() as int))
    } else {
        attribute(r.skip(1), prefix)
    }
}

/// The candidates of the lines that have one.
pub open spec fn candidates(r: Seq<Seq<char>>) -> Seq<Cand>
    decreases r.len(),
{
    if r.len() == 0 {
        seq![]
    } else {
        let before = candidates(r.drop_last());
        match cand_in(r.last()) {
            Some(c) => before.push(c),
            None => before,
        }
    }
}

/// The role that the lines give.
pub open spec fn setup_in(r: Seq<Seq<char>>) -> Option<u8> {
    match attribute(r, "a=setup:"@) {
        Some(v) => setup_of(v),
        None => None,
    }
}

/// A username or password that the lines give under `prefix`.
pub open spec fn ice_in(r: Seq<Seq<char>>, prefix: Seq<char>) -> Option<Seq<char>> {
    match attribute(r, prefix) {
        Some(v) => if ice(v) {
            Some(v)
        } else {
            None
        },
        None => None,
    }
}

/// The fingerprint that the lines give, where it is a sha-256 one.
pub open spec fn fp_in(r: Seq<Seq<char>>) -> Option<Seq<u8>> {
    match attribute(r, "a=fingerprint:"@) {
        Some(v) => if starts(v, "sha-256 "@) {
            fp_bytes(v.skip(8))
        } else {
            None
        },
        None => None,
    }
}

/// The facts of an SDP, where it gives all of them in a shape that can be
/// rebuilt. One without a candidate could never connect.
pub open spec fn facts_in(sdp: Seq<char>) -> Option<Facts> {
    let r = rows(sdp);
    let cands = candidates(r);
    match (setup_in(r), ice_in(r, "a=ice-ufrag:"@), ice_in(r, "a=ice-pwd:"@), fp_in(r)) {
        (Some(setup), Some(ufrag), Some(pwd), Some(fp)) => if 0 < cands.len() <= 255 {
            Some(Facts { setup, ufrag, pwd, fp, cands })
        } else {
            None
        },
        _ => None,
    }
}

/// Characters as bytes.
pub open spec fn ascii(s: Seq<char>) -> Seq<u8> {
    s.map_values(|c: char| c as u8)
}

pub open spec fn cand_bytes(c: Cand) -> Seq<u8> {
    seq![c.tag] + c.addr + le(c.port as nat, 2)
}

pub open spec fn cands_bytes(v: Seq<Cand>) -> Seq<u8>
    decreases v.len(),
{
    if v.len() == 0 {
        seq![]
    } else {
        cands_bytes(v.drop_last()) + cand_bytes(v.last())
    }
}

/// The facts in their compact form.
pub open spec fn packed(f: Facts) -> Seq<u8> {
    seq![1u8, f.setup, f.ufrag.len() as u8] + ascii(f.ufrag) + seq![f.pwd.len() as u8] + ascii(
        f.pwd,
    ) + f.fp + seq![f.cands.len() as u8] + cands_bytes(f.cands)
}

/// The compact form of an SDP.
pub open spec fn compacted(sdp: Seq<char>) -> Option<Seq<u8>> {
    match facts_in(sdp) {
        Some(f) => Some(packed(f)),
        None => None,
    }
}

fn read_rows(sdp: &str) -> (out: Vec<Vec<char>>)
    ensures
        texts(out@) == rows(sdp@),
{
    let chars: Vec<char> = chars_of(sdp);
    let lines: Vec<Vec<char>> = split_at(chars.as_slice(), '\n');
    let ghost all = split(sdp@, '\n');
    let mut out: Vec<Vec<char>> = Vec::new();
    let mut i: usize = 0;
    assert(texts(out@) =~= rows(sdp@).take(0));
    assert(lines@.len() == all.len());
    while i < lines.len()
        invariant
            i <= lines@.len(),
            texts(lines@) == all,
            lines@.len() == all.len(),
            all == split(sdp@, '\n'),
            texts(out@) == rows(sdp@).take(i as int),
        decreases lines@.len() - i,
    {
        let line: &Vec<char> = &lines[i];
        let mut n: usize = line.len();
        assert(line@.take(n as int) =~= line@);
        while n > 0 && line[n - 1] == '\r'
            invariant
                n <= line@.len(),
                unreturned(line@) == unreturned(line@.take(n as int)),
            decreases n,
        {
            assert(line@.take(n as int).drop_last() =~= line@.take(n - 1));
            n = n - 1;
        }
        let mut kept: Vec<char> = Vec::new();
        let mut k: usize = 0;
        while k < n
            invariant
                k <= n <= line@.len(),
                kept@ == line@.take(k as int),
            decreases n - k,
        {
            kept.push(line[k]);
            k = k + 1;
            assert(kept@ =~= line@.take(k as int));
        }
        proof {
            assert(all[i as int] == line@);
            assert(kept@ == unreturned(line@));
            assert(rows(sdp@)[i as int] == kept@);
        }
        let ghost was = texts(out@);
        out.push(kept);
        i = i + 1;
        assert(texts(out@) =~= was.push(kept@));
        assert(texts(out@) =~= rows(sdp@).take(i as int));
    }
    assert(rows(sdp@).take(i as int) =~= rows(sdp@));
    out
}

/// The value of an attribute, if its line is present.
fn attr(r: &[Vec<char>], prefix: &str) -> (out: Option<Vec<char>>)
    ensures
        match out {
            Some(v) => attribute(texts(r@), prefix@) == Some(v@),
            None => attribute(texts(r@), prefix@) is None,
        },
{
    let p: Vec<char> = chars_of(prefix);
    let ghost all = texts(r@);
    let mut i: usize = 0;
    assert(all.skip(0) =~= all);
    while i < r.len()
        invariant
            i <= r@.len(),
            all == texts(r@),
            p@ == prefix@,
            attribute(all, prefix@) == attribute(all.skip(i as int), prefix@),
        decreases r@.len() - i,
    {
        let line: &Vec<char> = &r[i];
        let ghost tail = all.skip(i as int);
        assert(tail[0] == line@);
        assert(line@.skip(0) =~= line@);
        if stands_at(line.as_slice(), 0, p.as_slice()) {
            let v: Vec<char> = vstd::slice::slice_to_vec(
                vstd::slice::slice_subrange(line.as_slice(), p.len(), line.len()),
            );
            assert(v@ =~= line@.skip(prefix@.len() as int));
            return Some(v);
        }
        assert(tail.skip(1) =~= all.skip(i + 1));
        i = i + 1;
    }
    assert(all.skip(i as int).len() == 0);
    None
}

fn ice_chars(s: &[char]) -> (b: bool)
    ensures
        b == ice(s@),
{
    let len: usize = s.len();
    if len == 0 || len > 255 {
        return false;
    }
    let mut i: usize = 0;
    while i < len
        invariant
            i <= len == s@.len(),
            forall|k: int| 0 <= k < i ==> ice_char(#[trigger] s@[k]),
        decreases len - i,
    {
        let c: char = s[i];
        if !(('a' <= c && c <= 'z') || ('A' <= c && c <= 'Z') || ('0' <= c && c <= '9') || c == '+'
            || c == '/') {
            assert(!ice_char(s@[i as int]));
            return false;
        }
        i = i + 1;
    }
    true
}

fn push_ascii(out: &mut Vec<u8>, s: &[char])
    requires
        ice(s@),
    ensures
        final(out)@ == old(out)@ + ascii(s@),
{
    let mut i: usize = 0;
    assert(out@ =~= old(out)@ + ascii(s@).take(0));
    while i < s.len()
        invariant
            i <= s@.len(),
            ice(s@),
            out@ == old(out)@ + ascii(s@).take(i as int),
        decreases s@.len() - i,
    {
        assert(ice_char(s@[i as int]));
        out.push(s[i] as u8);
        i = i + 1;
        assert(out@ =~= old(out)@ + ascii(s@).take(i as int));
    }
    assert(ascii(s@).take(i as int) =~= ascii(s@));
}

fn read_setup(r: &[Vec<char>]) -> (out: Option<u8>)
    ensures
        out == setup_in(texts(r@)),
{
    match attr(r, "a=setup:") {
        None => None,
        Some(v) => if is_text(v.as_slice(), "actpass") {
            Some(0)
        } else if is_text(v.as_slice(), "active") {
            Some(1)
        } else if is_text(v.as_slice(), "passive") {
            Some(2)
        } else {
            None
        },
    }
}

fn read_ice(r: &[Vec<char>], prefix: &str) -> (out: Option<Vec<char>>)
    ensures
        match out {
            Some(v) => ice_in(texts(r@), prefix@) == Some(v@),
            None => ice_in(texts(r@), prefix@) is None,
        },
{
    match attr(r, prefix) {
        None => None,
        Some(v) => if ice_chars(v.as_slice()) {
            Some(v)
        } else {
            None
        },
    }
}

fn read_fingerprint(r: &[Vec<char>]) -> (out: Option<Vec<u8>>)
    ensures
        match out {
            Some(b) => fp_in(texts(r@)) == Some(b@) && b@.len() == 32,
            None => fp_in(texts(r@)) is None,
        },
{
    proof {
        reveal_strlit("sha-256 ");
    }
    let hash: Vec<char> = chars_of("sha-256 ");
    match attr(r, "a=fingerprint:") {
        None => None,
        Some(v) => {
            assert(v@.skip(0) =~= v@);
            if stands_at(v.as_slice(), 0, hash.as_slice()) {
                let rest: &[char] = vstd::slice::slice_subrange(v.as_slice(), 8, v.len());
                assert(rest@ =~= v@.skip(8));
                fingerprint_of(rest)
            } else {
                None
            }
        },
    }
}

/// Views of candidates.
pub open spec fn views(v: Seq<Candidate>) -> Seq<Cand> {
    v.map_values(|c: Candidate| c@)
}

fn read_candidates(r: &[Vec<char>]) -> (out: Vec<Candidate>)
    ensures
        views(out@) == candidates(texts(r@)),
{
    let ghost all = texts(r@);
    let mut out: Vec<Candidate> = Vec::new();
    let mut i: usize = 0;
    assert(views(out@) =~= candidates(all.take(0)));
    while i < r.len()
        invariant
            i <= r@.len(),
            all == texts(r@),
            views(out@) == candidates(all.take(i as int)),
        decreases r@.len() - i,
    {
        let ghost was = views(out@);
        assert(all.take(i + 1).drop_last() =~= all.take(i as int));
        assert(all.take(i + 1).last() == r@[i as int]@);
        match candidate_of(r[i].as_slice()) {
            Some(c) => {
                let ghost view = c@;
                out.push(c);
                assert(views(out@) =~= was.push(view));
            },
            None => {},
        }
        i = i + 1;
    }
    assert(all.take(i as int) =~= all);
    out
}

/// The compact form of a browser's SDP, or `None` for any SDP this module
/// does not fully understand — the caller deflates the whole text instead,
/// so an unexpected browser costs bytes, never the connection.
pub fn compact(sdp: &str) -> (r: Option<Vec<u8>>)
    ensures
        match r {
            Some(b) => compacted(sdp@) == Some(b@),
            None => compacted(sdp@) is None,
        },
{
    let r: Vec<Vec<char>> = read_rows(sdp);
    let cands: Vec<Candidate> = read_candidates(r.as_slice());
    let ghost views = views(cands@);
    assert(views.len() == cands@.len());
    if cands.len() == 0 || cands.len() > 255 {
        return None;
    }
    match (
        read_setup(r.as_slice()),
        read_ice(r.as_slice(), "a=ice-ufrag:"),
        read_ice(r.as_slice(), "a=ice-pwd:"),
        read_fingerprint(r.as_slice()),
    ) {
        (Some(setup), Some(ufrag), Some(pwd), Some(fp)) => {
            let ghost f = facts_in(sdp@)->Some_0;
            let mut fp: Vec<u8> = fp;
            let mut out: Vec<u8> = Vec::new();
            out.push(MAGIC);
            out.push(setup);
            out.push(ufrag.len() as u8);
            push_ascii(&mut out, ufrag.as_slice());
            out.push(pwd.len() as u8);
            push_ascii(&mut out, pwd.as_slice());
            out.append(&mut fp);
            out.push(cands.len() as u8);
            let ghost head = out@;
            let mut i: usize = 0;
            assert(out@ =~= head + cands_bytes(views.take(0)));
            while i < cands.len()
                invariant
                    i <= cands@.len(),
                    views == crate::sdp::views(cands@),
                    out@ == head + cands_bytes(views.take(i as int)),
                decreases cands@.len() - i,
            {
                let c: &Candidate = &cands[i];
                let ghost was = out@;
                assert(views.take(i + 1).drop_last() =~= views.take(i as int));
                assert(views.take(i + 1).last() == c@);
                out.push(c.tag);
                let mut k: usize = 0;
                assert(out@ =~= was.push(c.tag) + c.addr@.take(0));
                while k < c.addr.len()
                    invariant
                        k <= c.addr@.len(),
                        out@ == was.push(c.tag) + c.addr@.take(k as int),
                    decreases c.addr@.len() - k,
                {
                    out.push(c.addr[k]);
                    k = k + 1;
                    assert(out@ =~= was.push(c.tag) + c.addr@.take(k as int));
                }
                assert(c.addr@.take(k as int) =~= c.addr@);
                put_le(&mut out, c.port as u64, 2);
                i = i + 1;
                assert(out@ =~= was + cand_bytes(c@));
                assert(out@ =~= head + cands_bytes(views.take(i as int)));
            }
            assert(views.take(i as int) =~= views);
            assert(out@ =~= packed(f));
            Some(out)
        },
        _ => None,
    }
}

// ---------------------------------------------------------------------------
// Writing an SDP.
// ---------------------------------------------------------------------------
/// Bytes as characters.
pub open spec fn as_text(b: Seq<u8>) -> Seq<char> {
    b.map_values(|x: u8| x as char)
}

/// The candidate at the front of some bytes, and how many it takes.
pub open spec fn cand_at(b: Seq<u8>) -> Option<(Cand, nat)> {
    if b.len() == 0 || b[0] > 4 || b.len() < 3 + addr_len(b[0]) {
        None
    } else {
        let n = addr_len(b[0]) as int;
        Some(
            (
                Cand {
                    tag: b[0],
                    addr: b.subrange(1, 1 + n),
                    port: le_value(b.subrange(1 + n, 3 + n)) as u16,
                },
                (3 + n) as nat,
            ),
        )
    }
}

/// The `k` candidates that some bytes are from end to end.
pub open spec fn cands_in(b: Seq<u8>, k: nat) -> Option<Seq<Cand>>
    decreases k,
{
    if k == 0 {
        if b.len() == 0 {
            Some(seq![])
        } else {
            None
        }
    } else {
        match cand_at(b) {
            None => None,
            Some((c, n)) => match cands_in(b.skip(n as int), (k - 1) as nat) {
                None => None,
                Some(rest) => Some(seq![c] + rest),
            },
        }
    }
}

/// The facts of a compact form. Every length has to line up exactly.
pub open spec fn unpacked(b: Seq<u8>) -> Option<Facts> {
    if b.len() < 3 || b[0] != 1 || b[1] >= 3 || b.len() < 4 + b[2] {
        None
    } else {
        let p = 4 + b[2];
        let q = p + b[p - 1];
        if b.len() < q + 33 {
            None
        } else {
            let ufrag = as_text(b.subrange(3, p - 1));
            let pwd = as_text(b.subrange(p, q));
            if !ice(ufrag) || !ice(pwd) || b[q + 32] == 0 {
                None
            } else {
                match cands_in(b.skip(q + 33), b[q + 32] as nat) {
                    None => None,
                    Some(cands) => Some(
                        Facts { setup: b[1], ufrag, pwd, fp: b.subrange(q, q + 32), cands },
                    ),
                }
            }
        }
    }
}

/// The RFC 8445 formula, minus the index so no two candidates tie; host
/// preferred over srflx.
pub open spec fn priority(tag: u8, i: int) -> int {
    (if is_srflx(tag) {
        100int
    } else {
        126int
    }) * 0x100_0000 + 0xff_ffff - i
}

/// The words of a candidate's line. Foundation and priority are ours to
/// invent: the browser only needs them distinct.
pub open spec fn cand_words(c: Cand, i: int) -> Seq<Seq<char>> {
    seq![
        decimal((i + 1) as nat),
        "1"@,
        "udp"@,
        decimal(priority(c.tag, i) as nat),
        addr_text(c),
        decimal(c.port as nat),
        "typ"@,
    ] + (if is_srflx(c.tag) {
        seq!["srflx"@, "raddr"@, "0.0.0.0"@, "rport"@, "0"@]
    } else {
        seq!["host"@]
    })
}

pub open spec fn cand_line(c: Cand, i: int) -> Seq<char> {
    "a=candidate:"@ + join(cand_words(c, i), ' ')
}

pub open spec fn cand_lines(v: Seq<Cand>) -> Seq<Seq<char>> {
    Seq::new(v.len(), |i: int| cand_line(v[i], i))
}

/// The template: what headless Chromium emits, minus what only matters for
/// audio and video.
pub open spec fn head_lines() -> Seq<Seq<char>> {
    seq![
        "v=0"@,
        "o=- 1 2 IN IP4 127.0.0.1"@,
        "s=-"@,
        "t=0 0"@,
        "a=group:BUNDLE 0"@,
        "a=msid-semantic: WMS"@,
        "m=application 9 UDP/DTLS/SCTP webrtc-datachannel"@,
        "c=IN IP4 0.0.0.0"@,
    ]
}

pub open spec fn tail_lines(f: Facts) -> Seq<Seq<char>> {
    seq![
        "a=ice-ufrag:"@ + f.ufrag,
        "a=ice-pwd:"@ + f.pwd,
        "a=fingerprint:"@ + ("sha-256 "@ + fp_text(f.fp)),
        "a=setup:"@ + setup_name(f.setup),
        "a=mid:0"@,
        "a=sctp-port:5000"@,
        "a=max-message-size:262144"@,
    ]
}

/// The lines of the SDP that the facts stand for.
pub open spec fn sdp_lines(f: Facts) -> Seq<Seq<char>> {
    head_lines() + cand_lines(f.cands) + tail_lines(f)
}

/// Lines, each with its ending.
pub open spec fn crlf(lines: Seq<Seq<char>>) -> Seq<char>
    decreases lines.len(),
{
    if lines.len() == 0 {
        seq![]
    } else {
        crlf(lines.drop_last()) + lines.last() + seq!['\r', '\n']
    }
}

/// The SDP that a compact form stands for.
pub open spec fn expanded(b: Seq<u8>) -> Option<Seq<char>> {
    match unpacked(b) {
        Some(f) => Some(crlf(sdp_lines(f))),
        None => None,
    }
}

fn text_at(bytes: &[u8], from: usize, to: usize) -> (out: Vec<char>)
    requires
        from <= to <= bytes@.len(),
    ensures
        out@ == as_text(bytes@.subrange(from as int, to as int)),
{
    let ghost want = as_text(bytes@.subrange(from as int, to as int));
    let mut out: Vec<char> = Vec::new();
    let mut i: usize = from;
    assert(out@ =~= want.take(0));
    while i < to
        invariant
            from <= i <= to <= bytes@.len(),
            want == as_text(bytes@.subrange(from as int, to as int)),
            out@ == want.take(i - from),
        decreases to - i,
    {
        assert(want[i - from] == bytes@[i as int] as char);
        out.push(bytes[i] as char);
        i = i + 1;
        assert(out@ =~= want.take(i - from));
    }
    assert(want.take(i - from) =~= want);
    out
}

/// Reads `count` candidates from `at` on, which have to take all there is.
fn read_packed(bytes: &[u8], at: usize, count: usize) -> (r: Option<Vec<Candidate>>)
    requires
        at <= bytes@.len(),
    ensures
        match r {
            Some(v) => cands_in(bytes@.skip(at as int), count as nat) == Some(views(v@)),
            None => cands_in(bytes@.skip(at as int), count as nat) is None,
        },
{
    let len: usize = bytes.len();
    let ghost all = bytes@.skip(at as int);
    let mut out: Vec<Candidate> = Vec::new();
    let mut p: usize = at;
    let mut k: usize = count;
    proof {
        if cands_in(all, count as nat) is Some {
            assert(views(out@) + cands_in(all, count as nat)->Some_0 =~= cands_in(
                all,
                count as nat,
            )->Some_0);
        }
    }
    while k > 0
        invariant
            p <= len == bytes@.len(),
            all == bytes@.skip(at as int),
            match cands_in(bytes@.skip(p as int), k as nat) {
                None => cands_in(all, count as nat) is None,
                Some(rest) => cands_in(all, count as nat) == Some(views(out@) + rest),
            },
        decreases k,
    {
        let ghost tail = bytes@.skip(p as int);
        if p == len || bytes[p] > 4 {
            return None;
        }
        let tag: u8 = bytes[p];
        let n: usize = if tag == 1 || tag == 3 {
            4
        } else {
            16
        };
        if len - p < 3 + n {
            return None;
        }
        proof {
            lemma_rooms();
            assert(tail.subrange(1, 1 + n) =~= bytes@.subrange(p + 1, p + 1 + n));
            assert(tail.subrange(1 + n, 3 + n) =~= bytes@.subrange(p + 1 + n, p + 3 + n));
            assert(tail.skip(3 + n) =~= bytes@.skip(p + 3 + n));
        }
        let addr: Vec<u8> = vstd::slice::slice_to_vec(
            vstd::slice::slice_subrange(bytes, p + 1, p + 1 + n),
        );
        let port: u16 = get_le(bytes, p + 1 + n, 2) as u16;
        let c: Candidate = Candidate { tag, addr, port };
        let ghost view = c@;
        let ghost was = views(out@);
        assert(cand_at(tail) == Some((view, (3 + n) as nat)));
        out.push(c);
        assert(views(out@) =~= was.push(view));
        proof {
            match cands_in(tail.skip(3 + n), (k - 1) as nat) {
                None => {},
                Some(rest) => {
                    assert(was + (seq![view] + rest) =~= views(out@) + rest);
                },
            }
        }
        p = p + 3 + n;
        k = k - 1;
    }
    if p == len {
        assert(bytes@.skip(p as int).len() == 0);
        assert(views(out@) + Seq::<Cand>::empty() =~= views(out@));
        Some(out)
    } else {
        // Trailing bytes mean this was never a compact payload at all.
        None
    }
}

fn push_word(out: &mut Vec<Vec<char>>, s: &str)
    ensures
        texts(final(out)@) == texts(old(out)@).push(s@),
{
    let ghost was = texts(out@);
    let w: Vec<char> = chars_of(s);
    out.push(w);
    assert(texts(out@) =~= was.push(s@));
}

fn push_number(out: &mut Vec<Vec<char>>, n: u64)
    ensures
        texts(final(out)@) == texts(old(out)@).push(decimal(n as nat)),
{
    let ghost was = texts(out@);
    let w: Vec<char> = decimal_chars(n);
    out.push(w);
    assert(texts(out@) =~= was.push(decimal(n as nat)));
}

fn address_text(c: &Candidate) -> (s: String)
    requires
        cand_ok(c@),
    ensures
        s@ == addr_text(c@),
{
    if c.tag == 0 {
        uuid_text(c.addr.as_slice())
    } else if c.tag == 1 || c.tag == 3 {
        format_v4(c.addr.as_slice())
    } else {
        let mut g: Vec<u16> = Vec::new();
        let ghost want = segments_of(c.addr@);
        let mut i: usize = 0;
        while i < 8
            invariant
                i <= 8,
                c.addr@.len() == 16,
                want == segments_of(c.addr@),
                g@.len() == i,
                forall|k: int| 0 <= k < i ==> g@[k] == #[trigger] want[k],
            decreases 8 - i,
        {
            g.push(c.addr[2 * i] as u16 * 256 + c.addr[2 * i + 1] as u16);
            assert(want[i as int] == g@[i as int]);
            i = i + 1;
        }
        assert(ints(g@) =~= want);
        format_v6(g.as_slice())
    }
}

fn candidate_line(c: &Candidate, i: u8) -> (s: String)
    requires
        cand_ok(c@),
    ensures
        s@ == cand_line(c@, i as int),
{
    let srflx: bool = c.tag == 3 || c.tag == 4;
    let pref: u32 = if srflx {
        100
    } else {
        126
    };
    let priority: u32 = pref * 0x100_0000 + 0xff_ffff - i as u32;
    let mut w: Vec<Vec<char>> = Vec::new();
    push_number(&mut w, i as u64 + 1);
    push_word(&mut w, "1");
    push_word(&mut w, "udp");
    push_number(&mut w, priority as u64);
    push_word(&mut w, address_text(c).as_str());
    push_number(&mut w, c.port as u64);
    push_word(&mut w, "typ");
    if srflx {
        push_word(&mut w, "srflx");
        push_word(&mut w, "raddr");
        push_word(&mut w, "0.0.0.0");
        push_word(&mut w, "rport");
        push_word(&mut w, "0");
    } else {
        push_word(&mut w, "host");
    }
    assert(texts(w@) =~= cand_words(c@, i as int));
    let mut s: String = String::new();
    s.append("a=candidate:");
    s.append(join_with(w.as_slice(), ' ').as_str());
    assert(s@ =~= cand_line(c@, i as int));
    s
}

/// Appends a line and its ending.
fn push_line(out: &mut String, prefix: &str, value: &str)
    ensures
        forall|lines: Seq<Seq<char>>| #[trigger]
            crlf(lines) == old(out)@ ==> final(out)@ == crlf(lines.push(prefix@ + value@)),
{
    let ghost was = out@;
    out.append(prefix);
    out.append(value);
    out.push('\r');
    out.push('\n');
    assert forall|lines: Seq<Seq<char>>| #[trigger] crlf(lines) == was implies out@ == crlf(
        lines.push(prefix@ + value@),
    ) by {
        let more = lines.push(prefix@ + value@);
        assert(more.drop_last() =~= lines);
        assert(out@ =~= crlf(lines) + more.last() + seq!['\r', '\n']);
    }
}

/// Appends a line of the template.
fn push_plain(out: &mut String, line: &str)
    ensures
        forall|lines: Seq<Seq<char>>| #[trigger]
            crlf(lines) == old(out)@ ==> final(out)@ == crlf(lines.push(line@)),
{
    push_line(out, line, "");
    proof {
        reveal_strlit("");
        assert(line@ + ""@ =~= line@);
    }
}

/// The SDP a compact payload stands for, rebuilt around the template both
/// peers share. `None` for anything that is not exactly a compact payload —
/// including deflated payloads from older peers, which the caller then
/// inflates as before.
pub fn expand(bytes: &[u8]) -> (r: Option<String>)
    ensures
        match r {
            Some(s) => expanded(bytes@) == Some(s@),
            None => expanded(bytes@) is None,
        },
{
    let len: usize = bytes.len();
    if len < 3 || bytes[0] != MAGIC || bytes[1] >= 3 || len < 4 + bytes[2] as usize {
        return None;
    }
    let setup: &'static str = if bytes[1] == 0 {
        "actpass"
    } else if bytes[1] == 1 {
        "active"
    } else {
        "passive"
    };
    let p: usize = 4 + bytes[2] as usize;
    let q: usize = p + bytes[p - 1] as usize;
    if len < 33 || len - 33 < q {
        return None;
    }
    let ufrag: Vec<char> = text_at(bytes, 3, p - 1);
    let pwd: Vec<char> = text_at(bytes, p, q);
    if !ice_chars(ufrag.as_slice()) || !ice_chars(pwd.as_slice()) {
        return None;
    }
    let count: u8 = bytes[q + 32];
    if count == 0 {
        return None;
    }
    match read_packed(bytes, q + 33, count as usize) {
        None => None,
        Some(cands) => {
            let ghost f = unpacked(bytes@)->Some_0;
            let fp: &[u8] = vstd::slice::slice_subrange(bytes, q, q + 32);
            proof {
                laws::lemma_cands_in(bytes@.skip(q + 33), count as nat);
                assert(f.cands.len() == cands@.len());
            }
            let mut out: String = String::new();
            assert(out@ =~= crlf(seq![]));
            push_plain(&mut out, "v=0");
            push_plain(&mut out, "o=- 1 2 IN IP4 127.0.0.1");
            push_plain(&mut out, "s=-");
            push_plain(&mut out, "t=0 0");
            push_plain(&mut out, "a=group:BUNDLE 0");
            push_plain(&mut out, "a=msid-semantic: WMS");
            push_plain(&mut out, "m=application 9 UDP/DTLS/SCTP webrtc-datachannel");
            push_plain(&mut out, "c=IN IP4 0.0.0.0");
            let ghost head = seq![].push("v=0"@).push("o=- 1 2 IN IP4 127.0.0.1"@).push(
                "s=-"@,
            ).push("t=0 0"@).push("a=group:BUNDLE 0"@).push("a=msid-semantic: WMS"@).push(
                "m=application 9 UDP/DTLS/SCTP webrtc-datachannel"@,
            ).push("c=IN IP4 0.0.0.0"@);
            assert(out@ == crlf(head));
            assert(head =~= head_lines());
            let ghost lines = cand_lines(f.cands);
            let mut i: usize = 0;
            assert(head_lines() + lines.take(0) =~= head_lines());
            while i < cands.len()
                invariant
                    i <= cands@.len() <= 255,
                    f.cands == views(cands@),
                    lines == cand_lines(f.cands),
                    forall|k: int| 0 <= k < f.cands.len() ==> cand_ok(#[trigger] f.cands[k]),
                    out@ == crlf(head_lines() + lines.take(i as int)),
                decreases cands@.len() - i,
            {
                assert(f.cands[i as int] == cands@[i as int]@);
                let line: String = candidate_line(&cands[i], i as u8);
                push_plain(&mut out, line.as_str());
                assert((head_lines() + lines.take(i as int)).push(line@) =~= head_lines()
                    + lines.take(i + 1));
                i = i + 1;
            }
            assert(lines.take(i as int) =~= lines);
            let user: String = crate::text::string_of(ufrag.as_slice());
            let pass: String = crate::text::string_of(pwd.as_slice());
            let print: String = {
                let mut s: String = String::new();
                s.append("sha-256 ");
                s.append(fingerprint_text(fp).as_str());
                assert(s@ =~= "sha-256 "@ + fp_text(fp@));
                s
            };
            let ghost body = head_lines() + lines;
            push_line(&mut out, "a=ice-ufrag:", user.as_str());
            push_line(&mut out, "a=ice-pwd:", pass.as_str());
            push_line(&mut out, "a=fingerprint:", print.as_str());
            push_line(&mut out, "a=setup:", setup);
            push_plain(&mut out, "a=mid:0");
            push_plain(&mut out, "a=sctp-port:5000");
            push_plain(&mut out, "a=max-message-size:262144");
            let ghost all = body.push("a=ice-ufrag:"@ + user@).push("a=ice-pwd:"@ + pass@).push(
                "a=fingerprint:"@ + print@,
            ).push("a=setup:"@ + setup@).push("a=mid:0"@).push("a=sctp-port:5000"@).push(
                "a=max-message-size:262144"@,
            );
            assert(out@ == crlf(all));
            assert(fp@ =~= f.fp);
            assert(all =~= sdp_lines(f));
            Some(out)
        },
    }
}

} // verus!
