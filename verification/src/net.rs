//! What the handshake says, and what the connection's states mean.
use vstd::prelude::*;
use vstd::string::*;

use crate::text::{chars_of, decimal, push_decimal};

verus! {

/// A public STUN server: peers behind NAT need one to learn their own public
/// address. It sees an IP and nothing else.
pub const STUN: &'static str = "stun:stun.l.google.com:19302";

/// How long ICE gathering may hold up the link. The candidates found by then
/// are the ones a peer could reach anyway; a link that exists beats a complete
/// one that never arrives.
pub const GATHER_CAP_MS: i32 = 8_000;

/// How long `disconnected` is allowed to last before it counts as gone. ICE
/// reports it on a blip — a phone changing cells, a laptop switching AP — and
/// recovers on its own most of the time.
pub const GRACE_MS: i32 = 5_000;

// ---------------------------------------------------------------------------
// Session descriptions that have been through a human.
// ---------------------------------------------------------------------------
/// The characters Unicode calls white space.
pub open spec fn white(c: char) -> bool {
    ||| '\u{9}' <= c <= '\u{d}'
    ||| c == ' '
    ||| c == '\u{85}'
    ||| c == '\u{a0}'
    ||| c == '\u{1680}'
    ||| '\u{2000}' <= c <= '\u{200a}'
    ||| c == '\u{2028}'
    ||| c == '\u{2029}'
    ||| c == '\u{202f}'
    ||| c == '\u{205f}'
    ||| c == '\u{3000}'
}

pub fn is_white(c: char) -> (b: bool)
    ensures
        b == white(c),
{
    ('\u{9}' <= c && c <= '\u{d}') || c == ' ' || c == '\u{85}' || c == '\u{a0}' || c == '\u{1680}'
        || ('\u{2000}' <= c && c <= '\u{200a}') || c == '\u{2028}' || c == '\u{2029}' || c
        == '\u{202f}' || c == '\u{205f}' || c == '\u{3000}'
}

/// Without the white space at its start.
pub open spec fn trimmed_start(s: Seq<char>) -> Seq<char>
    decreases s.len(),
{
    if s.len() > 0 && white(s[0]) {
        trimmed_start(s.skip(1))
    } else {
        s
    }
}

/// Without the white space at its end.
pub open spec fn trimmed_end(s: Seq<char>) -> Seq<char>
    decreases s.len(),
{
    if s.len() > 0 && white(s.last()) {
        trimmed_end(s.drop_last())
    } else {
        s
    }
}

/// Without the white space at either end.
pub open spec fn trimmed(s: Seq<char>) -> Seq<char> {
    trimmed_end(trimmed_start(s))
}

/// With every CRLF and every other CR made a LF.
pub open spec fn with_lf(s: Seq<char>) -> Seq<char>
    decreases s.len(),
{
    if s.len() == 0 {
        seq![]
    } else if s[0] == '\r' {
        if s.len() > 1 && s[1] == '\n' {
            seq!['\n'] + with_lf(s.skip(2))
        } else {
            seq!['\n'] + with_lf(s.skip(1))
        }
    } else {
        seq![s[0]] + with_lf(s.skip(1))
    }
}

/// Where the text without its surrounding white space starts and ends.
pub fn trim(chars: &[char]) -> (r: (usize, usize))
    ensures
        r.0 <= r.1 <= chars@.len(),
        chars@.subrange(r.0 as int, r.1 as int) == trimmed(chars@),
{
    let mut lo: usize = 0;
    let mut hi: usize = chars.len();
    assert(chars@.skip(0) =~= chars@);
    while lo < hi && is_white(chars[lo])
        invariant
            lo <= hi == chars@.len(),
            trimmed_start(chars@) == trimmed_start(chars@.skip(lo as int)),
        decreases hi - lo,
    {
        assert(chars@.skip(lo as int).skip(1) =~= chars@.skip(lo + 1));
        lo = lo + 1;
    }
    let ghost rest = chars@.skip(lo as int);
    assert(rest == trimmed_start(chars@));
    assert(chars@.subrange(lo as int, hi as int) =~= rest);
    while lo < hi && is_white(chars[hi - 1])
        invariant
            lo <= hi <= chars@.len(),
            trimmed_end(rest) == trimmed_end(chars@.subrange(lo as int, hi as int)),
        decreases hi - lo,
    {
        assert(chars@.subrange(lo as int, hi as int).drop_last() =~= chars@.subrange(
            lo as int,
            hi - 1,
        ));
        hi = hi - 1;
    }
    (lo, hi)
}

/// Repairs an SDP that has been through a human.
///
/// Copy/paste mangles line endings, and any trimming on the way in removes the
/// terminator from the final line — which makes a perfectly valid last line
/// parse as garbage. So: strip surrounding whitespace, normalise CRLF and lone
/// CR to LF, and put exactly one newline back on the end.
pub fn normalize_sdp(s: &str) -> (out: String)
    ensures
        out@ == with_lf(trimmed(s@)).push('\n'),
{
    let chars: Vec<char> = chars_of(s);
    let (lo, hi) = trim(chars.as_slice());
    let ghost t = trimmed(s@);
    let mut out: String = String::new();
    let mut i: usize = lo;
    assert(t.skip(0) =~= t);
    assert(out@ + with_lf(t) =~= with_lf(t));
    while i < hi
        invariant
            lo <= i <= hi <= chars@.len(),
            t == chars@.subrange(lo as int, hi as int),
            out@ + with_lf(t.skip(i - lo)) == with_lf(t),
        decreases hi - i,
    {
        let ghost was = out@;
        let ghost tail = t.skip(i - lo);
        let c: char = chars[i];
        assert(tail[0] == c);
        if c == '\r' {
            out.push('\n');
            if i + 1 < hi && chars[i + 1] == '\n' {
                assert(tail[1] == '\n');
                assert(tail.skip(2) =~= t.skip(i + 2 - lo));
                assert(was + with_lf(tail) =~= out@ + with_lf(t.skip(i + 2 - lo)));
                i = i + 2;
            } else {
                assert(tail.len() > 1 ==> tail[1] == chars@[i + 1]);
                assert(tail.skip(1) =~= t.skip(i + 1 - lo));
                assert(was + with_lf(tail) =~= out@ + with_lf(t.skip(i + 1 - lo)));
                i = i + 1;
            }
        } else {
            out.push(c);
            assert(tail.skip(1) =~= t.skip(i + 1 - lo));
            assert(was + with_lf(tail) =~= out@ + with_lf(t.skip(i + 1 - lo)));
            i = i + 1;
        }
    }
    assert(t.skip(i - lo).len() == 0);
    assert(out@ =~= with_lf(t));
    out.push('\n');
    out
}

/// `s` starts with `p`.
pub open spec fn starts(s: Seq<char>, p: Seq<char>) -> bool {
    s.len() >= p.len() && s.take(p.len() as int) == p
}

/// How often `p` occurs in `s`, reading on behind each occurrence.
pub open spec fn occurrences(s: Seq<char>, p: Seq<char>) -> nat
    recommends
        p.len() > 0,
    decreases s.len(),
{
    if s.len() < p.len() || p.len() == 0 {
        0
    } else if starts(s, p) {
        1 + occurrences(s.skip(p.len() as int), p)
    } else {
        occurrences(s.skip(1), p)
    }
}

/// Whether `p` stands at `at`.
pub fn stands_at(s: &[char], at: usize, p: &[char]) -> (b: bool)
    requires
        at <= s@.len(),
    ensures
        b == starts(s@.skip(at as int), p@),
{
    let n: usize = p.len();
    let end: usize = s.len();
    let ghost tail = s@.skip(at as int);
    if end - at < n {
        return false;
    }
    let mut k: usize = 0;
    while k < n
        invariant
            k <= n == p@.len(),
            at + n <= end == s@.len(),
            tail == s@.skip(at as int),
            forall|m: int| 0 <= m < k ==> #[trigger] tail[m] == p@[m],
        decreases n - k,
    {
        if s[at + k] != p[k] {
            assert(tail.take(n as int)[k as int] != p@[k as int]);
            return false;
        }
        assert(tail[k as int] == p@[k as int]);
        k = k + 1;
    }
    assert(tail.take(n as int) =~= p@);
    true
}

fn count_of(s: &[char], pat: &str) -> (n: usize)
    requires
        pat@.len() > 0,
    ensures
        n == occurrences(s@, pat@),
{
    let p: Vec<char> = chars_of(pat);
    let len: usize = s.len();
    let mut n: usize = 0;
    let mut i: usize = 0;
    assert(s@.skip(0) =~= s@);
    while i < len
        invariant
            i <= len == s@.len(),
            n <= i,
            p@ == pat@,
            p@.len() > 0,
            n + occurrences(s@.skip(i as int), pat@) == occurrences(s@, pat@),
        decreases len - i,
    {
        let ghost tail = s@.skip(i as int);
        if stands_at(s, i, p.as_slice()) {
            assert(tail.skip(p@.len() as int) =~= s@.skip(i + p@.len()));
            n = n + 1;
            i = i + p.len();
        } else {
            assert(tail.skip(1) =~= s@.skip(i + 1));
            proof {
                if tail.len() < p@.len() {
                    assert(occurrences(tail.skip(1), pat@) == 0);
                }
            }
            i = i + 1;
        }
    }
    n
}

/// What an SDP's candidates come to.
pub open spec fn summary(s: Seq<char>) -> Seq<char> {
    decimal(occurrences(s, "typ host"@)) + " host / "@ + decimal(occurrences(s, "typ srflx"@))
        + " srflx / "@ + decimal(occurrences(s, "typ relay"@)) + " relay"@
}

/// How many candidates of each kind an SDP carries.
///
/// `host` = your LAN address. `srflx` = your public address, learned from
/// STUN — zero of these means STUN never answered. `relay` = a TURN server.
pub fn candidate_summary(sdp: &str) -> (out: String)
    ensures
        out@ == summary(sdp@),
{
    proof {
        reveal_strlit("typ host");
        reveal_strlit("typ srflx");
        reveal_strlit("typ relay");
    }
    let chars: Vec<char> = chars_of(sdp);
    let mut out: String = String::new();
    push_decimal(&mut out, count_of(chars.as_slice(), "typ host") as u64);
    out.append(" host / ");
    push_decimal(&mut out, count_of(chars.as_slice(), "typ srflx") as u64);
    out.append(" srflx / ");
    push_decimal(&mut out, count_of(chars.as_slice(), "typ relay") as u64);
    out.append(" relay");
    assert(out@ =~= summary(sdp@));
    out
}

// ---------------------------------------------------------------------------
// Connection states.
// ---------------------------------------------------------------------------
/// The overall verdict on a connection.
#[derive(Clone, Copy, PartialEq, Eq, Debug, Structural)]
pub enum Connection {
    New,
    Connecting,
    Connected,
    Disconnected,
    Failed,
    Closed,
}

/// What to do about a change of state.
#[derive(Clone, Copy, PartialEq, Eq, Debug, Structural)]
pub enum Reaction {
    Nothing,
    /// Nothing is coming back from this.
    Drop,
    /// Say that the other player went quiet, and look again after
    /// [`GRACE_MS`].
    Wait,
}

impl Connection {
    pub open spec fn name(self) -> Seq<char> {
        match self {
            Connection::New => "New"@,
            Connection::Connecting => "Connecting"@,
            Connection::Connected => "Connected"@,
            Connection::Disconnected => "Disconnected"@,
            Connection::Failed => "Failed"@,
            Connection::Closed => "Closed"@,
        }
    }

    /// The line for the log when `tag` changes to this state.
    pub fn line(self, tag: &str) -> (s: String)
        ensures
            s@ == "["@ + tag@ + "] connection: "@ + self.name(),
    {
        let mut s: String = String::new();
        s.append("[");
        s.append(tag);
        s.append("] connection: ");
        s.append(
            match self {
                Connection::New => "New",
                Connection::Connecting => "Connecting",
                Connection::Connected => "Connected",
                Connection::Disconnected => "Disconnected",
                Connection::Failed => "Failed",
                Connection::Closed => "Closed",
            },
        );
        assert(s@ =~= "["@ + tag@ + "] connection: "@ + self.name());
        s
    }

    /// What to do when a connection gets into this state.
    pub fn reaction(self) -> (r: Reaction)
        ensures
            r == (match self {
                Connection::Failed => Reaction::Drop,
                Connection::Closed => Reaction::Drop,
                Connection::Disconnected => Reaction::Wait,
                _ => Reaction::Nothing,
            }),
    {
        match self {
            Connection::Failed => Reaction::Drop,
            Connection::Closed => Reaction::Drop,
            Connection::Disconnected => Reaction::Wait,
            _ => Reaction::Nothing,
        }
    }

    /// Whether a connection found in this state after the grace period is
    /// back; if it is not, it has dropped.
    pub fn is_back(self) -> (b: bool)
        ensures
            b == (self == Connection::Connected),
    {
        self == Connection::Connected
    }
}

/// How far the search for candidates has come.
#[derive(Clone, Copy, PartialEq, Eq, Debug, Structural)]
pub enum Gathering {
    New,
    Gathering,
    Complete,
}

impl Gathering {
    /// Whether a description may be read off now: the search is complete, or
    /// it has held up the link for as long as it may. Without any wait the
    /// description has no candidates at all and the peer can never reach us.
    pub fn is_enough(self, waited_ms: i32) -> (b: bool)
        ensures
            b == (self == Gathering::Complete || waited_ms >= GATHER_CAP_MS),
    {
        self == Gathering::Complete || waited_ms >= GATHER_CAP_MS
    }

    /// The line for the log when the wait is over in this state.
    pub fn line(self) -> (r: Option<&'static str>)
        ensures
            match r {
                Some(s) => self != Gathering::Complete && s@
                    == "gathering capped — sending the candidates found so far"@,
                None => self == Gathering::Complete,
            },
    {
        if self == Gathering::Complete {
            None
        } else {
            Some("gathering capped — sending the candidates found so far")
        }
    }
}

// ---------------------------------------------------------------------------
// What repairing an SDP does for it.
// ---------------------------------------------------------------------------
proof fn lemma_no_cr(s: Seq<char>)
    ensures
        forall|i: int| 0 <= i < with_lf(s).len() ==> #[trigger] with_lf(s)[i] != '\r',
    decreases s.len(),
{
    if s.len() > 0 {
        let (head, rest) = if s[0] == '\r' {
            if s.len() > 1 && s[1] == '\n' {
                ('\n', s.skip(2))
            } else {
                ('\n', s.skip(1))
            }
        } else {
            (s[0], s.skip(1))
        };
        lemma_no_cr(rest);
        assert(with_lf(s) == seq![head] + with_lf(rest));
        assert forall|i: int| 0 <= i < with_lf(s).len() implies #[trigger] with_lf(s)[i]
            != '\r' by {
            if i > 0 {
                assert(with_lf(s)[i] == with_lf(rest)[i - 1]);
            }
        }
    }
}

/// A repaired SDP ends in a newline and has no carriage return in it.
pub proof fn law_repaired_lines_end_in_lf(s: Seq<char>)
    ensures
        ({
            let r = with_lf(trimmed(s)).push('\n');
            &&& r.last() == '\n'
            &&& forall|i: int| 0 <= i < r.len() ==> #[trigger] r[i] != '\r'
        }),
{
    lemma_no_cr(trimmed(s));
}

proof fn lemma_trimmed_end(s: Seq<char>)
    ensures
        trimmed_end(s).len() <= s.len(),
        trimmed_end(s).len() > 0 ==> !white(trimmed_end(s).last()) && trimmed_end(s)[0] == s[0],
    decreases s.len(),
{
    if s.len() > 0 && white(s.last()) {
        lemma_trimmed_end(s.drop_last());
    }
}

proof fn lemma_trimmed_start(s: Seq<char>)
    ensures
        trimmed_start(s).len() > 0 ==> !white(trimmed_start(s)[0]),
    decreases s.len(),
{
    if s.len() > 0 && white(s[0]) {
        lemma_trimmed_start(s.skip(1));
    }
}

/// Without carriage returns there is nothing to make a LF of.
proof fn lemma_lf_already(s: Seq<char>)
    requires
        forall|i: int| 0 <= i < s.len() ==> #[trigger] s[i] != '\r',
    ensures
        with_lf(s) == s,
    decreases s.len(),
{
    if s.len() > 0 {
        let rest = s.skip(1);
        assert forall|i: int| 0 <= i < rest.len() implies #[trigger] rest[i] != '\r' by {
            assert(rest[i] == s[i + 1]);
        }
        lemma_lf_already(rest);
        assert(s[0] != '\r');
        assert(seq![s[0]] + rest =~= s);
    } else {
        assert(with_lf(s) =~= s);
    }
}

/// A last character that ends no line stays the last.
proof fn lemma_lf_keeps_last(s: Seq<char>)
    requires
        s.len() > 0,
        s.last() != '\r',
        s.last() != '\n',
    ensures
        with_lf(s).len() > 0,
        with_lf(s).last() == s.last(),
    decreases s.len(),
{
    let (head, rest) = if s[0] == '\r' {
        if s.len() > 1 && s[1] == '\n' {
            ('\n', s.skip(2))
        } else {
            ('\n', s.skip(1))
        }
    } else {
        (s[0], s.skip(1))
    };
    assert(with_lf(s) == seq![head] + with_lf(rest));
    if rest.len() > 0 {
        assert(rest.last() == s.last());
        lemma_lf_keeps_last(rest);
        assert(with_lf(s).last() == with_lf(rest).last());
    } else {
        assert(with_lf(rest) =~= seq![]);
        assert(s.len() == 1);
        assert(with_lf(s) =~= seq![head]);
    }
}

/// Repairing twice is repairing once, and what was not blank ends in exactly
/// one newline.
pub proof fn law_repairing_twice_is_repairing_once(s: Seq<char>)
    ensures
        ({
            let r = with_lf(trimmed(s)).push('\n');
            &&& with_lf(trimmed(r)).push('\n') == r
            &&& trimmed(s).len() > 0 ==> r.len() > 1 && r[r.len() - 2] != '\n'
        }),
{
    let t = trimmed(s);
    let l = with_lf(t);
    let r = l.push('\n');
    lemma_trimmed_start(s);
    lemma_trimmed_end(trimmed_start(s));
    lemma_no_cr(t);
    lemma_lf_already(l);
    if t.len() > 0 {
        assert(!white(t[0]) && !white(t.last()));
        lemma_lf_keeps_last(t);
        assert(l == seq![t[0]] + with_lf(t.skip(1)));
        assert(r[0] == l[0] && l[0] == t[0]);
        assert(trimmed_start(r) == r);
        assert(r.drop_last() =~= l);
        assert(trimmed_end(l) == l);
        assert(trimmed_end(r) == l);
    } else {
        assert(l =~= seq![]);
        assert(r =~= seq!['\n']);
        assert(r.skip(1) =~= seq![]);
        assert(trimmed_start(r.skip(1)) =~= seq![]);
        assert(trimmed_start(r) =~= seq![]);
        assert(trimmed_end(seq![]) =~= seq![]);
        assert(trimmed(r) =~= l);
    }
}

/// What counts as white space.
pub proof fn law_what_is_white_space(c: char)
    ensures
        white(c) <==> {
            let n = c as u32;
            9 <= n <= 13 || n == 32 || n == 133 || n == 160 || n == 5760 || 8192 <= n <= 8202 || n
                == 8232 || n == 8233 || n == 8239 || n == 8287 || n == 12288
        },
{
}

/// Trimming takes white space off both ends and nothing else: what is left is
/// one stretch of the text, with white space alone on either side of it and
/// none at its own ends.
pub proof fn law_trimming_takes_white_ends_off(s: Seq<char>) -> (r: (int, int))
    ensures
        0 <= r.0 <= r.1 <= s.len(),
        trimmed(s) == s.subrange(r.0, r.1),
        forall|i: int| 0 <= i < r.0 ==> white(#[trigger] s[i]),
        forall|i: int| r.1 <= i < s.len() ==> white(#[trigger] s[i]),
        r.0 < r.1 ==> !white(s[r.0]) && !white(s[r.1 - 1]),
{
    let lo = lemma_start_is_white(s);
    let t = trimmed_start(s);
    let n = lemma_end_is_white(t);
    let hi = lo + n;
    assert(trimmed(s) =~= s.subrange(lo, hi));
    assert forall|i: int| hi <= i < s.len() implies white(#[trigger] s[i]) by {
        assert(t[i - lo] == s[i]);
    }
    if lo < hi {
        assert(t[0] == s[lo]);
        assert(t[n - 1] == s[hi - 1]);
    }
    (lo, hi)
}

proof fn lemma_start_is_white(s: Seq<char>) -> (n: int)
    ensures
        0 <= n <= s.len(),
        trimmed_start(s) == s.skip(n),
        forall|i: int| 0 <= i < n ==> white(#[trigger] s[i]),
        n < s.len() ==> !white(s[n]),
    decreases s.len(),
{
    if s.len() > 0 && white(s[0]) {
        let n = lemma_start_is_white(s.skip(1)) + 1;
        assert(s.skip(1).skip(n - 1) =~= s.skip(n));
        assert forall|i: int| 0 <= i < n implies white(#[trigger] s[i]) by {
            if i > 0 {
                assert(s.skip(1)[i - 1] == s[i]);
            }
        }
        n
    } else {
        assert(s.skip(0) =~= s);
        0
    }
}

proof fn lemma_end_is_white(s: Seq<char>) -> (n: int)
    ensures
        0 <= n <= s.len(),
        trimmed_end(s) == s.take(n),
        forall|i: int| n <= i < s.len() ==> white(#[trigger] s[i]),
        n > 0 ==> !white(s[n - 1]),
    decreases s.len(),
{
    if s.len() > 0 && white(s.last()) {
        let less = s.drop_last();
        let n = lemma_end_is_white(less);
        assert(less.take(n) =~= s.take(n));
        assert forall|i: int| n <= i < s.len() implies white(#[trigger] s[i]) by {
            if i < less.len() {
                assert(less[i] == s[i]);
            }
        }
        n
    } else {
        assert(s.take(s.len() as int) =~= s);
        s.len() as int
    }
}

/// A text without carriage returns keeps its lines as they are; where there is
/// one, it and a line feed that follows it at once become one line feed.
pub proof fn law_line_ends_become_line_feeds(a: Seq<char>, b: Seq<char>)
    requires
        forall|i: int| 0 <= i < a.len() ==> #[trigger] a[i] != '\r',
    ensures
        with_lf(a) == a,
        with_lf(a + seq!['\r', '\n'] + b) == a + seq!['\n'] + with_lf(b),
        (b.len() == 0 || b[0] != '\n') ==> with_lf(a + seq!['\r'] + b) == a + seq!['\n']
            + with_lf(b),
    decreases a.len(),
{
    let crlf = a + seq!['\r', '\n'] + b;
    let cr = a + seq!['\r'] + b;
    lemma_lf_already(a);
    if a.len() == 0 {
        assert(crlf.skip(2) =~= b);
        assert(with_lf(crlf) =~= a + seq!['\n'] + with_lf(b));
        assert(cr.skip(1) =~= b);
        if b.len() == 0 || b[0] != '\n' {
            assert(cr.len() > 1 ==> cr[1] == b[0]);
            assert(with_lf(cr) =~= a + seq!['\n'] + with_lf(b));
        }
    } else {
        let rest = a.skip(1);
        assert forall|i: int| 0 <= i < rest.len() implies #[trigger] rest[i] != '\r' by {
            assert(rest[i] == a[i + 1]);
        }
        law_line_ends_become_line_feeds(rest, b);
        assert(a[0] != '\r');
        assert(crlf.skip(1) =~= rest + seq!['\r', '\n'] + b);
        assert(cr.skip(1) =~= rest + seq!['\r'] + b);
        assert(with_lf(crlf) =~= a + seq!['\n'] + with_lf(b));
        if b.len() == 0 || b[0] != '\n' {
            assert(with_lf(cr) =~= a + seq!['\n'] + with_lf(b));
        }
    }
}

/// The pattern stands at `i`.
pub open spec fn stands(s: Seq<char>, p: Seq<char>, i: int) -> bool {
    0 <= i && i + p.len() <= s.len() && s.subrange(i, i + p.len()) == p
}

/// A pattern that stands nowhere occurs no times. Where it first stands it
/// counts once, and the count goes on behind it.
pub proof fn law_occurrences_are_counted(s: Seq<char>, p: Seq<char>, at: int)
    requires
        p.len() > 0,
        0 <= at <= s.len(),
        forall|i: int| 0 <= i < at ==> !(#[trigger] stands(s, p, i)),
    ensures
        at == s.len() ==> occurrences(s, p) == 0,
        stands(s, p, at) ==> occurrences(s, p) == 1 + occurrences(s.skip(at + p.len()), p),
    decreases at,
{
    if at == 0 {
        if stands(s, p, 0) {
            assert(s.take(p.len() as int) =~= s.subrange(0, p.len() as int));
        }
    } else {
        let rest = s.skip(1);
        assert(!stands(s, p, 0));
        if starts(s, p) {
            assert(s.take(p.len() as int) =~= s.subrange(0, p.len() as int));
        }
        assert forall|i: int| 0 <= i < at - 1 implies !(#[trigger] stands(rest, p, i)) by {
            assert(!stands(s, p, i + 1));
            if i + p.len() <= rest.len() {
                assert(rest.subrange(i, i + p.len()) =~= s.subrange(i + 1, i + 1 + p.len()));
            }
        }
        law_occurrences_are_counted(rest, p, at - 1);
        if stands(s, p, at) {
            assert(rest.subrange(at - 1, at - 1 + p.len()) =~= s.subrange(at, at + p.len()));
            assert(rest.skip(at - 1 + p.len()) =~= s.skip(at + p.len()));
        }
    }
}

/// A summary tells how many candidates there are of each kind, local ones
/// first, then public ones, then relayed ones.
pub proof fn law_what_a_summary_tells(s: Seq<char>, host: nat, srflx: nat, relay: nat)
    requires
        host == occurrences(s, "typ host"@),
        srflx == occurrences(s, "typ srflx"@),
        relay == occurrences(s, "typ relay"@),
    ensures
        summary(s) == decimal(host) + " host / "@ + decimal(srflx) + " srflx / "@ + decimal(relay)
            + " relay"@,
{
}

} // verus!
