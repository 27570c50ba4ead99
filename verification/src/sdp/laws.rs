//! What is packed can be unpacked, and what is rebuilt says what it was
//! rebuilt from.
use vstd::prelude::*;
use vstd::string::*;

use crate::bytes::{law_le_reads_back, law_le_writes_back, le, lemma_rooms};
use crate::ip::{
    is_v6, law_v4_reads_back, law_v6_reads_back, lemma_v4_text, octet, text_pieces, v4_bytes,
    v6_segments, v6_text,
};
use crate::net::{starts, white};
use crate::number::{
    all_digits, digit_value, is_digit, law_decimals_read_back, law_hex_pairs_read_back, number,
    parsed,
};
use crate::sdp::{
    addr_len, addr_of, addr_text, all_bytes, as_text, ascii, attribute, cand_at, cand_bytes,
    cand_in, cand_line, cand_lines, cand_ok, cand_words, candidates, cands_bytes, cands_in,
    compacted, crlf, ends, expanded, facts_in, facts_ok, fp_bytes, fp_text, head_lines, ice,
    ice_char, ice_in, is_pair, is_srflx, lemma_pair_is_a_byte, octets_of, packed, pair_at, pair_of,
    priority, rows, sdp_lines, segments_of, setup_name, setup_of, tail_lines, unpacked, unreturned,
    upper, upper_pair, uuid_bytes, uuid_hex, uuid_name, Cand, Facts,
};
use crate::split::{
    is_word, join, law_joined_pieces_split_again, law_joined_words_come_apart,
    law_split_pieces_join_again, lemma_split_behind, lemma_split_piece, lemma_split_some, split, words,
};
use crate::text::{decimal, digit, hex};

verus! {

// ---------------------------------------------------------------------------
// The compact form.
// ---------------------------------------------------------------------------
/// As many candidates as were asked for, each well formed.
pub proof fn lemma_cands_in(b: Seq<u8>, k: nat)
    ensures
        cands_in(b, k) is Some ==> {
            let v = cands_in(b, k)->Some_0;
            v.len() == k && forall|i: int| 0 <= i < v.len() ==> cand_ok(#[trigger] v[i])
        },
    decreases k,
{
    if k > 0 && cands_in(b, k) is Some {
        let (c, n) = cand_at(b)->Some_0;
        lemma_cands_in(b.skip(n as int), (k - 1) as nat);
        let rest = cands_in(b.skip(n as int), (k - 1) as nat)->Some_0;
        let v = seq![c] + rest;
        assert(cand_ok(c));
        assert forall|i: int| 0 <= i < v.len() implies cand_ok(#[trigger] v[i]) by {
            if i > 0 {
                assert(v[i] == rest[i - 1]);
            }
        }
    }
}

proof fn lemma_cands_front(v: Seq<Cand>)
    requires
        v.len() > 0,
    ensures
        cands_bytes(v) == cand_bytes(v[0]) + cands_bytes(v.skip(1)),
    decreases v.len(),
{
    let rest = v.skip(1);
    if v.len() == 1 {
        assert(v.drop_last() =~= seq![]);
        assert(rest =~= seq![]);
        assert(cands_bytes(v) =~= cand_bytes(v[0]) + cands_bytes(rest));
    } else {
        lemma_cands_front(v.drop_last());
        assert(v.drop_last().skip(1) =~= rest.drop_last());
        assert(v.drop_last()[0] == v[0]);
        assert(rest.last() == v.last());
        assert(cands_bytes(v) =~= cand_bytes(v[0]) + cands_bytes(rest));
    }
}

proof fn lemma_cand_at(c: Cand, rest: Seq<u8>)
    requires
        cand_ok(c),
    ensures
        cand_at(cand_bytes(c) + rest) == Some((c, cand_bytes(c).len())),
        cand_bytes(c).len() == 3 + addr_len(c.tag),
{
    lemma_rooms();
    law_le_reads_back(c.port as nat, 2);
    let b = cand_bytes(c) + rest;
    let n = addr_len(c.tag) as int;
    assert(b.subrange(1, 1 + n) =~= c.addr);
    assert(b.subrange(1 + n, 3 + n) =~= le(c.port as nat, 2));
}

proof fn lemma_cands_read_back(v: Seq<Cand>)
    requires
        forall|i: int| 0 <= i < v.len() ==> cand_ok(#[trigger] v[i]),
    ensures
        cands_in(cands_bytes(v), v.len()) == Some(v),
    decreases v.len(),
{
    if v.len() == 0 {
        assert(v =~= seq![]);
    } else {
        let rest = v.skip(1);
        assert forall|i: int| 0 <= i < rest.len() implies cand_ok(#[trigger] rest[i]) by {
            assert(rest[i] == v[i + 1]);
        }
        lemma_cands_front(v);
        lemma_cand_at(v[0], cands_bytes(rest));
        let b = cands_bytes(v);
        assert(b.skip(cand_bytes(v[0]).len() as int) =~= cands_bytes(rest));
        lemma_cands_read_back(rest);
        assert(seq![v[0]] + rest =~= v);
    }
}

proof fn lemma_cands_write_back(b: Seq<u8>, k: nat)
    requires
        cands_in(b, k) is Some,
    ensures
        cands_bytes(cands_in(b, k)->Some_0) == b,
    decreases k,
{
    if k == 0 {
        assert(cands_bytes(seq![]) =~= b);
    } else {
        let (c, n) = cand_at(b)->Some_0;
        let tail = b.skip(n as int);
        lemma_cands_write_back(tail, (k - 1) as nat);
        let rest = cands_in(tail, (k - 1) as nat)->Some_0;
        let v = seq![c] + rest;
        lemma_cands_front(v);
        assert(v.skip(1) =~= rest);
        lemma_rooms();
        let m = addr_len(b[0]) as int;
        law_le_writes_back(b.subrange(1 + m, 3 + m));
        crate::bytes::lemma_le_value_bound(b.subrange(1 + m, 3 + m));
        assert(cand_bytes(c) =~= b.take(n as int));
        assert(cands_bytes(v) =~= b);
    }
}

proof fn lemma_ascii_back(s: Seq<char>)
    requires
        ice(s),
    ensures
        as_text(ascii(s)) == s,
{
    assert forall|i: int| 0 <= i < s.len() implies as_text(ascii(s))[i] == s[i] by {
        assert(ice_char(s[i]));
    }
    assert(as_text(ascii(s)) =~= s);
}

proof fn lemma_text_back(b: Seq<u8>)
    ensures
        ascii(as_text(b)) == b,
{
    assert(ascii(as_text(b)) =~= b);
}

/// What was packed unpacks to the same facts.
pub proof fn law_packed_facts_unpack(f: Facts)
    requires
        facts_ok(f),
    ensures
        unpacked(packed(f)) == Some(f),
{
    let b = packed(f);
    let n = f.ufrag.len() as int;
    let m = f.pwd.len() as int;
    let p = 4 + n;
    let q = p + m;
    assert(b[2] == n);
    assert(b[p - 1] == m);
    assert(b.subrange(3, p - 1) =~= ascii(f.ufrag));
    assert(b.subrange(p, q) =~= ascii(f.pwd));
    assert(b.subrange(q, q + 32) =~= f.fp);
    assert(b[q + 32] == f.cands.len());
    assert(b.skip(q + 33) =~= cands_bytes(f.cands));
    lemma_ascii_back(f.ufrag);
    lemma_ascii_back(f.pwd);
    lemma_cands_read_back(f.cands);
}

/// There is one way to pack facts: bytes that unpack to them are their packed
/// form, and the facts are well formed.
pub proof fn law_unpacked_facts_pack(b: Seq<u8>)
    requires
        unpacked(b) is Some,
    ensures
        facts_ok(unpacked(b)->Some_0),
        packed(unpacked(b)->Some_0) == b,
{
    let f = unpacked(b)->Some_0;
    let p = 4 + b[2];
    let q = p + b[p - 1];
    lemma_cands_in(b.skip(q + 33), b[q + 32] as nat);
    lemma_cands_write_back(b.skip(q + 33), b[q + 32] as nat);
    lemma_text_back(b.subrange(3, p - 1));
    lemma_text_back(b.subrange(p, q));
    assert(packed(f) =~= b);
}

proof fn lemma_cands_len(v: Seq<Cand>)
    requires
        forall|i: int| 0 <= i < v.len() ==> cand_ok(#[trigger] v[i]),
    ensures
        cands_bytes(v).len() <= 19 * v.len(),
    decreases v.len(),
{
    if v.len() > 0 {
        let less = v.drop_last();
        assert forall|i: int| 0 <= i < less.len() implies cand_ok(#[trigger] less[i]) by {
            assert(less[i] == v[i]);
        }
        lemma_cands_len(less);
        lemma_cand_at(v[v.len() - 1], seq![]);
    }
}

/// A compact form is never longer than 5392 bytes.
pub proof fn law_compact_forms_are_short(f: Facts)
    requires
        facts_ok(f),
    ensures
        0 < packed(f).len() <= 5392,
{
    lemma_cands_len(f.cands);
}

/// What an SDP gives is well formed.
pub proof fn law_facts_are_well_formed(sdp: Seq<char>)
    requires
        facts_in(sdp) is Some,
    ensures
        facts_ok(facts_in(sdp)->Some_0),
{
    lemma_candidates_ok(rows(sdp));
}

proof fn lemma_cands_need_all(b: Seq<u8>, k: nat, cut: int)
    requires
        cands_in(b, k) is Some,
        0 <= cut < b.len(),
    ensures
        cands_in(b.take(cut), k) is None,
    decreases k,
{
    if k > 0 {
        let part = b.take(cut);
        match cand_at(part) {
            None => {},
            Some((c, n)) => {
                assert(part[0] == b[0]);
                let m = addr_len(b[0]) as int;
                assert(part.skip(n as int) =~= b.skip(n as int).take(cut - n));
                lemma_cands_need_all(b.skip(n as int), (k - 1) as nat, cut - n);
            },
        }
    }
}

/// No part of a compact form from the front is one.
pub proof fn law_a_truncated_form_is_refused(b: Seq<u8>, cut: int)
    requires
        unpacked(b) is Some,
        0 <= cut < b.len(),
    ensures
        unpacked(b.take(cut)) is None,
        expanded(b.take(cut)) is None,
{
    let t = b.take(cut);
    if unpacked(t) is Some {
        let p = 4 + b[2];
        let q = p + b[p - 1];
        assert(t[2] == b[2] && t[p - 1] == b[p - 1] && t[q + 32] == b[q + 32]);
        assert(t.skip(q + 33) =~= b.skip(q + 33).take(cut - (q + 33)));
        lemma_cands_need_all(b.skip(q + 33), b[q + 32] as nat, cut - (q + 33));
    }
}

/// A compact form with more behind it is none.
pub proof fn law_a_trailing_byte_is_refused(b: Seq<u8>, more: Seq<u8>)
    requires
        unpacked(b) is Some,
        more.len() > 0,
    ensures
        unpacked(b + more) is None,
        expanded(b + more) is None,
{
    let t = b + more;
    if unpacked(t) is Some {
        law_a_truncated_form_is_refused(t, b.len() as int);
        assert(t.take(b.len() as int) =~= b);
    }
}

// ---------------------------------------------------------------------------
// Addresses.
// ---------------------------------------------------------------------------
/// How long the first `n` bytes of a UUID are, dashes and all.
spec fn uuid_len(n: int) -> int {
    if n == 4 || n == 6 || n == 8 || n == 10 {
        pair_at(n) - 1
    } else {
        pair_at(n)
    }
}

proof fn lemma_uuid_hex(b: Seq<u8>, n: nat)
    requires
        n <= 16,
        n <= b.len(),
    ensures
        uuid_hex(b, n).len() == uuid_len(n as int),
        forall|i: int| 0 <= i < n ==> (#[trigger] pair_of(uuid_hex(b, n), i)) == hex(b[i] as nat, 2),
        n > 4 ==> uuid_hex(b, n)[8] == '-',
        n > 6 ==> uuid_hex(b, n)[13] == '-',
        n > 8 ==> uuid_hex(b, n)[18] == '-',
        n > 10 ==> uuid_hex(b, n)[23] == '-',
        forall|i: int|
            0 <= i < uuid_hex(b, n).len() ==> #[trigger] uuid_hex(b, n)[i] == '-' || is_digit(
                uuid_hex(b, n)[i],
                16,
            ),
    decreases n,
{
    if n > 0 {
        let i = n - 1;
        let before = uuid_hex(b, i as nat);
        lemma_uuid_hex(b, i as nat);
        let dashed = if i == 4 || i == 6 || i == 8 || i == 10 {
            before.push('-')
        } else {
            before
        };
        let pair = hex(b[i] as nat, 2);
        law_hex_pairs_read_back(b[i] as nat);
        let now = uuid_hex(b, n);
        assert(now == dashed + pair);
        assert(dashed.len() == pair_at(i));
        assert forall|k: int| 0 <= k < n implies (#[trigger] pair_of(now, k)) == hex(
            b[k] as nat,
            2,
        ) by {
            if k < i {
                assert(pair_of(now, k) =~= pair_of(before, k));
            } else {
                assert(pair_of(now, k) =~= pair);
            }
        }
        assert forall|k: int| 0 <= k < now.len() implies #[trigger] now[k] == '-' || is_digit(
            now[k],
            16,
        ) by {
            if k < before.len() {
                assert(now[k] == before[k]);
            } else if k >= dashed.len() {
                assert(now[k] == pair[k - dashed.len()]);
            }
        }
    }
}

/// An mDNS name reads back.
pub proof fn law_uuid_names_read_back(b: Seq<u8>)
    requires
        b.len() == 16,
    ensures
        uuid_bytes(uuid_name(b)) == Some(b),
{
    reveal_strlit(".local");
    let name = uuid_name(b);
    let stem = uuid_hex(b, 16);
    lemma_uuid_hex(b, 16);
    assert(name.skip(36) =~= ".local"@);
    assert forall|i: int| 0 <= i < 16 implies is_pair(#[trigger] pair_of(name, i)) && number(
        pair_of(name, i),
        16,
    ) == b[i] by {
        assert(pair_of(name, i) =~= pair_of(stem, i));
        law_hex_pairs_read_back(b[i] as nat);
    }
    assert(uuid_bytes(name)->Some_0 =~= b);
}

/// Two digits in lower case are written as they were read.
proof fn lemma_pair_written_back(s: Seq<char>)
    requires
        is_pair(s),
        forall|k: int| 0 <= k < s.len() ==> !('A' <= #[trigger] s[k] <= 'F'),
    ensures
        hex(number(s, 16) as nat, 2) == s,
{
    lemma_pair_is_a_byte(s);
    reveal_with_fuel(number, 3);
    reveal_with_fuel(hex, 3);
    assert(is_digit(s[0], 16) && is_digit(s[1], 16));
    let a = digit_value(s[0])->Some_0;
    let b = digit_value(s[1])->Some_0;
    assert(s.drop_last() =~= seq![s[0]]);
    assert(number(s.drop_last(), 16) == a);
    assert(number(s, 16) == a * 16 + b);
    assert(digit(a) == s[0] && digit(b) == s[1]);
    assert(hex(number(s, 16) as nat, 2) =~= s);
}

/// A name that is accepted is rebuilt as it was, letter for letter where it is
/// in lower case: no other name ships in its place.
pub proof fn law_a_name_is_rebuilt_as_it_was(name: Seq<char>)
    requires
        uuid_bytes(name) is Some,
        forall|k: int| 0 <= k < name.len() ==> !('A' <= #[trigger] name[k] <= 'F'),
    ensures
        uuid_name(uuid_bytes(name)->Some_0) == name,
{
    reveal_strlit(".local");
    let b = uuid_bytes(name)->Some_0;
    let stem = uuid_hex(b, 16);
    let built = uuid_name(b);
    lemma_uuid_hex(b, 16);
    assert forall|i: int| 0 <= i < 16 implies #[trigger] pair_of(stem, i) == pair_of(name, i) by {
        let p = pair_of(name, i);
        assert(is_pair(p));
        assert forall|k: int| 0 <= k < p.len() implies !('A' <= #[trigger] p[k] <= 'F') by {
            assert(p[k] == name[pair_at(i) + k]);
        }
        lemma_pair_is_a_byte(p);
        lemma_pair_written_back(p);
        assert(b[i] == number(p, 16));
    }
    assert forall|k: int| 0 <= k < 36 implies #[trigger] stem[k] == name[k] by {
        if k != 8 && k != 13 && k != 18 && k != 23 {
            let i = if k < 8 {
                k / 2
            } else if k < 13 {
                (k - 1) / 2
            } else if k < 18 {
                (k - 2) / 2
            } else if k < 23 {
                (k - 3) / 2
            } else {
                (k - 4) / 2
            };
            assert(pair_at(i) <= k < pair_at(i) + 2);
            assert(pair_of(stem, i)[k - pair_at(i)] == stem[k]);
            assert(pair_of(name, i)[k - pair_at(i)] == name[k]);
        }
    }
    assert forall|k: int| 36 <= k < 42 implies #[trigger] built[k] == name[k] by {
        assert(name.skip(36)[k - 36] == name[k]);
    }
    assert(built =~= name);
}

/// Every character of joined pieces is one of theirs, or the separator.
proof fn lemma_join_chars(p: Seq<Seq<char>>, sep: char, ok: spec_fn(char) -> bool)
    requires
        ok(sep),
        forall|i: int, k: int|
            0 <= i < p.len() && 0 <= k < p[i].len() ==> ok(#[trigger] p[i][k]),
    ensures
        forall|k: int| 0 <= k < join(p, sep).len() ==> ok(#[trigger] join(p, sep)[k]),
        p.len() > 1 ==> join(p, sep).contains(sep),
    decreases p.len(),
{
    if p.len() > 1 {
        let less = p.drop_last();
        assert forall|i: int, k: int| 0 <= i < less.len() && 0 <= k < less[i].len() implies ok(
            #[trigger] less[i][k],
        ) by {
            assert(less[i] == p[i]);
            assert(ok(p[i][k]));
        }
        lemma_join_chars(less, sep, ok);
        let a = join(less, sep);
        let last = p[p.len() - 1];
        let t = join(p, sep);
        assert(t == a.push(sep) + last);
        assert(t[a.len() as int] == sep);
        assert forall|k: int| 0 <= k < t.len() implies ok(#[trigger] t[k]) by {
            if k < a.len() {
                assert(t[k] == a[k]);
            } else if k > a.len() {
                assert(t[k] == last[k - a.len() - 1]);
                assert(ok(p[p.len() - 1][k - a.len() - 1]));
            }
        }
    }
}

/// A dotted address holds no colon.
proof fn lemma_v4_has_no_colon(t: Seq<char>)
    requires
        v4_bytes(t) is Some,
    ensures
        !t.contains(':'),
{
    let p = split(t, '.');
    law_split_pieces_join_again(t, '.');
    let ok = |c: char| c != ':';
    assert forall|i: int, k: int| 0 <= i < p.len() && 0 <= k < p[i].len() implies ok(
        #[trigger] p[i][k],
    ) by {
        assert(octet(p[i]) is Some) by {
            if i == 0 {
            } else if i == 1 {
            } else if i == 2 {
            } else {
            }
        }
        assert(is_digit(p[i][k], 10));
    }
    lemma_join_chars(p, '.', ok);
    if t.contains(':') {
        let k = choose|k: int| 0 <= k < t.len() && t[k] == ':';
        assert(ok(join(p, '.')[k]));
    }
}

/// The characters addresses are made of.
spec fn addr_char(c: char) -> bool {
    c == ':' || c == '.' || is_digit(c, 16)
}

proof fn lemma_v6_text(g: Seq<int>)
    requires
        is_v6(g),
    ensures
        v6_text(g).contains(':'),
        forall|k: int| 0 <= k < v6_text(g).len() ==> addr_char(#[trigger] v6_text(g)[k]),
{
    let p = text_pieces(g);
    let ok = |c: char| addr_char(c);
    crate::ip::lemma_text_pieces(g);
    assert forall|i: int, k: int| 0 <= i < p.len() && 0 <= k < p[i].len() implies ok(
        #[trigger] p[i][k],
    ) by {
        assert(p[i][k] == '.' || is_digit(p[i][k], 16));
    }
    lemma_join_chars(p, ':', ok);
    assert forall|k: int| 0 <= k < v6_text(g).len() implies addr_char(
        #[trigger] v6_text(g)[k],
    ) by {
        assert(ok(join(p, ':')[k]));
    }
}

/// A text that does not end in an `l` is no mDNS name.
proof fn lemma_not_a_name(t: Seq<char>)
    requires
        forall|k: int| 0 <= k < t.len() ==> addr_char(#[trigger] t[k]),
    ensures
        uuid_bytes(t) is None,
{
    reveal_strlit(".local");
    if ends(t, ".local"@) {
        assert(t.skip(t.len() - 6)[5] == ".local"@[5]);
        assert(addr_char(t[t.len() - 1]));
    }
}

proof fn lemma_segments_back(b: Seq<u8>)
    requires
        b.len() == 16,
    ensures
        is_v6(segments_of(b)),
        octets_of(segments_of(b)) == b,
{
    let g = segments_of(b);
    assert forall|i: int| 0 <= i < 8 implies 0 <= #[trigger] g[i] <= 0xffff by {}
    assert forall|i: int| 0 <= i < 16 implies #[trigger] octets_of(g)[i] == b[i] by {
        let k = i / 2;
        assert(g[k] == b[2 * k] * 256 + b[2 * k + 1]);
        if i % 2 == 0 {
            assert(i == 2 * k);
        } else {
            assert(i == 2 * k + 1);
        }
    }
    assert(octets_of(g) =~= b);
}

/// An address reads back from its text, as what it was.
pub proof fn law_addresses_read_back(c: Cand)
    requires
        cand_ok(c),
    ensures
        addr_of(addr_text(c), is_srflx(c.tag)) == Some((c.tag, c.addr)),
        is_word(addr_text(c)),
{
    let t = addr_text(c);
    if c.tag == 0 {
        law_uuid_names_read_back(c.addr);
        lemma_uuid_hex(c.addr, 16);
        reveal_strlit(".local");
        let h = uuid_hex(c.addr, 16);
        assert forall|i: int| 0 <= i < t.len() implies !white(#[trigger] t[i]) by {
            if i < h.len() {
                assert(t[i] == h[i]);
            } else {
                assert(t[i] == ".local"@[i - h.len()]);
                let k = i - h.len();
                assert(k == 0 || k == 1 || k == 2 || k == 3 || k == 4 || k == 5);
            }
        }
    } else if c.tag == 1 || c.tag == 3 {
        law_v4_reads_back(c.addr);
        lemma_v4_text(c.addr);
        assert forall|k: int| 0 <= k < t.len() implies addr_char(#[trigger] t[k]) by {
            assert(t[k] == '.' || is_digit(t[k], 10));
        }
        lemma_not_a_name(t);
        assert forall|i: int| 0 <= i < t.len() implies !white(#[trigger] t[i]) by {
            assert(addr_char(t[i]));
        }
    } else {
        let g = segments_of(c.addr);
        lemma_segments_back(c.addr);
        law_v6_reads_back(g);
        lemma_v6_text(g);
        lemma_not_a_name(t);
        if v4_bytes(t) is Some {
            lemma_v4_has_no_colon(t);
        }
        assert forall|i: int| 0 <= i < t.len() implies !white(#[trigger] t[i]) by {
            assert(addr_char(t[i]));
        }
    }
}

// ---------------------------------------------------------------------------
// Lines.
// ---------------------------------------------------------------------------
proof fn lemma_decimal_word(n: nat)
    ensures
        is_word(decimal(n)),
{
    law_decimals_read_back(n);
    assert forall|i: int| 0 <= i < decimal(n).len() implies !white(#[trigger] decimal(n)[i]) by {
        assert(is_digit(decimal(n)[i], 10));
    }
}

/// The words of the template are words.
proof fn lemma_fixed_words()
    ensures
        is_word("1"@),
        is_word("udp"@),
        is_udp_word(),
        is_word("typ"@),
        is_word("srflx"@),
        is_word("raddr"@),
        is_word("0.0.0.0"@),
        is_word("rport"@),
        is_word("0"@),
        is_word("host"@),
        "host"@ != "srflx"@,
{
    reveal_strlit("1");
    reveal_strlit("udp");
    reveal_strlit("typ");
    reveal_strlit("srflx");
    reveal_strlit("raddr");
    reveal_strlit("0.0.0.0");
    reveal_strlit("rport");
    reveal_strlit("0");
    reveal_strlit("host");
    assert("host"@.len() != "srflx"@.len());
    let z = "0.0.0.0"@;
    assert forall|i: int| 0 <= i < z.len() implies !white(#[trigger] z[i]) by {
        assert(i == 0 || i == 1 || i == 2 || i == 3 || i == 4 || i == 5 || i == 6);
    }
    let r = "raddr"@;
    assert forall|i: int| 0 <= i < r.len() implies !white(#[trigger] r[i]) by {
        assert(i == 0 || i == 1 || i == 2 || i == 3 || i == 4);
    }
    let p = "rport"@;
    assert forall|i: int| 0 <= i < p.len() implies !white(#[trigger] p[i]) by {
        assert(i == 0 || i == 1 || i == 2 || i == 3 || i == 4);
    }
    let s = "srflx"@;
    assert forall|i: int| 0 <= i < s.len() implies !white(#[trigger] s[i]) by {
        assert(i == 0 || i == 1 || i == 2 || i == 3 || i == 4);
    }
    let h = "host"@;
    assert forall|i: int| 0 <= i < h.len() implies !white(#[trigger] h[i]) by {
        assert(i == 0 || i == 1 || i == 2 || i == 3);
    }
    let t = "typ"@;
    assert forall|i: int| 0 <= i < t.len() implies !white(#[trigger] t[i]) by {
        assert(i == 0 || i == 1 || i == 2);
    }
    let u = "udp"@;
    assert forall|i: int| 0 <= i < u.len() implies !white(#[trigger] u[i]) by {
        assert(i == 0 || i == 1 || i == 2);
    }
}

spec fn is_udp_word() -> bool {
    crate::sdp::is_udp("udp"@)
}

proof fn lemma_cand_words(c: Cand, i: int)
    requires
        cand_ok(c),
        0 <= i < 255,
    ensures
        forall|k: int|
            0 <= k < cand_words(c, i).len() ==> is_word(#[trigger] cand_words(c, i)[k]),
{
    let w = cand_words(c, i);
    lemma_fixed_words();
    law_addresses_read_back(c);
    lemma_decimal_word((i + 1) as nat);
    lemma_decimal_word(priority(c.tag, i) as nat);
    lemma_decimal_word(c.port as nat);
    assert forall|k: int| 0 <= k < w.len() implies is_word(#[trigger] w[k]) by {
        if k >= 7 {
            if is_srflx(c.tag) {
                assert(k == 7 || k == 8 || k == 9 || k == 10 || k == 11);
            } else {
                assert(k == 7);
            }
        } else {
            assert(k == 0 || k == 1 || k == 2 || k == 3 || k == 4 || k == 5 || k == 6);
        }
    }
}

/// A candidate reads back from its line.
pub proof fn law_candidate_lines_read_back(c: Cand, i: int)
    requires
        cand_ok(c),
        0 <= i < 255,
    ensures
        cand_in(cand_line(c, i)) == Some(c),
{
    let line = cand_line(c, i);
    let w = cand_words(c, i);
    reveal_strlit("a=candidate:");
    lemma_cand_words(c, i);
    law_joined_words_come_apart(w);
    assert(line.take(12) =~= "a=candidate:"@);
    assert(line.skip(12) =~= join(w, ' '));
    lemma_fixed_words();
    law_addresses_read_back(c);
    law_decimals_read_back(c.port as nat);
    assert(w[7] == (if is_srflx(c.tag) {
        "srflx"@
    } else {
        "host"@
    }));
    assert(w[4] == addr_text(c));
    assert(w[5] == decimal(c.port as nat));
    assert(parsed(w[5], 10, 65535) == Some(c.port as int));
}

/// No line ending in it.
pub open spec fn one_line(s: Seq<char>) -> bool {
    forall|i: int| 0 <= i < s.len() ==> #[trigger] s[i] != '\n' && s[i] != '\r'
}

/// No line ending among the first `n` characters.
spec fn one_line_to(s: Seq<char>, n: nat) -> bool
    decreases n,
{
    n == 0 || (s[n - 1] != '\n' && s[n - 1] != '\r' && one_line_to(s, (n - 1) as nat))
}

proof fn lemma_one_line(s: Seq<char>, n: nat)
    requires
        one_line_to(s, n),
        n <= s.len(),
    ensures
        forall|i: int| 0 <= i < n ==> #[trigger] s[i] != '\n' && s[i] != '\r',
    decreases n,
{
    if n > 0 {
        lemma_one_line(s, (n - 1) as nat);
    }
}

proof fn lemma_words_are_one_line(w: Seq<Seq<char>>)
    requires
        forall|k: int| 0 <= k < w.len() ==> is_word(#[trigger] w[k]),
    ensures
        one_line(join(w, ' ')),
{
    let ok = |c: char| c != '\n' && c != '\r';
    assert forall|i: int, k: int| 0 <= i < w.len() && 0 <= k < w[i].len() implies ok(
        #[trigger] w[i][k],
    ) by {
        assert(is_word(w[i]));
        assert(!white(w[i][k]));
    }
    lemma_join_chars(w, ' ', ok);
    assert forall|k: int| 0 <= k < join(w, ' ').len() implies #[trigger] join(w, ' ')[k] != '\n'
        && join(w, ' ')[k] != '\r' by {
        assert(ok(join(w, ' ')[k]));
    }
}

proof fn lemma_one_line_add(a: Seq<char>, b: Seq<char>)
    requires
        one_line(a),
        one_line(b),
    ensures
        one_line(a + b),
{
    assert forall|i: int| 0 <= i < (a + b).len() implies #[trigger] (a + b)[i] != '\n' && (a + b)[i]
        != '\r' by {
        if i < a.len() {
            assert((a + b)[i] == a[i]);
        } else {
            assert((a + b)[i] == b[i - a.len()]);
        }
    }
}

proof fn lemma_head_lines()
    ensures
        forall|i: int| 0 <= i < 8 ==> one_line(#[trigger] head_lines()[i]),
{
    reveal_with_fuel(one_line_to, 60);
    reveal_strlit("v=0");
    reveal_strlit("o=- 1 2 IN IP4 127.0.0.1");
    reveal_strlit("s=-");
    reveal_strlit("t=0 0");
    reveal_strlit("a=group:BUNDLE 0");
    reveal_strlit("a=msid-semantic: WMS");
    reveal_strlit("c=IN IP4 0.0.0.0");
    lemma_one_line("v=0"@, 3);
    lemma_one_line("o=- 1 2 IN IP4 127.0.0.1"@, 24);
    lemma_one_line("s=-"@, 3);
    lemma_one_line("t=0 0"@, 5);
    lemma_one_line("a=group:BUNDLE 0"@, 16);
    lemma_one_line("a=msid-semantic: WMS"@, 20);
    lemma_media_line();
    lemma_one_line("c=IN IP4 0.0.0.0"@, 16);
    assert forall|i: int| 0 <= i < 8 implies one_line(#[trigger] head_lines()[i]) by {
        assert(i == 0 || i == 1 || i == 2 || i == 3 || i == 4 || i == 5 || i == 6 || i == 7);
    }
}

proof fn lemma_media_line()
    ensures
        one_line("m=application 9 UDP/DTLS/SCTP webrtc-datachannel"@),
{
    reveal_with_fuel(one_line_to, 60);
    reveal_strlit("m=application 9 UDP/DTLS/SCTP webrtc-datachannel");
    lemma_one_line("m=application 9 UDP/DTLS/SCTP webrtc-datachannel"@, 48);
}

proof fn lemma_ice_line(s: Seq<char>)
    requires
        ice(s),
    ensures
        one_line(s),
{
    assert forall|i: int| 0 <= i < s.len() implies #[trigger] s[i] != '\n' && s[i] != '\r' by {
        assert(ice_char(s[i]));
    }
}

proof fn lemma_upper_pair(n: u8)
    ensures
        is_pair(upper_pair(n)),
        number(upper_pair(n), 16) == n,
        is_digit(upper_pair(n)[0], 16),
        is_digit(upper_pair(n)[1], 16),
        !upper_pair(n).contains(':'),
{
    let s = upper_pair(n);
    let a = n as int / 16;
    let b = n as int % 16;
    assert(digit_value(upper(a)) == Some(a));
    assert(digit_value(upper(b)) == Some(b));
    reveal_with_fuel(number, 3);
    assert(s.drop_last() =~= seq![upper(a)]);
    assert(s.drop_last().drop_last() =~= seq![]);
    assert(number(s, 16) == a * 16 + b);
    assert forall|i: int| 0 <= i < s.len() implies is_digit(#[trigger] s[i], 16) by {
        assert(i == 0 || i == 1);
    }
    assert(all_digits(s, 16));
}

/// A fingerprint reads back.
pub proof fn law_fingerprints_read_back(b: Seq<u8>)
    requires
        b.len() == 32,
    ensures
        fp_bytes(fp_text(b)) == Some(b),
        one_line(fp_text(b)),
{
    let p = b.map_values(|n: u8| upper_pair(n));
    assert forall|i: int| 0 <= i < p.len() implies is_pair(#[trigger] p[i]) && number(p[i], 16)
        == b[i] && !p[i].contains(':') by {
        lemma_upper_pair(b[i]);
    }
    law_joined_pieces_split_again(p, ':');
    assert(all_bytes(p));
    assert(fp_bytes(fp_text(b))->Some_0 =~= b);
    let ok = |c: char| c != '\n' && c != '\r';
    assert forall|i: int, k: int| 0 <= i < p.len() && 0 <= k < p[i].len() implies ok(
        #[trigger] p[i][k],
    ) by {
        lemma_upper_pair(b[i]);
        assert(k == 0 || k == 1);
        assert(is_digit(p[i][k], 16));
    }
    lemma_join_chars(p, ':', ok);
    assert forall|k: int| 0 <= k < fp_text(b).len() implies #[trigger] fp_text(b)[k] != '\n'
        && fp_text(b)[k] != '\r' by {
        assert(ok(join(p, ':')[k]));
    }
}

/// A fingerprint that is accepted is rebuilt as it was, letter for letter where
/// it is in upper case.
pub proof fn law_a_fingerprint_is_rebuilt_as_it_was(t: Seq<char>)
    requires
        fp_bytes(t) is Some,
        forall|k: int| 0 <= k < t.len() ==> !('a' <= #[trigger] t[k] <= 'f'),
    ensures
        fp_text(fp_bytes(t)->Some_0) == t,
{
    let p = split(t, ':');
    let b = fp_bytes(t)->Some_0;
    law_split_pieces_join_again(t, ':');
    let ok = |c: char| !('a' <= c <= 'f');
    lemma_split_chars(t, ':', ok);
    assert forall|i: int| 0 <= i < 32 implies #[trigger] p[i] == upper_pair(b[i]) by {
        let s = p[i];
        assert(is_pair(s));
        lemma_pair_is_a_byte(s);
        reveal_with_fuel(number, 3);
        assert(is_digit(s[0], 16) && is_digit(s[1], 16));
        assert(ok(p[i][0]) && ok(p[i][1]));
        let x = digit_value(s[0])->Some_0;
        let y = digit_value(s[1])->Some_0;
        assert(s.drop_last() =~= seq![s[0]]);
        assert(number(s.drop_last(), 16) == x);
        assert(number(s, 16) == x * 16 + y);
        assert(upper(x) == s[0] && upper(y) == s[1]);
        assert(upper_pair(b[i]) =~= s);
    }
    assert(b.map_values(|n: u8| upper_pair(n)) =~= p);
}

/// Every character of a piece is one of the text's.
proof fn lemma_split_chars(s: Seq<char>, sep: char, ok: spec_fn(char) -> bool)
    requires
        forall|k: int| 0 <= k < s.len() ==> ok(#[trigger] s[k]),
    ensures
        forall|i: int, k: int|
            0 <= i < split(s, sep).len() && 0 <= k < split(s, sep)[i].len() ==> ok(
                #[trigger] split(s, sep)[i][k],
            ),
    decreases s.len(),
{
    if s.len() > 0 {
        let less = s.drop_last();
        assert forall|k: int| 0 <= k < less.len() implies ok(#[trigger] less[k]) by {
            assert(less[k] == s[k]);
        }
        lemma_split_chars(less, sep, ok);
        lemma_split_some(less, sep);
        let q = split(less, sep);
        let p = split(s, sep);
        assert forall|i: int, k: int| 0 <= i < p.len() && 0 <= k < p[i].len() implies ok(
            #[trigger] p[i][k],
        ) by {
            if i < q.len() && k < q[i].len() {
                assert(p[i][k] == q[i][k]);
                assert(ok(q[i][k]));
            } else {
                assert(p[i][k] == s[s.len() - 1]);
            }
        }
    }
}

proof fn lemma_tail_lines(f: Facts)
    requires
        facts_ok(f),
    ensures
        forall|i: int| 0 <= i < 7 ==> one_line(#[trigger] tail_lines(f)[i]),
{
    reveal_with_fuel(one_line_to, 30);
    reveal_strlit("a=ice-ufrag:");
    reveal_strlit("a=ice-pwd:");
    reveal_strlit("a=fingerprint:");
    reveal_strlit("sha-256 ");
    reveal_strlit("a=setup:");
    lemma_one_line("a=ice-ufrag:"@, 12);
    lemma_one_line("a=ice-pwd:"@, 10);
    lemma_one_line("a=fingerprint:"@, 14);
    lemma_one_line("sha-256 "@, 8);
    lemma_one_line("a=setup:"@, 8);
    lemma_ice_line(f.ufrag);
    lemma_ice_line(f.pwd);
    law_fingerprints_read_back(f.fp);
    lemma_setup_line(f.setup);
    lemma_last_lines();
    lemma_one_line_add("a=ice-ufrag:"@, f.ufrag);
    lemma_one_line_add("a=ice-pwd:"@, f.pwd);
    lemma_one_line_add("sha-256 "@, fp_text(f.fp));
    lemma_one_line_add("a=fingerprint:"@, "sha-256 "@ + fp_text(f.fp));
    lemma_one_line_add("a=setup:"@, setup_name(f.setup));
    assert forall|i: int| 0 <= i < 7 implies one_line(#[trigger] tail_lines(f)[i]) by {
        assert(i == 0 || i == 1 || i == 2 || i == 3 || i == 4 || i == 5 || i == 6);
    }
}

proof fn lemma_setup_line(setup: u8)
    ensures
        one_line(setup_name(setup)),
        setup < 3 ==> setup_of(setup_name(setup)) == Some(setup),
{
    reveal_with_fuel(one_line_to, 10);
    reveal_strlit("actpass");
    reveal_strlit("active");
    reveal_strlit("passive");
    lemma_one_line("actpass"@, 7);
    lemma_one_line("active"@, 6);
    lemma_one_line("passive"@, 7);
    assert("actpass"@[0] != "passive"@[0]);
    assert("active"@.len() != "passive"@.len());
    assert("active"@.len() != "actpass"@.len());
}

proof fn lemma_last_lines()
    ensures
        one_line("a=mid:0"@),
        one_line("a=sctp-port:5000"@),
        one_line("a=max-message-size:262144"@),
{
    reveal_with_fuel(one_line_to, 30);
    reveal_strlit("a=mid:0");
    reveal_strlit("a=sctp-port:5000");
    reveal_strlit("a=max-message-size:262144");
    lemma_one_line("a=mid:0"@, 7);
    lemma_one_line("a=sctp-port:5000"@, 16);
    lemma_one_line("a=max-message-size:262144"@, 25);
}

proof fn lemma_cand_line_is_one(c: Cand, i: int)
    requires
        cand_ok(c),
        0 <= i < 255,
    ensures
        one_line(cand_line(c, i)),
{
    reveal_with_fuel(one_line_to, 13);
    reveal_strlit("a=candidate:");
    lemma_one_line("a=candidate:"@, 12);
    lemma_cand_words(c, i);
    lemma_words_are_one_line(cand_words(c, i));
    lemma_one_line_add("a=candidate:"@, join(cand_words(c, i), ' '));
}

/// More of a line without an ending makes its last piece longer.
proof fn lemma_split_extend(a: Seq<char>, b: Seq<char>, sep: char)
    requires
        !b.contains(sep),
    ensures
        split(a + b, sep) == split(a, sep).drop_last().push(split(a, sep).last() + b),
    decreases b.len(),
{
    let p = split(a, sep);
    lemma_split_some(a, sep);
    if b.len() == 0 {
        assert(a + b =~= a);
        assert(p.last() + b =~= p.last());
        assert(p.drop_last().push(p.last()) =~= p);
    } else {
        let less = b.drop_last();
        assert forall|i: int| 0 <= i < less.len() implies less[i] != sep by {
            assert(b[i] != sep);
        }
        lemma_split_extend(a, less, sep);
        let s = a + b;
        assert(s.drop_last() =~= a + less);
        assert(s.last() == b[b.len() - 1]);
        assert((p.last() + less).push(b.last()) =~= p.last() + b);
        assert(split(s, sep) =~= p.drop_last().push(p.last() + b));
    }
}

/// Lines that are one line each are the rows of their text.
proof fn lemma_rows(lines: Seq<Seq<char>>)
    requires
        forall|i: int| 0 <= i < lines.len() ==> one_line(#[trigger] lines[i]),
    ensures
        split(crlf(lines), '\n') == lines.map_values(|l: Seq<char>| l.push('\r')).push(seq![]),
    decreases lines.len(),
{
    let want = lines.map_values(|l: Seq<char>| l.push('\r')).push(seq![]);
    if lines.len() == 0 {
        assert(split(crlf(lines), '\n') =~= want);
    } else {
        let less = lines.drop_last();
        let l = lines[lines.len() - 1];
        assert forall|i: int| 0 <= i < less.len() implies one_line(#[trigger] less[i]) by {
            assert(less[i] == lines[i]);
        }
        lemma_rows(less);
        let a = crlf(less);
        let b = l.push('\r');
        assert forall|i: int| 0 <= i < b.len() implies b[i] != '\n' by {
            if i < l.len() {
                assert(b[i] == l[i]);
            }
        }
        lemma_split_extend(a, b, '\n');
        let s = crlf(lines);
        assert(s =~= (a + b).push('\n'));
        assert(s.drop_last() =~= a + b);
        let x = less.map_values(|l: Seq<char>| l.push('\r'));
        assert(x.push(seq![]).drop_last() =~= x);
        assert(Seq::<char>::empty() + b =~= b);
        assert(split(a + b, '\n') =~= x.push(b));
        assert(x.push(b).push(seq![]) =~= want);
    }
}

proof fn lemma_unreturned(l: Seq<char>)
    requires
        one_line(l),
    ensures
        unreturned(l.push('\r')) == l,
        unreturned(l) == l,
{
    assert(l.push('\r').drop_last() =~= l);
    if l.len() > 0 {
        assert(l[l.len() - 1] != '\r');
    }
    assert(unreturned(l) == l);
}

/// Nothing is smuggled in: the rows of a rebuilt SDP are the template's lines
/// and the facts', one each, and one empty row behind them.
pub proof fn law_a_rebuilt_sdp_has_no_other_line(f: Facts)
    requires
        facts_ok(f),
    ensures
        rows(crlf(sdp_lines(f))) == sdp_lines(f).push(seq![]),
{
    let lines = sdp_lines(f);
    let n = f.cands.len();
    lemma_head_lines();
    lemma_tail_lines(f);
    assert forall|i: int| 0 <= i < lines.len() implies one_line(#[trigger] lines[i]) by {
        if i < 8 {
            assert(lines[i] == head_lines()[i]);
        } else if i < 8 + n {
            assert(lines[i] == cand_line(f.cands[i - 8], i - 8));
            lemma_cand_line_is_one(f.cands[i - 8], i - 8);
        } else {
            assert(lines[i] == tail_lines(f)[i - 8 - n]);
        }
    }
    lemma_rows(lines);
    let r = rows(crlf(lines));
    let want = lines.push(seq![]);
    assert forall|i: int| 0 <= i < want.len() implies #[trigger] r[i] == want[i] by {
        if i < lines.len() {
            lemma_unreturned(lines[i]);
        } else {
            assert(unreturned(seq![]) =~= seq![]);
        }
    }
    assert(r =~= want);
}

// ---------------------------------------------------------------------------
// The whole SDP.
// ---------------------------------------------------------------------------
proof fn lemma_attribute(r: Seq<Seq<char>>, prefix: Seq<char>, k: int, value: Seq<char>)
    requires
        0 <= k < r.len(),
        r[k] == prefix + value,
        forall|i: int| 0 <= i < k ==> !starts(#[trigger] r[i], prefix),
    ensures
        attribute(r, prefix) == Some(value),
    decreases k,
{
    if k == 0 {
        assert(r[0].take(prefix.len() as int) =~= prefix);
        assert(r[0].skip(prefix.len() as int) =~= value);
    } else {
        assert(!starts(r[0], prefix));
        let rest = r.skip(1);
        assert(rest[k - 1] == r[k]);
        assert forall|i: int| 0 <= i < k - 1 implies !starts(#[trigger] rest[i], prefix) by {
            assert(rest[i] == r[i + 1]);
        }
        lemma_attribute(rest, prefix, k - 1, value);
    }
}

/// Two texts that differ where both have a character do not start alike.
proof fn lemma_differ(s: Seq<char>, p: Seq<char>, k: int)
    requires
        0 <= k < p.len(),
        k < s.len() ==> s[k] != p[k],
    ensures
        !starts(s, p),
{
    if starts(s, p) {
        assert(s.take(p.len() as int)[k] == p[k]);
    }
}

/// No line before the facts gives one of them, and none but a candidate's
/// gives a candidate.
proof fn lemma_head_is_bare(p: Seq<char>)
    requires
        p.len() > 2,
        p[0] == 'a',
        p[2] != 'g',
        p[2] != 'm',
    ensures
        forall|i: int| 0 <= i < 8 ==> !starts(#[trigger] head_lines()[i], p),
{
    reveal_strlit("v=0");
    reveal_strlit("o=- 1 2 IN IP4 127.0.0.1");
    reveal_strlit("s=-");
    reveal_strlit("t=0 0");
    reveal_strlit("a=group:BUNDLE 0");
    reveal_strlit("a=msid-semantic: WMS");
    reveal_strlit("m=application 9 UDP/DTLS/SCTP webrtc-datachannel");
    reveal_strlit("c=IN IP4 0.0.0.0");
    let h = head_lines();
    lemma_differ(h[0], p, 0);
    lemma_differ(h[1], p, 0);
    lemma_differ(h[2], p, 0);
    lemma_differ(h[3], p, 0);
    lemma_differ(h[4], p, 2);
    lemma_differ(h[5], p, 2);
    lemma_differ(h[6], p, 0);
    lemma_differ(h[7], p, 0);
    assert forall|i: int| 0 <= i < 8 implies !starts(#[trigger] h[i], p) by {
        assert(i == 0 || i == 1 || i == 2 || i == 3 || i == 4 || i == 5 || i == 6 || i == 7);
    }
}

/// The facts about each line's third character.
proof fn lemma_prefixes()
    ensures
        "a=candidate:"@.len() == 12 && "a=candidate:"@[0] == 'a' && "a=candidate:"@[2] == 'c',
        "a=ice-ufrag:"@.len() == 12 && "a=ice-ufrag:"@[0] == 'a' && "a=ice-ufrag:"@[2] == 'i'
            && "a=ice-ufrag:"@[6] == 'u',
        "a=ice-pwd:"@.len() == 10 && "a=ice-pwd:"@[0] == 'a' && "a=ice-pwd:"@[2] == 'i'
            && "a=ice-pwd:"@[6] == 'p',
        "a=fingerprint:"@.len() == 14 && "a=fingerprint:"@[0] == 'a' && "a=fingerprint:"@[2] == 'f',
        "a=setup:"@.len() == 8 && "a=setup:"@[0] == 'a' && "a=setup:"@[2] == 's' && "a=setup:"@[3]
            == 'e',
        "a=mid:0"@.len() == 7 && "a=mid:0"@[2] == 'm',
        "a=sctp-port:5000"@.len() == 16 && "a=sctp-port:5000"@[2] == 's' && "a=sctp-port:5000"@[3]
            == 'c',
        "a=max-message-size:262144"@.len() == 25 && "a=max-message-size:262144"@[2] == 'm',
        "sha-256 "@.len() == 8,
{
    reveal_strlit("a=candidate:");
    reveal_strlit("a=ice-ufrag:");
    reveal_strlit("a=ice-pwd:");
    reveal_strlit("a=fingerprint:");
    reveal_strlit("a=setup:");
    reveal_strlit("a=mid:0");
    reveal_strlit("a=sctp-port:5000");
    reveal_strlit("a=max-message-size:262144");
    reveal_strlit("sha-256 ");
}

proof fn lemma_before_tail(f: Facts, p: Seq<char>, i: int)
    requires
        facts_ok(f),
        p.len() > 2,
        p[0] == 'a',
        p[2] != 'g',
        p[2] != 'm',
        p[2] != 'c',
        0 <= i < 8 + f.cands.len(),
    ensures
        !starts(sdp_lines(f).push(seq![])[i], p),
{
    lemma_prefixes();
    lemma_head_is_bare(p);
    let r = sdp_lines(f).push(seq![]);
    if i < 8 {
        assert(r[i] == head_lines()[i]);
    } else {
        let line = cand_line(f.cands[i - 8], i - 8);
        assert(r[i] == line);
        assert(line[2] == "a=candidate:"@[2]);
        lemma_differ(line, p, 2);
    }
}

proof fn lemma_facts_found(f: Facts)
    requires
        facts_ok(f),
    ensures
        ({
            let r = sdp_lines(f).push(seq![]);
            &&& attribute(r, "a=ice-ufrag:"@) == Some(f.ufrag)
            &&& attribute(r, "a=ice-pwd:"@) == Some(f.pwd)
            &&& attribute(r, "a=fingerprint:"@) == Some("sha-256 "@ + fp_text(f.fp))
            &&& attribute(r, "a=setup:"@) == Some(setup_name(f.setup))
        }),
{
    let r = sdp_lines(f).push(seq![]);
    let n: int = 8 + f.cands.len() as int;
    let t = tail_lines(f);
    lemma_prefixes();
    assert(r[n + 0] == t[0] && r[n + 1] == t[1] && r[n + 2] == t[2] && r[n + 3] == t[3]);
    assert(t[0][2] == "a=ice-ufrag:"@[2] && t[0][6] == "a=ice-ufrag:"@[6]);
    assert(t[1][2] == "a=ice-pwd:"@[2]);
    assert(t[2][2] == "a=fingerprint:"@[2]);
    let pu = "a=ice-ufrag:"@;
    assert forall|i: int| 0 <= i < n implies !starts(#[trigger] r[i], pu) by {
        lemma_before_tail(f, pu, i);
    }
    lemma_attribute(r, pu, n, f.ufrag);
    let pp = "a=ice-pwd:"@;
    assert forall|i: int| 0 <= i < n + 1 implies !starts(#[trigger] r[i], pp) by {
        if i < n {
            lemma_before_tail(f, pp, i);
        } else {
            lemma_differ(r[i], pp, 6);
        }
    }
    lemma_attribute(r, pp, n + 1, f.pwd);
    let pf = "a=fingerprint:"@;
    assert forall|i: int| 0 <= i < n + 2 implies !starts(#[trigger] r[i], pf) by {
        if i < n {
            lemma_before_tail(f, pf, i);
        } else {
            lemma_differ(r[i], pf, 2);
        }
    }
    lemma_attribute(r, pf, n + 2, "sha-256 "@ + fp_text(f.fp));
    let ps = "a=setup:"@;
    assert forall|i: int| 0 <= i < n + 3 implies !starts(#[trigger] r[i], ps) by {
        if i < n {
            lemma_before_tail(f, ps, i);
        } else {
            lemma_differ(r[i], ps, 2);
        }
    }
    lemma_attribute(r, ps, n + 3, setup_name(f.setup));
}

proof fn lemma_candidates_add(a: Seq<Seq<char>>, b: Seq<Seq<char>>)
    ensures
        candidates(a + b) == candidates(a) + candidates(b),
    decreases b.len(),
{
    if b.len() == 0 {
        assert(a + b =~= a);
        assert(candidates(a) + candidates(b) =~= candidates(a));
    } else {
        lemma_candidates_add(a, b.drop_last());
        assert((a + b).drop_last() =~= a + b.drop_last());
        assert((a + b).last() == b.last());
        assert(candidates(a + b) =~= candidates(a) + candidates(b));
    }
}

proof fn lemma_no_candidates(r: Seq<Seq<char>>)
    requires
        forall|i: int| 0 <= i < r.len() ==> cand_in(#[trigger] r[i]) is None,
    ensures
        candidates(r) == Seq::<Cand>::empty(),
    decreases r.len(),
{
    if r.len() > 0 {
        let less = r.drop_last();
        assert forall|i: int| 0 <= i < less.len() implies cand_in(#[trigger] less[i]) is None by {
            assert(less[i] == r[i]);
        }
        lemma_no_candidates(less);
        assert(cand_in(r[r.len() - 1]) is None);
    }
}

proof fn lemma_cand_lines(v: Seq<Cand>)
    requires
        v.len() <= 255,
        forall|i: int| 0 <= i < v.len() ==> cand_ok(#[trigger] v[i]),
    ensures
        candidates(cand_lines(v)) == v,
    decreases v.len(),
{
    if v.len() == 0 {
        assert(cand_lines(v) =~= seq![]);
        assert(v =~= seq![]);
    } else {
        let less = v.drop_last();
        let i = v.len() - 1;
        assert forall|i: int| 0 <= i < less.len() implies cand_ok(#[trigger] less[i]) by {
            assert(less[i] == v[i]);
        }
        lemma_cand_lines(less);
        assert(cand_lines(v).drop_last() =~= cand_lines(less));
        assert(cand_lines(v).last() == cand_line(v[i], i));
        law_candidate_lines_read_back(v[i], i);
        assert(less.push(v[i]) =~= v);
    }
}

/// A rebuilt SDP gives the facts it was rebuilt from.
pub proof fn law_a_rebuilt_sdp_gives_its_facts(f: Facts)
    requires
        facts_ok(f),
    ensures
        facts_in(crlf(sdp_lines(f))) == Some(f),
{
    let r = sdp_lines(f).push(seq![]);
    law_a_rebuilt_sdp_has_no_other_line(f);
    lemma_facts_found(f);
    lemma_prefixes();
    lemma_setup_line(f.setup);
    law_fingerprints_read_back(f.fp);
    let v = "sha-256 "@ + fp_text(f.fp);
    assert(v.take(8) =~= "sha-256 "@);
    assert(v.skip(8) =~= fp_text(f.fp));
    // The candidates: none on the template's lines, one on each of their own.
    let h = head_lines();
    let t = tail_lines(f).push(seq![]);
    let pc = "a=candidate:"@;
    lemma_head_is_bare(pc);
    assert forall|i: int| 0 <= i < h.len() implies cand_in(#[trigger] h[i]) is None by {
        assert(!starts(h[i], pc));
    }
    lemma_no_candidates(h);
    assert forall|i: int| 0 <= i < t.len() implies cand_in(#[trigger] t[i]) is None by {
        if i == 7 {
            assert(t[7].len() == 0);
        } else {
            assert(t[i] == tail_lines(f)[i]);
            assert(tail_lines(f)[0][2] == "a=ice-ufrag:"@[2]);
            assert(tail_lines(f)[1][2] == "a=ice-pwd:"@[2]);
            assert(tail_lines(f)[2][2] == "a=fingerprint:"@[2]);
            assert(tail_lines(f)[3][2] == "a=setup:"@[2]);
            assert(i == 0 || i == 1 || i == 2 || i == 3 || i == 4 || i == 5 || i == 6);
        }
        lemma_differ(t[i], pc, 2);
    }
    lemma_no_candidates(t);
    lemma_cand_lines(f.cands);
    lemma_candidates_add(h, cand_lines(f.cands));
    lemma_candidates_add(h + cand_lines(f.cands), t);
    assert(r =~= h + cand_lines(f.cands) + t);
    assert(candidates(r) =~= f.cands);
}

/// What an expanded SDP compacts to is what it was expanded from: nothing the
/// format cares about lives only in the template.
pub proof fn law_expanded_sdps_compact_back(b: Seq<u8>)
    requires
        expanded(b) is Some,
    ensures
        compacted(expanded(b)->Some_0) == Some(b),
{
    law_unpacked_facts_pack(b);
    law_a_rebuilt_sdp_gives_its_facts(unpacked(b)->Some_0);
}

proof fn lemma_candidates_ok(r: Seq<Seq<char>>)
    ensures
        forall|i: int| 0 <= i < candidates(r).len() ==> cand_ok(#[trigger] candidates(r)[i]),
    decreases r.len(),
{
    if r.len() > 0 {
        lemma_candidates_ok(r.drop_last());
        let before = candidates(r.drop_last());
        match cand_in(r.last()) {
            Some(c) => {
                assert(cand_ok(c));
                assert forall|i: int| 0 <= i < candidates(r).len() implies cand_ok(
                    #[trigger] candidates(r)[i],
                ) by {
                    if i < before.len() {
                        assert(candidates(r)[i] == before[i]);
                    }
                }
            },
            None => {},
        }
    }
}

/// Every fact survives the round trip: what compacts at all expands again, to
/// an SDP that gives the same facts.
pub proof fn law_every_fact_survives(sdp: Seq<char>)
    requires
        compacted(sdp) is Some,
    ensures
        expanded(compacted(sdp)->Some_0) is Some,
        facts_in(expanded(compacted(sdp)->Some_0)->Some_0) == facts_in(sdp),
{
    let f = facts_in(sdp)->Some_0;
    law_facts_are_well_formed(sdp);
    law_packed_facts_unpack(f);
    law_a_rebuilt_sdp_gives_its_facts(f);
}

// ---------------------------------------------------------------------------
// Nothing forged.
// ---------------------------------------------------------------------------
/// How many rows start with `p`.
pub open spec fn starting(r: Seq<Seq<char>>, p: Seq<char>) -> nat
    decreases r.len(),
{
    if r.len() == 0 {
        0
    } else {
        starting(r.drop_last(), p) + (if starts(r.last(), p) {
            1nat
        } else {
            0nat
        })
    }
}

proof fn lemma_starting_add(a: Seq<Seq<char>>, b: Seq<Seq<char>>, p: Seq<char>)
    ensures
        starting(a + b, p) == starting(a, p) + starting(b, p),
    decreases b.len(),
{
    if b.len() == 0 {
        assert(a + b =~= a);
    } else {
        lemma_starting_add(a, b.drop_last(), p);
        assert((a + b).drop_last() =~= a + b.drop_last());
        assert((a + b).last() == b.last());
    }
}

proof fn lemma_starting_none(r: Seq<Seq<char>>, p: Seq<char>)
    requires
        forall|i: int| 0 <= i < r.len() ==> !starts(#[trigger] r[i], p),
    ensures
        starting(r, p) == 0,
    decreases r.len(),
{
    if r.len() > 0 {
        let less = r.drop_last();
        assert forall|i: int| 0 <= i < less.len() implies !starts(#[trigger] less[i], p) by {
            assert(less[i] == r[i]);
        }
        lemma_starting_none(less, p);
        assert(!starts(r[r.len() - 1], p));
    }
}

proof fn lemma_starting_all(r: Seq<Seq<char>>, p: Seq<char>)
    requires
        forall|i: int| 0 <= i < r.len() ==> starts(#[trigger] r[i], p),
    ensures
        starting(r, p) == r.len(),
    decreases r.len(),
{
    if r.len() > 0 {
        let less = r.drop_last();
        assert forall|i: int| 0 <= i < less.len() implies starts(#[trigger] less[i], p) by {
            assert(less[i] == r[i]);
        }
        lemma_starting_all(less, p);
        assert(starts(r[r.len() - 1], p));
    }
}

proof fn lemma_starting_one(r: Seq<Seq<char>>, p: Seq<char>, k: int)
    requires
        0 <= k < r.len(),
        starts(r[k], p),
        forall|i: int| 0 <= i < r.len() && i != k ==> !starts(#[trigger] r[i], p),
    ensures
        starting(r, p) == 1,
{
    let a = r.take(k);
    let one = seq![r[k]];
    let b = r.skip(k + 1);
    assert(r =~= a + one + b);
    assert forall|i: int| 0 <= i < a.len() implies !starts(#[trigger] a[i], p) by {
        assert(a[i] == r[i]);
    }
    assert forall|i: int| 0 <= i < b.len() implies !starts(#[trigger] b[i], p) by {
        assert(b[i] == r[k + 1 + i]);
    }
    lemma_starting_none(a, p);
    lemma_starting_none(b, p);
    lemma_starting_all(one, p);
    lemma_starting_add(a, one, p);
    lemma_starting_add(a + one, b, p);
}

/// The line of one fact: `k` is its place among the facts' lines.
proof fn lemma_one_fact_line(f: Facts, p: Seq<char>, value: Seq<char>, k: int)
    requires
        facts_ok(f),
        0 <= k < 4,
        p.len() > 6,
        p[0] == 'a',
        p[2] != 'g' && p[2] != 'm' && p[2] != 'c',
        tail_lines(f)[k] == p + value,
        forall|j: int| 0 <= j < 7 && j != k ==> !starts(#[trigger] tail_lines(f)[j], p),
    ensures
        starting(sdp_lines(f).push(seq![]), p) == 1,
{
    let r = sdp_lines(f).push(seq![]);
    let n: int = 8 + f.cands.len() as int;
    let t = tail_lines(f);
    assert(r[n + k] == t[k]);
    assert(r[n + k].take(p.len() as int) =~= p);
    assert forall|i: int| 0 <= i < r.len() && i != n + k implies !starts(#[trigger] r[i], p) by {
        if i < n {
            lemma_before_tail(f, p, i);
        } else if i < n + 7 {
            assert(r[i] == t[i - n]);
        } else {
            assert(r[i].len() == 0);
        }
    }
    lemma_starting_one(r, p, n + k);
}

/// Which of the facts' lines start alike: none.
proof fn lemma_fact_lines_differ(f: Facts)
    ensures
        ({
            let t = tail_lines(f);
            &&& forall|j: int| 0 < j < 7 ==> !starts(#[trigger] t[j], "a=ice-ufrag:"@)
            &&& forall|j: int| 0 <= j < 7 && j != 1 ==> !starts(#[trigger] t[j], "a=ice-pwd:"@)
            &&& forall|j: int| 0 <= j < 7 && j != 2 ==> !starts(#[trigger] t[j], "a=fingerprint:"@)
            &&& forall|j: int| 0 <= j < 7 && j != 3 ==> !starts(#[trigger] t[j], "a=setup:"@)
            &&& forall|j: int| 0 <= j < 7 ==> !starts(#[trigger] t[j], "a=candidate:"@)
        }),
{
    let t = tail_lines(f);
    lemma_prefixes();
    let pu = "a=ice-ufrag:"@;
    let pp = "a=ice-pwd:"@;
    let pf = "a=fingerprint:"@;
    let ps = "a=setup:"@;
    let pc = "a=candidate:"@;
    assert(t[0][2] == pu[2] && t[0][6] == pu[6]);
    assert(t[1][2] == pp[2] && t[1][6] == pp[6]);
    assert(t[2][2] == pf[2]);
    assert(t[3][2] == ps[2] && t[3][3] == ps[3]);
    assert forall|j: int| 0 < j < 7 implies !starts(#[trigger] t[j], pu) by {
        assert(j == 1 || j == 2 || j == 3 || j == 4 || j == 5 || j == 6);
        lemma_differ(
            t[j],
            pu,
            if j == 1 {
                6
            } else {
                2
            },
        );
    }
    assert forall|j: int| 0 <= j < 7 && j != 1 implies !starts(#[trigger] t[j], pp) by {
        assert(j == 0 || j == 2 || j == 3 || j == 4 || j == 5 || j == 6);
        lemma_differ(
            t[j],
            pp,
            if j == 0 {
                6
            } else {
                2
            },
        );
    }
    assert forall|j: int| 0 <= j < 7 && j != 2 implies !starts(#[trigger] t[j], pf) by {
        assert(j == 0 || j == 1 || j == 3 || j == 4 || j == 5 || j == 6);
        lemma_differ(t[j], pf, 2);
    }
    assert forall|j: int| 0 <= j < 7 && j != 3 implies !starts(#[trigger] t[j], ps) by {
        assert(j == 0 || j == 1 || j == 2 || j == 4 || j == 5 || j == 6);
        lemma_differ(
            t[j],
            ps,
            if j == 5 {
                3
            } else {
                2
            },
        );
    }
    assert forall|j: int| 0 <= j < 7 implies !starts(#[trigger] t[j], pc) by {
        assert(j == 0 || j == 1 || j == 2 || j == 3 || j == 4 || j == 5 || j == 6);
        lemma_differ(t[j], pc, 2);
    }
}

/// The count of candidates that a compact form gives.
pub open spec fn count_byte(b: Seq<u8>) -> u8 {
    let p = 4 + b[2];
    b[p + b[p - 1] + 32]
}

/// No byte of a compact form can add a line: the SDP it expands to has exactly
/// one line for each of the four facts, with a username and a password of ICE
/// characters, as many candidates' lines as the count byte says, and eleven
/// lines of the template beside them.
pub proof fn law_no_byte_can_forge_a_line(b: Seq<u8>)
    requires
        expanded(b) is Some,
    ensures
        ({
            let r = rows(expanded(b)->Some_0);
            &&& starting(r, "a=ice-ufrag:"@) == 1
            &&& starting(r, "a=ice-pwd:"@) == 1
            &&& starting(r, "a=fingerprint:"@) == 1
            &&& starting(r, "a=fingerprint:"@ + "sha-256 "@) == 1
            &&& starting(r, "a=setup:"@) == 1
            &&& starting(r, "a=candidate:"@) == count_byte(b)
            &&& 1 <= count_byte(b)
            &&& ice_in(r, "a=ice-ufrag:"@) is Some
            &&& ice_in(r, "a=ice-pwd:"@) is Some
            &&& r.len() == 15 + count_byte(b) + 1
            &&& r.last() == Seq::<char>::empty()
        }),
{
    let f = unpacked(b)->Some_0;
    law_unpacked_facts_pack(b);
    law_a_rebuilt_sdp_has_no_other_line(f);
    lemma_facts_found(f);
    lemma_prefixes();
    lemma_fact_lines_differ(f);
    let p = 4 + b[2];
    lemma_cands_in(b.skip(p + b[p - 1] + 33), count_byte(b) as nat);
    let r = sdp_lines(f).push(seq![]);
    lemma_one_fact_line(f, "a=ice-ufrag:"@, f.ufrag, 0);
    lemma_one_fact_line(f, "a=ice-pwd:"@, f.pwd, 1);
    lemma_one_fact_line(f, "a=fingerprint:"@, "sha-256 "@ + fp_text(f.fp), 2);
    lemma_one_fact_line(f, "a=setup:"@, setup_name(f.setup), 3);
    let long = "a=fingerprint:"@ + "sha-256 "@;
    assert(tail_lines(f)[2] =~= long + fp_text(f.fp));
    assert forall|j: int| 0 <= j < 7 && j != 2 implies !starts(
        #[trigger] tail_lines(f)[j],
        long,
    ) by {
        let l = tail_lines(f)[j];
        if starts(l, long) {
            assert(l.take(14) =~= l.take(22).take(14));
            assert(long.take(14) =~= "a=fingerprint:"@);
        }
    }
    lemma_one_fact_line(f, long, fp_text(f.fp), 2);
    // The candidates' lines stand between the two parts of the template.
    let pc = "a=candidate:"@;
    let h = head_lines();
    let c = cand_lines(f.cands);
    let t = tail_lines(f).push(seq![]);
    lemma_head_is_bare(pc);
    lemma_starting_none(h, pc);
    assert forall|i: int| 0 <= i < c.len() implies starts(#[trigger] c[i], pc) by {
        assert(c[i] == cand_line(f.cands[i], i));
        assert(c[i].take(12) =~= pc);
    }
    lemma_starting_all(c, pc);
    assert forall|i: int| 0 <= i < t.len() implies !starts(#[trigger] t[i], pc) by {
        if i < 7 {
            assert(t[i] == tail_lines(f)[i]);
        } else {
            assert(t[i].len() == 0);
        }
    }
    lemma_starting_none(t, pc);
    lemma_starting_add(h, c, pc);
    lemma_starting_add(h + c, t, pc);
    assert(r =~= h + c + t);
}

// ---------------------------------------------------------------------------
// Candidates that cannot be rebuilt.
// ---------------------------------------------------------------------------
/// A candidate's line that gives no candidate.
pub open spec fn is_dropped(line: Seq<char>) -> bool {
    starts(line, "a=candidate:"@) && cand_in(line) is None
}

/// A candidate over TCP, one through a relay and one of another component than
/// the first give no candidate.
pub proof fn law_what_cannot_be_rebuilt_is_dropped(line: Seq<char>)
    requires
        starts(line, "a=candidate:"@),
        ({
            let w = words(line.skip(12));
            ||| w.len() > 1 && w[1] != "1"@
            ||| w.len() > 2 && w[2] == "tcp"@
            ||| w.len() > 7 && w[7] == "relay"@
        }),
    ensures
        is_dropped(line),
{
    reveal_strlit("tcp");
    reveal_strlit("relay");
    reveal_strlit("host");
    reveal_strlit("srflx");
    assert("relay"@[0] != "srflx"@[0]);
    assert("relay"@.len() != "host"@.len());
}

/// The rows without the candidates' lines that give no candidate.
pub open spec fn kept_rows(r: Seq<Seq<char>>) -> Seq<Seq<char>>
    decreases r.len(),
{
    if r.len() == 0 {
        seq![]
    } else if is_dropped(r.last()) {
        kept_rows(r.drop_last())
    } else {
        kept_rows(r.drop_last()).push(r.last())
    }
}

proof fn lemma_kept_add(a: Seq<Seq<char>>, b: Seq<Seq<char>>)
    ensures
        kept_rows(a + b) == kept_rows(a) + kept_rows(b),
    decreases b.len(),
{
    if b.len() == 0 {
        assert(a + b =~= a);
        assert(kept_rows(a) + kept_rows(b) =~= kept_rows(a));
    } else {
        lemma_kept_add(a, b.drop_last());
        assert((a + b).drop_last() =~= a + b.drop_last());
        assert((a + b).last() == b.last());
        assert(kept_rows(a + b) =~= kept_rows(a) + kept_rows(b));
    }
}

proof fn lemma_kept_none(r: Seq<Seq<char>>)
    requires
        forall|i: int| 0 <= i < r.len() ==> is_dropped(#[trigger] r[i]),
    ensures
        kept_rows(r) == Seq::<Seq<char>>::empty(),
    decreases r.len(),
{
    if r.len() > 0 {
        let less = r.drop_last();
        assert forall|i: int| 0 <= i < less.len() implies is_dropped(#[trigger] less[i]) by {
            assert(less[i] == r[i]);
        }
        lemma_kept_none(less);
        assert(is_dropped(r[r.len() - 1]));
    }
}

proof fn lemma_kept_candidates(r: Seq<Seq<char>>)
    ensures
        candidates(kept_rows(r)) == candidates(r),
    decreases r.len(),
{
    if r.len() > 0 {
        let less = r.drop_last();
        lemma_kept_candidates(less);
        if !is_dropped(r.last()) {
            assert(kept_rows(r).drop_last() =~= kept_rows(less));
        }
    }
}

proof fn lemma_attribute_push(r: Seq<Seq<char>>, l: Seq<char>, p: Seq<char>)
    ensures
        attribute(r.push(l), p) == (match attribute(r, p) {
            Some(v) => Some(v),
            None => if starts(l, p) {
                Some(l.skip(p.len() as int))
            } else {
                None
            },
        }),
    decreases r.len(),
{
    let all = r.push(l);
    if r.len() == 0 {
        assert(all[0] == l);
        assert(all.skip(1) =~= seq![]);
        assert(attribute(all.skip(1), p) is None);
    } else {
        assert(all[0] == r[0]);
        assert(all.skip(1) =~= r.skip(1).push(l));
        lemma_attribute_push(r.skip(1), l, p);
    }
}

proof fn lemma_kept_attribute(r: Seq<Seq<char>>, p: Seq<char>)
    requires
        p.len() > 2,
        p[2] != 'c',
    ensures
        attribute(kept_rows(r), p) == attribute(r, p),
    decreases r.len(),
{
    if r.len() > 0 {
        let less = r.drop_last();
        let l = r.last();
        lemma_kept_attribute(less, p);
        assert(less.push(l) =~= r);
        lemma_attribute_push(less, l, p);
        if is_dropped(l) {
            lemma_prefixes();
            assert(l.take(12)[2] == "a=candidate:"@[2]);
            lemma_differ(l, p, 2);
        } else {
            lemma_attribute_push(kept_rows(less), l, p);
        }
    }
}

/// Candidates that cannot be rebuilt are dropped and nothing else is: two SDPs
/// whose rows are the same but for such lines, wherever they stand, give the
/// same facts, the other candidates in their order, and compact alike.
pub proof fn law_dropped_candidates_change_nothing(a: Seq<char>, b: Seq<char>)
    requires
        kept_rows(rows(a)) == kept_rows(rows(b)),
    ensures
        candidates(rows(a)) == candidates(rows(b)),
        facts_in(a) == facts_in(b),
        compacted(a) == compacted(b),
{
    lemma_kept_candidates(rows(a));
    lemma_kept_candidates(rows(b));
    lemma_prefixes();
    lemma_kept_attribute(rows(a), "a=setup:"@);
    lemma_kept_attribute(rows(b), "a=setup:"@);
    lemma_kept_attribute(rows(a), "a=ice-ufrag:"@);
    lemma_kept_attribute(rows(b), "a=ice-ufrag:"@);
    lemma_kept_attribute(rows(a), "a=ice-pwd:"@);
    lemma_kept_attribute(rows(b), "a=ice-pwd:"@);
    lemma_kept_attribute(rows(a), "a=fingerprint:"@);
    lemma_kept_attribute(rows(b), "a=fingerprint:"@);
}

proof fn lemma_rows_behind(a: Seq<char>, b: Seq<char>)
    requires
        a.len() == 0 || a.last() == '\n',
    ensures
        rows(a + b) == rows(a).drop_last() + rows(b),
{
    lemma_split_behind(a, b, '\n');
    lemma_split_some(a, '\n');
    assert(rows(a + b) =~= rows(a).drop_last() + rows(b));
}

/// Whole lines of candidates that cannot be rebuilt, put in where a line of an
/// SDP starts or would start, leave its facts and its compact form as they
/// were.
pub proof fn law_inserted_dropped_lines_change_nothing(
    head: Seq<char>,
    lines: Seq<char>,
    tail: Seq<char>,
)
    requires
        head.len() == 0 || head.last() == '\n',
        lines.len() == 0 || lines.last() == '\n',
        forall|i: int|
            0 <= i < rows(lines).len() - 1 ==> is_dropped(#[trigger] rows(lines)[i]),
    ensures
        facts_in(head + lines + tail) == facts_in(head + tail),
        compacted(head + lines + tail) == compacted(head + tail),
{
    let h = rows(head).drop_last();
    let m = rows(lines).drop_last();
    let t = rows(tail);
    assert(head + lines + tail =~= head + (lines + tail));
    lemma_rows_behind(head, lines + tail);
    lemma_rows_behind(lines, tail);
    lemma_rows_behind(head, tail);
    lemma_split_some(lines, '\n');
    assert forall|i: int| 0 <= i < m.len() implies is_dropped(#[trigger] m[i]) by {
        assert(m[i] == rows(lines)[i]);
    }
    lemma_kept_none(m);
    lemma_kept_add(h, m + t);
    lemma_kept_add(m, t);
    lemma_kept_add(h, t);
    assert(kept_rows(m) + kept_rows(t) =~= kept_rows(t));
    law_dropped_candidates_change_nothing(head + lines + tail, head + tail);
}

/// So does such a line behind a last line that nothing ends.
pub proof fn law_a_dropped_line_at_the_end_changes_nothing(sdp: Seq<char>, line: Seq<char>)
    requires
        !line.contains('\n'),
        is_dropped(unreturned(line)),
    ensures
        facts_in(sdp.push('\n') + line) == facts_in(sdp),
        compacted(sdp.push('\n') + line) == compacted(sdp),
{
    lemma_split_piece(sdp, line, '\n');
    let r = rows(sdp.push('\n') + line);
    assert(r =~= rows(sdp).push(unreturned(line)));
    assert(r.drop_last() =~= rows(sdp));
    law_dropped_candidates_change_nothing(sdp.push('\n') + line, sdp);
}

// ---------------------------------------------------------------------------
// What is read of an SDP.
// ---------------------------------------------------------------------------
/// The first line that starts with a prefix gives what follows it there,
/// whatever later lines say; where no line does, there is nothing.
pub proof fn law_the_first_line_counts(
    r: Seq<Seq<char>>,
    prefix: Seq<char>,
    k: int,
    value: Seq<char>,
)
    requires
        0 <= k <= r.len(),
        forall|i: int| 0 <= i < k ==> !starts(#[trigger] r[i], prefix),
    ensures
        k < r.len() && r[k] == prefix + value ==> attribute(r, prefix) == Some(value),
        k == r.len() ==> attribute(r, prefix) is None,
    decreases k,
{
    if k < r.len() && r[k] == prefix + value {
        lemma_attribute(r, prefix, k, value);
    }
    if k == r.len() && k > 0 {
        let rest = r.skip(1);
        assert(!starts(r[0], prefix));
        assert forall|i: int| 0 <= i < k - 1 implies !starts(#[trigger] rest[i], prefix) by {
            assert(rest[i] == r[i + 1]);
        }
        law_the_first_line_counts(rest, prefix, k - 1, value);
    }
}

/// Every line that is a candidate gives it, in the order of the lines, and no
/// other line gives any.
pub proof fn law_every_candidate_line_gives_one(
    a: Seq<Seq<char>>,
    line: Seq<char>,
    b: Seq<Seq<char>>,
)
    ensures
        candidates(a + seq![line] + b) == candidates(a) + (match cand_in(line) {
            Some(c) => seq![c],
            None => seq![],
        }) + candidates(b),
{
    lemma_candidates_add(a + seq![line], b);
    lemma_candidates_add(a, seq![line]);
    assert(seq![line].drop_last() =~= seq![]);
    assert(candidates(seq![line].drop_last()) =~= seq![]);
    assert(candidates(seq![line]) =~= (match cand_in(line) {
        Some(c) => seq![c],
        None => seq![],
    }));
}

/// A candidate line is read exactly if it is one of component 1 over UDP, of
/// type host or srflx, with a port and an address of a kind that is known.
pub proof fn law_which_candidate_lines_are_read(line: Seq<char>, c: Cand)
    ensures
        cand_in(line) == Some(c) <==> {
            let w = words(line.skip(12));
            &&& starts(line, "a=candidate:"@)
            &&& w.len() >= 8
            &&& w[1] == "1"@
            &&& w[2].len() == 3 && (w[2][0] == 'u' || w[2][0] == 'U') && (w[2][1] == 'd' || w[2][1]
                == 'D') && (w[2][2] == 'p' || w[2][2] == 'P')
            &&& w[6] == "typ"@
            &&& w[7] == "host"@ || w[7] == "srflx"@
            &&& parsed(w[5], 10, 65535) == Some(c.port as int)
            &&& addr_of(w[4], w[7] == "srflx"@) == Some((c.tag, c.addr))
        },
{
    let w = words(line.skip(12));
    if cand_in(line) is Some {
        let p = parsed(w[5], 10, 65535)->Some_0;
        lemma_parsed_is_some(w[5], 65535);
        assert(p as u16 == p);
    }
    if parsed(w[5], 10, 65535) == Some(c.port as int) {
        assert((c.port as int) as u16 == c.port);
    }
}

proof fn lemma_parsed_is_some(s: Seq<char>, max: int)
    ensures
        parsed(s, 10, max) matches Some(n) ==> 0 <= n <= max,
{
    if parsed(s, 10, max) is Some {
        lemma_number_is_some(crate::number::unsigned_part(s));
    }
}

proof fn lemma_number_is_some(s: Seq<char>)
    requires
        forall|i: int| 0 <= i < s.len() ==> is_digit(#[trigger] s[i], 10),
    ensures
        number(s, 10) >= 0,
    decreases s.len(),
{
    if s.len() > 0 {
        let less = s.drop_last();
        assert(is_digit(s[s.len() - 1], 10));
        assert forall|i: int| 0 <= i < less.len() implies is_digit(#[trigger] less[i], 10) by {
            assert(less[i] == s[i]);
        }
        lemma_number_is_some(less);
    }
}

/// Which kind of address a text is: a name that hides one, else one of
/// version 4, else one of version 6. Each has its own tag, and a public one a
/// tag apart from a local one.
pub proof fn law_which_kind_an_address_is(t: Seq<char>, srflx: bool)
    ensures
        uuid_bytes(t) matches Some(b) ==> addr_of(t, srflx) == Some((0u8, b)),
        uuid_bytes(t) is None ==> (v4_bytes(t) matches Some(b) ==> addr_of(t, srflx) == Some(
            (
                if srflx {
                    3u8
                } else {
                    1u8
                },
                b,
            ),
        )),
        uuid_bytes(t) is None && v4_bytes(t) is None ==> (addr_of(t, srflx) matches Some((tag, b))
            ==> v6_segments(t) is Some && b.len() == 16 && tag == (if srflx {
            4u8
        } else {
            2u8
        }) && forall|i: int|
            0 <= i < 8 ==> #[trigger] (b[2 * i] * 256 + b[2 * i + 1]) == v6_segments(t)->Some_0[i]
                || !(0 <= v6_segments(t)->Some_0[i] <= 0xffff)),
        uuid_bytes(t) is None && v4_bytes(t) is None ==> (addr_of(t, srflx) is Some
            <==> v6_segments(t) is Some),
{
    if uuid_bytes(t) is None && v4_bytes(t) is None && v6_segments(t) is Some {
        let g = v6_segments(t)->Some_0;
        let b = octets_of(g);
        assert forall|i: int| 0 <= i < 8 implies #[trigger] (b[2 * i] * 256 + b[2 * i + 1]) == g[i]
            || !(0 <= g[i] <= 0xffff) by {
            assert((2 * i) / 2 == i && (2 * i + 1) / 2 == i);
            assert((2 * i) % 2 == 0 && (2 * i + 1) % 2 == 1);
        }
    }
}

/// An SDP gives facts exactly if it has a role that is known, a name and a
/// password of ICE characters, a sha-256 fingerprint, and a candidate that can
/// be rebuilt, but no more of them than a byte can count; and these are the
/// facts.
pub proof fn law_what_an_sdp_says(sdp: Seq<char>, f: Facts)
    ensures
        facts_in(sdp) == Some(f) <==> {
            let r = rows(sdp);
            let fp = attribute(r, "a=fingerprint:"@);
            &&& attribute(r, "a=setup:"@) matches Some(s) && setup_of(s) == Some(f.setup)
            &&& attribute(r, "a=ice-ufrag:"@) == Some(f.ufrag)
            &&& attribute(r, "a=ice-pwd:"@) == Some(f.pwd)
            &&& ice(f.ufrag) && ice(f.pwd)
            &&& fp is Some && starts(fp->Some_0, "sha-256 "@) && fp_bytes(fp->Some_0.skip(8))
                == Some(f.fp)
            &&& candidates(r) == f.cands
            &&& 0 < f.cands.len() <= 255
        },
{
}

/// What a name or a password may be: one to 255 letters, digits, plus signs
/// and slashes.
pub proof fn law_what_ice_allows(s: Seq<char>)
    ensures
        ice(s) <==> s.len() >= 1 && s.len() <= 255 && forall|i: int|
            0 <= i < s.len() ==> {
                let c = #[trigger] s[i];
                'a' <= c <= 'z' || 'A' <= c <= 'Z' || '0' <= c <= '9' || c == '+' || c == '/'
            },
{
    assert forall|c: char| #[trigger] ice_char(c) == ('a' <= c <= 'z' || 'A' <= c <= 'Z' || '0' <= c
        <= '9' || c == '+' || c == '/') by {}
}

/// The three roles, each by its name.
pub proof fn law_roles_have_their_names(s: Seq<char>)
    ensures
        setup_of("actpass"@) == Some(0u8),
        setup_of("active"@) == Some(1u8),
        setup_of("passive"@) == Some(2u8),
        setup_of(s) is Some ==> s == "actpass"@ || s == "active"@ || s == "passive"@,
        setup_of(s) matches Some(n) ==> setup_name(n) == s,
{
    reveal_strlit("actpass");
    reveal_strlit("active");
    reveal_strlit("passive");
    assert("active"@.len() == 6 && "actpass"@.len() == 7 && "passive"@.len() == 7);
    assert("actpass"@[0] == 'a' && "passive"@[0] == 'p');
}

/// A name hides an address exactly if it is 32 hexadecimal digits, in either
/// case, with dashes where a UUID has them, and `.local`.
pub proof fn law_which_names_hide_an_address(name: Seq<char>)
    ensures
        uuid_bytes(name) is Some <==> {
            &&& name.len() == 42
            &&& name.skip(36) == ".local"@
            &&& forall|k: int|
                0 <= k < 36 ==> if k == 8 || k == 13 || k == 18 || k == 23 {
                    #[trigger] name[k] == '-'
                } else {
                    is_digit(name[k], 16)
                }
        },
{
    reveal_strlit(".local");
    if uuid_bytes(name) is Some {
        assert forall|k: int| 0 <= k < 36 implies if k == 8 || k == 13 || k == 18 || k == 23 {
            #[trigger] name[k] == '-'
        } else {
            is_digit(name[k], 16)
        } by {
            if k != 8 && k != 13 && k != 18 && k != 23 {
                let i = if k < 8 {
                    k / 2
                } else if k < 13 {
                    (k - 1) / 2
                } else if k < 18 {
                    (k - 2) / 2
                } else if k < 23 {
                    (k - 3) / 2
                } else {
                    (k - 4) / 2
                };
                assert(pair_at(i) <= k < pair_at(i) + 2);
                assert(is_pair(pair_of(name, i)));
                assert(is_digit(pair_of(name, i)[k - pair_at(i)], 16));
            }
        }
    }
    if name.len() == 42 && name.skip(36) == ".local"@ && forall|k: int|
        0 <= k < 36 ==> if k == 8 || k == 13 || k == 18 || k == 23 {
            #[trigger] name[k] == '-'
        } else {
            is_digit(name[k], 16)
        } {
        assert forall|i: int| 0 <= i < 16 implies is_pair(#[trigger] pair_of(name, i)) by {
            let p = pair_of(name, i);
            let at = pair_at(i);
            assert(0 <= at && at + 2 <= 36);
            assert(at != 8 && at != 13 && at != 18 && at != 23);
            assert(at + 1 != 8 && at + 1 != 13 && at + 1 != 18 && at + 1 != 23);
            assert(p[0] == name[at] && p[1] == name[at + 1]);
            assert forall|k: int| 0 <= k < p.len() implies is_digit(#[trigger] p[k], 16) by {
                assert(k == 0 || k == 1);
            }
        }
        assert(name[8] == '-' && name[13] == '-' && name[18] == '-' && name[23] == '-');
    }
}

/// Any 32 pairs of hexadecimal digits, in either case, with colons between are
/// a fingerprint, and nothing else is.
pub proof fn law_which_fingerprints_are_read(p: Seq<Seq<char>>, t: Seq<char>)
    ensures
        p.len() == 32 && all_bytes(p) ==> fp_bytes(join(p, ':')) == Some(
            Seq::new(32, |i: int| number(p[i], 16) as u8),
        ),
        fp_bytes(t) is Some ==> split(t, ':').len() == 32 && all_bytes(split(t, ':')) && t == join(
            split(t, ':'),
            ':',
        ),
{
    if p.len() == 32 && all_bytes(p) {
        assert forall|i: int| 0 <= i < p.len() implies !(#[trigger] p[i]).contains(':') by {
            if p[i].contains(':') {
                let k = choose|k: int| 0 <= k < p[i].len() && p[i][k] == ':';
                assert(is_digit(p[i][k], 16));
            }
        }
        law_joined_pieces_split_again(p, ':');
    }
    law_split_pieces_join_again(t, ':');
}

/// A line keeps all but the carriage returns at its end.
pub proof fn law_only_returns_are_cut_off(s: Seq<char>) -> (n: int)
    ensures
        0 <= n <= s.len(),
        unreturned(s) == s.take(n),
        forall|i: int| n <= i < s.len() ==> #[trigger] s[i] == '\r',
        n > 0 ==> s[n - 1] != '\r',
    decreases s.len(),
{
    if s.len() > 0 && s.last() == '\r' {
        let less = s.drop_last();
        let n = law_only_returns_are_cut_off(less);
        assert(less.take(n) =~= s.take(n));
        assert forall|i: int| n <= i < s.len() implies #[trigger] s[i] == '\r' by {
            if i < less.len() {
                assert(less[i] == s[i]);
            }
        }
        n
    } else {
        assert(s.take(s.len() as int) =~= s);
        s.len() as int
    }
}

/// No two candidates of an SDP tie, and a local address goes before every
/// public one.
pub proof fn law_priorities_never_tie(a: u8, i: int, b: u8, j: int)
    requires
        0 <= i < 255,
        0 <= j < 255,
    ensures
        i != j ==> priority(a, i) != priority(b, j),
        a <= 2 && (b == 3 || b == 4) ==> priority(a, i) > priority(b, j),
        i < j && is_srflx(a) == is_srflx(b) ==> priority(a, i) > priority(b, j),
        0 < priority(a, i) < 0x8000_0000,
{
}

/// Where each fact stands in the compact form.
pub proof fn law_where_the_facts_stand(f: Facts)
    requires
        facts_ok(f),
    ensures
        ({
            let b = packed(f);
            let n = f.ufrag.len() as int;
            let m = f.pwd.len() as int;
            &&& b.len() >= 37 + n + m
            &&& b[0] == 1
            &&& b[1] == f.setup
            &&& b[2] == n
            &&& forall|i: int| 0 <= i < n ==> #[trigger] b[3 + i] == f.ufrag[i] as u8
            &&& b[3 + n] == m
            &&& forall|i: int| 0 <= i < m ==> #[trigger] b[4 + n + i] == f.pwd[i] as u8
            &&& b.subrange(4 + n + m, 36 + n + m) == f.fp
            &&& b[36 + n + m] == f.cands.len()
            &&& b.skip(37 + n + m) == cands_bytes(f.cands)
        }),
{
    let b = packed(f);
    let n = f.ufrag.len() as int;
    let m = f.pwd.len() as int;
    let u = ascii(f.ufrag);
    let p = ascii(f.pwd);
    let x1 = seq![1u8, f.setup, f.ufrag.len() as u8];
    let x2 = x1 + u;
    let x3 = x2 + seq![f.pwd.len() as u8];
    let x4 = x3 + p;
    let x5 = x4 + f.fp;
    let x6 = x5 + seq![f.cands.len() as u8];
    assert(b == x6 + cands_bytes(f.cands));
    assert forall|i: int| 0 <= i < n implies #[trigger] b[3 + i] == f.ufrag[i] as u8 by {
        assert(b[3 + i] == u[i]);
    }
    assert forall|i: int| 0 <= i < m implies #[trigger] b[4 + n + i] == f.pwd[i] as u8 by {
        assert(b[4 + n + i] == p[i]);
    }
    assert(b.subrange(4 + n + m, 36 + n + m) =~= f.fp);
    assert(b.skip(37 + n + m) =~= cands_bytes(f.cands));
}

/// Where each part of a candidate stands, and that candidates follow one
/// another.
pub proof fn law_where_the_candidates_stand(v: Seq<Cand>, c: Cand)
    requires
        cand_ok(c),
    ensures
        cands_bytes(v.push(c)) == cands_bytes(v) + cand_bytes(c),
        ({
            let b = cand_bytes(c);
            let n = if c.tag == 1 || c.tag == 3 {
                4int
            } else {
                16int
            };
            &&& b.len() == n + 3
            &&& b[0] == c.tag
            &&& b.subrange(1, 1 + n) == c.addr
            &&& b[n + 1] == c.port % 256
            &&& b[n + 2] == c.port / 256
        }),
{
    assert(v.push(c).drop_last() =~= v);
    reveal_with_fuel(le, 3);
    let b = cand_bytes(c);
    let n = c.addr.len() as int;
    assert(b.subrange(1, 1 + n) =~= c.addr);
}

/// Lines are written one after the other, each with its ending.
pub proof fn law_lines_are_written_in_turn(lines: Seq<Seq<char>>, more: Seq<char>)
    ensures
        crlf(lines.push(more)) == crlf(lines) + more + seq!['\r', '\n'],
        crlf(seq![]) == Seq::<char>::empty(),
{
    assert(lines.push(more).drop_last() =~= lines);
}

/// The words of a candidate's line: its number, its priority, its address and
/// port, and its type.
pub proof fn law_the_words_of_a_candidate_line(c: Cand, i: int)
    requires
        cand_ok(c),
        0 <= i < 255,
    ensures
        starts(cand_line(c, i), "a=candidate:"@),
        ({
            let w = words(cand_line(c, i).skip(12));
            &&& w.len() == if is_srflx(c.tag) {
                12int
            } else {
                8int
            }
            &&& w[0] == decimal((i + 1) as nat)
            &&& w[1] == "1"@
            &&& w[2] == "udp"@
            &&& w[3] == decimal(priority(c.tag, i) as nat)
            &&& w[4] == addr_text(c)
            &&& w[5] == decimal(c.port as nat)
            &&& w[6] == "typ"@
            &&& w[7] == if c.tag == 3 || c.tag == 4 {
                "srflx"@
            } else {
                "host"@
            }
        }),
{
    reveal_strlit("a=candidate:");
    let w = cand_words(c, i);
    lemma_cand_words(c, i);
    law_joined_words_come_apart(w);
    let line = cand_line(c, i);
    assert(line.skip(12) =~= join(w, ' '));
    assert(line.take(12) =~= "a=candidate:"@);
}

/// The lines of a rebuilt SDP: the template, with the candidates in the midst
/// of it and the other facts behind them.
pub proof fn law_the_lines_of_a_rebuilt_sdp(f: Facts)
    ensures
        ({
            let l = sdp_lines(f);
            let n = 8 + f.cands.len() as int;
            &&& l.len() == n + 7
            &&& l[0] == "v=0"@
            &&& l[1] == "o=- 1 2 IN IP4 127.0.0.1"@
            &&& l[2] == "s=-"@
            &&& l[3] == "t=0 0"@
            &&& l[4] == "a=group:BUNDLE 0"@
            &&& l[5] == "a=msid-semantic: WMS"@
            &&& l[6] == "m=application 9 UDP/DTLS/SCTP webrtc-datachannel"@
            &&& l[7] == "c=IN IP4 0.0.0.0"@
            &&& forall|i: int| 0 <= i < f.cands.len() ==> #[trigger] l[8 + i] == cand_line(
                f.cands[i],
                i,
            )
            &&& l[n] == "a=ice-ufrag:"@ + f.ufrag
            &&& l[n + 1] == "a=ice-pwd:"@ + f.pwd
            &&& l[n + 2] == "a=fingerprint:"@ + ("sha-256 "@ + fp_text(f.fp))
            &&& l[n + 3] == "a=setup:"@ + setup_name(f.setup)
            &&& l[n + 4] == "a=mid:0"@
            &&& l[n + 5] == "a=sctp-port:5000"@
            &&& l[n + 6] == "a=max-message-size:262144"@
        }),
{
    let l = sdp_lines(f);
    assert forall|i: int| 0 <= i < f.cands.len() implies #[trigger] l[8 + i] == cand_line(
        f.cands[i],
        i,
    ) by {
        assert(l[8 + i] == cand_lines(f.cands)[i]);
    }
}

} // verus!
