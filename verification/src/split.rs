//! Text taken apart at a separator or at white space, and put together again.
use vstd::prelude::*;

use crate::net::{is_white, white};
use crate::text::push_chars;

verus! {

/// The pieces between separators: one more than there are separators.
pub open spec fn split(s: Seq<char>, sep: char) -> Seq<Seq<char>>
    decreases s.len(),
{
    if s.len() == 0 {
        seq![seq![]]
    } else {
        let before = split(s.drop_last(), sep);
        if s.last() == sep {
            before.push(seq![])
        } else {
            before.drop_last().push(before.last().push(s.last()))
        }
    }
}

/// The pieces with a separator between each and the next.
pub open spec fn join(pieces: Seq<Seq<char>>, sep: char) -> Seq<char>
    decreases pieces.len(),
{
    if pieces.len() == 0 {
        seq![]
    } else if pieces.len() == 1 {
        pieces[0]
    } else {
        join(pieces.drop_last(), sep).push(sep) + pieces.last()
    }
}

/// The runs of characters between white space.
pub open spec fn words(s: Seq<char>) -> Seq<Seq<char>>
    decreases s.len(),
{
    if s.len() == 0 {
        seq![]
    } else {
        let before = words(s.drop_last());
        if white(s.last()) {
            before
        } else if s.len() == 1 || white(s[s.len() - 2]) {
            before.push(seq![s.last()])
        } else {
            before.drop_last().push(before.last().push(s.last()))
        }
    }
}

/// The contents of pieces of text.
pub open spec fn texts(v: Seq<Vec<char>>) -> Seq<Seq<char>> {
    v.map_values(|p: Vec<char>| p@)
}

pub proof fn lemma_split_some(s: Seq<char>, sep: char)
    ensures
        split(s, sep).len() > 0,
    decreases s.len(),
{
    if s.len() > 0 {
        lemma_split_some(s.drop_last(), sep);
    }
}

/// Behind a separator, a text without one is one piece more.
pub proof fn lemma_split_piece(a: Seq<char>, b: Seq<char>, sep: char)
    requires
        !b.contains(sep),
    ensures
        split(a.push(sep) + b, sep) == split(a, sep).push(b),
    decreases b.len(),
{
    let s = a.push(sep) + b;
    if b.len() == 0 {
        assert(s =~= a.push(sep));
        assert(s.drop_last() =~= a);
        assert(b =~= seq![]);
    } else {
        let less = b.drop_last();
        assert forall|i: int| 0 <= i < less.len() implies less[i] != sep by {
            assert(b[i] != sep);
        }
        lemma_split_piece(a, less, sep);
        assert(s.drop_last() =~= a.push(sep) + less);
        assert(s.last() == b.last());
        assert(b[b.len() - 1] != sep);
        assert(split(s, sep) =~= split(a, sep).push(less.push(b.last())));
        assert(less.push(b.last()) =~= b);
    }
}

/// A text without a separator is one piece.
pub proof fn lemma_split_whole(b: Seq<char>, sep: char)
    requires
        !b.contains(sep),
    ensures
        split(b, sep) == seq![b],
    decreases b.len(),
{
    if b.len() == 0 {
        assert(b =~= seq![]);
    } else {
        let less = b.drop_last();
        assert forall|i: int| 0 <= i < less.len() implies less[i] != sep by {
            assert(b[i] != sep);
        }
        lemma_split_whole(less, sep);
        assert(b[b.len() - 1] != sep);
        assert(less.push(b.last()) =~= b);
        assert(split(b, sep) =~= seq![b]);
    }
}

/// What follows a separator comes apart by itself.
pub proof fn lemma_split_behind(a: Seq<char>, b: Seq<char>, sep: char)
    requires
        a.len() == 0 || a.last() == sep,
    ensures
        split(a + b, sep) == split(a, sep).drop_last() + split(b, sep),
    decreases b.len(),
{
    let p = split(a, sep);
    let head = p.drop_last();
    lemma_split_some(a, sep);
    if b.len() == 0 {
        assert(a + b =~= a);
        assert(p.last() =~= seq![]);
        assert(head + split(b, sep) =~= p);
    } else {
        let less = b.drop_last();
        let q = split(less, sep);
        lemma_split_behind(a, less, sep);
        lemma_split_some(less, sep);
        assert((a + b).drop_last() =~= a + less);
        assert((a + b).last() == b.last());
        let before = head + q;
        assert(before.last() == q.last());
        assert(before.drop_last() =~= head + q.drop_last());
        assert(split(a + b, sep) =~= head + split(b, sep));
    }
}

/// No piece holds the separator.
pub open spec fn free_of(pieces: Seq<Seq<char>>, sep: char) -> bool {
    forall|i: int| 0 <= i < pieces.len() ==> !(#[trigger] pieces[i]).contains(sep)
}

/// Pieces joined come apart again.
pub proof fn law_joined_pieces_split_again(pieces: Seq<Seq<char>>, sep: char)
    requires
        pieces.len() > 0,
        free_of(pieces, sep),
    ensures
        split(join(pieces, sep), sep) == pieces,
    decreases pieces.len(),
{
    let last = pieces[pieces.len() - 1];
    if pieces.len() == 1 {
        lemma_split_whole(last, sep);
        assert(seq![last] =~= pieces);
    } else {
        let less = pieces.drop_last();
        assert forall|i: int| 0 <= i < less.len() implies !(#[trigger] less[i]).contains(sep) by {
            assert(less[i] == pieces[i]);
        }
        law_joined_pieces_split_again(less, sep);
        lemma_split_piece(join(less, sep), last, sep);
        assert(less.push(last) =~= pieces);
    }
}

/// Pieces that came apart join to what they were.
pub proof fn law_split_pieces_join_again(s: Seq<char>, sep: char)
    ensures
        join(split(s, sep), sep) == s,
    decreases s.len(),
{
    let p = split(s, sep);
    lemma_split_some(s, sep);
    if s.len() == 0 {
        assert(join(p, sep) =~= s);
    } else {
        let q = split(s.drop_last(), sep);
        law_split_pieces_join_again(s.drop_last(), sep);
        lemma_split_some(s.drop_last(), sep);
        if s.last() == sep {
            assert(p.drop_last() =~= q);
            assert(join(p, sep) =~= s);
        } else {
            let last = q.last().push(s.last());
            if q.len() == 1 {
                assert(p[0] == last);
                assert(q[0] == q.last());
                assert(p.len() == 1);
                assert(join(q, sep) == q[0]);
                assert(last == s.drop_last().push(s.last()));
                assert(last =~= s);
            } else {
                assert(p.drop_last() =~= q.drop_last());
                assert(join(p, sep) =~= join(q.drop_last(), sep).push(sep) + last);
                let a = join(q.drop_last(), sep).push(sep);
                assert(s.drop_last() == a + q.last());
                assert(s =~= s.drop_last().push(s.last()));
                assert((a + q.last()).push(s.last()) =~= a + last);
            }
        }
    }
}

/// A word has characters, and no white space among them.
pub open spec fn is_word(s: Seq<char>) -> bool {
    s.len() > 0 && forall|i: int| 0 <= i < s.len() ==> !white(#[trigger] s[i])
}

/// Behind white space, a word is one word more.
proof fn lemma_one_word_more(a: Seq<char>, b: Seq<char>)
    requires
        is_word(b),
        a.len() == 0 || white(a.last()),
    ensures
        words(a + b) == words(a).push(b),
    decreases b.len(),
{
    let s = a + b;
    let less = b.drop_last();
    assert(!white(b[b.len() - 1]));
    assert(s.drop_last() =~= a + less);
    if less.len() == 0 {
        assert(s.drop_last() =~= a);
        assert(b =~= seq![b.last()]);
    } else {
        assert forall|i: int| 0 <= i < less.len() implies !white(#[trigger] less[i]) by {
            assert(!white(b[i]));
        }
        lemma_one_word_more(a, less);
        assert(s[s.len() - 2] == b[b.len() - 2]);
        assert(less.push(b.last()) =~= b);
        assert(words(s) =~= words(a).push(b));
    }
}

/// Words joined by spaces come apart again.
pub proof fn law_joined_words_come_apart(pieces: Seq<Seq<char>>)
    requires
        forall|i: int| 0 <= i < pieces.len() ==> is_word(#[trigger] pieces[i]),
    ensures
        words(join(pieces, ' ')) == pieces,
    decreases pieces.len(),
{
    if pieces.len() == 0 {
        assert(pieces =~= seq![]);
    } else {
        let less = pieces.drop_last();
        let last = pieces[pieces.len() - 1];
        assert forall|i: int| 0 <= i < less.len() implies is_word(#[trigger] less[i]) by {
            assert(less[i] == pieces[i]);
        }
        law_joined_words_come_apart(less);
        assert(less.push(last) =~= pieces);
        if pieces.len() == 1 {
            assert(seq![] + last =~= last);
            lemma_one_word_more(seq![], last);
            assert(less =~= seq![]);
        } else {
            let a = join(less, ' ').push(' ');
            lemma_one_word_more(a, last);
            assert(a.drop_last() =~= join(less, ' '));
        }
    }
}

/// Appends a character to the last of the pieces.
fn grow_last(pieces: &mut Vec<Vec<char>>, c: char)
    requires
        old(pieces)@.len() > 0,
    ensures
        texts(final(pieces)@) == texts(old(pieces)@).drop_last().push(
            texts(old(pieces)@).last().push(c),
        ),
{
    let ghost was = texts(pieces@);
    let mut last: Vec<char> = pieces.pop().unwrap();
    last.push(c);
    pieces.push(last);
    assert(texts(pieces@) =~= was.drop_last().push(was.last().push(c)));
}

/// Puts pieces together with a separator between each and the next.
pub fn join_with(pieces: &[Vec<char>], sep: char) -> (out: String)
    ensures
        out@ == join(texts(pieces@), sep),
{
    let mut out: String = String::new();
    let mut i: usize = 0;
    assert(out@ =~= join(texts(pieces@.take(0)), sep));
    while i < pieces.len()
        invariant
            i <= pieces@.len(),
            out@ == join(texts(pieces@.take(i as int)), sep),
        decreases pieces@.len() - i,
    {
        let ghost was = out@;
        if i > 0 {
            out.push(sep);
        }
        push_chars(&mut out, pieces[i].as_slice());
        proof {
            let t = texts(pieces@.take(i + 1));
            assert(t.drop_last() =~= texts(pieces@.take(i as int)));
            assert(t.last() == pieces@[i as int]@);
            if i == 0 {
                assert(was =~= seq![]);
                assert(out@ =~= t[0]);
            } else {
                assert(out@ =~= was.push(sep) + t.last());
            }
        }
        i = i + 1;
    }
    assert(pieces@.take(i as int) =~= pieces@);
    out
}

/// Takes a text apart at a separator.
pub fn split_at(s: &[char], sep: char) -> (out: Vec<Vec<char>>)
    ensures
        texts(out@) == split(s@, sep),
{
    let mut out: Vec<Vec<char>> = Vec::new();
    let empty: Vec<char> = Vec::new();
    out.push(empty);
    assert(texts(out@) =~= split(s@.take(0), sep)) by {
        assert(empty@ =~= seq![]);
    }
    let mut i: usize = 0;
    while i < s.len()
        invariant
            i <= s@.len(),
            texts(out@) == split(s@.take(i as int), sep),
        decreases s@.len() - i,
    {
        let ghost was = texts(out@);
        proof {
            assert(s@.take(i + 1).drop_last() =~= s@.take(i as int));
            lemma_split_some(s@.take(i as int), sep);
        }
        if s[i] == sep {
            let piece: Vec<char> = Vec::new();
            out.push(piece);
            assert(piece@ =~= seq![]);
            assert(texts(out@) =~= was.push(seq![]));
        } else {
            grow_last(&mut out, s[i]);
        }
        i = i + 1;
    }
    assert(s@.take(i as int) =~= s@);
    out
}

proof fn lemma_words_some(s: Seq<char>)
    requires
        s.len() > 0,
        !white(s.last()),
    ensures
        words(s).len() > 0,
{
}

/// Takes a text apart at white space.
pub fn split_words(s: &[char]) -> (out: Vec<Vec<char>>)
    ensures
        texts(out@) == words(s@),
{
    let mut out: Vec<Vec<char>> = Vec::new();
    let mut i: usize = 0;
    assert(texts(out@) =~= words(s@.take(0)));
    while i < s.len()
        invariant
            i <= s@.len(),
            texts(out@) == words(s@.take(i as int)),
        decreases s@.len() - i,
    {
        let ghost was = texts(out@);
        proof {
            assert(s@.take(i + 1).drop_last() =~= s@.take(i as int));
        }
        if !is_white(s[i]) {
            if i == 0 || is_white(s[i - 1]) {
                let mut word: Vec<char> = Vec::new();
                word.push(s[i]);
                out.push(word);
                assert(word@ =~= seq![s@[i as int]]);
                assert(texts(out@) =~= was.push(seq![s@[i as int]]));
            } else {
                proof {
                    assert(s@.take(i as int).last() == s@[i - 1]);
                    lemma_words_some(s@.take(i as int));
                    assert(texts(out@).len() == out@.len());
                }
                grow_last(&mut out, s[i]);
            }
        }
        i = i + 1;
    }
    assert(s@.take(i as int) =~= s@);
    out
}

/// No piece that came apart holds the separator, so there is no other way to
/// take the text apart.
pub proof fn law_pieces_hold_no_separator(s: Seq<char>, sep: char, i: int)
    requires
        0 <= i < split(s, sep).len(),
    ensures
        !split(s, sep)[i].contains(sep),
    decreases s.len(),
{
    if s.len() > 0 {
        let q = split(s.drop_last(), sep);
        lemma_split_some(s.drop_last(), sep);
        if s.last() == sep {
            if i < q.len() {
                law_pieces_hold_no_separator(s.drop_last(), sep, i);
            }
        } else {
            law_pieces_hold_no_separator(s.drop_last(), sep, i);
            if i == q.len() - 1 {
                let last = q.last().push(s.last());
                if last.contains(sep) {
                    let k = choose|k: int| 0 <= k < last.len() && last[k] == sep;
                    assert(q.last()[k] == sep);
                }
            }
        }
    }
}

/// One more piece goes behind a separator; a piece by itself has none.
pub proof fn law_joining_puts_one_separator_between(
    pieces: Seq<Seq<char>>,
    more: Seq<char>,
    sep: char,
)
    ensures
        join(seq![more], sep) == more,
        pieces.len() > 0 ==> join(pieces.push(more), sep) == join(pieces, sep) + seq![sep] + more,
{
    if pieces.len() > 0 {
        let all = pieces.push(more);
        assert(all.drop_last() =~= pieces);
        assert(join(all, sep) =~= join(pieces, sep) + seq![sep] + more);
    }
}

/// A text comes apart at any white space into the words before it and the
/// words behind it, whatever it is and however much there is of it. A word by
/// itself is all there is of it.
pub proof fn law_words_come_apart_at_white_space(a: Seq<char>, gap: char, b: Seq<char>)
    requires
        white(gap),
    ensures
        words(a.push(gap) + b) == words(a) + words(b),
        is_word(a) ==> words(a) == seq![a],
        words(seq![]) == Seq::<Seq<char>>::empty(),
    decreases b.len(),
{
    let s = a.push(gap) + b;
    if is_word(a) {
        lemma_one_word_more(seq![], a);
        assert(seq![] + a =~= a);
        assert(words(seq![]).push(a) =~= seq![a]);
    }
    if b.len() == 0 {
        assert(s =~= a.push(gap));
        assert(s.drop_last() =~= a);
        assert(words(a) + words(b) =~= words(a));
    } else {
        let less = b.drop_last();
        law_words_come_apart_at_white_space(a, gap, less);
        assert(s.drop_last() =~= a.push(gap) + less);
        assert(s.last() == b.last());
        if !white(b.last()) {
            if b.len() == 1 {
                assert(s[s.len() - 2] == gap);
                assert(words(less) =~= seq![]);
            } else {
                assert(s[s.len() - 2] == b[b.len() - 2]);
                if !white(b[b.len() - 2]) {
                    assert(less.last() == b[b.len() - 2]);
                    lemma_words_some(less);
                    assert((words(a) + words(less)).last() == words(less).last());
                    assert((words(a) + words(less)).drop_last() =~= words(a)
                        + words(less).drop_last());
                }
            }
        }
        assert(words(s) =~= words(a) + words(b));
    }
}

/// Every word has characters and no white space among them.
pub proof fn law_words_hold_no_white_space(s: Seq<char>, i: int)
    requires
        0 <= i < words(s).len(),
    ensures
        words(s)[i].len() > 0,
        forall|k: int| 0 <= k < words(s)[i].len() ==> !white(#[trigger] words(s)[i][k]),
    decreases s.len(),
{
    let before = words(s.drop_last());
    if i < before.len() {
        law_words_hold_no_white_space(s.drop_last(), i);
    }
}

} // verus!
