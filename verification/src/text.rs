//! Text as sequences of characters: building, trimming, splitting, and
//! decimal numbers.

use vstd::prelude::*;
use crate::seqs::{leading, lemma_leading, lemma_leading_run};

verus! {

/// `String::push` appends one character.
pub assume_specification[ String::push ](s: &mut String, c: char)
    ensures
        final(s)@ == old(s)@.push(c),
;

/// The characters of a string.
pub fn chars_of(s: &str) -> (r: Vec<char>)
    ensures
        r@ == s@,
{
    let mut r: Vec<char> = Vec::new();
    let ghost all: Seq<char> = s@;
    for c in iter: s.chars()
        invariant
            iter.seq() == all,
            r@ == all.take(iter.index() as int),
    {
        r.push(c);
        assert(all.take(iter.index() + 1) =~= all.take(iter.index() as int).push(c));
    }
    assert(all.take(all.len() as int) =~= all);
    r
}

/// The string made of these characters.
pub fn string_of(chars: &Vec<char>) -> (r: String)
    ensures
        r@ == chars@,
{
    let mut r: String = String::new();
    let mut i: usize = 0;
    while i < chars.len()
        invariant
            i <= chars.len(),
            r@ == chars@.take(i as int),
        decreases chars.len() - i,
    {
        r.push(chars[i]);
        i += 1;
        assert(chars@.take(i as int) =~= chars@.take(i - 1).push(chars@[i - 1]));
    }
    assert(chars@.take(i as int) =~= chars@);
    r
}

/// The characters from `lo` up to `hi`.
pub fn slice_of(chars: &Vec<char>, lo: usize, hi: usize) -> (r: Vec<char>)
    requires
        lo <= hi <= chars@.len(),
    ensures
        r@ == chars@.subrange(lo as int, hi as int),
{
    let mut r: Vec<char> = Vec::new();
    let mut i: usize = lo;
    while i < hi
        invariant
            lo <= i <= hi <= chars@.len(),
            r@ == chars@.subrange(lo as int, i as int),
        decreases hi - i,
    {
        r.push(chars[i]);
        i += 1;
        assert(chars@.subrange(lo as int, i as int) =~= chars@.subrange(lo as int, i - 1).push(chars@[i - 1]));
    }
    r
}

/// Appends `more` to `text`.
pub fn push_chars(text: &mut Vec<char>, more: &Vec<char>)
    ensures
        final(text)@ == old(text)@ + more@,
{
    let ghost before: Seq<char> = text@;
    let mut i: usize = 0;
    while i < more.len()
        invariant
            i <= more.len(),
            text@ == before + more@.take(i as int),
        decreases more.len() - i,
    {
        text.push(more[i]);
        i += 1;
        assert(more@.take(i as int) =~= more@.take(i - 1).push(more@[i - 1]));
    }
    assert(more@.take(i as int) =~= more@);
}

/// Appends a string to `text`.
pub fn push_str(text: &mut Vec<char>, more: &str)
    ensures
        final(text)@ == old(text)@ + more@,
{
    push_chars(text, &chars_of(more));
}

/// Whether the characters are those of `other`.
pub fn same_chars(a: &Vec<char>, b: &Vec<char>) -> (r: bool)
    ensures
        r == (a@ == b@),
{
    if a.len() != b.len() {
        return false;
    }
    let mut i: usize = 0;
    while i < a.len()
        invariant
            i <= a.len(),
            a@.len() == b@.len(),
            forall|k: int| 0 <= k < i ==> a@[k] == b@[k],
        decreases a.len() - i,
    {
        if a[i] != b[i] {
            return false;
        }
        i += 1;
    }
    assert(a@ =~= b@);
    true
}

/// Whether the characters are those of a string.
pub fn is_text(a: &Vec<char>, s: &str) -> (r: bool)
    ensures
        r == (a@ == s@),
{
    same_chars(a, &chars_of(s))
}

/// Whether two strings have the same characters.
pub fn same_text(a: &str, b: &str) -> (r: bool)
    ensures
        r == (a@ == b@),
{
    same_chars(&chars_of(a), &chars_of(b))
}

/// The characters with the Unicode property `White_Space`.
pub open spec fn is_white(c: char) -> bool {
    let n = c as int;
    ||| 0x9 <= n <= 0xd
    ||| n == 0x20
    ||| n == 0x85
    ||| n == 0xa0
    ||| n == 0x1680
    ||| 0x2000 <= n <= 0x200a
    ||| n == 0x2028
    ||| n == 0x2029
    ||| n == 0x202f
    ||| n == 0x205f
    ||| n == 0x3000
}

pub fn white(c: char) -> (r: bool)
    ensures
        r == is_white(c),
{
    let n: u32 = c as u32;
    (0x9 <= n && n <= 0xd) || n == 0x20 || n == 0x85 || n == 0xa0 || n == 0x1680 || (0x2000 <= n && n <= 0x200a)
        || n == 0x2028 || n == 0x2029 || n == 0x202f || n == 0x205f || n == 0x3000
}

/// The text without white space at its start.
pub open spec fn trim_start(s: Seq<char>) -> Seq<char> {
    s.skip(leading(s, |c: char| is_white(c)) as int)
}

/// The text without white space at its end.
pub open spec fn trim_end(s: Seq<char>) -> Seq<char>
    decreases s.len(),
{
    if s.len() > 0 && is_white(s.last()) {
        trim_end(s.drop_last())
    } else {
        s
    }
}

/// The text without white space at either end.
pub open spec fn trim(s: Seq<char>) -> Seq<char> {
    trim_end(trim_start(s))
}

/// The text without white space at either end.
pub fn trimmed(s: &Vec<char>) -> (r: Vec<char>)
    ensures
        r@ == trim(s@),
{
    let ghost w = |c: char| is_white(c);
    let mut lo: usize = 0;
    while lo < s.len() && white(s[lo])
        invariant
            lo <= s.len(),
            w == (|c: char| is_white(c)),
            forall|k: int| 0 <= k < lo ==> w(#[trigger] s@[k]),
        decreases s.len() - lo,
    {
        lo += 1;
    }
    proof {
        lemma_leading(s@, w, lo as int);
    }
    let mut hi: usize = s.len();
    assert(s@.subrange(lo as int, hi as int) =~= trim_start(s@));
    while hi > lo && white(s[hi - 1])
        invariant
            lo <= hi <= s.len(),
            trim_end(s@.subrange(lo as int, hi as int)) == trim(s@),
        decreases hi - lo,
    {
        assert(s@.subrange(lo as int, hi as int).drop_last() =~= s@.subrange(lo as int, hi - 1));
        hi -= 1;
    }
    slice_of(s, lo, hi)
}

pub open spec fn other_than(sep: char) -> spec_fn(char) -> bool {
    |c: char| c != sep
}

/// The pieces of a text between the separators; always at least one.
pub open spec fn split(s: Seq<char>, sep: char) -> Seq<Seq<char>>
    decreases s.len(),
    when s.len() >= 0
    via split_decreases
{
    let k = leading(s, other_than(sep)) as int;
    if k >= s.len() {
        seq![s]
    } else {
        seq![s.take(k)] + split(s.skip(k + 1), sep)
    }
}

#[via_fn]
proof fn split_decreases(s: Seq<char>, sep: char) {
    lemma_leading_run(s, other_than(sep));
}

/// The text before and after the first separator.
pub open spec fn split_once(s: Seq<char>, sep: char) -> Option<(Seq<char>, Seq<char>)> {
    let k = leading(s, other_than(sep)) as int;
    if k >= s.len() {
        None
    } else {
        Some((s.take(k), s.skip(k + 1)))
    }
}

/// The position of the first `sep` at or after `from`, or the end.
fn find_from(s: &Vec<char>, sep: char, from: usize) -> (r: usize)
    requires
        from <= s@.len(),
    ensures
        from <= r <= s@.len(),
        r - from == leading(s@.skip(from as int), other_than(sep)),
{
    let ghost t: Seq<char> = s@.skip(from as int);
    let ghost p = other_than(sep);
    let mut i: usize = from;
    while i < s.len() && s[i] != sep
        invariant
            from <= i <= s@.len(),
            t == s@.skip(from as int),
            p == other_than(sep),
            forall|k: int| 0 <= k < i - from ==> p(#[trigger] t[k]),
        decreases s.len() - i,
    {
        assert(t[i - from] == s@[i as int]);
        i += 1;
    }
    proof {
        if i < s.len() {
            assert(t[i - from] == s@[i as int]);
        }
        lemma_leading(t, p, i - from);
    }
    i
}

pub open spec fn views(pieces: Seq<Vec<char>>) -> Seq<Seq<char>> {
    Seq::new(pieces.len(), |i: int| pieces[i]@)
}

pub open spec fn texts(s: Seq<String>) -> Seq<Seq<char>> {
    Seq::new(s.len(), |i: int| s[i]@)
}

/// The pieces of a text between the separators.
pub fn split_at_each(s: &Vec<char>, sep: char) -> (r: Vec<Vec<char>>)
    ensures
        views(r@) == split(s@, sep),
        r@.len() >= 1,
{
    let mut r: Vec<Vec<char>> = Vec::new();
    let mut from: usize = 0;
    let ghost goal: Seq<Seq<char>> = split(s@, sep);
    proof {
        assert(s@.skip(0) =~= s@);
        assert(views(r@) + goal =~= goal);
    }
    loop
        invariant
            from <= s@.len(),
            goal == split(s@, sep),
            goal == views(r@) + split(s@.skip(from as int), sep),
        decreases s@.len() - from,
    {
        let ghost t: Seq<char> = s@.skip(from as int);
        let ghost before: Seq<Vec<char>> = r@;
        let end: usize = find_from(s, sep, from);
        let piece: Vec<char> = slice_of(s, from, end);
        r.push(piece);
        if end == s.len() {
            proof {
                assert(piece@ =~= t);
                assert(views(r@) =~= views(before).push(t));
                assert(goal =~= views(r@));
            }
            return r;
        }
        proof {
            let k: int = end - from;
            assert(piece@ =~= t.take(k));
            assert(t.skip(k + 1) =~= s@.skip(end + 1));
            assert(views(r@) =~= views(before).push(t.take(k)));
            assert(views(before) + (seq![t.take(k)] + split(s@.skip(end + 1), sep)) =~= views(r@) + split(
                s@.skip(end + 1),
                sep,
            ));
        }
        from = end + 1;
    }
}

/// The text before and after the first separator, if there is one.
pub fn split_at_first(s: &Vec<char>, sep: char) -> (r: Option<(Vec<char>, Vec<char>)>)
    ensures
        match r {
            Some((a, b)) => split_once(s@, sep) == Some((a@, b@)),
            None => split_once(s@, sep) is None,
        },
{
    let at: usize = find_from(s, sep, 0);
    assert(s@.skip(0) =~= s@);
    if at == s.len() {
        return None;
    }
    let a: Vec<char> = slice_of(s, 0, at);
    let b: Vec<char> = slice_of(s, at + 1, s.len());
    proof {
        assert(a@ =~= s@.take(at as int));
        assert(b@ =~= s@.skip(at + 1));
    }
    Some((a, b))
}

/// Texts with a separator between each two.
pub open spec fn joined(parts: Seq<Seq<char>>, sep: char) -> Seq<char>
    decreases parts.len(),
{
    if parts.len() == 0 {
        Seq::empty()
    } else if parts.len() == 1 {
        parts[0]
    } else {
        joined(parts.drop_last(), sep).push(sep) + parts.last()
    }
}

/// Texts with a separator between each two.
pub fn join(parts: &Vec<Vec<char>>, sep: char) -> (r: Vec<char>)
    ensures
        r@ == joined(views(parts@), sep),
{
    let ghost all: Seq<Seq<char>> = views(parts@);
    let mut text: Vec<char> = Vec::new();
    let mut i: usize = 0;
    assert(text@ =~= joined(all.take(0), sep));
    while i < parts.len()
        invariant
            i <= parts.len(),
            all == views(parts@),
            text@ == joined(all.take(i as int), sep),
        decreases parts.len() - i,
    {
        proof {
            assert(all.take(i + 1).drop_last() =~= all.take(i as int));
            assert(all.take(i + 1).last() == parts@[i as int]@);
        }
        if i > 0 {
            text.push(sep);
        }
        push_chars(&mut text, &parts[i]);
        proof {
            if i == 0 {
                assert(text@ =~= parts@[0]@);
                assert(all.take(1)[0] == parts@[0]@);
            }
        }
        i += 1;
    }
    assert(all.take(i as int) =~= all);
    text
}

/// Whether a text is free of a character.
pub open spec fn lacks(s: Seq<char>, c: char) -> bool {
    forall|i: int| 0 <= i < s.len() ==> #[trigger] s[i] != c
}

/// A text that starts with a part without separator, and a separator, is
/// split there.
pub proof fn lemma_split_at(a: Seq<char>, sep: char, b: Seq<char>)
    requires
        lacks(a, sep),
    ensures
        split(a.push(sep) + b, sep) == seq![a] + split(b, sep),
        split_once(a.push(sep) + b, sep) == Some((a, b)),
{
    let s: Seq<char> = a.push(sep) + b;
    let p = other_than(sep);
    assert forall|k: int| 0 <= k < a.len() implies p(#[trigger] s[k]) by {
        assert(s[k] == a[k]);
    }
    assert(s[a.len() as int] == sep);
    lemma_leading(s, p, a.len() as int);
    assert(s.take(a.len() as int) =~= a);
    assert(s.skip(a.len() as int + 1) =~= b);
}

/// A text without separator is one piece.
pub proof fn lemma_split_none(a: Seq<char>, sep: char)
    requires
        lacks(a, sep),
    ensures
        split(a, sep) == seq![a],
        split_once(a, sep) is None,
{
    let p = other_than(sep);
    assert forall|k: int| 0 <= k < a.len() implies p(#[trigger] a[k]) by {
    }
    lemma_leading(a, p, a.len() as int);
}

/// Texts with a separator between each two, seen from the front.
pub proof fn lemma_joined_front(parts: Seq<Seq<char>>, sep: char)
    requires
        parts.len() > 1,
    ensures
        joined(parts, sep) == parts[0].push(sep) + joined(parts.drop_first(), sep),
    decreases parts.len(),
{
    let rest: Seq<Seq<char>> = parts.drop_first();
    if parts.len() == 2 {
        assert(parts.drop_last().len() == 1);
        assert(joined(parts.drop_last(), sep) == parts[0]);
        assert(joined(rest, sep) == parts[1]);
    } else {
        lemma_joined_front(parts.drop_last(), sep);
        assert(parts.drop_last().drop_first() =~= rest.drop_last());
        assert(rest.last() == parts.last());
        let head: Seq<char> = parts[0].push(sep);
        let mid: Seq<char> = joined(rest.drop_last(), sep);
        assert((head + mid).push(sep) + parts.last() =~= head + (mid.push(sep) + parts.last()));
    }
}

/// Texts without separator that were joined come apart again.
pub proof fn lemma_split_joined(parts: Seq<Seq<char>>, sep: char)
    requires
        parts.len() > 0,
        forall|i: int| 0 <= i < parts.len() ==> lacks(#[trigger] parts[i], sep),
    ensures
        split(joined(parts, sep), sep) == parts,
    decreases parts.len(),
{
    assert(lacks(parts[0], sep));
    if parts.len() == 1 {
        lemma_split_none(parts[0], sep);
        assert(seq![parts[0]] =~= parts);
    } else {
        let rest: Seq<Seq<char>> = parts.drop_first();
        assert forall|i: int| 0 <= i < rest.len() implies lacks(#[trigger] rest[i], sep) by {
            assert(lacks(parts[i + 1], sep));
        }
        lemma_joined_front(parts, sep);
        lemma_split_joined(rest, sep);
        lemma_split_at(parts[0], sep, joined(rest, sep));
        assert(seq![parts[0]] + rest =~= parts);
    }
}

/// The pieces between the separators are free of them, and there is at least
/// one.
pub proof fn lemma_split_lacks(s: Seq<char>, sep: char)
    ensures
        split(s, sep).len() > 0,
        forall|i: int| 0 <= i < split(s, sep).len() ==> lacks(#[trigger] split(s, sep)[i], sep),
    decreases s.len(),
{
    let p = other_than(sep);
    lemma_leading_run(s, p);
    let k: int = leading(s, p) as int;
    if k >= s.len() {
        assert forall|i: int| 0 <= i < s.len() implies #[trigger] s[i] != sep by {
            assert(p(s[i]));
        }
    } else {
        lemma_split_lacks(s.skip(k + 1), sep);
        let head: Seq<char> = s.take(k);
        assert(lacks(head, sep)) by {
            assert forall|i: int| 0 <= i < head.len() implies #[trigger] head[i] != sep by {
                assert(p(s[i]));
            }
        }
        let rest: Seq<Seq<char>> = split(s.skip(k + 1), sep);
        assert forall|i: int| 0 <= i < split(s, sep).len() implies lacks(#[trigger] split(s, sep)[i], sep) by {
            if i > 0 {
                assert(split(s, sep)[i] == rest[i - 1]);
            }
        }
    }
}

/// A line without the carriage return that may end it.
pub open spec fn without_return(s: Seq<char>) -> Seq<char> {
    if s.len() > 0 && s.last() == '\r' {
        s.drop_last()
    } else {
        s
    }
}

/// The lines of a text, without their ends: a line feed, or a carriage return
/// and a line feed. Nothing after the last line feed is no further line.
pub open spec fn lines(s: Seq<char>) -> Seq<Seq<char>> {
    let pieces = split(s, '\n');
    let ended = Seq::new((pieces.len() - 1) as nat, |i: int| without_return(pieces[i]));
    if pieces.last().len() == 0 {
        ended
    } else {
        ended.push(pieces.last())
    }
}

/// The lines of a text.
pub fn lines_of(s: &Vec<char>) -> (r: Vec<Vec<char>>)
    ensures
        views(r@) == lines(s@),
        r@.len() == lines(s@).len(),
        forall|i: int| 0 <= i < r@.len() ==> (#[trigger] r@[i])@ == lines(s@)[i],
{
    let mut pieces: Vec<Vec<char>> = split_at_each(s, '\n');
    let ghost all: Seq<Seq<char>> = split(s@, '\n');
    let n: usize = pieces.len();
    assert(views(pieces@).len() == n);
    assert forall|i: int| 0 <= i < n implies (#[trigger] pieces@[i])@ == all[i] by {
        assert(views(pieces@)[i] == pieces@[i]@);
    }
    let mut k: usize = 0;
    while k < n - 1
        invariant
            k <= n - 1,
            n >= 1,
            pieces@.len() == n,
            all.len() == n,
            forall|i: int| 0 <= i < k ==> (#[trigger] pieces@[i])@ == without_return(all[i]),
            forall|i: int| k <= i < n ==> (#[trigger] pieces@[i])@ == all[i],
        decreases n - 1 - k,
    {
        let len: usize = pieces[k].len();
        if len > 0 && pieces[k][len - 1] == '\r' {
            let ghost line: Seq<char> = pieces@[k as int]@;
            pieces[k].pop();
            assert(pieces@[k as int]@ =~= line.drop_last());
        }
        k += 1;
    }
    if pieces[n - 1].len() == 0 {
        pieces.pop();
    }
    assert(views(pieces@) =~= lines(s@));
    pieces
}

/// The words of a text: its longest runs without white space.
pub open spec fn words(s: Seq<char>) -> Seq<Seq<char>>
    decreases s.len(),
    when s.len() >= 0
    via words_decreases
{
    let t = trim_start(s);
    if t.len() == 0 {
        Seq::empty()
    } else {
        let k = leading(t, |c: char| !is_white(c)) as int;
        seq![t.take(k)] + words(t.skip(k))
    }
}

#[via_fn]
proof fn words_decreases(s: Seq<char>) {
    let w = |c: char| is_white(c);
    lemma_leading_run(s, w);
    let t: Seq<char> = trim_start(s);
    if t.len() > 0 {
        assert(t[0] == s[leading(s, w) as int]);
        lemma_leading_run(t, |c: char| !is_white(c));
        assert(leading(t, |c: char| !is_white(c)) >= 1);
    }
}

/// The words of a text.
pub fn words_of(s: &Vec<char>) -> (r: Vec<Vec<char>>)
    ensures
        views(r@) == words(s@),
{
    let ghost w = |c: char| is_white(c);
    let ghost nw = |c: char| !is_white(c);
    let mut r: Vec<Vec<char>> = Vec::new();
    let mut i: usize = 0;
    let ghost goal: Seq<Seq<char>> = words(s@);
    proof {
        assert(s@.skip(0) =~= s@);
        assert(views(r@) + goal =~= goal);
    }
    loop
        invariant
            w == (|c: char| is_white(c)),
            nw == (|c: char| !is_white(c)),
            i <= s@.len(),
            goal == words(s@),
            goal == views(r@) + words(s@.skip(i as int)),
        decreases s@.len() - i,
    {
        let ghost rest: Seq<char> = s@.skip(i as int);
        let ghost before: Seq<Vec<char>> = r@;
        let mut lo: usize = i;
        while lo < s.len() && white(s[lo])
            invariant
                i <= lo <= s@.len(),
                rest == s@.skip(i as int),
                w == (|c: char| is_white(c)),
                forall|k: int| 0 <= k < lo - i ==> w(#[trigger] rest[k]),
            decreases s.len() - lo,
        {
            assert(rest[lo - i] == s@[lo as int]);
            lo += 1;
        }
        proof {
            if lo < s.len() {
                assert(rest[lo - i] == s@[lo as int]);
            }
            lemma_leading(rest, w, lo - i);
        }
        let ghost t: Seq<char> = trim_start(rest);
        assert(t =~= s@.skip(lo as int));
        if lo == s.len() {
            assert(goal =~= views(r@));
            return r;
        }
        let mut hi: usize = lo;
        while hi < s.len() && !white(s[hi])
            invariant
                lo <= hi <= s@.len(),
                t == s@.skip(lo as int),
                nw == (|c: char| !is_white(c)),
                forall|k: int| 0 <= k < hi - lo ==> nw(#[trigger] t[k]),
            decreases s.len() - hi,
        {
            assert(t[hi - lo] == s@[hi as int]);
            hi += 1;
        }
        proof {
            if hi < s.len() {
                assert(t[hi - lo] == s@[hi as int]);
            }
            lemma_leading(t, nw, hi - lo);
            if hi == lo {
                assert(t[0] == s@[lo as int]);
            }
        }
        let piece: Vec<char> = slice_of(s, lo, hi);
        r.push(piece);
        proof {
            let k: int = hi - lo;
            assert(piece@ =~= t.take(k));
            assert(t.skip(k) =~= s@.skip(hi as int));
            assert(views(r@) =~= views(before).push(t.take(k)));
            assert(views(before) + (seq![t.take(k)] + words(s@.skip(hi as int))) =~= views(r@) + words(
                s@.skip(hi as int),
            ));
        }
        i = hi;
    }
}

/// The ASCII letter that a capital letter turns into: those from A to Z, and
/// the Kelvin sign, whose small letter is k. Any other character stays. A
/// text that turns into an ASCII word this way is one whose small letters
/// spell that word.
pub open spec fn small(c: char) -> char {
    if 'A' <= c <= 'Z' {
        (c as int + 32) as char
    } else if c as int == 0x212a {
        'k'
    } else {
        c
    }
}

/// A text with small letters for capital ones.
pub open spec fn folded(s: Seq<char>) -> Seq<char> {
    Seq::new(s.len(), |i: int| small(s[i]))
}

/// The small letter of an ASCII capital; any other character stays.
pub open spec fn ascii_small(c: char) -> char {
    if 'A' <= c <= 'Z' {
        (c as int + 32) as char
    } else {
        c
    }
}

/// A text with small letters for ASCII capitals.
pub open spec fn ascii_folded(s: Seq<char>) -> Seq<char> {
    Seq::new(s.len(), |i: int| ascii_small(s[i]))
}

fn small_ascii(c: char) -> (r: char)
    ensures
        r == ascii_small(c),
{
    if 'A' <= c && c <= 'Z' {
        (c as u8 + 32) as char
    } else {
        c
    }
}

/// A text with small letters for capital ones.
pub fn fold(s: &Vec<char>) -> (r: Vec<char>)
    ensures
        r@ == folded(s@),
{
    let mut r: Vec<char> = Vec::new();
    let mut i: usize = 0;
    while i < s.len()
        invariant
            i <= s.len(),
            r@ =~= folded(s@).take(i as int),
        decreases s.len() - i,
    {
        if s[i] as u32 == 0x212a {
            r.push('k');
        } else {
            r.push(small_ascii(s[i]));
        }
        i += 1;
    }
    assert(r@ =~= folded(s@));
    r
}

/// A text with small letters for ASCII capitals.
pub fn ascii_fold(s: &Vec<char>) -> (r: Vec<char>)
    ensures
        r@ == ascii_folded(s@),
{
    let mut r: Vec<char> = Vec::new();
    let mut i: usize = 0;
    while i < s.len()
        invariant
            i <= s.len(),
            r@ =~= ascii_folded(s@).take(i as int),
        decreases s.len() - i,
    {
        r.push(small_ascii(s[i]));
        i += 1;
    }
    assert(r@ =~= ascii_folded(s@));
    r
}

pub open spec fn is_digit(c: char) -> bool {
    '0' <= c <= '9'
}

pub open spec fn all_digits(s: Seq<char>) -> bool {
    forall|i: int| 0 <= i < s.len() ==> is_digit(#[trigger] s[i])
}

pub open spec fn digit_of(c: char) -> int {
    c as int - 48
}

pub open spec fn digit_char(d: int) -> char {
    (48 + d) as char
}

/// The number that a run of digits stands for.
pub open spec fn digits_value(s: Seq<char>) -> int
    decreases s.len(),
{
    if s.len() == 0 {
        0
    } else {
        digits_value(s.drop_last()) * 10 + digit_of(s.last())
    }
}

/// The number that a text stands for, if it is one that is at most `max`: an
/// optional plus sign and one or more digits.
pub open spec fn unsigned_value(s: Seq<char>, max: int) -> Option<int> {
    let body = if s.len() > 0 && s[0] == '+' { s.drop_first() } else { s };
    if body.len() > 0 && all_digits(body) && digits_value(body) <= max {
        Some(digits_value(body))
    } else {
        None
    }
}

/// The number that a text stands for, if it is one between `min` and `max`:
/// an optional sign and one or more digits.
pub open spec fn signed_value(s: Seq<char>, min: int, max: int) -> Option<int> {
    if s.len() > 0 && s[0] == '-' {
        let body = s.drop_first();
        if body.len() > 0 && all_digits(body) && -digits_value(body) >= min {
            Some(-digits_value(body))
        } else {
            None
        }
    } else {
        unsigned_value(s, max)
    }
}

/// The decimal digits of a number.
pub open spec fn decimal(n: int) -> Seq<char>
    decreases n,
{
    if n < 10 {
        seq![digit_char(n)]
    } else {
        decimal(n / 10).push(digit_char(n % 10))
    }
}

/// The last `width` decimal digits of a number, with leading zeros.
pub open spec fn padded(n: int, width: nat) -> Seq<char>
    decreases width,
{
    if width == 0 {
        Seq::empty()
    } else {
        padded(n / 10, (width - 1) as nat).push(digit_char(n % 10))
    }
}

fn digit(d: u8) -> (r: char)
    requires
        d < 10,
    ensures
        r == digit_char(d as int),
{
    (48u8 + d) as char
}

pub fn is_digit_char(c: char) -> (r: bool)
    ensures
        r == is_digit(c),
{
    '0' <= c && c <= '9'
}

pub fn value_of_digit(c: char) -> (r: u8)
    requires
        is_digit(c),
    ensures
        r == digit_of(c),
        r < 10,
{
    (c as u32 - 48) as u8
}

pub proof fn lemma_digits_value_bounds(s: Seq<char>)
    requires
        all_digits(s),
    ensures
        digits_value(s) >= 0,
    decreases s.len(),
{
    if s.len() > 0 {
        assert(is_digit(s[s.len() - 1]));
        assert(all_digits(s.drop_last())) by {
            assert forall|i: int| 0 <= i < s.drop_last().len() implies is_digit(#[trigger] s.drop_last()[i]) by {
                assert(is_digit(s[i]));
            }
        }
        lemma_digits_value_bounds(s.drop_last());
    }
}

/// More digits never make a number smaller.
proof fn lemma_digits_value_grows(s: Seq<char>, i: int)
    requires
        all_digits(s),
        0 <= i <= s.len(),
    ensures
        0 <= digits_value(s.take(i)) <= digits_value(s),
    decreases s.len() - i,
{
    assert(all_digits(s.take(i))) by {
        assert forall|k: int| 0 <= k < s.take(i).len() implies is_digit(#[trigger] s.take(i)[k]) by {
            assert(is_digit(s[k]));
        }
    }
    lemma_digits_value_bounds(s.take(i));
    if i < s.len() {
        assert(s.take(i + 1).drop_last() =~= s.take(i));
        assert(is_digit(s[i]));
        lemma_digits_value_grows(s, i + 1);
    } else {
        assert(s.take(i) =~= s);
    }
}

/// The number in a run of digits, if it is one and at most `max`.
fn parse_digits(s: &Vec<char>, from: usize, max: u128) -> (r: Option<u128>)
    requires
        from <= s@.len(),
    ensures
        ({
            let body = s@.skip(from as int);
            match r {
                Some(n) => body.len() > 0 && all_digits(body) && n == digits_value(body) && n <= max,
                None => !(body.len() > 0 && all_digits(body) && digits_value(body) <= max),
            }
        }),
{
    let ghost body: Seq<char> = s@.skip(from as int);
    if from == s.len() {
        return None;
    }
    let mut n: u128 = 0;
    let mut i: usize = from;
    assert(body.take(0) =~= Seq::<char>::empty());
    while i < s.len()
        invariant
            from <= i <= s@.len(),
            body == s@.skip(from as int),
            forall|k: int| 0 <= k < i - from ==> is_digit(#[trigger] body[k]),
            n == digits_value(body.take(i - from)),
            n <= max,
        decreases s.len() - i,
    {
        let c: char = s[i];
        assert(body[i - from] == c);
        if !is_digit_char(c) {
            return None;
        }
        let d: u128 = value_of_digit(c) as u128;
        proof {
            assert(body.take(i - from + 1).drop_last() =~= body.take(i - from));
            if all_digits(body) {
                lemma_digits_value_grows(body, i - from + 1);
            }
        }
        if n > (u128::MAX - d) / 10 {
            return None;
        }
        n = n * 10 + d;
        if n > max {
            return None;
        }
        i += 1;
    }
    assert(body.take(i - from) =~= body);
    Some(n)
}

/// Reads an unsigned decimal number that is at most `max`.
pub fn parse_unsigned(s: &Vec<char>, max: u128) -> (r: Option<u128>)
    ensures
        match r {
            Some(n) => unsigned_value(s@, max as int) == Some(n as int),
            None => unsigned_value(s@, max as int) is None,
        },
{
    if s.len() > 0 && s[0] == '+' {
        assert(s@.skip(1) =~= s@.drop_first());
        parse_digits(s, 1, max)
    } else {
        assert(s@.skip(0) =~= s@);
        parse_digits(s, 0, max)
    }
}

pub fn parse_u128(s: &Vec<char>) -> (r: Option<u128>)
    ensures
        match r {
            Some(n) => unsigned_value(s@, u128::MAX as int) == Some(n as int),
            None => unsigned_value(s@, u128::MAX as int) is None,
        },
{
    parse_unsigned(s, u128::MAX)
}

pub fn parse_u64(s: &Vec<char>) -> (r: Option<u64>)
    ensures
        match r {
            Some(n) => unsigned_value(s@, u64::MAX as int) == Some(n as int),
            None => unsigned_value(s@, u64::MAX as int) is None,
        },
{
    match parse_unsigned(s, u64::MAX as u128) {
        Some(n) => Some(n as u64),
        None => None,
    }
}

pub fn parse_u32(s: &Vec<char>) -> (r: Option<u32>)
    ensures
        match r {
            Some(n) => unsigned_value(s@, u32::MAX as int) == Some(n as int),
            None => unsigned_value(s@, u32::MAX as int) is None,
        },
{
    match parse_unsigned(s, u32::MAX as u128) {
        Some(n) => Some(n as u32),
        None => None,
    }
}

pub fn parse_u8(s: &Vec<char>) -> (r: Option<u8>)
    ensures
        match r {
            Some(n) => unsigned_value(s@, u8::MAX as int) == Some(n as int),
            None => unsigned_value(s@, u8::MAX as int) is None,
        },
{
    match parse_unsigned(s, u8::MAX as u128) {
        Some(n) => Some(n as u8),
        None => None,
    }
}

pub fn parse_i64(s: &Vec<char>) -> (r: Option<i64>)
    ensures
        match r {
            Some(n) => signed_value(s@, i64::MIN as int, i64::MAX as int) == Some(n as int),
            None => signed_value(s@, i64::MIN as int, i64::MAX as int) is None,
        },
{
    if s.len() > 0 && s[0] == '-' {
        assert(s@.skip(1) =~= s@.drop_first());
        match parse_digits(s, 1, 9_223_372_036_854_775_808u128) {
            Some(n) => if n == 9_223_372_036_854_775_808u128 {
                Some(i64::MIN)
            } else {
                Some(-(n as i64))
            },
            None => None,
        }
    } else {
        match parse_unsigned(s, i64::MAX as u128) {
            Some(n) => Some(n as i64),
            None => None,
        }
    }
}

/// The decimal digits of a number.
pub fn decimal_of(n: u128) -> (r: Vec<char>)
    ensures
        r@ == decimal(n as int),
    decreases n,
{
    if n < 10 {
        let mut r: Vec<char> = Vec::new();
        r.push(digit(n as u8));
        assert(r@ =~= decimal(n as int));
        r
    } else {
        let mut r: Vec<char> = decimal_of(n / 10);
        r.push(digit((n % 10) as u8));
        r
    }
}

/// The last `width` decimal digits of a number, with leading zeros.
pub fn padded_of(n: u128, width: usize) -> (r: Vec<char>)
    ensures
        r@ == padded(n as int, width as nat),
    decreases width,
{
    if width == 0 {
        let r: Vec<char> = Vec::new();
        assert(r@ =~= padded(n as int, 0));
        r
    } else {
        let mut r: Vec<char> = padded_of(n / 10, width - 1);
        r.push(digit((n % 10) as u8));
        r
    }
}

/// The decimal digits of a number read back as that number.
pub proof fn law_decimal_reads_back(n: int, max: int)
    requires
        0 <= n <= max,
    ensures
        unsigned_value(decimal(n), max) == Some(n),
{
    lemma_decimal(n);
    assert(is_digit(decimal(n)[0]));
}

proof fn lemma_digit_char(d: int)
    requires
        0 <= d < 10,
    ensures
        is_digit(digit_char(d)),
        digit_of(digit_char(d)) == d,
{
}

pub proof fn lemma_decimal(n: int)
    requires
        0 <= n,
    ensures
        decimal(n).len() > 0,
        all_digits(decimal(n)),
        digits_value(decimal(n)) == n,
    decreases n,
{
    lemma_digit_char(n % 10);
    if n < 10 {
        lemma_digit_char(n);
        assert(decimal(n).drop_last() =~= Seq::<char>::empty());
        assert(digits_value(decimal(n).drop_last()) == 0);
        assert(decimal(n).last() == digit_char(n));
    } else {
        lemma_decimal(n / 10);
        assert(decimal(n).drop_last() =~= decimal(n / 10));
        assert forall|i: int| 0 <= i < decimal(n).len() implies is_digit(#[trigger] decimal(n)[i]) by {
            if i < decimal(n).len() - 1 {
                assert(is_digit(decimal(n / 10)[i]));
            }
        }
    }
}

/// Padding keeps the number, as long as it has no more digits than there is
/// room for.
pub proof fn lemma_padded(n: int, width: nat)
    requires
        0 <= n,
    ensures
        padded(n, width).len() == width,
        all_digits(padded(n, width)),
        n < vstd::arithmetic::power::pow(10, width) ==> digits_value(padded(n, width)) == n,
    decreases width,
{
    vstd::arithmetic::power::lemma_pow_positive(10, width);
    if width == 0 {
        vstd::arithmetic::power::lemma_pow0(10);
    } else {
        lemma_padded(n / 10, (width - 1) as nat);
        lemma_digit_char(n % 10);
        let p: Seq<char> = padded(n, width);
        assert(p.drop_last() =~= padded(n / 10, (width - 1) as nat));
        reveal(vstd::arithmetic::power::pow);
        assert(vstd::arithmetic::power::pow(10, width) == 10 * vstd::arithmetic::power::pow(10, (width - 1) as nat));
        assert forall|i: int| 0 <= i < p.len() implies is_digit(#[trigger] p[i]) by {
            if i < p.len() - 1 {
                assert(is_digit(padded(n / 10, (width - 1) as nat)[i]));
            }
        }
    }
}

} // verus!
