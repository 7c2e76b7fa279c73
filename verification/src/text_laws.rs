//! What trimming, splitting and reading numbers make of a text, in terms of its
//! characters.

use vstd::prelude::*;
use crate::seqs::{leading, lemma_leading_run};
use crate::text::{
    all_digits, decimal, digits_value, folded, is_digit, is_white, joined, lacks, lemma_joined_front,
    lemma_split_lacks, lines, other_than, signed_value, small, split, split_once, trim, trim_end, trim_start,
    unsigned_value, without_return, words,
};

verus! {

/// White space, as the Unicode standard has it.
pub open spec fn is_space(c: char) -> bool {
    let n = c as int;
    n == 9 || n == 10 || n == 11 || n == 12 || n == 13 || n == 32 || n == 133 || n == 160 || n == 5760 || (8192 <= n
        && n <= 8202) || n == 8232 || n == 8233 || n == 8239 || n == 8287 || n == 12288
}

proof fn lemma_end(s: Seq<char>)
    ensures
        ({
            let t = trim_end(s);
            &&& t.len() <= s.len()
            &&& t == s.take(t.len() as int)
            &&& t.len() > 0 ==> !is_space(t.last())
            &&& forall|i: int| t.len() <= i < s.len() ==> is_space(#[trigger] s[i])
        }),
    decreases s.len(),
{
    if s.len() > 0 && is_white(s.last()) {
        let short: Seq<char> = s.drop_last();
        lemma_end(short);
        let t: Seq<char> = trim_end(s);
        assert(t =~= s.take(t.len() as int));
        assert forall|i: int| t.len() <= i < s.len() implies is_space(#[trigger] s[i]) by {
            if i < short.len() {
                assert(short[i] == s[i]);
            }
        }
    } else {
        assert(s.take(s.len() as int) =~= s);
    }
}

/// Trimming takes off white space at both ends, all of it and nothing else.
pub proof fn law_trim_takes_white_space_off(s: Seq<char>) -> (at: (int, int))
    ensures
        0 <= at.0 <= at.1 <= s.len(),
        trim(s) == s.subrange(at.0, at.1),
        forall|i: int| 0 <= i < at.0 ==> is_space(#[trigger] s[i]),
        forall|i: int| at.1 <= i < s.len() ==> is_space(#[trigger] s[i]),
        trim(s).len() > 0 ==> !is_space(trim(s)[0]) && !is_space(trim(s).last()),
{
    let w = |c: char| is_white(c);
    lemma_leading_run(s, w);
    let lo: int = leading(s, w) as int;
    let mid: Seq<char> = trim_start(s);
    lemma_end(mid);
    let hi: int = lo + trim(s).len();
    assert(trim(s) =~= s.subrange(lo, hi));
    assert forall|i: int| 0 <= i < lo implies is_space(#[trigger] s[i]) by {
        assert(w(s[i]));
    }
    assert forall|i: int| hi <= i < s.len() implies is_space(#[trigger] s[i]) by {
        assert(mid[i - lo] == s[i]);
    }
    if trim(s).len() > 0 {
        assert(trim(s)[0] == s[lo]);
        assert(!w(s[lo]));
    }
    (lo, hi)
}

/// Splitting takes a text apart at every separator and nowhere else: the
/// pieces have none, and with one between each two they are the text again.
pub proof fn law_pieces_make_the_text(s: Seq<char>, sep: char)
    ensures
        split(s, sep).len() > 0,
        joined(split(s, sep), sep) == s,
        forall|i: int, k: int|
            0 <= i < split(s, sep).len() && 0 <= k < split(s, sep)[i].len() ==> #[trigger] split(s, sep)[i][k] != sep,
    decreases s.len(),
{
    let p = other_than(sep);
    lemma_leading_run(s, p);
    lemma_split_lacks(s, sep);
    assert forall|i: int, k: int|
        0 <= i < split(s, sep).len() && 0 <= k < split(s, sep)[i].len() implies #[trigger] split(s, sep)[i][k] != sep by {
        assert(lacks(split(s, sep)[i], sep));
    }
    let k: int = leading(s, p) as int;
    if k < s.len() {
        let rest: Seq<char> = s.skip(k + 1);
        law_pieces_make_the_text(rest, sep);
        let parts: Seq<Seq<char>> = split(s, sep);
        assert(parts == seq![s.take(k)] + split(rest, sep));
        assert(parts[0] == s.take(k));
        assert(parts.drop_first() =~= split(rest, sep));
        lemma_joined_front(parts, sep);
        assert(s[k] == sep);
        assert(s.take(k).push(sep) + rest =~= s);
    } else {
        let parts: Seq<Seq<char>> = split(s, sep);
        assert(parts.len() == 1 && parts[0] == s);
    }
}

/// A text is cut in two at its first separator, if it has one.
pub proof fn law_cut_at_the_first(s: Seq<char>, sep: char)
    ensures
        match split_once(s, sep) {
            Some((a, b)) => {
                &&& s == a.push(sep) + b
                &&& forall|i: int| 0 <= i < a.len() ==> #[trigger] a[i] != sep
            },
            None => forall|i: int| 0 <= i < s.len() ==> #[trigger] s[i] != sep,
        },
{
    let p = other_than(sep);
    lemma_leading_run(s, p);
    let k: int = leading(s, p) as int;
    assert forall|i: int| 0 <= i < k implies #[trigger] s[i] != sep by {
        assert(p(s[i]));
    }
    if k < s.len() {
        assert(s[k] == sep);
        assert(s.take(k).push(sep) + s.skip(k + 1) =~= s);
    }
}

/// The characters that are no white space.
pub open spec fn solid(s: Seq<char>) -> Seq<char> {
    s.filter(|c: char| !is_space(c))
}

/// Texts one after the other.
pub open spec fn run_together(parts: Seq<Seq<char>>) -> Seq<char>
    decreases parts.len(),
{
    if parts.len() == 0 {
        Seq::empty()
    } else {
        parts[0] + run_together(parts.drop_first())
    }
}

/// The words of a text have no white space in them and are not empty; together
/// they are all of the text that is no white space.
pub proof fn law_words_leave_white_space_out(s: Seq<char>)
    ensures
        run_together(words(s)) == solid(s),
        forall|i: int| 0 <= i < words(s).len() ==> (#[trigger] words(s)[i]).len() > 0,
        forall|i: int, k: int|
            0 <= i < words(s).len() && 0 <= k < words(s)[i].len() ==> !is_space(#[trigger] words(s)[i][k]),
    decreases s.len(),
{
    let w = |c: char| is_white(c);
    let n = |c: char| !is_white(c);
    lemma_leading_run(s, w);
    let lo: int = leading(s, w) as int;
    let t: Seq<char> = trim_start(s);
    lemma_all_out(s.take(lo));
    assert(s =~= s.take(lo) + t);
    lemma_solid_add(s.take(lo), t);
    if t.len() > 0 {
        lemma_leading_run(t, n);
        let k: int = leading(t, n) as int;
        assert(t[0] == s[lo]);
        assert(!w(s[lo]));
        let rest: Seq<char> = t.skip(k);
        law_words_leave_white_space_out(rest);
        let head: Seq<char> = t.take(k);
        let all: Seq<Seq<char>> = words(s);
        assert(all == seq![head] + words(rest));
        assert(all[0] == head);
        assert(all.drop_first() =~= words(rest));
        assert forall|i: int| 0 <= i < head.len() implies !is_space(#[trigger] head[i]) by {
            assert(n(t[i]));
        }
        lemma_all_in(head);
        assert(t =~= head + rest);
        lemma_solid_add(head, rest);
        assert(solid(s.take(lo)) + solid(t) =~= solid(t));
        assert forall|i: int| 0 <= i < all.len() implies (#[trigger] all[i]).len() > 0 by {
            if i > 0 {
                assert(all[i] == words(rest)[i - 1]);
            } else {
                assert(n(t[0]));
            }
        }
        assert forall|i: int, j: int| 0 <= i < all.len() && 0 <= j < all[i].len() implies !is_space(#[trigger] all[i][j]) by {
            if i > 0 {
                assert(all[i] == words(rest)[i - 1]);
            }
        }
    } else {
        assert(solid(t) =~= Seq::<char>::empty()) by {
            reveal(Seq::filter);
        }
        assert(solid(s) =~= Seq::<char>::empty());
    }
}

proof fn lemma_all_out(s: Seq<char>)
    requires
        forall|i: int| 0 <= i < s.len() ==> is_white(#[trigger] s[i]),
    ensures
        solid(s) == Seq::<char>::empty(),
    decreases s.len(),
{
    reveal(Seq::filter);
    if s.len() > 0 {
        let short: Seq<char> = s.drop_last();
        assert forall|i: int| 0 <= i < short.len() implies is_white(#[trigger] short[i]) by {
            assert(short[i] == s[i]);
        }
        lemma_all_out(short);
        assert(is_white(s[s.len() - 1]));
    }
    assert(solid(s) =~= Seq::<char>::empty());
}

proof fn lemma_all_in(s: Seq<char>)
    requires
        forall|i: int| 0 <= i < s.len() ==> !is_space(#[trigger] s[i]),
    ensures
        solid(s) == s,
    decreases s.len(),
{
    reveal(Seq::filter);
    if s.len() > 0 {
        let short: Seq<char> = s.drop_last();
        assert forall|i: int| 0 <= i < short.len() implies !is_space(#[trigger] short[i]) by {
            assert(short[i] == s[i]);
        }
        lemma_all_in(short);
        assert(!is_space(s[s.len() - 1]));
    }
    assert(solid(s) =~= s);
}

proof fn lemma_solid_add(a: Seq<char>, b: Seq<char>)
    ensures
        solid(a + b) == solid(a) + solid(b),
{
    Seq::filter_distributes_over_add(a, b, |c: char| !is_space(c));
}

/// A text without the plus sign that it may start with.
pub open spec fn unsigned_part(s: Seq<char>) -> Seq<char> {
    if s.len() > 0 && s[0] == '+' {
        s.skip(1)
    } else {
        s
    }
}

/// One or more digits.
pub open spec fn is_number(s: Seq<char>) -> bool {
    s.len() > 0 && forall|i: int| 0 <= i < s.len() ==> 48 <= #[trigger] s[i] as int <= 57
}

/// A number is read from one or more digits, after a plus sign or without one,
/// as long as it is not too large, and from nothing else. Its last digit is what
/// the last character says, and the rest of it what the characters before say.
pub proof fn law_numbers_are_read_from_digits(s: Seq<char>, max: int)
    ensures
        unsigned_value(s, max) matches Some(n) ==> {
            let body = unsigned_part(s);
            &&& is_number(body)
            &&& 0 <= n <= max
            &&& body.len() == 1 ==> n == body[0] as int - 48
            &&& body.len() > 1 ==> n % 10 == body.last() as int - 48 && unsigned_value(body.drop_last(), max) == Some(
                n / 10,
            )
        },
        unsigned_value(s, max) is None ==> !is_number(unsigned_part(s)) || digits_value(unsigned_part(s)) > max,
        s.len() > 0 && s[0] != '-' ==> signed_value(s, i64::MIN as int, max) == unsigned_value(s, max),
{
    let body: Seq<char> = if s.len() > 0 && s[0] == '+' {
        s.drop_first()
    } else {
        s
    };
    assert(s.len() > 0 ==> s.drop_first() =~= s.skip(1));
    assert(body == unsigned_part(s));
    if body.len() > 0 && all_digits(body) {
        crate::text::lemma_digits_value_bounds(body);
        let short: Seq<char> = body.drop_last();
        assert(is_digit(body[body.len() - 1]));
        assert(is_digit(body[0]));
        assert(all_digits(short)) by {
            assert forall|i: int| 0 <= i < short.len() implies is_digit(#[trigger] short[i]) by {
                assert(is_digit(body[i]));
            }
        }
        crate::text::lemma_digits_value_bounds(short);
        assert forall|i: int| 0 <= i < body.len() implies 48 <= #[trigger] body[i] as int <= 57 by {
            assert(is_digit(body[i]));
        }
        if body.len() == 1 {
            assert(digits_value(short) == 0);
        } else {
            assert(short[0] == body[0]);
        }
    } else if body.len() > 0 {
        let i: int = choose|i: int| 0 <= i < body.len() && !is_digit(#[trigger] body[i]);
        assert(!(48 <= body[i] as int <= 57));
        assert(!is_number(body));
    }
}

/// A number with a minus sign reads as the negative of the number without it.
pub proof fn law_minus_sign_negates(n: int)
    requires
        0 <= n <= i64::MAX,
    ensures
        signed_value(seq!['-'] + decimal(n), i64::MIN as int, i64::MAX as int) == Some(-n),
        signed_value(decimal(n), i64::MIN as int, i64::MAX as int) == Some(n),
{
    crate::text::lemma_decimal(n);
    crate::text::law_decimal_reads_back(n, i64::MAX as int);
    let s: Seq<char> = seq!['-'] + decimal(n);
    assert(s.drop_first() =~= decimal(n));
    assert(s[0] == '-');
    assert(is_digit(decimal(n)[0]));
}

/// Lines that each end in a line feed, or in a carriage return and a line
/// feed, are taken apart there: what is read are the lines without their ends.
pub proof fn law_ended_lines_read_back(body: Seq<Seq<char>>, last: Seq<char>)
    requires
        forall|i: int| 0 <= i < body.len() ==> lacks(#[trigger] body[i], '\n'),
        lacks(last, '\n'),
    ensures
        lines(joined(body.push(last), '\n')) == Seq::new(body.len(), |i: int| without_return(body[i])) + (
        if last.len() == 0 {
            Seq::empty()
        } else {
            seq![last]
        }),
        forall|s: Seq<char>| (#[trigger] without_return(s)) == s || s == without_return(s).push('\r'),
{
    let parts: Seq<Seq<char>> = body.push(last);
    assert forall|i: int| 0 <= i < parts.len() implies lacks(#[trigger] parts[i], '\n') by {
        if i < body.len() {
            assert(parts[i] == body[i]);
        }
    }
    crate::text::lemma_split_joined(parts, '\n');
    let ended: Seq<Seq<char>> = Seq::new(body.len(), |i: int| without_return(body[i]));
    let text: Seq<char> = joined(parts, '\n');
    assert(split(text, '\n') == parts);
    assert(parts.last() == last);
    assert(Seq::new((parts.len() - 1) as nat, |i: int| without_return(parts[i])) =~= ended);
    if last.len() == 0 {
        assert(ended + Seq::<Seq<char>>::empty() =~= ended);
    } else {
        assert(ended + seq![last] =~= ended.push(last));
    }
    assert forall|s: Seq<char>| (#[trigger] without_return(s)) == s || s == without_return(s).push('\r') by {
        if s.len() > 0 && s.last() == '\r' {
            assert(s.drop_last().push('\r') =~= s);
        }
    }
}

/// Small letters stay as they are, and a capital reads like its small letter;
/// so folding twice is folding once.
pub proof fn law_folding_settles(s: Seq<char>)
    ensures
        folded(folded(s)) == folded(s),
        forall|i: int|
            0 <= i < s.len() ==> {
                &&& 97 <= #[trigger] s[i] as int <= 122 ==> folded(s)[i] == s[i]
                &&& 65 <= s[i] as int <= 90 ==> folded(s)[i] as int == s[i] as int + 32
            },
{
    assert(folded(folded(s)) =~= folded(s));
}

} // verus!
