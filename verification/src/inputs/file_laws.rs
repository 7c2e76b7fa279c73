//! What is read of a data file, in terms of its lines, and which files are
//! read, how, and in which order, in terms of their names.

use vstd::prelude::*;
use crate::inputs::files::{by_parts, extension, kind_of, path_le, FileKind};
use crate::inputs::notation_laws::{law_sizes_are_rounded_by_the_first_decimal, with_decimals};
use crate::inputs::simulator::{
    csv_reads_as, dataset_ts, is_header, is_malformed, is_row_order, line_numbers, malformed_lines, rows, trimmed_rows,
    yields_order, FileRecords, RunStats,
};
use crate::lexical::lemma_text_le_prefix;
use crate::seqs::total;
use crate::text::{decimal, joined, lacks, lemma_split_joined, lemma_split_lacks, lemma_split_none, lines, split, trim};

verus! {

/// One for a line that is not blank and holds such a row.
pub open spec fn line_part(p: spec_fn(Seq<char>) -> bool) -> spec_fn(Seq<char>) -> int {
    |line: Seq<char>|
        if trim(line).len() > 0 && p(trim(line)) {
            1
        } else {
            0
        }
}

/// How many lines are not blank and hold such a row.
pub open spec fn count_lines(body: Seq<Seq<char>>, p: spec_fn(Seq<char>) -> bool) -> int {
    total(body, line_part(p))
}

proof fn lemma_count_lines(body: Seq<Seq<char>>, p: spec_fn(Seq<char>) -> bool)
    ensures
        trimmed_rows(body).filter(p).len() == count_lines(body, p),
        trimmed_rows(body).len() == count_lines(body, |row: Seq<char>| true),
    decreases body.len(),
{
    reveal(Seq::filter);
    if body.len() > 0 {
        let before: Seq<Seq<char>> = body.drop_last();
        lemma_count_lines(before, p);
        let earlier: Seq<Seq<char>> = trimmed_rows(before);
        let row: Seq<char> = trim(body.last());
        if row.len() > 0 {
            assert(earlier.push(row).drop_last() =~= earlier);
        }
    }
}

/// Where such rows stand among the lines, in their order.
pub open spec fn stand_at(body: Seq<Seq<char>>, p: spec_fn(Seq<char>) -> bool, kept: Seq<Seq<char>>, at: Seq<int>) -> bool {
    &&& at.len() == kept.len()
    &&& forall|i: int|
        0 <= i < at.len() ==> 0 <= #[trigger] at[i] < body.len() && kept[i] == trim(body[at[i]]) && p(kept[i])
    &&& forall|i: int, j: int| 0 <= i < j < at.len() ==> #[trigger] at[i] < #[trigger] at[j]
}

proof fn lemma_stand_at(body: Seq<Seq<char>>, p: spec_fn(Seq<char>) -> bool) -> (at: Seq<int>)
    ensures
        stand_at(body, p, trimmed_rows(body).filter(p), at),
    decreases body.len(),
{
    reveal(Seq::filter);
    if body.len() == 0 {
        Seq::empty()
    } else {
        let before: Seq<Seq<char>> = body.drop_last();
        let earlier: Seq<int> = lemma_stand_at(before, p);
        let row: Seq<char> = trim(body.last());
        let kept: Seq<Seq<char>> = trimmed_rows(body).filter(p);
        if row.len() > 0 {
            assert(trimmed_rows(before).push(row).drop_last() =~= trimmed_rows(before));
        }
        let at: Seq<int> = if row.len() > 0 && p(row) {
            earlier.push(body.len() - 1)
        } else {
            earlier
        };
        assert forall|i: int| 0 <= i < at.len() implies 0 <= #[trigger] at[i] < body.len() && kept[i] == trim(
            body[at[i]],
        ) && p(kept[i]) by {
            if i < earlier.len() {
                assert(at[i] == earlier[i]);
                assert(before[earlier[i]] == body[earlier[i]]);
            }
        }
        assert forall|i: int, j: int| 0 <= i < j < at.len() implies #[trigger] at[i] < #[trigger] at[j] by {
            assert(at[i] == earlier[i]);
            if j < earlier.len() {
                assert(at[j] == earlier[j]);
            }
        }
        at
    }
}

/// Every line of a text file after its first that is not blank is counted once,
/// as seen if it can be read and as skipped if not; so many of them give an
/// order as hold one. The orders come in the order of their lines, and the
/// numbers of the skipped lines count from one at the header. The first moment
/// is that of the first line that can be read.
pub proof fn law_text_file_is_read_line_by_line(contents: Seq<char>, r: FileRecords) -> (at: Seq<int>)
    requires
        csv_reads_as(contents, r),
        lines(contents).len() > 0,
        is_header(lines(contents)[0]),
    ensures
        ({
            let body = lines(contents).skip(1);
            &&& !r.dropped
            &&& r.seen == count_lines(body, |row: Seq<char>| !is_malformed(row))
            &&& r.skipped == count_lines(body, |row: Seq<char>| is_malformed(row))
            &&& r.orders@.len() == count_lines(body, |row: Seq<char>| yields_order(row))
            &&& line_numbers(r.malformed@) == malformed_lines(body, 2)
            &&& at.len() == r.orders@.len()
            &&& forall|i: int|
                0 <= i < at.len() ==> 0 <= #[trigger] at[i] < body.len() && is_row_order(
                    r.orders@[i],
                    trim(body[at[i]]),
                ) && yields_order(trim(body[at[i]]))
            &&& forall|i: int, j: int| 0 <= i < j < at.len() ==> #[trigger] at[i] < #[trigger] at[j]
            &&& match r.first_ts {
                Some(ts) => exists|k: int|
                    #![trigger body[k]]
                    0 <= k < body.len() && readable(body[k]) && dataset_ts(split(trim(body[k]), ',')[0]) == Some(
                        ts as int,
                    ) && forall|j: int| 0 <= j < k ==> !readable(#[trigger] body[j]),
                None => forall|k: int| 0 <= k < body.len() ==> !readable(#[trigger] body[k]),
            }
        }),
{
    let body: Seq<Seq<char>> = lines(contents).skip(1);
    let yields = |row: Seq<char>| yields_order(row);
    let bad = |row: Seq<char>| is_malformed(row);
    let good = |row: Seq<char>| !is_malformed(row);
    lemma_count_lines(body, yields);
    lemma_count_lines(body, bad);
    lemma_count_lines(body, good);
    lemma_good_and_bad(body);
    let at: Seq<int> = lemma_stand_at(body, yields);
    lemma_first_readable(body);
    assert forall|i: int| 0 <= i < at.len() implies 0 <= #[trigger] at[i] < body.len() && is_row_order(
        r.orders@[i],
        trim(body[at[i]]),
    ) && yields_order(trim(body[at[i]])) by {
        assert(is_row_order(r.orders@[i], rows(contents).filter(yields)[i]));
    }
    let moments = rows(contents).filter(good);
    if moments.len() > 0 {
        let k: int = choose|k: int|
            #![trigger body[k]]
            0 <= k < body.len() && readable(body[k]) && moments[0] == trim(body[k]) && forall|j: int|
                0 <= j < k ==> !readable(#[trigger] body[j]);
        assert(readable(body[k]));
        assert(!is_malformed(moments[0]));
    }
    at
}

/// A line that is not blank and can be read.
pub open spec fn readable(line: Seq<char>) -> bool {
    trim(line).len() > 0 && !is_malformed(trim(line))
}

proof fn lemma_good_and_bad(body: Seq<Seq<char>>)
    ensures
        count_lines(body, |row: Seq<char>| !is_malformed(row)) + count_lines(body, |row: Seq<char>| is_malformed(row))
            == count_lines(body, |row: Seq<char>| true),
    decreases body.len(),
{
    if body.len() > 0 {
        lemma_good_and_bad(body.drop_last());
    }
}

proof fn lemma_first_readable(body: Seq<Seq<char>>)
    ensures
        ({
            let good = trimmed_rows(body).filter(|row: Seq<char>| !is_malformed(row));
            &&& good.len() > 0 ==> exists|k: int|
                #![trigger body[k]]
                0 <= k < body.len() && readable(body[k]) && good[0] == trim(body[k]) && forall|j: int|
                    0 <= j < k ==> !readable(#[trigger] body[j])
            &&& good.len() == 0 ==> forall|k: int| 0 <= k < body.len() ==> !readable(#[trigger] body[k])
        }),
    decreases body.len(),
{
    reveal(Seq::filter);
    if body.len() > 0 {
        let p = |row: Seq<char>| !is_malformed(row);
        let before: Seq<Seq<char>> = body.drop_last();
        lemma_first_readable(before);
        let row: Seq<char> = trim(body.last());
        if row.len() > 0 {
            assert(trimmed_rows(before).push(row).drop_last() =~= trimmed_rows(before));
        }
        let earlier: Seq<Seq<char>> = trimmed_rows(before).filter(p);
        let good: Seq<Seq<char>> = trimmed_rows(body).filter(p);
        let n: int = body.len() - 1;
        assert(body[n] == body.last());
        if earlier.len() > 0 {
            let k: int = choose|k: int|
                #![trigger before[k]]
                0 <= k < before.len() && readable(before[k]) && earlier[0] == trim(before[k]) && forall|j: int|
                    0 <= j < k ==> !readable(#[trigger] before[j]);
            assert(body[k] == before[k]);
            assert(good[0] == earlier[0]);
            assert forall|j: int| 0 <= j < k implies !readable(#[trigger] body[j]) by {
                assert(before[j] == body[j]);
            }
        } else {
            assert forall|j: int| 0 <= j < n implies !readable(#[trigger] body[j]) by {
                assert(before[j] == body[j]);
            }
            if good.len() > 0 {
                assert(readable(body[n]) && good[0] == trim(body[n]));
            }
        }
    }
}

/// A row that can be read holds an order unless its size, the nineteenth column,
/// is nothing or rounds to nothing.
pub proof fn law_rows_without_a_size_hold_no_order(cols: Seq<Seq<char>>, whole: u128, fraction: Seq<char>)
    requires
        cols.len() > 18,
        forall|i: int| 0 <= i < cols.len() ==> lacks(#[trigger] cols[i], ','),
        !is_malformed(joined(cols, ',')),
        fraction.len() > 0,
        !crate::text::is_white(fraction.last()),
        48 <= fraction[0] as int <= 57,
    ensures
        cols[18] == decimal(whole as int) ==> (yields_order(joined(cols, ',')) <==> whole > 0),
        cols[18] == with_decimals(whole as int, fraction) && whole < u128::MAX ==> (yields_order(joined(cols, ','))
            <==> whole > 0 || fraction[0] as int >= 53),
{
    lemma_split_joined(cols, ',');
    law_sizes_are_rounded_by_the_first_decimal(whole, fraction);
}

/// A text file whose first line has fewer than twenty-two columns is dropped:
/// nothing of it is read. An empty one is read, and holds nothing.
pub proof fn law_other_files_are_dropped(contents: Seq<char>, r: FileRecords)
    requires
        csv_reads_as(contents, r),
    ensures
        r.dropped <==> lines(contents).len() > 0 && split(trim(lines(contents)[0]), ',').len() < 22,
        r.dropped || lines(contents).len() == 0 ==> r.orders@.len() == 0 && r.seen == 0 && r.skipped == 0
            && r.malformed@.len() == 0 && r.first_ts is None,
{
    reveal(Seq::filter);
    if r.dropped || lines(contents).len() == 0 {
        assert(line_numbers(r.malformed@).len() == r.malformed@.len());
        assert(lines(contents).len() == 0 || !is_header(lines(contents)[0]));
    }
}

/// A run adds up over its files: one file more, one more dropped if it was, and
/// the records seen and skipped. Runs over other files add up with it, in any
/// order. A count stops at the largest there is.
pub proof fn law_runs_add_up(a: RunStats, b: RunStats, seen: nat, skipped: nat, dropped: bool)
    ensures
        a.files_processed < usize::MAX ==> a.with_file(seen as int, skipped as int, dropped).files_processed
            == a.files_processed + 1,
        a.files_skipped < usize::MAX ==> a.with_file(seen as int, skipped as int, dropped).files_skipped
            == a.files_skipped + (if dropped {
            1int
        } else {
            0
        }),
        a.records_seen + seen <= usize::MAX ==> a.with_file(seen as int, skipped as int, dropped).records_seen
            == a.records_seen + seen,
        a.records_skipped + skipped <= usize::MAX ==> a.with_file(seen as int, skipped as int, dropped).records_skipped
            == a.records_skipped + skipped,
        a.together(b) == b.together(a),
        a.together(b.with_file(seen as int, skipped as int, dropped)) == a.together(b).with_file(
            seen as int,
            skipped as int,
            dropped,
        ),
        a.files_processed + b.files_processed <= usize::MAX ==> a.together(b).files_processed == a.files_processed
            + b.files_processed,
        a.files_skipped + b.files_skipped <= usize::MAX ==> a.together(b).files_skipped == a.files_skipped
            + b.files_skipped,
        a.records_seen + b.records_seen <= usize::MAX ==> a.together(b).records_seen == a.records_seen + b.records_seen,
        a.records_skipped + b.records_skipped <= usize::MAX ==> a.together(b).records_skipped == a.records_skipped
            + b.records_skipped,
{
}

/// What follows the last separator is the last piece.
pub proof fn lemma_last_piece(front: Seq<char>, sep: char, end: Seq<char>)
    requires
        lacks(end, sep),
    ensures
        split(front.push(sep) + end, sep) == split(front, sep).push(end),
{
    let parts: Seq<Seq<char>> = split(front, sep);
    let all: Seq<Seq<char>> = parts.push(end);
    lemma_split_lacks(front, sep);
    crate::text_laws::law_pieces_make_the_text(front, sep);
    assert forall|i: int| 0 <= i < all.len() implies lacks(#[trigger] all[i], sep) by {
        if i < parts.len() {
            assert(lacks(parts[i], sep));
        }
    }
    assert(all.drop_last() =~= parts);
    assert(joined(all, sep) =~= front.push(sep) + end);
    lemma_split_joined(all, sep);
}

/// The extension of a name is what follows its last point. Without a point, or
/// with one in front only, it has none. The extension says how a file is read.
pub proof fn law_extension_follows_the_last_point(stem: Seq<char>, end: Seq<char>)
    requires
        lacks(end, '.'),
    ensures
        ({
            let name = stem.push('.') + end;
            &&& stem.len() > 0 && stem != seq!['.'] ==> extension(name) == Some(end)
            &&& stem.len() == 0 ==> extension(name) is None
            &&& extension(end) is None
            &&& stem.len() > 0 && stem != seq!['.'] ==> {
                &&& kind_of(name) == FileKind::Csv <==> end == "csv"@
                &&& kind_of(name) == FileKind::Gzip <==> end == "gz"@
                &&& kind_of(name) == FileKind::Plain <==> end != "csv"@ && end != "gz"@
            }
            &&& kind_of(end) == FileKind::Plain
        }),
{
    let name: Seq<char> = stem.push('.') + end;
    reveal_strlit("csv");
    reveal_strlit("gz");
    assert("csv"@[0] == 'c' && "gz"@[0] == 'g');
    lemma_last_piece(stem, '.', end);
    lemma_split_none(end, '.');
    lemma_split_lacks(stem, '.');
    let parts: Seq<Seq<char>> = split(stem, '.');
    if stem.len() == 0 {
        assert(lacks(stem, '.'));
        lemma_split_none(stem, '.');
        assert(split(name, '.')[0].len() == 0);
    } else {
        if parts.len() == 1 {
            crate::text_laws::law_pieces_make_the_text(stem, '.');
            assert(joined(parts, '.') =~= parts[0]);
            assert(split(name, '.')[0] == stem);
        }
        if name == seq!['.', '.'] {
            assert(name.len() == 2 && name[0] == '.' && name[1] == '.');
            if end.len() == 0 {
                assert(stem[0] == name[0]);
                assert(stem =~= seq!['.']);
            } else {
                assert(name.last() == end.last());
            }
        }
    }
}

/// Paths are read in the order of their first difference, part by part: what is
/// in a directory comes before what shares its name only as a start, and of two
/// other characters the lower comes first; a path comes before its
/// continuations.
pub proof fn law_paths_are_ordered_part_by_part(start: Seq<char>, a: Seq<char>, b: Seq<char>, c: char, d: char)
    requires
        c != '\0',
        d != '\0',
    ensures
        c != '/' ==> path_le(start.push('/') + a, start.push(c) + b) && !path_le(start.push(c) + b, start.push('/') + a),
        c != '/' && d != '/' && c < d ==> path_le(start.push(c) + a, start.push(d) + b) && !path_le(
            start.push(d) + b,
            start.push(c) + a,
        ),
        path_le(start, start + a),
        a.len() > 0 ==> !path_le(start + a, start),
{
    lemma_paths(start, '/', a, c, b);
    lemma_paths(start, c, a, d, b);
    let none: Seq<char> = Seq::empty();
    assert(by_parts(start) =~= by_parts(start) + none);
    assert(by_parts(start + a) =~= by_parts(start) + by_parts(a));
    lemma_text_le_prefix(by_parts(start), none, by_parts(a));
    lemma_text_le_prefix(by_parts(start), by_parts(a), none);
}

proof fn lemma_paths(start: Seq<char>, c: char, a: Seq<char>, d: char, b: Seq<char>)
    ensures
        ({
            let (x, y) = (if c == '/' { '\0' } else { c }, if d == '/' { '\0' } else { d });
            x < y ==> path_le(start.push(c) + a, start.push(d) + b) && !path_le(start.push(d) + b, start.push(c) + a)
        }),
{
    let p: Seq<char> = by_parts(start);
    let x: char = if c == '/' { '\0' } else { c };
    let y: char = if d == '/' { '\0' } else { d };
    let u: Seq<char> = seq![x] + by_parts(a);
    let v: Seq<char> = seq![y] + by_parts(b);
    assert(by_parts(start.push(c) + a) =~= p + u);
    assert(by_parts(start.push(d) + b) =~= p + v);
    lemma_text_le_prefix(p, u, v);
    lemma_text_le_prefix(p, v, u);
    assert(u[0] == x && v[0] == y);
}

} // verus!
