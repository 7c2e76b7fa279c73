//! What the commands around a run mean and show, in terms of the words typed,
//! the state that is left and the numbers given.

use vstd::arithmetic::div_mod::{lemma_fundamental_div_mod, lemma_mod_bound};
use vstd::prelude::*;
use crate::engines::plain::{lesser, opens, withdraws};
use crate::inputs::cli::{hint, meaning, CommandView, EngineMode};
use crate::inputs::download_cmd::{size_in_line, size_in_listing, Coin, DownloadTarget};
use crate::inputs::progress::{best_unit, byte_text, in_double, nearest_even, spacing, unit_name, unit_size};
use crate::inputs::replay_checkpoint::Checkpoint;
use crate::inputs::scan_cmd::{category_of, Category};
use crate::inputs::simulate_cmd::{is_coin, middle, plan, settled_upto, source_of, start, RunPlan, Start};
use crate::metrics::grid::law_bucket_holds_the_moment;
use crate::text::{decimal, folded, joined, lacks, law_decimal_reads_back, lemma_split_joined, padded};
use crate::types::{Order, Price};

verus! {

/// A run over data that another run has begun goes on only if that one was over
/// the same source, in the same intervals, with as many files. It has nothing
/// to do if that one is complete, adds to the rows if any were written, and
/// begins again if none was. Without another run it begins.
pub proof fn law_run_goes_on_where_it_stopped(c: Checkpoint, source: Seq<char>, interval_ns: int, files: int)
    ensures
        ({
            let r = plan(Some(c), source, interval_ns, files);
            let same = c.source@ == source && c.interval_ns == interval_ns && c.files_total == files;
            &&& r == RunPlan::Refuse <==> !same
            &&& r == RunPlan::Done <==> same && c.complete
            &&& r == RunPlan::Append <==> same && !c.complete && c.fba_rows_written + c.cda_rows_written > 0
            &&& r == RunPlan::Restart <==> same && !c.complete && c.fba_rows_written + c.cda_rows_written == 0
            &&& r != RunPlan::Fresh
        }),
        plan(None, source, interval_ns, files) == RunPlan::Fresh,
        files > 0 ==> start(files, Ok(Some(c)), source, interval_ns) == Start::Planned(
            plan(Some(c), source, interval_ns, files),
        ) && start(files, Ok(None), source, interval_ns) == Start::Planned(RunPlan::Fresh),
        start(0, Ok(Some(c)), source, interval_ns) == Start::NoFiles,
        start(0, Ok(None), source, interval_ns) == Start::NoFiles,
{
}

/// All rows are settled that time has left behind by the guard: the next one
/// would end later than that. None are before the grid starts.
pub proof fn law_all_rows_left_behind_are_settled(
    anchor: int,
    next_first: Option<int>,
    file_last: int,
    guard: int,
    width: int,
)
    requires
        width > 0,
        guard >= 0,
    ensures
        ({
            let r = settled_upto(Some(anchor), next_first, file_last, guard, width);
            let seen = match next_first {
                Some(nf) => lesser(nf, file_last),
                None => file_last,
            };
            &&& r >= anchor
            &&& seen - guard < anchor ==> r == anchor
            &&& seen - guard >= anchor ==> r <= seen - guard < r + width
        }),
        settled_upto(None, next_first, file_last, guard, width) == 0,
{
    let seen: int = match next_first {
        Some(nf) => lesser(nf, file_last),
        None => file_last,
    };
    law_bucket_holds_the_moment(seen - guard, anchor, width);
}

/// The price between two is no further from one than from the other, but for
/// the rounding down; of one side alone it is its best.
pub proof fn law_middle_is_halfway(bid: Price, ask: Price)
    ensures
        middle(Some(bid), Some(ask)) matches Some(m) && 2 * m <= bid + ask < 2 * m + 2,
        middle(Some(bid), None) == Some(bid),
        middle(None, Some(ask)) == Some(ask),
        middle(None, None) is None,
{
}

/// The data of a coin is in the directory with its name in small letters; any
/// other word is a path.
pub proof fn law_coins_have_their_directory(word: Seq<char>)
    ensures
        is_coin(word) <==> folded(word) == "btc"@ || folded(word) == "eth"@ || folded(word) == "sol"@,
        is_coin(word) ==> source_of(word) == "data/order_statuses/"@ + folded(word),
        !is_coin(word) ==> source_of(word) == word,
{
}

/// A record is counted as a new order if it opens one, as a cancellation if it
/// withdraws one, and else as something other.
pub proof fn law_records_are_counted_by_what_they_do(order: Order)
    ensures
        category_of(order) == Category::NewLiveOrder <==> opens(order),
        category_of(order) == Category::Cancellation <==> withdraws(order),
        category_of(order) == Category::Other <==> !opens(order) && !withdraws(order),
{
    crate::engines::plain::law_codes_tell_the_order(order);
}

proof fn lemma_nearest(a: int, b: int)
    requires
        0 <= a,
        0 < b,
    ensures
        -b <= 2 * (nearest_even(a, b) * b - a) <= b,
        0 <= nearest_even(a, b),
{
    lemma_fundamental_div_mod(a, b);
    lemma_mod_bound(a, b);
    let q: int = a / b;
    assert(b * q == q * b) by (nonlinear_arith);
    assert((q + 1) * b == q * b + b) by (nonlinear_arith);
    assert(q >= 0) by (nonlinear_arith)
        requires
            b * q + a % b == a,
            0 <= a % b < b,
            0 <= a,
            0 < b,
    ;
}

/// Up to 2^53, a byte count is shown in the largest of five units, each 1024 of
/// the one before, that leaves at least one of it; with two decimals, and no
/// more than half of the last of them away from the count.
pub proof fn law_byte_counts_are_shown_closely(n: int) -> (h: int)
    requires
        0 <= n < 0x20_0000_0000_0000,
    ensures
        ({
            let unit = best_unit(n);
            let size = unit_size(unit);
            &&& 0 <= h
            &&& byte_text(n) == decimal(h / 100) + seq!['.'] + padded(h % 100, 2) + unit_name(unit)
            &&& 0 <= unit <= 4
            &&& unit > 0 ==> size <= n
            &&& unit < 4 ==> n < 1024 * size
            &&& size == (if unit == 0 {
                1int
            } else {
                1024 * unit_size(unit - 1)
            })
            &&& -size <= 2 * (h * size - 100 * n) <= size
        }),
        unit_name(0) == " B"@,
        unit_name(1) == " KiB"@,
        unit_name(2) == " MiB"@,
        unit_name(3) == " GiB"@,
        unit_name(4) == " TiB"@,
{
    assert(n / 1 == n);
    assert(n % 1 == 0);
    assert(spacing(n, 1) == 1);
    assert(in_double(n) == n);
    let size: int = unit_size(best_unit(n));
    lemma_nearest(100 * n, size);
    nearest_even(100 * n, size)
}

/// The size is read from the fifth field of the first line of a listing that
/// starts with the word for a file and has one there.
pub proof fn law_size_is_read_from_the_file_line(
    before: Seq<Seq<char>>,
    fields: Seq<Seq<char>>,
    size: u64,
    after: Seq<Seq<char>>,
)
    requires
        fields.len() >= 5,
        forall|i: int| 0 <= i < fields.len() ==> lacks(#[trigger] fields[i], '\t'),
        fields[4] == decimal(size as int),
        forall|i: int| 0 <= i < before.len() ==> size_in_line(#[trigger] before[i]) is None,
    ensures
        fields[0] == "file"@ ==> size_in_listing(before.push(joined(fields, '\t')) + after) == Some(size as int),
        fields[0] != "file"@ ==> size_in_line(joined(fields, '\t')) is None,
        size_in_listing(before) is None,
    decreases before.len(),
{
    let line: Seq<char> = joined(fields, '\t');
    lemma_split_joined(fields, '\t');
    law_decimal_reads_back(size as int, u64::MAX as int);
    let all: Seq<Seq<char>> = before.push(line) + after;
    if before.len() == 0 {
        assert(all[0] == line);
    } else {
        let rest: Seq<Seq<char>> = before.drop_first();
        assert(all[0] == before[0]);
        assert(all.drop_first() =~= rest.push(line) + after);
        assert forall|i: int| 0 <= i < rest.len() implies size_in_line(#[trigger] rest[i]) is None by {
            assert(rest[i] == before[i + 1]);
        }
        law_size_is_read_from_the_file_line(rest, fields, size, after);
    }
}

/// A command about all coins is about each of them once, and one about a coin
/// about that coin. Their archives are told apart by name.
pub proof fn law_targets_name_their_coins(a: Coin, b: Coin)
    ensures
        DownloadTarget::Coin(a).coin_list() == seq![a],
        DownloadTarget::All.coin_list().contains(a),
        DownloadTarget::All.coin_list().len() == 3,
        DownloadTarget::All.coin_list().no_duplicates(),
        a != b ==> a.label_chars() != b.label_chars(),
        a != b ==> a.archive_chars() != b.archive_chars(),
{
    reveal_strlit("btc");
    reveal_strlit("eth");
    reveal_strlit("sol");
    assert("btc"@[0] == 'b' && "eth"@[0] == 'e' && "sol"@[0] == 's');
    let all: Seq<Coin> = DownloadTarget::All.coin_list();
    assert(all[0] == Coin::Btc && all[1] == Coin::Eth && all[2] == Coin::Sol);
    assert(a.archive_chars()[0] == a.label_chars()[0]);
    assert(b.archive_chars()[0] == b.label_chars()[0]);
}

/// The first letters of the command words, by which most are told apart.
proof fn lemma_command_words()
    ensures
        "add"@[0] == 'a',
        "engine"@[0] == 'e',
        "engine"@[1] == 'n',
        "batch"@[0] == 'b',
        "clear"@[0] == 'c',
        "log"@[0] == 'l',
        "log"@.len() == 3,
        "metrics"@[0] == 'm',
        "stats"@[0] == 's',
        "stats"@[1] == 't',
        "orderbook"@[0] == 'o',
        "ob"@[0] == 'o',
        "test"@[0] == 't',
        "load"@[0] == 'l',
        "load"@.len() == 4,
        "simulate"@[0] == 's',
        "simulate"@[1] == 'i',
        "download"@[0] == 'd',
        "extract"@[0] == 'e',
        "extract"@[1] == 'x',
{
    reveal_strlit("add");
    reveal_strlit("engine");
    reveal_strlit("batch");
    reveal_strlit("clear");
    reveal_strlit("log");
    reveal_strlit("metrics");
    reveal_strlit("stats");
    reveal_strlit("orderbook");
    reveal_strlit("ob");
    reveal_strlit("test");
    reveal_strlit("load");
    reveal_strlit("simulate");
    reveal_strlit("download");
    reveal_strlit("extract");
}

/// A run is over the path that is typed, in the interval that is written behind
/// it, or in none; what is behind it and is no number makes no command.
pub proof fn law_typed_run_means_itself(word: Seq<char>, path: Seq<char>, secs: u64, more: Seq<Seq<char>>)
    requires
        folded(word) == "simulate"@,
    ensures
        meaning(seq![word, path]) == Some((CommandView::Simulate { path, interval_secs: None })),
        meaning(seq![word, path, decimal(secs as int)] + more) == Some(
            (CommandView::Simulate { path, interval_secs: Some(secs as int) }),
        ),
        meaning(seq![word]) is None,
        hint(seq![word]) is Some,
{
    lemma_command_words();
    law_decimal_reads_back(secs as int, u64::MAX as int);
    let one: Seq<Seq<char>> = seq![word];
    let two: Seq<Seq<char>> = seq![word, path];
    let three: Seq<Seq<char>> = seq![word, path, decimal(secs as int)];
    let all: Seq<Seq<char>> = three + more;
    assert(one[0] == word);
    assert(two[0] == word && two[1] == path);
    assert(three[0] == word && three[1] == path && three[2] == decimal(secs as int));
    assert(all[0] == three[0] && all[1] == three[1] && all[2] == three[2]);
    assert(folded(word)[0] == 's' && folded(word)[1] == 'i');
}

/// The target that a name stands for.
pub open spec fn named_target(name: Seq<char>) -> Option<DownloadTarget> {
    if folded(name) == Coin::Btc.label_chars() {
        Some(DownloadTarget::Coin(Coin::Btc))
    } else if folded(name) == Coin::Eth.label_chars() {
        Some(DownloadTarget::Coin(Coin::Eth))
    } else if folded(name) == Coin::Sol.label_chars() {
        Some(DownloadTarget::Coin(Coin::Sol))
    } else if folded(name) == "all"@ {
        Some(DownloadTarget::All)
    } else {
        None
    }
}

/// Archives are fetched and unpacked for the coin with the name that is typed,
/// in any case, or for all; another name makes no command.
pub proof fn law_archives_are_chosen_by_name(word: Seq<char>, name: Seq<char>)
    ensures
        folded(word) == "download"@ ==> meaning(seq![word, name]) == (match named_target(name) {
            Some(t) => Some(CommandView::Download(t)),
            None => None,
        }),
        folded(word) == "extract"@ ==> meaning(seq![word, name]) == (match named_target(name) {
            Some(t) => Some(CommandView::Extract(t)),
            None => None,
        }),
{
    lemma_command_words();
    let two: Seq<Seq<char>> = seq![word, name];
    assert(two[0] == word && two[1] == name);
}

/// Both names of an engine choose it, in any case, for the session and for its
/// own trials; another name chooses none.
pub proof fn law_engine_is_chosen_by_name(word: Seq<char>, second: Seq<char>, name: Seq<char>)
    requires
        folded(second) == "engine"@,
    ensures
        ({
            let mode = if folded(name) == "continuous"@ || folded(name) == "cda"@ {
                Some(EngineMode::Continuous)
            } else if folded(name) == "batch"@ || folded(name) == "fba"@ {
                Some(EngineMode::Batch)
            } else {
                None
            };
            &&& folded(word) == "engine"@ ==> meaning(seq![word, name]) == (match mode {
                Some(m) => Some(CommandView::Engine(m)),
                None => None,
            })
            &&& folded(word) == "test"@ ==> meaning(seq![word, second, name]) == (match mode {
                Some(m) => Some(CommandView::TestEngine(m)),
                None => None,
            })
        }),
{
    lemma_command_words();
    let two: Seq<Seq<char>> = seq![word, name];
    let three: Seq<Seq<char>> = seq![word, second, name];
    assert(two[0] == word && two[1] == name);
    assert(three[0] == word && three[1] == second && three[2] == name);
}

/// Every path that is typed is to be loaded, in the order typed.
pub proof fn law_typed_paths_are_all_loaded(word: Seq<char>, paths: Seq<Seq<char>>)
    requires
        folded(word) == "load"@,
    ensures
        paths.len() > 0 ==> meaning(seq![word] + paths) == Some((CommandView::Load { paths })),
        paths.len() == 0 ==> meaning(seq![word] + paths) is None,
{
    lemma_command_words();
    let all: Seq<Seq<char>> = seq![word] + paths;
    assert(all[0] == word);
    assert(all.skip(1) =~= paths);
}

/// A hint is only for a line that is no command.
pub proof fn law_hints_are_for_no_command(words: Seq<Seq<char>>)
    ensures
        hint(words) is Some ==> meaning(words) is None,
{
    lemma_command_words();
}

} // verus!
