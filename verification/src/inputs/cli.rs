//! The commands of the interactive prompt.

use vstd::prelude::*;
use crate::inputs::download_cmd::{Coin, DownloadTarget};
use crate::inputs::intake_laws::{law_notation_reads_as_price, notation};
use crate::inputs::simulator::{fixed_point, nearest_unit, parse_fixed_point, round_to_unit};
use crate::seqs::{leading, lemma_leading, lemma_leading_run};
use crate::text::{
    ascii_fold, ascii_folded, chars_of, decimal, decimal_of, fold, folded, is_text, padded, padded_of, parse_u64, push_chars,
    push_str, slice_of, string_of, texts, unsigned_value, views, words, words_of,
};
use crate::types::{Side, PRICE_SCALE};

verus! {

/// Which engine the prompt works on.
#[derive(Clone, Copy, Debug, PartialEq, Eq, Structural)]
pub enum EngineMode {
    Continuous,
    Batch,
}

/// A command. An order's price is in `PRICE_SCALE` fixed point; no price
/// means a market order.
#[derive(Debug, PartialEq)]
pub enum CliCommand {
    Add { side: Side, price: Option<u128>, qty: u128, user: String },
    Engine(EngineMode),
    Batch,
    Clear,
    Log,
    Metrics,
    Orderbook,
    TestEngine(EngineMode),
    Load { paths: Vec<String> },
    Simulate { path: String, interval_secs: Option<u64> },
    Download(DownloadTarget),
    Extract(DownloadTarget),
    Help,
    Exit,
}

/// A command over plain texts and numbers.
pub enum CommandView {
    Add { side: Side, price: Option<int>, qty: int, user: Seq<char> },
    Engine(EngineMode),
    Batch,
    Clear,
    Log,
    Metrics,
    Orderbook,
    TestEngine(EngineMode),
    Load { paths: Seq<Seq<char>> },
    Simulate { path: Seq<char>, interval_secs: Option<int> },
    Download(DownloadTarget),
    Extract(DownloadTarget),
    Help,
    Exit,
}

impl View for CliCommand {
    type V = CommandView;

    open spec fn view(&self) -> CommandView {
        match *self {
            CliCommand::Add { side, price, qty, user } => CommandView::Add {
                side,
                price: match price {
                    Some(p) => Some(p as int),
                    None => None,
                },
                qty: qty as int,
                user: user@,
            },
            CliCommand::Engine(mode) => CommandView::Engine(mode),
            CliCommand::Batch => CommandView::Batch,
            CliCommand::Clear => CommandView::Clear,
            CliCommand::Log => CommandView::Log,
            CliCommand::Metrics => CommandView::Metrics,
            CliCommand::Orderbook => CommandView::Orderbook,
            CliCommand::TestEngine(mode) => CommandView::TestEngine(mode),
            CliCommand::Load { paths } => CommandView::Load { paths: texts(paths@) },
            CliCommand::Simulate { path, interval_secs } => CommandView::Simulate {
                path: path@,
                interval_secs: match interval_secs {
                    Some(n) => Some(n as int),
                    None => None,
                },
            },
            CliCommand::Download(target) => CommandView::Download(target),
            CliCommand::Extract(target) => CommandView::Extract(target),
            CliCommand::Help => CommandView::Help,
            CliCommand::Exit => CommandView::Exit,
        }
    }
}

pub open spec fn is_mark(c: char) -> bool {
    c as int == 0xfeff
}

/// The words of a line, without the byte order marks it may start with.
pub open spec fn command_words(line: Seq<char>) -> Seq<Seq<char>> {
    words(line.skip(leading(line, |c: char| is_mark(c)) as int))
}

/// The engine that a word names, in any case.
pub open spec fn mode_named(word: Seq<char>) -> Option<EngineMode> {
    let w = folded(word);
    if w == "continuous"@ || w == "cda"@ {
        Some(EngineMode::Continuous)
    } else if w == "batch"@ || w == "fba"@ {
        Some(EngineMode::Batch)
    } else {
        None
    }
}

/// The archives that a word names, in any case.
pub open spec fn target_named(word: Seq<char>) -> Option<DownloadTarget> {
    let w = folded(word);
    if w == "btc"@ {
        Some(DownloadTarget::Coin(Coin::Btc))
    } else if w == "eth"@ {
        Some(DownloadTarget::Coin(Coin::Eth))
    } else if w == "sol"@ {
        Some(DownloadTarget::Coin(Coin::Sol))
    } else if w == "all"@ {
        Some(DownloadTarget::All)
    } else {
        None
    }
}

/// `add <buy|sell> <price|market> <qty> <user>`.
pub open spec fn add_meaning(words: Seq<Seq<char>>) -> Option<CommandView> {
    if words.len() < 5 {
        None
    } else {
        let is_market = ascii_folded(words[2]) == "market"@;
        let w = folded(words[1]);
        if (w != "buy"@ && w != "sell"@) || (!is_market && fixed_point(words[2]) is None) || nearest_unit(words[3]) is None {
            None
        } else {
            Some(
                CommandView::Add {
                    side: if w == "buy"@ {
                        Side::Buy
                    } else {
                        Side::Sell
                    },
                    price: if is_market {
                        None
                    } else {
                        fixed_point(words[2])
                    },
                    qty: nearest_unit(words[3])->0,
                    user: words[4],
                },
            )
        }
    }
}

/// `simulate <path> [interval_seconds]`.
pub open spec fn simulate_meaning(words: Seq<Seq<char>>) -> Option<CommandView> {
    if words.len() < 2 {
        None
    } else if words.len() == 2 {
        Some(CommandView::Simulate { path: words[1], interval_secs: None })
    } else {
        match unsigned_value(words[2], u64::MAX as int) {
            Some(n) => Some(CommandView::Simulate { path: words[1], interval_secs: Some(n) }),
            None => None,
        }
    }
}

/// The command that some words make, if any. The first word says which;
/// keywords may be in any case; words past the ones needed are passed over.
pub open spec fn meaning(words: Seq<Seq<char>>) -> Option<CommandView> {
    if words.len() == 0 {
        None
    } else {
        let w = folded(words[0]);
        if w == "add"@ {
            add_meaning(words)
        } else if w == "engine"@ {
            match if words.len() < 2 { None } else { mode_named(words[1]) } {
                Some(mode) => Some(CommandView::Engine(mode)),
                None => None,
            }
        } else if w == "batch"@ {
            Some(CommandView::Batch)
        } else if w == "clear"@ {
            Some(CommandView::Clear)
        } else if w == "log"@ {
            Some(CommandView::Log)
        } else if w == "metrics"@ || w == "stats"@ {
            Some(CommandView::Metrics)
        } else if w == "orderbook"@ || w == "ob"@ {
            Some(CommandView::Orderbook)
        } else if w == "test"@ {
            match if words.len() < 3 || folded(words[1]) != "engine"@ { None } else { mode_named(words[2]) } {
                Some(mode) => Some(CommandView::TestEngine(mode)),
                None => None,
            }
        } else if w == "load"@ {
            if words.len() < 2 {
                None
            } else {
                Some(CommandView::Load { paths: words.skip(1) })
            }
        } else if w == "simulate"@ {
            simulate_meaning(words)
        } else if w == "download"@ {
            match if words.len() < 2 { None } else { target_named(words[1]) } {
                Some(target) => Some(CommandView::Download(target)),
                None => None,
            }
        } else if w == "extract"@ {
            match if words.len() < 2 { None } else { target_named(words[1]) } {
                Some(target) => Some(CommandView::Extract(target)),
                None => None,
            }
        } else if w == "help"@ {
            Some(CommandView::Help)
        } else if w == "exit"@ || w == "quit"@ {
            Some(CommandView::Exit)
        } else {
            None
        }
    }
}

/// What to tell the user whose words are not a command, beyond that.
pub open spec fn hint(words: Seq<Seq<char>>) -> Option<Seq<char>> {
    if words.len() == 0 {
        None
    } else {
        let w = folded(words[0]);
        if w == "add"@ {
            if words.len() < 5 {
                Some(" Usage: add <buy|sell> <price|market> <qty> <user>"@)
            } else {
                None
            }
        } else if w == "engine"@ {
            if words.len() < 2 {
                Some(" Usage: engine <continuous|batch>"@)
            } else if mode_named(words[1]) is None {
                Some(" Unknown engine type. Choose 'continuous' or 'batch'."@)
            } else {
                None
            }
        } else if w == "test"@ {
            if words.len() < 3 || folded(words[1]) != "engine"@ {
                Some(" Usage: test engine <continuous|batch>"@)
            } else if mode_named(words[2]) is None {
                Some(" Unknown engine type. Choose 'continuous' or 'batch'."@)
            } else {
                None
            }
        } else if w == "load"@ {
            if words.len() < 2 {
                Some(" Usage: load <path> [path...]"@)
            } else {
                None
            }
        } else if w == "simulate"@ {
            if words.len() < 2 {
                Some(" Usage: simulate <path> [interval_seconds]"@)
            } else if words.len() >= 3 && unsigned_value(words[2], u64::MAX as int) is None {
                Some(" Invalid interval_seconds: '"@ + words[2] + "'"@)
            } else {
                None
            }
        } else if w == "download"@ {
            if words.len() < 2 {
                Some(" Usage: download <btc|eth|sol|all>"@)
            } else if target_named(words[1]) is None {
                Some(" Unknown coin. Choose 'btc', 'eth', 'sol', or 'all'."@)
            } else {
                None
            }
        } else if w == "extract"@ {
            if words.len() < 2 {
                Some(" Usage: extract <btc|eth|sol|all>"@)
            } else if target_named(words[1]) is None {
                Some(" Unknown coin. Choose 'btc', 'eth', 'sol', or 'all'."@)
            } else {
                None
            }
        } else {
            None
        }
    }
}

fn mark_char(c: char) -> (r: bool)
    ensures
        r == is_mark(c),
{
    c as u32 == 0xfeff
}

fn split_command(input: &str) -> (r: Vec<Vec<char>>)
    ensures
        views(r@) == command_words(input@),
        r@.len() == command_words(input@).len(),
        forall|i: int| 0 <= i < r@.len() ==> #[trigger] r@[i]@ == command_words(input@)[i],
{
    let chars: Vec<char> = chars_of(input);
    let ghost mark = |c: char| is_mark(c);
    let mut from: usize = 0;
    while from < chars.len() && mark_char(chars[from])
        invariant
            from <= chars.len(),
            mark == (|c: char| is_mark(c)),
            forall|k: int| 0 <= k < from ==> mark(#[trigger] chars@[k]),
        decreases chars.len() - from,
    {
        from += 1;
    }
    proof {
        lemma_leading(chars@, mark, from as int);
    }
    let rest: Vec<char> = slice_of(&chars, from, chars.len());
    assert(rest@ =~= chars@.skip(from as int));
    let r: Vec<Vec<char>> = words_of(&rest);
    assert(views(r@).len() == r@.len());
    assert(forall|i: int| 0 <= i < r@.len() ==> #[trigger] r@[i]@ == views(r@)[i]);
    r
}

pub(crate) fn parse_mode(word: &Vec<char>) -> (r: Option<EngineMode>)
    ensures
        r == mode_named(word@),
{
    let w: Vec<char> = fold(word);
    if is_text(&w, "continuous") || is_text(&w, "cda") {
        Some(EngineMode::Continuous)
    } else if is_text(&w, "batch") || is_text(&w, "fba") {
        Some(EngineMode::Batch)
    } else {
        None
    }
}

/// The archives that a word names.
pub fn parse_download_target(arg: &str) -> (r: Option<DownloadTarget>)
    ensures
        r == target_named(arg@),
{
    target_of(&chars_of(arg))
}

fn target_of(word: &Vec<char>) -> (r: Option<DownloadTarget>)
    ensures
        r == target_named(word@),
{
    let w: Vec<char> = fold(word);
    if is_text(&w, "btc") {
        Some(DownloadTarget::Coin(Coin::Btc))
    } else if is_text(&w, "eth") {
        Some(DownloadTarget::Coin(Coin::Eth))
    } else if is_text(&w, "sol") {
        Some(DownloadTarget::Coin(Coin::Sol))
    } else if is_text(&w, "all") {
        Some(DownloadTarget::All)
    } else {
        None
    }
}

/// Whether `r` is the command that `meaning` gives.
pub open spec fn says(r: Option<CliCommand>, m: Option<CommandView>) -> bool {
    match r {
        Some(command) => m == Some(command@),
        None => m is None,
    }
}

impl CliCommand {
    fn parse_add(words: &Vec<Vec<char>>) -> (r: Option<Self>)
        ensures
            says(r, add_meaning(views(words@))),
    {
        let ghost ws: Seq<Seq<char>> = views(words@);
        assert(ws.len() == words@.len());
        if words.len() < 5 {
            return None;
        }
        assert(ws[1] == words@[1]@ && ws[2] == words@[2]@ && ws[3] == words@[3]@ && ws[4] == words@[4]@);
        let w: Vec<char> = fold(&words[1]);
        let side: Side = if is_text(&w, "buy") {
            Side::Buy
        } else if is_text(&w, "sell") {
            Side::Sell
        } else {
            return None;
        };
        let price: Option<u128> = if is_text(&ascii_fold(&words[2]), "market") {
            None
        } else {
            match parse_fixed_point(string_of(&words[2]).as_str()) {
                Some(p) => Some(p),
                None => {
                    return None;
                },
            }
        };
        let qty: u128 = match round_to_unit(string_of(&words[3]).as_str()) {
            Some(q) => q,
            None => {
                return None;
            },
        };
        let r: CliCommand = CliCommand::Add { side, price, qty, user: string_of(&words[4]) };
        assert(add_meaning(ws) == Some(r@));
        Some(r)
    }

    fn parse_load(words: &Vec<Vec<char>>) -> (r: Self)
        requires
            words@.len() >= 2,
        ensures
            r@ == (CommandView::Load { paths: views(words@).skip(1) }),
    {
        let mut paths: Vec<String> = Vec::new();
        let mut i: usize = 1;
        while i < words.len()
            invariant
                1 <= i <= words.len(),
                texts(paths@) =~= views(words@).subrange(1, i as int),
            decreases words.len() - i,
        {
            let ghost before: Seq<String> = paths@;
            paths.push(string_of(&words[i]));
            assert(texts(paths@) =~= texts(before).push(words@[i as int]@));
            i += 1;
        }
        assert(texts(paths@) =~= views(words@).skip(1));
        CliCommand::Load { paths }
    }

    fn parse_simulate(words: &Vec<Vec<char>>) -> (r: Option<Self>)
        ensures
            says(r, simulate_meaning(views(words@))),
    {
        assert(views(words@).len() == words@.len());
        if words.len() < 2 {
            return None;
        }
        assert(views(words@)[1] == words@[1]@);
        let path: String = string_of(&words[1]);
        if words.len() == 2 {
            return Some(CliCommand::Simulate { path, interval_secs: None });
        }
        assert(views(words@)[2] == words@[2]@);
        match parse_u64(&words[2]) {
            Some(n) => Some(CliCommand::Simulate { path, interval_secs: Some(n) }),
            None => None,
        }
    }

    /// The command in some words.
    fn from_words(words: &Vec<Vec<char>>) -> (r: Option<Self>)
        ensures
            says(r, meaning(views(words@))),
    {
        let ghost ws: Seq<Seq<char>> = views(words@);
        assert(ws.len() == words@.len());
        assert(forall|i: int| 0 <= i < ws.len() ==> #[trigger] ws[i] == words@[i]@);
        if words.len() == 0 {
            return None;
        }
        let w: Vec<char> = fold(&words[0]);
        if is_text(&w, "add") {
            CliCommand::parse_add(words)
        } else if is_text(&w, "engine") {
            if words.len() < 2 {
                return None;
            }
            match parse_mode(&words[1]) {
                Some(mode) => Some(CliCommand::Engine(mode)),
                None => None,
            }
        } else if is_text(&w, "batch") {
            Some(CliCommand::Batch)
        } else if is_text(&w, "clear") {
            Some(CliCommand::Clear)
        } else if is_text(&w, "log") {
            Some(CliCommand::Log)
        } else if is_text(&w, "metrics") || is_text(&w, "stats") {
            Some(CliCommand::Metrics)
        } else if is_text(&w, "orderbook") || is_text(&w, "ob") {
            Some(CliCommand::Orderbook)
        } else if is_text(&w, "test") {
            if words.len() < 3 || !is_text(&fold(&words[1]), "engine") {
                return None;
            }
            match parse_mode(&words[2]) {
                Some(mode) => Some(CliCommand::TestEngine(mode)),
                None => None,
            }
        } else if is_text(&w, "load") {
            if words.len() < 2 {
                return None;
            }
            Some(CliCommand::parse_load(words))
        } else if is_text(&w, "simulate") {
            CliCommand::parse_simulate(words)
        } else if is_text(&w, "download") {
            if words.len() < 2 {
                return None;
            }
            match target_of(&words[1]) {
                Some(target) => Some(CliCommand::Download(target)),
                None => None,
            }
        } else if is_text(&w, "extract") {
            if words.len() < 2 {
                return None;
            }
            match target_of(&words[1]) {
                Some(target) => Some(CliCommand::Extract(target)),
                None => None,
            }
        } else if is_text(&w, "help") {
            Some(CliCommand::Help)
        } else if is_text(&w, "exit") || is_text(&w, "quit") {
            Some(CliCommand::Exit)
        } else {
            None
        }
    }

    /// The command on a line of input.
    pub fn parse(input: &str) -> (r: Option<Self>)
        ensures
            says(r, meaning(command_words(input@))),
    {
        CliCommand::from_words(&split_command(input))
    }

    /// What to tell the user about a line that is not a command, beyond that
    /// it is not one.
    pub fn usage_hint(input: &str) -> (r: Option<String>)
        ensures
            match r {
                Some(text) => hint(command_words(input@)) == Some(text@),
                None => hint(command_words(input@)) is None,
            },
    {
        let words: Vec<Vec<char>> = split_command(input);
        if words.len() == 0 {
            return None;
        }
        let w: Vec<char> = fold(&words[0]);
        let text: &str = if is_text(&w, "add") {
            if words.len() < 5 {
                " Usage: add <buy|sell> <price|market> <qty> <user>"
            } else {
                return None;
            }
        } else if is_text(&w, "engine") {
            if words.len() < 2 {
                " Usage: engine <continuous|batch>"
            } else if parse_mode(&words[1]).is_none() {
                " Unknown engine type. Choose 'continuous' or 'batch'."
            } else {
                return None;
            }
        } else if is_text(&w, "test") {
            if words.len() < 3 || !is_text(&fold(&words[1]), "engine") {
                " Usage: test engine <continuous|batch>"
            } else if parse_mode(&words[2]).is_none() {
                " Unknown engine type. Choose 'continuous' or 'batch'."
            } else {
                return None;
            }
        } else if is_text(&w, "load") {
            if words.len() < 2 {
                " Usage: load <path> [path...]"
            } else {
                return None;
            }
        } else if is_text(&w, "simulate") {
            if words.len() < 2 {
                " Usage: simulate <path> [interval_seconds]"
            } else if words.len() >= 3 && parse_u64(&words[2]).is_none() {
                let mut text: Vec<char> = chars_of(" Invalid interval_seconds: '");
                push_chars(&mut text, &words[2]);
                push_str(&mut text, "'");
                return Some(string_of(&text));
            } else {
                return None;
            }
        } else if is_text(&w, "download") {
            if words.len() < 2 {
                " Usage: download <btc|eth|sol|all>"
            } else if target_of(&words[1]).is_none() {
                " Unknown coin. Choose 'btc', 'eth', 'sol', or 'all'."
            } else {
                return None;
            }
        } else if is_text(&w, "extract") {
            if words.len() < 2 {
                " Usage: extract <btc|eth|sol|all>"
            } else if target_of(&words[1]).is_none() {
                " Unknown coin. Choose 'btc', 'eth', 'sol', or 'all'."
            } else {
                return None;
            }
        } else {
            return None;
        };
        Some(text.to_owned())
    }
}

/// A price in the usual notation, with six decimals.
pub open spec fn price_text(price: int) -> Seq<char> {
    decimal(price / 1_000_000) + seq!['.'] + padded(price % 1_000_000, 6)
}

/// A fixed-point price in the usual notation, with six decimals.
pub fn format_price(price: u128) -> (r: String)
    ensures
        r@ == price_text(price as int),
{
    let mut text: Vec<char> = decimal_of(price / PRICE_SCALE);
    text.push('.');
    push_chars(&mut text, &padded_of(price % PRICE_SCALE, 6));
    assert(text@ =~= price_text(price as int));
    string_of(&text)
}

/// A price that was written out reads back as the same price.
pub proof fn law_written_price_reads_back(price: u128)
    ensures
        fixed_point(price_text(price as int)) == Some(price as int),
{
    reveal_with_fuel(vstd::arithmetic::power::pow, 7);
    assert(vstd::arithmetic::power::pow(10, 0) == 1);
    assert(notation(price as int, 6) =~= price_text(price as int));
    law_notation_reads_as_price(price as int, 6);
}

/// Byte order marks at the start of a line make no difference.
pub proof fn law_leading_marks_are_ignored(marks: Seq<char>, line: Seq<char>)
    requires
        forall|i: int| 0 <= i < marks.len() ==> is_mark(#[trigger] marks[i]),
    ensures
        command_words(marks + line) == command_words(line),
{
    let mark = |c: char| is_mark(c);
    let n: int = leading(line, mark) as int;
    let whole: Seq<char> = marks + line;
    lemma_leading_run(line, mark);
    assert forall|k: int| 0 <= k < marks.len() + n implies mark(#[trigger] whole[k]) by {
        if k < marks.len() {
            assert(whole[k] == marks[k]);
        } else {
            assert(whole[k] == line[k - marks.len()]);
        }
    }
    if marks.len() + n < whole.len() {
        assert(whole[marks.len() + n] == line[n]);
    }
    lemma_leading(whole, mark, marks.len() + n);
    assert(whole.skip(marks.len() + n) =~= line.skip(n));
}

} // verus!
