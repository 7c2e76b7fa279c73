//! The commands of a session in a single pair.

use vstd::prelude::*;
use crate::inputs::cli::{mode_named, parse_mode, EngineMode};
use crate::text::{chars_of, fold, folded, is_text, parse_u128, string_of, texts, unsigned_value, views, words, words_of};
use crate::types::Side;

verus! {

/// A command. Prices and quantities are whole numbers.
#[derive(Debug)]
pub enum CliCommand {
    Add { side: Side, price: u128, qty: u128, user: String },
    Engine(EngineMode),
    Batch,
    Clear,
    Log,
    Metrics,
    Load { paths: Vec<String> },
    Help,
    Exit,
}

/// A command over plain texts and numbers.
pub enum CommandView {
    Add { side: Side, price: int, qty: int, user: Seq<char> },
    Engine(EngineMode),
    Batch,
    Clear,
    Log,
    Metrics,
    Load { paths: Seq<Seq<char>> },
    Help,
    Exit,
}

impl View for CliCommand {
    type V = CommandView;

    open spec fn view(&self) -> CommandView {
        match *self {
            CliCommand::Add { side, price, qty, user } => CommandView::Add {
                side,
                price: price as int,
                qty: qty as int,
                user: user@,
            },
            CliCommand::Engine(mode) => CommandView::Engine(mode),
            CliCommand::Batch => CommandView::Batch,
            CliCommand::Clear => CommandView::Clear,
            CliCommand::Log => CommandView::Log,
            CliCommand::Metrics => CommandView::Metrics,
            CliCommand::Load { paths } => CommandView::Load { paths: texts(paths@) },
            CliCommand::Help => CommandView::Help,
            CliCommand::Exit => CommandView::Exit,
        }
    }
}

/// The side that a word names, in any case.
pub open spec fn side_named(word: Seq<char>) -> Option<Side> {
    if folded(word) == "buy"@ {
        Some(Side::Buy)
    } else if folded(word) == "sell"@ {
        Some(Side::Sell)
    } else {
        None
    }
}

pub(crate) fn parse_side(word: &Vec<char>) -> (r: Option<Side>)
    ensures
        r == side_named(word@),
{
    let w: Vec<char> = fold(word);
    if is_text(&w, "buy") {
        Some(Side::Buy)
    } else if is_text(&w, "sell") {
        Some(Side::Sell)
    } else {
        None
    }
}

/// `add <buy|sell> <price> <qty> <user>`.
pub open spec fn add_meaning(words: Seq<Seq<char>>) -> Option<CommandView> {
    if words.len() < 5 {
        None
    } else {
        match (
            side_named(words[1]),
            unsigned_value(words[2], u128::MAX as int),
            unsigned_value(words[3], u128::MAX as int),
        ) {
            (Some(side), Some(price), Some(qty)) => Some(CommandView::Add { side, price, qty, user: words[4] }),
            _ => None,
        }
    }
}

/// The command that some words make, if any. The first word says which;
/// keywords may be in any case; words past the ones needed are passed over.
pub open spec fn meaning(words: Seq<Seq<char>>) -> Option<CommandView> {
    if words.len() == 0 {
        None
    } else {
        let w = folded(words[0]);
        if w == "add"@ {
            add_meaning(words)
        } else if w == "engine"@ {
            match if words.len() < 2 { None } else { mode_named(words[1]) } {
                Some(mode) => Some(CommandView::Engine(mode)),
                None => None,
            }
        } else if w == "batch"@ {
            Some(CommandView::Batch)
        } else if w == "clear"@ {
            Some(CommandView::Clear)
        } else if w == "log"@ {
            Some(CommandView::Log)
        } else if w == "metrics"@ || w == "stats"@ {
            Some(CommandView::Metrics)
        } else if w == "load"@ {
            if words.len() < 2 {
                None
            } else {
                Some(CommandView::Load { paths: words.skip(1) })
            }
        } else if w == "help"@ {
            Some(CommandView::Help)
        } else if w == "exit"@ || w == "quit"@ {
            Some(CommandView::Exit)
        } else {
            None
        }
    }
}

/// What to tell the user whose words are not a command, beyond that.
pub open spec fn hint(words: Seq<Seq<char>>) -> Option<Seq<char>> {
    if words.len() == 0 {
        None
    } else {
        let w = folded(words[0]);
        if w == "engine"@ && words.len() < 2 {
            Some(" Usage: engine <continuous|batch>"@)
        } else if w == "engine"@ && mode_named(words[1]) is None {
            Some(" Unknown engine type. Choose 'continuous' or 'batch'."@)
        } else if w == "load"@ && words.len() < 2 {
            Some(" Usage: load <path> [path...]"@)
        } else {
            None
        }
    }
}

/// Whether `r` is the command that `meaning` gives.
pub open spec fn says(r: Option<CliCommand>, m: Option<CommandView>) -> bool {
    match r {
        Some(command) => m == Some(command@),
        None => m is None,
    }
}

impl CliCommand {
    fn parse_add(words: &Vec<Vec<char>>) -> (r: Option<Self>)
        ensures
            says(r, add_meaning(views(words@))),
    {
        let ghost ws: Seq<Seq<char>> = views(words@);
        assert(ws.len() == words@.len());
        if words.len() < 5 {
            return None;
        }
        assert(ws[1] == words@[1]@ && ws[2] == words@[2]@ && ws[3] == words@[3]@ && ws[4] == words@[4]@);
        match (parse_side(&words[1]), parse_u128(&words[2]), parse_u128(&words[3])) {
            (Some(side), Some(price), Some(qty)) => {
                let r: CliCommand = CliCommand::Add { side, price, qty, user: string_of(&words[4]) };
                assert(add_meaning(ws) == Some(r@));
                Some(r)
            },
            _ => None,
        }
    }

    fn parse_load(words: &Vec<Vec<char>>) -> (r: Self)
        requires
            words@.len() >= 2,
        ensures
            r@ == (CommandView::Load { paths: views(words@).skip(1) }),
    {
        let mut paths: Vec<String> = Vec::new();
        let mut i: usize = 1;
        while i < words.len()
            invariant
                1 <= i <= words.len(),
                texts(paths@) =~= views(words@).subrange(1, i as int),
            decreases words.len() - i,
        {
            let ghost before: Seq<String> = paths@;
            paths.push(string_of(&words[i]));
            assert(texts(paths@) =~= texts(before).push(words@[i as int]@));
            i += 1;
        }
        assert(texts(paths@) =~= views(words@).skip(1));
        CliCommand::Load { paths }
    }

    /// The command on a line of input.
    pub fn parse(input: &str) -> (r: Option<Self>)
        ensures
            says(r, meaning(words(input@))),
    {
        let words: Vec<Vec<char>> = words_of(&chars_of(input));
        let ghost ws: Seq<Seq<char>> = views(words@);
        assert(ws.len() == words@.len());
        assert(forall|i: int| 0 <= i < ws.len() ==> #[trigger] ws[i] == words@[i]@);
        if words.len() == 0 {
            return None;
        }
        let w: Vec<char> = fold(&words[0]);
        if is_text(&w, "add") {
            CliCommand::parse_add(&words)
        } else if is_text(&w, "engine") {
            if words.len() < 2 {
                return None;
            }
            match parse_mode(&words[1]) {
                Some(mode) => Some(CliCommand::Engine(mode)),
                None => None,
            }
        } else if is_text(&w, "batch") {
            Some(CliCommand::Batch)
        } else if is_text(&w, "clear") {
            Some(CliCommand::Clear)
        } else if is_text(&w, "log") {
            Some(CliCommand::Log)
        } else if is_text(&w, "metrics") || is_text(&w, "stats") {
            Some(CliCommand::Metrics)
        } else if is_text(&w, "load") {
            if words.len() < 2 {
                return None;
            }
            Some(CliCommand::parse_load(&words))
        } else if is_text(&w, "help") {
            Some(CliCommand::Help)
        } else if is_text(&w, "exit") || is_text(&w, "quit") {
            Some(CliCommand::Exit)
        } else {
            None
        }
    }

    /// What to tell the user about a line that is not a command, beyond that
    /// it is not one.
    pub fn usage_hint(input: &str) -> (r: Option<String>)
        ensures
            match r {
                Some(text) => hint(words(input@)) == Some(text@),
                None => hint(words(input@)) is None,
            },
    {
        let words: Vec<Vec<char>> = words_of(&chars_of(input));
        let ghost ws: Seq<Seq<char>> = views(words@);
        assert(ws.len() == words@.len());
        assert(forall|i: int| 0 <= i < ws.len() ==> #[trigger] ws[i] == words@[i]@);
        if words.len() == 0 {
            return None;
        }
        let w: Vec<char> = fold(&words[0]);
        if is_text(&w, "engine") {
            if words.len() < 2 {
                Some(" Usage: engine <continuous|batch>".to_string())
            } else if parse_mode(&words[1]).is_none() {
                Some(" Unknown engine type. Choose 'continuous' or 'batch'.".to_string())
            } else {
                proof {
                    reveal_strlit("engine");
                    reveal_strlit("load");
                    assert("engine"@[0] != "load"@[0]);
                }
                None
            }
        } else if is_text(&w, "load") && words.len() < 2 {
            Some(" Usage: load <path> [path...]".to_string())
        } else {
            None
        }
    }
}

} // verus!
