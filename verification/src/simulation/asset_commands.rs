//! The commands of a session in many assets.

use vstd::prelude::*;
use crate::inputs::cli::{mode_named, parse_mode, EngineMode};
use crate::simulation::commands::{parse_side, side_named};
use crate::text::{chars_of, fold, folded, is_text, parse_u128, string_of, unsigned_value, views, words, words_of};
use crate::types::Side;

verus! {

/// A command. Prices and quantities are whole numbers.
#[derive(Debug)]
pub enum CliCommand {
    Add { side: Side, asset: String, price: u128, qty: u128, user: String },
    Engine { mode: EngineMode },
    Batch,
    Amm,
    Clear,
    Log,
    Help,
    Exit,
}

/// A command over plain texts and numbers.
pub enum CommandView {
    Add { side: Side, asset: Seq<char>, price: int, qty: int, user: Seq<char> },
    Engine { mode: EngineMode },
    Batch,
    Amm,
    Clear,
    Log,
    Help,
    Exit,
}

impl View for CliCommand {
    type V = CommandView;

    open spec fn view(&self) -> CommandView {
        match *self {
            CliCommand::Add { side, asset, price, qty, user } => CommandView::Add {
                side,
                asset: asset@,
                price: price as int,
                qty: qty as int,
                user: user@,
            },
            CliCommand::Engine { mode } => CommandView::Engine { mode },
            CliCommand::Batch => CommandView::Batch,
            CliCommand::Amm => CommandView::Amm,
            CliCommand::Clear => CommandView::Clear,
            CliCommand::Log => CommandView::Log,
            CliCommand::Help => CommandView::Help,
            CliCommand::Exit => CommandView::Exit,
        }
    }
}

/// A text in capital letters.
pub uninterp spec fn capitals(s: Seq<char>) -> Seq<char>;

/// `str::to_uppercase`: the text with the Unicode capital letters of its
/// characters. The contract claims only that the outcome follows from the
/// text.
#[verifier::external_body]
fn to_capitals(s: &str) -> (r: String)
    ensures
        r@ == capitals(s@),
{
    s.to_uppercase()
}

/// `add <buy|sell> <asset> <price> <qty> <user>`, with the asset in capital
/// letters.
pub open spec fn add_meaning(words: Seq<Seq<char>>, asset: Seq<char>) -> Option<CommandView> {
    if words.len() < 6 {
        None
    } else {
        match (
            side_named(words[1]),
            unsigned_value(words[3], u128::MAX as int),
            unsigned_value(words[4], u128::MAX as int),
        ) {
            (Some(side), Some(price), Some(qty)) => Some(CommandView::Add { side, asset, price, qty, user: words[5] }),
            _ => None,
        }
    }
}

/// The command that some words make, if any, where `asset` is the third word
/// in capital letters.
pub open spec fn meaning(words: Seq<Seq<char>>, asset: Seq<char>) -> Option<CommandView> {
    if words.len() == 0 {
        None
    } else {
        let w = folded(words[0]);
        if w == "add"@ {
            add_meaning(words, asset)
        } else if w == "engine"@ {
            match if words.len() < 2 { None } else { mode_named(words[1]) } {
                Some(mode) => Some(CommandView::Engine { mode }),
                None => None,
            }
        } else if w == "batch"@ {
            Some(CommandView::Batch)
        } else if w == "amm"@ {
            Some(CommandView::Amm)
        } else if w == "clear"@ {
            Some(CommandView::Clear)
        } else if w == "log"@ {
            Some(CommandView::Log)
        } else if w == "help"@ {
            Some(CommandView::Help)
        } else if w == "exit"@ || w == "quit"@ {
            Some(CommandView::Exit)
        } else {
            None
        }
    }
}

/// The asset of a line: its third word in capital letters.
pub open spec fn asset_in(words: Seq<Seq<char>>) -> Seq<char> {
    if words.len() > 2 {
        capitals(words[2])
    } else {
        Seq::empty()
    }
}

/// Whether `r` is the command that `meaning` gives.
pub open spec fn says(r: Option<CliCommand>, m: Option<CommandView>) -> bool {
    match r {
        Some(command) => m == Some(command@),
        None => m is None,
    }
}

impl CliCommand {
    /// The command in some words, where `asset` is the third one in capital
    /// letters.
    pub fn from_words(words: &Vec<Vec<char>>, asset: String) -> (r: Option<Self>)
        ensures
            says(r, meaning(views(words@), asset@)),
    {
        let ghost ws: Seq<Seq<char>> = views(words@);
        assert(ws.len() == words@.len());
        assert(forall|i: int| 0 <= i < ws.len() ==> #[trigger] ws[i] == words@[i]@);
        if words.len() == 0 {
            return None;
        }
        let w: Vec<char> = fold(&words[0]);
        if is_text(&w, "add") {
            if words.len() < 6 {
                return None;
            }
            match (parse_side(&words[1]), parse_u128(&words[3]), parse_u128(&words[4])) {
                (Some(side), Some(price), Some(qty)) => {
                    let r: CliCommand = CliCommand::Add { side, asset, price, qty, user: string_of(&words[5]) };
                    assert(add_meaning(ws, asset@) == Some(r@));
                    Some(r)
                },
                _ => None,
            }
        } else if is_text(&w, "engine") {
            if words.len() < 2 {
                return None;
            }
            match parse_mode(&words[1]) {
                Some(mode) => Some(CliCommand::Engine { mode }),
                None => None,
            }
        } else if is_text(&w, "batch") {
            Some(CliCommand::Batch)
        } else if is_text(&w, "amm") {
            Some(CliCommand::Amm)
        } else if is_text(&w, "clear") {
            Some(CliCommand::Clear)
        } else if is_text(&w, "log") {
            Some(CliCommand::Log)
        } else if is_text(&w, "help") {
            Some(CliCommand::Help)
        } else if is_text(&w, "exit") || is_text(&w, "quit") {
            Some(CliCommand::Exit)
        } else {
            None
        }
    }

    /// The command on a line of input.
    pub fn parse(input: &str) -> (r: Option<Self>)
        ensures
            says(r, meaning(words(input@), asset_in(words(input@)))),
    {
        let words: Vec<Vec<char>> = words_of(&chars_of(input));
        assert(views(words@).len() == words@.len());
        let asset: String = if words.len() > 2 {
            assert(views(words@)[2] == words@[2]@);
            to_capitals(string_of(&words[2]).as_str())
        } else {
            string_of(&Vec::new())
        };
        assert(asset@ =~= asset_in(views(words@)));
        CliCommand::from_words(&words, asset)
    }
}

} // verus!
