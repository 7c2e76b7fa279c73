//! What typed commands mean, in terms of the words that make them.

use vstd::prelude::*;
use crate::inputs::cli::EngineMode;
use crate::simulation::{asset_commands, commands};
use crate::text::{decimal, folded, law_decimal_reads_back};
use crate::types::Side;

verus! {

/// The word for a side.
pub open spec fn side_word(side: Side) -> Seq<char> {
    match side {
        Side::Buy => "buy"@,
        Side::Sell => "sell"@,
    }
}

proof fn lemma_side_word(side: Side, word: Seq<char>)
    requires
        folded(word) == side_word(side),
    ensures
        commands::side_named(word) == Some(side),
{
    reveal_strlit("buy");
    reveal_strlit("sell");
    assert("buy"@[0] == 'b' && "sell"@[0] == 's');
}

proof fn lemma_add_word()
    ensures
        folded("add"@) == "add"@,
{
    reveal_strlit("add");
    assert(folded("add"@) =~= "add"@);
}

/// A typed order means what was typed: its side, in any case, its price and its
/// quantity as they are written out, and its user. More words change nothing,
/// and too few are no order.
pub proof fn law_typed_order_means_itself(
    side: Side,
    word: Seq<char>,
    price: u128,
    quantity: u128,
    user: Seq<char>,
    more: Seq<Seq<char>>,
)
    requires
        folded(word) == side_word(side),
    ensures
        ({
            let typed = seq!["add"@, word, decimal(price as int), decimal(quantity as int), user];
            &&& commands::meaning(typed + more) == Some(
                commands::CommandView::Add { side, price: price as int, qty: quantity as int, user },
            )
            &&& commands::meaning(typed.drop_last()) is None
        }),
{
    let typed: Seq<Seq<char>> = seq!["add"@, word, decimal(price as int), decimal(quantity as int), user];
    let all: Seq<Seq<char>> = typed + more;
    lemma_add_word();
    lemma_side_word(side, word);
    law_decimal_reads_back(price as int, u128::MAX as int);
    law_decimal_reads_back(quantity as int, u128::MAX as int);
    assert(typed[0] == "add"@ && typed[1] == word && typed[2] == decimal(price as int) && typed[3] == decimal(
        quantity as int,
    ) && typed[4] == user);
    assert(all[0] == typed[0] && all[1] == typed[1] && all[2] == typed[2] && all[3] == typed[3] && all[4] == typed[4]);
    let few: Seq<Seq<char>> = typed.drop_last();
    assert(few.len() == 4 && few[0] == "add"@);
    assert(commands::meaning(few) == commands::add_meaning(few));
    assert(all.len() >= 5);
    assert(commands::meaning(all) == commands::add_meaning(all));
}

/// A typed order in an asset means what was typed, with the asset's name as it
/// is handed over.
pub proof fn law_typed_asset_order_means_itself(
    side: Side,
    word: Seq<char>,
    asset_word: Seq<char>,
    asset: Seq<char>,
    price: u128,
    quantity: u128,
    user: Seq<char>,
    more: Seq<Seq<char>>,
)
    requires
        folded(word) == side_word(side),
    ensures
        ({
            let typed = seq!["add"@, word, asset_word, decimal(price as int), decimal(quantity as int), user];
            &&& asset_commands::meaning(typed + more, asset) == Some(
                asset_commands::CommandView::Add { side, asset, price: price as int, qty: quantity as int, user },
            )
            &&& asset_commands::meaning(typed.drop_last(), asset) is None
            &&& asset_commands::asset_in(typed + more) == asset_commands::capitals(asset_word)
        }),
{
    let typed: Seq<Seq<char>> = seq![
        "add"@,
        word,
        asset_word,
        decimal(price as int),
        decimal(quantity as int),
        user,
    ];
    let all: Seq<Seq<char>> = typed + more;
    lemma_add_word();
    lemma_side_word(side, word);
    law_decimal_reads_back(price as int, u128::MAX as int);
    law_decimal_reads_back(quantity as int, u128::MAX as int);
    assert(typed[0] == "add"@ && typed[1] == word && typed[2] == asset_word && typed[3] == decimal(price as int)
        && typed[4] == decimal(quantity as int) && typed[5] == user);
    assert(all[0] == typed[0] && all[1] == typed[1] && all[2] == typed[2] && all[3] == typed[3] && all[4] == typed[4]
        && all[5] == typed[5]);
    let few: Seq<Seq<char>> = typed.drop_last();
    assert(few.len() == 5 && few[0] == "add"@);
    assert(asset_commands::meaning(few, asset) == asset_commands::add_meaning(few, asset));
    assert(all.len() >= 6);
    assert(asset_commands::meaning(all, asset) == asset_commands::add_meaning(all, asset));
}

/// The first word of a command may be in any case.
pub proof fn law_command_word_in_any_case(words: Seq<Seq<char>>, other: Seq<char>, asset: Seq<char>)
    requires
        words.len() > 0,
        folded(other) == folded(words[0]),
    ensures
        commands::meaning(words.update(0, other)) == commands::meaning(words),
        commands::hint(words.update(0, other)) == commands::hint(words),
        asset_commands::meaning(words.update(0, other), asset) == asset_commands::meaning(words, asset),
{
    let v: Seq<Seq<char>> = words.update(0, other);
    assert(v.skip(1) =~= words.skip(1));
    assert(v.len() == words.len());
    assert(forall|i: int| 0 < i < words.len() ==> #[trigger] v[i] == words[i]);
}

/// Every path that is typed is to be loaded, in the order typed; without one
/// there is nothing to load.
pub proof fn law_typed_paths_are_all_loaded(word: Seq<char>, paths: Seq<Seq<char>>)
    requires
        folded(word) == "load"@,
    ensures
        paths.len() > 0 ==> commands::meaning(seq![word] + paths) == Some(commands::CommandView::Load { paths }),
        paths.len() == 0 ==> commands::meaning(seq![word] + paths) is None,
{
    let all: Seq<Seq<char>> = seq![word] + paths;
    reveal_strlit("load");
    reveal_strlit("add");
    reveal_strlit("engine");
    reveal_strlit("batch");
    reveal_strlit("clear");
    reveal_strlit("log");
    reveal_strlit("metrics");
    reveal_strlit("stats");
    assert(all[0] == word);
    assert(all.skip(1) =~= paths);
    assert("load"@[0] == 'l');
    assert("add"@[0] == 'a' && "engine"@[0] == 'e' && "batch"@[0] == 'b' && "clear"@[0] == 'c' && "metrics"@[0] == 'm'
        && "stats"@[0] == 's');
    assert("load"@.len() != "log"@.len());
}

/// Both names of an engine choose it, in any case; a line without a name, or
/// with another, chooses none.
pub proof fn law_engine_is_chosen_by_name(word: Seq<char>, name: Seq<char>, asset: Seq<char>)
    requires
        folded(word) == "engine"@,
    ensures
        folded(name) == "continuous"@ || folded(name) == "cda"@ ==> commands::meaning(seq![word, name]) == Some(
            commands::CommandView::Engine(EngineMode::Continuous),
        ) && asset_commands::meaning(seq![word, name], asset) == Some(
            (asset_commands::CommandView::Engine { mode: EngineMode::Continuous }),
        ),
        folded(name) == "batch"@ || folded(name) == "fba"@ ==> commands::meaning(seq![word, name]) == Some(
            commands::CommandView::Engine(EngineMode::Batch),
        ) && asset_commands::meaning(seq![word, name], asset) == Some(
            (asset_commands::CommandView::Engine { mode: EngineMode::Batch }),
        ),
        folded(name) != "continuous"@ && folded(name) != "cda"@ && folded(name) != "batch"@ && folded(name) != "fba"@
            ==> commands::meaning(seq![word, name]) is None && asset_commands::meaning(seq![word, name], asset) is None
            && commands::hint(seq![word, name]) is Some,
        commands::meaning(seq![word]) is None,
        asset_commands::meaning(seq![word], asset) is None,
        commands::hint(seq![word]) is Some,
{
    reveal_strlit("engine");
    reveal_strlit("add");
    reveal_strlit("continuous");
    reveal_strlit("cda");
    reveal_strlit("batch");
    reveal_strlit("fba");
    let two: Seq<Seq<char>> = seq![word, name];
    let one: Seq<Seq<char>> = seq![word];
    assert(two[0] == word && two[1] == name && one[0] == word);
    assert("engine"@[0] == 'e' && "add"@[0] == 'a');
    assert("continuous"@[0] == 'c' && "cda"@[0] == 'c' && "batch"@[0] == 'b' && "fba"@[0] == 'f');
}

/// A hint is only for a line that is no command.
pub proof fn law_hints_are_for_no_command(words: Seq<Seq<char>>)
    ensures
        commands::hint(words) is Some ==> commands::meaning(words) is None,
{
    reveal_strlit("engine");
    reveal_strlit("add");
    reveal_strlit("batch");
    reveal_strlit("clear");
    reveal_strlit("log");
    reveal_strlit("metrics");
    reveal_strlit("stats");
    reveal_strlit("load");
    assert("load"@[0] == 'l' && "engine"@[0] == 'e' && "add"@[0] == 'a' && "batch"@[0] == 'b' && "clear"@[0] == 'c'
        && "metrics"@[0] == 'm' && "stats"@[0] == 's');
    assert("load"@.len() != "log"@.len());
}

} // verus!
