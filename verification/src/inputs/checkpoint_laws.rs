//! What is left of a time series file after a cut, and where a run keeps its
//! files, in terms of the lines and names given.

use vstd::prelude::*;
use crate::engines::plain::lesser;
use crate::inputs::file_laws::lemma_last_piece;
use crate::inputs::replay_checkpoint::{cut_to, is_slug_char, lemma_first_rows, slug};
use crate::text::{joined, lacks, lemma_split_lacks, lemma_split_none, lines, split, without_return};
use crate::text_laws::law_ended_lines_read_back;

verus! {

/// A cut keeps the header and the first rows, as many as asked for if there are
/// as many, each as it was but for a carriage return at its end. A file that
/// has as many rows as asked for, or no line at all, is left alone.
pub proof fn law_cut_keeps_the_first_rows(content: Seq<char>, keep: int)
    requires
        keep >= 0,
    ensures
        cut_to(content, keep) is None <==> lines(content).len() == 0 || lines(content).len() == keep + 1,
        cut_to(content, keep) matches Some(text) ==> {
            &&& lines(text).len() == lesser(keep, lines(content).len() - 1) + 1
            &&& forall|i: int|
                0 <= i < lines(text).len() ==> #[trigger] lines(text)[i] == without_return(lines(content)[i])
        },
{
    let ls: Seq<Seq<char>> = lines(content);
    if let Some(text) = cut_to(content, keep) {
        let n: int = lesser(keep, ls.len() - 1);
        let kept: Seq<Seq<char>> = ls.take(n + 1);
        let none: Seq<char> = Seq::empty();
        lemma_split_lacks(content, '\n');
        let all: Seq<Seq<char>> = split(content, '\n');
        assert forall|i: int| 0 <= i < kept.len() implies lacks(#[trigger] kept[i], '\n') by {
            assert(lacks(all[i], '\n'));
            assert(kept[i] == ls[i]);
            if i < all.len() - 1 {
                assert(ls[i] == without_return(all[i]));
            }
        }
        lemma_first_rows(ls, n);
        assert(kept.push(none).drop_last() =~= kept);
        assert(joined(kept.push(none), '\n') =~= text);
        law_ended_lines_read_back(kept, none);
        assert forall|i: int| 0 <= i < lines(text).len() implies #[trigger] lines(text)[i] == without_return(ls[i]) by {
            assert(kept[i] == ls[i]);
        }
    }
}

/// The directory of a run is named after the last name of its source, with or
/// without slashes behind it: letters, digits, points, underscores and hyphens
/// stay, and an underscore stands for anything else.
pub proof fn law_slug_is_of_the_last_name(dir: Seq<char>, name: Seq<char>)
    requires
        lacks(name, '/'),
        name.len() > 0,
        name != seq!['.'],
        name != seq!['.', '.'],
    ensures
        slug(dir.push('/') + name) == slug(name),
        slug((dir.push('/') + name).push('/')) == slug(name),
        slug(name).len() == name.len(),
        forall|i: int|
            0 <= i < name.len() ==> #[trigger] slug(name)[i] == (if is_slug_char(name[i]) {
                name[i]
            } else {
                '_'
            }),
        forall|c: char|
            #[trigger] is_slug_char(c) <==> (48 <= c as int <= 57) || (65 <= c as int <= 90) || (97 <= c as int <= 122) || c
                == '.' || c == '_' || c == '-',
{
    let path: Seq<char> = dir.push('/') + name;
    let none: Seq<char> = Seq::empty();
    lemma_last_piece(dir, '/', name);
    lemma_split_none(name, '/');
    lemma_last_piece(path, '/', none);
    assert(path.push('/') + none =~= path.push('/'));
    let short: Seq<Seq<char>> = split(path, '/');
    let long: Seq<Seq<char>> = split(path.push('/'), '/');
    assert(short.last() == name);
    assert(long.last() == none);
    assert(long.drop_last() =~= short);
    assert(split(name, '/').last() == name);
}

} // verus!
