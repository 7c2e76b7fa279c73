//! Which files of a data directory are read, how, and in which order.

use vstd::prelude::*;
use crate::lexical::{lemma_text_le_prefix, lemma_text_le_total, lemma_text_le_transitive, text_at_most, text_le};
use crate::sorting::{comes_before, sort_positions, TotalKey};
use crate::text::{chars_of, is_text, split, split_at_each, views};

verus! {

/// How the content of a data file is laid out.
#[derive(Clone, Copy, Debug, PartialEq, Eq, Structural)]
pub enum FileKind {
    /// Rows of text.
    Csv,
    /// Compressed records.
    Gzip,
    /// Plain records.
    Plain,
}

/// A file name's extension: what follows its last point. A name whose only
/// point is its first character has none, and neither has `..`.
pub open spec fn extension(name: Seq<char>) -> Option<Seq<char>> {
    let pieces = split(name, '.');
    if pieces.len() < 2 || (pieces.len() == 2 && pieces[0].len() == 0) || name == seq!['.', '.'] {
        None
    } else {
        Some(pieces.last())
    }
}

pub open spec fn kind_of(name: Seq<char>) -> FileKind {
    if extension(name) == Some("csv"@) {
        FileKind::Csv
    } else if extension(name) == Some("gz"@) {
        FileKind::Gzip
    } else {
        FileKind::Plain
    }
}

/// A file name's extension.
pub fn extension_of(name: &str) -> (r: Option<Vec<char>>)
    ensures
        match r {
            Some(e) => extension(name@) == Some(e@),
            None => extension(name@) is None,
        },
{
    let chars: Vec<char> = chars_of(name);
    let mut pieces: Vec<Vec<char>> = split_at_each(&chars, '.');
    let n: usize = pieces.len();
    proof {
        assert(views(pieces@).len() == n);
        assert(views(pieces@)[0] == pieces@[0]@);
        assert(views(pieces@)[n - 1] == pieces@[n - 1]@);
        if name@ == seq!['.', '.'] {
            assert(chars@[0] == '.' && chars@[1] == '.');
        } else if chars@.len() == 2 && chars@[0] == '.' && chars@[1] == '.' {
            assert(name@ =~= seq!['.', '.']);
        }
    }
    if n < 2 || (n == 2 && pieces[0].len() == 0) || (chars.len() == 2 && chars[0] == '.' && chars[1] == '.') {
        return None;
    }
    pieces.pop()
}

/// How the file of this name is read.
pub fn file_kind(name: &str) -> (r: FileKind)
    ensures
        r == kind_of(name@),
{
    match extension_of(name) {
        Some(e) => if is_text(&e, "csv") {
            FileKind::Csv
        } else if is_text(&e, "gz") {
            FileKind::Gzip
        } else {
            FileKind::Plain
        },
        None => FileKind::Plain,
    }
}

/// Whether a file found under a data directory is read at all.
pub fn is_supported_extension(name: &str) -> (r: bool)
    ensures
        r == (extension(name@) == Some("csv"@) || extension(name@) == Some("gz"@)),
{
    match extension_of(name) {
        Some(e) => is_text(&e, "csv") || is_text(&e, "gz"),
        None => false,
    }
}

/// A path with its separators turned into the lowest character, so that the
/// dictionary compares it part by part.
pub open spec fn by_parts(path: Seq<char>) -> Seq<char> {
    Seq::new(
        path.len(),
        |i: int|
            if path[i] == '/' {
                '\0'
            } else {
                path[i]
            },
    )
}

/// Whether `a` is `b` or comes before it, comparing part by part.
pub open spec fn path_le(a: Seq<char>, b: Seq<char>) -> bool {
    text_le(by_parts(a), by_parts(b))
}

/// A path as a sorting key.
pub struct PathKey {
    pub path: Vec<char>,
}

impl TotalKey for PathKey {
    open spec fn le(self, other: Self) -> bool {
        path_le(self.path@, other.path@)
    }

    proof fn le_total(a: Self, b: Self) {
        lemma_text_le_total(by_parts(a.path@), by_parts(b.path@));
    }

    proof fn le_transitive(a: Self, b: Self, c: Self) {
        lemma_text_le_transitive(by_parts(a.path@), by_parts(b.path@), by_parts(c.path@));
    }

    fn at_most(&self, other: &Self) -> (r: bool) {
        text_at_most(&parted(&self.path), &parted(&other.path))
    }
}

fn parted(path: &Vec<char>) -> (r: Vec<char>)
    ensures
        r@ == by_parts(path@),
{
    let mut r: Vec<char> = Vec::new();
    let mut i: usize = 0;
    while i < path.len()
        invariant
            i <= path.len(),
            r@ =~= by_parts(path@).take(i as int),
        decreases path.len() - i,
    {
        if path[i] == '/' {
            r.push('\0');
        } else {
            r.push(path[i]);
        }
        i += 1;
    }
    assert(r@ =~= by_parts(path@));
    r
}

/// The order in which files are read: by path, part by part; the same path
/// twice keeps its order.
pub open spec fn reading_order(paths: Seq<String>, order: Seq<usize>) -> bool {
    &&& order.len() == paths.len()
    &&& forall|i: int| 0 <= i < order.len() ==> #[trigger] order[i] < paths.len()
    &&& forall|x: usize| x < paths.len() ==> #[trigger] order.contains(x)
    &&& forall|i: int, j: int|
        0 <= i < j < order.len() ==> path_le(
            paths[#[trigger] order[i] as int]@,
            paths[#[trigger] order[j] as int]@,
        ) && (order[i] < order[j] || !path_le(paths[order[j] as int]@, paths[order[i] as int]@))
}

/// The positions of the paths in reading order.
pub fn sort_paths(paths: &Vec<String>) -> (r: Vec<usize>)
    ensures
        reading_order(paths@, r@),
{
    let mut keys: Vec<PathKey> = Vec::new();
    let mut i: usize = 0;
    while i < paths.len()
        invariant
            i <= paths.len(),
            keys@.len() == i,
            forall|k: int| 0 <= k < i ==> (#[trigger] keys@[k]).path@ == paths@[k]@,
        decreases paths.len() - i,
    {
        keys.push(PathKey { path: chars_of(paths[i].as_str()) });
        i += 1;
    }
    let r: Vec<usize> = sort_positions(&keys);
    proof {
        assert forall|a: int, b: int| 0 <= a < b < r@.len() implies path_le(
            paths@[#[trigger] r@[a] as int]@,
            paths@[#[trigger] r@[b] as int]@,
        ) && (r@[a] < r@[b] || !path_le(paths@[r@[b] as int]@, paths@[r@[a] as int]@)) by {
            assert(comes_before(keys@, r@[a] as int, r@[b] as int));
            assert(keys@[r@[a] as int].path@ == paths@[r@[a] as int]@);
            assert(keys@[r@[b] as int].path@ == paths@[r@[b] as int]@);
        }
    }
    r
}

/// Within an hour, the file of accepted orders is read before the file of
/// rejected ones.
pub proof fn law_accepted_before_rejected(hour: Seq<char>)
    ensures
        path_le(hour + ".data.gz"@, hour + "_rejected.data.gz"@),
        !path_le(hour + "_rejected.data.gz"@, hour + ".data.gz"@),
{
    reveal_strlit(".data.gz");
    reveal_strlit("_rejected.data.gz");
    let a: Seq<char> = ".data.gz"@;
    let b: Seq<char> = "_rejected.data.gz"@;
    assert(by_parts(hour + a) =~= by_parts(hour) + by_parts(a));
    assert(by_parts(hour + b) =~= by_parts(hour) + by_parts(b));
    lemma_text_le_prefix(by_parts(hour), by_parts(a), by_parts(b));
    lemma_text_le_prefix(by_parts(hour), by_parts(b), by_parts(a));
    assert(by_parts(a)[0] == '.');
    assert(by_parts(b)[0] == '_');
}

} // verus!
