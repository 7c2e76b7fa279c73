//! The archives that can be fetched: their coins, names and addresses, and
//! what the tools that unpack them report.

use vstd::prelude::*;
use crate::inputs::files::{extension, extension_of};
use crate::text::{chars_of, is_text, lines, lines_of, parse_u64, push_str, split, split_at_each, string_of, unsigned_value, views};

verus! {

/// The coins with an archive.
#[derive(Clone, Copy, Debug, PartialEq, Eq, Structural)]
pub enum Coin {
    Btc,
    Eth,
    Sol,
}

impl Coin {
    pub open spec fn label_chars(self) -> Seq<char> {
        match self {
            Coin::Btc => "btc"@,
            Coin::Eth => "eth"@,
            Coin::Sol => "sol"@,
        }
    }

    /// The coin's name in file names and commands.
    pub fn label(self) -> (r: &'static str)
        ensures
            r@ == self.label_chars(),
    {
        match self {
            Coin::Btc => "btc",
            Coin::Eth => "eth",
            Coin::Sol => "sol",
        }
    }

    /// Every coin, once.
    pub fn all() -> (r: [Coin; 3])
        ensures
            r@ == seq![Coin::Btc, Coin::Eth, Coin::Sol],
    {
        let r: [Coin; 3] = [Coin::Btc, Coin::Eth, Coin::Sol];
        assert(r@ =~= seq![Coin::Btc, Coin::Eth, Coin::Sol]);
        r
    }

    pub open spec fn archive_chars(self) -> Seq<char> {
        self.label_chars() + "_orders_202512.tar.xz"@
    }

    /// The file name of the coin's archive.
    pub fn archive_filename(self) -> (r: String)
        ensures
            r@ == self.archive_chars(),
    {
        let mut text: Vec<char> = chars_of(self.label());
        push_str(&mut text, "_orders_202512.tar.xz");
        string_of(&text)
    }

    /// Where the coin's archive is fetched from.
    pub fn url(self) -> (r: String)
        ensures
            r@ == "https://zenodo.org/records/18184441/files/"@ + self.archive_chars() + "?download=1"@,
    {
        let mut text: Vec<char> = chars_of("https://zenodo.org/records/18184441/files/");
        push_str(&mut text, self.archive_filename().as_str());
        push_str(&mut text, "?download=1");
        string_of(&text)
    }
}

/// Which archives a command is about.
#[derive(Clone, Copy, Debug, PartialEq, Eq, Structural)]
pub enum DownloadTarget {
    Coin(Coin),
    All,
}

impl DownloadTarget {
    pub open spec fn coin_list(self) -> Seq<Coin> {
        match self {
            DownloadTarget::Coin(coin) => seq![coin],
            DownloadTarget::All => seq![Coin::Btc, Coin::Eth, Coin::Sol],
        }
    }

    /// The coins to work on, in order.
    pub fn coins(self) -> (r: Vec<Coin>)
        ensures
            r@ == self.coin_list(),
    {
        let mut r: Vec<Coin> = Vec::new();
        match self {
            DownloadTarget::Coin(coin) => {
                r.push(coin);
            },
            DownloadTarget::All => {
                r.push(Coin::Btc);
                r.push(Coin::Eth);
                r.push(Coin::Sol);
            },
        }
        assert(r@ =~= self.coin_list());
        r
    }
}

/// Whether a file shows that a coin's data is already there.
pub fn is_data_file(name: &str) -> (r: bool)
    ensures
        r == (extension(name@) == Some("gz"@) || extension(name@) == Some("data"@)),
{
    match extension_of(name) {
        Some(e) => is_text(&e, "gz") || is_text(&e, "data"),
        None => false,
    }
}

/// The uncompressed size in one line of a machine-readable `xz` listing: the
/// fifth field of a line whose first is `file`.
pub open spec fn size_in_line(line: Seq<char>) -> Option<int> {
    let fields = split(line, '\t');
    if fields[0] == "file"@ && fields.len() >= 5 {
        unsigned_value(fields[4], u64::MAX as int)
    } else {
        None
    }
}

/// The size in the first line that has one.
pub open spec fn size_in_listing(lines: Seq<Seq<char>>) -> Option<int>
    decreases lines.len(),
{
    if lines.len() == 0 {
        None
    } else {
        match size_in_line(lines[0]) {
            Some(n) => Some(n),
            None => size_in_listing(lines.drop_first()),
        }
    }
}

fn size_of_line(line: &Vec<char>) -> (r: Option<u64>)
    ensures
        match r {
            Some(n) => size_in_line(line@) == Some(n as int),
            None => size_in_line(line@) is None,
        },
{
    let fields: Vec<Vec<char>> = split_at_each(line, '\t');
    assert(views(fields@).len() == fields@.len());
    assert(views(fields@)[0] == fields@[0]@);
    if fields.len() < 5 || !is_text(&fields[0], "file") {
        return None;
    }
    assert(views(fields@)[4] == fields@[4]@);
    parse_u64(&fields[4])
}

/// The uncompressed size that an `xz` listing reports.
pub fn parse_xz_listing(listing: &str) -> (r: Option<u64>)
    ensures
        match r {
            Some(n) => size_in_listing(lines(listing@)) == Some(n as int),
            None => size_in_listing(lines(listing@)) is None,
        },
{
    let all: Vec<Vec<char>> = lines_of(&chars_of(listing));
    let ghost ls: Seq<Seq<char>> = lines(listing@);
    assert(ls.skip(0) =~= ls);
    assert(views(all@).len() == all@.len());
    let mut i: usize = 0;
    while i < all.len()
        invariant
            i <= all.len(),
            ls == views(all@),
            ls == lines(listing@),
            size_in_listing(ls) == size_in_listing(ls.skip(i as int)),
        decreases all.len() - i,
    {
        assert(ls.skip(i as int)[0] == all@[i as int]@);
        assert(ls.skip(i as int).drop_first() =~= ls.skip(i + 1));
        match size_of_line(&all[i]) {
            Some(n) => {
                return Some(n);
            },
            None => {},
        }
        i += 1;
    }
    None
}

} // verus!
