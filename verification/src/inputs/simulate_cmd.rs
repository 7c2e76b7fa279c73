//! A replay of recorded orders through both engines: which data is meant,
//! whether to start or go on, when batches close and rows are settled, and
//! what each record leads to.

use vstd::prelude::*;
use crate::inputs::replay_checkpoint::Checkpoint;
use crate::metrics::grid::{bucket, bucket_of, law_bucket_holds_the_moment, on_grid};
use crate::metrics::timeseries::after;
use crate::seqs::min_of;
use crate::text::{ascii_fold, ascii_folded, chars_of, fold, folded, is_text, push_chars, same_text, string_of};
use crate::types::Price;

verus! {

/// The interval width without one in the command, in seconds.
pub const DEFAULT_INTERVAL_SECS: u64 = 1;

/// How far time must be past an interval before its rows are settled, in
/// seconds: more than the farthest look-up reaches.
pub const MARKOUT_GUARD_SECS: u64 = 35;

/// What data a command means.
#[derive(Debug)]
pub enum Source {
    /// Every coin in turn.
    All,
    /// One coin's directory.
    Coin(String),
    /// The path as given.
    Path(String),
}

pub open spec fn is_coin(word: Seq<char>) -> bool {
    folded(word) == "btc"@ || folded(word) == "eth"@ || folded(word) == "sol"@
}

/// The data that a word in a command means.
pub fn resolve_source(path: &str) -> (r: Source)
    ensures
        match r {
            Source::All => ascii_folded(path@) == "all"@,
            Source::Coin(dir) => ascii_folded(path@) != "all"@ && is_coin(path@) && dir@ == "data/order_statuses/"@ + folded(
                path@,
            ),
            Source::Path(p) => ascii_folded(path@) != "all"@ && !is_coin(path@) && p@ == path@,
        },
{
    let chars: Vec<char> = chars_of(path);
    if is_text(&ascii_fold(&chars), "all") {
        return Source::All;
    }
    let w: Vec<char> = fold(&chars);
    if is_text(&w, "btc") || is_text(&w, "eth") || is_text(&w, "sol") {
        let mut dir: Vec<char> = chars_of("data/order_statuses/");
        push_chars(&mut dir, &w);
        Source::Coin(string_of(&dir))
    } else {
        Source::Path(string_of(&chars))
    }
}

/// How a run goes on from what is there.
#[derive(Clone, Copy, Debug, PartialEq, Eq, Structural)]
pub enum RunPlan {
    /// Nothing is there.
    Fresh,
    /// What is there belongs to another run.
    Refuse,
    /// All is done.
    Done,
    /// A run was started, but has written nothing.
    Restart,
    /// A run has written rows; go on after them.
    Append,
}

pub open spec fn plan(prior: Option<Checkpoint>, source: Seq<char>, interval_ns: int, files_total: int) -> RunPlan {
    match prior {
        None => RunPlan::Fresh,
        Some(c) => if c.source@ != source || c.interval_ns != interval_ns || c.files_total != files_total {
            RunPlan::Refuse
        } else if c.complete {
            RunPlan::Done
        } else if c.fba_rows_written == 0 && c.cda_rows_written == 0 {
            RunPlan::Restart
        } else {
            RunPlan::Append
        },
    }
}

/// How a run goes on from what is there.
pub fn plan_run(prior: &Option<Checkpoint>, source: &str, interval_ns: u64, files_total: usize) -> (r: RunPlan)
    ensures
        r == plan(*prior, source@, interval_ns as int, files_total as int),
{
    match prior {
        None => RunPlan::Fresh,
        Some(c) => if !same_text(c.source.as_str(), source) || c.interval_ns != interval_ns || c.files_total != files_total {
            RunPlan::Refuse
        } else if c.complete {
            RunPlan::Done
        } else if c.fba_rows_written == 0 && c.cda_rows_written == 0 {
            RunPlan::Restart
        } else {
            RunPlan::Append
        },
    }
}

/// How a run begins.
#[derive(Clone, Copy, Debug, PartialEq, Eq, Structural)]
pub enum Start {
    /// There is no data.
    NoFiles,
    /// What an earlier run left cannot be read.
    Unreadable,
    /// It goes by this plan.
    Planned(RunPlan),
}

/// How a run over so many files begins; `prior` is what an earlier run left,
/// or why that cannot be read.
pub open spec fn start(
    files_total: int,
    prior: Result<Option<Checkpoint>, String>,
    source: Seq<char>,
    interval_ns: int,
) -> Start {
    if files_total == 0 {
        Start::NoFiles
    } else {
        match prior {
            Err(_) => Start::Unreadable,
            Ok(left) => Start::Planned(plan(left, source, interval_ns, files_total)),
        }
    }
}

/// How a run over so many files begins; `prior` is what an earlier run left,
/// or why that cannot be read.
pub fn start_run(
    files_total: usize,
    prior: &Result<Option<Checkpoint>, String>,
    source: &str,
    interval_ns: u64,
) -> (r: Start)
    ensures
        r == start(files_total as int, *prior, source@, interval_ns as int),
{
    if files_total == 0 {
        return Start::NoFiles;
    }
    match prior {
        Err(_) => Start::Unreadable,
        Ok(left) => Start::Planned(plan_run(left, source, interval_ns, files_total)),
    }
}

/// The exit code of a run: 2 for a bad request, 1 if reading or writing failed
/// on the way, else 0. A run that is done does nothing, so it cannot fail.
pub open spec fn code(start: Start, failed: bool) -> i32 {
    match start {
        Start::NoFiles | Start::Unreadable | Start::Planned(RunPlan::Refuse) => 2,
        Start::Planned(RunPlan::Done) => 0,
        Start::Planned(_) => if failed {
            1
        } else {
            0
        },
    }
}

/// The exit code of a run that began like this, and `failed` or not.
pub fn exit_code(start: Start, failed: bool) -> (r: i32)
    ensures
        r == code(start, failed),
{
    match start {
        Start::NoFiles | Start::Unreadable => 2,
        Start::Planned(plan) => match plan {
            RunPlan::Refuse => 2,
            RunPlan::Done => 0,
            RunPlan::Fresh | RunPlan::Restart | RunPlan::Append => if failed {
                1
            } else {
                0
            },
        },
    }
}

/// The highest of these codes; 0, if none is higher.
pub open spec fn worst(codes: Seq<i32>) -> i32
    decreases codes.len(),
{
    if codes.len() == 0 {
        0
    } else if codes.last() > worst(codes.drop_last()) {
        codes.last()
    } else {
        worst(codes.drop_last())
    }
}

/// The exit code of several runs: the highest of theirs.
pub fn worst_code(codes: &Vec<i32>) -> (r: i32)
    ensures
        r == worst(codes@),
{
    let mut r: i32 = 0;
    let mut i: usize = 0;
    assert(codes@.take(0) =~= Seq::<i32>::empty());
    while i < codes.len()
        invariant
            i <= codes.len(),
            r == worst(codes@.take(i as int)),
        decreases codes.len() - i,
    {
        assert(codes@.take(i + 1).drop_last() =~= codes@.take(i as int));
        if codes[i] > r {
            r = codes[i];
        }
        i += 1;
    }
    assert(codes@.take(i as int) =~= codes@);
    r
}

/// What a run over some data comes upon.
pub struct Case {
    pub files_total: int,
    pub prior: Result<Option<Checkpoint>, String>,
    pub failed: bool,
}

/// Where the data is that a word other than `all` means.
pub open spec fn source_of(word: Seq<char>) -> Seq<char> {
    if is_coin(word) {
        "data/order_statuses/"@ + folded(word)
    } else {
        word
    }
}

/// The exit code of a run over the data that a word means, where `at` tells
/// what it comes upon in each place.
pub open spec fn run_code(word: Seq<char>, interval_ns: int, at: spec_fn(Seq<char>) -> Case) -> i32 {
    if ascii_folded(word) == "all"@ {
        worst(
            seq![
                single_code("btc"@, interval_ns, at),
                single_code("eth"@, interval_ns, at),
                single_code("sol"@, interval_ns, at),
            ],
        )
    } else {
        single_code(word, interval_ns, at)
    }
}

pub open spec fn single_code(word: Seq<char>, interval_ns: int, at: spec_fn(Seq<char>) -> Case) -> i32 {
    let case = at(source_of(word));
    code(start(case.files_total, case.prior, source_of(word), interval_ns), case.failed)
}

/// Every run ends with 0, 1 or 2. It is 2 exactly if there is no data, or what
/// an earlier run left cannot be read or is of another source, interval or
/// number of files; 0, whatever else, if that run is complete; and 1 only if
/// reading or writing failed on the way.
pub proof fn law_exit_codes(word: Seq<char>, interval_ns: int, at: spec_fn(Seq<char>) -> Case)
    ensures
        0 <= run_code(word, interval_ns, at) <= 2,
        ascii_folded(word) != "all"@ ==> {
            let case = at(source_of(word));
            let r = run_code(word, interval_ns, at);
            &&& r == 2 <==> case.files_total == 0 || match case.prior {
                Err(_) => true,
                Ok(None) => false,
                Ok(Some(c)) => c.source@ != source_of(word) || c.interval_ns != interval_ns || c.files_total
                    != case.files_total,
            }
            &&& case.prior matches Ok(Some(c)) ==> (r != 2 && c.complete ==> r == 0 && start(
                case.files_total,
                case.prior,
                source_of(word),
                interval_ns,
            ) == Start::Planned(RunPlan::Done))
            &&& r == 1 ==> case.failed
        },
{
    reveal_with_fuel(worst, 4);
}

/// A run over all data ends with the highest code of the runs over each
/// coin's.
pub proof fn law_all_ends_with_the_worst(word: Seq<char>, interval_ns: int, at: spec_fn(Seq<char>) -> Case)
    requires
        ascii_folded(word) == "all"@,
    ensures
        ({
            let r = run_code(word, interval_ns, at);
            let (btc, eth, sol) = (
                run_code("btc"@, interval_ns, at),
                run_code("eth"@, interval_ns, at),
                run_code("sol"@, interval_ns, at),
            );
            &&& r >= btc && r >= eth && r >= sol
            &&& r == btc || r == eth || r == sol
        }),
{
    reveal_strlit("all");
    reveal_strlit("btc");
    reveal_strlit("eth");
    reveal_strlit("sol");
    assert(ascii_folded("btc"@)[0] != "all"@[0]);
    assert(ascii_folded("eth"@)[0] != "all"@[0]);
    assert(ascii_folded("sol"@)[0] != "all"@[0]);
    law_exit_codes("btc"@, interval_ns, at);
    law_exit_codes("eth"@, interval_ns, at);
    law_exit_codes("sol"@, interval_ns, at);
    let codes: Seq<i32> = seq![
        single_code("btc"@, interval_ns, at),
        single_code("eth"@, interval_ns, at),
        single_code("sol"@, interval_ns, at),
    ];
    let two: Seq<i32> = codes.drop_last();
    let one: Seq<i32> = two.drop_last();
    reveal_with_fuel(worst, 4);
    assert(one.drop_last().len() == 0);
    assert(one.last() == codes[0] && two.last() == codes[1] && codes.last() == codes[2]);
}

/// Up to where rows are settled after a file that is not the last: a whole
/// number of intervals, and `guard` behind both the end of this file and the
/// start of the next one, if that is known. Not before the grid starts.
pub open spec fn settled_upto(
    anchor: Option<int>,
    next_first: Option<int>,
    file_last: int,
    guard: int,
    width: int,
) -> int {
    match anchor {
        None => 0,
        Some(a) => {
            let cap = match next_first {
                Some(nf) => min_of(nf, file_last),
                None => file_last,
            };
            bucket(cap - guard, a, width)
        },
    }
}

pub open spec fn maybe(x: Option<u64>) -> Option<int> {
    match x {
        Some(n) => Some(n as int),
        None => None,
    }
}

/// Up to where rows are settled after a file that is not the last.
pub fn flush_hi(
    anchor: Option<u64>,
    next_first_ts: Option<u64>,
    file_last_ts: u64,
    guard_ns: u64,
    width: u64,
) -> (r: u64)
    requires
        width > 0,
    ensures
        r == settled_upto(maybe(anchor), maybe(next_first_ts), file_last_ts as int, guard_ns as int, width as int),
{
    let a: u64 = match anchor {
        Some(a) => a,
        None => {
            return 0;
        },
    };
    let cap: u64 = match next_first_ts {
        Some(nf) => if nf <= file_last_ts {
            nf
        } else {
            file_last_ts
        },
        None => file_last_ts,
    };
    if cap < guard_ns {
        a
    } else {
        bucket_of(cap - guard_ns, a, width)
    }
}

/// Rows are settled in whole intervals, and only those that time has left
/// behind by the guard.
pub proof fn law_settled_rows_are_left_behind(
    anchor: int,
    next_first: Option<int>,
    file_last: int,
    guard: int,
    width: int,
)
    requires
        width > 0,
        guard >= 0,
    ensures
        on_grid(settled_upto(Some(anchor), next_first, file_last, guard, width), anchor, width),
        settled_upto(Some(anchor), next_first, file_last, guard, width) > anchor ==> {
            &&& settled_upto(Some(anchor), next_first, file_last, guard, width) + guard <= file_last
            &&& next_first is Some ==> settled_upto(Some(anchor), next_first, file_last, guard, width) + guard
                <= next_first->0
        },
{
    let cap: int = match next_first {
        Some(nf) => min_of(nf, file_last),
        None => file_last,
    };
    law_bucket_holds_the_moment(cap - guard, anchor, width);
}

/// The price between the best bid and the best ask, rounded down; of one side
/// alone, its best.
pub open spec fn middle(best_bid: Option<Price>, best_ask: Option<Price>) -> Option<Price> {
    match (best_bid, best_ask) {
        (Some(b), Some(a)) => Some(((b + a) / 2) as u128),
        (Some(b), None) => Some(b),
        (None, Some(a)) => Some(a),
        (None, None) => None,
    }
}

/// The price between the best bid and the best ask.
pub fn midpoint(best_bid: Option<u128>, best_ask: Option<u128>) -> (r: Option<u128>)
    ensures
        r == middle(best_bid, best_ask),
{
    match (best_bid, best_ask) {
        (Some(b), Some(a)) => {
            let m: u128 = b / 2 + a / 2 + (b % 2 + a % 2) / 2;
            assert(m == (b + a) / 2);
            Some(m)
        },
        (Some(b), None) => Some(b),
        (None, Some(a)) => Some(a),
        (None, None) => None,
    }
}

/// The windows of the batches: the current one, from its open to its close.
#[derive(Clone, Copy, Debug)]
pub struct BatchClock {
    width: u64,
    window: Option<(u64, u128)>,
}

/// One window, up to but without its close.
pub struct Window {
    pub open: int,
    pub close: int,
}

/// The windows of the batches, as plain values.
pub struct ClockState {
    pub width: int,
    pub window: Option<Window>,
}

impl View for BatchClock {
    type V = ClockState;

    closed spec fn view(&self) -> ClockState {
        ClockState {
            width: self.width as int,
            window: match self.window {
                Some((open, close)) => Some(Window { open: open as int, close: close as int }),
                None => None,
            },
        }
    }
}

impl ClockState {
    /// The first moment opens the first window.
    pub open spec fn started(self, ts: int) -> ClockState {
        if self.window is Some {
            self
        } else {
            ClockState { window: Some(Window { open: ts, close: ts + self.width }), ..self }
        }
    }

    /// The window that a moment shows to be over.
    pub open spec fn over(self, ts: int) -> Option<Window> {
        match self.window {
            Some(w) => if ts >= w.close {
                Some(w)
            } else {
                None
            },
            None => None,
        }
    }

    /// The next window opens where the last one closed.
    pub open spec fn turned(self) -> ClockState {
        match self.window {
            Some(w) => ClockState { window: Some(Window { open: w.close, close: w.close + self.width }), ..self },
            None => self,
        }
    }
}

impl BatchClock {
    pub closed spec fn wf(&self) -> bool {
        match self.window {
            Some((open, close)) => close == open + self.width,
            None => true,
        }
    }

    /// A clock for windows of this width.
    pub fn new(width: u64) -> (r: Self)
        ensures
            r.wf(),
            r@ == (ClockState { width: width as int, window: None }),
    {
        BatchClock { width, window: None }
    }

    /// Opens the first window, if none is open.
    pub fn start(&mut self, ts: u64)
        requires
            old(self).wf(),
        ensures
            final(self).wf(),
            final(self)@ == old(self)@.started(ts as int),
    {
        if self.window.is_none() {
            self.window = Some((ts, ts as u128 + self.width as u128));
        }
    }

    /// The window that a moment shows to be over.
    pub fn over_at(&self, ts: u64) -> (r: Option<(u64, u64)>)
        ensures
            match r {
                Some((open, close)) => self@.over(ts as int) == Some(Window { open: open as int, close: close as int }),
                None => self@.over(ts as int) is None,
            },
    {
        match self.window {
            Some((open, close)) => if ts as u128 >= close {
                Some((open, close as u64))
            } else {
                None
            },
            None => None,
        }
    }

    /// Opens the next window.
    pub fn turn(&mut self)
        requires
            old(self).wf(),
            old(self)@.window is Some ==> (old(self)@.window->0).close <= u64::MAX,
        ensures
            final(self).wf(),
            final(self)@ == old(self)@.turned(),
    {
        if let Some((_open, close)) = self.window {
            self.window = Some((close as u64, close + self.width as u128));
        }
    }

    /// The width of a window.
    pub fn width(&self) -> (r: u64)
        ensures
            r == self@.width,
    {
        self.width
    }

    /// Where the current window opened.
    pub fn open_ts(&self) -> (r: Option<u64>)
        ensures
            match r {
                Some(open) => self@.window is Some && (self@.window->0).open == open,
                None => self@.window is None,
            },
    {
        match self.window {
            Some((open, _close)) => Some(open),
            None => None,
        }
    }
}

/// The clock after all windows that a moment shows to be over.
pub open spec fn caught_up(clock: ClockState, ts: int) -> ClockState
    decreases
        (match clock.window {
            Some(w) => if ts >= w.close { ts - w.close + 1 } else { 0 },
            None => 0,
        }),
    when clock.width > 0
{
    if clock.over(ts) is Some {
        caught_up(clock.turned(), ts)
    } else {
        clock
    }
}

/// Windows leave no gap and do not overlap: each opens where the one before
/// closed and is as wide as any other; and once the clock has caught up, the
/// current window holds the moment, unless that lies before it.
pub proof fn law_windows_tile_time(clock: ClockState, ts: int)
    requires
        clock.width > 0,
        clock.window is Some,
        (clock.window->0).close == (clock.window->0).open + clock.width,
    ensures
        (clock.turned().window->0).open == (clock.window->0).close,
        (clock.turned().window->0).close == (clock.turned().window->0).open + clock.width,
        caught_up(clock, ts).window is Some,
        ts < (caught_up(clock, ts).window->0).close,
        (caught_up(clock, ts).window->0).close == (caught_up(clock, ts).window->0).open + clock.width,
        ts >= (clock.window->0).open ==> (caught_up(clock, ts).window->0).open <= ts,
    decreases
        (match clock.window {
            Some(w) => if ts >= w.close { ts - w.close + 1 } else { 0 },
            None => 0,
        }),
{
    if clock.over(ts) is Some {
        law_windows_tile_time(clock.turned(), ts);
    }
}

} // verus!
