//! The clearing problem of a batch as a linear program, in the text form that
//! solvers read.

use vstd::prelude::*;
use crate::multi_asset::types::{Batch, Order};
use crate::text::{chars_of, decimal, decimal_of, join, joined, push_chars, push_str, string_of, texts, views};
use crate::types::Side;

verus! {

/// A linear program, as plain values.
#[verifier::ext_equal]
pub struct Program {
    pub objective: Seq<char>,
    pub constraints: Seq<Seq<char>>,
    pub bounds: Seq<Seq<char>>,
    pub binaries: Seq<Seq<char>>,
}

/// Lines of a section, indented.
pub open spec fn section(lines: Seq<Seq<char>>) -> Seq<char>
    decreases lines.len(),
{
    if lines.len() == 0 {
        Seq::empty()
    } else {
        section(lines.drop_last()) + "  "@ + lines.last() + "\n"@
    }
}

/// A section under its title; nothing if it has no lines.
pub open spec fn titled(title: Seq<char>, lines: Seq<Seq<char>>) -> Seq<char> {
    if lines.len() == 0 {
        Seq::empty()
    } else {
        title + section(lines)
    }
}

impl Program {
    pub open spec fn empty() -> Program {
        Program { objective: Seq::empty(), constraints: Seq::empty(), bounds: Seq::empty(), binaries: Seq::empty() }
    }

    /// The text of the program.
    pub open spec fn text(self) -> Seq<char> {
        "Minimize\n"@ + "  obj: "@ + self.objective + "\n"@ + "Subject To\n"@ + section(self.constraints) + titled(
            "Bounds\n"@,
            self.bounds,
        ) + titled("Binaries\n"@, self.binaries) + "End\n"@
    }

    pub open spec fn with_constraint(self, name: Seq<char>, expr: Seq<char>) -> Program {
        Program { constraints: self.constraints.push(name + ": "@ + expr), ..self }
    }
}

fn push_section(out: &mut Vec<char>, lines: &Vec<String>)
    ensures
        final(out)@ == old(out)@ + section(texts(lines@)),
{
    let ghost start: Seq<char> = out@;
    let ghost all: Seq<Seq<char>> = texts(lines@);
    let mut i: usize = 0;
    assert(start + section(all.take(0)) =~= start);
    while i < lines.len()
        invariant
            i <= lines.len(),
            all == texts(lines@),
            out@ == start + section(all.take(i as int)),
        decreases lines.len() - i,
    {
        assert(all.take(i + 1).drop_last() =~= all.take(i as int));
        assert(all.take(i + 1).last() == lines@[i as int]@);
        push_str(out, "  ");
        push_str(out, lines[i].as_str());
        push_str(out, "\n");
        assert(out@ =~= start + section(all.take(i + 1)));
        i += 1;
    }
    assert(all.take(i as int) =~= all);
}

/// Builds a linear program line by line.
#[derive(Debug)]
pub struct LPBuilder {
    pub objective: String,
    pub constraints: Vec<String>,
    pub bounds: Vec<String>,
    pub binaries: Vec<String>,
}

impl View for LPBuilder {
    type V = Program;

    open spec fn view(&self) -> Program {
        Program {
            objective: self.objective@,
            constraints: texts(self.constraints@),
            bounds: texts(self.bounds@),
            binaries: texts(self.binaries@),
        }
    }
}

impl Default for LPBuilder {
    fn default() -> (r: Self)
        ensures
            r@ == Program::empty(),
    {
        LPBuilder::new()
    }
}

impl LPBuilder {
    /// A program of nothing.
    pub fn new() -> (r: Self)
        ensures
            r@ == Program::empty(),
    {
        let r: LPBuilder = LPBuilder {
            objective: string_of(&Vec::new()),
            constraints: Vec::new(),
            bounds: Vec::new(),
            binaries: Vec::new(),
        };
        assert(r@ =~= Program::empty());
        r
    }

    /// Sets what is minimized.
    pub fn set_objective(&mut self, expr: &str)
        ensures
            final(self)@ == (Program { objective: expr@, ..old(self)@ }),
    {
        self.objective = expr.to_string();
    }

    /// Adds a constraint under a name.
    pub fn add_constraint(&mut self, name: &str, expr: &str)
        ensures
            final(self)@ == old(self)@.with_constraint(name@, expr@),
    {
        let mut line: Vec<char> = chars_of(name);
        push_str(&mut line, ": ");
        push_str(&mut line, expr);
        self.constraints.push(string_of(&line));
        assert(self@ =~= old(self)@.with_constraint(name@, expr@));
    }

    /// Adds a bound.
    pub fn add_bound(&mut self, bound: &str)
        ensures
            final(self)@ == (Program { bounds: old(self)@.bounds.push(bound@), ..old(self)@ }),
    {
        self.bounds.push(bound.to_string());
        assert(self@ =~= (Program { bounds: old(self)@.bounds.push(bound@), ..old(self)@ }));
    }

    /// Adds a variable that is zero or one.
    pub fn add_binary(&mut self, name: &str)
        ensures
            final(self)@ == (Program { binaries: old(self)@.binaries.push(name@), ..old(self)@ }),
    {
        self.binaries.push(name.to_string());
        assert(self@ =~= (Program { binaries: old(self)@.binaries.push(name@), ..old(self)@ }));
    }

    /// The text of the program.
    pub fn to_lp(&self) -> (r: String)
        ensures
            r@ == self@.text(),
    {
        let mut out: Vec<char> = chars_of("Minimize\n");
        push_str(&mut out, "  obj: ");
        push_str(&mut out, self.objective.as_str());
        push_str(&mut out, "\n");
        push_str(&mut out, "Subject To\n");
        push_section(&mut out, &self.constraints);
        let ghost a: Seq<char> = out@;
        if self.bounds.len() > 0 {
            push_str(&mut out, "Bounds\n");
            push_section(&mut out, &self.bounds);
        }
        assert(out@ =~= a + titled("Bounds\n"@, self@.bounds));
        let ghost b: Seq<char> = out@;
        if self.binaries.len() > 0 {
            push_str(&mut out, "Binaries\n");
            push_section(&mut out, &self.binaries);
        }
        assert(out@ =~= b + titled("Binaries\n"@, self@.binaries));
        push_str(&mut out, "End\n");
        string_of(&out)
    }
}

/// The variable for what is filled of an order.
pub open spec fn variable(o: Order) -> Seq<char> {
    "v_"@ + decimal(o.oid as int)
}

/// The fill of an order is not negative, and no more than its size.
pub open spec fn with_limits(p: Program, o: Order) -> Program {
    p.with_constraint("bound_min_"@ + decimal(o.oid as int), variable(o) + " >= 0"@).with_constraint(
        "bound_max_"@ + decimal(o.oid as int),
        variable(o) + " <= "@ + decimal(o.orig_sz as int),
    )
}

pub open spec fn limits_of(orders: Seq<Order>) -> Program
    decreases orders.len(),
{
    if orders.len() == 0 {
        Program::empty()
    } else {
        with_limits(limits_of(orders.drop_last()), orders.last())
    }
}

/// More fill is better: the negative of it is minimized.
pub open spec fn objective_terms(orders: Seq<Order>) -> Seq<Seq<char>> {
    Seq::new(orders.len(), |i: int| "-1 "@ + variable(orders[i]))
}

/// What is bought comes in, what is sold goes out.
pub open spec fn flow_terms(orders: Seq<Order>) -> Seq<Seq<char>> {
    Seq::new(
        orders.len(),
        |i: int|
            (if orders[i].side() == Side::Buy {
                "+ 1 "@
            } else {
                "- 1 "@
            }) + variable(orders[i]),
    )
}

/// The clearing problem of a batch: fill as much as possible, within each
/// order's size, and buy as much as is sold.
pub open spec fn clearing_program(orders: Seq<Order>) -> Program {
    if orders.len() == 0 {
        Program { objective: "0"@, ..Program::empty() }
    } else {
        (Program { objective: joined(objective_terms(orders), ' '), ..limits_of(orders) }).with_constraint(
            "conservation_base"@,
            joined(flow_terms(orders), ' ') + " = 0"@,
        )
    }
}

fn variable_of(o: &Order) -> (r: Vec<char>)
    ensures
        r@ == variable(*o),
{
    let mut out: Vec<char> = chars_of("v_");
    push_chars(&mut out, &decimal_of(o.oid as u128));
    out
}

fn prefixed(prefix: &str, rest: &Vec<char>) -> (r: Vec<char>)
    ensures
        r@ == prefix@ + rest@,
{
    let mut out: Vec<char> = chars_of(prefix);
    push_chars(&mut out, rest);
    out
}

/// Writes the clearing problem of a batch.
#[derive(Debug)]
pub struct LPEncoder {}

impl Default for LPEncoder {
    fn default() -> Self {
        LPEncoder {}
    }
}

impl LPEncoder {
    pub fn new() -> Self {
        LPEncoder {}
    }

    /// The clearing problem of a batch, as text.
    pub fn encode_batch(&self, batch: &Batch) -> (r: String)
        ensures
            r@ == clearing_program(batch.orders@).text(),
    {
        let mut lp: LPBuilder = LPBuilder::new();
        let mut objective: Vec<Vec<char>> = Vec::new();
        let mut flow: Vec<Vec<char>> = Vec::new();
        let ghost orders: Seq<Order> = batch.orders@;
        let mut i: usize = 0;
        assert(orders.take(0) =~= Seq::<Order>::empty());
        while i < batch.orders.len()
            invariant
                i <= batch.orders.len(),
                orders == batch.orders@,
                lp@ == limits_of(orders.take(i as int)),
                views(objective@) =~= objective_terms(orders).take(i as int),
                views(flow@) =~= flow_terms(orders).take(i as int),
            decreases batch.orders.len() - i,
        {
            let o: &Order = &batch.orders[i];
            assert(orders.take(i + 1).drop_last() =~= orders.take(i as int));
            assert(orders.take(i + 1).last() == *o);
            let v: Vec<char> = variable_of(o);
            let id: Vec<char> = decimal_of(o.oid as u128);
            let mut least: Vec<char> = variable_of(o);
            push_str(&mut least, " >= 0");
            lp.add_constraint(string_of(&prefixed("bound_min_", &id)).as_str(), string_of(&least).as_str());
            let mut most: Vec<char> = variable_of(o);
            push_str(&mut most, " <= ");
            push_chars(&mut most, &decimal_of(o.orig_sz));
            lp.add_constraint(string_of(&prefixed("bound_max_", &id)).as_str(), string_of(&most).as_str());
            let ghost objective0: Seq<Vec<char>> = objective@;
            let ghost flow0: Seq<Vec<char>> = flow@;
            objective.push(prefixed("-1 ", &v));
            match o.side() {
                Side::Buy => {
                    flow.push(prefixed("+ 1 ", &v));
                },
                Side::Sell => {
                    flow.push(prefixed("- 1 ", &v));
                },
            }
            assert(views(objective@) =~= views(objective0).push(objective_terms(orders)[i as int]));
            assert(views(flow@) =~= views(flow0).push(flow_terms(orders)[i as int]));
            i += 1;
        }
        assert(orders.take(i as int) =~= orders);
        assert(views(objective@) =~= objective_terms(orders));
        assert(views(flow@) =~= flow_terms(orders));
        if batch.orders.len() == 0 {
            lp.set_objective("0");
        } else {
            lp.set_objective(string_of(&join(&objective, ' ')).as_str());
            let mut balance: Vec<char> = join(&flow, ' ');
            push_str(&mut balance, " = 0");
            lp.add_constraint("conservation_base", string_of(&balance).as_str());
        }
        lp.to_lp()
    }
}

} // verus!
