//! What one turn of the generated dispatch loop does, stated over the parsed
//! program: the `case` whose key equals `pc` runs its statement, with the
//! variables as unsigned 32-bit integers in the cells `A` to `Z` (a letter
//! names the cell of its upper-case form) and `stack` holding return keys.
//! What `PRINT` writes is not part of the state; what `INPUT` reads is any
//! value.
use vstd::prelude::*;
use crate::parser::{
    AddSubtract, MultiplyDivide, Relop, SExpr, SFactor, SLine, SStatement, STerm, strictly_increasing,
};
use crate::text::cell_name;
use crate::transpiler::{dispatch_key, halt_key, next_key};

verus! {

broadcast use vstd::seq::group_seq_axioms;

/// The stack holds this many return keys; one more `GOSUB` stops the program.
pub open spec fn stack_capacity() -> nat {
    256
}

pub struct Machine {
    pub pc: int,
    pub stack: Seq<int>,
    pub vars: Map<char, u32>,
}

pub enum Outcome {
    Running(Machine),
    Halted,
    Fault,
}

pub open spec fn wrap(x: int) -> int {
    x % 0x1_0000_0000
}

pub open spec fn var_value(vars: Map<char, u32>, v: char) -> int {
    if vars.contains_key(v) {
        vars[v] as int
    } else {
        0
    }
}

pub open spec fn eval_factor(f: SFactor, vars: Map<char, u32>) -> int
    decreases f,
{
    match f {
        SFactor::Var(v) => var_value(vars, cell_name(v)),
        SFactor::Number(n) => n as int,
        SFactor::Expression(e) => eval_sum(e, vars),
    }
}

/// A product from `1`, left to right; C leaves division by zero undefined,
/// and so does this.
pub open spec fn eval_product(t: STerm, vars: Map<char, u32>) -> int
    decreases t,
{
    if t.len() == 0 {
        1
    } else {
        let a = eval_product(t.drop_last(), vars);
        let b = eval_factor(t.last().1, vars);
        match t.last().0 {
            MultiplyDivide::Multiply => wrap(a * b),
            MultiplyDivide::Divide => a / b,
        }
    }
}

/// A sum from `0`, left to right, modulo 2^32.
pub open spec fn eval_sum(e: SExpr, vars: Map<char, u32>) -> int
    decreases e,
{
    if e.len() == 0 {
        0
    } else {
        let a = eval_sum(e.drop_last(), vars);
        let b = eval_product(e.last().1, vars);
        match e.last().0 {
            AddSubtract::Add => wrap(a + b),
            AddSubtract::Subtract => wrap(a - b),
        }
    }
}

pub open spec fn compare(a: int, r: Relop, b: int) -> bool {
    match r {
        Relop::Equals => a == b,
        Relop::NotEquals => a != b,
        Relop::GreaterThan => a > b,
        Relop::GreaterThanEquals => a >= b,
        Relop::LessThan => a < b,
        Relop::LessThanEquals => a <= b,
    }
}

/// Whether running statement `s`, with `next` the key of the following line,
/// can take machine `m` to outcome `out`.
pub open spec fn runs_to(s: SStatement, next: int, m: Machine, out: Outcome) -> bool
    decreases s,
{
    match s {
        SStatement::If(l, r, rr, then) => if compare(eval_sum(l, m.vars), r, eval_sum(rr, m.vars)) {
            runs_to(*then, next, m, out)
        } else {
            out == Outcome::Running(Machine { pc: next, ..m })
        },
        SStatement::Goto(e) => out == Outcome::Running(Machine { pc: eval_sum(e, m.vars), ..m }),
        SStatement::Gosub(e) => if m.stack.len() >= stack_capacity() {
            out == Outcome::Fault
        } else {
            out == Outcome::Running(
                Machine { pc: eval_sum(e, m.vars), stack: m.stack.push(next), vars: m.vars },
            )
        },
        SStatement::Return => if m.stack.len() == 0 {
            out == Outcome::Fault
        } else {
            out == Outcome::Running(
                Machine { pc: m.stack.last(), stack: m.stack.drop_last(), vars: m.vars },
            )
        },
        SStatement::End => out == Outcome::Halted,
        SStatement::Let(v, e) => out == Outcome::Running(
            Machine { pc: next, stack: m.stack, vars: m.vars.insert(cell_name(v), eval_sum(e, m.vars) as u32) },
        ),
        SStatement::Input(vs) => match out {
            Outcome::Running(after) => {
                &&& after.pc == next
                &&& after.stack == m.stack
                &&& after.vars.dom() == m.vars.dom() + vs.map_values(|v: char| cell_name(v)).to_set()
                &&& forall|c: char|
                    m.vars.contains_key(c) && !vs.map_values(|v: char| cell_name(v)).contains(c)
                        ==> #[trigger] after.vars[c] == m.vars[c]
            },
            _ => false,
        },
        _ => out == Outcome::Running(Machine { pc: next, ..m }),
    }
}

/// Whether one turn of the dispatch loop can take `m` to `out`.
pub open spec fn step(lines: Seq<SLine>, m: Machine, out: Outcome) -> bool {
    if m.pc == halt_key() {
        out == Outcome::Halted
    } else if exists|k: int| 0 <= k < lines.len() && dispatch_key(#[trigger] lines[k]) == m.pc {
        let k = choose|k: int| 0 <= k < lines.len() && dispatch_key(#[trigger] lines[k]) == m.pc;
        runs_to(lines[k].statement, next_key(lines, k), m, out)
    } else {
        out == Outcome::Fault
    }
}

proof fn lemma_line_of_key(lines: Seq<SLine>, k: int)
    requires
        strictly_increasing(lines),
        0 <= k < lines.len(),
    ensures
        (choose|j: int| 0 <= j < lines.len() && dispatch_key(#[trigger] lines[j]) == dispatch_key(lines[k]))
            == k,
{
    let j = choose|j: int| 0 <= j < lines.len() && dispatch_key(#[trigger] lines[j]) == dispatch_key(lines[k]);
    assert(0 <= j < lines.len() && dispatch_key(lines[j]) == dispatch_key(lines[k]));
    if j < k {
        assert(lines[j].number < lines[k].number);
    } else if k < j {
        assert(lines[k].number < lines[j].number);
    }
}

/// Call-stack discipline of the generated code. At the line of a `GOSUB`
/// with room on the stack, one turn pushes the key of the following line and
/// jumps to the target; with a full stack it stops the program. At the line
/// of a `RETURN`, one turn pops the key on top and resumes there. So a
/// `RETURN` that finds on top the key its `GOSUB` pushed, however deeply the
/// calls nest in between, resumes at the line after that `GOSUB`.
pub proof fn lemma_call_stack_discipline(lines: Seq<SLine>, k: int, m: Machine, out: Outcome)
    requires
        strictly_increasing(lines),
        0 <= k < lines.len(),
        m.pc == dispatch_key(lines[k]),
    ensures
        lines[k].statement is Gosub && m.stack.len() < stack_capacity() ==> (step(lines, m, out) <==> out
            == Outcome::Running(
            Machine {
                pc: eval_sum(lines[k].statement->Gosub_0, m.vars),
                stack: m.stack.push(next_key(lines, k)),
                vars: m.vars,
            },
        )),
        lines[k].statement is Gosub && m.stack.len() >= stack_capacity() ==> (step(lines, m, out) <==> out
            == Outcome::Fault),
        lines[k].statement is Return && m.stack.len() > 0 ==> (step(lines, m, out) <==> out
            == Outcome::Running(Machine { pc: m.stack.last(), stack: m.stack.drop_last(), vars: m.vars })),
        lines[k].statement is Return && m.stack.len() == 0 ==> (step(lines, m, out) <==> out
            == Outcome::Fault),
        next_key(lines, k) == if k + 1 < lines.len() {
            dispatch_key(lines[k + 1])
        } else {
            halt_key()
        },
{
    assert(m.pc != halt_key());
    lemma_line_of_key(lines, k);
}

} // verus!
