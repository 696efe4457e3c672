//! The executor: runs a parsed program on the value stack, one step at a
//! time. Printing, reading input and rounding through floats are outside
//! work: a step hands them back as an `Action`.
use vstd::prelude::*;
use crate::number::{
    Decimal,
    decimal_add,
    decimal_sub,
    decimal_mul,
    decimal_div,
    decimal_to_u64,
    decimal_from_str,
    decimal_sum,
    decimal_difference,
    decimal_product,
    sum_scale_ok,
    difference_scale_ok,
    u64_conversion_ok,
    bigdecimal_quotient,
    bigdecimal_parse,
    decimal_to_u64_spec,
    product_scale_ok,
    quotient_scale_ok,
    bigint_text,
};
use vstd::string::StrSliceExecFns;
use crate::parse::{CodePiece, CodeModel, code_models, block_models, copy_pieces};
use crate::data::{
    QuarkType,
    QuarkStack,
    QuarkMarker,
    ValueModel,
    Entry,
    stack_pop,
    stack_push,
    nonempty,
    mark_top,
    has_flags,
    no_input_vars,
    value_models,
    lemma_array_model,
    lemma_pop_no_input_vars,
    lemma_push_no_input_vars,
    lemma_toggle_no_input_vars,
    ARRAY_BEGIN_BITS,
    PINNED_BITS,
};

verus! {

/// The kind of loop that a block end hands control to.
#[derive(Clone, Copy, Debug, PartialEq, Eq, Structural)]
pub enum LoopKind {
    While,
    Repeat,
}

/// The state a loop keeps: the block it repeats.
#[derive(Debug)]
enum CmdState {
    WhileLoop(Vec<CodePiece>),
    RepeatLoop(Vec<CodePiece>),
}

/// Where a program fails.
#[derive(Clone, Copy, Debug, PartialEq, Eq, Structural)]
pub enum Fault {
    /// A loop went round again on an empty block.
    EmptyLoopBody,
    /// A division by zero.
    DivisionByZero,
    /// A decimal scale left the range of `i64`.
    ScaleOverflow,
    /// Two scales lay too far apart to bring one to the other.
    ScaleGap,
    /// A range bound was negative or too large for `u64`.
    RangeBound,
}

/// What a step asks of its caller.
#[derive(Debug)]
pub enum Action {
    /// Nothing: take the next step.
    Continue,
    /// Print this value.
    Print(QuarkType),
    /// Warn of this unknown command.
    Warn(usize),
    /// Read a number and hand it to `provide_input`.
    RequestInput,
    /// Push the floor of this number (with `push_number`).
    Floor(Decimal),
    /// Push the ceiling of this number (with `push_number`).
    Ceil(Decimal),
    /// The program has ended: show the stack.
    Halt,
    /// The program fails here.
    Abort(Fault),
    /// The program would run on forever (collecting an array with no
    /// array mark below).
    Diverge,
}

/// The mathematical form of an `Action`.
pub ghost enum ActionModel {
    Continue,
    Print(ValueModel),
    Warn(nat),
    RequestInput,
    Floor((int, int)),
    Ceil((int, int)),
    Halt,
    Abort(Fault),
    Diverge,
}

impl Action {
    pub open spec fn model(&self) -> ActionModel {
        match self {
            Action::Continue => ActionModel::Continue,
            Action::Print(v) => ActionModel::Print(v.model()),
            Action::Warn(p) => ActionModel::Warn(*p as nat),
            Action::RequestInput => ActionModel::RequestInput,
            Action::Floor(d) => ActionModel::Floor(d@),
            Action::Ceil(d) => ActionModel::Ceil(d@),
            Action::Halt => ActionModel::Halt,
            Action::Abort(f) => ActionModel::Abort(*f),
            Action::Diverge => ActionModel::Diverge,
        }
    }
}

/// The mathematical form of the executor.
pub ghost struct ExecModel {
    /// The value stack.
    pub stack: Seq<Entry>,
    /// The program.
    pub code: Seq<CodeModel>,
    /// How much of the program has been taken.
    pub code_pos: nat,
    /// The blocks being run, innermost last.
    pub blocks: Seq<Seq<CodeModel>>,
    /// How much of each block has been taken.
    pub positions: Seq<nat>,
    /// The loops to hand control to at block ends, last first.
    pub handlers: Seq<LoopKind>,
    /// The loops' states: kind and block.
    pub states: Seq<(LoopKind, Seq<CodeModel>)>,
}

pub open spec fn with_stack(m: ExecModel, s: Seq<Entry>) -> ExecModel {
    ExecModel { stack: s, ..m }
}

/// The block frames are consistent: a position for each block, within it.
pub open spec fn frames_ok(m: ExecModel) -> bool {
    &&& m.blocks.len() == m.positions.len()
    &&& forall|i: int| 0 <= i < m.blocks.len() ==> #[trigger] m.positions[i] <= m.blocks[i].len()
}

/// Each loop handler has its state, of the same kind.
pub open spec fn loops_ok(handlers: Seq<LoopKind>, states: Seq<(LoopKind, Seq<CodeModel>)>) -> bool {
    &&& handlers.len() == states.len()
    &&& forall|i: int| 0 <= i < handlers.len() ==> #[trigger] handlers[i] == states[i].0
}

/// The invariant of the executor.
pub open spec fn exec_wf(m: ExecModel) -> bool {
    &&& frames_ok(m)
    &&& loops_ok(m.handlers, m.states)
    &&& m.code_pos <= m.code.len()
    &&& no_input_vars(m.stack)
}

// ---------------------------------------------------------------- commands

/// Arithmetic commands.
#[derive(Clone, Copy, Debug, PartialEq, Eq, Structural)]
pub enum ArithOp {
    Add,
    Sub,
    Mul,
    Div,
}

/// The outcome of an arithmetic command on two numbers `a` (popped first)
/// and `b`.
pub open spec fn arith_result(op: ArithOp, a: (int, int), b: (int, int)) -> Result<(int, int), Fault> {
    match op {
        ArithOp::Add => if sum_scale_ok(a, b) {
            Ok(decimal_sum(a, b))
        } else {
            Err(Fault::ScaleGap)
        },
        ArithOp::Sub => if difference_scale_ok(a, b) {
            Ok(decimal_difference(a, b))
        } else {
            Err(Fault::ScaleGap)
        },
        ArithOp::Mul => if product_scale_ok(a, b) {
            Ok(decimal_product(a, b))
        } else {
            Err(Fault::ScaleOverflow)
        },
        ArithOp::Div => if b.0 == 0 {
            Err(Fault::DivisionByZero)
        } else if quotient_scale_ok(a, b) {
            Ok(bigdecimal_quotient(a, b))
        } else {
            Err(Fault::ScaleOverflow)
        },
    }
}

/// An arithmetic command: pops `x`; if it is a number pops `y`; if that
/// is a number too, pushes `x op y`. A popped value that is not a number
/// is dropped.
pub open spec fn arith_spec(s: Seq<Entry>, op: ArithOp) -> (Seq<Entry>, Option<Fault>) {
    let (s1, x) = stack_pop(s);
    if let ValueModel::Number(a) = x {
        let (s2, y) = stack_pop(s1);
        if let ValueModel::Number(b) = y {
            match arith_result(op, a, b) {
                Ok(r) => (stack_push(s2, ValueModel::Number(r)), None),
                Err(f) => (s2, Some(f)),
            }
        } else {
            (s2, None)
        }
    } else {
        (s1, None)
    }
}

/// The numbers `lo` to `hi`, both included, at scale 0.
pub open spec fn range_values(lo: u64, hi: u64) -> Seq<ValueModel> {
    Seq::new(
        if hi >= lo { (hi - lo + 1) as nat } else { 0 },
        |k: int| ValueModel::Number((lo + k, 0int)),
    )
}

/// Pops `x`; if it is a number pops `y`; if that is a number too, pushes
/// the array of the whole numbers from `y` to `x` (each taken by its
/// integer part); a bound that is negative or too large for `u64` fails.
/// The lower bound is converted first; a positive bound at the scale
/// `i64::MIN` cannot be brought to scale 0.
pub open spec fn range_spec(s: Seq<Entry>) -> (Seq<Entry>, Option<Fault>) {
    let (s1, x) = stack_pop(s);
    if let ValueModel::Number(a) = x {
        let (s2, y) = stack_pop(s1);
        if let ValueModel::Number(b) = y {
            if !u64_conversion_ok(b) {
                (s2, Some(Fault::ScaleGap))
            } else if decimal_to_u64_spec(b) is None {
                (s2, Some(Fault::RangeBound))
            } else if !u64_conversion_ok(a) {
                (s2, Some(Fault::ScaleGap))
            } else if decimal_to_u64_spec(a) is None {
                (s2, Some(Fault::RangeBound))
            } else {
                let lo = decimal_to_u64_spec(b)->Some_0;
                let hi = decimal_to_u64_spec(a)->Some_0;
                (stack_push(s2, ValueModel::Array(range_values(lo, hi))), None)
            }
        } else {
            (s2, None)
        }
    } else {
        (s1, None)
    }
}

/// Collecting an array: values are popped into the array, top first,
/// down to and including the element marked as an array begin; the array
/// is then pushed. Without such a mark below, or with a pinned unmarked
/// element on the way, collecting never ends: this gives the stack at
/// that point and `true`.
pub open spec fn collect_spec(s: Seq<Entry>, acc: Seq<ValueModel>) -> (Seq<Entry>, bool)
    decreases s.len(),
{
    if s.len() == 0 {
        (s, true)
    } else if has_flags(s.last().1, ARRAY_BEGIN_BITS) {
        let (s2, v) = stack_pop(s);
        (stack_push(s2, ValueModel::Array(acc.push(v))), false)
    } else if has_flags(s.last().1, PINNED_BITS) {
        (s, true)
    } else {
        collect_spec(s.drop_last(), acc.push(s.last().0))
    }
}

/// Pops a value; an array is replaced by its length.
pub open spec fn length_spec(s: Seq<Entry>) -> Seq<Entry> {
    let (s1, v) = stack_pop(s);
    if let ValueModel::Array(a) = v {
        stack_push(s1, ValueModel::Number((a.len() as int, 0int)))
    } else {
        s1
    }
}

/// Pops a value and pushes it twice.
pub open spec fn dup_spec(s: Seq<Entry>) -> Seq<Entry> {
    let (s1, v) = stack_pop(s);
    stack_push(stack_push(s1, v), v)
}

/// Toggles the flag `bit` on the top element.
pub open spec fn toggle_spec(s: Seq<Entry>, bit: u32) -> Seq<Entry> {
    mark_top(nonempty(s), nonempty(s).last().1 ^ bit)
}

/// Pops a value; a block is run next.
pub open spec fn exec_block_spec(m: ExecModel) -> ExecModel {
    let (s1, v) = stack_pop(m.stack);
    if let ValueModel::Block(b) = v {
        ExecModel { stack: s1, blocks: m.blocks.push(b), positions: m.positions.push(0), ..m }
    } else {
        with_stack(m, s1)
    }
}

/// Pops a value; a block is run next, and at its end control goes to a
/// loop of kind `kind` over it.
pub open spec fn loop_start_spec(m: ExecModel, kind: LoopKind) -> ExecModel {
    let (s1, v) = stack_pop(m.stack);
    if let ValueModel::Block(b) = v {
        ExecModel {
            stack: s1,
            blocks: m.blocks.push(b),
            positions: m.positions.push(0),
            handlers: m.handlers.push(kind),
            states: m.states.push((kind, b)),
            ..m
        }
    } else {
        with_stack(m, s1)
    }
}

/// A loop's handler at the end of a block (its own handler entry already
/// taken off). A while loop pops a condition: a non-zero number starts
/// the loop's block again; anything else ends the loop (its block and
/// state are dropped). A repeat loop always starts its block again.
/// Returns whether the block was started again.
pub open spec fn loop_end_spec(m: ExecModel, kind: LoopKind) -> (ExecModel, bool) {
    let b = m.states.last().1;
    match kind {
        LoopKind::While => {
            let (s1, v) = stack_pop(m.stack);
            let again = match v {
                ValueModel::Number(d) => d.0 != 0,
                _ => false,
            };
            if again {
                (
                    ExecModel {
                        stack: s1,
                        blocks: m.blocks.drop_last().push(b),
                        positions: m.positions.drop_last().push(0),
                        handlers: m.handlers.push(LoopKind::While),
                        ..m
                    },
                    true,
                )
            } else {
                (
                    ExecModel {
                        stack: s1,
                        blocks: m.blocks.drop_last(),
                        positions: m.positions.drop_last(),
                        states: m.states.drop_last(),
                        ..m
                    },
                    false,
                )
            }
        },
        LoopKind::Repeat => (
            ExecModel {
                blocks: m.blocks.drop_last().push(b),
                positions: m.positions.drop_last().push(0),
                handlers: m.handlers.push(LoopKind::Repeat),
                ..m
            },
            true,
        ),
    }
}

pub open spec fn fault_action(f: Option<Fault>) -> ActionModel {
    match f {
        Some(x) => ActionModel::Abort(x),
        None => ActionModel::Continue,
    }
}

/// One command.
pub open spec fn command_spec(m: ExecModel, p: nat) -> (ExecModel, ActionModel) {
    let s = m.stack;
    if p == 0 || p == 1 {
        (m, ActionModel::Continue)
    } else if 12 <= p <= 15 {
        let op = if p == 12 {
            ArithOp::Add
        } else if p == 13 {
            ArithOp::Sub
        } else if p == 14 {
            ArithOp::Mul
        } else {
            ArithOp::Div
        };
        let (s1, f) = arith_spec(s, op);
        (with_stack(m, s1), fault_action(f))
    } else if p == 16 {
        (exec_block_spec(m), ActionModel::Continue)
    } else if p == 18 {
        let (s1, f) = range_spec(s);
        (with_stack(m, s1), fault_action(f))
    } else if 19 <= p <= 22 {
        let n: int = if p == 19 {
            360
        } else if p == 20 {
            180
        } else if p == 21 {
            90
        } else {
            270
        };
        (with_stack(m, stack_push(s, ValueModel::Number((n, 0int)))), ActionModel::Continue)
    } else if p == 25 || p == 26 {
        let (s1, v) = stack_pop(s);
        if let ValueModel::Number(d) = v {
            (with_stack(m, s1), if p == 25 { ActionModel::Ceil(d) } else { ActionModel::Floor(d) })
        } else {
            (with_stack(m, stack_push(s1, v)), ActionModel::Continue)
        }
    } else if p == 28 {
        (m, ActionModel::RequestInput)
    } else if p == 31 {
        (loop_start_spec(m, LoopKind::Repeat), ActionModel::Continue)
    } else if p == 34 {
        (loop_start_spec(m, LoopKind::While), ActionModel::Continue)
    } else if p == 37 {
        (with_stack(m, dup_spec(s)), ActionModel::Continue)
    } else if p == 41 {
        let (s1, v) = stack_pop(s);
        (with_stack(m, s1), ActionModel::Print(v))
    } else if p == 53 {
        (with_stack(m, toggle_spec(s, ARRAY_BEGIN_BITS)), ActionModel::Continue)
    } else if p == 54 {
        let (s1, diverges) = collect_spec(s, seq![]);
        (with_stack(m, s1), if diverges { ActionModel::Diverge } else { ActionModel::Continue })
    } else if p == 69 {
        (with_stack(m, length_spec(s)), ActionModel::Continue)
    } else if p == 74 {
        (with_stack(m, toggle_spec(s, PINNED_BITS)), ActionModel::Continue)
    } else {
        (m, ActionModel::Warn(p))
    }
}

/// Running one piece of code: a number or a block is pushed, a command run.
pub open spec fn piece_spec(m: ExecModel, c: CodeModel) -> (ExecModel, ActionModel) {
    match c {
        CodeModel::Number(n) => (
            with_stack(m, stack_push(m.stack, ValueModel::Number((n, 0int)))),
            ActionModel::Continue,
        ),
        CodeModel::Block(b) => (with_stack(m, stack_push(m.stack, ValueModel::Block(b))), ActionModel::Continue),
        CodeModel::Point(p) => command_spec(m, p),
    }
}

/// What fetching the next piece found.
pub ghost enum Fetched {
    Piece(CodeModel),
    /// The program's own code has run out.
    Exhausted,
    /// A loop started again on an empty block.
    EmptyLoop,
}

/// The next piece of the program's own code.
pub open spec fn next_top(m: ExecModel) -> (ExecModel, Fetched) {
    if m.code_pos < m.code.len() {
        (ExecModel { code_pos: m.code_pos + 1, ..m }, Fetched::Piece(m.code[m.code_pos as int]))
    } else {
        (m, Fetched::Exhausted)
    }
}

/// The next piece of the innermost block.
pub open spec fn next_in_block(m: ExecModel) -> (ExecModel, Fetched) {
    let t = m.blocks.len() - 1;
    (
        ExecModel { positions: m.positions.update(t, m.positions[t] + 1), ..m },
        Fetched::Piece(m.blocks[t][m.positions[t] as int]),
    )
}

pub open spec fn drop_last_or_keep<A>(s: Seq<A>) -> Seq<A> {
    if s.len() > 0 {
        s.drop_last()
    } else {
        s
    }
}

/// Fetching the next piece. With no block running it comes from the
/// program's own code. Otherwise it is the innermost block's next piece;
/// at the end of that block the last loop handler (if any) is taken off
/// and run: if it starts a block again, that block's first piece comes
/// next; if not, the next piece of the program's own code comes next and
/// the innermost block is dropped.
pub open spec fn fetch_spec(m: ExecModel) -> (ExecModel, Fetched) {
    if m.blocks.len() == 0 {
        next_top(m)
    } else {
        let t = m.blocks.len() - 1;
        if m.blocks[t].len() > m.positions[t] {
            next_in_block(m)
        } else {
            let (m1, again) = if m.handlers.len() > 0 {
                loop_end_spec(ExecModel { handlers: m.handlers.drop_last(), ..m }, m.handlers.last())
            } else {
                (m, false)
            };
            if again {
                let t1 = m1.blocks.len() - 1;
                if m1.blocks[t1].len() > m1.positions[t1] {
                    next_in_block(m1)
                } else {
                    (m1, Fetched::EmptyLoop)
                }
            } else {
                let (m2, f) = next_top(m1);
                (
                    ExecModel {
                        blocks: drop_last_or_keep(m2.blocks),
                        positions: drop_last_or_keep(m2.positions),
                        ..m2
                    },
                    f,
                )
            }
        }
    }
}

/// One step of the executor: fetch a piece and run it.
pub open spec fn step_spec(m: ExecModel) -> (ExecModel, ActionModel) {
    let (m1, f) = fetch_spec(m);
    match f {
        Fetched::Piece(c) => piece_spec(m1, c),
        Fetched::Exhausted => (m1, ActionModel::Halt),
        Fetched::EmptyLoop => (m1, ActionModel::Abort(Fault::EmptyLoopBody)),
    }
}


// ---------------------------------------------------------------- executor

/// Runs a program on the value stack.
pub struct Executor {
    stack: QuarkStack,
    code: Vec<CodePiece>,
    code_pos: usize,
    curr_block: Vec<Vec<CodePiece>>,
    curr_block_pos: Vec<usize>,
    on_block_end: Vec<LoopKind>,
    state: Vec<CmdState>,
}

spec fn state_model(c: CmdState) -> (LoopKind, Seq<CodeModel>) {
    match c {
        CmdState::WhileLoop(b) => (LoopKind::While, code_models(b@)),
        CmdState::RepeatLoop(b) => (LoopKind::Repeat, code_models(b@)),
    }
}

/// The state of the executor before a loop's handler runs: its own entry
/// taken off the handlers, so that the loop's state is one ahead.
pub open spec fn handler_ready(m: ExecModel, kind: LoopKind) -> bool {
    &&& frames_ok(m)
    &&& m.blocks.len() > 0
    &&& m.states.len() == m.handlers.len() + 1
    &&& loops_ok(m.handlers, m.states.drop_last())
    &&& m.states.last().0 == kind
    &&& m.code_pos <= m.code.len()
    &&& no_input_vars(m.stack)
}

impl Executor {
    pub closed spec fn model(&self) -> ExecModel {
        ExecModel {
            stack: self.stack.model(),
            code: code_models(self.code@),
            code_pos: self.code_pos as nat,
            blocks: block_models(self.curr_block@),
            positions: Seq::new(self.curr_block_pos@.len(), |i: int| self.curr_block_pos@[i] as nat),
            handlers: self.on_block_end@,
            states: Seq::new(self.state@.len(), |i: int| state_model(self.state@[i])),
        }
    }

    /// The executor's invariant, which every operation keeps.
    pub open spec fn wf(&self) -> bool {
        exec_wf(self.model())
    }

    /// An executor at the start of `code`, with an empty stack.
    pub fn new(code: Vec<CodePiece>) -> (r: Executor)
        ensures
            r.model() == start_model(code_models(code@)),
            r.wf(),
    {
        let r = Executor {
            code,
            stack: QuarkStack::new(),
            curr_block: Vec::new(),
            curr_block_pos: Vec::new(),
            on_block_end: Vec::new(),
            state: Vec::new(),
            code_pos: 0,
        };
        proof {
            assert(r.model().blocks =~= Seq::<Seq<CodeModel>>::empty());
            assert(r.model().positions =~= Seq::<nat>::empty());
            assert(r.model().states =~= Seq::<(LoopKind, Seq<CodeModel>)>::empty());
        }
        r
    }

    /// The value stack.
    pub fn stack(&self) -> (r: &QuarkStack)
        ensures
            r.model() == self.model().stack,
    {
        &self.stack
    }

    /// Pushes a number: the result of a `Floor` or `Ceil` action.
    pub fn push_number(&mut self, d: Decimal)
        requires
            old(self).wf(),
        ensures
            final(self).wf(),
            final(self).model() == with_stack(
                old(self).model(),
                stack_push(old(self).model().stack, ValueModel::Number(d@)),
            ),
    {
        proof {
            lemma_push_no_input_vars(self.stack.model(), ValueModel::Number(d@));
        }
        self.stack.push(QuarkType::Number(d));
    }

    /// Hands over the text read for a `RequestInput` action: a number is
    /// pushed and `true` returned; a text that is no number changes
    /// nothing and gives `false`.
    pub fn provide_input(&mut self, text: &str) -> (r: bool)
        requires
            old(self).wf(),
        ensures
            final(self).wf(),
            r == (bigdecimal_parse(text@) is Some),
            r ==> final(self).model() == with_stack(
                old(self).model(),
                stack_push(
                    old(self).model().stack,
                    ValueModel::Number(bigdecimal_parse(text@)->Some_0),
                ),
            ),
            !r ==> final(self).model() == old(self).model(),
    {
        match decimal_from_str(text) {
            Some(d) => {
                self.push_number(d);
                true
            },
            None => false,
        }
    }
}

fn arith_cmd(s: &mut QuarkStack, op: ArithOp) -> (r: Option<Fault>)
    requires
        no_input_vars(old(s).model()),
    ensures
        (final(s).model(), r) == arith_spec(old(s).model(), op),
        no_input_vars(final(s).model()),
{
    proof {
        lemma_pop_no_input_vars(s.model());
    }
    match s.pop() {
        QuarkType::Number(x) => {
            proof {
                lemma_pop_no_input_vars(s.model());
            }
            match s.pop() {
                QuarkType::Number(y) => {
                    let r = match op {
                        ArithOp::Add => {
                            if !x.can_add(&y) {
                                return Some(Fault::ScaleGap);
                            }
                            decimal_add(&x, &y)
                        },
                        ArithOp::Sub => {
                            if !x.can_subtract(&y) {
                                return Some(Fault::ScaleGap);
                            }
                            decimal_sub(&x, &y)
                        },
                        ArithOp::Mul => {
                            if !x.can_multiply(&y) {
                                return Some(Fault::ScaleOverflow);
                            }
                            decimal_mul(&x, &y)
                        },
                        ArithOp::Div => {
                            if y.is_zero() {
                                return Some(Fault::DivisionByZero);
                            }
                            if !x.is_zero() && !y.is_quick_one() {
                                let digits = bigint_text(&y.digits);
                                let n = digits.as_str().unicode_len();
                                let d: i128 = x.scale as i128 - y.scale as i128;
                                if d < i64::MIN as i128 || d + n as i128 + 100 > i64::MAX as i128 {
                                    return Some(Fault::ScaleOverflow);
                                }
                            }
                            decimal_div(&x, &y)
                        },
                    };
                    proof {
                        lemma_push_no_input_vars(s.model(), ValueModel::Number(r@));
                    }
                    s.push(QuarkType::Number(r));
                    None
                },
                _ => None,
            }
        },
        _ => None,
    }
}

fn add_cmd(e: &mut Executor) -> (r: Option<Fault>)
    requires
        old(e).wf(),
    ensures
        final(e).wf(),
        (final(e).model().stack, r) == arith_spec(old(e).model().stack, ArithOp::Add),
        final(e).model() == with_stack(old(e).model(), final(e).model().stack),
{
    arith_cmd(&mut e.stack, ArithOp::Add)
}

fn subtract_cmd(e: &mut Executor) -> (r: Option<Fault>)
    requires
        old(e).wf(),
    ensures
        final(e).wf(),
        (final(e).model().stack, r) == arith_spec(old(e).model().stack, ArithOp::Sub),
        final(e).model() == with_stack(old(e).model(), final(e).model().stack),
{
    arith_cmd(&mut e.stack, ArithOp::Sub)
}

fn multiply_cmd(e: &mut Executor) -> (r: Option<Fault>)
    requires
        old(e).wf(),
    ensures
        final(e).wf(),
        (final(e).model().stack, r) == arith_spec(old(e).model().stack, ArithOp::Mul),
        final(e).model() == with_stack(old(e).model(), final(e).model().stack),
{
    arith_cmd(&mut e.stack, ArithOp::Mul)
}

fn divide_cmd(e: &mut Executor) -> (r: Option<Fault>)
    requires
        old(e).wf(),
    ensures
        final(e).wf(),
        (final(e).model().stack, r) == arith_spec(old(e).model().stack, ArithOp::Div),
        final(e).model() == with_stack(old(e).model(), final(e).model().stack),
{
    arith_cmd(&mut e.stack, ArithOp::Div)
}


fn to_range(e: &mut Executor) -> (r: Option<Fault>)
    requires
        old(e).wf(),
    ensures
        final(e).wf(),
        (final(e).model().stack, r) == range_spec(old(e).model().stack),
        final(e).model() == with_stack(old(e).model(), final(e).model().stack),
{
    proof {
        lemma_pop_no_input_vars(e.stack.model());
    }
    match e.stack.pop() {
        QuarkType::Number(x) => {
            proof {
                lemma_pop_no_input_vars(e.stack.model());
            }
            match e.stack.pop() {
                QuarkType::Number(y) => {
                    if !y.can_convert_to_u64() {
                        return Some(Fault::ScaleGap);
                    }
                    let lo = match decimal_to_u64(&y) {
                        Some(v) => v,
                        None => return Some(Fault::RangeBound),
                    };
                    if !x.can_convert_to_u64() {
                        return Some(Fault::ScaleGap);
                    }
                    let hi = match decimal_to_u64(&x) {
                        Some(v) => v,
                        None => return Some(Fault::RangeBound),
                    };
                    let mut new: Vec<QuarkType> = Vec::new();
                    if lo <= hi {
                        let mut i: u64 = lo;
                        loop
                            invariant_except_break
                                lo <= i <= hi,
                                new@.len() == i - lo,
                                forall|k: int|
                                    0 <= k < new@.len() ==> #[trigger] new@[k].model() == ValueModel::Number(
                                        (lo + k, 0int),
                                    ),
                            ensures
                                new@.len() == hi - lo + 1,
                                forall|k: int|
                                    0 <= k < new@.len() ==> #[trigger] new@[k].model() == ValueModel::Number(
                                        (lo + k, 0int),
                                    ),
                            decreases hi - i,
                        {
                            new.push(QuarkType::Number(Decimal::from_u64(i)));
                            if i == hi {
                                break;
                            }
                            i = i + 1;
                        }
                    }
                    proof {
                        lemma_array_model(new);
                        assert(value_models(new@) =~= range_values(lo, hi));
                        lemma_push_no_input_vars(
                            e.stack.model(),
                            ValueModel::Array(range_values(lo, hi)),
                        );
                    }
                    e.stack.push(QuarkType::Array(new));
                    None
                },
                _ => None,
            }
        },
        _ => None,
    }
}

fn collect_array(e: &mut Executor) -> (diverges: bool)
    requires
        old(e).wf(),
    ensures
        final(e).wf(),
        (final(e).model().stack, diverges) == collect_spec(old(e).model().stack, seq![]),
        final(e).model() == with_stack(old(e).model(), final(e).model().stack),
{
    let mut newarr: Vec<QuarkType> = Vec::new();
    let ghost start = e.model();
    proof {
        assert(value_models(newarr@) =~= seq![]);
    }
    loop
        invariant
            e.wf(),
            start == old(e).model(),
            e.model() == with_stack(start, e.model().stack),
            collect_spec(e.model().stack, value_models(newarr@)) == collect_spec(start.stack, seq![]),
        decreases e.model().stack.len(),
    {
        let ghost cur = e.model().stack;
        if e.stack.is_end() {
            return true;
        }
        let f = e.stack.flags();
        if f.contains(QuarkMarker::array_begin()) {
            proof {
                lemma_pop_no_input_vars(e.stack.model());
            }
            let val = e.stack.pop();
            let ghost acc = value_models(newarr@);
            newarr.push(val);
            proof {
                assert(value_models(newarr@) =~= acc.push(val.model()));
                lemma_array_model(newarr);
                lemma_push_no_input_vars(e.stack.model(), ValueModel::Array(acc.push(val.model())));
            }
            e.stack.push(QuarkType::Array(newarr));
            return false;
        }
        if f.contains(QuarkMarker::pinned()) {
            return true;
        }
        proof {
            lemma_pop_no_input_vars(e.stack.model());
        }
        let val = e.stack.pop();
        let ghost acc = value_models(newarr@);
        newarr.push(val);
        proof {
            assert(value_models(newarr@) =~= acc.push(val.model()));
        }
    }
}

fn get_length(e: &mut Executor)
    requires
        old(e).wf(),
    ensures
        final(e).wf(),
        final(e).model() == with_stack(old(e).model(), length_spec(old(e).model().stack)),
{
    proof {
        lemma_pop_no_input_vars(e.stack.model());
    }
    match e.stack.pop() {
        QuarkType::Array(v) => {
            proof {
                lemma_array_model(v);
                lemma_push_no_input_vars(e.stack.model(), ValueModel::Number((v@.len() as int, 0int)));
            }
            e.stack.push(QuarkType::Number(Decimal::from_u64(v.len() as u64)));
        },
        _ => {},
    }
}

fn duplicate(e: &mut Executor)
    requires
        old(e).wf(),
    ensures
        final(e).wf(),
        final(e).model() == with_stack(old(e).model(), dup_spec(old(e).model().stack)),
{
    proof {
        lemma_pop_no_input_vars(e.stack.model());
    }
    let val = e.stack.pop();
    proof {
        lemma_push_no_input_vars(e.stack.model(), val.model());
        lemma_push_no_input_vars(stack_push(e.stack.model(), val.model()), val.model());
    }
    e.stack.push(val.copy());
    e.stack.push(val);
}

fn print_cmd(e: &mut Executor) -> (r: Action)
    requires
        old(e).wf(),
    ensures
        final(e).wf(),
        r == Action::Print(r->Print_0),
        (final(e).model().stack, r->Print_0.model()) == stack_pop(old(e).model().stack),
        final(e).model() == with_stack(old(e).model(), final(e).model().stack),
{
    proof {
        lemma_pop_no_input_vars(e.stack.model());
    }
    Action::Print(e.stack.pop())
}

/// Floor (`up` false) or ceiling (`up` true) of the popped value: a number
/// is handed to the caller to round; anything else is pushed back.
fn round_cmd(e: &mut Executor, up: bool) -> (r: Action)
    requires
        old(e).wf(),
    ensures
        final(e).wf(),
        ({
            let (s1, v) = stack_pop(old(e).model().stack);
            if let ValueModel::Number(d) = v {
                &&& final(e).model() == with_stack(old(e).model(), s1)
                &&& r.model() == (if up { ActionModel::Ceil(d) } else { ActionModel::Floor(d) })
            } else {
                &&& final(e).model() == with_stack(old(e).model(), stack_push(s1, v))
                &&& r.model() == ActionModel::Continue
            }
        }),
{
    proof {
        lemma_pop_no_input_vars(e.stack.model());
    }
    match e.stack.pop() {
        QuarkType::Number(x) => if up {
            Action::Ceil(x)
        } else {
            Action::Floor(x)
        },
        v => {
            proof {
                lemma_push_no_input_vars(e.stack.model(), v.model());
            }
            e.stack.push(v);
            Action::Continue
        },
    }
}

fn floor(e: &mut Executor) -> (r: Action)
    requires
        old(e).wf(),
    ensures
        final(e).wf(),
        ({
            let (s1, v) = stack_pop(old(e).model().stack);
            if let ValueModel::Number(d) = v {
                &&& final(e).model() == with_stack(old(e).model(), s1)
                &&& r.model() == ActionModel::Floor(d)
            } else {
                &&& final(e).model() == with_stack(old(e).model(), stack_push(s1, v))
                &&& r.model() == ActionModel::Continue
            }
        }),
{
    round_cmd(e, false)
}

fn ceil(e: &mut Executor) -> (r: Action)
    requires
        old(e).wf(),
    ensures
        final(e).wf(),
        ({
            let (s1, v) = stack_pop(old(e).model().stack);
            if let ValueModel::Number(d) = v {
                &&& final(e).model() == with_stack(old(e).model(), s1)
                &&& r.model() == ActionModel::Ceil(d)
            } else {
                &&& final(e).model() == with_stack(old(e).model(), stack_push(s1, v))
                &&& r.model() == ActionModel::Continue
            }
        }),
{
    round_cmd(e, true)
}

fn exec_block(e: &mut Executor)
    requires
        old(e).wf(),
    ensures
        final(e).wf(),
        final(e).model() == exec_block_spec(old(e).model()),
{
    proof {
        lemma_pop_no_input_vars(e.stack.model());
    }
    match e.stack.pop() {
        QuarkType::Block(to_exec) => {
            let ghost m = e.model();
            e.curr_block_pos.push(0);
            e.curr_block.push(to_exec);
            proof {
                assert(e.model().blocks =~= m.blocks.push(code_models(to_exec@)));
                assert(e.model().positions =~= m.positions.push(0));
            }
        },
        _ => {},
    }
}


/// Starting a loop keeps the executor's invariant.
proof fn lemma_loop_start_wf(m: ExecModel, kind: LoopKind)
    requires
        exec_wf(m),
    ensures
        exec_wf(loop_start_spec(m, kind)),
{
    lemma_pop_no_input_vars(m.stack);
    let m1 = loop_start_spec(m, kind);
    assert(frames_ok(m1)) by {
        assert forall|i: int| 0 <= i < m1.blocks.len() implies #[trigger] m1.positions[i] <= m1.blocks[i].len() by {
            if i < m.blocks.len() {
                assert(m1.positions[i] == m.positions[i]);
                assert(m1.blocks[i] == m.blocks[i]);
            }
        }
    }
    assert(loops_ok(m1.handlers, m1.states)) by {
        assert forall|i: int| 0 <= i < m1.handlers.len() implies #[trigger] m1.handlers[i] == m1.states[i].0 by {
            if i < m.handlers.len() {
                assert(m1.handlers[i] == m.handlers[i]);
                assert(m1.states[i] == m.states[i]);
            }
        }
    }
}

/// A loop's handler leaves the executor's invariant holding again.
proof fn lemma_loop_end_wf(m: ExecModel, kind: LoopKind)
    requires
        handler_ready(m, kind),
    ensures
        exec_wf(loop_end_spec(m, kind).0),
        loop_end_spec(m, kind).1 ==> loop_end_spec(m, kind).0.blocks.len() > 0,
{
    lemma_pop_no_input_vars(m.stack);
    let (m1, again) = loop_end_spec(m, kind);
    assert(frames_ok(m1)) by {
        assert forall|i: int| 0 <= i < m1.blocks.len() implies #[trigger] m1.positions[i] <= m1.blocks[i].len() by {
            if i < m.blocks.len() - 1 {
                assert(m1.positions[i] == m.positions[i]);
                assert(m1.blocks[i] == m.blocks[i]);
            }
        }
    }
    assert(loops_ok(m1.handlers, m1.states)) by {
        assert forall|i: int| 0 <= i < m1.handlers.len() implies #[trigger] m1.handlers[i] == m1.states[i].0 by {
            if i < m.handlers.len() {
                assert(m1.handlers[i] == m.handlers[i]);
                assert(m1.states[i] == m.states.drop_last()[i]);
            }
        }
    }
}

fn while_loop(e: &mut Executor, islambdad: bool) -> (r: bool)
    requires
        !islambdad ==> old(e).wf(),
        islambdad ==> handler_ready(old(e).model(), LoopKind::While),
    ensures
        !islambdad ==> !r && final(e).model() == loop_start_spec(old(e).model(), LoopKind::While),
        islambdad ==> (final(e).model(), r) == loop_end_spec(old(e).model(), LoopKind::While),
{
    let ghost m = e.model();
    proof {
        lemma_pop_no_input_vars(e.stack.model());
    }
    if !islambdad {
        let block = match e.stack.pop() {
            QuarkType::Block(b) => b,
            _ => {
                return false;
            },
        };
        e.curr_block_pos.push(0);
        e.curr_block.push(copy_pieces(&block));
        e.on_block_end.push(LoopKind::While);
        e.state.push(CmdState::WhileLoop(block));
        proof {
            let b = code_models(block@);
            assert(e.model().blocks =~= m.blocks.push(b));
            assert(e.model().positions =~= m.positions.push(0));
            assert(e.model().states =~= m.states.push((LoopKind::While, b)));
        }
        return false;
    }
    let again = match e.stack.pop() {
        QuarkType::Number(d) => !d.is_zero(),
        _ => false,
    };
    if again {
        e.curr_block_pos.pop();
        e.curr_block.pop();
        let ghost m1 = e.model();
        match e.state.pop() {
            Some(CmdState::WhileLoop(v)) => {
                e.curr_block_pos.push(0);
                e.state.push(CmdState::WhileLoop(copy_pieces(&v)));
                e.curr_block.push(v);
                proof {
                    let b = code_models(v@);
                    assert(m.states.last() == (LoopKind::While, b));
                    assert(e.model().blocks =~= m.blocks.drop_last().push(b));
                    assert(e.model().positions =~= m.positions.drop_last().push(0));
                    assert(e.model().states =~= m.states);
                }
            },
            _ => {
                proof {
                    assert(m.states.last().0 == LoopKind::While);
                    assert(false);
                }
            },
        }
        e.on_block_end.push(LoopKind::While);
        true
    } else {
        e.curr_block_pos.pop();
        e.curr_block.pop();
        e.state.pop();
        proof {
            assert(e.model().blocks =~= m.blocks.drop_last());
            assert(e.model().positions =~= m.positions.drop_last());
            assert(e.model().states =~= m.states.drop_last());
        }
        false
    }
}

fn repeat_loop(e: &mut Executor, lambdad: bool) -> (r: bool)
    requires
        !lambdad ==> old(e).wf(),
        lambdad ==> handler_ready(old(e).model(), LoopKind::Repeat),
    ensures
        !lambdad ==> !r && final(e).model() == loop_start_spec(old(e).model(), LoopKind::Repeat),
        lambdad ==> (final(e).model(), r) == loop_end_spec(old(e).model(), LoopKind::Repeat),
{
    let ghost m = e.model();
    if !lambdad {
        proof {
            lemma_pop_no_input_vars(e.stack.model());
        }
        let block = match e.stack.pop() {
            QuarkType::Block(b) => b,
            _ => {
                return false;
            },
        };
        e.curr_block_pos.push(0);
        e.curr_block.push(copy_pieces(&block));
        e.on_block_end.push(LoopKind::Repeat);
        e.state.push(CmdState::RepeatLoop(block));
        proof {
            let b = code_models(block@);
            assert(e.model().blocks =~= m.blocks.push(b));
            assert(e.model().positions =~= m.positions.push(0));
            assert(e.model().states =~= m.states.push((LoopKind::Repeat, b)));
        }
        return false;
    }
    e.curr_block_pos.pop();
    e.curr_block.pop();
    match e.state.pop() {
        Some(CmdState::RepeatLoop(v)) => {
            e.curr_block_pos.push(0);
            e.state.push(CmdState::RepeatLoop(copy_pieces(&v)));
            e.curr_block.push(v);
            proof {
                let b = code_models(v@);
                assert(m.states.last() == (LoopKind::Repeat, b));
                assert(e.model().blocks =~= m.blocks.drop_last().push(b));
                assert(e.model().positions =~= m.positions.drop_last().push(0));
                assert(e.model().states =~= m.states);
            }
        },
        _ => {
            proof {
                assert(m.states.last().0 == LoopKind::Repeat);
                assert(false);
            }
        },
    }
    e.on_block_end.push(LoopKind::Repeat);
    true
}


fn fault_to_action(f: Option<Fault>) -> (r: Action)
    ensures
        r.model() == fault_action(f),
{
    match f {
        Some(x) => Action::Abort(x),
        None => Action::Continue,
    }
}

fn push_constant(e: &mut Executor, n: u64)
    requires
        old(e).wf(),
    ensures
        final(e).wf(),
        final(e).model() == with_stack(
            old(e).model(),
            stack_push(old(e).model().stack, ValueModel::Number((n as int, 0int))),
        ),
{
    proof {
        lemma_push_no_input_vars(e.stack.model(), ValueModel::Number((n as int, 0int)));
    }
    e.stack.push(QuarkType::Number(Decimal::from_u64(n)));
}

fn toggle_top(e: &mut Executor, pin: bool)
    requires
        old(e).wf(),
    ensures
        final(e).wf(),
        final(e).model() == with_stack(
            old(e).model(),
            toggle_spec(old(e).model().stack, if pin { PINNED_BITS } else { ARRAY_BEGIN_BITS }),
        ),
{
    proof {
        lemma_toggle_no_input_vars(
            e.stack.model(),
            if pin { PINNED_BITS } else { ARRAY_BEGIN_BITS },
        );
    }
    if pin {
        e.stack.pin();
    } else {
        e.stack.arraymark();
    }
}

/// Runs the command with id `p`.
fn command(e: &mut Executor, p: usize) -> (r: Action)
    requires
        old(e).wf(),
    ensures
        final(e).wf(),
        (final(e).model(), r.model()) == command_spec(old(e).model(), p as nat),
{
    let ghost m = e.model();
    match p {
        0 | 1 => Action::Continue,
        12 => fault_to_action(add_cmd(e)),
        13 => fault_to_action(subtract_cmd(e)),
        14 => fault_to_action(multiply_cmd(e)),
        15 => fault_to_action(divide_cmd(e)),
        16 => {
            exec_block(e);
            Action::Continue
        },
        18 => fault_to_action(to_range(e)),
        19 => {
            push_constant(e, 360);
            Action::Continue
        },
        20 => {
            push_constant(e, 180);
            Action::Continue
        },
        21 => {
            push_constant(e, 90);
            Action::Continue
        },
        22 => {
            push_constant(e, 270);
            Action::Continue
        },
        25 => ceil(e),
        26 => floor(e),
        28 => Action::RequestInput,
        31 => {
            repeat_loop(e, false);
            proof {
                lemma_loop_start_wf(m, LoopKind::Repeat);
            }
            Action::Continue
        },
        34 => {
            while_loop(e, false);
            proof {
                lemma_loop_start_wf(m, LoopKind::While);
            }
            Action::Continue
        },
        37 => {
            duplicate(e);
            Action::Continue
        },
        41 => print_cmd(e),
        53 => {
            toggle_top(e, false);
            Action::Continue
        },
        54 => {
            if collect_array(e) {
                Action::Diverge
            } else {
                Action::Continue
            }
        },
        69 => {
            get_length(e);
            Action::Continue
        },
        74 => {
            toggle_top(e, true);
            Action::Continue
        },
        _ => Action::Warn(p),
    }
}

impl Executor {
    fn run_piece(&mut self, piece: CodePiece) -> (r: Action)
        requires
            old(self).wf(),
        ensures
            final(self).wf(),
            (final(self).model(), r.model()) == piece_spec(old(self).model(), piece.model()),
    {
        match piece {
            CodePiece::Number(n) => {
                proof {
                    lemma_push_no_input_vars(self.stack.model(), ValueModel::Number((n@, 0int)));
                }
                self.stack.push(QuarkType::Number(Decimal::from_integer(&n)));
                Action::Continue
            },
            CodePiece::Block(b) => {
                proof {
                    lemma_push_no_input_vars(self.stack.model(), ValueModel::Block(code_models(b@)));
                    assert(code_models(b@) =~= CodePiece::Block(b).model()->Block_0);
                }
                self.stack.push(QuarkType::Block(b));
                Action::Continue
            },
            CodePiece::Point(p) => command(self, p),
        }
    }

    fn next_top(&mut self) -> (r: Option<CodePiece>)
        requires
            old(self).model().code_pos <= old(self).model().code.len(),
        ensures
            final(self).model() == next_top(old(self).model()).0,
            match r {
                Some(c) => next_top(old(self).model()).1 == Fetched::Piece(c.model()),
                None => next_top(old(self).model()).1 == Fetched::Exhausted,
            },
    {
        if self.code_pos < self.code.len() {
            let c = self.code[self.code_pos].copy();
            self.code_pos = self.code_pos + 1;
            Some(c)
        } else {
            None
        }
    }

    fn next_in_block(&mut self) -> (r: CodePiece)
        requires
            frames_ok(old(self).model()),
            old(self).model().blocks.len() > 0,
            old(self).model().blocks.last().len() > old(self).model().positions.last(),
        ensures
            final(self).model() == next_in_block(old(self).model()).0,
            next_in_block(old(self).model()).1 == Fetched::Piece(r.model()),
    {
        let ghost m = self.model();
        let top = self.curr_block.len() - 1;
        let pos = self.curr_block_pos[top];
        assert(m.positions[top as int] == pos);
        assert(m.blocks[top as int] == code_models(self.curr_block@[top as int]@));
        let inner_len = self.curr_block[top].len();
        assert(inner_len > pos);
        let c = self.curr_block[top][pos].copy();
        self.curr_block_pos.set(top, pos + 1);
        proof {
            assert(self.model().positions =~= m.positions.update(top as int, m.positions[top as int] + 1));
        }
        c
    }

    /// Runs one step of the program: fetches the next piece of code (see
    /// `fetch_spec`) and runs it (see `piece_spec`). Outside work, and the
    /// end of the program, is handed back as an `Action`.
    pub fn step(&mut self) -> (r: Action)
        requires
            old(self).wf(),
        ensures
            final(self).wf(),
            (final(self).model(), r.model()) == step_spec(old(self).model()),
    {
        let ghost m0 = self.model();
        let blen = self.curr_block.len();
        let piece: CodePiece;
        if blen == 0 {
            match self.next_top() {
                Some(c) => {
                    piece = c;
                },
                None => {
                    return Action::Halt;
                },
            }
        } else {
            let top = blen - 1;
            assert(m0.blocks[top as int] == code_models(self.curr_block@[top as int]@));
            assert(m0.positions[top as int] == self.curr_block_pos@[top as int]);
            if self.curr_block[top].len() > self.curr_block_pos[top] {
                piece = self.next_in_block();
            } else {
                let ghost m_before = self.model();
                let handler = self.on_block_end.pop();
                proof {
                    if m0.handlers.len() > 0 {
                        let k = m0.handlers.last();
                        let mh = self.model();
                        assert(mh == ExecModel { handlers: m0.handlers.drop_last(), ..m0 });
                        assert(loops_ok(mh.handlers, mh.states.drop_last())) by {
                            assert forall|i: int| 0 <= i < mh.handlers.len() implies #[trigger] mh.handlers[i]
                                == mh.states.drop_last()[i].0 by {
                                assert(mh.handlers[i] == m0.handlers[i]);
                                assert(mh.states.drop_last()[i] == m0.states[i]);
                            }
                        }
                        assert(m0.handlers[m0.handlers.len() - 1] == m0.states[m0.states.len() - 1].0);
                        assert(handler_ready(mh, k));
                        lemma_loop_end_wf(mh, k);
                    }
                }
                let again = match handler {
                    Some(LoopKind::While) => while_loop(self, true),
                    Some(LoopKind::Repeat) => repeat_loop(self, true),
                    None => false,
                };
                let ghost m1 = self.model();
                if again {
                    let blen2 = self.curr_block.len();
                    let top2 = blen2 - 1;
                    assert(m1.blocks[top2 as int] == code_models(self.curr_block@[top2 as int]@));
                    assert(m1.positions[top2 as int] == self.curr_block_pos@[top2 as int]);
                    if self.curr_block[top2].len() > self.curr_block_pos[top2] {
                        piece = self.next_in_block();
                    } else {
                        return Action::Abort(Fault::EmptyLoopBody);
                    }
                } else {
                    let next = self.next_top();
                    let ghost m2 = self.model();
                    self.curr_block.pop();
                    self.curr_block_pos.pop();
                    proof {
                        assert(self.model().blocks =~= drop_last_or_keep(m2.blocks));
                        assert(self.model().positions =~= drop_last_or_keep(m2.positions));
                        assert(frames_ok(self.model())) by {
                            let mm = self.model();
                            assert forall|i: int| 0 <= i < mm.blocks.len() implies #[trigger] mm.positions[i]
                                <= mm.blocks[i].len() by {
                                assert(mm.positions[i] == m2.positions[i]);
                                assert(mm.blocks[i] == m2.blocks[i]);
                            }
                        }
                    }
                    match next {
                        Some(c) => {
                            piece = c;
                        },
                        None => {
                            return Action::Halt;
                        },
                    }
                }
            }
        }
        self.run_piece(piece)
    }
}


/// A step never changes the program, and takes at most one piece of it.
pub proof fn lemma_step_keeps_code(m: ExecModel)
    ensures
        step_spec(m).0.code == m.code,
        step_spec(m).0.code_pos >= m.code_pos,
        step_spec(m).0.code_pos <= m.code_pos + 1,
{
}


// ------------------------------------------------- running a block inline

/// The executor states agree on everything but the program and the place
/// in it.
pub open spec fn same_core(m1: ExecModel, m2: ExecModel) -> bool {
    &&& m1.stack == m2.stack
    &&& m1.blocks == m2.blocks
    &&& m1.positions == m2.positions
    &&& m1.handlers == m2.handlers
    &&& m1.states == m2.states
}

/// Both programs have a next piece, and it is the same, or neither has.
pub open spec fn same_next(m1: ExecModel, m2: ExecModel) -> bool {
    &&& (m1.code_pos < m1.code.len()) == (m2.code_pos < m2.code.len())
    &&& m1.code_pos < m1.code.len() ==> m1.code[m1.code_pos as int] == m2.code[m2.code_pos as int]
}

/// The piece is not a command that runs a block or starts a loop.
pub open spec fn frame_free_piece(c: CodeModel) -> bool {
    c != CodeModel::Point(16) && c != CodeModel::Point(31) && c != CodeModel::Point(34)
}

/// No piece of `s` runs a block or starts a loop.
pub open spec fn frame_free(s: Seq<CodeModel>) -> bool {
    forall|i: int| 0 <= i < s.len() ==> frame_free_piece(#[trigger] s[i])
}

proof fn lemma_piece_core(m1: ExecModel, m2: ExecModel, c: CodeModel)
    requires
        same_core(m1, m2),
    ensures
        same_core(piece_spec(m1, c).0, piece_spec(m2, c).0),
        piece_spec(m1, c).1 == piece_spec(m2, c).1,
        piece_spec(m1, c).0.code == m1.code,
        piece_spec(m1, c).0.code_pos == m1.code_pos,
        piece_spec(m2, c).0.code == m2.code,
        piece_spec(m2, c).0.code_pos == m2.code_pos,
        frame_free_piece(c) ==> {
            &&& piece_spec(m1, c).0.blocks == m1.blocks
            &&& piece_spec(m1, c).0.positions == m1.positions
            &&& piece_spec(m1, c).0.handlers == m1.handlers
            &&& piece_spec(m1, c).0.states == m1.states
        },
{
}

proof fn lemma_piece_stack(m1: ExecModel, m2: ExecModel, c: CodeModel)
    requires
        m1.stack == m2.stack,
        frame_free_piece(c),
    ensures
        piece_spec(m1, c).1 == piece_spec(m2, c).1,
        piece_spec(m1, c).0 == with_stack(m1, piece_spec(m2, c).0.stack),
        piece_spec(m2, c).0 == with_stack(m2, piece_spec(m2, c).0.stack),
{
}

proof fn lemma_fetch_core(m1: ExecModel, m2: ExecModel)
    requires
        same_core(m1, m2),
        same_next(m1, m2),
    ensures
        same_core(fetch_spec(m1).0, fetch_spec(m2).0),
        fetch_spec(m1).1 == fetch_spec(m2).1,
        fetch_spec(m1).0.code == m1.code,
        fetch_spec(m2).0.code == m2.code,
        fetch_spec(m1).0.code_pos - m1.code_pos == fetch_spec(m2).0.code_pos - m2.code_pos,
        fetch_spec(m1).0.code_pos == m1.code_pos || fetch_spec(m1).0.code_pos == m1.code_pos + 1,
{
}

/// The two runs compared by the inlining law: `mx` runs `p`, then the
/// block `b` as a value and the command that runs it, then `q`; `my` runs
/// `p`, the pieces of `b`, then `q`. They are related before `b` is
/// reached (same place in `p`), while `b` runs (`mx` in its block at the
/// place where `my` is in the pieces of `b`), and after (same place in `q`,
/// the same blocks and loops).
pub open spec fn inline_related(
    mx: ExecModel,
    my: ExecModel,
    p: Seq<CodeModel>,
    b: Seq<CodeModel>,
    q: Seq<CodeModel>,
) -> bool {
    &&& mx.code == p + seq![CodeModel::Block(b), CodeModel::Point(16)] + q
    &&& my.code == p + b + q
    &&& mx.stack == my.stack
    &&& {
        ||| {
            &&& mx.code_pos == my.code_pos
            &&& mx.code_pos <= p.len()
            &&& mx.blocks.len() == 0 && my.blocks.len() == 0
            &&& mx.positions.len() == 0 && my.positions.len() == 0
            &&& mx.handlers.len() == 0 && my.handlers.len() == 0
            &&& mx.states.len() == 0 && my.states.len() == 0
        }
        ||| {
            &&& mx.code_pos == p.len() + 2
            &&& mx.blocks == seq![b]
            &&& mx.positions.len() == 1
            &&& mx.positions[0] <= b.len()
            &&& my.code_pos == p.len() + mx.positions[0]
            &&& my.blocks.len() == 0 && my.positions.len() == 0
            &&& mx.handlers.len() == 0 && my.handlers.len() == 0
            &&& mx.states.len() == 0 && my.states.len() == 0
        }
        ||| {
            &&& mx.code_pos >= p.len() + 2
            &&& my.code_pos + 2 == mx.code_pos + b.len()
            &&& same_core(mx, my)
        }
    }
}

/// `mx` is about to take the block `b` as a value.
pub open spec fn at_inlined_block(mx: ExecModel, p: Seq<CodeModel>) -> bool {
    mx.blocks.len() == 0 && mx.code_pos == p.len()
}

/// Inlining law, start: two fresh executors on the two programs are
/// related.
pub proof fn lemma_inline_start(p: Seq<CodeModel>, b: Seq<CodeModel>, q: Seq<CodeModel>)
    ensures
        inline_related(
            ExecModel {
                stack: Seq::empty(),
                code: p + seq![CodeModel::Block(b), CodeModel::Point(16)] + q,
                code_pos: 0,
                blocks: Seq::empty(),
                positions: Seq::empty(),
                handlers: Seq::empty(),
                states: Seq::empty(),
            },
            ExecModel {
                stack: Seq::empty(),
                code: p + b + q,
                code_pos: 0,
                blocks: Seq::empty(),
                positions: Seq::empty(),
                handlers: Seq::empty(),
                states: Seq::empty(),
            },
            p,
            b,
            q,
        ),
{
}

/// Inlining law, outside work: pushing the same number (an input, or a
/// rounded number) onto both keeps them related.
pub proof fn lemma_inline_push(
    mx: ExecModel,
    my: ExecModel,
    p: Seq<CodeModel>,
    b: Seq<CodeModel>,
    q: Seq<CodeModel>,
    s: Seq<Entry>,
)
    requires
        inline_related(mx, my, p, b, q),
    ensures
        inline_related(with_stack(mx, s), with_stack(my, s), p, b, q),
{
}

/// Inlining law, entering the block: taking the block as a value and
/// running it are two steps of `mx` that ask for nothing, and leave it
/// related to `my` as it stands.
pub proof fn lemma_inline_enter(
    mx: ExecModel,
    my: ExecModel,
    p: Seq<CodeModel>,
    b: Seq<CodeModel>,
    q: Seq<CodeModel>,
)
    requires
        inline_related(mx, my, p, b, q),
        at_inlined_block(mx, p),
    ensures
        step_spec(mx).1 == ActionModel::Continue,
        step_spec(step_spec(mx).0).1 == ActionModel::Continue,
        inline_related(step_spec(step_spec(mx).0).0, my, p, b, q),
{
    let code = mx.code;
    assert(code[p.len() as int] == CodeModel::Block(b));
    assert(code[p.len() + 1int] == CodeModel::Point(16));
    let m1 = step_spec(mx).0;
    assert(m1.stack == stack_push(mx.stack, ValueModel::Block(b)));
    crate::data::lemma_pop_after_push(mx.stack, ValueModel::Block(b));
    let m2 = step_spec(m1).0;
    assert(m2.blocks =~= seq![b]);
    assert(m2.positions =~= seq![0nat]);
}

/// Inlining law, one step: away from the point where `mx` takes the block,
/// a step of each gives the same action and keeps them related. With the
/// start, the outside pushes and the entry above, the two programs run
/// alike: they ask for the same outside work in the same order, end, fail
/// or run forever together, and end with the same stack.
pub proof fn lemma_inline_step(
    mx: ExecModel,
    my: ExecModel,
    p: Seq<CodeModel>,
    b: Seq<CodeModel>,
    q: Seq<CodeModel>,
)
    requires
        inline_related(mx, my, p, b, q),
        frame_free(p),
        frame_free(b),
        !at_inlined_block(mx, p),
    ensures
        step_spec(mx).1 == step_spec(my).1,
        inline_related(step_spec(mx).0, step_spec(my).0, p, b, q),
{
    let xcode = mx.code;
    let ycode = my.code;
    if mx.code_pos >= p.len() + 2 && my.code_pos + 2 == mx.code_pos + b.len() && same_core(mx, my) {
        // after the block
        if mx.code_pos < xcode.len() {
            assert(xcode[mx.code_pos as int] == q[mx.code_pos - p.len() - 2]);
            assert(ycode[my.code_pos as int] == q[my.code_pos - p.len() - b.len()]);
        }
        lemma_fetch_core(mx, my);
        let (fx, cx) = fetch_spec(mx);
        let (fy, cy) = fetch_spec(my);
        if let Fetched::Piece(c) = cx {
            lemma_piece_core(fx, fy, c);
        }
    } else if mx.code_pos == p.len() + 2 && mx.blocks == seq![b] {
        // inside the block
        let i = mx.positions[0];
        if i < b.len() {
            assert(ycode[my.code_pos as int] == b[i as int]);
            assert(frame_free_piece(b[i as int]));
            let (fx, cx) = fetch_spec(mx);
            let (fy, cy) = fetch_spec(my);
            assert(cx == Fetched::Piece(b[i as int]));
            assert(cy == Fetched::Piece(b[i as int]));
            assert(fx.positions =~= seq![i + 1]);
            lemma_piece_stack(fx, fy, b[i as int]);
            assert(step_spec(mx).0.positions =~= seq![i + 1]);
        } else {
            if mx.code_pos < xcode.len() {
                assert(xcode[mx.code_pos as int] == q[0]);
                assert(ycode[my.code_pos as int] == q[0]);
            }
            let (fx, cx) = fetch_spec(mx);
            let (fy, cy) = fetch_spec(my);
            assert(fx.blocks =~= fy.blocks);
            assert(fx.positions =~= fy.positions);
            assert(fx.handlers =~= fy.handlers);
            assert(fx.states =~= fy.states);
            assert(same_core(fx, fy));
            if let Fetched::Piece(c) = cx {
                lemma_piece_core(fx, fy, c);
            }
        }
    } else {
        // before the block
        assert(mx.code_pos < p.len());
        assert(xcode[mx.code_pos as int] == p[mx.code_pos as int]);
        assert(ycode[my.code_pos as int] == p[my.code_pos as int]);
        assert(frame_free_piece(p[mx.code_pos as int]));
        let (fx, cx) = fetch_spec(mx);
        let (fy, cy) = fetch_spec(my);
        lemma_piece_stack(fx, fy, p[mx.code_pos as int]);
    }
}


/// The action ends the run: the program has ended, failed, or runs on
/// forever.
pub open spec fn final_action(a: ActionModel) -> bool {
    a is Halt || a is Abort || a is Diverge
}

/// Running at most `fuel` steps from `m`. After each action that asks for
/// outside work, the outside world's answer `answer(k, action)` to its
/// `k`-th request (counting from `asked`) is pushed, if it gives one. The
/// result, once a final action is reached, is the last state and the
/// actions that asked for something, final one included; `None` if the
/// fuel runs out first.
pub open spec fn run(
    m: ExecModel,
    fuel: nat,
    answer: spec_fn(nat, ActionModel) -> Option<ValueModel>,
    asked: nat,
) -> Option<(ExecModel, Seq<ActionModel>)>
    decreases fuel,
{
    if fuel == 0 {
        None
    } else {
        let (m1, a) = step_spec(m);
        if final_action(a) {
            Some((m1, seq![a]))
        } else if a == ActionModel::Continue {
            run(m1, (fuel - 1) as nat, answer, asked)
        } else {
            let m2 = match answer(asked, a) {
                Some(v) => with_stack(m1, stack_push(m1.stack, v)),
                None => m1,
            };
            match run(m2, (fuel - 1) as nat, answer, asked + 1) {
                Some((mf, acts)) => Some((mf, seq![a] + acts)),
                None => None,
            }
        }
    }
}

/// The actions of a run that ended.
pub open spec fn run_actions(r: Option<(ExecModel, Seq<ActionModel>)>) -> Seq<ActionModel> {
    match r {
        Some((_, acts)) => acts,
        None => Seq::empty(),
    }
}

/// The final stack of a run that ended.
pub open spec fn run_stack(r: Option<(ExecModel, Seq<ActionModel>)>) -> Seq<Entry> {
    match r {
        Some((m, _)) => m.stack,
        None => Seq::empty(),
    }
}

proof fn lemma_run_more_fuel(
    m: ExecModel,
    fuel: nat,
    more: nat,
    answer: spec_fn(nat, ActionModel) -> Option<ValueModel>,
    asked: nat,
)
    requires
        fuel <= more,
        run(m, fuel, answer, asked) is Some,
    ensures
        run(m, more, answer, asked) == run(m, fuel, answer, asked),
    decreases fuel,
{
    let (m1, a) = step_spec(m);
    if !final_action(a) {
        if a == ActionModel::Continue {
            lemma_run_more_fuel(m1, (fuel - 1) as nat, (more - 1) as nat, answer, asked);
        } else {
            let m2 = match answer(asked, a) {
                Some(v) => with_stack(m1, stack_push(m1.stack, v)),
                None => m1,
            };
            lemma_run_more_fuel(m2, (fuel - 1) as nat, (more - 1) as nat, answer, asked + 1);
        }
    }
}

/// The steps that `mx` runs beyond `my` while related: the two that take
/// the block, while they are still ahead.
pub open spec fn inline_extra(mx: ExecModel, p: Seq<CodeModel>) -> nat {
    if mx.code_pos <= p.len() { 2 } else { 0 }
}

proof fn lemma_inline_run_from_inlined(
    mx: ExecModel,
    my: ExecModel,
    p: Seq<CodeModel>,
    b: Seq<CodeModel>,
    q: Seq<CodeModel>,
    answer: spec_fn(nat, ActionModel) -> Option<ValueModel>,
    asked: nat,
    fuel: nat,
)
    requires
        inline_related(mx, my, p, b, q),
        frame_free(p),
        frame_free(b),
        run(my, fuel, answer, asked) is Some,
    ensures
        run(mx, fuel + inline_extra(mx, p), answer, asked) is Some,
        run_actions(run(mx, fuel + inline_extra(mx, p), answer, asked)) == run_actions(run(my, fuel, answer, asked)),
        run_stack(run(mx, fuel + inline_extra(mx, p), answer, asked)) == run_stack(run(my, fuel, answer, asked)),
    decreases fuel, if at_inlined_block(mx, p) { 1nat } else { 0nat },
{
    if at_inlined_block(mx, p) {
        lemma_inline_enter(mx, my, p, b, q);
        let m1 = step_spec(mx).0;
        let m2 = step_spec(m1).0;
        lemma_step_keeps_code(mx);
        lemma_step_keeps_code(m1);
        assert(!at_inlined_block(m2, p));
        lemma_inline_run_from_inlined(m2, my, p, b, q, answer, asked, fuel);
        assert(inline_extra(m2, p) == 0);
        assert(run(mx, fuel + 2, answer, asked) == run(m1, fuel + 1, answer, asked));
        assert(run(m1, fuel + 1, answer, asked) == run(m2, fuel, answer, asked));
    } else {
        lemma_inline_step(mx, my, p, b, q);
        lemma_step_keeps_code(mx);
        let e = inline_extra(mx, p);
        let (x1, a) = step_spec(mx);
        let (y1, ay) = step_spec(my);
        assert(inline_extra(x1, p) == e);
        if !final_action(a) {
            if a == ActionModel::Continue {
                lemma_inline_run_from_inlined(x1, y1, p, b, q, answer, asked, (fuel - 1) as nat);
                assert((fuel - 1) as nat + e == (fuel + e - 1) as nat);
            } else {
                let x2 = match answer(asked, a) {
                    Some(v) => with_stack(x1, stack_push(x1.stack, v)),
                    None => x1,
                };
                let y2 = match answer(asked, a) {
                    Some(v) => with_stack(y1, stack_push(y1.stack, v)),
                    None => y1,
                };
                if let Some(v) = answer(asked, a) {
                    lemma_inline_push(x1, y1, p, b, q, stack_push(x1.stack, v));
                }
                assert(inline_extra(x2, p) == e);
                lemma_inline_run_from_inlined(x2, y2, p, b, q, answer, asked + 1, (fuel - 1) as nat);
                assert((fuel - 1) as nat + e == (fuel + e - 1) as nat);
            }
        }
    }
}

proof fn lemma_inline_run_from_block(
    mx: ExecModel,
    my: ExecModel,
    p: Seq<CodeModel>,
    b: Seq<CodeModel>,
    q: Seq<CodeModel>,
    answer: spec_fn(nat, ActionModel) -> Option<ValueModel>,
    asked: nat,
    fuel: nat,
)
    requires
        inline_related(mx, my, p, b, q),
        frame_free(p),
        frame_free(b),
        run(mx, fuel, answer, asked) is Some,
    ensures
        run(my, fuel, answer, asked) is Some,
        run_actions(run(my, fuel, answer, asked)) == run_actions(run(mx, fuel, answer, asked)),
        run_stack(run(my, fuel, answer, asked)) == run_stack(run(mx, fuel, answer, asked)),
    decreases fuel,
{
    if at_inlined_block(mx, p) {
        lemma_inline_enter(mx, my, p, b, q);
        let m1 = step_spec(mx).0;
        let m2 = step_spec(m1).0;
        assert(fuel >= 2) by {
            if fuel == 1 {
                assert(run(mx, fuel, answer, asked) == run(m1, 0, answer, asked));
            }
        }
        assert(run(mx, fuel, answer, asked) == run(m1, (fuel - 1) as nat, answer, asked));
        assert(run(m1, (fuel - 1) as nat, answer, asked) == run(m2, (fuel - 2) as nat, answer, asked));
        lemma_inline_run_from_block(m2, my, p, b, q, answer, asked, (fuel - 2) as nat);
        lemma_run_more_fuel(my, (fuel - 2) as nat, fuel, answer, asked);
    } else {
        lemma_inline_step(mx, my, p, b, q);
        let (x1, a) = step_spec(mx);
        let (y1, ay) = step_spec(my);
        if !final_action(a) {
            if a == ActionModel::Continue {
                lemma_inline_run_from_block(x1, y1, p, b, q, answer, asked, (fuel - 1) as nat);
            } else {
                let x2 = match answer(asked, a) {
                    Some(v) => with_stack(x1, stack_push(x1.stack, v)),
                    None => x1,
                };
                let y2 = match answer(asked, a) {
                    Some(v) => with_stack(y1, stack_push(y1.stack, v)),
                    None => y1,
                };
                if let Some(v) = answer(asked, a) {
                    lemma_inline_push(x1, y1, p, b, q, stack_push(x1.stack, v));
                }
                lemma_inline_run_from_block(x2, y2, p, b, q, answer, asked + 1, (fuel - 1) as nat);
            }
        }
    }
}

/// The executor at the start of `code`.
pub open spec fn start_model(code: Seq<CodeModel>) -> ExecModel {
    ExecModel {
        stack: Seq::empty(),
        code,
        code_pos: 0,
        blocks: Seq::empty(),
        positions: Seq::empty(),
        handlers: Seq::empty(),
        states: Seq::empty(),
    }
}

/// Running a block with command 16 is running its pieces in its place:
/// when neither `p` nor `b` holds a command that runs a block or starts a
/// loop, the program `p`, block `b`, 16, `q` and the program `p`, the
/// pieces of `b`, `q` run alike against any outside world. If either ends
/// (halts, fails or is found to run forever) within some steps, the other
/// ends too, within at most two steps more, having asked for the same
/// outside work in the same order, with the same final action and the
/// same stack.
pub proof fn lemma_inline_runs(
    p: Seq<CodeModel>,
    b: Seq<CodeModel>,
    q: Seq<CodeModel>,
    answer: spec_fn(nat, ActionModel) -> Option<ValueModel>,
    fuel: nat,
)
    requires
        frame_free(p),
        frame_free(b),
    ensures
        ({
            let x = start_model(p + seq![CodeModel::Block(b), CodeModel::Point(16)] + q);
            let y = start_model(p + b + q);
            &&& run(y, fuel, answer, 0) is Some ==> {
                &&& run(x, fuel + 2, answer, 0) is Some
                &&& run_actions(run(x, fuel + 2, answer, 0)) == run_actions(run(y, fuel, answer, 0))
                &&& run_stack(run(x, fuel + 2, answer, 0)) == run_stack(run(y, fuel, answer, 0))
            }
            &&& run(x, fuel, answer, 0) is Some ==> {
                &&& run(y, fuel, answer, 0) is Some
                &&& run_actions(run(y, fuel, answer, 0)) == run_actions(run(x, fuel, answer, 0))
                &&& run_stack(run(y, fuel, answer, 0)) == run_stack(run(x, fuel, answer, 0))
            }
        }),
{
    let x = start_model(p + seq![CodeModel::Block(b), CodeModel::Point(16)] + q);
    let y = start_model(p + b + q);
    lemma_inline_start(p, b, q);
    if run(y, fuel, answer, 0) is Some {
        lemma_inline_run_from_inlined(x, y, p, b, q, answer, 0, fuel);
        assert(inline_extra(x, p) == 2);
    }
    if run(x, fuel, answer, 0) is Some {
        lemma_inline_run_from_block(x, y, p, b, q, answer, 0, fuel);
    }
}

/// At the end of a while loop's block the loop starts its block again
/// exactly when the popped condition is a number other than zero, whatever
/// its sign or scale; anything else ends the loop. The condition is popped
/// either way, and a loop that goes round again restarts its block at the
/// beginning.
pub proof fn lemma_while_goes_round_on_nonzero(m: ExecModel)
    ensures
        loop_end_spec(m, LoopKind::While).1 == (stack_pop(m.stack).1 matches ValueModel::Number(d)
            && d.0 != 0),
        loop_end_spec(m, LoopKind::While).0.stack == stack_pop(m.stack).0,
        loop_end_spec(m, LoopKind::While).1 ==> {
            &&& loop_end_spec(m, LoopKind::While).0.blocks.last() == m.states.last().1
            &&& loop_end_spec(m, LoopKind::While).0.positions.last() == 0
        },
{
}

/// The range command gives every whole number from the lower bound (the
/// second value popped) to the upper bound (the first), both included, in
/// order, each at scale 0: `hi - lo + 1` numbers where `lo <= hi`, none
/// otherwise. The two bounds are popped and the array pushed unmarked.
pub proof fn lemma_range_is_inclusive(s: Seq<Entry>, a: (int, int), b: (int, int))
    requires
        stack_pop(s).1 == ValueModel::Number(a),
        stack_pop(stack_pop(s).0).1 == ValueModel::Number(b),
        u64_conversion_ok(a),
        u64_conversion_ok(b),
        decimal_to_u64_spec(a) is Some,
        decimal_to_u64_spec(b) is Some,
    ensures
        ({
            let lo = decimal_to_u64_spec(b)->Some_0;
            let hi = decimal_to_u64_spec(a)->Some_0;
            let r = range_spec(s);
            &&& r.1 is None
            &&& r.0.len() > 0
            &&& r.0.drop_last() == stack_pop(stack_pop(s).0).0
            &&& r.0.last().1 == 0
            &&& r.0.last().0 is Array
            &&& r.0.last().0->Array_0.len() == (if lo <= hi { hi - lo + 1 } else { 0 })
            &&& forall|k: int|
                0 <= k < r.0.last().0->Array_0.len() ==> #[trigger] r.0.last().0->Array_0[k]
                    == ValueModel::Number((lo + k, 0))
        }),
{
    let s2 = stack_pop(stack_pop(s).0).0;
    let lo = decimal_to_u64_spec(b)->Some_0;
    let hi = decimal_to_u64_spec(a)->Some_0;
    assert(range_spec(s).0 == stack_push(s2, ValueModel::Array(range_values(lo, hi))));
    assert(stack_push(s2, ValueModel::Array(range_values(lo, hi))).drop_last() =~= s2);
}

/// What toggling one marker bit of the top does to the flags.
proof fn lemma_toggle_flags(s: Seq<Entry>, bit: u32)
    requires
        bit == PINNED_BITS || bit == ARRAY_BEGIN_BITS,
    ensures
        ({
            let n = nonempty(s);
            let t = toggle_spec(s, bit);
            &&& t.len() == n.len()
            &&& forall|i: int| 0 <= i < n.len() - 1 ==> #[trigger] t[i] == n[i]
            &&& t.last().0 == n.last().0
            &&& has_flags(t.last().1, bit) == !has_flags(n.last().1, bit)
            &&& forall|f: u32|
                f != bit && (f == PINNED_BITS || f == ARRAY_BEGIN_BITS || f
                    == crate::data::INPUT_VAR_BITS) ==> has_flags(#[trigger] t.last().1, f)
                    == has_flags(n.last().1, f)
            &&& toggle_spec(t, bit) == n
        }),
{
    let n = nonempty(s);
    let x = n.last().1;
    let y = x ^ bit;
    assert(has_flags(y, bit) == !has_flags(x, bit)) by (bit_vector)
        requires
            y == x ^ bit,
            bit == 0b0100_0000u32 || bit == 0b1000_0000u32,
    ;
    assert forall|f: u32|
        f != bit && (f == PINNED_BITS || f == ARRAY_BEGIN_BITS || f == crate::data::INPUT_VAR_BITS)
            implies has_flags(#[trigger] (x ^ bit), f) == has_flags(x, f) by {
        assert(has_flags(x ^ bit, f) == has_flags(x, f)) by (bit_vector)
            requires
                f != bit,
                bit == 0b0100_0000u32 || bit == 0b1000_0000u32,
                f == 0b0100_0000u32 || f == 0b1000_0000u32 || f == 0b0010_0000u32,
        ;
    }
    assert((x ^ bit) ^ bit == x) by (bit_vector);
    let t = toggle_spec(s, bit);
    assert(nonempty(t) == t);
    assert(toggle_spec(t, bit) =~= n);
}

/// The pin command (74) toggles the pin of the top element (an unmarked
/// zero is pushed first onto an empty stack) and changes nothing else:
/// popping becomes non-destructive exactly when it was destructive, and a
/// second pin gives back the stack the first one found.
pub proof fn lemma_pin_command_toggles(m: ExecModel)
    ensures
        ({
            let n = nonempty(m.stack);
            let (m1, a) = command_spec(m, 74);
            &&& a == ActionModel::Continue
            &&& m1 == with_stack(m, m1.stack)
            &&& m1.stack.len() == n.len()
            &&& forall|i: int| 0 <= i < n.len() - 1 ==> #[trigger] m1.stack[i] == n[i]
            &&& m1.stack.last().0 == n.last().0
            &&& has_flags(m1.stack.last().1, PINNED_BITS) == !has_flags(n.last().1, PINNED_BITS)
            &&& has_flags(m1.stack.last().1, ARRAY_BEGIN_BITS) == has_flags(
                n.last().1,
                ARRAY_BEGIN_BITS,
            )
            &&& (stack_pop(m1.stack).0 == m1.stack) == (stack_pop(n).0 != n)
            &&& command_spec(m1, 74).0 == with_stack(m, n)
        }),
{
    let n = nonempty(m.stack);
    lemma_toggle_flags(m.stack, PINNED_BITS);
    let t = toggle_spec(m.stack, PINNED_BITS);
    assert(has_flags(t.last().1, ARRAY_BEGIN_BITS) == has_flags(n.last().1, ARRAY_BEGIN_BITS));
    assert(n.drop_last().len() != n.len());
    assert(t.drop_last().len() != t.len());
}

/// The array-mark command (53) toggles the array-begin mark of the top
/// element (an unmarked zero is pushed first onto an empty stack) and
/// changes nothing else; a second mark gives back the stack the first one
/// found.
pub proof fn lemma_array_mark_command_toggles(m: ExecModel)
    ensures
        ({
            let n = nonempty(m.stack);
            let (m1, a) = command_spec(m, 53);
            &&& a == ActionModel::Continue
            &&& m1 == with_stack(m, m1.stack)
            &&& m1.stack.len() == n.len()
            &&& forall|i: int| 0 <= i < n.len() - 1 ==> #[trigger] m1.stack[i] == n[i]
            &&& m1.stack.last().0 == n.last().0
            &&& has_flags(m1.stack.last().1, ARRAY_BEGIN_BITS) == !has_flags(
                n.last().1,
                ARRAY_BEGIN_BITS,
            )
            &&& has_flags(m1.stack.last().1, PINNED_BITS) == has_flags(n.last().1, PINNED_BITS)
            &&& command_spec(m1, 53).0 == with_stack(m, n)
        }),
{
    lemma_toggle_flags(m.stack, ARRAY_BEGIN_BITS);
    let n = nonempty(m.stack);
    let t = toggle_spec(m.stack, ARRAY_BEGIN_BITS);
    assert(has_flags(t.last().1, PINNED_BITS) == has_flags(n.last().1, PINNED_BITS));
}

} // verus!
