//! Values, their markers, and the value stack.
use vstd::prelude::*;
use crate::number::Decimal;
use crate::parse::{CodePiece, CodeModel, code_models, copy_pieces};

verus! {

/// The marker bit of the element where an array begins.
pub const ARRAY_BEGIN_BITS: u32 = 0b1000_0000;
/// The marker bit of a pinned element: popping it gives a copy and keeps it.
pub const PINNED_BITS: u32 = 0b0100_0000;
/// The marker bit of an input variable.
pub const INPUT_VAR_BITS: u32 = 0b0010_0000;

/// The flags `flag` are all set in `bits`.
pub open spec fn has_flags(bits: u32, flag: u32) -> bool {
    bits & flag == flag
}

/// A set of marker flags on a stack element.
#[derive(Clone, Copy, Debug, PartialEq, Eq, Structural)]
pub struct QuarkMarker {
    bits: u32,
}

impl View for QuarkMarker {
    type V = u32;

    closed spec fn view(&self) -> u32 {
        self.bits
    }
}

/// The bits outside the three flags.
pub const UNKNOWN_FLAG_BITS: u32 = 0xFFFF_FF1F;

impl QuarkMarker {
    /// A marker holds only the three known flags.
    #[verifier::type_invariant]
    spec fn known_flags_only(self) -> bool {
        self.bits & UNKNOWN_FLAG_BITS == 0
    }

    /// No flag.
    pub fn none() -> (r: QuarkMarker)
        ensures
            r@ == 0,
    {
        assert(0u32 & 0xFFFF_FF1Fu32 == 0) by (bit_vector);
        QuarkMarker { bits: 0 }
    }

    /// The flag of the element where an array begins.
    pub fn array_begin() -> (r: QuarkMarker)
        ensures
            r@ == ARRAY_BEGIN_BITS,
    {
        assert(0b1000_0000u32 & 0xFFFF_FF1Fu32 == 0) by (bit_vector);
        QuarkMarker { bits: ARRAY_BEGIN_BITS }
    }

    /// The flag of a pinned element.
    pub fn pinned() -> (r: QuarkMarker)
        ensures
            r@ == PINNED_BITS,
    {
        assert(0b0100_0000u32 & 0xFFFF_FF1Fu32 == 0) by (bit_vector);
        QuarkMarker { bits: PINNED_BITS }
    }

    /// The flag of an input variable.
    pub fn input_var() -> (r: QuarkMarker)
        ensures
            r@ == INPUT_VAR_BITS,
    {
        assert(0b0010_0000u32 & 0xFFFF_FF1Fu32 == 0) by (bit_vector);
        QuarkMarker { bits: INPUT_VAR_BITS }
    }

    /// The raw bits of the flags.
    pub fn bits(&self) -> (r: u32)
        ensures
            r == self@,
    {
        self.bits
    }

    /// All flags of `other` are set here.
    pub fn contains(&self, other: QuarkMarker) -> (r: bool)
        ensures
            r == has_flags(self@, other@),
    {
        self.bits & other.bits == other.bits
    }

    /// Sets (`value` true) or clears (`value` false) the flags of `other`.
    pub fn set(&mut self, other: QuarkMarker, value: bool)
        ensures
            final(self)@ == (if value { old(self)@ | other@ } else { old(self)@ & !other@ }),
    {
        proof {
            use_type_invariant(&*self);
            use_type_invariant(&other);
        }
        let a = self.bits;
        let b = other.bits;
        let bits = if value {
            a | b
        } else {
            a & !b
        };
        assert(a & 0xFFFF_FF1Fu32 == 0 && b & 0xFFFF_FF1Fu32 == 0 ==> (a | b) & 0xFFFF_FF1Fu32 == 0
            && (a & !b) & 0xFFFF_FF1Fu32 == 0) by (bit_vector);
        *self = QuarkMarker { bits };
    }

    /// Flips the flags of `other`.
    pub fn toggle(&mut self, other: QuarkMarker)
        ensures
            final(self)@ == old(self)@ ^ other@,
    {
        proof {
            use_type_invariant(&*self);
            use_type_invariant(&other);
        }
        let a = self.bits;
        let b = other.bits;
        assert(a & 0xFFFF_FF1Fu32 == 0 && b & 0xFFFF_FF1Fu32 == 0 ==> (a ^ b) & 0xFFFF_FF1Fu32 == 0)
            by (bit_vector);
        *self = QuarkMarker { bits: a ^ b };
    }
}

/// A value on the stack.
#[derive(Debug)]
pub enum QuarkType {
    Number(Decimal),
    Array(Vec<QuarkType>),
    /// Contains the decoded program.
    Block(Vec<CodePiece>),
}

/// The mathematical form of a `QuarkType`.
pub ghost enum ValueModel {
    /// A decimal as its (digits, scale) pair.
    Number((int, int)),
    Array(Seq<ValueModel>),
    Block(Seq<CodeModel>),
}

impl QuarkType {
    pub open spec fn model(&self) -> ValueModel
        decreases self,
    {
        match self {
            QuarkType::Number(d) => ValueModel::Number(d@),
            QuarkType::Array(a) => ValueModel::Array(
                Seq::new(
                    a@.len(),
                    |i: int|
                        if 0 <= i < a@.len() {
                            a@[i].model()
                        } else {
                            ValueModel::Number((0, 0))
                        },
                ),
            ),
            QuarkType::Block(b) => ValueModel::Block(code_models(b@)),
        }
    }

    /// A deep copy of this value.
    pub fn copy(&self) -> (r: QuarkType)
        ensures
            r.model() == self.model(),
        decreases self,
    {
        match self {
            QuarkType::Number(d) => QuarkType::Number(d.copy()),
            QuarkType::Block(b) => QuarkType::Block(copy_pieces(b)),
            QuarkType::Array(a) => {
                let mut out: Vec<QuarkType> = Vec::new();
                let mut i: usize = 0;
                while i < a.len()
                    invariant
                        *self == QuarkType::Array(*a),
                        i <= a@.len(),
                        out@.len() == i,
                        forall|j: int| 0 <= j < i ==> #[trigger] out@[j].model() == a@[j].model(),
                    decreases a@.len() - i,
                {
                    proof {
                        assert(decreases_to!(*self => self->Array_0));
                        assert(self->Array_0 == *a);
                        assert(decreases_to!(*a => a@));
                        assert(decreases_to!(a@ => a@[i as int]));
                    }
                    let c = a[i].copy();
                    out.push(c);
                    i = i + 1;
                }
                let r = QuarkType::Array(out);
                proof {
                    let rm = r.model()->Array_0;
                    let sm = self.model()->Array_0;
                    assert(r->Array_0 == out);
                    assert forall|k: int| 0 <= k < rm.len() implies rm[k] == sm[k] by {
                        assert(rm[k] == out@[k].model());
                        assert(sm[k] == a@[k].model());
                    }
                    assert(rm =~= sm);
                }
                r
            },
        }
    }
}

/// The models of a sequence of values.
pub open spec fn value_models(s: Seq<QuarkType>) -> Seq<ValueModel> {
    Seq::new(s.len(), |i: int| s[i].model())
}

/// A stack element as (value, marker bits).
pub type Entry = (ValueModel, u32);

/// The element that popping an empty stack gives: zero, unmarked.
pub open spec fn zero_value() -> ValueModel {
    ValueModel::Number((0, 0))
}

/// Popping: the top value; the stack loses it unless it is pinned. An
/// empty stack gives zero and stays empty.
pub open spec fn stack_pop(s: Seq<Entry>) -> (Seq<Entry>, ValueModel) {
    if s.len() == 0 {
        (s, zero_value())
    } else if has_flags(s.last().1, PINNED_BITS) {
        (s, s.last().0)
    } else {
        (s.drop_last(), s.last().0)
    }
}

/// Pushing an unmarked value.
pub open spec fn stack_push(s: Seq<Entry>, v: ValueModel) -> Seq<Entry> {
    s.push((v, 0u32))
}

/// The stack with at least one element: an unmarked zero is pushed onto
/// an empty stack.
pub open spec fn nonempty(s: Seq<Entry>) -> Seq<Entry> {
    if s.len() == 0 {
        s.push((zero_value(), 0u32))
    } else {
        s
    }
}

/// The stack with the top element's marker bits replaced by `bits`.
pub open spec fn mark_top(s: Seq<Entry>, bits: u32) -> Seq<Entry> {
    s.update(s.len() - 1, (s.last().0, bits))
}

/// Popping this stack would reach an unpinned input variable, which the
/// stack does not support.
pub open spec fn pops_input_var(s: Seq<Entry>) -> bool {
    s.len() > 0 && !has_flags(s.last().1, PINNED_BITS) && has_flags(s.last().1, INPUT_VAR_BITS)
}

/// No element of the stack is marked as an input variable.
pub open spec fn no_input_vars(s: Seq<Entry>) -> bool {
    forall|i: int| 0 <= i < s.len() ==> !has_flags(#[trigger] s[i].1, INPUT_VAR_BITS)
}

/// The stack of values, each with its marker.
#[derive(Debug)]
pub struct QuarkStack {
    container: Vec<(QuarkType, QuarkMarker)>,
}

impl QuarkStack {
    /// The elements, bottom first.
    pub closed spec fn model(&self) -> Seq<Entry> {
        Seq::new(
            self.container@.len(),
            |i: int| (self.container@[i].0.model(), self.container@[i].1@),
        )
    }

    /// An empty stack.
    pub fn new() -> (r: QuarkStack)
        ensures
            r.model() == Seq::<Entry>::empty(),
    {
        let r = QuarkStack { container: Vec::new() };
        assert(r.model() =~= Seq::<Entry>::empty());
        r
    }

    /// Pops a value (see `stack_pop`): a pinned top stays and a copy of it
    /// is returned; an empty stack gives zero.
    pub fn pop(&mut self) -> (r: QuarkType)
        requires
            !pops_input_var(old(self).model()),
        ensures
            (final(self).model(), r.model()) == stack_pop(old(self).model()),
    {
        let ghost s = self.model();
        let val = match self.container.pop() {
            Some(e) => e,
            None => (QuarkType::Number(Decimal::from_u64(0)), QuarkMarker::none()),
        };
        proof {
            if s.len() > 0 {
                assert(self.model() =~= s.drop_last());
            } else {
                assert(!has_flags(0u32, PINNED_BITS)) by (bit_vector);
            }
        }
        if val.1.contains(QuarkMarker::pinned()) {
            let newv = val.0.copy();
            self.container.push(val);
            assert(self.model() =~= s);
            return newv;
        }
        val.0
    }

    /// A copy of element `i` (counted from the bottom), if there is one.
    pub fn get(&mut self, i: usize) -> (r: Option<(QuarkType, QuarkMarker)>)
        ensures
            final(self).model() == old(self).model(),
            match r {
                Some(e) => i < old(self).model().len() && (e.0.model(), e.1@) == old(
                    self,
                ).model()[i as int],
                None => i >= old(self).model().len(),
            },
    {
        if i < self.container.len() {
            let e = &self.container[i];
            Some((e.0.copy(), e.1))
        } else {
            None
        }
    }

    /// Pushes an unmarked value.
    pub fn push(&mut self, v: QuarkType)
        ensures
            final(self).model() == stack_push(old(self).model(), v.model()),
    {
        let ghost s = self.model();
        self.container.push((v, QuarkMarker::none()));
        assert(self.model() =~= stack_push(s, v.model()));
    }

    fn ensure_nonempty(&mut self)
        ensures
            final(self).model() == nonempty(old(self).model()),
    {
        let ghost s = self.model();
        if self.container.len() == 0 {
            self.container.push((QuarkType::Number(Decimal::from_u64(0)), QuarkMarker::none()));
            assert(self.model() =~= nonempty(s));
        }
    }

    /// The top element's marker; an unmarked zero is pushed first onto an
    /// empty stack.
    pub fn flags(&mut self) -> (r: QuarkMarker)
        ensures
            final(self).model() == nonempty(old(self).model()),
            r@ == final(self).model().last().1,
    {
        self.ensure_nonempty();
        assert(self.model().len() == self.container@.len());
        let len = self.container.len();
        self.container[len - 1].1
    }

    fn update_top_marker(&mut self, marker: QuarkMarker)
        requires
            old(self).model().len() > 0,
        ensures
            final(self).model() == mark_top(old(self).model(), marker@),
    {
        let ghost s = self.model();
        let top = self.container.pop().unwrap();
        self.container.push((top.0, marker));
        assert(self.model() =~= mark_top(s, marker@));
    }

    /// Sets the flags `e` on the top element (an unmarked zero is pushed
    /// first onto an empty stack).
    pub fn flag(&mut self, e: QuarkMarker)
        ensures
            final(self).model() == mark_top(
                nonempty(old(self).model()),
                nonempty(old(self).model()).last().1 | e@,
            ),
    {
        self.ensure_nonempty();
        assert(self.model().len() == self.container@.len());
        let len = self.container.len();
        let mut m = self.container[len - 1].1;
        m.set(e, true);
        self.update_top_marker(m);
    }

    /// Toggles the pin of the top element (an unmarked zero is pushed
    /// first onto an empty stack).
    pub fn pin(&mut self)
        ensures
            final(self).model() == mark_top(
                nonempty(old(self).model()),
                nonempty(old(self).model()).last().1 ^ PINNED_BITS,
            ),
    {
        self.ensure_nonempty();
        assert(self.model().len() == self.container@.len());
        let len = self.container.len();
        let mut m = self.container[len - 1].1;
        m.toggle(QuarkMarker::pinned());
        self.update_top_marker(m);
    }

    /// Toggles the array-begin mark of the top element (an unmarked zero is
    /// pushed first onto an empty stack).
    pub fn arraymark(&mut self)
        ensures
            final(self).model() == mark_top(
                nonempty(old(self).model()),
                nonempty(old(self).model()).last().1 ^ ARRAY_BEGIN_BITS,
            ),
    {
        self.ensure_nonempty();
        assert(self.model().len() == self.container@.len());
        let len = self.container.len();
        let mut m = self.container[len - 1].1;
        m.toggle(QuarkMarker::array_begin());
        self.update_top_marker(m);
    }

    /// The stack is empty.
    pub fn is_end(&mut self) -> (r: bool)
        ensures
            final(self).model() == old(self).model(),
            r == (old(self).model().len() == 0),
    {
        self.container.len() == 0
    }

    /// Element `i`, counted from the bottom.
    pub fn entry(&self, i: usize) -> (r: &(QuarkType, QuarkMarker))
        requires
            i < self.model().len(),
        ensures
            (r.0.model(), r.1@) == self.model()[i as int],
    {
        &self.container[i]
    }

    /// The number of elements.
    pub fn len(&self) -> (r: usize)
        ensures
            r == self.model().len(),
    {
        self.container.len()
    }
}


/// Popping right after a push gives back the pushed value and the stack
/// as it was.
pub proof fn lemma_pop_after_push(s: Seq<Entry>, v: ValueModel)
    ensures
        stack_pop(stack_push(s, v)) == (s, v),
{
    assert(!has_flags(0u32, PINNED_BITS)) by (bit_vector);
    assert(stack_push(s, v).drop_last() =~= s);
}

/// Pinning an unpinned top makes popping non-destructive: pop gives the
/// top value and leaves the (pinned) stack unchanged.
pub proof fn lemma_pop_pinned(s: Seq<Entry>)
    requires
        s.len() > 0,
        !has_flags(s.last().1, PINNED_BITS),
    ensures
        ({
            let p = mark_top(s, s.last().1 ^ PINNED_BITS);
            stack_pop(p) == (p, s.last().0)
        }),
{
    let b = s.last().1;
    assert(!has_flags(b, PINNED_BITS) ==> has_flags(b ^ PINNED_BITS, PINNED_BITS)) by (bit_vector);
}

/// Pinning twice leaves the stack as the first pin found it (with an
/// unmarked zero where it was empty).
pub proof fn lemma_pin_twice(s: Seq<Entry>)
    ensures
        ({
            let n = nonempty(s);
            let p = mark_top(n, n.last().1 ^ PINNED_BITS);
            mark_top(nonempty(p), nonempty(p).last().1 ^ PINNED_BITS) == n
        }),
{
    let n = nonempty(s);
    let b = n.last().1;
    assert((b ^ PINNED_BITS) ^ PINNED_BITS == b) by (bit_vector);
    let p = mark_top(n, b ^ PINNED_BITS);
    assert(mark_top(p, (b ^ PINNED_BITS) ^ PINNED_BITS) =~= n);
}


/// The model of an array value is the models of its elements.
pub proof fn lemma_array_model(a: Vec<QuarkType>)
    ensures
        QuarkType::Array(a).model() == ValueModel::Array(value_models(a@)),
{
    let v = QuarkType::Array(a);
    assert(v.model()->Array_0 =~= value_models(a@));
}

/// Popping never reaches an input variable on a stack without them, and
/// keeps the stack without them.
pub proof fn lemma_pop_no_input_vars(s: Seq<Entry>)
    requires
        no_input_vars(s),
    ensures
        !pops_input_var(s),
        no_input_vars(stack_pop(s).0),
{
    if s.len() > 0 {
        assert(!has_flags(s[s.len() - 1].1, INPUT_VAR_BITS));
    }
}

/// Pushing keeps a stack without input variables so.
pub proof fn lemma_push_no_input_vars(s: Seq<Entry>, v: ValueModel)
    requires
        no_input_vars(s),
    ensures
        no_input_vars(stack_push(s, v)),
{
    assert(!has_flags(0u32, INPUT_VAR_BITS)) by (bit_vector);
    let t = stack_push(s, v);
    assert forall|i: int| 0 <= i < t.len() implies !has_flags(#[trigger] t[i].1, INPUT_VAR_BITS) by {
        if i < s.len() {
            assert(t[i] == s[i]);
        }
    }
}

/// Toggling the pin or the array mark keeps a stack without input
/// variables so.
pub proof fn lemma_toggle_no_input_vars(s: Seq<Entry>, bit: u32)
    requires
        no_input_vars(s),
        bit == PINNED_BITS || bit == ARRAY_BEGIN_BITS,
    ensures
        no_input_vars(mark_top(nonempty(s), nonempty(s).last().1 ^ bit)),
{
    assert(!has_flags(0u32, INPUT_VAR_BITS)) by (bit_vector);
    let n = nonempty(s);
    assert(no_input_vars(n)) by {
        assert forall|i: int| 0 <= i < n.len() implies !has_flags(#[trigger] n[i].1, INPUT_VAR_BITS) by {
            if i < s.len() {
                assert(n[i] == s[i]);
            }
        }
    }
    let b = n.last().1;
    assert(!has_flags(b, INPUT_VAR_BITS));
    assert(!has_flags(b, 0b0010_0000u32) ==> !has_flags(b ^ 0b0100_0000u32, 0b0010_0000u32)) by (bit_vector);
    assert(!has_flags(b, 0b0010_0000u32) ==> !has_flags(b ^ 0b1000_0000u32, 0b0010_0000u32)) by (bit_vector);
    let t = mark_top(n, b ^ bit);
    assert forall|i: int| 0 <= i < t.len() implies !has_flags(#[trigger] t[i].1, INPUT_VAR_BITS) by {
        if i < n.len() - 1 {
            assert(t[i] == n[i]);
        }
    }
}

} // verus!
