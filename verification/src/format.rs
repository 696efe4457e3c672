//! The texts of values, code, markers and the stack, as the interpreter
//! prints them.
use vstd::prelude::*;
use vstd::string::StringExecFns;
use crate::number::{
    nat_text,
    int_text,
    digit_char,
    bigint_text,
    decimal_display,
    decimal_debug,
    bigdecimal_display,
    bigdecimal_debug,
};
use crate::parse::{CodePiece, CodeModel, code_models, string_push};
use crate::data::{
    QuarkMarker,
    QuarkType,
    QuarkStack,
    ValueModel,
    Entry,
    has_flags,
    value_models,
    lemma_array_model,
    ARRAY_BEGIN_BITS,
    PINNED_BITS,
    INPUT_VAR_BITS,
};

verus! {

/// The texts `ts` with `sep` between each two.
pub open spec fn join_texts(ts: Seq<Seq<char>>, sep: Seq<char>) -> Seq<char>
    decreases ts.len(),
{
    if ts.len() == 0 {
        seq![]
    } else if ts.len() == 1 {
        ts[0]
    } else {
        join_texts(ts.drop_last(), sep) + sep + ts.last()
    }
}

/// Adding the next text to a join.
proof fn lemma_join_push(ts: Seq<Seq<char>>, sep: Seq<char>, i: int)
    requires
        0 <= i < ts.len(),
    ensures
        join_texts(ts.take(i + 1), sep) == if i == 0 {
            ts[0]
        } else {
            join_texts(ts.take(i), sep) + sep + ts[i]
        },
{
    assert(ts.take(i + 1).drop_last() =~= ts.take(i));
}

// ------------------------------------------------------------------ markers

/// One flag name of a marker's text, with `" | "` before all but the first;
/// the flag is `(text so far, nothing written yet)`.
pub open spec fn add_flag_name(acc: (Seq<char>, bool), shown: bool, name: Seq<char>) -> (Seq<char>, bool) {
    if shown {
        ((if acc.1 { acc.0 } else { acc.0 + " | "@ }) + name, false)
    } else {
        acc
    }
}

/// The text that the `Debug` of a bitflags set gives for these marker
/// bits: the names of the flags that are set, in declaration order,
/// separated by `" | "`; `NONE` (the empty flag) only when no bit is set.
pub open spec fn marker_text(bits: u32) -> Seq<char> {
    let a0 = (Seq::<char>::empty(), true);
    let a1 = add_flag_name(a0, bits == 0, "NONE"@);
    let a2 = add_flag_name(a1, has_flags(bits, ARRAY_BEGIN_BITS), "ARRAY_BEGIN"@);
    let a3 = add_flag_name(a2, has_flags(bits, PINNED_BITS), "PINNED"@);
    let a4 = add_flag_name(a3, has_flags(bits, INPUT_VAR_BITS), "INPUT_VAR"@);
    if a4.1 {
        a4.0 + "(empty)"@
    } else {
        a4.0
    }
}

fn add_flag_name_exec(out: &mut String, first: &mut bool, shown: bool, name: &str)
    ensures
        (final(out)@, *final(first)) == add_flag_name((old(out)@, *old(first)), shown, name@),
{
    if shown {
        if !*first {
            out.append(" | ");
        }
        *first = false;
        out.append(name);
    }
}

impl QuarkMarker {
    /// The marker's `Debug` text (see `marker_text`).
    pub fn debug_text(&self) -> (r: String)
        ensures
            r@ == marker_text(self@),
    {
        let bits = self.bits();
        let mut out = String::new();
        let mut first = true;
        add_flag_name_exec(&mut out, &mut first, bits == 0, "NONE");
        add_flag_name_exec(&mut out, &mut first, self.contains(QuarkMarker::array_begin()), "ARRAY_BEGIN");
        add_flag_name_exec(&mut out, &mut first, self.contains(QuarkMarker::pinned()), "PINNED");
        add_flag_name_exec(&mut out, &mut first, self.contains(QuarkMarker::input_var()), "INPUT_VAR");
        if first {
            out.append("(empty)");
        }
        out
    }
}

// --------------------------------------------------------------------- code

fn append_nat(out: &mut String, n: usize)
    ensures
        final(out)@ == old(out)@ + nat_text(n as nat),
    decreases n,
{
    if n >= 10 {
        append_nat(out, n / 10);
    }
    let d: u8 = (n % 10) as u8;
    string_push(out, (d + 48) as char);
    proof {
        assert(nat_text(n as nat) == (if n < 10 { seq![digit_char(n as nat)] } else { nat_text(
            (n / 10) as nat,
        ).push(digit_char((n % 10) as nat)) }));
    }
}

/// The `Debug` text of a code piece: `Point(12)`, `Number(5)`,
/// `Block([Point(1), Number(2)])`.
pub open spec fn code_text(c: CodeModel) -> Seq<char>
    decreases c,
{
    match c {
        CodeModel::Point(p) => "Point("@ + nat_text(p) + ")"@,
        CodeModel::Number(n) => "Number("@ + int_text(n) + ")"@,
        CodeModel::Block(b) => "Block(["@ + join_codes(b) + "])"@,
    }
}

/// The texts of code pieces, separated by `", "`.
pub open spec fn join_codes(s: Seq<CodeModel>) -> Seq<char>
    decreases s,
{
    if s.len() == 0 {
        seq![]
    } else if s.len() == 1 {
        code_text(s[0])
    } else {
        join_codes(s.drop_last()) + ", "@ + code_text(s.last())
    }
}

/// The `Debug` text of a list of code pieces: `[Point(12), Number(5)]`.
pub open spec fn codes_text(s: Seq<CodeModel>) -> Seq<char> {
    "["@ + join_codes(s) + "]"@
}

proof fn lemma_join_codes_push(s: Seq<CodeModel>, i: int)
    requires
        0 <= i < s.len(),
    ensures
        join_codes(s.take(i + 1)) == if i == 0 {
            code_text(s[0])
        } else {
            join_codes(s.take(i)) + ", "@ + code_text(s[i])
        },
{
    assert(s.take(i + 1).drop_last() =~= s.take(i));
}

fn append_code(out: &mut String, c: &CodePiece)
    ensures
        final(out)@ == old(out)@ + code_text(c.model()),
    decreases c,
{
    match c {
        CodePiece::Point(p) => {
            let ghost start = out@;
            out.append("Point(");
            append_nat(out, *p);
            out.append(")");
            assert(out@ =~= start + code_text(c.model()));
        },
        CodePiece::Number(n) => {
            let ghost start = out@;
            out.append("Number(");
            let t = bigint_text(n);
            out.append(t.as_str());
            out.append(")");
            assert(out@ =~= start + code_text(c.model()));
        },
        CodePiece::Block(b) => {
            let ghost start = out@;
            let ghost inner = code_models(b@);
            out.append("Block([");
            let mut i: usize = 0;
            while i < b.len()
                invariant
                    *c == CodePiece::Block(*b),
                    i <= b@.len(),
                    inner == code_models(b@),
                    out@ == start + "Block(["@ + join_codes(inner.take(i as int)),
                decreases b@.len() - i,
            {
                proof {
                    assert(decreases_to!(*c => c->Block_0));
                    assert(c->Block_0 == *b);
                    assert(decreases_to!(*b => b@));
                    assert(decreases_to!(b@ => b@[i as int]));
                    lemma_join_codes_push(inner, i as int);
                }
                let ghost before = out@;
                if i > 0 {
                    out.append(", ");
                }
                append_code(out, &b[i]);
                proof {
                    if i > 0 {
                        assert(out@ =~= before + ", "@ + code_text(inner[i as int]));
                    }
                    assert(out@ =~= start + "Block(["@ + join_codes(inner.take(i + 1)));
                }
                i = i + 1;
            }
            out.append("])");
            proof {
                assert(inner.take(b@.len() as int) =~= inner);
                assert(c.model()->Block_0 =~= inner);
                assert(out@ =~= start + code_text(c.model()));
            }
        },
    }
}

fn append_codes(out: &mut String, v: &Vec<CodePiece>)
    ensures
        final(out)@ == old(out)@ + codes_text(code_models(v@)),
{
    let ghost start = out@;
    let ghost inner = code_models(v@);
    out.append("[");
    let mut i: usize = 0;
    while i < v.len()
        invariant
            i <= v@.len(),
            inner == code_models(v@),
            out@ == start + "["@ + join_codes(inner.take(i as int)),
        decreases v@.len() - i,
    {
        proof {
            lemma_join_codes_push(inner, i as int);
        }
        let ghost before = out@;
        if i > 0 {
            out.append(", ");
        }
        append_code(out, &v[i]);
        proof {
            if i > 0 {
                assert(out@ =~= before + ", "@ + code_text(inner[i as int]));
            }
            assert(out@ =~= start + "["@ + join_codes(inner.take(i + 1)));
        }
        i = i + 1;
    }
    out.append("]");
    proof {
        assert(inner.take(v@.len() as int) =~= inner);
        assert(out@ =~= start + codes_text(inner));
    }
}

/// The `Debug` text of a list of code pieces (see `codes_text`).
pub fn code_list_text(v: &Vec<CodePiece>) -> (r: String)
    ensures
        r@ == codes_text(code_models(v@)),
{
    let mut out = String::new();
    append_codes(&mut out, v);
    out
}


// ------------------------------------------------------------------- values

/// The `Debug` text of a value: `Number(<decimal's Debug>)`,
/// `Array([..])`, `Block([..])`.
pub open spec fn value_debug(v: ValueModel) -> Seq<char>
    decreases v,
{
    match v {
        ValueModel::Number(d) => "Number("@ + bigdecimal_debug(d) + ")"@,
        ValueModel::Array(a) => "Array(["@ + join_value_debugs(a) + "])"@,
        ValueModel::Block(b) => "Block("@ + codes_text(b) + ")"@,
    }
}

/// The `Debug` texts of values, separated by `", "`.
pub open spec fn join_value_debugs(s: Seq<ValueModel>) -> Seq<char>
    decreases s,
{
    if s.len() == 0 {
        seq![]
    } else if s.len() == 1 {
        value_debug(s[0])
    } else {
        join_value_debugs(s.drop_last()) + ", "@ + value_debug(s.last())
    }
}

/// What printing a value shows: an array as the `Debug` list of its
/// elements, a number by its `Display`, a block as the `Debug` list of
/// its code.
pub open spec fn print_text_spec(v: ValueModel) -> Seq<char> {
    match v {
        ValueModel::Array(a) => "["@ + join_value_debugs(a) + "]"@,
        ValueModel::Number(d) => bigdecimal_display(d),
        ValueModel::Block(b) => codes_text(b),
    }
}

/// A value as an array element in the stack's text: an array as its
/// elements between `[` and a newline, and `]`; a number or a block
/// followed by `,` and a newline.
pub open spec fn arr_text(v: ValueModel) -> Seq<char>
    decreases v,
{
    match v {
        ValueModel::Array(a) => "[\n"@ + concat_arr_texts(a) + "]"@,
        ValueModel::Number(d) => bigdecimal_display(d) + ",\n"@,
        ValueModel::Block(b) => codes_text(b) + ",\n"@,
    }
}

/// The element texts of an array, one after the other.
pub open spec fn concat_arr_texts(s: Seq<ValueModel>) -> Seq<char>
    decreases s,
{
    if s.len() == 0 {
        seq![]
    } else {
        concat_arr_texts(s.drop_last()) + arr_text(s.last())
    }
}

/// A stack element in the stack's text: an array as in `arr_text` without
/// the trailing comma; a number or a block followed by `:` and its
/// marker's text.
pub open spec fn entry_text(e: Entry) -> Seq<char> {
    match e.0 {
        ValueModel::Array(a) => "[\n"@ + concat_arr_texts(a) + "]"@,
        ValueModel::Number(d) => bigdecimal_display(d) + ":"@ + marker_text(e.1),
        ValueModel::Block(b) => codes_text(b) + ":"@ + marker_text(e.1),
    }
}

/// The entries' texts, each followed by a newline.
pub open spec fn stack_lines(s: Seq<Entry>) -> Seq<char>
    decreases s.len(),
{
    if s.len() == 0 {
        seq![]
    } else {
        stack_lines(s.drop_last()) + entry_text(s.last()) + "\n"@
    }
}

/// The stack's text: `STACK`, the elements from the bottom, `END STACK`,
/// each on a line of its own.
pub open spec fn stack_text(s: Seq<Entry>) -> Seq<char> {
    "STACK\n"@ + stack_lines(s) + "END STACK\n"@
}

proof fn lemma_join_value_debugs_push(s: Seq<ValueModel>, i: int)
    requires
        0 <= i < s.len(),
    ensures
        join_value_debugs(s.take(i + 1)) == if i == 0 {
            value_debug(s[0])
        } else {
            join_value_debugs(s.take(i)) + ", "@ + value_debug(s[i])
        },
{
    assert(s.take(i + 1).drop_last() =~= s.take(i));
}

proof fn lemma_concat_arr_push(s: Seq<ValueModel>, i: int)
    requires
        0 <= i < s.len(),
    ensures
        concat_arr_texts(s.take(i + 1)) == concat_arr_texts(s.take(i)) + arr_text(s[i]),
{
    assert(s.take(i + 1).drop_last() =~= s.take(i));
}

fn append_value_debug(out: &mut String, v: &QuarkType)
    ensures
        final(out)@ == old(out)@ + value_debug(v.model()),
    decreases v,
{
    let ghost start = out@;
    match v {
        QuarkType::Number(d) => {
            out.append("Number(");
            let t = decimal_debug(d);
            out.append(t.as_str());
            out.append(")");
            assert(out@ =~= start + value_debug(v.model()));
        },
        QuarkType::Block(b) => {
            out.append("Block(");
            append_codes(out, b);
            out.append(")");
            assert(out@ =~= start + value_debug(v.model()));
        },
        QuarkType::Array(a) => {
            proof {
                assert(decreases_to!(*v => v->Array_0));
                assert(v->Array_0 == *a);
            }
            out.append("Array([");
            append_debug_list(out, a);
            out.append("])");
            proof {
                assert(v.model()->Array_0 =~= value_models(a@));
                assert(out@ =~= start + value_debug(v.model()));
            }
        },
    }
}

/// Appends the `Debug` texts of the values, separated by `", "`.
fn append_debug_list(out: &mut String, a: &Vec<QuarkType>)
    ensures
        final(out)@ == old(out)@ + join_value_debugs(value_models(a@)),
    decreases a,
{
    let ghost start = out@;
    let ghost inner = value_models(a@);
    let mut i: usize = 0;
    while i < a.len()
        invariant
            i <= a@.len(),
            inner == value_models(a@),
            out@ == start + join_value_debugs(inner.take(i as int)),
        decreases a@.len() - i,
    {
        proof {
            assert(decreases_to!(*a => a@));
            assert(decreases_to!(a@ => a@[i as int]));
            lemma_join_value_debugs_push(inner, i as int);
        }
        let ghost before = out@;
        if i > 0 {
            out.append(", ");
        }
        append_value_debug(out, &a[i]);
        proof {
            if i > 0 {
                assert(out@ =~= before + ", "@ + value_debug(inner[i as int]));
            }
            assert(out@ =~= start + join_value_debugs(inner.take(i + 1)));
        }
        i = i + 1;
    }
    proof {
        assert(inner.take(a@.len() as int) =~= inner);
    }
}

/// What printing a value shows (see `print_text_spec`).
pub fn print_text(v: &QuarkType) -> (r: String)
    ensures
        r@ == print_text_spec(v.model()),
{
    match v {
        QuarkType::Array(a) => {
            let mut out = String::new();
            out.append("[");
            append_debug_list(&mut out, a);
            out.append("]");
            proof {
                lemma_array_model(*a);
                assert(out@ =~= print_text_spec(v.model()));
            }
            out
        },
        QuarkType::Number(d) => decimal_display(d),
        QuarkType::Block(b) => code_list_text(b),
    }
}

fn append_arr(out: &mut String, v: &QuarkType)
    ensures
        final(out)@ == old(out)@ + arr_text(v.model()),
    decreases v,
{
    let ghost start = out@;
    match v {
        QuarkType::Number(d) => {
            let t = decimal_display(d);
            out.append(t.as_str());
            out.append(",\n");
            assert(out@ =~= start + arr_text(v.model()));
        },
        QuarkType::Block(b) => {
            append_codes(out, b);
            out.append(",\n");
            assert(out@ =~= start + arr_text(v.model()));
        },
        QuarkType::Array(a) => {
            let ghost inner = value_models(a@);
            out.append("[\n");
            let mut i: usize = 0;
            while i < a.len()
                invariant
                    *v == QuarkType::Array(*a),
                    i <= a@.len(),
                    inner == value_models(a@),
                    out@ == start + "[\n"@ + concat_arr_texts(inner.take(i as int)),
                decreases a@.len() - i,
            {
                proof {
                    assert(decreases_to!(*v => v->Array_0));
                    assert(v->Array_0 == *a);
                    assert(decreases_to!(*a => a@));
                    assert(decreases_to!(a@ => a@[i as int]));
                    lemma_concat_arr_push(inner, i as int);
                }
                append_arr(out, &a[i]);
                proof {
                    assert(out@ =~= start + "[\n"@ + concat_arr_texts(inner.take(i + 1)));
                }
                i = i + 1;
            }
            out.append("]");
            proof {
                assert(inner.take(a@.len() as int) =~= inner);
                assert(v.model()->Array_0 =~= inner);
                assert(out@ =~= start + arr_text(v.model()));
            }
        },
    }
}

/// The text of a value as an array element (see `arr_text`).
pub fn format_arr(v: &QuarkType) -> (r: String)
    ensures
        r@ == arr_text(v.model()),
{
    let mut out = String::new();
    append_arr(&mut out, v);
    out
}

/// The text of a stack element (see `entry_text`).
pub fn format_qsen(v: &(QuarkType, QuarkMarker)) -> (r: String)
    ensures
        r@ == entry_text((v.0.model(), v.1@)),
{
    match &v.0 {
        QuarkType::Array(e) => {
            let out = format_arr(&v.0);
            proof {
                lemma_array_model(*e);
            }
            out
        },
        QuarkType::Number(e) => {
            let mut out = decimal_display(e);
            out.append(":");
            let m = v.1.debug_text();
            out.append(m.as_str());
            assert(out@ =~= entry_text((v.0.model(), v.1@)));
            out
        },
        QuarkType::Block(e) => {
            let mut out = code_list_text(e);
            out.append(":");
            let m = v.1.debug_text();
            out.append(m.as_str());
            assert(out@ =~= entry_text((v.0.model(), v.1@)));
            out
        },
    }
}

impl QuarkStack {
    /// The stack's text (see `stack_text`).
    pub fn text(&self) -> (r: String)
        ensures
            r@ == stack_text(self.model()),
    {
        let ghost s = self.model();
        let mut out = String::new();
        out.append("STACK\n");
        let mut i: usize = 0;
        while i < self.len()
            invariant
                s == self.model(),
                i <= s.len(),
                out@ == "STACK\n"@ + stack_lines(s.take(i as int)),
            decreases s.len() - i,
        {
            let e = self.entry(i);
            let t = format_qsen(e);
            out.append(t.as_str());
            out.append("\n");
            proof {
                assert(s.take(i + 1).drop_last() =~= s.take(i as int));
                assert(out@ =~= "STACK\n"@ + stack_lines(s.take(i + 1)));
            }
            i = i + 1;
        }
        out.append("END STACK\n");
        proof {
            assert(s.take(s.len() as int) =~= s);
            assert(out@ =~= stack_text(s));
        }
        out
    }
}

} // verus!
