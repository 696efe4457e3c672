//! Program text: decoding packed bytes and text into command ids, and
//! parsing command ids into code pieces.
use vstd::prelude::*;
use crate::number::{BigNum, bigint_mul, bigint_add_usize};
use bit_vec::BitVec;
use vstd::std_specs::iter::IteratorSpec;

verus! {

/// Command id that opens a block.
pub const OPEN_BLOCK: usize = 32;
/// Command id that closes a block.
pub const CLOSE_BLOCK: usize = 33;
/// First command id that is a digit (the digit 0).
pub const NUM_START: usize = 2;
/// Last command id that is a digit (the digit 9).
pub const NUM_END: usize = 11;

/// A parsed piece of a program.
#[derive(Debug)]
pub enum CodePiece {
    /// A command, by its id.
    Point(usize),
    /// A block of code, pushed as a value when met.
    Block(Vec<CodePiece>),
    /// A whole number written with digit commands.
    Number(BigNum),
}

/// The mathematical form of a `CodePiece`.
pub ghost enum CodeModel {
    Point(nat),
    Block(Seq<CodeModel>),
    Number(int),
}

impl CodePiece {
    pub open spec fn model(&self) -> CodeModel
        decreases self,
    {
        match self {
            CodePiece::Point(p) => CodeModel::Point(*p as nat),
            CodePiece::Block(b) => CodeModel::Block(
                Seq::new(
                    b@.len(),
                    |i: int|
                        if 0 <= i < b@.len() {
                            b@[i].model()
                        } else {
                            CodeModel::Point(0)
                        },
                ),
            ),
            CodePiece::Number(n) => CodeModel::Number(n@),
        }
    }

    /// A deep copy of this piece.
    pub fn copy(&self) -> (r: CodePiece)
        ensures
            r.model() == self.model(),
        decreases self,
    {
        match self {
            CodePiece::Point(p) => CodePiece::Point(*p),
            CodePiece::Number(n) => CodePiece::Number(n.copy()),
            CodePiece::Block(b) => {
                let mut out: Vec<CodePiece> = Vec::new();
                let mut i: usize = 0;
                while i < b.len()
                    invariant
                        *self == CodePiece::Block(*b),
                        i <= b@.len(),
                        out@.len() == i,
                        forall|j: int| 0 <= j < i ==> #[trigger] out@[j].model() == b@[j].model(),
                    decreases b@.len() - i,
                {
                    proof {
                        assert(decreases_to!(*self => self->Block_0));
                        assert(self->Block_0 == *b);
                        assert(decreases_to!(*b => b@));
                        assert(decreases_to!(b@ => b@[i as int]));
                        assert(decreases_to!(self => b@[i as int]));
                    }
                    let c = b[i].copy();
                    out.push(c);
                    i = i + 1;
                }
                let r = CodePiece::Block(out);
                proof {
                    let rm = r.model()->Block_0;
                    let sm = self.model()->Block_0;
                    assert(r->Block_0 == out);
                    assert(rm.len() == out@.len());
                    assert(sm.len() == b@.len());
                    assert(rm.len() == sm.len());
                    assert forall|k: int| 0 <= k < rm.len() implies rm[k] == sm[k] by {
                        assert(rm[k] == out@[k].model());
                        assert(sm[k] == b@[k].model());
                    }
                    assert(rm =~= sm);
                }
                r
            },
        }
    }
}

/// The models of a sequence of code pieces.
pub open spec fn code_models(s: Seq<CodePiece>) -> Seq<CodeModel> {
    Seq::new(s.len(), |i: int| s[i].model())
}

/// A deep copy of a sequence of code pieces.
pub fn copy_pieces(v: &Vec<CodePiece>) -> (r: Vec<CodePiece>)
    ensures
        code_models(r@) == code_models(v@),
{
    let mut out: Vec<CodePiece> = Vec::new();
    let mut i: usize = 0;
    while i < v.len()
        invariant
            i <= v@.len(),
            out@.len() == i,
            forall|j: int| 0 <= j < i ==> #[trigger] out@[j].model() == v@[j].model(),
        decreases v@.len() - i,
    {
        let c = v[i].copy();
        out.push(c);
        i = i + 1;
    }
    assert(code_models(out@) =~= code_models(v@));
    out
}


/// The models of a sequence of blocks under construction.
pub open spec fn block_models(s: Seq<Vec<CodePiece>>) -> Seq<Seq<CodeModel>> {
    Seq::new(s.len(), |i: int| code_models(s[i]@))
}

/// The state of the parser after some command ids.
pub ghost struct ParserModel {
    /// Digits are being read.
    pub in_number: bool,
    /// The number that the digits read so far write.
    pub number: int,
    /// The pieces of the program made so far.
    pub program: Seq<CodeModel>,
    /// The blocks opened and not closed yet, innermost last.
    pub open_blocks: Seq<Seq<CodeModel>>,
}

pub open spec fn parser_start() -> ParserModel {
    ParserModel { in_number: false, number: 0, program: seq![], open_blocks: seq![] }
}

/// Appends `piece` to the innermost open block, or to the program when no
/// block is open.
pub open spec fn emit(m: ParserModel, piece: CodeModel) -> ParserModel {
    if m.open_blocks.len() == 0 {
        ParserModel { program: m.program.push(piece), ..m }
    } else {
        ParserModel {
            open_blocks: m.open_blocks.update(
                m.open_blocks.len() - 1,
                m.open_blocks.last().push(piece),
            ),
            ..m
        }
    }
}

/// Ends a number being read, emitting it.
pub open spec fn end_number(m: ParserModel) -> ParserModel {
    if m.in_number {
        ParserModel { in_number: false, number: 0, ..emit(m, CodeModel::Number(m.number)) }
    } else {
        m
    }
}

/// One command id read by the parser. A closed block always goes to the
/// program itself, not to the block around it; digits build a number,
/// which the next non-digit ends.
pub open spec fn parse_token(m: ParserModel, t: usize) -> ParserModel {
    if t == OPEN_BLOCK {
        let m1 = end_number(m);
        ParserModel { open_blocks: m1.open_blocks.push(seq![]), ..m1 }
    } else if t == CLOSE_BLOCK {
        let m1 = end_number(m);
        ParserModel {
            program: m1.program.push(CodeModel::Block(m1.open_blocks.last())),
            open_blocks: m1.open_blocks.drop_last(),
            ..m1
        }
    } else if NUM_START <= t <= NUM_END {
        ParserModel { in_number: true, number: 10 * m.number + (t - NUM_START), ..m }
    } else {
        emit(end_number(m), CodeModel::Point(t as nat))
    }
}

/// The parser's state after the command ids `ts`.
pub open spec fn parse_tokens(ts: Seq<usize>) -> ParserModel
    decreases ts.len(),
{
    if ts.len() == 0 {
        parser_start()
    } else {
        parse_token(parse_tokens(ts.drop_last()), ts.last())
    }
}

/// Every close of a block meets an open block.
pub open spec fn closes_matched(ts: Seq<usize>) -> bool {
    forall|i: int|
        0 <= i < ts.len() && ts[i] == CLOSE_BLOCK ==> #[trigger] parse_tokens(ts.take(i)).open_blocks.len() > 0
}

/// The program that parsing `ts` gives: a number or a block still open
/// when the ids run out is dropped.
pub open spec fn parse_spec(ts: Seq<usize>) -> Seq<CodeModel> {
    parse_tokens(ts).program
}

struct Parser {
    in_num_mode: bool,
    num: BigNum,
    fullprog: Vec<CodePiece>,
    inprog_blocks: Vec<Vec<CodePiece>>,
}

impl Parser {
    spec fn model(&self) -> ParserModel {
        ParserModel {
            in_number: self.in_num_mode,
            number: self.num@,
            program: code_models(self.fullprog@),
            open_blocks: block_models(self.inprog_blocks@),
        }
    }

    fn emit(&mut self, piece: CodePiece)
        ensures
            final(self).model() == emit(old(self).model(), piece.model()),
    {
        let ghost m = self.model();
        if self.inprog_blocks.len() == 0 {
            self.fullprog.push(piece);
            proof {
                assert(code_models(self.fullprog@) =~= m.program.push(piece.model()));
            }
        } else {
            let ghost old_blocks = self.inprog_blocks@;
            let mut top = self.inprog_blocks.pop().unwrap();
            let ghost old_top = top@;
            top.push(piece);
            assert(code_models(top@) =~= code_models(old_top).push(piece.model()));
            self.inprog_blocks.push(top);
            proof {
                assert(block_models(self.inprog_blocks@) =~= m.open_blocks.update(
                    m.open_blocks.len() - 1,
                    m.open_blocks.last().push(piece.model()),
                ));
            }
        }
    }

    fn end_number(&mut self)
        ensures
            final(self).model() == end_number(old(self).model()),
    {
        if self.in_num_mode {
            self.in_num_mode = false;
            let n = CodePiece::Number(self.num.copy());
            self.emit(n);
            self.num = BigNum::from_u64(0);
        }
    }

    fn token(&mut self, t: usize)
        requires
            t == CLOSE_BLOCK ==> old(self).model().open_blocks.len() > 0,
        ensures
            final(self).model() == parse_token(old(self).model(), t),
    {
        if t == OPEN_BLOCK {
            self.end_number();
            let ghost m = self.model();
            let fresh: Vec<CodePiece> = Vec::new();
            proof {
                assert(code_models(fresh@) =~= seq![]);
            }
            self.inprog_blocks.push(fresh);
            proof {
                assert(block_models(self.inprog_blocks@) =~= m.open_blocks.push(seq![]));
            }
        } else if t == CLOSE_BLOCK {
            self.end_number();
            let ghost m = self.model();
            let newblock = self.inprog_blocks.pop().unwrap();
            proof {
                assert(block_models(self.inprog_blocks@) =~= m.open_blocks.drop_last());
            }
            let piece = CodePiece::Block(newblock);
            proof {
                assert(piece.model()->Block_0 =~= m.open_blocks.last());
            }
            self.fullprog.push(piece);
            proof {
                assert(code_models(self.fullprog@) =~= m.program.push(piece.model()));
            }
        } else if NUM_START <= t && t <= NUM_END {
            let realval = t - NUM_START;
            self.in_num_mode = true;
            let ten = BigNum::from_u64(10);
            let scaled = bigint_mul(&ten, &self.num);
            self.num = bigint_add_usize(realval, &scaled);
        } else {
            self.end_number();
            self.emit(CodePiece::Point(t));
        }
    }
}

/// The command ids `v` never close a block that is not open: the
/// condition under which `parse_to_executable` accepts them.
pub fn blocks_balanced(v: &Vec<usize>) -> (r: bool)
    ensures
        r == closes_matched(v@),
{
    let mut depth: usize = 0;
    let mut i: usize = 0;
    while i < v.len()
        invariant
            i <= v@.len(),
            depth <= i,
            depth == parse_tokens(v@.take(i as int)).open_blocks.len(),
            forall|k: int|
                0 <= k < i && v@[k] == CLOSE_BLOCK ==> #[trigger] parse_tokens(v@.take(k)).open_blocks.len() > 0,
        decreases v@.len() - i,
    {
        let t = v[i];
        proof {
            assert(v@.take(i + 1).drop_last() =~= v@.take(i as int));
        }
        if t == CLOSE_BLOCK {
            if depth == 0 {
                return false;
            }
            depth = depth - 1;
        } else if t == OPEN_BLOCK {
            depth = depth + 1;
        }
        i = i + 1;
    }
    proof {
        assert(v@.take(v@.len() as int) =~= v@);
    }
    true
}

/// Parses command ids into a program. Digit ids (2 to 11) make decimal
/// numbers, ids 32 and 33 open and close blocks, every other id is a
/// command. A block, once closed, is appended to the program itself,
/// whatever block it stood in.
pub fn parse_to_executable(v: Vec<usize>) -> (r: Vec<CodePiece>)
    requires
        closes_matched(v@),
    ensures
        code_models(r@) == parse_spec(v@),
{
    let mut p = Parser {
        in_num_mode: false,
        num: BigNum::from_u64(0),
        fullprog: Vec::new(),
        inprog_blocks: Vec::new(),
    };
    proof {
        assert(code_models(p.fullprog@) =~= seq![]);
        assert(block_models(p.inprog_blocks@) =~= seq![]);
        assert(v@.take(0) =~= Seq::<usize>::empty());
    }
    let mut i: usize = 0;
    while i < v.len()
        invariant
            i <= v@.len(),
            closes_matched(v@),
            p.model() == parse_tokens(v@.take(i as int)),
        decreases v@.len() - i,
    {
        let t = v[i];
        proof {
            assert(v@.take(i + 1).drop_last() =~= v@.take(i as int));
            if t == CLOSE_BLOCK {
                assert(parse_tokens(v@.take(i as int)).open_blocks.len() > 0);
            }
        }
        p.token(t);
        i = i + 1;
    }
    proof {
        assert(v@.take(v@.len() as int) =~= v@);
    }
    p.fullprog
}


/// No piece of `s` is a block.
pub open spec fn holds_no_block(s: Seq<CodeModel>) -> bool {
    forall|j: int| 0 <= j < s.len() ==> !(#[trigger] s[j] is Block)
}

/// No block of the program `s` holds a block.
pub open spec fn is_flat(s: Seq<CodeModel>) -> bool {
    forall|i: int| 0 <= i < s.len() && (#[trigger] s[i] is Block) ==> holds_no_block(s[i]->Block_0)
}

spec fn parser_flat(m: ParserModel) -> bool {
    &&& is_flat(m.program)
    &&& forall|k: int| 0 <= k < m.open_blocks.len() ==> holds_no_block(#[trigger] m.open_blocks[k])
}

proof fn lemma_parse_tokens_flat(ts: Seq<usize>)
    requires
        closes_matched(ts),
    ensures
        parser_flat(parse_tokens(ts)),
    decreases ts.len(),
{
    if ts.len() > 0 {
        let pre = ts.drop_last();
        assert forall|i: int| 0 <= i < pre.len() && pre[i] == CLOSE_BLOCK implies #[trigger] parse_tokens(
            pre.take(i),
        ).open_blocks.len() > 0 by {
            assert(pre.take(i) =~= ts.take(i));
            assert(ts[i] == pre[i]);
        }
        lemma_parse_tokens_flat(pre);
        assert(ts.take(ts.len() - 1) =~= pre);
        let m = parse_tokens(pre);
        let m1 = end_number(m);
        assert(parser_flat(m1));
        let t = ts.last();
        if t == CLOSE_BLOCK {
            assert(m1.open_blocks.len() > 0);
            assert(holds_no_block(m1.open_blocks[m1.open_blocks.len() - 1]));
        }
    }
}

/// Parsing never nests blocks: every block of a parsed program holds only
/// commands and numbers.
pub proof fn lemma_parse_flat(ts: Seq<usize>)
    requires
        closes_matched(ts),
    ensures
        is_flat(parse_spec(ts)),
{
    lemma_parse_tokens_flat(ts);
}


#[verifier::external_type_specification]
#[verifier::external_body]
#[verifier::reject_recursive_types(B)]
pub struct ExBitVec<B>(BitVec<B>);

/// The bits that a `BitVec` holds, first bit first.
pub uninterp spec fn bitvec_bits(v: BitVec) -> Seq<bool>;

/// Bit `k` of a byte, counting from the most significant bit (`k` = 0).
pub open spec fn byte_bit(b: u8, k: int) -> bool {
    (b >> ((7 - k) as u8)) & 1u8 == 1u8
}

/// The bits of a byte string, eight per byte, most significant first.
pub open spec fn byte_bits(data: Seq<u8>) -> Seq<bool> {
    Seq::new(data.len() * 8, |i: int| byte_bit(data[i / 8], i % 8))
}

/// The number whose binary digits are `bits`, least significant first.
pub open spec fn bits_value(bits: Seq<bool>) -> nat
    decreases bits.len(),
{
    if bits.len() == 0 {
        0
    } else {
        (if bits[0] { 1nat } else { 0nat }) + 2 * bits_value(bits.drop_first())
    }
}

/// `2^n`.
pub open spec fn exp2(n: nat) -> nat
    decreases n,
{
    if n == 0 { 1 } else { 2 * exp2((n - 1) as nat) }
}

proof fn lemma_bits_value_bound(bits: Seq<bool>)
    ensures
        bits_value(bits) < exp2(bits.len()),
    decreases bits.len(),
{
    if bits.len() > 0 {
        lemma_bits_value_bound(bits.drop_first());
    }
}

/// `BitVec::from_bytes` (bit-vec 0.10): eight bits per byte, most
/// significant first. It panics when the bit count overflows `usize`.
#[verifier::external_body]
fn bitvec_from_bytes(bytes: &[u8]) -> (r: BitVec)
    requires
        bytes@.len() * 8 <= usize::MAX,
    ensures
        bitvec_bits(r) == byte_bits(bytes@),
{
    BitVec::from_bytes(bytes)
}

/// `BitVec::with_capacity` (bit-vec 0.10): an empty bit vector.
#[verifier::external_body]
fn bitvec_with_capacity(capacity: usize) -> (r: BitVec)
    ensures
        bitvec_bits(r) == Seq::<bool>::empty(),
{
    BitVec::with_capacity(capacity)
}

/// `BitVec::len` (bit-vec 0.10): the number of bits.
#[verifier::external_body]
fn bitvec_len(v: &BitVec) -> (r: usize)
    ensures
        r == bitvec_bits(*v).len(),
{
    v.len()
}

/// `BitVec::get` (bit-vec 0.10): bit `i`, or `None` past the end.
#[verifier::external_body]
fn bitvec_get(v: &BitVec, i: usize) -> (r: Option<bool>)
    ensures
        r == (if i < bitvec_bits(*v).len() { Some(bitvec_bits(*v)[i as int]) } else { None }),
{
    v.get(i)
}

/// `BitVec::push` (bit-vec 0.10): appends a bit; it panics when the length
/// would overflow `usize`.
#[verifier::external_body]
fn bitvec_push(v: &mut BitVec, bit: bool)
    requires
        bitvec_bits(*old(v)).len() < usize::MAX,
    ensures
        bitvec_bits(*final(v)) == bitvec_bits(*old(v)).push(bit),
{
    v.push(bit)
}

/// `BitVec::clear` (bit-vec 0.10): sets every bit to false and keeps the
/// length, as its source shows (the method is deprecated for `fill(false)`).
#[verifier::external_body]
#[allow(deprecated)]
fn bitvec_clear(v: &mut BitVec)
    ensures
        bitvec_bits(*final(v)) == Seq::new(bitvec_bits(*old(v)).len(), |i: int| false),
{
    v.clear()
}

/// `BitVec::blocks().next().unwrap()` (bit-vec 0.10): the first `u32` block
/// of storage. Bit `i` of the vector is bit `i` of its block, least
/// significant first, and the bits past the length are zero, so for at
/// most 32 bits the block is the number the bits write.
#[verifier::external_body]
fn bitvec_first_block(v: &BitVec) -> (r: u32)
    requires
        0 < bitvec_bits(*v).len() <= 32,
    ensures
        r == bits_value(bitvec_bits(*v)),
{
    v.blocks().next().unwrap()
}

/// `String::push` (std): appends a character.
#[verifier::external_body]
pub(crate) fn string_push(s: &mut String, c: char)
    ensures
        final(s)@ == old(s)@.push(c),
{
    s.push(c)
}

/// The first nine bits of `data`, as the number they write least
/// significant bit first.
pub open spec fn first_chunk(data: Seq<u8>) -> nat {
    bits_value(byte_bits(data).take(9))
}

/// What `decode_id` gives: the bits are read in chunks of nine, but the
/// chunk buffer keeps its length when it is cleared, so only the first
/// chunk is ever complete.
pub open spec fn decode_id_spec(data: Seq<u8>) -> Seq<usize> {
    if data.len() * 8 >= 9 {
        seq![first_chunk(data) as usize]
    } else {
        seq![]
    }
}

/// What `decode` gives: the code page's character for each id that
/// `decode_id` finds.
pub open spec fn decode_spec(data: Seq<u8>, codepage: Seq<char>) -> Seq<char> {
    if data.len() * 8 >= 9 {
        seq![codepage[first_chunk(data) as int]]
    } else {
        seq![]
    }
}

/// Decodes packed 9-bit command ids from bytes.
pub fn decode_id(data: &[u8]) -> (r: Vec<usize>)
    requires
        data@.len() * 8 <= usize::MAX,
    ensures
        r@ == decode_id_spec(data@),
{
    let bits = bitvec_from_bytes(data);
    let mut chunk = bitvec_with_capacity(9);
    let mut decoded: Vec<usize> = Vec::new();
    let n = bitvec_len(&bits);
    let ghost all = byte_bits(data@);
    proof {
        lemma_bits_value_bound(all.take(9));
        reveal_with_fuel(exp2, 10);
    }
    let mut i: usize = 0;
    while i < n
        invariant
            n == all.len(),
            all == byte_bits(data@),
            bitvec_bits(bits) == all,
            i <= n,
            bitvec_bits(chunk).len() == i,
            i < 9 ==> bitvec_bits(chunk) == all.take(i as int),
            n >= 9 ==> first_chunk(data@) < 512,
            decoded@ == (if i >= 9 { seq![first_chunk(data@) as usize] } else { Seq::<usize>::empty() }),
        decreases n - i,
    {
        if let Some(bit) = bitvec_get(&bits, i) {
            bitvec_push(&mut chunk, bit);
            proof {
                if i < 9 {
                    assert(bitvec_bits(chunk) =~= all.take(i + 1));
                }
            }
            if bitvec_len(&chunk) == 9 {
                let value = bitvec_first_block(&chunk);
                decoded.push(value as usize);
                bitvec_clear(&mut chunk);
            }
        }
        i = i + 1;
    }
    decoded
}

/// Decodes packed 9-bit command ids from bytes into the characters of the
/// code page.
pub fn decode(data: &[u8], codepage: &[char]) -> (r: String)
    requires
        data@.len() * 8 <= usize::MAX,
        data@.len() * 8 >= 9 ==> first_chunk(data@) < codepage@.len(),
    ensures
        r@ == decode_spec(data@, codepage@),
{
    let bits = bitvec_from_bytes(data);
    let mut chunk = bitvec_with_capacity(9);
    let mut decoded = String::new();
    let n = bitvec_len(&bits);
    let ghost all = byte_bits(data@);
    proof {
        lemma_bits_value_bound(all.take(9));
        reveal_with_fuel(exp2, 10);
    }
    let mut i: usize = 0;
    while i < n
        invariant
            n == all.len(),
            all == byte_bits(data@),
            bitvec_bits(bits) == all,
            i <= n,
            bitvec_bits(chunk).len() == i,
            i < 9 ==> bitvec_bits(chunk) == all.take(i as int),
            n >= 9 ==> first_chunk(data@) < codepage@.len(),
            decoded@ == (if i >= 9 { seq![codepage@[first_chunk(data@) as int]] } else { Seq::<char>::empty() }),
        decreases n - i,
    {
        if let Some(bit) = bitvec_get(&bits, i) {
            bitvec_push(&mut chunk, bit);
            proof {
                if i < 9 {
                    assert(bitvec_bits(chunk) =~= all.take(i + 1));
                }
            }
            if bitvec_len(&chunk) == 9 {
                let value = bitvec_first_block(&chunk);
                string_push(&mut decoded, codepage[value as usize]);
                bitvec_clear(&mut chunk);
            }
        }
        i = i + 1;
    }
    decoded
}


/// The command ids of a text: for each character, in order, its first
/// position in the code page; characters not in the code page are skipped.
pub open spec fn text_ids(text: Seq<char>, codepage: Seq<char>) -> Seq<usize>
    decreases text.len(),
{
    if text.len() == 0 {
        seq![]
    } else {
        let rest = text_ids(text.drop_last(), codepage);
        match codepage.index_of_first(text.last()) {
            Some(k) => rest.push(k as usize),
            None => rest,
        }
    }
}

/// The first position of `c` in the code page.
fn position_in(codepage: &[char], c: char) -> (r: Option<usize>)
    ensures
        match r {
            Some(k) => codepage@.index_of_first(c) == Some(k as int),
            None => codepage@.index_of_first(c) is None,
        },
{
    proof {
        codepage@.index_of_first_ensures(c);
    }
    let mut j: usize = 0;
    while j < codepage.len()
        invariant
            j <= codepage@.len(),
            forall|k: int| 0 <= k < j ==> codepage@[k] != c,
        decreases codepage@.len() - j,
    {
        if codepage[j] == c {
            proof {
                codepage@.index_of_first_ensures(c);
            }
            return Some(j);
        }
        j = j + 1;
    }
    proof {
        codepage@.index_of_first_ensures(c);
    }
    None
}

/// Turns program text into command ids by the code page: each character
/// becomes its position in the code page; unknown characters are ignored.
pub fn unencoded_to_id(data: String, codepage: &[char]) -> (r: Vec<usize>)
    ensures
        r@ == text_ids(data@, codepage@),
{
    let text: &str = data.as_str();
    let mut res: Vec<usize> = Vec::new();
    let ghost chars = data@;
    let mut it = text.chars();
    let ghost mut done: Seq<char> = Seq::empty();
    proof {
        broadcast use vstd::string::group_string_axioms;
        assert(it.remaining() == chars);
    }
    loop
        invariant
            done + it.remaining() == chars,
            res@ == text_ids(done, codepage@),
            it.obeys_prophetic_iter_laws(),
            it.decrease() is Some,
        ensures
            res@ == text_ids(chars, codepage@),
        decreases it.decrease()->0,
    {
        match it.next() {
            Some(c) => {
                proof {
                    broadcast use vstd::string::group_string_axioms;
                }
                match position_in(codepage, c) {
                    Some(e) => res.push(e),
                    None => {},
                }
                proof {
                    assert((done.push(c)).drop_last() =~= done);
                    done = done.push(c);
                    assert(done + it.remaining() =~= chars);
                }
            },
            None => {
                proof {
                    broadcast use vstd::string::group_string_axioms;
                    assert(done =~= chars);
                }
                break;
            },
        }
    }
    res
}


/// Every command id read from a text is a position in the code page that
/// holds a character of the text, and there is at most one id per
/// character.
pub proof fn lemma_text_ids_in_codepage(text: Seq<char>, codepage: Seq<char>)
    requires
        codepage.len() <= usize::MAX,
    ensures
        text_ids(text, codepage).len() <= text.len(),
        forall|k: int|
            0 <= k < text_ids(text, codepage).len() ==> {
                let id = #[trigger] text_ids(text, codepage)[k];
                &&& id < codepage.len()
                &&& text.contains(codepage[id as int])
            },
    decreases text.len(),
{
    if text.len() > 0 {
        let pre = text.drop_last();
        lemma_text_ids_in_codepage(pre, codepage);
        codepage.index_of_first_ensures(text.last());
        let ids = text_ids(text, codepage);
        let pre_ids = text_ids(pre, codepage);
        assert forall|k: int| 0 <= k < ids.len() implies {
            let id = #[trigger] ids[k];
            &&& id < codepage.len()
            &&& text.contains(codepage[id as int])
        } by {
            if k < pre_ids.len() {
                assert(ids[k] == pre_ids[k]);
                let id = pre_ids[k];
                let j = choose|j: int| 0 <= j < pre.len() && pre[j] == codepage[id as int];
                assert(text[j] == pre[j]);
            } else {
                let idx = codepage.index_of_first(text.last())->Some_0;
                assert(ids[k] == idx as usize);
                assert(codepage[idx] == text.last());
                assert(text[text.len() - 1] == text.last());
            }
        }
    }
}


/// No id of `ts` opens or closes a block.
pub open spec fn no_braces(ts: Seq<usize>) -> bool {
    forall|i: int| 0 <= i < ts.len() ==> #[trigger] ts[i] != OPEN_BLOCK && ts[i] != CLOSE_BLOCK
}

/// The id is a digit.
pub open spec fn is_digit_id(t: usize) -> bool {
    NUM_START <= t <= NUM_END
}

/// The parser state `m` with `prefix` in front of its program.
pub open spec fn after_program(m: ParserModel, prefix: Seq<CodeModel>) -> ParserModel {
    ParserModel { program: prefix + m.program, ..m }
}

proof fn lemma_no_braces_state(ts: Seq<usize>)
    requires
        no_braces(ts),
    ensures
        parse_tokens(ts).open_blocks.len() == 0,
        !parse_tokens(ts).in_number ==> parse_tokens(ts).number == 0,
        ts.len() > 0 && !is_digit_id(ts.last()) ==> !parse_tokens(ts).in_number,
    decreases ts.len(),
{
    if ts.len() > 0 {
        let pre = ts.drop_last();
        assert forall|i: int| 0 <= i < pre.len() implies #[trigger] pre[i] != OPEN_BLOCK && pre[i]
            != CLOSE_BLOCK by {
            assert(pre[i] == ts[i]);
        }
        lemma_no_braces_state(pre);
        assert(ts[ts.len() - 1] == ts.last());
    }
}

proof fn lemma_parse_after(v1: Seq<usize>, w: Seq<usize>)
    requires
        no_braces(v1),
        no_braces(w),
        v1.len() == 0 || !is_digit_id(v1.last()),
    ensures
        parse_tokens(v1 + w) == after_program(parse_tokens(w), parse_spec(v1)),
    decreases w.len(),
{
    lemma_no_braces_state(v1);
    let p1 = parse_spec(v1);
    if w.len() == 0 {
        assert(v1 + w =~= v1);
        assert(p1 + parse_tokens(w).program =~= p1);
        assert(parse_tokens(v1).open_blocks =~= parse_tokens(w).open_blocks);
    } else {
        let w0 = w.drop_last();
        let t = w.last();
        assert forall|i: int| 0 <= i < w0.len() implies #[trigger] w0[i] != OPEN_BLOCK && w0[i]
            != CLOSE_BLOCK by {
            assert(w0[i] == w[i]);
        }
        assert(w[w.len() - 1] == t);
        lemma_parse_after(v1, w0);
        lemma_no_braces_state(w0);
        assert((v1 + w).drop_last() =~= v1 + w0);
        assert((v1 + w).last() == t);
        let m = parse_tokens(w0);
        let m1 = end_number(m);
        if m.in_number {
            assert((p1 + m.program).push(CodeModel::Number(m.number)) =~= p1 + m.program.push(
                CodeModel::Number(m.number),
            ));
        }
        if !is_digit_id(t) {
            assert((p1 + m1.program).push(CodeModel::Point(t as nat)) =~= p1 + m1.program.push(
                CodeModel::Point(t as nat),
            ));
        }
        assert(m.open_blocks.len() == 0);
        assert(parse_token(after_program(m, p1), t) == after_program(parse_token(m, t), p1));
    }
}

/// Parsing is compositional where no block is involved: when neither part
/// opens or closes a block and the first does not end inside a number, the
/// program of the whole is the program of the first part followed by that
/// of the second.
pub proof fn lemma_parse_concat(v1: Seq<usize>, v2: Seq<usize>)
    requires
        no_braces(v1),
        no_braces(v2),
        v1.len() == 0 || !is_digit_id(v1.last()),
    ensures
        parse_spec(v1 + v2) == parse_spec(v1) + parse_spec(v2),
{
    lemma_parse_after(v1, v2);
}

/// The number that the digit ids `ds` write in decimal, most significant
/// digit first.
pub open spec fn digits_value(ds: Seq<usize>) -> int
    decreases ds.len(),
{
    if ds.len() == 0 {
        0
    } else {
        10 * digits_value(ds.drop_last()) + (ds.last() - NUM_START)
    }
}

/// Every id of `ds` is a digit.
pub open spec fn all_digits(ds: Seq<usize>) -> bool {
    forall|i: int| 0 <= i < ds.len() ==> is_digit_id(#[trigger] ds[i])
}

/// Outside a number the parser holds no partial number.
proof fn lemma_idle_number_zero(ts: Seq<usize>)
    ensures
        !parse_tokens(ts).in_number ==> parse_tokens(ts).number == 0,
    decreases ts.len(),
{
    if ts.len() > 0 {
        lemma_idle_number_zero(ts.drop_last());
    }
}

/// A run of digit ids read outside a number, in a block or not, leaves the
/// parser reading one number whose value is the decimal value of the run;
/// nothing is emitted and no block is opened or closed.
pub proof fn lemma_digit_run(pre: Seq<usize>, ds: Seq<usize>)
    requires
        !parse_tokens(pre).in_number,
        ds.len() > 0,
        all_digits(ds),
    ensures
        parse_tokens(pre + ds) == (ParserModel {
            in_number: true,
            number: digits_value(ds),
            ..parse_tokens(pre)
        }),
    decreases ds.len(),
{
    let ds0 = ds.drop_last();
    assert((pre + ds).drop_last() =~= pre + ds0);
    assert((pre + ds).last() == ds.last());
    assert(is_digit_id(ds[ds.len() - 1]));
    let d = ds.last();
    if ds0.len() == 0 {
        assert(pre + ds0 =~= pre);
        lemma_idle_number_zero(pre);
        assert(digits_value(ds0) == 0);
    } else {
        assert forall|i: int| 0 <= i < ds0.len() implies is_digit_id(#[trigger] ds0[i]) by {
            assert(ds0[i] == ds[i]);
        }
        lemma_digit_run(pre, ds0);
    }
    let m0 = parse_tokens(pre + ds0);
    assert(m0.number == digits_value(ds0));
    assert(parse_tokens(pre + ds) == parse_token(m0, d));
}

/// A run of digits written alone in a block gives a block holding that one
/// number; followed by a command at the top level it gives that number and
/// then the command.
pub proof fn lemma_digit_run_is_one_number(ds: Seq<usize>, t: usize)
    requires
        ds.len() > 0,
        all_digits(ds),
        !is_digit_id(t),
        t != OPEN_BLOCK,
        t != CLOSE_BLOCK,
    ensures
        parse_spec(seq![OPEN_BLOCK] + ds + seq![CLOSE_BLOCK]) == seq![
            CodeModel::Block(seq![CodeModel::Number(digits_value(ds))]),
        ],
        parse_spec(ds + seq![t]) == seq![CodeModel::Number(digits_value(ds)), CodeModel::Point(t as nat)],
{
    let open = seq![OPEN_BLOCK];
    assert(open.drop_last() =~= Seq::<usize>::empty());
    assert(parse_tokens(open.drop_last()) == parser_start());
    assert(open.last() == OPEN_BLOCK);
    assert(parse_tokens(open) == parse_token(parser_start(), OPEN_BLOCK));
    lemma_digit_run(open, ds);
    let w = open + ds;
    assert((w + seq![CLOSE_BLOCK]).drop_last() =~= w);
    let m = parse_tokens(w);
    assert(m.open_blocks =~= seq![Seq::<CodeModel>::empty()]);
    let e = end_number(m);
    assert(e.open_blocks =~= seq![seq![CodeModel::Number(digits_value(ds))]]);
    assert(parse_spec(w + seq![CLOSE_BLOCK]) =~= seq![
        CodeModel::Block(seq![CodeModel::Number(digits_value(ds))]),
    ]);

    let empty = Seq::<usize>::empty();
    assert(empty + ds =~= ds);
    lemma_digit_run(empty, ds);
    assert((ds + seq![t]).drop_last() =~= ds);
    assert(parse_spec(ds + seq![t]) =~= seq![
        CodeModel::Number(digits_value(ds)),
        CodeModel::Point(t as nat),
    ]);
}

/// Reading one more character: a character of the code page adds exactly
/// one id, the first position of that character in the code page; any
/// other character adds nothing.
pub proof fn lemma_text_ids_push(t: Seq<char>, codepage: Seq<char>, c: char)
    ensures
        forall|k: int|
            0 <= k < codepage.len() && codepage[k] == c && (forall|j: int|
                0 <= j < k ==> codepage[j] != c) ==> text_ids(t.push(c), codepage) == text_ids(
                t,
                codepage,
            ).push(k as usize),
        (forall|j: int| 0 <= j < codepage.len() ==> codepage[j] != c) ==> text_ids(
            t.push(c),
            codepage,
        ) == text_ids(t, codepage),
{
    assert(t.push(c).drop_last() =~= t);
    codepage.index_of_first_ensures(c);
}

/// The ids of two texts one after the other are the ids of the first text
/// followed by those of the second.
pub proof fn lemma_text_ids_concat(t1: Seq<char>, t2: Seq<char>, codepage: Seq<char>)
    ensures
        text_ids(t1 + t2, codepage) == text_ids(t1, codepage) + text_ids(t2, codepage),
    decreases t2.len(),
{
    if t2.len() == 0 {
        assert(t1 + t2 =~= t1);
        assert(text_ids(t1, codepage) + text_ids(t2, codepage) =~= text_ids(t1, codepage));
    } else {
        let t0 = t2.drop_last();
        lemma_text_ids_concat(t1, t0, codepage);
        assert((t1 + t2).drop_last() =~= t1 + t0);
        assert((t1 + t2).last() == t2.last());
        let a = text_ids(t1, codepage);
        let b0 = text_ids(t0, codepage);
        match codepage.index_of_first(t2.last()) {
            Some(k) => {
                assert((a + b0).push(k as usize) =~= a + b0.push(k as usize));
            },
            None => {},
        }
    }
}

} // verus!
