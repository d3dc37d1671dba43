//! The instruction set: a closed set of tagged operations over registers,
//! signed immediates and symbolic labels, together with its mathematical
//! model and the line-oriented text format.

use vstd::prelude::*;

verus! {

pub type RegisterNumber = usize;

pub type Immediate = i64;

pub type Label = String;

/// One instruction of the simulated machine. Labels are symbolic text,
/// resolved to a sequence position only at use time.
#[derive(Debug, PartialEq)]
pub enum Instruction {
    Add(RegisterNumber, RegisterNumber, RegisterNumber),
    Sub(RegisterNumber, RegisterNumber, RegisterNumber),
    AddImm(RegisterNumber, RegisterNumber, Immediate),
    Jump(Label),
    BranchGE(RegisterNumber, RegisterNumber, Label),
    BranchNE(RegisterNumber, RegisterNumber, Label),
    Finish,
    Label(Label),
}

/// The mathematical model of an instruction: the same shape, with label
/// text abstracted to its character sequence.
pub enum InstrModel {
    Add(usize, usize, usize),
    Sub(usize, usize, usize),
    AddImm(usize, usize, i64),
    Jump(Seq<char>),
    BranchGE(usize, usize, Seq<char>),
    BranchNE(usize, usize, Seq<char>),
    Finish,
    Label(Seq<char>),
}

impl View for Instruction {
    type V = InstrModel;

    open spec fn view(&self) -> InstrModel {
        match self {
            Instruction::Add(d, a, b) => InstrModel::Add(*d, *a, *b),
            Instruction::Sub(d, a, b) => InstrModel::Sub(*d, *a, *b),
            Instruction::AddImm(d, a, imm) => InstrModel::AddImm(*d, *a, *imm),
            Instruction::Jump(l) => InstrModel::Jump(l@),
            Instruction::BranchGE(a, b, l) => InstrModel::BranchGE(*a, *b, l@),
            Instruction::BranchNE(a, b, l) => InstrModel::BranchNE(*a, *b, l@),
            Instruction::Finish => InstrModel::Finish,
            Instruction::Label(l) => InstrModel::Label(l@),
        }
    }
}

/// The model of a whole instruction sequence.
pub open spec fn prog_view(prog: Seq<Instruction>) -> Seq<InstrModel> {
    prog.map_values(|ins: Instruction| ins@)
}

/// The ways program text can be rejected.
#[derive(Clone, Copy, PartialEq, Eq, Structural, Debug)]
pub enum ParseError {
    /// An opcode/operand-shape combination outside the instruction table.
    InvalidInstruction,
    /// A register token whose index does not fit the machine word.
    RegisterTooLarge,
}

/// The model of one operand token.
pub enum ArgModel {
    Register(usize),
    Immediate(i64),
    LabelRef(Seq<char>),
}

/// Whitespace as trimmed from line ends.
pub open spec fn is_space(c: char) -> bool {
    c == ' ' || c == '\t' || c == '\r' || c == '\n' || c == '\u{b}' || c == '\u{c}'
}

pub open spec fn is_digit(c: char) -> bool {
    48 <= c as u32 <= 57
}

pub open spec fn digit_val(c: char) -> int {
    c as u32 - 48
}

/// A non-empty run of decimal digits.
pub open spec fn all_digits(s: Seq<char>) -> bool {
    s.len() > 0 && forall|i: int| 0 <= i < s.len() ==> is_digit(#[trigger] s[i])
}

/// The number a digit run denotes.
pub open spec fn dec_val(s: Seq<char>) -> int
    decreases s.len(),
{
    if s.len() == 0 {
        0
    } else {
        dec_val(s.drop_last()) * 10 + digit_val(s.last())
    }
}

/// The value of a signed decimal integer token, if it is one.
pub open spec fn int_token_val(t: Seq<char>) -> Option<int> {
    if t.len() > 0 && (t[0] == '-' || t[0] == '+') && all_digits(t.drop_first()) {
        if t[0] == '-' {
            Option::Some(-dec_val(t.drop_first()))
        } else {
            Option::Some(dec_val(t.drop_first()))
        }
    } else if all_digits(t) {
        Option::Some(dec_val(t))
    } else {
        Option::None
    }
}

/// The index a register token (`x` followed by a non-negative decimal
/// integer) denotes, if the token has that shape.
pub open spec fn reg_token_val(t: Seq<char>) -> Option<int> {
    if t.len() >= 2 && t[0] == 'x' {
        let r = t.drop_first();
        if all_digits(r) {
            Option::Some(dec_val(r))
        } else if r[0] == '+' && all_digits(r.drop_first()) {
            Option::Some(dec_val(r.drop_first()))
        } else {
            Option::None
        }
    } else {
        Option::None
    }
}

/// Operand token grammar: a register token, else a signed immediate that
/// fits 64 bits, else a symbolic label reference. A register index beyond
/// the machine word is the one fatal token error.
pub open spec fn classify_token(t: Seq<char>) -> Result<ArgModel, ParseError> {
    match reg_token_val(t) {
        Option::Some(v) => if v <= usize::MAX {
            Result::Ok(ArgModel::Register(v as usize))
        } else {
            Result::Err(ParseError::RegisterTooLarge)
        },
        Option::None => match int_token_val(t) {
            Option::Some(v) => if i64::MIN <= v <= i64::MAX {
                Result::Ok(ArgModel::Immediate(v as i64))
            } else {
                Result::Ok(ArgModel::LabelRef(t))
            },
            Option::None => Result::Ok(ArgModel::LabelRef(t)),
        },
    }
}

/// The operand text with every blank removed.
pub open spec fn remove_blanks(s: Seq<char>) -> Seq<char>
    decreases s.len(),
{
    if s.len() == 0 {
        seq![]
    } else if s.last() == ' ' {
        remove_blanks(s.drop_last())
    } else {
        remove_blanks(s.drop_last()).push(s.last())
    }
}

/// Comma-separated fields; the empty text has one empty field.
pub open spec fn split_commas(s: Seq<char>) -> Seq<Seq<char>>
    decreases s.len(),
{
    if s.len() == 0 {
        seq![seq![]]
    } else if s.last() == ',' {
        split_commas(s.drop_last()).push(seq![])
    } else {
        let p = split_commas(s.drop_last());
        p.update(p.len() - 1, p.last().push(s.last()))
    }
}

pub proof fn lemma_remove_blanks_push(s: Seq<char>, c: char)
    ensures
        remove_blanks(s.push(c)) == (if c == ' ' {
            remove_blanks(s)
        } else {
            remove_blanks(s).push(c)
        }),
{
    assert(s.push(c).drop_last() =~= s);
    assert(s.push(c).last() == c);
}

pub proof fn lemma_split_commas_push(s: Seq<char>, c: char)
    ensures
        split_commas(s.push(c)) == (if c == ',' {
            split_commas(s).push(seq![])
        } else {
            split_commas(s).update(
                split_commas(s).len() - 1,
                split_commas(s).last().push(c),
            )
        }),
{
    assert(s.push(c).drop_last() =~= s);
    assert(s.push(c).last() == c);
}

/// The operand tokens of everything after the opcode: blanks are
/// insignificant, commas separate.
pub open spec fn arg_tokens(rest: Seq<char>) -> Seq<Seq<char>> {
    split_commas(remove_blanks(rest))
}

/// All operand tokens classified, stopping at the first token error.
pub open spec fn classify_tokens(ts: Seq<Seq<char>>) -> Result<Seq<ArgModel>, ParseError>
    decreases ts.len(),
{
    if ts.len() == 0 {
        Result::Ok(seq![])
    } else {
        match classify_token(ts[0]) {
            Result::Err(e) => Result::Err(e),
            Result::Ok(a) => match classify_tokens(ts.drop_first()) {
                Result::Err(e) => Result::Err(e),
                Result::Ok(rest) => Result::Ok(seq![a] + rest),
            },
        }
    }
}

/// The opcode-to-shape table: any other opcode/operand-shape combination is
/// a fatal parse error.
pub open spec fn build_instr(op: Seq<char>, args: Seq<ArgModel>) -> Result<
    InstrModel,
    ParseError,
> {
    if op == "add"@ {
        if args.len() == 3 && args[0] is Register && args[1] is Register && args[2] is Register {
            Result::Ok(
                InstrModel::Add(args[0]->Register_0, args[1]->Register_0, args[2]->Register_0),
            )
        } else {
            Result::Err(ParseError::InvalidInstruction)
        }
    } else if op == "sub"@ {
        if args.len() == 3 && args[0] is Register && args[1] is Register && args[2] is Register {
            Result::Ok(
                InstrModel::Sub(args[0]->Register_0, args[1]->Register_0, args[2]->Register_0),
            )
        } else {
            Result::Err(ParseError::InvalidInstruction)
        }
    } else if op == "addi"@ {
        if args.len() == 3 && args[0] is Register && args[1] is Register && args[2] is Immediate {
            Result::Ok(
                InstrModel::AddImm(args[0]->Register_0, args[1]->Register_0, args[2]->Immediate_0),
            )
        } else {
            Result::Err(ParseError::InvalidInstruction)
        }
    } else if op == "bge"@ {
        if args.len() == 3 && args[0] is Register && args[1] is Register && args[2] is LabelRef {
            Result::Ok(
                InstrModel::BranchGE(args[0]->Register_0, args[1]->Register_0, args[2]->LabelRef_0),
            )
        } else {
            Result::Err(ParseError::InvalidInstruction)
        }
    } else if op == "bne"@ {
        if args.len() == 3 && args[0] is Register && args[1] is Register && args[2] is LabelRef {
            Result::Ok(
                InstrModel::BranchNE(args[0]->Register_0, args[1]->Register_0, args[2]->LabelRef_0),
            )
        } else {
            Result::Err(ParseError::InvalidInstruction)
        }
    } else if op == "j"@ {
        if args.len() == 1 && args[0] is LabelRef {
            Result::Ok(InstrModel::Jump(args[0]->LabelRef_0))
        } else {
            Result::Err(ParseError::InvalidInstruction)
        }
    } else if op == "finish"@ {
        if args.len() == 0 {
            Result::Ok(InstrModel::Finish)
        } else {
            Result::Err(ParseError::InvalidInstruction)
        }
    } else {
        Result::Err(ParseError::InvalidInstruction)
    }
}

/// First non-space position at or past `i`, or the length.
pub open spec fn first_nonspace(l: Seq<char>, i: int) -> int
    decreases l.len() - i,
{
    if !(0 <= i < l.len()) {
        l.len() as int
    } else if is_space(l[i]) {
        first_nonspace(l, i + 1)
    } else {
        i
    }
}

/// End (exclusive) of the last non-space run before `j`, or 0.
pub open spec fn last_nonspace(l: Seq<char>, j: int) -> int
    decreases j,
{
    if !(0 < j <= l.len()) {
        0
    } else if is_space(l[j - 1]) {
        last_nonspace(l, j - 1)
    } else {
        j
    }
}

pub proof fn lemma_last_nonspace_bounds(l: Seq<char>, j: int)
    ensures
        0 <= last_nonspace(l, j),
        j >= 0 ==> last_nonspace(l, j) <= j,
    decreases j,
{
    if 0 < j <= l.len() && is_space(l[j - 1]) {
        lemma_last_nonspace_bounds(l, j - 1);
    }
}

/// The line with surrounding whitespace trimmed.
pub open spec fn trim_spec(l: Seq<char>) -> Seq<char> {
    let a = first_nonspace(l, 0);
    let b = last_nonspace(l, l.len() as int);
    if a < b {
        l.subrange(a, b)
    } else {
        seq![]
    }
}

/// First blank at or past `i`, or the length.
pub open spec fn first_blank(l: Seq<char>, i: int) -> int
    decreases l.len() - i,
{
    if !(0 <= i < l.len()) {
        l.len() as int
    } else if l[i] == ' ' {
        i
    } else {
        first_blank(l, i + 1)
    }
}

/// One non-empty trimmed line: a trailing colon declares a label, anything
/// else is an opcode, a blank, and comma-separated operands.
pub open spec fn parse_trimmed_line(t: Seq<char>) -> Result<InstrModel, ParseError> {
    if t.last() == ':' {
        Result::Ok(InstrModel::Label(t.drop_last()))
    } else {
        let sp = first_blank(t, 0);
        let op = t.subrange(0, sp);
        if sp == t.len() {
            build_instr(op, seq![])
        } else {
            match classify_tokens(arg_tokens(t.subrange(sp + 1, t.len() as int))) {
                Result::Err(e) => Result::Err(e),
                Result::Ok(args) => build_instr(op, args),
            }
        }
    }
}

/// One raw line: blank lines yield nothing.
pub open spec fn line_result(l: Seq<char>) -> Result<Option<InstrModel>, ParseError> {
    let t = trim_spec(l);
    if t.len() == 0 {
        Result::Ok(Option::None)
    } else {
        match parse_trimmed_line(t) {
            Result::Err(e) => Result::Err(e),
            Result::Ok(m) => Result::Ok(Option::Some(m)),
        }
    }
}

/// All lines in order, stopping at the first bad one.
pub open spec fn parse_lines(ls: Seq<Seq<char>>) -> Result<Seq<InstrModel>, ParseError>
    decreases ls.len(),
{
    if ls.len() == 0 {
        Result::Ok(seq![])
    } else {
        match line_result(ls[0]) {
            Result::Err(e) => Result::Err(e),
            Result::Ok(Option::None) => parse_lines(ls.drop_first()),
            Result::Ok(Option::Some(m)) => match parse_lines(ls.drop_first()) {
                Result::Err(e) => Result::Err(e),
                Result::Ok(rest) => Result::Ok(seq![m] + rest),
            },
        }
    }
}

/// The text split at every line break, from position `i` with the current
/// line starting at `start`.
pub open spec fn split_lines_from(s: Seq<char>, i: int, start: int) -> Seq<Seq<char>>
    decreases s.len() - i,
{
    if !(0 <= start <= i <= s.len()) {
        seq![]
    } else if i == s.len() {
        seq![s.subrange(start, i)]
    } else if s[i] == '\n' {
        seq![s.subrange(start, i)] + split_lines_from(s, i + 1, i + 1)
    } else {
        split_lines_from(s, i + 1, start)
    }
}

/// What the text format denotes: one instruction or label per line.
pub open spec fn spec_parse(s: Seq<char>) -> Result<Seq<InstrModel>, ParseError> {
    parse_lines(split_lines_from(s, 0, 0))
}

/// One operand, classified.
enum Argument {
    Register(RegisterNumber),
    Immediate(Immediate),
    Label(Label),
}

impl View for Argument {
    type V = ArgModel;

    closed spec fn view(&self) -> ArgModel {
        match self {
            Argument::Register(v) => ArgModel::Register(*v),
            Argument::Immediate(v) => ArgModel::Immediate(*v),
            Argument::Label(l) => ArgModel::LabelRef(l@),
        }
    }
}

spec fn args_view(s: Seq<Argument>) -> Seq<ArgModel> {
    s.map_values(|a: Argument| a@)
}

spec fn toks_view(ts: Seq<Vec<char>>) -> Seq<Seq<char>> {
    ts.map_values(|t: Vec<char>| t@)
}

/// Relies on std's `String::push`: appends exactly one character.
#[verifier::external_body]
fn push_char(s: &mut String, c: char)
    ensures
        final(s)@ == old(s)@.push(c),
{
    s.push(c);
}

fn is_space_char(c: char) -> (r: bool)
    ensures
        r == is_space(c),
{
    c == ' ' || c == '\t' || c == '\r' || c == '\n' || c == '\u{b}' || c == '\u{c}'
}

fn chars_to_string(t: &Vec<char>, lo: usize, hi: usize) -> (r: String)
    requires
        lo <= hi <= t@.len(),
    ensures
        r@ == t@.subrange(lo as int, hi as int),
{
    let mut s = String::new();
    proof {
        assert(s@ =~= t@.subrange(lo as int, lo as int));
    }
    let mut k = lo;
    while k < hi
        invariant
            lo <= k <= hi <= t@.len(),
            s@ == t@.subrange(lo as int, k as int),
        decreases hi - k,
    {
        push_char(&mut s, t[k]);
        proof {
            assert(t@.subrange(lo as int, k as int).push(t@[k as int]) =~= t@.subrange(
                lo as int,
                (k + 1) as int,
            ));
        }
        k = k + 1;
    }
    s
}

fn check_all_digits(t: &Vec<char>, lo: usize, hi: usize) -> (r: bool)
    requires
        lo <= hi <= t@.len(),
    ensures
        r == all_digits(t@.subrange(lo as int, hi as int)),
{
    let ghost s = t@.subrange(lo as int, hi as int);
    if lo == hi {
        return false;
    }
    let mut k = lo;
    while k < hi
        invariant
            lo <= k <= hi <= t@.len(),
            s == t@.subrange(lo as int, hi as int),
            forall|j: int| 0 <= j < k - lo ==> is_digit(#[trigger] s[j]),
        decreases hi - k,
    {
        let u = t[k] as u32;
        proof {
            assert(s[k - lo] == t@[k as int]);
        }
        if !(48 <= u && u <= 57) {
            return false;
        }
        k = k + 1;
    }
    true
}

proof fn lemma_dec_val_nonneg(s: Seq<char>)
    requires
        forall|i: int| 0 <= i < s.len() ==> is_digit(#[trigger] s[i]),
    ensures
        dec_val(s) >= 0,
    decreases s.len(),
{
    if s.len() > 0 {
        lemma_dec_val_nonneg(s.drop_last());
    }
}

/// A digit run's value only grows as the run extends.
proof fn lemma_dec_val_take(s: Seq<char>, j: int)
    requires
        0 <= j <= s.len(),
        forall|i: int| 0 <= i < s.len() ==> is_digit(#[trigger] s[i]),
    ensures
        dec_val(s) >= dec_val(s.take(j)),
    decreases s.len() - j,
{
    if j < s.len() {
        assert(s.take(j + 1).drop_last() =~= s.take(j));
        lemma_dec_val_nonneg(s.take(j));
        assert(dec_val(s.take(j + 1)) == dec_val(s.take(j)) * 10 + digit_val(s[j]));
        lemma_dec_val_take(s, j + 1);
    } else {
        assert(s.take(j) =~= s);
    }
}

/// The value of the digit run `t[lo..hi]`, or `None` if it exceeds `u64`.
fn parse_digits(t: &Vec<char>, lo: usize, hi: usize) -> (r: Option<u64>)
    requires
        lo <= hi <= t@.len(),
        all_digits(t@.subrange(lo as int, hi as int)),
    ensures
        ({
            let s = t@.subrange(lo as int, hi as int);
            match r {
                Option::Some(v) => v == dec_val(s),
                Option::None => dec_val(s) > u64::MAX,
            }
        }),
{
    let ghost s = t@.subrange(lo as int, hi as int);
    let mut v: u64 = 0;
    let mut k = lo;
    while k < hi
        invariant
            lo <= k <= hi <= t@.len(),
            s == t@.subrange(lo as int, hi as int),
            all_digits(s),
            v == dec_val(s.take(k - lo)),
        decreases hi - k,
    {
        let c = t[k];
        proof {
            assert(s[k - lo] == c);
            assert(is_digit(c));
            assert(s.take(k - lo + 1).drop_last() =~= s.take(k - lo));
            assert(dec_val(s.take(k - lo + 1)) == dec_val(s.take(k - lo)) * 10 + digit_val(c));
        }
        let d = (c as u32 - 48) as u64;
        if v > u64::MAX / 10 {
            proof {
                lemma_dec_val_take(s, k - lo + 1);
            }
            return Option::None;
        }
        let v2 = v * 10;
        if d > u64::MAX - v2 {
            proof {
                lemma_dec_val_take(s, k - lo + 1);
            }
            return Option::None;
        }
        v = v2 + d;
        k = k + 1;
    }
    proof {
        assert(s.take(hi - lo) =~= s);
    }
    Option::Some(v)
}

/// Classify one operand token per the token grammar.
fn classify_arg(t: &Vec<char>) -> (r: Result<Argument, ParseError>)
    ensures
        match r {
            Result::Ok(a) => classify_token(t@) == Result::<ArgModel, ParseError>::Ok(a@),
            Result::Err(e) => classify_token(t@) == Result::<ArgModel, ParseError>::Err(e),
        },
{
    if t.len() >= 2 && t[0] == 'x' {
        let ds: usize = if t[1] == '+' {
            2
        } else {
            1
        };
        proof {
            assert(t@.drop_first() =~= t@.subrange(1, t@.len() as int));
            if t@[1] == '+' {
                assert(t@.drop_first().drop_first() =~= t@.subrange(2, t@.len() as int));
            }
        }
        if t.len() > ds && check_all_digits(t, ds, t.len()) {
            match parse_digits(t, ds, t.len()) {
                Option::Some(v) => {
                    if v <= usize::MAX as u64 {
                        return Result::Ok(Argument::Register(v as usize));
                    } else {
                        return Result::Err(ParseError::RegisterTooLarge);
                    }
                },
                Option::None => {
                    return Result::Err(ParseError::RegisterTooLarge);
                },
            }
        }
        proof {
            assert(reg_token_val(t@) is None);
        }
    }
    let sign: usize = if t.len() > 0 && (t[0] == '-' || t[0] == '+') {
        1
    } else {
        0
    };
    let neg = t.len() > 0 && t[0] == '-';
    proof {
        if sign == 1 {
            assert(t@.drop_first() =~= t@.subrange(1, t@.len() as int));
        } else if t@.len() > 0 {
            assert(t@.subrange(0, t@.len() as int) =~= t@);
        }
    }
    if t.len() > sign && check_all_digits(t, sign, t.len()) {
        match parse_digits(t, sign, t.len()) {
            Option::Some(mag) => {
                if neg {
                    if mag <= 9223372036854775808u64 {
                        let v: i64 = if mag == 9223372036854775808u64 {
                            i64::MIN
                        } else {
                            -(mag as i64)
                        };
                        return Result::Ok(Argument::Immediate(v));
                    }
                } else {
                    if mag <= i64::MAX as u64 {
                        return Result::Ok(Argument::Immediate(mag as i64));
                    }
                }
            },
            Option::None => {},
        }
    }
    let label = chars_to_string(t, 0, t.len());
    proof {
        assert(t@.subrange(0, t@.len() as int) =~= t@);
    }
    Result::Ok(Argument::Label(label))
}

/// Whether the region `cs[lo..hi]` spells exactly `pat`.
fn op_is(cs: &Vec<char>, lo: usize, hi: usize, pat: &str) -> (r: bool)
    requires
        lo <= hi <= cs@.len(),
    ensures
        r == (cs@.subrange(lo as int, hi as int) == pat@),
{
    let ghost o = cs@.subrange(lo as int, hi as int);
    let n = pat.unicode_len();
    if hi - lo != n {
        proof {
            assert(o.len() != pat@.len());
        }
        return false;
    }
    let mut k: usize = 0;
    while k < n
        invariant
            k <= n,
            n == pat@.len(),
            lo + n == hi <= cs@.len(),
            o == cs@.subrange(lo as int, hi as int),
            forall|j: int| 0 <= j < k ==> o[j] == pat@[j],
        decreases n - k,
    {
        if cs[lo + k] != pat.get_char(k) {
            proof {
                assert(o[k as int] != pat@[k as int]);
            }
            return false;
        }
        proof {
            assert(o[k as int] == pat@[k as int]);
        }
        k = k + 1;
    }
    proof {
        assert(o =~= pat@);
    }
    true
}

/// Apply the opcode-to-shape table to the opcode region and the classified
/// operands.
fn build_instruction(cs: &Vec<char>, lo: usize, hi: usize, args: Vec<Argument>) -> (r: Result<
    Instruction,
    ParseError,
>)
    requires
        lo <= hi <= cs@.len(),
    ensures
        ({
            let b = build_instr(cs@.subrange(lo as int, hi as int), args_view(args@));
            match r {
                Result::Ok(ins) => b == Result::<InstrModel, ParseError>::Ok(ins@),
                Result::Err(e) => b == Result::<InstrModel, ParseError>::Err(e),
            }
        }),
{
    proof {
        reveal_strlit("add");
        reveal_strlit("sub");
        reveal_strlit("addi");
        reveal_strlit("bge");
        reveal_strlit("bne");
        reveal_strlit("j");
        reveal_strlit("finish");
    }
    if op_is(cs, lo, hi, "add") {
        if args.len() == 3 {
            match (&args[0], &args[1], &args[2]) {
                (Argument::Register(a), Argument::Register(b), Argument::Register(c)) => {
                    return Result::Ok(Instruction::Add(*a, *b, *c));
                },
                _ => {
                    return Result::Err(ParseError::InvalidInstruction);
                },
            }
        }
        return Result::Err(ParseError::InvalidInstruction);
    }
    if op_is(cs, lo, hi, "sub") {
        if args.len() == 3 {
            match (&args[0], &args[1], &args[2]) {
                (Argument::Register(a), Argument::Register(b), Argument::Register(c)) => {
                    return Result::Ok(Instruction::Sub(*a, *b, *c));
                },
                _ => {
                    return Result::Err(ParseError::InvalidInstruction);
                },
            }
        }
        return Result::Err(ParseError::InvalidInstruction);
    }
    if op_is(cs, lo, hi, "addi") {
        if args.len() == 3 {
            match (&args[0], &args[1], &args[2]) {
                (Argument::Register(a), Argument::Register(b), Argument::Immediate(imm)) => {
                    return Result::Ok(Instruction::AddImm(*a, *b, *imm));
                },
                _ => {
                    return Result::Err(ParseError::InvalidInstruction);
                },
            }
        }
        return Result::Err(ParseError::InvalidInstruction);
    }
    if op_is(cs, lo, hi, "bge") {
        if args.len() == 3 {
            match (&args[0], &args[1], &args[2]) {
                (Argument::Register(a), Argument::Register(b), Argument::Label(l)) => {
                    return Result::Ok(Instruction::BranchGE(*a, *b, l.clone()));
                },
                _ => {
                    return Result::Err(ParseError::InvalidInstruction);
                },
            }
        }
        return Result::Err(ParseError::InvalidInstruction);
    }
    if op_is(cs, lo, hi, "bne") {
        if args.len() == 3 {
            match (&args[0], &args[1], &args[2]) {
                (Argument::Register(a), Argument::Register(b), Argument::Label(l)) => {
                    return Result::Ok(Instruction::BranchNE(*a, *b, l.clone()));
                },
                _ => {
                    return Result::Err(ParseError::InvalidInstruction);
                },
            }
        }
        return Result::Err(ParseError::InvalidInstruction);
    }
    if op_is(cs, lo, hi, "j") {
        if args.len() == 1 {
            match &args[0] {
                Argument::Label(l) => {
                    return Result::Ok(Instruction::Jump(l.clone()));
                },
                _ => {
                    return Result::Err(ParseError::InvalidInstruction);
                },
            }
        }
        return Result::Err(ParseError::InvalidInstruction);
    }
    if op_is(cs, lo, hi, "finish") {
        if args.len() == 0 {
            return Result::Ok(Instruction::Finish);
        }
        return Result::Err(ParseError::InvalidInstruction);
    }
    Result::Err(ParseError::InvalidInstruction)
}

/// Parse the raw line `cs[start..end]`: nothing for a blank line, a label
/// declaration, or one instruction.
fn parse_one_line(cs: &Vec<char>, start: usize, end: usize) -> (r: Result<
    Option<Instruction>,
    ParseError,
>)
    requires
        start <= end <= cs@.len(),
    ensures
        ({
            let lr = line_result(cs@.subrange(start as int, end as int));
            match r {
                Result::Ok(o) => match o {
                    Option::None => lr == Result::<Option<InstrModel>, ParseError>::Ok(
                        Option::None,
                    ),
                    Option::Some(ins) => lr == Result::<Option<InstrModel>, ParseError>::Ok(
                        Option::Some(ins@),
                    ),
                },
                Result::Err(e) => lr == Result::<Option<InstrModel>, ParseError>::Err(e),
            }
        }),
{
    let ghost l = cs@.subrange(start as int, end as int);
    let mut a = start;
    while a < end && is_space_char(cs[a])
        invariant
            start <= a <= end <= cs@.len(),
            l == cs@.subrange(start as int, end as int),
            first_nonspace(l, 0) == first_nonspace(l, a - start),
        decreases end - a,
    {
        proof {
            assert(l[a - start] == cs@[a as int]);
        }
        a = a + 1;
    }
    proof {
        if a < end {
            assert(l[a - start] == cs@[a as int]);
        }
    }
    let mut b = end;
    while b > a && is_space_char(cs[b - 1])
        invariant
            start <= a <= b <= end <= cs@.len(),
            l == cs@.subrange(start as int, end as int),
            a < end ==> !is_space(l[a - start]),
            a < end ==> b > a,
            last_nonspace(l, end - start) == last_nonspace(l, b - start),
        decreases b,
    {
        proof {
            assert(0 <= b - 1 - start < l.len());
            assert(l[b - 1 - start] == cs@[(b - 1) as int]);
        }
        b = b - 1;
    }
    if a >= b {
        proof {
            assert(a == end);
            assert(first_nonspace(l, 0) == l.len());
            lemma_last_nonspace_bounds(l, end - start);
            assert(trim_spec(l).len() == 0);
        }
        return Result::Ok(Option::None);
    }
    let ghost t = trim_spec(l);
    proof {
        assert(l[a - start] == cs@[a as int]);
        assert(l[b - 1 - start] == cs@[(b - 1) as int]);
        assert(first_nonspace(l, 0) == a - start);
        assert(last_nonspace(l, end - start) == b - start);
        assert(t == l.subrange(a - start, b - start));
        assert(t =~= cs@.subrange(a as int, b as int));
        assert(t.len() == b - a > 0);
    }
    if cs[b - 1] == ':' {
        let label = chars_to_string(cs, a, b - 1);
        proof {
            assert(t.last() == ':');
            assert(t.drop_last() =~= cs@.subrange(a as int, (b - 1) as int));
        }
        return Result::Ok(Option::Some(Instruction::Label(label)));
    }
    let mut sp = a;
    while sp < b && cs[sp] != ' '
        invariant
            a <= sp <= b <= cs@.len(),
            t == trim_spec(l),
            t =~= cs@.subrange(a as int, b as int),
            first_blank(t, 0) == first_blank(t, sp - a),
        decreases b - sp,
    {
        proof {
            assert(t[sp - a] == cs@[sp as int]);
        }
        sp = sp + 1;
    }
    proof {
        if sp < b {
            assert(t[sp - a] == cs@[sp as int]);
        }
        assert(first_blank(t, 0) == sp - a);
        assert(t.subrange(0, sp - a) =~= cs@.subrange(a as int, sp as int));
    }
    if sp == b {
        let r = build_instruction(cs, a, sp, Vec::new());
        proof {
            assert(args_view(Seq::<Argument>::empty()) =~= Seq::<ArgModel>::empty());
        }
        match r {
            Result::Ok(ins) => {
                return Result::Ok(Option::Some(ins));
            },
            Result::Err(e) => {
                return Result::Err(e);
            },
        }
    }
    let ghost rest = t.subrange(sp - a + 1, t.len() as int);
    proof {
        assert(rest =~= cs@.subrange((sp + 1) as int, b as int));
    }
    let mut tokens: Vec<Vec<char>> = Vec::new();
    let mut current: Vec<char> = Vec::new();
    let mut j = sp + 1;
    proof {
        assert(rest.take(0) =~= Seq::<char>::empty());
        assert(toks_view(tokens@).push(current@) =~= seq![Seq::<char>::empty()]);
    }
    while j < b
        invariant
            sp + 1 <= j <= b <= cs@.len(),
            rest == cs@.subrange((sp + 1) as int, b as int),
            split_commas(remove_blanks(rest.take(j - sp - 1))) == toks_view(tokens@).push(
                current@,
            ),
        decreases b - j,
    {
        let c = cs[j];
        proof {
            assert(rest[j - sp - 1] == c);
            assert(rest.take(j - sp - 1).push(c) =~= rest.take(j + 1 - sp - 1));
            lemma_remove_blanks_push(rest.take(j - sp - 1), c);
            if c != ' ' {
                lemma_split_commas_push(remove_blanks(rest.take(j - sp - 1)), c);
            }
        }
        if c == ' ' {
        } else if c == ',' {
            let ghost old_tokens = tokens@;
            let ghost old_current = current@;
            tokens.push(current);
            current = Vec::new();
            proof {
                assert(toks_view(tokens@) =~= toks_view(old_tokens).push(old_current));
                assert(split_commas(remove_blanks(rest.take(j + 1 - sp - 1))) =~= toks_view(
                    tokens@,
                ).push(current@));
            }
        } else {
            let ghost old_current = current@;
            current.push(c);
            proof {
                let p = toks_view(tokens@).push(old_current);
                assert(p.last() == old_current);
                assert(p.update(p.len() - 1, old_current.push(c)) =~= toks_view(tokens@).push(
                    current@,
                ));
            }
        }
        j = j + 1;
    }
    let ghost old_tokens = tokens@;
    let ghost old_current = current@;
    tokens.push(current);
    proof {
        assert(rest.take(b - sp - 1) =~= rest);
        assert(toks_view(tokens@) =~= toks_view(old_tokens).push(old_current));
        assert(arg_tokens(rest) == toks_view(tokens@));
    }
    let mut args: Vec<Argument> = Vec::new();
    let mut k: usize = 0;
    proof {
        assert(toks_view(tokens@).skip(0) =~= toks_view(tokens@));
        assert(args_view(args@) =~= Seq::<ArgModel>::empty());
    }
    while k < tokens.len()
        invariant
            k <= tokens@.len(),
            args@.len() == k,
            start <= a < b <= end <= cs@.len(),
            a <= sp < b,
            l == cs@.subrange(start as int, end as int),
            t == trim_spec(l),
            t =~= cs@.subrange(a as int, b as int),
            cs@[(b - 1) as int] != ':',
            first_blank(t, 0) == sp - a,
            rest == t.subrange(sp - a + 1, t.len() as int),
            arg_tokens(rest) == toks_view(tokens@),
            classify_tokens(toks_view(tokens@)) == (match classify_tokens(
                toks_view(tokens@).skip(k as int),
            ) {
                Result::Ok(rest2) => Result::<Seq<ArgModel>, ParseError>::Ok(
                    args_view(args@) + rest2,
                ),
                Result::Err(e) => Result::<Seq<ArgModel>, ParseError>::Err(e),
            }),
        decreases tokens@.len() - k,
    {
        let ghost tv = toks_view(tokens@);
        proof {
            assert(tv.skip(k as int)[0] == tv[k as int]);
            assert(tv[k as int] == tokens@[k as int]@);
            assert(tv.skip(k as int).drop_first() =~= tv.skip(k + 1));
        }
        match classify_arg(&tokens[k]) {
            Result::Ok(arg0) => {
                let ghost old_args = args@;
                args.push(arg0);
                proof {
                    assert(args_view(args@) =~= args_view(old_args).push(arg0@));
                    if classify_tokens(tv.skip(k + 1)) is Ok {
                        let rest2 = classify_tokens(tv.skip(k + 1))->Ok_0;
                        assert(args_view(old_args) + (seq![arg0@] + rest2) =~= args_view(args@)
                            + rest2);
                    }
                }
            },
            Result::Err(e) => {
                proof {
                    assert(classify_tokens(tv.skip(k as int)) == Result::<
                        Seq<ArgModel>,
                        ParseError,
                    >::Err(e));
                    assert(classify_tokens(tv) == Result::<Seq<ArgModel>, ParseError>::Err(e));
                    assert(t.last() == cs@[(b - 1) as int]);
                    assert(parse_trimmed_line(t) == Result::<InstrModel, ParseError>::Err(e));
                }
                return Result::Err(e);
            },
        }
        k = k + 1;
    }
    proof {
        assert(toks_view(tokens@).skip(tokens@.len() as int) =~= Seq::<Seq<char>>::empty());
        assert(args_view(args@) + Seq::<ArgModel>::empty() =~= args_view(args@));
        assert(classify_tokens(toks_view(tokens@)) == Result::<Seq<ArgModel>, ParseError>::Ok(
            args_view(args@),
        ));
        assert(t.last() == cs@[(b - 1) as int]);
        assert(t.subrange(0, sp - a) =~= cs@.subrange(a as int, sp as int));
    }
    let r = build_instruction(cs, a, sp, args);
    match r {
        Result::Ok(ins) => Result::Ok(Option::Some(ins)),
        Result::Err(e) => Result::Err(e),
    }
}

/// Translate program text into the instruction sequence: one instruction or
/// label per line, blank lines ignored, rejecting the text exactly where the
/// grammar of `spec_parse` does.
pub fn parse(content: &str) -> (r: Result<Vec<Instruction>, ParseError>)
    ensures
        match r {
            Result::Ok(v) => spec_parse(content@) == Result::<Seq<InstrModel>, ParseError>::Ok(
                prog_view(v@),
            ),
            Result::Err(e) => spec_parse(content@) == Result::<Seq<InstrModel>, ParseError>::Err(
                e,
            ),
        },
{
    let n = content.unicode_len();
    let mut cs: Vec<char> = Vec::new();
    let mut i: usize = 0;
    while i < n
        invariant
            i <= n,
            n == content@.len(),
            cs@.len() == i,
            forall|j: int| 0 <= j < i ==> cs@[j] == content@[j],
        decreases n - i,
    {
        cs.push(content.get_char(i));
        i = i + 1;
    }
    proof {
        assert(cs@ =~= content@);
    }
    let mut out: Vec<Instruction> = Vec::new();
    let mut line_start: usize = 0;
    let mut p: usize = 0;
    while p < n
        invariant
            line_start <= p <= n == cs@.len(),
            cs@ == content@,
            match parse_lines(split_lines_from(cs@, p as int, line_start as int)) {
                Result::Ok(m) => spec_parse(cs@) == Result::<Seq<InstrModel>, ParseError>::Ok(
                    prog_view(out@) + m,
                ),
                Result::Err(e) => spec_parse(cs@) == Result::<Seq<InstrModel>, ParseError>::Err(e),
            },
        decreases n - p,
    {
        if cs[p] == '\n' {
            let ghost line = cs@.subrange(line_start as int, p as int);
            let ghost rest_ls = split_lines_from(cs@, p + 1, p + 1);
            proof {
                assert(split_lines_from(cs@, p as int, line_start as int) == seq![line] + rest_ls);
                assert((seq![line] + rest_ls)[0] == line);
                assert((seq![line] + rest_ls).drop_first() =~= rest_ls);
            }
            match parse_one_line(&cs, line_start, p) {
                Result::Ok(o) => {
                    match o {
                        Option::None => {},
                        Option::Some(ins) => {
                            let ghost old_out = out@;
                            out.push(ins);
                            proof {
                                assert(prog_view(out@) =~= prog_view(old_out).push(ins@));
                                if parse_lines(rest_ls) is Ok {
                                    let r2 = parse_lines(rest_ls)->Ok_0;
                                    assert(prog_view(old_out) + (seq![ins@] + r2) =~= prog_view(
                                        out@,
                                    ) + r2);
                                }
                            }
                        },
                    }
                },
                Result::Err(e) => {
                    return Result::Err(e);
                },
            }
            line_start = p + 1;
        }
        p = p + 1;
    }
    let ghost line = cs@.subrange(line_start as int, n as int);
    proof {
        assert(split_lines_from(cs@, n as int, line_start as int) == seq![line]);
        assert(seq![line][0] == line);
        assert(seq![line].drop_first() =~= Seq::<Seq<char>>::empty());
        assert(parse_lines(Seq::<Seq<char>>::empty()) == Result::<Seq<InstrModel>, ParseError>::Ok(
            seq![],
        ));
        assert(parse_lines(seq![line].drop_first()) == Result::<Seq<InstrModel>, ParseError>::Ok(
            seq![],
        ));
    }
    match parse_one_line(&cs, line_start, n) {
        Result::Ok(o) => {
            match o {
                Option::None => {},
                Option::Some(ins) => {
                    let ghost old_out = out@;
                    out.push(ins);
                    proof {
                        assert(prog_view(out@) =~= prog_view(old_out).push(ins@));
                        assert(prog_view(old_out) + (seq![ins@] + Seq::<InstrModel>::empty())
                            =~= prog_view(out@) + Seq::<InstrModel>::empty());
                    }
                },
            }
        },
        Result::Err(e) => {
            return Result::Err(e);
        },
    }
    proof {
        assert(prog_view(out@) + Seq::<InstrModel>::empty() =~= prog_view(out@));
    }
    Result::Ok(out)
}

} // verus!
