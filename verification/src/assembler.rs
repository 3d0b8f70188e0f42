//! The two-pass assembler: line-oriented source text to an instruction
//! stream, with numeric literals, register operands, and forward-referenced
//! labels resolved by a deferred patch pass.

use vstd::arithmetic::div_mod::{
    lemma_fundamental_div_mod, lemma_hoist_over_denominator, lemma_mod_multiples_vanish,
    lemma_mod_pos_bound,
};
use vstd::prelude::*;

use crate::instruction::{high8, low8, Instruction};

verus! {

/// Why assembly of a source text was aborted. The first error wins; a
/// partially built program is discarded.
#[derive(Clone, Copy, PartialEq, Eq, Structural, Debug)]
pub enum AssemblerError {
    /// A numeral or register operand is malformed or out of range.
    ParseError,
    /// An operand was expected and no token was left on the line.
    MissingArgument,
    /// An operand token is present but of the wrong kind or syntax.
    WrongArgument,
    /// The mnemonic is not part of the instruction set.
    UnknownInstruction,
    /// A deferred label reference was never resolved by a definition.
    LabelNotFound,
}

/// A resolved operand: either an immediate byte or a register index.
#[derive(Clone, Copy, PartialEq, Eq, Structural, Debug)]
pub enum Argument {
    /// An immediate byte 0 to 255.
    Byte(u8),
    /// A register index 0 to 15.
    Register(u8),
}

/// A recorded use of a label: the name, whether the high (0) or low (1) byte
/// of its instruction index was asked for, and the instruction index and
/// operand slot where that byte belongs. Recorded whenever a label token is
/// read; consumed once, by the patch pass at the end of assembly.
pub struct LabelRef {
    /// The label's name, without the leading `$` and the byte selector.
    pub name: Vec<char>,
    /// 0 for the high byte of the label's index, 1 for the low byte.
    pub selector: usize,
    /// The index of the instruction holding the placeholder operand.
    pub instruction: usize,
    /// Which operand slot of that instruction holds the placeholder.
    pub slot: usize,
}

/// Mathematical model of a recorded label use.
#[verifier::ext_equal]
pub ghost struct LabelUse {
    /// The label's name.
    pub name: Seq<char>,
    /// 0 for the high byte, 1 for the low byte.
    pub selector: int,
    /// The instruction index holding the placeholder.
    pub instruction: int,
    /// The operand slot holding the placeholder.
    pub slot: int,
}

impl View for LabelRef {
    type V = LabelUse;

    open spec fn view(&self) -> LabelUse {
        LabelUse {
            name: self.name@,
            selector: self.selector as int,
            instruction: self.instruction as int,
            slot: self.slot as int,
        }
    }
}

impl DeepView for LabelRef {
    type V = LabelUse;

    open spec fn deep_view(&self) -> LabelUse {
        self.view()
    }
}

/// The numeric value of a digit character, over all radices up to 16:
/// `0`-`9`, `a`-`f` and `A`-`F` have their usual values; any other character
/// gets the sentinel 16, which no radix accepts.
pub open spec fn digit_val(c: char) -> int {
    if '0' <= c && c <= '9' {
        c as int - '0' as int
    } else if 'a' <= c && c <= 'f' {
        c as int - 'a' as int + 10
    } else if 'A' <= c && c <= 'F' {
        c as int - 'A' as int + 10
    } else {
        16
    }
}

/// Whether `c` is a digit of the given radix.
pub open spec fn is_digit(c: char, radix: int) -> bool {
    digit_val(c) < radix
}

/// Whether every character of `s` is a digit of the given radix.
pub open spec fn all_digits(s: Seq<char>, radix: int) -> bool {
    forall|i: int| 0 <= i < s.len() ==> is_digit(#[trigger] s[i], radix)
}

/// The value of a digit string read most-significant first.
pub open spec fn digits_value(s: Seq<char>, radix: int) -> int
    decreases s.len(),
{
    if s.len() == 0 {
        0
    } else {
        digits_value(s.drop_last(), radix) * radix + digit_val(s.last())
    }
}

/// Digit-string values are never negative (for a positive radix).
pub proof fn lemma_digits_value_nonneg(s: Seq<char>, radix: int)
    requires
        radix >= 1,
    ensures
        digits_value(s, radix) >= 0,
    decreases s.len(),
{
    if s.len() > 0 {
        lemma_digits_value_nonneg(s.drop_last(), radix);
        assert(digits_value(s.drop_last(), radix) * radix >= 0) by (nonlinear_arith)
            requires
                digits_value(s.drop_last(), radix) >= 0,
                radix >= 1,
        ;
    }
}

/// A prefix of a digit string never has a larger value than the whole.
pub proof fn lemma_digits_value_prefix(s: Seq<char>, k: int, radix: int)
    requires
        radix >= 1,
        0 <= k <= s.len(),
    ensures
        digits_value(s.subrange(0, k), radix) <= digits_value(s, radix),
    decreases s.len() - k,
{
    if k < s.len() {
        lemma_digits_value_prefix(s, k + 1, radix);
        let shorter = s.subrange(0, k);
        let longer = s.subrange(0, k + 1);
        assert(longer.drop_last() =~= shorter);
        lemma_digits_value_nonneg(shorter, radix);
        assert(digits_value(shorter, radix) * radix >= digits_value(shorter, radix))
            by (nonlinear_arith)
            requires
                digits_value(shorter, radix) >= 0,
                radix >= 1,
        ;
        assert(digit_val(longer.last()) >= 0);
    } else {
        assert(s.subrange(0, k) =~= s);
    }
}

/// A byte numeral: a non-empty digit string whose value fits in a byte.
pub open spec fn byte_token(digits: Seq<char>, radix: int) -> Result<Argument, AssemblerError> {
    if digits.len() > 0 && all_digits(digits, radix) && digits_value(digits, radix) < 256 {
        Ok(Argument::Byte(digits_value(digits, radix) as u8))
    } else {
        Err(AssemblerError::ParseError)
    }
}

/// What a label token asks for, if `tok` is one: the name between the `$`
/// and the final byte selector, and the selector (0 for the label's high
/// byte, 1 for its low byte).
pub open spec fn spec_token_label(tok: Seq<char>) -> Option<(Seq<char>, int)> {
    if tok.len() >= 1 && tok[0] == '$' && (tok.last() == '0' || tok.last() == '1') {
        Some(
            (
                tok.subrange(1, tok.len() - 1),
                if tok.last() == '0' {
                    0int
                } else {
                    1int
                },
            ),
        )
    } else {
        None
    }
}

/// The operand a single token denotes, for the instruction at index
/// `instruction`:
/// - `NEXT0` / `NEXT1`: the high / low byte of the next instruction's index;
/// - `0x` / `0b` / `0d` followed by digits: an immediate byte in that radix;
/// - `r` followed by one hexadecimal digit: a register index;
/// - `$name` followed by `0` or `1`: a placeholder byte 0 for the named
///   label's high or low index byte, patched at the end of assembly;
/// - anything else is a wrong argument.
pub open spec fn spec_token_value(tok: Seq<char>, instruction: int) -> Result<
    Argument,
    AssemblerError,
> {
    if tok == "NEXT0"@ {
        Ok(Argument::Byte(high8(instruction + 1)))
    } else if tok == "NEXT1"@ {
        Ok(Argument::Byte(low8(instruction + 1)))
    } else if tok.len() >= 2 && tok[0] == '0' && tok[1] == 'x' {
        byte_token(tok.skip(2), 16)
    } else if tok.len() >= 2 && tok[0] == '0' && tok[1] == 'b' {
        byte_token(tok.skip(2), 2)
    } else if tok.len() >= 2 && tok[0] == '0' && tok[1] == 'd' {
        byte_token(tok.skip(2), 10)
    } else if tok.len() >= 1 && tok[0] == 'r' {
        if tok.len() == 2 && is_digit(tok[1], 16) {
            Ok(Argument::Register(digit_val(tok[1]) as u8))
        } else {
            Err(AssemblerError::ParseError)
        }
    } else if tok.len() >= 1 && tok[0] == '$' {
        if tok.last() == '0' || tok.last() == '1' {
            Ok(Argument::Byte(0))
        } else {
            Err(AssemblerError::WrongArgument)
        }
    } else {
        Err(AssemblerError::WrongArgument)
    }
}

/// The operand an optional token denotes: a missing token is a missing
/// argument.
pub open spec fn spec_get_value(tok: Option<Seq<char>>, instruction: int) -> Result<
    Argument,
    AssemblerError,
> {
    match tok {
        Option::None => Err(AssemblerError::MissingArgument),
        Option::Some(t) => spec_token_value(t, instruction),
    }
}

/// The label uses that reading one operand token records: one, when the
/// token is a label reference; none otherwise.
pub open spec fn spec_label_records(
    tok: Option<Seq<char>>,
    instruction: int,
    arg_number: int,
) -> Seq<LabelUse> {
    match tok {
        Option::None => seq![],
        Option::Some(t) => match spec_token_label(t) {
            Option::Some(name_sel) => seq![
                LabelUse {
                    name: name_sel.0,
                    selector: name_sel.1,
                    instruction,
                    slot: arg_number,
                },
            ],
            Option::None => seq![],
        },
    }
}

/// The view of an optional token.
pub open spec fn opt_token_view(token: Option<&[char]>) -> Option<Seq<char>> {
    match token {
        Option::None => Option::None,
        Option::Some(t) => Option::Some(t@),
    }
}

/// Split a character sequence on a separator, keeping empty segments: the
/// result always has one segment more than there are separators.
pub open spec fn split_char(s: Seq<char>, sep: char) -> Seq<Seq<char>>
    decreases s.len(),
{
    if s.len() == 0 {
        seq![Seq::<char>::empty()]
    } else if s[0] == sep {
        seq![Seq::<char>::empty()] + split_char(s.drop_first(), sep)
    } else {
        let rest = split_char(s.drop_first(), sep);
        seq![seq![s[0]] + rest[0]] + rest.skip(1)
    }
}

/// Splitting yields at least one segment.
pub proof fn lemma_split_char_len(s: Seq<char>, sep: char)
    ensures
        split_char(s, sep).len() >= 1,
    decreases s.len(),
{
    if s.len() > 0 {
        lemma_split_char_len(s.drop_first(), sep);
    }
}

/// Split a character slice on a separator, keeping empty segments.
fn split_on(s: &[char], sep: char) -> (parts: Vec<Vec<char>>)
    ensures
        parts.deep_view() == split_char(s@, sep),
{
    let mut parts: Vec<Vec<char>> = Vec::new();
    let mut current: Vec<char> = Vec::new();
    let mut i: usize = 0;
    proof {
        assert(s@.skip(0) =~= s@);
        lemma_split_char_len(s@, sep);
    }
    while i < s.len()
        invariant
            i <= s@.len(),
            split_char(s@.skip(i as int), sep).len() >= 1,
            split_char(s@, sep) == parts.deep_view() + seq![
                current@ + split_char(s@.skip(i as int), sep)[0],
            ] + split_char(s@.skip(i as int), sep).skip(1),
        decreases s@.len() - i,
    {
        let ghost rem = split_char(s@.skip(i as int), sep);
        let ghost rem_next = split_char(s@.skip(i + 1), sep);
        proof {
            assert(s@.skip(i as int).drop_first() =~= s@.skip(i + 1));
            assert(s@.skip(i as int)[0] == s@[i as int]);
            lemma_split_char_len(s@.skip(i + 1), sep);
        }
        let c = s[i];
        if c == sep {
            let ghost prev_parts = parts.deep_view();
            let ghost prev_current = current@;
            let finished = current;
            current = Vec::new();
            parts.push(finished);
            proof {
                assert(rem =~~= seq![Seq::<char>::empty()] + rem_next);
                assert(parts.deep_view() =~~= prev_parts.push(prev_current));
                assert(rem[0] =~= Seq::<char>::empty());
                assert(prev_current + rem[0] =~= prev_current);
                assert(rem.skip(1) =~~= rem_next);
                assert(current@ + rem_next[0] =~= rem_next[0]);
                assert(split_char(s@, sep) =~~= parts.deep_view() + seq![
                    current@ + rem_next[0],
                ] + rem_next.skip(1));
            }
        } else {
            let ghost prev_current = current@;
            current.push(c);
            proof {
                assert(rem =~~= seq![seq![s@[i as int]] + rem_next[0]] + rem_next.skip(1));
                assert(rem[0] =~= seq![s@[i as int]] + rem_next[0]);
                assert(rem.skip(1) =~~= rem_next.skip(1));
                assert(prev_current + rem[0] =~= current@ + rem_next[0]);
                assert(split_char(s@, sep) =~~= parts.deep_view() + seq![
                    current@ + rem_next[0],
                ] + rem_next.skip(1));
            }
        }
        i = i + 1;
    }
    proof {
        assert(s@.skip(s@.len() as int) =~= Seq::<char>::empty());
        assert(split_char(Seq::<char>::empty(), sep) =~= seq![Seq::<char>::empty()]);
    }
    parts.push(current);
    proof {
        assert(parts.deep_view() =~~= split_char(s@, sep));
    }
    parts
}

/// The label table that a sequence of `(name, index)` definitions builds: a
/// later definition of the same name overwrites an earlier one.
pub open spec fn table_map(entries: Seq<(Vec<char>, usize)>) -> Map<Seq<char>, int>
    decreases entries.len(),
{
    if entries.len() == 0 {
        Map::empty()
    } else {
        table_map(entries.drop_last()).insert(entries.last().0@, entries.last().1 as int)
    }
}

/// Look a name up in the label table: the most recent definition wins.
fn labels_get(entries: &Vec<(Vec<char>, usize)>, name: &[char]) -> (found: Option<usize>)
    ensures
        match found {
            Option::Some(index) => table_map(entries@).contains_key(name@) && table_map(
                entries@,
            )[name@] == index as int,
            Option::None => !table_map(entries@).contains_key(name@),
        },
{
    let mut i: usize = entries.len();
    proof {
        assert(entries@.take(entries@.len() as int) =~= entries@);
    }
    while i > 0
        invariant
            i <= entries@.len(),
            table_map(entries@).contains_key(name@) == table_map(entries@.take(i as int)).contains_key(
                name@,
            ),
            table_map(entries@).contains_key(name@) ==> table_map(entries@)[name@] == table_map(
                entries@.take(i as int),
            )[name@],
        decreases i,
    {
        proof {
            assert(entries@.take(i as int).drop_last() =~= entries@.take(i - 1));
            assert(entries@.take(i as int).last() == entries@[i - 1]);
        }
        if chars_eq(entries[i - 1].0.as_slice(), name) {
            return Option::Some(entries[i - 1].1);
        }
        i = i - 1;
    }
    proof {
        assert(entries@.take(0) =~= Seq::<(Vec<char>, usize)>::empty());
    }
    Option::None
}

/// The state that the first pass threads through the lines: the program
/// emitted so far, the label table so far, and the label uses recorded so
/// far.
#[verifier::ext_equal]
pub ghost struct Pass1State {
    /// Instructions emitted so far.
    pub program: Seq<Instruction>,
    /// Labels defined so far, each at the instruction index it names.
    pub labels: Map<Seq<char>, int>,
    /// Label uses recorded so far, in reading order.
    pub uses: Seq<LabelUse>,
}

/// The token at `idx`, if the line has that many.
pub open spec fn tok_at(toks: Seq<Seq<char>>, idx: int) -> Option<Seq<char>> {
    if 0 <= idx < toks.len() {
        Option::Some(toks[idx])
    } else {
        Option::None
    }
}

/// An operand that must be a register: a byte where a register is required
/// is a wrong argument.
pub open spec fn spec_expect_reg(toks: Seq<Seq<char>>, idx: int, instruction: int) -> Result<
    u8,
    AssemblerError,
> {
    match spec_get_value(tok_at(toks, idx), instruction) {
        Ok(Argument::Register(r)) => Ok(r),
        Ok(Argument::Byte(_)) => Err(AssemblerError::WrongArgument),
        Err(e) => Err(e),
    }
}

/// An operand that must be an immediate byte: a register where a byte is
/// required is a wrong argument.
pub open spec fn spec_expect_byte(toks: Seq<Seq<char>>, idx: int, instruction: int) -> Result<
    u8,
    AssemblerError,
> {
    match spec_get_value(tok_at(toks, idx), instruction) {
        Ok(Argument::Byte(v)) => Ok(v),
        Ok(Argument::Register(_)) => Err(AssemblerError::WrongArgument),
        Err(e) => Err(e),
    }
}

/// The label use that reading the operand at `idx` records.
pub open spec fn spec_record_at(
    toks: Seq<Seq<char>>,
    idx: int,
    instruction: int,
    arg_number: int,
) -> Seq<LabelUse> {
    spec_label_records(tok_at(toks, idx), instruction, arg_number)
}

/// Three register operands at token indices 1, 2 and 3.
pub open spec fn spec_three_regs(toks: Seq<Seq<char>>, instruction: int) -> Result<
    (u8, u8, u8),
    AssemblerError,
> {
    match spec_expect_reg(toks, 1, instruction) {
        Err(e) => Err(e),
        Ok(a) => match spec_expect_reg(toks, 2, instruction) {
            Err(e) => Err(e),
            Ok(b) => match spec_expect_reg(toks, 3, instruction) {
                Err(e) => Err(e),
                Ok(c) => Ok((a, b, c)),
            },
        },
    }
}

/// Two register operands at token indices 1 and 2.
pub open spec fn spec_two_regs(toks: Seq<Seq<char>>, instruction: int) -> Result<
    (u8, u8),
    AssemblerError,
> {
    match spec_expect_reg(toks, 1, instruction) {
        Err(e) => Err(e),
        Ok(a) => match spec_expect_reg(toks, 2, instruction) {
            Err(e) => Err(e),
            Ok(b) => Ok((a, b)),
        },
    }
}

/// The instruction one line's tokens denote, with the label uses its
/// operands record, for the instruction at index `n`: the first token picks
/// the mnemonic, whose fixed operand signature is read from the following
/// tokens. An unrecognized mnemonic aborts assembly.
pub open spec fn spec_parse_instruction(toks: Seq<Seq<char>>, n: int) -> Result<
    (Instruction, Seq<LabelUse>),
    AssemblerError,
> {
    if toks[0] == "LOAD"@ {
        match spec_expect_reg(toks, 1, n) {
            Err(e) => Err(e),
            Ok(r) => match spec_expect_byte(toks, 2, n) {
                Err(e) => Err(e),
                Ok(v) => Ok((Instruction::Load(r, v), spec_record_at(toks, 2, n, 1))),
            },
        }
    } else if toks[0] == "ADD"@ {
        match spec_three_regs(toks, n) {
            Err(e) => Err(e),
            Ok(t) => Ok((Instruction::Add(t.0, t.1, t.2), Seq::empty())),
        }
    } else if toks[0] == "SUB"@ {
        match spec_three_regs(toks, n) {
            Err(e) => Err(e),
            Ok(t) => Ok((Instruction::Sub(t.0, t.1, t.2), Seq::empty())),
        }
    } else if toks[0] == "MUL"@ {
        match spec_three_regs(toks, n) {
            Err(e) => Err(e),
            Ok(t) => Ok((Instruction::Mul(t.0, t.1, t.2), Seq::empty())),
        }
    } else if toks[0] == "DIV"@ {
        match spec_three_regs(toks, n) {
            Err(e) => Err(e),
            Ok(t) => Ok((Instruction::Div(t.0, t.1, t.2), Seq::empty())),
        }
    } else if toks[0] == "CMP"@ {
        match spec_three_regs(toks, n) {
            Err(e) => Err(e),
            Ok(t) => Ok((Instruction::Cmp(t.0, t.1, t.2), Seq::empty())),
        }
    } else if toks[0] == "SPUSH"@ {
        match spec_three_regs(toks, n) {
            Err(e) => Err(e),
            Ok(t) => Ok((Instruction::SPush(t.0, t.1, t.2), Seq::empty())),
        }
    } else if toks[0] == "SCOPY"@ {
        match spec_three_regs(toks, n) {
            Err(e) => Err(e),
            Ok(t) => Ok((Instruction::SCopy(t.0, t.1, t.2), Seq::empty())),
        }
    } else if toks[0] == "SPOP"@ {
        match spec_three_regs(toks, n) {
            Err(e) => Err(e),
            Ok(t) => Ok((Instruction::SPop(t.0, t.1, t.2), Seq::empty())),
        }
    } else if toks[0] == "SREP"@ {
        match spec_three_regs(toks, n) {
            Err(e) => Err(e),
            Ok(t) => Ok((Instruction::SRep(t.0, t.1, t.2), Seq::empty())),
        }
    } else if toks[0] == "REQ"@ {
        match spec_two_regs(toks, n) {
            Err(e) => Err(e),
            Ok(t) => Ok((Instruction::REq(t.0, t.1), Seq::empty())),
        }
    } else if toks[0] == "EQ"@ {
        match spec_expect_reg(toks, 1, n) {
            Err(e) => Err(e),
            Ok(r) => match spec_expect_byte(toks, 2, n) {
                Err(e) => Err(e),
                Ok(v) => Ok((Instruction::Eq(r, v), spec_record_at(toks, 2, n, 1))),
            },
        }
    } else if toks[0] == "JUMP16"@ {
        match spec_expect_byte(toks, 1, n) {
            Err(e) => Err(e),
            Ok(hi) => match spec_expect_byte(toks, 2, n) {
                Err(e) => Err(e),
                Ok(lo) => Ok(
                    (
                        Instruction::Jump16(hi, lo),
                        spec_record_at(toks, 1, n, 0) + spec_record_at(toks, 2, n, 1),
                    ),
                ),
            },
        }
    } else if toks[0] == "RJUMP16"@ {
        match spec_two_regs(toks, n) {
            Err(e) => Err(e),
            Ok(t) => Ok((Instruction::RJump16(t.0, t.1), Seq::empty())),
        }
    } else if toks[0] == "HALT"@ {
        Ok((Instruction::Halt(), Seq::empty()))
    } else {
        Err(AssemblerError::UnknownInstruction)
    }
}

/// One instruction line after any label prefix was taken off: the emitted
/// instruction is appended and the uses of its label operands are recorded.
pub open spec fn spec_mnemonic_step(st: Pass1State, toks: Seq<Seq<char>>) -> Result<
    Pass1State,
    AssemblerError,
> {
    match spec_parse_instruction(toks, st.program.len() as int) {
        Err(e) => Err(e),
        Ok(parsed) => Ok(
            Pass1State { program: st.program.push(parsed.0), uses: st.uses + parsed.1, ..st },
        ),
    }
}

/// One non-blank, non-comment line. A `$name` first token defines `name` at
/// the next instruction index and may stand alone or prefix an instruction;
/// otherwise the line is one instruction.
pub open spec fn spec_line_step(st: Pass1State, line: Seq<char>) -> Result<
    Pass1State,
    AssemblerError,
> {
    let toks = split_char(line, ' ');
    let has_label = toks[0].len() >= 1 && toks[0][0] == '$';
    let labelled = if has_label {
        Pass1State { labels: st.labels.insert(toks[0].skip(1), st.program.len() as int), ..st }
    } else {
        st
    };
    if has_label && toks.len() == 1 {
        Ok(labelled)
    } else if has_label {
        spec_mnemonic_step(labelled, toks.skip(1))
    } else {
        spec_mnemonic_step(labelled, toks)
    }
}

/// A line with its trailing carriage return, if any, taken off, so that
/// sources with CRLF line endings assemble like LF ones.
pub open spec fn strip_cr(line: Seq<char>) -> Seq<char> {
    if line.len() > 0 && line.last() == '\r' {
        line.drop_last()
    } else {
        line
    }
}

/// Whether a line is ignored: blank lines and `#` comment lines emit nothing
/// and do not advance the instruction index.
pub open spec fn spec_skip_line(line: Seq<char>) -> bool {
    line.len() == 0 || line[0] == '#'
}

/// The first pass over all lines, threading the state through each line that
/// is not blank or a comment.
pub open spec fn spec_pass1(lines: Seq<Seq<char>>, st: Pass1State) -> Result<
    Pass1State,
    AssemblerError,
>
    decreases lines.len(),
{
    if lines.len() == 0 {
        Ok(st)
    } else {
        let line = strip_cr(lines[0]);
        if spec_skip_line(line) {
            spec_pass1(lines.drop_first(), st)
        } else {
            match spec_line_step(st, line) {
                Err(e) => Err(e),
                Ok(st2) => spec_pass1(lines.drop_first(), st2),
            }
        }
    }
}

/// The byte a resolved label reference stands for: the high byte of the
/// label's instruction index for selector 0, the low byte for selector 1.
pub open spec fn spec_resolved_byte(target: int, selector: int) -> u8 {
    if selector == 0 {
        high8(target)
    } else {
        low8(target)
    }
}

/// Overwrite one operand slot of an instruction with a resolved label byte.
/// Only slots that hold an immediate byte can be patched — `Load`'s value,
/// `Eq`'s value and either byte of `Jump16`; assembly never records a
/// reference to any other slot, and such a reference would leave the
/// instruction unchanged.
pub open spec fn spec_patch_instruction(ins: Instruction, slot: int, value: u8) -> Instruction {
    match ins {
        Instruction::Load(r, _) => if slot == 1 {
            Instruction::Load(r, value)
        } else {
            ins
        },
        Instruction::Eq(r, _) => if slot == 1 {
            Instruction::Eq(r, value)
        } else {
            ins
        },
        Instruction::Jump16(hi, lo) => if slot == 0 {
            Instruction::Jump16(value, lo)
        } else if slot == 1 {
            Instruction::Jump16(hi, value)
        } else {
            ins
        },
        _ => ins,
    }
}

/// Resolve one recorded label use against the label's final index: the
/// requested byte of that index overwrites the recorded operand slot.
pub open spec fn spec_apply_use(program: Seq<Instruction>, u: LabelUse, target: int) -> Seq<
    Instruction,
> {
    if 0 <= u.instruction < program.len() {
        program.update(
            u.instruction,
            spec_patch_instruction(
                program[u.instruction],
                u.slot,
                spec_resolved_byte(target, u.selector),
            ),
        )
    } else {
        program
    }
}

/// The second pass: resolve every recorded label use, in order, against the
/// final label table. A use of a label that was never defined aborts
/// assembly with `LabelNotFound`.
pub open spec fn spec_pass2(
    program: Seq<Instruction>,
    labels: Map<Seq<char>, int>,
    uses: Seq<LabelUse>,
) -> Result<Seq<Instruction>, AssemblerError>
    decreases uses.len(),
{
    if uses.len() == 0 {
        Ok(program)
    } else {
        let u = uses[0];
        if labels.contains_key(u.name) {
            spec_pass2(spec_apply_use(program, u, labels[u.name]), labels, uses.drop_first())
        } else {
            Err(AssemblerError::LabelNotFound)
        }
    }
}

/// The whole assembler: split the source into lines, run the first pass from
/// the empty state, then resolve all deferred label references.
pub open spec fn spec_assemble(source: Seq<char>) -> Result<Seq<Instruction>, AssemblerError> {
    let init = Pass1State { program: seq![], labels: Map::empty(), uses: seq![] };
    match spec_pass1(split_char(source, '\n'), init) {
        Err(e) => Err(e),
        Ok(st) => spec_pass2(st.program, st.labels, st.uses),
    }
}

/// The numeric value of a digit character; 16 for anything that is not a
/// digit.
fn digit_value(c: char) -> (d: u8)
    ensures
        d as int == digit_val(c),
{
    if '0' <= c && c <= '9' {
        ((c as u32) - ('0' as u32)) as u8
    } else if 'a' <= c && c <= 'f' {
        ((c as u32) - ('a' as u32) + 10) as u8
    } else if 'A' <= c && c <= 'F' {
        ((c as u32) - ('A' as u32) + 10) as u8
    } else {
        16
    }
}

/// Whether a token equals a literal.
fn token_is(tok: &[char], lit: &str) -> (eq: bool)
    ensures
        eq == (tok@ == lit@),
{
    let n = lit.unicode_len();
    if tok.len() != n {
        return false;
    }
    let mut i: usize = 0;
    while i < n
        invariant
            i <= n,
            n == lit@.len(),
            n == tok@.len(),
            forall|j: int| 0 <= j < i ==> tok@[j] == lit@[j],
        decreases n - i,
    {
        if tok[i] != lit.get_char(i) {
            return false;
        }
        i = i + 1;
    }
    proof {
        assert(tok@ =~= lit@);
    }
    true
}

/// Whether two character sequences are equal.
fn chars_eq(a: &[char], b: &[char]) -> (eq: bool)
    ensures
        eq == (a@ == b@),
{
    if a.len() != b.len() {
        return false;
    }
    let mut i: usize = 0;
    while i < a.len()
        invariant
            i <= a@.len(),
            a@.len() == b@.len(),
            forall|j: int| 0 <= j < i ==> a@[j] == b@[j],
        decreases a@.len() - i,
    {
        if a[i] != b[i] {
            return false;
        }
        i = i + 1;
    }
    proof {
        assert(a@ =~= b@);
    }
    true
}

/// Copy the characters of `s` between `from` and `to` into a fresh vector.
fn char_range(s: &[char], from: usize, to: usize) -> (part: Vec<char>)
    requires
        from <= to <= s@.len(),
    ensures
        part@ == s@.subrange(from as int, to as int),
{
    let mut part: Vec<char> = Vec::new();
    let mut i: usize = from;
    while i < to
        invariant
            from <= i <= to <= s@.len(),
            part@ =~= s@.subrange(from as int, i as int),
        decreases to - i,
    {
        part.push(s[i]);
        proof {
            assert(part@ =~= s@.subrange(from as int, i + 1));
        }
        i = i + 1;
    }
    part
}

/// Parse the digits of `tok` from index `from` on as a byte numeral in the
/// given radix.
fn parse_byte_token(tok: &[char], from: usize, radix: u8) -> (result: Result<
    Argument,
    AssemblerError,
>)
    requires
        from <= tok@.len(),
        2 <= radix <= 16,
    ensures
        result == byte_token(tok@.skip(from as int), radix as int),
{
    let ghost digits = tok@.skip(from as int);
    if tok.len() == from {
        return Err(AssemblerError::ParseError);
    }
    let mut value: usize = 0;
    let mut i: usize = from;
    while i < tok.len()
        invariant
            from <= i <= tok@.len(),
            2 <= radix <= 16,
            digits == tok@.skip(from as int),
            value <= 255,
            value as int == digits_value(digits.subrange(0, i - from), radix as int),
            all_digits(digits.subrange(0, i - from), radix as int),
        decreases tok@.len() - i,
    {
        let d = digit_value(tok[i]);
        proof {
            assert(digits[i - from] == tok@[i as int]);
        }
        if d >= radix {
            assert(!is_digit(digits[i - from], radix as int));
            return Err(AssemblerError::ParseError);
        }
        proof {
            assert(value * (radix as usize) <= 255 * 16) by (nonlinear_arith)
                requires
                    value <= 255,
                    radix <= 16,
            ;
        }
        let next_value = value * (radix as usize) + (d as usize);
        proof {
            let prefix = digits.subrange(0, i - from);
            let extended = digits.subrange(0, i + 1 - from);
            assert(extended.drop_last() =~= prefix);
            assert(extended.last() == digits[i - from]);
            assert(next_value as int == digits_value(extended, radix as int));
        }
        if next_value > 255 {
            proof {
                if all_digits(digits, radix as int) {
                    lemma_digits_value_prefix(digits, i + 1 - from, radix as int);
                }
            }
            return Err(AssemblerError::ParseError);
        }
        value = next_value;
        i = i + 1;
    }
    proof {
        assert(digits.subrange(0, digits.len() as int) =~= digits);
    }
    Ok(Argument::Byte(value as u8))
}

/// The bytes of `n + 1` depend only on `n`'s low 16 bits.
proof fn lemma_next_bytes(n: int)
    requires
        n >= 0,
    ensures
        ((n % 65536) + 1) / 256 % 256 == (n + 1) / 256 % 256,
        ((n % 65536) + 1) % 256 == (n + 1) % 256,
{
    let q = n / 65536;
    let m = n % 65536;
    lemma_fundamental_div_mod(n, 65536);
    lemma_mod_pos_bound(n, 65536);
    assert(n + 1 == (m + 1) + (256 * q) * 256);
    lemma_hoist_over_denominator(m + 1, 256 * q, 256nat);
    assert((n + 1) / 256 == (m + 1) / 256 + 256 * q);
    lemma_mod_multiples_vanish(q, (m + 1) / 256, 256);
    assert(n + 1 == 256 * (256 * q) + (m + 1));
    lemma_mod_multiples_vanish(256 * q, m + 1, 256);
}

/// Resolve one operand token for the instruction at index `instruction`:
/// `NEXT0`/`NEXT1` become the high/low byte of the next instruction index;
/// `0x`/`0b`/`0d` numerals become immediate bytes; `r` plus one hexadecimal
/// digit becomes a register index; a `$name0`/`$name1` label reference is
/// recorded in `used_labels` (with this instruction index and operand slot)
/// and becomes a placeholder byte 0, to be patched at the end of assembly.
pub fn get_value(
    token: Option<&[char]>,
    instruction: usize,
    arg_number: usize,
    used_labels: &mut Vec<LabelRef>,
) -> (result: Result<Argument, AssemblerError>)
    ensures
        result == spec_get_value(opt_token_view(token), instruction as int),
        final(used_labels).deep_view() == old(used_labels).deep_view() + spec_label_records(
            opt_token_view(token),
            instruction as int,
            arg_number as int,
        ),
{
    proof {
        reveal_strlit("NEXT0");
        reveal_strlit("NEXT1");
        assert(old(used_labels).deep_view() + Seq::<LabelUse>::empty() =~= old(
            used_labels,
        ).deep_view());
    }
    let tok = match token {
        Option::Some(t) => t,
        Option::None => {
            return Err(AssemblerError::MissingArgument);
        },
    };
    if token_is(tok, "NEXT0") {
        let next_address = (instruction % 65536) + 1;
        proof {
            lemma_next_bytes(instruction as int);
        }
        return Ok(Argument::Byte(((next_address / 256) % 256) as u8));
    }
    if token_is(tok, "NEXT1") {
        let next_address = (instruction % 65536) + 1;
        proof {
            lemma_next_bytes(instruction as int);
        }
        return Ok(Argument::Byte((next_address % 256) as u8));
    }
    if tok.len() >= 2 && tok[0] == '0' {
        let marker = tok[1];
        if marker == 'x' {
            return parse_byte_token(tok, 2, 16);
        }
        if marker == 'b' {
            return parse_byte_token(tok, 2, 2);
        }
        if marker == 'd' {
            return parse_byte_token(tok, 2, 10);
        }
    }
    if tok.len() >= 1 && tok[0] == 'r' {
        if tok.len() == 2 {
            let d = digit_value(tok[1]);
            if d < 16 {
                return Ok(Argument::Register(d));
            }
        }
        return Err(AssemblerError::ParseError);
    }
    if tok.len() >= 1 && tok[0] == '$' {
        let last_char = tok[tok.len() - 1];
        if last_char == '0' || last_char == '1' {
            let name = char_range(tok, 1, tok.len() - 1);
            let selector: usize = if last_char == '0' {
                0
            } else {
                1
            };
            used_labels.push(
                LabelRef { name, selector, instruction, slot: arg_number },
            );
            proof {
                assert(final(used_labels).deep_view() =~= old(used_labels).deep_view()
                    + spec_label_records(
                    opt_token_view(token),
                    instruction as int,
                    arg_number as int,
                ));
            }
            return Ok(Argument::Byte(0));
        }
        return Err(AssemblerError::WrongArgument);
    }
    Err(AssemblerError::WrongArgument)
}

/// Read the operand at `first + offset` as a register index.
fn expect_reg(
    toks: &Vec<Vec<char>>,
    first: usize,
    offset: usize,
    instruction: usize,
    arg_number: usize,
    used_labels: &mut Vec<LabelRef>,
) -> (r: Result<u8, AssemblerError>)
    requires
        first <= toks@.len(),
    ensures
        r == spec_expect_reg(toks.deep_view().skip(first as int), offset as int, instruction as int),
        final(used_labels).deep_view() == old(used_labels).deep_view() + spec_record_at(
            toks.deep_view().skip(first as int),
            offset as int,
            instruction as int,
            arg_number as int,
        ),
        r is Ok ==> final(used_labels).deep_view() == old(used_labels).deep_view(),
{
    let ghost stoks = toks.deep_view().skip(first as int);
    let token: Option<&[char]> = if offset < toks.len() - first {
        Option::Some(toks[first + offset].as_slice())
    } else {
        Option::None
    };
    proof {
        if offset < toks@.len() - first {
            assert(toks@[first + offset].deep_view() =~= toks@[first + offset]@);
            assert(stoks[offset as int] == toks.deep_view()[first + offset]);
        }
        assert(opt_token_view(token) == tok_at(stoks, offset as int));
    }
    let result = get_value(token, instruction, arg_number, used_labels);
    match result {
        Ok(Argument::Register(r)) => {
            proof {
                assert(old(used_labels).deep_view() + Seq::<LabelUse>::empty() =~= old(
                    used_labels,
                ).deep_view());
            }
            Ok(r)
        },
        Ok(Argument::Byte(_)) => Err(AssemblerError::WrongArgument),
        Err(e) => Err(e),
    }
}

/// Read the operand at `first + offset` as an immediate byte.
fn expect_byte(
    toks: &Vec<Vec<char>>,
    first: usize,
    offset: usize,
    instruction: usize,
    arg_number: usize,
    used_labels: &mut Vec<LabelRef>,
) -> (r: Result<u8, AssemblerError>)
    requires
        first <= toks@.len(),
    ensures
        r == spec_expect_byte(
            toks.deep_view().skip(first as int),
            offset as int,
            instruction as int,
        ),
        final(used_labels).deep_view() == old(used_labels).deep_view() + spec_record_at(
            toks.deep_view().skip(first as int),
            offset as int,
            instruction as int,
            arg_number as int,
        ),
{
    let ghost stoks = toks.deep_view().skip(first as int);
    let token: Option<&[char]> = if offset < toks.len() - first {
        Option::Some(toks[first + offset].as_slice())
    } else {
        Option::None
    };
    proof {
        if offset < toks@.len() - first {
            assert(toks@[first + offset].deep_view() =~= toks@[first + offset]@);
            assert(stoks[offset as int] == toks.deep_view()[first + offset]);
        }
        assert(opt_token_view(token) == tok_at(stoks, offset as int));
    }
    let result = get_value(token, instruction, arg_number, used_labels);
    match result {
        Ok(Argument::Byte(v)) => Ok(v),
        Ok(Argument::Register(_)) => Err(AssemblerError::WrongArgument),
        Err(e) => Err(e),
    }
}

/// Read three register operands, at offsets 1, 2 and 3 after the mnemonic.
fn three_reg_operands(
    toks: &Vec<Vec<char>>,
    first: usize,
    instruction: usize,
    used_labels: &mut Vec<LabelRef>,
) -> (r: Result<(u8, u8, u8), AssemblerError>)
    requires
        first <= toks@.len(),
    ensures
        r == spec_three_regs(toks.deep_view().skip(first as int), instruction as int),
        r is Ok ==> final(used_labels).deep_view() == old(used_labels).deep_view(),
{
    let a = match expect_reg(toks, first, 1, instruction, 0, used_labels) {
        Ok(v) => v,
        Err(e) => {
            return Err(e);
        },
    };
    let b = match expect_reg(toks, first, 2, instruction, 1, used_labels) {
        Ok(v) => v,
        Err(e) => {
            return Err(e);
        },
    };
    let c = match expect_reg(toks, first, 3, instruction, 2, used_labels) {
        Ok(v) => v,
        Err(e) => {
            return Err(e);
        },
    };
    Ok((a, b, c))
}

/// Read two register operands, at offsets 1 and 2 after the mnemonic.
fn two_reg_operands(
    toks: &Vec<Vec<char>>,
    first: usize,
    instruction: usize,
    used_labels: &mut Vec<LabelRef>,
) -> (r: Result<(u8, u8), AssemblerError>)
    requires
        first <= toks@.len(),
    ensures
        r == spec_two_regs(toks.deep_view().skip(first as int), instruction as int),
        r is Ok ==> final(used_labels).deep_view() == old(used_labels).deep_view(),
{
    let a = match expect_reg(toks, first, 1, instruction, 0, used_labels) {
        Ok(v) => v,
        Err(e) => {
            return Err(e);
        },
    };
    let b = match expect_reg(toks, first, 2, instruction, 1, used_labels) {
        Ok(v) => v,
        Err(e) => {
            return Err(e);
        },
    };
    Ok((a, b))
}

/// Assemble one non-blank, non-comment line against the running first-pass
/// state: define a leading label if there is one, then read the mnemonic and
/// its operands and append the instruction.
#[verifier::rlimit(100)]
fn assemble_line(
    line: &[char],
    program: &mut Vec<Instruction>,
    labels: &mut Vec<(Vec<char>, usize)>,
    used_labels: &mut Vec<LabelRef>,
) -> (r: Result<(), AssemblerError>)
    ensures
        ({
            let pre = Pass1State {
                program: old(program)@,
                labels: table_map(old(labels)@),
                uses: old(used_labels).deep_view(),
            };
            let post = Pass1State {
                program: final(program)@,
                labels: table_map(final(labels)@),
                uses: final(used_labels).deep_view(),
            };
            &&& (match r {
                Ok(_) => spec_line_step(pre, line@) == Ok::<Pass1State, AssemblerError>(post),
                Err(e) => spec_line_step(pre, line@) == Err::<Pass1State, AssemblerError>(e),
            })
            &&& final(program)@.len() <= old(program)@.len() + 1
        }),
{
    let ghost pre = Pass1State {
        program: old(program)@,
        labels: table_map(old(labels)@),
        uses: old(used_labels).deep_view(),
    };
    let toks = split_on(line, ' ');
    let ghost tv = toks.deep_view();
    proof {
        lemma_split_char_len(line@, ' ');
        assert(tv[0] == toks@[0].deep_view());
        assert(toks@[0].deep_view() =~= toks@[0]@);
    }
    let mut first: usize = 0;
    let tok0 = &toks[0];
    let has_label = tok0.len() > 0 && tok0[0] == '$';
    if has_label {
        let name = char_range(tok0.as_slice(), 1, tok0.len());
        proof {
            assert(name@ =~= tv[0].skip(1));
        }
        labels.push((name, program.len()));
        proof {
            assert(labels@.drop_last() =~= old(labels)@);
            assert(table_map(labels@) == pre.labels.insert(tv[0].skip(1), pre.program.len() as int));
        }
        if toks.len() == 1 {
            return Ok(());
        }
        first = 1;
    }
    let ghost st1 = Pass1State { labels: table_map(labels@), ..pre };
    let ghost stoks = tv.skip(first as int);
    proof {
        if first == 0 {
            assert(stoks =~= tv);
        }
        assert(spec_line_step(pre, line@) == spec_mnemonic_step(st1, stoks));
        assert(first < tv.len());
        assert(stoks[0] == tv[first as int]);
        assert(tv[first as int] == toks@[first as int].deep_view());
        assert(toks@[first as int].deep_view() =~= toks@[first as int]@);
    }
    let n = program.len();
    let parsed = match parse_instruction(&toks, first, n, used_labels) {
        Ok(ins) => ins,
        Err(e) => {
            return Err(e);
        },
    };
    program.push(parsed);
    proof {
        let stepped = spec_mnemonic_step(st1, stoks)->Ok_0;
        assert(stepped.program == program@);
        assert(stepped.uses == used_labels.deep_view());
        assert(stepped.labels == table_map(labels@));
        assert(stepped =~~= Pass1State {
            program: program@,
            labels: table_map(labels@),
            uses: used_labels.deep_view(),
        });
    }
    Ok(())
}

/// Read one instruction from the tokens of a line, starting at the mnemonic
/// token at index `first`, recording the uses of any label operands.
#[verifier::rlimit(100)]
fn parse_instruction(
    toks: &Vec<Vec<char>>,
    first: usize,
    instruction: usize,
    used_labels: &mut Vec<LabelRef>,
) -> (r: Result<Instruction, AssemblerError>)
    requires
        first < toks@.len(),
    ensures
        ({
            let parsed = spec_parse_instruction(
                toks.deep_view().skip(first as int),
                instruction as int,
            );
            match r {
                Ok(ins) => parsed matches Ok(p) && p.0 == ins && final(used_labels).deep_view()
                    == old(used_labels).deep_view() + p.1,
                Err(e) => parsed == Err::<(Instruction, Seq<LabelUse>), AssemblerError>(e),
            }
        }),
{
    let ghost stoks = toks.deep_view().skip(first as int);
    proof {
        assert(stoks[0] == toks.deep_view()[first as int]);
        assert(toks@[first as int].deep_view() =~= toks@[first as int]@);
        assert(old(used_labels).deep_view() + Seq::<LabelUse>::empty() =~= old(
            used_labels,
        ).deep_view());
    }
    let n = instruction;
    let mnemonic = toks[first].as_slice();
    if token_is(mnemonic, "LOAD") {
        let a = match expect_reg(toks, first, 1, n, 0, used_labels) {
            Ok(v) => v,
            Err(e) => {
                return Err(e);
            },
        };
        let v = match expect_byte(toks, first, 2, n, 1, used_labels) {
            Ok(v) => v,
            Err(e) => {
                return Err(e);
            },
        };
        return Ok(Instruction::Load(a, v));
    }
    if token_is(mnemonic, "ADD") {
        let t = match three_reg_operands(toks, first, n, used_labels) {
            Ok(v) => v,
            Err(e) => {
                return Err(e);
            },
        };
        return Ok(Instruction::Add(t.0, t.1, t.2));
    }
    if token_is(mnemonic, "SUB") {
        let t = match three_reg_operands(toks, first, n, used_labels) {
            Ok(v) => v,
            Err(e) => {
                return Err(e);
            },
        };
        return Ok(Instruction::Sub(t.0, t.1, t.2));
    }
    if token_is(mnemonic, "MUL") {
        let t = match three_reg_operands(toks, first, n, used_labels) {
            Ok(v) => v,
            Err(e) => {
                return Err(e);
            },
        };
        return Ok(Instruction::Mul(t.0, t.1, t.2));
    }
    if token_is(mnemonic, "DIV") {
        let t = match three_reg_operands(toks, first, n, used_labels) {
            Ok(v) => v,
            Err(e) => {
                return Err(e);
            },
        };
        return Ok(Instruction::Div(t.0, t.1, t.2));
    }
    if token_is(mnemonic, "CMP") {
        let t = match three_reg_operands(toks, first, n, used_labels) {
            Ok(v) => v,
            Err(e) => {
                return Err(e);
            },
        };
        return Ok(Instruction::Cmp(t.0, t.1, t.2));
    }
    if token_is(mnemonic, "SPUSH") {
        let t = match three_reg_operands(toks, first, n, used_labels) {
            Ok(v) => v,
            Err(e) => {
                return Err(e);
            },
        };
        return Ok(Instruction::SPush(t.0, t.1, t.2));
    }
    if token_is(mnemonic, "SCOPY") {
        let t = match three_reg_operands(toks, first, n, used_labels) {
            Ok(v) => v,
            Err(e) => {
                return Err(e);
            },
        };
        return Ok(Instruction::SCopy(t.0, t.1, t.2));
    }
    if token_is(mnemonic, "SPOP") {
        let t = match three_reg_operands(toks, first, n, used_labels) {
            Ok(v) => v,
            Err(e) => {
                return Err(e);
            },
        };
        return Ok(Instruction::SPop(t.0, t.1, t.2));
    }
    if token_is(mnemonic, "SREP") {
        let t = match three_reg_operands(toks, first, n, used_labels) {
            Ok(v) => v,
            Err(e) => {
                return Err(e);
            },
        };
        return Ok(Instruction::SRep(t.0, t.1, t.2));
    }
    if token_is(mnemonic, "REQ") {
        let t = match two_reg_operands(toks, first, n, used_labels) {
            Ok(v) => v,
            Err(e) => {
                return Err(e);
            },
        };
        return Ok(Instruction::REq(t.0, t.1));
    }
    if token_is(mnemonic, "EQ") {
        let a = match expect_reg(toks, first, 1, n, 0, used_labels) {
            Ok(v) => v,
            Err(e) => {
                return Err(e);
            },
        };
        let v = match expect_byte(toks, first, 2, n, 1, used_labels) {
            Ok(v) => v,
            Err(e) => {
                return Err(e);
            },
        };
        return Ok(Instruction::Eq(a, v));
    }
    if token_is(mnemonic, "JUMP16") {
        let hi = match expect_byte(toks, first, 1, n, 0, used_labels) {
            Ok(v) => v,
            Err(e) => {
                return Err(e);
            },
        };
        let lo = match expect_byte(toks, first, 2, n, 1, used_labels) {
            Ok(v) => v,
            Err(e) => {
                return Err(e);
            },
        };
        return Ok(Instruction::Jump16(hi, lo));
    }
    if token_is(mnemonic, "RJUMP16") {
        let t = match two_reg_operands(toks, first, n, used_labels) {
            Ok(v) => v,
            Err(e) => {
                return Err(e);
            },
        };
        return Ok(Instruction::RJump16(t.0, t.1));
    }
    if token_is(mnemonic, "HALT") {
        return Ok(Instruction::Halt());
    }
    Err(AssemblerError::UnknownInstruction)
}

/// A register operand that parsed is in range: registers are written as one
/// hexadecimal digit, so their indices are 0 to 15.
pub proof fn lemma_expect_reg_range(toks: Seq<Seq<char>>, idx: int, n: int)
    ensures
        spec_expect_reg(toks, idx, n) matches Ok(r) ==> r < 16,
{
}

/// Every instruction the parser accepts is well-formed: its register
/// operands name one of the 16 registers.
pub proof fn lemma_parse_instruction_wf(toks: Seq<Seq<char>>, n: int)
    ensures
        spec_parse_instruction(toks, n) matches Ok(p) ==> p.0.wf(),
{
    lemma_expect_reg_range(toks, 1, n);
    lemma_expect_reg_range(toks, 2, n);
    lemma_expect_reg_range(toks, 3, n);
}

/// One line keeps the whole emitted program well-formed.
pub proof fn lemma_line_step_wf(st: Pass1State, line: Seq<char>)
    requires
        forall|i: int| 0 <= i < st.program.len() ==> (#[trigger] st.program[i]).wf(),
    ensures
        spec_line_step(st, line) matches Ok(st2) ==> forall|i: int|
            0 <= i < st2.program.len() ==> (#[trigger] st2.program[i]).wf(),
{
    let toks = split_char(line, ' ');
    let has_label = toks[0].len() >= 1 && toks[0][0] == '$';
    if has_label && toks.len() == 1 {
    } else if has_label {
        lemma_parse_instruction_wf(toks.skip(1), st.program.len() as int);
    } else {
        lemma_parse_instruction_wf(toks, st.program.len() as int);
    }
}

/// The first pass keeps the whole emitted program well-formed.
pub proof fn lemma_pass1_wf(lines: Seq<Seq<char>>, st: Pass1State)
    requires
        forall|i: int| 0 <= i < st.program.len() ==> (#[trigger] st.program[i]).wf(),
    ensures
        spec_pass1(lines, st) matches Ok(st2) ==> forall|i: int|
            0 <= i < st2.program.len() ==> (#[trigger] st2.program[i]).wf(),
    decreases lines.len(),
{
    if lines.len() > 0 {
        let line = strip_cr(lines[0]);
        if spec_skip_line(line) {
            lemma_pass1_wf(lines.drop_first(), st);
        } else {
            lemma_line_step_wf(st, line);
            match spec_line_step(st, line) {
                Err(_) => {},
                Ok(st2) => {
                    lemma_pass1_wf(lines.drop_first(), st2);
                },
            }
        }
    }
}

/// Patching writes only immediate-byte slots, so it preserves
/// well-formedness exactly.
pub proof fn lemma_patch_wf(ins: Instruction, slot: int, value: u8)
    ensures
        spec_patch_instruction(ins, slot, value).wf() == ins.wf(),
{
}

/// The patch pass keeps the program well-formed.
pub proof fn lemma_pass2_wf(
    program: Seq<Instruction>,
    labels: Map<Seq<char>, int>,
    uses: Seq<LabelUse>,
)
    requires
        forall|i: int| 0 <= i < program.len() ==> (#[trigger] program[i]).wf(),
    ensures
        spec_pass2(program, labels, uses) matches Ok(p) ==> forall|i: int|
            0 <= i < p.len() ==> (#[trigger] p[i]).wf(),
    decreases uses.len(),
{
    if uses.len() > 0 {
        let u = uses[0];
        if labels.contains_key(u.name) {
            let next = spec_apply_use(program, u, labels[u.name]);
            if 0 <= u.instruction < program.len() {
                lemma_patch_wf(program[u.instruction], u.slot, spec_resolved_byte(
                    labels[u.name],
                    u.selector,
                ));
            }
            assert(forall|i: int| 0 <= i < next.len() ==> (#[trigger] next[i]).wf());
            lemma_pass2_wf(next, labels, uses.drop_first());
        }
    }
}

/// Everything the assembler emits is well-formed: every register operand of
/// every instruction of an assembled program names one of the 16 registers.
pub proof fn lemma_assemble_wf(source: Seq<char>, p: Seq<Instruction>)
    requires
        spec_assemble(source) == Ok::<Seq<Instruction>, AssemblerError>(p),
    ensures
        forall|i: int| 0 <= i < p.len() ==> (#[trigger] p[i]).wf(),
{
    let init = Pass1State { program: seq![], labels: Map::empty(), uses: seq![] };
    let lines = split_char(source, '\n');
    let r1 = spec_pass1(lines, init);
    lemma_pass1_wf(lines, init);
    assert(spec_assemble(source) == (match r1 {
        Err(e) => Err::<Seq<Instruction>, AssemblerError>(e),
        Ok(st) => spec_pass2(st.program, st.labels, st.uses),
    }));
    match r1 {
        Err(_) => {},
        Ok(st) => {
            assert(forall|i: int| 0 <= i < st.program.len() ==> (#[trigger] st.program[i]).wf());
            lemma_pass2_wf(st.program, st.labels, st.uses);
            let r2 = spec_pass2(st.program, st.labels, st.uses);
            assert(r2 == Ok::<Seq<Instruction>, AssemblerError>(p));
            let q = r2->Ok_0;
            assert(q == p);
            assert(forall|i: int| 0 <= i < q.len() ==> (#[trigger] q[i]).wf());
            assert forall|i: int| 0 <= i < p.len() implies (#[trigger] p[i]).wf() by {
                assert(p[i] == q[i]);
            };
        },
    }
}

/// Whether `slot` is an operand slot of `ins` that holds an immediate byte:
/// `Load`'s value, `Eq`'s value, or either byte of `Jump16`.
pub open spec fn byte_slot(ins: Instruction, slot: int) -> bool {
    match ins {
        Instruction::Load(_, _) => slot == 1,
        Instruction::Eq(_, _) => slot == 1,
        Instruction::Jump16(_, _) => slot == 0 || slot == 1,
        _ => false,
    }
}

/// Every recorded label use points into the program, at a slot that holds an
/// immediate byte.
pub open spec fn uses_target_byte_slots(program: Seq<Instruction>, uses: Seq<LabelUse>) -> bool {
    forall|k: int|
        0 <= k < uses.len() ==> {
            let u = #[trigger] uses[k];
            0 <= u.instruction < program.len() && byte_slot(program[u.instruction], u.slot)
        }
}

/// The label uses one parsed instruction records all carry this line's
/// instruction index and target a byte slot of the parsed instruction.
pub proof fn lemma_parse_instruction_refs(toks: Seq<Seq<char>>, n: int)
    ensures
        spec_parse_instruction(toks, n) matches Ok(p) ==> forall|k: int|
            0 <= k < p.1.len() ==> (#[trigger] p.1[k]).instruction == n && byte_slot(
                p.0,
                p.1[k].slot,
            ),
{
}

/// One line preserves the byte-slot discipline of the recorded uses.
pub proof fn lemma_line_step_refs(st: Pass1State, line: Seq<char>)
    requires
        uses_target_byte_slots(st.program, st.uses),
    ensures
        spec_line_step(st, line) matches Ok(st2) ==> uses_target_byte_slots(st2.program, st2.uses),
{
    let toks = split_char(line, ' ');
    let has_label = toks[0].len() >= 1 && toks[0][0] == '$';
    if has_label && toks.len() == 1 {
    } else {
        let stoks = if has_label {
            toks.skip(1)
        } else {
            toks
        };
        let n = st.program.len() as int;
        lemma_parse_instruction_refs(stoks, n);
        match spec_parse_instruction(stoks, n) {
            Err(_) => {},
            Ok(p) => {
                let program2 = st.program.push(p.0);
                let uses2 = st.uses + p.1;
                assert forall|k: int| 0 <= k < uses2.len() implies {
                    let u = #[trigger] uses2[k];
                    0 <= u.instruction < program2.len() && byte_slot(
                        program2[u.instruction],
                        u.slot,
                    )
                } by {
                    if k < st.uses.len() {
                        assert(uses2[k] == st.uses[k]);
                        assert(program2[st.uses[k].instruction]
                            == st.program[st.uses[k].instruction]);
                    } else {
                        assert(uses2[k] == p.1[k - st.uses.len()]);
                        assert(program2[n] == p.0);
                    }
                };
            },
        }
    }
}

/// The first pass preserves the byte-slot discipline of the recorded uses.
pub proof fn lemma_pass1_refs(lines: Seq<Seq<char>>, st: Pass1State)
    requires
        uses_target_byte_slots(st.program, st.uses),
    ensures
        spec_pass1(lines, st) matches Ok(st2) ==> uses_target_byte_slots(st2.program, st2.uses),
    decreases lines.len(),
{
    if lines.len() > 0 {
        let line = strip_cr(lines[0]);
        if spec_skip_line(line) {
            lemma_pass1_refs(lines.drop_first(), st);
        } else {
            lemma_line_step_refs(st, line);
            match spec_line_step(st, line) {
                Err(_) => {},
                Ok(st2) => {
                    lemma_pass1_refs(lines.drop_first(), st2);
                },
            }
        }
    }
}

/// The assembler never records a deferred reference to a register-typed
/// slot: every reference the first pass leaves for the patch pass points at
/// an operand that holds an immediate byte — `Load`'s value, `Eq`'s value,
/// or a byte of `Jump16` — so patching never touches a register operand.
pub proof fn lemma_references_target_byte_slots(source: Seq<char>, st: Pass1State)
    requires
        spec_pass1(
            split_char(source, '\n'),
            Pass1State { program: seq![], labels: Map::empty(), uses: seq![] },
        ) == Ok::<Pass1State, AssemblerError>(st),
    ensures
        uses_target_byte_slots(st.program, st.uses),
{
    let init = Pass1State { program: seq![], labels: Map::empty(), uses: seq![] };
    lemma_pass1_refs(split_char(source, '\n'), init);
}

/// The character spelling a digit value 0 to 15, lower case.
pub open spec fn digit_char(v: int) -> char {
    if v == 0 {
        '0'
    } else if v == 1 {
        '1'
    } else if v == 2 {
        '2'
    } else if v == 3 {
        '3'
    } else if v == 4 {
        '4'
    } else if v == 5 {
        '5'
    } else if v == 6 {
        '6'
    } else if v == 7 {
        '7'
    } else if v == 8 {
        '8'
    } else if v == 9 {
        '9'
    } else if v == 10 {
        'a'
    } else if v == 11 {
        'b'
    } else if v == 12 {
        'c'
    } else if v == 13 {
        'd'
    } else if v == 14 {
        'e'
    } else {
        'f'
    }
}

/// The canonical digit string of a value in a radix, most significant digit
/// first, with no leading zeros (a lone zero for 0).
pub open spec fn spec_digits(v: int, radix: int) -> Seq<char>
    decreases v,
    when v >= 0
    via spec_digits_decreases
{
    if v < radix || radix < 2 {
        seq![digit_char(v)]
    } else {
        spec_digits(v / radix, radix) + seq![digit_char(v % radix)]
    }
}

#[via_fn]
proof fn spec_digits_decreases(v: int, radix: int) {
    if !(v < radix || radix < 2) {
        assert(0 <= v / radix < v) by (nonlinear_arith)
            requires
                v >= radix >= 2,
        ;
    }
}

/// The canonical digit string of a value reads back as exactly that value.
pub proof fn lemma_digits_round_trip(v: int, radix: int)
    requires
        0 <= v,
        2 <= radix <= 16,
    ensures
        all_digits(spec_digits(v, radix), radix),
        digits_value(spec_digits(v, radix), radix) == v,
        spec_digits(v, radix).len() >= 1,
    decreases v,
{
    if v < radix {
        let s = spec_digits(v, radix);
        assert(s =~= seq![digit_char(v)]);
        assert(s.drop_last() =~= Seq::<char>::empty());
        assert(digits_value(Seq::<char>::empty(), radix) == 0);
        assert(s.last() == digit_char(v));
        assert(digit_val(digit_char(v)) == v);
        assert(digits_value(s, radix) == digits_value(s.drop_last(), radix) * radix + digit_val(
            s.last(),
        ));
    } else {
        lemma_fundamental_div_mod(v, radix);
        lemma_mod_pos_bound(v, radix);
        assert(v / radix < v) by (nonlinear_arith)
            requires
                v >= radix >= 2,
        ;
        assert(v / radix >= 0) by (nonlinear_arith)
            requires
                v >= radix >= 2,
        ;
        lemma_digits_round_trip(v / radix, radix);
        let head = spec_digits(v / radix, radix);
        let s = spec_digits(v, radix);
        assert(s == head + seq![digit_char(v % radix)]);
        assert(s.drop_last() =~= head);
        assert(s.last() == digit_char(v % radix));
        assert(digit_val(digit_char(v % radix)) == v % radix);
        assert(digits_value(s, radix) == digits_value(s.drop_last(), radix) * radix + digit_val(
            s.last(),
        ));
        assert(digits_value(s, radix) == (v / radix) * radix + v % radix);
        assert(forall|i: int|
            0 <= i < s.len() ==> is_digit(#[trigger] s[i], radix) == (if i < head.len() {
                is_digit(head[i], radix)
            } else {
                is_digit(s.last(), radix)
            }));
    }
}

/// Valid numeral tokens round-trip regardless of base: the hexadecimal,
/// decimal and binary spellings of a byte value are all read back as exactly
/// that byte, at any instruction index.
pub proof fn lemma_numeral_round_trip(value: u8, instruction: int)
    ensures
        spec_token_value(seq!['0', 'x'] + spec_digits(value as int, 16), instruction) == Ok::<
            Argument,
            AssemblerError,
        >(Argument::Byte(value)),
        spec_token_value(seq!['0', 'd'] + spec_digits(value as int, 10), instruction) == Ok::<
            Argument,
            AssemblerError,
        >(Argument::Byte(value)),
        spec_token_value(seq!['0', 'b'] + spec_digits(value as int, 2), instruction) == Ok::<
            Argument,
            AssemblerError,
        >(Argument::Byte(value)),
{
    reveal_strlit("NEXT0");
    reveal_strlit("NEXT1");
    lemma_digits_round_trip(value as int, 16);
    lemma_digits_round_trip(value as int, 10);
    lemma_digits_round_trip(value as int, 2);
    let hex = seq!['0', 'x'] + spec_digits(value as int, 16);
    let dec = seq!['0', 'd'] + spec_digits(value as int, 10);
    let bin = seq!['0', 'b'] + spec_digits(value as int, 2);
    assert(hex[0] == '0' && hex[1] == 'x');
    assert(dec[0] == '0' && dec[1] == 'd');
    assert(bin[0] == '0' && bin[1] == 'b');
    assert(hex != "NEXT0"@ && hex != "NEXT1"@) by {
        assert(hex[0] == '0');
    };
    assert(dec != "NEXT0"@ && dec != "NEXT1"@) by {
        assert(dec[0] == '0');
    };
    assert(bin != "NEXT0"@ && bin != "NEXT1"@) by {
        assert(bin[0] == '0');
    };
    assert(hex.skip(2) =~= spec_digits(value as int, 16));
    assert(dec.skip(2) =~= spec_digits(value as int, 10));
    assert(bin.skip(2) =~= spec_digits(value as int, 2));
}

/// Label resolution is order-independent: the byte a reference resolves to
/// is a function of the final label table and the requested byte selector
/// alone, so a forward reference — one recorded before its label was defined
/// — resolves exactly like a backward reference to the same label.
pub proof fn lemma_resolution_order_independent(
    labels: Map<Seq<char>, int>,
    u1: LabelUse,
    u2: LabelUse,
)
    requires
        u1.name == u2.name,
        u1.selector == u2.selector,
        labels.contains_key(u1.name),
    ensures
        spec_resolved_byte(labels[u1.name], u1.selector) == spec_resolved_byte(
            labels[u2.name],
            u2.selector,
        ),
{
}

/// Deferred references to distinct operand slots may be resolved in either
/// order: the patched programs are equal.
pub proof fn lemma_apply_use_commutes(
    program: Seq<Instruction>,
    u1: LabelUse,
    u2: LabelUse,
    t1: int,
    t2: int,
)
    requires
        u1.instruction != u2.instruction || u1.slot != u2.slot,
    ensures
        spec_apply_use(spec_apply_use(program, u1, t1), u2, t2) == spec_apply_use(
            spec_apply_use(program, u2, t2),
            u1,
            t1,
        ),
{
    assert(spec_apply_use(spec_apply_use(program, u1, t1), u2, t2) =~= spec_apply_use(
        spec_apply_use(program, u2, t2),
        u1,
        t1,
    ));
}

/// The characters of a string slice, as a vector.
fn str_chars(s: &str) -> (chars: Vec<char>)
    ensures
        chars@ == s@,
{
    let n = s.unicode_len();
    let mut chars: Vec<char> = Vec::new();
    let mut i: usize = 0;
    while i < n
        invariant
            i <= n,
            n == s@.len(),
            chars@ =~= s@.subrange(0, i as int),
        decreases n - i,
    {
        chars.push(s.get_char(i));
        proof {
            assert(chars@ =~= s@.subrange(0, i + 1));
        }
        i = i + 1;
    }
    proof {
        assert(s@.subrange(0, s@.len() as int) =~= s@);
    }
    chars
}

/// Overwrite one operand slot of an instruction with a resolved label byte.
fn patch_instruction(ins: Instruction, slot: usize, value: u8) -> (patched: Instruction)
    ensures
        patched == spec_patch_instruction(ins, slot as int, value),
{
    match ins {
        Instruction::Load(r, _) => if slot == 1 {
            Instruction::Load(r, value)
        } else {
            ins
        },
        Instruction::Eq(r, _) => if slot == 1 {
            Instruction::Eq(r, value)
        } else {
            ins
        },
        Instruction::Jump16(hi, lo) => if slot == 0 {
            Instruction::Jump16(value, lo)
        } else if slot == 1 {
            Instruction::Jump16(hi, value)
        } else {
            ins
        },
        _ => ins,
    }
}

/// Assemble line-oriented source text into a program.
///
/// Two passes: the first reads each line — blank lines and `#` comments are
/// ignored, a leading `$name` defines a label at the next instruction index —
/// and appends one instruction per instruction line, recording a deferred
/// reference wherever a label is used as an operand. The second pass looks
/// every recorded reference up in the final label table and overwrites the
/// placeholder operand with the requested byte of the label's index, so a
/// forward reference resolves exactly like a backward one.
///
/// The first error aborts the whole assembly and the partial program is
/// discarded.
pub fn assemble(source: String) -> (result: Result<Vec<Instruction>, AssemblerError>)
    ensures
        match result {
            Ok(program) => spec_assemble(source@) == Ok::<Seq<Instruction>, AssemblerError>(
                program@,
            ) && (forall|i: int| 0 <= i < program@.len() ==> (#[trigger] program@[i]).wf()),
            Err(e) => spec_assemble(source@) == Err::<Seq<Instruction>, AssemblerError>(e),
        },
{
    let chars = str_chars(source.as_str());
    let lines = split_on(chars.as_slice(), '\n');
    let mut program: Vec<Instruction> = Vec::new();
    let mut labels: Vec<(Vec<char>, usize)> = Vec::new();
    let mut used_labels: Vec<LabelRef> = Vec::new();
    let ghost init = Pass1State { program: seq![], labels: Map::empty(), uses: seq![] };
    let ghost lv = lines.deep_view();
    proof {
        assert(program@ =~= init.program);
        assert(table_map(labels@) =~~= init.labels);
        assert(used_labels.deep_view() =~= init.uses);
        assert(lv.skip(0) =~= lv);
        assert(lv == split_char(source@, '\n'));
    }
    let mut li: usize = 0;
    while li < lines.len()
        invariant
            li <= lv.len(),
            lv == lines.deep_view(),
            lv == split_char(source@, '\n'),
            lines@.len() == lv.len(),
            program@.len() <= li,
            spec_pass1(
                lv.skip(li as int),
                Pass1State {
                    program: program@,
                    labels: table_map(labels@),
                    uses: used_labels.deep_view(),
                },
            ) == spec_pass1(
                lv,
                Pass1State { program: seq![], labels: Map::empty(), uses: seq![] },
            ),
        decreases lv.len() - li,
    {
        proof {
            assert(lv.skip(li as int).drop_first() =~= lv.skip(li + 1));
            assert(lv.skip(li as int)[0] == lv[li as int]);
            assert(lines@[li as int].deep_view() =~= lines@[li as int]@);
        }
        let raw_line = lines[li].as_slice();
        let effective_len = if raw_line.len() > 0 && raw_line[raw_line.len() - 1] == '\r' {
            raw_line.len() - 1
        } else {
            raw_line.len()
        };
        let line = char_range(raw_line, 0, effective_len);
        proof {
            assert(line@ =~= strip_cr(lv[li as int]));
        }
        let skip_line = line.len() == 0 || line[0] == '#';
        if !skip_line {
            let ghost st_before = Pass1State {
                program: program@,
                labels: table_map(labels@),
                uses: used_labels.deep_view(),
            };
            match assemble_line(line.as_slice(), &mut program, &mut labels, &mut used_labels) {
                Ok(_) => {},
                Err(e) => {
                    proof {
                        assert(spec_pass1(lv.skip(li as int), st_before) == Err::<
                            Pass1State,
                            AssemblerError,
                        >(e));
                        assert(spec_assemble(source@) == Err::<Seq<Instruction>, AssemblerError>(
                            e,
                        ));
                    }
                    return Err(e);
                },
            }
        }
        li = li + 1;
    }
    proof {
        assert(lv.skip(lv.len() as int) =~= Seq::<Seq<char>>::empty());
    }
    let ghost resolved = Pass1State {
        program: program@,
        labels: table_map(labels@),
        uses: used_labels.deep_view(),
    };
    let ghost uses = used_labels.deep_view();
    proof {
        assert(uses.skip(0) =~= uses);
        assert(spec_pass1(
            lv,
            Pass1State { program: seq![], labels: Map::empty(), uses: seq![] },
        ) == Ok::<Pass1State, AssemblerError>(resolved));
        assert(spec_assemble(source@) == spec_pass2(
            resolved.program,
            resolved.labels,
            resolved.uses,
        ));
    }
    let mut ui: usize = 0;
    while ui < used_labels.len()
        invariant
            ui <= uses.len(),
            uses == used_labels.deep_view(),
            used_labels@.len() == uses.len(),
            table_map(labels@) == resolved.labels,
            spec_assemble(source@) == spec_pass2(program@, resolved.labels, uses.skip(ui as int)),
        decreases uses.len() - ui,
    {
        proof {
            assert(uses.skip(ui as int).drop_first() =~= uses.skip(ui + 1));
            assert(uses.skip(ui as int)[0] == uses[ui as int]);
            assert(uses[ui as int] == used_labels@[ui as int].deep_view());
        }
        let target = match labels_get(&labels, used_labels[ui].name.as_slice()) {
            Option::Some(t) => t,
            Option::None => {
                proof {
                    assert(!resolved.labels.contains_key(uses[ui as int].name));
                    assert(spec_pass2(program@, resolved.labels, uses.skip(ui as int)) == Err::<
                        Seq<Instruction>,
                        AssemblerError,
                    >(AssemblerError::LabelNotFound));
                }
                return Err(AssemblerError::LabelNotFound);
            },
        };
        let value = if used_labels[ui].selector == 0 {
            ((target / 256) % 256) as u8
        } else {
            (target % 256) as u8
        };
        proof {
            assert(value == spec_resolved_byte(target as int, uses[ui as int].selector));
        }
        let ghost prev_program = program@;
        let ghost u = uses[ui as int];
        let index = used_labels[ui].instruction;
        if index < program.len() {
            let patched = patch_instruction(program[index], used_labels[ui].slot, value);
            program[index] = patched;
        }
        proof {
            assert(program@ =~= spec_apply_use(prev_program, u, target as int));
        }
        ui = ui + 1;
    }
    proof {
        assert(uses.skip(uses.len() as int) =~= Seq::<LabelUse>::empty());
        assert(spec_assemble(source@) == Ok::<Seq<Instruction>, AssemblerError>(program@));
        lemma_assemble_wf(source@, program@);
    }
    Ok(program)
}

} // verus!
