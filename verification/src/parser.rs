//! The decoder: from raw text to an instruction sequence.  Only three
//! characters carry meaning - a blank, a tab and a line break; every other
//! character is commentary.  Instructions are selected by a two- or
//! three-token prefix; integer and label payloads are runs of blank and
//! tab tokens, read as bits and ended by a line break.

use vstd::prelude::*;
use vstd::string::StrSliceExecFns;
use vstd::string::StringExecFns;

use crate::instruction::Instruction;
use crate::numtext::push_char;

verus! {

/// The three characters that carry meaning.
pub open spec fn is_token_char(c: char) -> bool {
    c == ' ' || c == '\t' || c == '\n'
}

/// The two characters that encode payload bits.
pub open spec fn is_bit_char(c: char) -> bool {
    c == ' ' || c == '\t'
}

/// A tab contributes bit 1, a blank bit 0.
pub open spec fn bit_of(c: char) -> nat {
    if c == '\t' {
        1
    } else {
        0
    }
}

/// Length of the leading run of blank and tab tokens.
pub open spec fn bit_prefix_len(s: Seq<char>) -> int
    decreases s.len(),
{
    if s.len() == 0 || !is_bit_char(s[0]) {
        0
    } else {
        1 + bit_prefix_len(s.skip(1))
    }
}

pub proof fn lemma_bit_prefix_bound(s: Seq<char>)
    ensures
        0 <= bit_prefix_len(s) <= s.len(),
    decreases s.len(),
{
    if s.len() > 0 && is_bit_char(s[0]) {
        lemma_bit_prefix_bound(s.skip(1));
    }
}

/// `bit_prefix_len` is the unique boundary: bit tokens before it, and at
/// it, if it is inside the text, something else.
pub proof fn lemma_bit_prefix_char(s: Seq<char>, k: int)
    requires
        0 <= k <= s.len(),
        forall|j: int| 0 <= j < k ==> is_bit_char(#[trigger] s[j]),
        k == s.len() || !is_bit_char(s[k]),
    ensures
        bit_prefix_len(s) == k,
    decreases s.len(),
{
    if s.len() == 0 {
    } else if k == 0 {
    } else {
        let t = s.skip(1);
        assert(forall|j: int| 0 <= j < k - 1 ==> is_bit_char(#[trigger] t[j]));
        lemma_bit_prefix_char(t, k - 1);
    }
}

/// Value of a run of bit tokens, most significant bit first.
pub open spec fn bits_val(s: Seq<char>) -> nat
    decreases s.len(),
{
    if s.len() == 0 {
        0
    } else {
        bits_val(s.drop_last()) * 2 + bit_of(s.last())
    }
}

/// The same accumulation wrapped to 32 bits, exactly as the decoder's
/// shift-left-then-or accumulator behaves.
pub open spec fn bits_val32(s: Seq<char>) -> u32
    decreases s.len(),
{
    if s.len() == 0 {
        0u32
    } else {
        vstd::wrapping::u32_specs::wrapping_add(
            vstd::wrapping::u32_specs::wrapping_mul(bits_val32(s.drop_last()), 2),
            bit_of(s.last()) as u32,
        )
    }
}

/// The signed 32-bit integer a run of bit tokens decodes to: the low 32
/// accumulated bits, reinterpreted in two's complement.
pub open spec fn int32_of_bits(s: Seq<char>) -> i32 {
    bits_val32(s) as i32
}

/// When the mathematical value of the bits fits the accumulator, the
/// wrapped accumulation equals it.
pub proof fn lemma_bits_val32_exact(s: Seq<char>)
    requires
        bits_val(s) < 0x1_0000_0000,
    ensures
        bits_val32(s) == bits_val(s),
    decreases s.len(),
{
    if s.len() > 0 {
        assert(bits_val(s.drop_last()) * 2 <= bits_val(s));
        lemma_bits_val32_exact(s.drop_last());
    }
}

/// A run of at most `s.len()` bits is worth less than two to that power.
pub open spec fn pow2n(n: nat) -> nat
    decreases n,
{
    if n == 0 {
        1
    } else {
        2 * pow2n((n - 1) as nat)
    }
}

proof fn lemma_pow2n_le(a: nat, b: nat)
    requires
        a <= b,
    ensures
        pow2n(a) <= pow2n(b),
    decreases b,
{
    if a < b {
        lemma_pow2n_le(a, (b - 1) as nat);
    }
}

/// What decoding an integer payload from token text yields: the decoded
/// value and the number of characters consumed, or the failure message.
/// A line break must end a non-empty run of bit tokens.
pub open spec fn int_field(s: Seq<char>) -> Result<(i32, int), Seq<char>> {
    let k = bit_prefix_len(s);
    if k == s.len() {
        Err("an int should terminate with a \\n"@)
    } else if s[k] != '\n' {
        Err(seq![s[k]] + " is not a valid character when trying to match an int"@)
    } else if k == 0 {
        Err("The int terminates with no data"@)
    } else {
        Ok((int32_of_bits(s.take(k)), k + 1))
    }
}

/// Reads an integer payload from the front of `input`: bit tokens
/// accumulated by shift-left-then-or, ended by a line break; returns the
/// unconsumed remainder beside the value.  Succeeds and fails exactly as
/// `int_field` describes on the input's characters.
#[verifier::loop_isolation(false)]
pub fn match_int(input: &str) -> (r: Result<(&str, i32), String>)
    ensures
        ({
            let s = input@;
            match r {
                Ok(p) => int_field(s) matches Ok(q) && p.1 == q.0 && p.0@ == s.skip(q.1),
                Err(e) => int_field(s) matches Err(m) && e@ == m,
            }
        }),
{
    let n = input.unicode_len();
    let mut i: usize = 0;
    let mut acc: u32 = 0;
    while i < n
        invariant
            0 <= i <= n,
            forall|j: int| 0 <= j < i ==> is_bit_char(#[trigger] input@[j]),
            acc == bits_val32(input@.take(i as int)),
        decreases n - i,
    {
        let c = input.get_char(i);
        if c == '\t' {
            acc = acc.wrapping_mul(2).wrapping_add(1);
            proof {
                assert(input@.take(i + 1).drop_last() =~= input@.take(i as int));
            }
            i = i + 1;
        } else if c == ' ' {
            acc = acc.wrapping_mul(2);
            proof {
                assert(input@.take(i + 1).drop_last() =~= input@.take(i as int));
                assert(vstd::wrapping::u32_specs::wrapping_add(acc, 0) == acc);
            }
            i = i + 1;
        } else if c == '\n' {
            proof {
                lemma_bit_prefix_char(input@, i as int);
            }
            if i > 0 {
                let rest = input.substring_char(i + 1, n);
                let value: i32 = #[verifier::truncate] (acc as i32);
                proof {
                    assert(rest@ =~= input@.skip(i + 1));
                }
                return Ok((rest, value));
            } else {
                return Err(String::from_str("The int terminates with no data"));
            }
        } else {
            proof {
                lemma_bit_prefix_char(input@, i as int);
            }
            let mut msg = String::new();
            push_char(&mut msg, c);
            msg.append(" is not a valid character when trying to match an int");
            proof {
                assert(msg@ =~= seq![input@[i as int]]
                    + " is not a valid character when trying to match an int"@);
            }
            return Err(msg);
        }
    }
    proof {
        lemma_bit_prefix_char(input@, n as int);
    }
    Err(String::from_str("an int should terminate with a \\n"))
}

/// The character that a group of up to eight payload bits encodes.
pub open spec fn byte_char(v: nat) -> char
    recommends
        v < 256,
{
    (v as u8) as char
}

/// The text a run of bit tokens decodes to: each complete group of eight
/// bits is one character, and a final partial group, when the run's
/// length is not a multiple of eight, is appended as one character of its
/// own bits' value.
pub open spec fn label_of_bits(s: Seq<char>) -> Seq<char>
    decreases s.len(),
{
    if s.len() == 0 {
        Seq::empty()
    } else if s.len() < 8 {
        seq![byte_char(bits_val(s))]
    } else {
        seq![byte_char(bits_val(s.take(8)))] + label_of_bits(s.skip(8))
    }
}

/// Decoding distributes over a whole number of leading groups.
pub proof fn lemma_label_append(u: Seq<char>, g: Seq<char>)
    requires
        u.len() % 8 == 0,
        0 < g.len() <= 8,
    ensures
        label_of_bits(u + g) == label_of_bits(u) + label_of_bits(g),
    decreases u.len(),
{
    if u.len() == 0 {
        assert(u + g =~= g);
        assert(label_of_bits(u) + label_of_bits(g) =~= label_of_bits(g));
    } else {
        let t = u + g;
        assert(t.len() >= 8);
        assert(t.take(8) =~= u.take(8));
        assert(t.skip(8) =~= u.skip(8) + g);
        lemma_label_append(u.skip(8), g);
        assert(label_of_bits(u) == seq![byte_char(bits_val(u.take(8)))] + label_of_bits(u.skip(8)));
        assert(label_of_bits(u) + label_of_bits(g) =~= seq![byte_char(bits_val(u.take(8)))]
            + (label_of_bits(u.skip(8)) + label_of_bits(g)));
    }
}

/// What decoding a label payload from token text yields: the decoded
/// text and the number of characters consumed, or the failure message.
/// A line break must end a non-empty run of bit tokens.
pub open spec fn str_field(s: Seq<char>) -> Result<(Seq<char>, int), Seq<char>> {
    let k = bit_prefix_len(s);
    if k == s.len() {
        Err("a string should terminate with a \\n"@)
    } else if s[k] != '\n' {
        Err(seq![s[k]] + " is not a valid character when trying to match a string"@)
    } else if k == 0 {
        Err("The string terminates with no data"@)
    } else {
        Ok((label_of_bits(s.take(k)), k + 1))
    }
}

/// Reads a label payload from the front of `input`: bit tokens taken
/// eight at a time, each completed byte one character of the result, a
/// final partial byte appended when at least one of its bits was read;
/// ended by a line break.  Succeeds and fails exactly as `str_field`
/// describes on the input's characters.
#[verifier::loop_isolation(false)]
pub fn match_string(input: &str) -> (r: Result<(&str, String), String>)
    ensures
        ({
            let s = input@;
            match r {
                Ok(p) => str_field(s) matches Ok(q) && p.1@ == q.0 && p.0@ == s.skip(q.1),
                Err(e) => str_field(s) matches Err(m) && e@ == m,
            }
        }),
{
    let n = input.unicode_len();
    let mut matched = String::new();
    let mut curr_byte: u8 = 0;
    let mut group_len: usize = 0;
    let mut i: usize = 0;
    while i < n
        invariant
            0 <= i <= n,
            group_len < 8,
            i % 8 == group_len % 8,
            group_len <= i,
            (i - group_len) % 8 == 0,
            forall|j: int| 0 <= j < i ==> is_bit_char(#[trigger] input@[j]),
            matched@ == label_of_bits(input@.take(i - group_len)),
            curr_byte == bits_val(input@.subrange(i - group_len, i as int)),
            curr_byte < pow2n(group_len as nat),
        decreases n - i,
    {
        let c = input.get_char(i);
        if c == '\t' || c == ' ' {
            let b: u8 = if c == '\t' {
                1
            } else {
                0
            };
            proof {
                assert(pow2n(group_len as nat) <= pow2n(7)) by {
                    lemma_pow2n_le(group_len as nat, 7);
                }
                assert(pow2n(7) == 128) by {
                    assert(pow2n(0) == 1);
                    assert(pow2n(1) == 2);
                    assert(pow2n(2) == 4);
                    assert(pow2n(3) == 8);
                    assert(pow2n(4) == 16);
                    assert(pow2n(5) == 32);
                    assert(pow2n(6) == 64);
                }
                assert(input@.subrange(i - group_len, i + 1).drop_last() =~= input@.subrange(
                    i - group_len,
                    i as int,
                ));
            }
            curr_byte = curr_byte.wrapping_mul(2).wrapping_add(b);
            group_len = group_len + 1;
            i = i + 1;
            if group_len == 8 {
                proof {
                    lemma_label_append(
                        input@.take(i - 8),
                        input@.subrange(i - 8, i as int),
                    );
                    assert(input@.take(i - 8) + input@.subrange(i - 8, i as int) =~= input@.take(
                        i as int,
                    ));
                    assert(input@.subrange(i - 8, i as int).take(8) =~= input@.subrange(
                        i - 8,
                        i as int,
                    ));
                    let g = input@.subrange(i - 8, i as int);
                    assert(g.len() == 8);
                    assert(g.skip(8) =~= Seq::<char>::empty());
                    assert(label_of_bits(g) == seq![byte_char(bits_val(g.take(8)))]
                        + label_of_bits(g.skip(8)));
                    assert(label_of_bits(g) =~= seq![byte_char(bits_val(g))]);
                }
                let ch: char = curr_byte as char;
                push_char(&mut matched, ch);
                curr_byte = 0;
                group_len = 0;
                proof {
                    assert(matched@ =~= label_of_bits(input@.take(i as int)));
                    assert(input@.subrange(i as int, i as int) =~= Seq::<char>::empty());
                }
            }
        } else if c == '\n' {
            proof {
                lemma_bit_prefix_char(input@, i as int);
            }
            if group_len != 0 {
                proof {
                    lemma_label_append(
                        input@.take(i - group_len),
                        input@.subrange(i - group_len, i as int),
                    );
                    assert(input@.take(i - group_len) + input@.subrange(i - group_len, i as int)
                        =~= input@.take(i as int));
                }
                let ch: char = curr_byte as char;
                push_char(&mut matched, ch);
                proof {
                    assert(matched@ =~= label_of_bits(input@.take(i as int)));
                }
            }
            if i > 0 {
                let rest = input.substring_char(i + 1, n);
                proof {
                    assert(rest@ =~= input@.skip(i + 1));
                }
                return Ok((rest, matched));
            } else {
                return Err(String::from_str("The string terminates with no data"));
            }
        } else {
            proof {
                lemma_bit_prefix_char(input@, i as int);
            }
            let mut msg = String::new();
            push_char(&mut msg, c);
            msg.append(" is not a valid character when trying to match a string");
            proof {
                assert(msg@ =~= seq![input@[i as int]]
                    + " is not a valid character when trying to match a string"@);
            }
            return Err(msg);
        }
    }
    proof {
        lemma_bit_prefix_char(input@, n as int);
    }
    Err(String::from_str("a string should terminate with a \\n"))
}

/// An instruction as a mathematical value: payloads are plain integers
/// and character sequences.
pub enum OpShape {
    Push(i32),
    Duplicate,
    CopyNth(i32),
    Swap,
    Discard,
    Slide(i32),
    Add,
    Sub,
    Mul,
    Div,
    Mod,
    Store,
    Retrieve,
    SetLabel(Seq<char>),
    CallSubroutine(Seq<char>),
    Jump(Seq<char>),
    JZero(Seq<char>),
    JNeg(Seq<char>),
    EndOfSubroutine,
    EndOfProgram,
    PrintChar,
    PrintInt,
    ReadChar,
    ReadInt,
}

/// The mathematical value of a decoded instruction.
pub open spec fn instr_shape(i: Instruction) -> OpShape {
    match i {
        Instruction::Push(v) => OpShape::Push(v),
        Instruction::Duplicate => OpShape::Duplicate,
        Instruction::CopyNth(v) => OpShape::CopyNth(v),
        Instruction::Swap => OpShape::Swap,
        Instruction::Discard => OpShape::Discard,
        Instruction::Slide(v) => OpShape::Slide(v),
        Instruction::Add => OpShape::Add,
        Instruction::Sub => OpShape::Sub,
        Instruction::Mul => OpShape::Mul,
        Instruction::Div => OpShape::Div,
        Instruction::Mod => OpShape::Mod,
        Instruction::Store => OpShape::Store,
        Instruction::Retrieve => OpShape::Retrieve,
        Instruction::SetLabel(l) => OpShape::SetLabel(l@),
        Instruction::CallSubroutine(l) => OpShape::CallSubroutine(l@),
        Instruction::Jump(l) => OpShape::Jump(l@),
        Instruction::JZero(l) => OpShape::JZero(l@),
        Instruction::JNeg(l) => OpShape::JNeg(l@),
        Instruction::EndOfSubroutine => OpShape::EndOfSubroutine,
        Instruction::EndOfProgram => OpShape::EndOfProgram,
        Instruction::PrintChar => OpShape::PrintChar,
        Instruction::PrintInt => OpShape::PrintInt,
        Instruction::ReadChar => OpShape::ReadChar,
        Instruction::ReadInt => OpShape::ReadInt,
    }
}

pub open spec fn unexpected_char_msg(c: char) -> Seq<char> {
    seq![c] + " is an unexpected character"@
}

pub open spec fn end_of_input_msg() -> Seq<char> {
    "unexpected end of input"@
}

/// Lifts an integer payload decode to an instruction decode: `p` tokens
/// of prefix were already consumed.
pub open spec fn with_int_payload(
    s: Seq<char>,
    p: int,
    make: spec_fn(i32) -> OpShape,
) -> Result<(OpShape, int), Seq<char>> {
    match int_field(s.skip(p)) {
        Ok(q) => Ok((make(q.0), p + q.1)),
        Err(m) => Err(m),
    }
}

/// Lifts a label payload decode to an instruction decode.
pub open spec fn with_str_payload(
    s: Seq<char>,
    p: int,
    make: spec_fn(Seq<char>) -> OpShape,
) -> Result<(OpShape, int), Seq<char>> {
    match str_field(s.skip(p)) {
        Ok(q) => Ok((make(q.0), p + q.1)),
        Err(m) => Err(m),
    }
}

/// The instruction grammar: a two- or three-token prefix selects the
/// operation - a leading blank for the stack family, a tab for
/// arithmetic, memory and input/output, a line break for control flow -
/// and operand-bearing operations read their payload after the prefix.
/// The result carries the decoded instruction and how many characters it
/// consumed, or the failure message.
pub open spec fn instr_decode(s: Seq<char>) -> Result<(OpShape, int), Seq<char>> {
    if s.len() < 1 {
        Err(end_of_input_msg())
    } else if s[0] == ' ' {
        if s.len() < 2 {
            Err(end_of_input_msg())
        } else if s[1] == ' ' {
            with_int_payload(s, 2, |v: i32| OpShape::Push(v))
        } else if s[1] == '\n' {
            if s.len() < 3 {
                Err(end_of_input_msg())
            } else if s[2] == ' ' {
                Ok((OpShape::Duplicate, 3))
            } else if s[2] == '\t' {
                Ok((OpShape::Swap, 3))
            } else if s[2] == '\n' {
                Ok((OpShape::Discard, 3))
            } else {
                Err(unexpected_char_msg(s[2]))
            }
        } else if s[1] == '\t' {
            if s.len() < 3 {
                Err(end_of_input_msg())
            } else if s[2] == ' ' {
                with_int_payload(s, 3, |v: i32| OpShape::CopyNth(v))
            } else if s[2] == '\n' {
                with_int_payload(s, 3, |v: i32| OpShape::Slide(v))
            } else {
                Err(unexpected_char_msg(s[2]))
            }
        } else {
            Err(unexpected_char_msg(s[1]))
        }
    } else if s[0] == '\t' {
        if s.len() < 2 {
            Err(end_of_input_msg())
        } else if s[1] == ' ' {
            if s.len() < 3 {
                Err(end_of_input_msg())
            } else if s[2] == ' ' {
                if s.len() < 4 {
                    Err(end_of_input_msg())
                } else if s[3] == ' ' {
                    Ok((OpShape::Add, 4))
                } else if s[3] == '\t' {
                    Ok((OpShape::Sub, 4))
                } else if s[3] == '\n' {
                    Ok((OpShape::Mul, 4))
                } else {
                    Err(unexpected_char_msg(s[3]))
                }
            } else if s[2] == '\t' {
                if s.len() < 4 {
                    Err(end_of_input_msg())
                } else if s[3] == ' ' {
                    Ok((OpShape::Div, 4))
                } else if s[3] == '\t' {
                    Ok((OpShape::Mod, 4))
                } else {
                    Err(unexpected_char_msg(s[3]))
                }
            } else {
                Err(unexpected_char_msg(s[2]))
            }
        } else if s[1] == '\t' {
            if s.len() < 3 {
                Err(end_of_input_msg())
            } else if s[2] == ' ' {
                Ok((OpShape::Store, 3))
            } else if s[2] == '\t' {
                Ok((OpShape::Retrieve, 3))
            } else {
                Err(unexpected_char_msg(s[2]))
            }
        } else if s[1] == '\n' {
            if s.len() < 3 {
                Err(end_of_input_msg())
            } else if s[2] == ' ' {
                if s.len() < 4 {
                    Err(end_of_input_msg())
                } else if s[3] == ' ' {
                    Ok((OpShape::PrintChar, 4))
                } else if s[3] == '\t' {
                    Ok((OpShape::PrintInt, 4))
                } else {
                    Err(unexpected_char_msg(s[3]))
                }
            } else if s[2] == '\t' {
                if s.len() < 4 {
                    Err(end_of_input_msg())
                } else if s[3] == ' ' {
                    Ok((OpShape::ReadChar, 4))
                } else if s[3] == '\t' {
                    Ok((OpShape::ReadInt, 4))
                } else {
                    Err(unexpected_char_msg(s[3]))
                }
            } else {
                Err(unexpected_char_msg(s[2]))
            }
        } else {
            Err(unexpected_char_msg(s[1]))
        }
    } else if s[0] == '\n' {
        if s.len() < 2 {
            Err(end_of_input_msg())
        } else if s[1] == ' ' {
            if s.len() < 3 {
                Err(end_of_input_msg())
            } else if s[2] == ' ' {
                with_str_payload(s, 3, |l: Seq<char>| OpShape::SetLabel(l))
            } else if s[2] == '\t' {
                with_str_payload(s, 3, |l: Seq<char>| OpShape::CallSubroutine(l))
            } else if s[2] == '\n' {
                with_str_payload(s, 3, |l: Seq<char>| OpShape::Jump(l))
            } else {
                Err(unexpected_char_msg(s[2]))
            }
        } else if s[1] == '\n' {
            if s.len() < 3 {
                Err(end_of_input_msg())
            } else if s[2] == '\n' {
                Ok((OpShape::EndOfProgram, 3))
            } else {
                Err(unexpected_char_msg(s[2]))
            }
        } else if s[1] == '\t' {
            if s.len() < 3 {
                Err(end_of_input_msg())
            } else if s[2] == ' ' {
                with_str_payload(s, 3, |l: Seq<char>| OpShape::JZero(l))
            } else if s[2] == '\t' {
                with_str_payload(s, 3, |l: Seq<char>| OpShape::JNeg(l))
            } else if s[2] == '\n' {
                Ok((OpShape::EndOfSubroutine, 3))
            } else {
                Err(unexpected_char_msg(s[2]))
            }
        } else {
            Err(unexpected_char_msg(s[1]))
        }
    } else {
        Err(unexpected_char_msg(s[0]))
    }
}

fn unexpected_char_err(c: char) -> (e: String)
    ensures
        e@ == unexpected_char_msg(c),
{
    let mut msg = String::new();
    push_char(&mut msg, c);
    msg.append(" is an unexpected character");
    proof {
        assert(msg@ =~= unexpected_char_msg(c));
    }
    msg
}

fn end_of_input_err() -> (e: String)
    ensures
        e@ == end_of_input_msg(),
{
    String::from_str("unexpected end of input")
}

/// Decodes the stack-manipulation family, the instructions whose prefix
/// starts with a blank token.
fn parse_start_space<'a>(ws_program: &'a str) -> (r: Result<(&'a str, Instruction), String>)
    requires
        ws_program@.len() >= 1,
        ws_program@[0] == ' ',
    ensures
        ({
            let s = ws_program@;
            match r {
                Ok(p) => instr_decode(s) matches Ok(q) && instr_shape(p.1) == q.0 && p.0@
                    == s.skip(q.1),
                Err(e) => instr_decode(s) matches Err(m) && e@ == m,
            }
        }),
{
    let n = ws_program.unicode_len();
    if n < 2 {
        return Err(end_of_input_err());
    }
    let c1 = ws_program.get_char(1);
    if c1 == ' ' {
        let tail = ws_program.substring_char(2, n);
        proof {
            assert(tail@ =~= ws_program@.skip(2));
        }
        match match_int(tail) {
            Ok(p) => {
                proof {
                    lemma_bit_prefix_bound(ws_program@.skip(2));
                    let used = int_field(ws_program@.skip(2))->Ok_0.1;
                    assert(ws_program@.skip(2).skip(used) =~= ws_program@.skip(2 + used));
                }
                Ok((p.0, Instruction::Push(p.1)))
            },
            Err(e) => Err(e),
        }
    } else if c1 == '\n' {
        if n < 3 {
            return Err(end_of_input_err());
        }
        let c2 = ws_program.get_char(2);
        if c2 == ' ' {
            let rest = ws_program.substring_char(3, n);
            proof {
                assert(rest@ =~= ws_program@.skip(3));
            }
            Ok((rest, Instruction::Duplicate))
        } else if c2 == '\t' {
            let rest = ws_program.substring_char(3, n);
            proof {
                assert(rest@ =~= ws_program@.skip(3));
            }
            Ok((rest, Instruction::Swap))
        } else if c2 == '\n' {
            let rest = ws_program.substring_char(3, n);
            proof {
                assert(rest@ =~= ws_program@.skip(3));
            }
            Ok((rest, Instruction::Discard))
        } else {
            Err(unexpected_char_err(c2))
        }
    } else if c1 == '\t' {
        if n < 3 {
            return Err(end_of_input_err());
        }
        let c2 = ws_program.get_char(2);
        if c2 == ' ' {
            let tail = ws_program.substring_char(3, n);
            proof {
                assert(tail@ =~= ws_program@.skip(3));
            }
            match match_int(tail) {
                Ok(p) => {
                    proof {
                        lemma_bit_prefix_bound(ws_program@.skip(3));
                        let used = int_field(ws_program@.skip(3))->Ok_0.1;
                        assert(ws_program@.skip(3).skip(used) =~= ws_program@.skip(3 + used));
                    }
                    Ok((p.0, Instruction::CopyNth(p.1)))
                },
                Err(e) => Err(e),
            }
        } else if c2 == '\n' {
            let tail = ws_program.substring_char(3, n);
            proof {
                assert(tail@ =~= ws_program@.skip(3));
            }
            match match_int(tail) {
                Ok(p) => {
                    proof {
                        lemma_bit_prefix_bound(ws_program@.skip(3));
                        let used = int_field(ws_program@.skip(3))->Ok_0.1;
                        assert(ws_program@.skip(3).skip(used) =~= ws_program@.skip(3 + used));
                    }
                    Ok((p.0, Instruction::Slide(p.1)))
                },
                Err(e) => Err(e),
            }
        } else {
            Err(unexpected_char_err(c2))
        }
    } else {
        Err(unexpected_char_err(c1))
    }
}

/// Decodes one instruction from the front of the token text and returns
/// it beside the unconsumed remainder, exactly as `instr_decode`
/// describes.
pub fn parse_instruction<'a>(ws_program: &'a str) -> (r: Result<(&'a str, Instruction), String>)
    ensures
        ({
            let s = ws_program@;
            match r {
                Ok(p) => instr_decode(s) matches Ok(q) && instr_shape(p.1) == q.0 && p.0@
                    == s.skip(q.1),
                Err(e) => instr_decode(s) matches Err(m) && e@ == m,
            }
        }),
{
    let n = ws_program.unicode_len();
    if n < 1 {
        return Err(end_of_input_err());
    }
    let c0 = ws_program.get_char(0);
    if c0 == ' ' {
        parse_start_space(ws_program)
    } else if c0 == '\t' {
        if n < 2 {
            return Err(end_of_input_err());
        }
        let c1 = ws_program.get_char(1);
        if c1 == ' ' {
            if n < 3 {
                return Err(end_of_input_err());
            }
            let c2 = ws_program.get_char(2);
            if c2 == ' ' {
                if n < 4 {
                    return Err(end_of_input_err());
                }
                let c3 = ws_program.get_char(3);
                let rest = ws_program.substring_char(4, n);
                proof {
                    assert(rest@ =~= ws_program@.skip(4));
                }
                if c3 == ' ' {
                    Ok((rest, Instruction::Add))
                } else if c3 == '\t' {
                    Ok((rest, Instruction::Sub))
                } else if c3 == '\n' {
                    Ok((rest, Instruction::Mul))
                } else {
                    Err(unexpected_char_err(c3))
                }
            } else if c2 == '\t' {
                if n < 4 {
                    return Err(end_of_input_err());
                }
                let c3 = ws_program.get_char(3);
                let rest = ws_program.substring_char(4, n);
                proof {
                    assert(rest@ =~= ws_program@.skip(4));
                }
                if c3 == ' ' {
                    Ok((rest, Instruction::Div))
                } else if c3 == '\t' {
                    Ok((rest, Instruction::Mod))
                } else {
                    Err(unexpected_char_err(c3))
                }
            } else {
                Err(unexpected_char_err(c2))
            }
        } else if c1 == '\t' {
            if n < 3 {
                return Err(end_of_input_err());
            }
            let c2 = ws_program.get_char(2);
            let rest = ws_program.substring_char(3, n);
            proof {
                assert(rest@ =~= ws_program@.skip(3));
            }
            if c2 == ' ' {
                Ok((rest, Instruction::Store))
            } else if c2 == '\t' {
                Ok((rest, Instruction::Retrieve))
            } else {
                Err(unexpected_char_err(c2))
            }
        } else if c1 == '\n' {
            if n < 3 {
                return Err(end_of_input_err());
            }
            let c2 = ws_program.get_char(2);
            if c2 == ' ' {
                if n < 4 {
                    return Err(end_of_input_err());
                }
                let c3 = ws_program.get_char(3);
                let rest = ws_program.substring_char(4, n);
                proof {
                    assert(rest@ =~= ws_program@.skip(4));
                }
                if c3 == ' ' {
                    Ok((rest, Instruction::PrintChar))
                } else if c3 == '\t' {
                    Ok((rest, Instruction::PrintInt))
                } else {
                    Err(unexpected_char_err(c3))
                }
            } else if c2 == '\t' {
                if n < 4 {
                    return Err(end_of_input_err());
                }
                let c3 = ws_program.get_char(3);
                let rest = ws_program.substring_char(4, n);
                proof {
                    assert(rest@ =~= ws_program@.skip(4));
                }
                if c3 == ' ' {
                    Ok((rest, Instruction::ReadChar))
                } else if c3 == '\t' {
                    Ok((rest, Instruction::ReadInt))
                } else {
                    Err(unexpected_char_err(c3))
                }
            } else {
                Err(unexpected_char_err(c2))
            }
        } else {
            Err(unexpected_char_err(c1))
        }
    } else if c0 == '\n' {
        if n < 2 {
            return Err(end_of_input_err());
        }
        let c1 = ws_program.get_char(1);
        if c1 == ' ' {
            if n < 3 {
                return Err(end_of_input_err());
            }
            let c2 = ws_program.get_char(2);
            if c2 == ' ' || c2 == '\t' || c2 == '\n' {
                let tail = ws_program.substring_char(3, n);
                proof {
                    assert(tail@ =~= ws_program@.skip(3));
                }
                match match_string(tail) {
                    Ok(p) => {
                        proof {
                            lemma_bit_prefix_bound(ws_program@.skip(3));
                            let used = str_field(ws_program@.skip(3))->Ok_0.1;
                            assert(ws_program@.skip(3).skip(used) =~= ws_program@.skip(3 + used));
                        }
                        if c2 == ' ' {
                            Ok((p.0, Instruction::SetLabel(p.1)))
                        } else if c2 == '\t' {
                            Ok((p.0, Instruction::CallSubroutine(p.1)))
                        } else {
                            Ok((p.0, Instruction::Jump(p.1)))
                        }
                    },
                    Err(e) => Err(e),
                }
            } else {
                Err(unexpected_char_err(c2))
            }
        } else if c1 == '\n' {
            if n < 3 {
                return Err(end_of_input_err());
            }
            let c2 = ws_program.get_char(2);
            if c2 == '\n' {
                let rest = ws_program.substring_char(3, n);
                proof {
                    assert(rest@ =~= ws_program@.skip(3));
                }
                Ok((rest, Instruction::EndOfProgram))
            } else {
                Err(unexpected_char_err(c2))
            }
        } else if c1 == '\t' {
            if n < 3 {
                return Err(end_of_input_err());
            }
            let c2 = ws_program.get_char(2);
            if c2 == ' ' || c2 == '\t' {
                let tail = ws_program.substring_char(3, n);
                proof {
                    assert(tail@ =~= ws_program@.skip(3));
                }
                match match_string(tail) {
                    Ok(p) => {
                        proof {
                            lemma_bit_prefix_bound(ws_program@.skip(3));
                            let used = str_field(ws_program@.skip(3))->Ok_0.1;
                            assert(ws_program@.skip(3).skip(used) =~= ws_program@.skip(3 + used));
                        }
                        if c2 == ' ' {
                            Ok((p.0, Instruction::JZero(p.1)))
                        } else {
                            Ok((p.0, Instruction::JNeg(p.1)))
                        }
                    },
                    Err(e) => Err(e),
                }
            } else if c2 == '\n' {
                let rest = ws_program.substring_char(3, n);
                proof {
                    assert(rest@ =~= ws_program@.skip(3));
                }
                Ok((rest, Instruction::EndOfSubroutine))
            } else {
                Err(unexpected_char_err(c2))
            }
        } else {
            Err(unexpected_char_err(c1))
        }
    } else {
        Err(unexpected_char_err(c0))
    }
}

/// A token: one of the three meaningful characters, classified.
#[derive(PartialEq, Eq, Structural, Debug)]
pub enum Token {
    Whitspace,
    Tab,
    LineFeed,
}

/// The token a meaningful character stands for.
pub open spec fn token_of(c: char) -> Token
    recommends
        is_token_char(c),
{
    if c == ' ' {
        Token::Whitspace
    } else if c == '\t' {
        Token::Tab
    } else {
        Token::LineFeed
    }
}

/// The token sequence of a text: meaningful characters classified in
/// order, all others dropped.
pub open spec fn tokens_of(s: Seq<char>) -> Seq<Token>
    decreases s.len(),
{
    if s.len() == 0 {
        Seq::empty()
    } else {
        (if is_token_char(s[0]) {
            seq![token_of(s[0])]
        } else {
            Seq::empty()
        }) + tokens_of(s.skip(1))
    }
}

proof fn lemma_tokens_of_push(s: Seq<char>, c: char)
    ensures
        tokens_of(s.push(c)) == tokens_of(s) + (if is_token_char(c) {
            seq![token_of(c)]
        } else {
            Seq::<Token>::empty()
        }),
    decreases s.len(),
{
    if s.len() == 0 {
        assert(s.push(c).len() == 1);
        assert(s.push(c)[0] == c);
        assert(s.push(c).skip(1) =~= Seq::<char>::empty());
        assert(tokens_of(s.push(c)) == (if is_token_char(s.push(c)[0]) {
            seq![token_of(s.push(c)[0])]
        } else {
            Seq::<Token>::empty()
        }) + tokens_of(s.push(c).skip(1)));
        assert(tokens_of(Seq::<char>::empty()) == Seq::<Token>::empty());
        assert(tokens_of(s.push(c)) =~= tokens_of(s) + (if is_token_char(c) {
            seq![token_of(c)]
        } else {
            Seq::<Token>::empty()
        }));
    } else {
        assert(s.push(c)[0] == s[0]);
        assert(s.push(c).skip(1) =~= s.skip(1).push(c));
        lemma_tokens_of_push(s.skip(1), c);
        assert(tokens_of(s.push(c)) =~= tokens_of(s) + (if is_token_char(c) {
            seq![token_of(c)]
        } else {
            Seq::<Token>::empty()
        }));
    }
}

/// Classifies the meaningful characters of the text, in order, dropping
/// everything else.
#[verifier::loop_isolation(false)]
pub fn tokenize(ws_program: &str) -> (tokens: Vec<Token>)
    ensures
        tokens@ == tokens_of(ws_program@),
{
    let n = ws_program.unicode_len();
    let mut tokens: Vec<Token> = Vec::new();
    let mut i: usize = 0;
    while i < n
        invariant
            0 <= i <= n,
            tokens@ == tokens_of(ws_program@.take(i as int)),
        decreases n - i,
    {
        let c = ws_program.get_char(i);
        proof {
            assert(ws_program@.take(i as int).push(c) =~= ws_program@.take(i + 1));
            lemma_tokens_of_push(ws_program@.take(i as int), c);
        }
        if c == ' ' {
            tokens.push(Token::Whitspace);
        } else if c == '\t' {
            tokens.push(Token::Tab);
        } else if c == '\n' {
            tokens.push(Token::LineFeed);
        }
        proof {
            assert(tokens@ =~= tokens_of(ws_program@.take(i + 1)));
        }
        i = i + 1;
    }
    proof {
        assert(ws_program@.take(n as int) =~= ws_program@);
    }
    tokens
}

/// The meaningful characters of a text, in order; the only comment
/// mechanism is dropping everything else.
pub open spec fn filter_tokens(s: Seq<char>) -> Seq<char>
    decreases s.len(),
{
    if s.len() == 0 {
        Seq::empty()
    } else {
        (if is_token_char(s[0]) {
            seq![s[0]]
        } else {
            Seq::empty()
        }) + filter_tokens(s.skip(1))
    }
}

proof fn lemma_filter_tokens_push(s: Seq<char>, c: char)
    ensures
        filter_tokens(s.push(c)) == filter_tokens(s) + (if is_token_char(c) {
            seq![c]
        } else {
            Seq::<char>::empty()
        }),
    decreases s.len(),
{
    if s.len() == 0 {
        assert(s.push(c).len() == 1);
        assert(s.push(c)[0] == c);
        assert(s.push(c).skip(1) =~= Seq::<char>::empty());
        assert(filter_tokens(s.push(c)) == (if is_token_char(s.push(c)[0]) {
            seq![s.push(c)[0]]
        } else {
            Seq::<char>::empty()
        }) + filter_tokens(s.push(c).skip(1)));
        assert(filter_tokens(Seq::<char>::empty()) == Seq::<char>::empty());
        assert(filter_tokens(s.push(c)) =~= filter_tokens(s) + (if is_token_char(c) {
            seq![c]
        } else {
            Seq::<char>::empty()
        }));
    } else {
        assert(s.push(c)[0] == s[0]);
        assert(s.push(c).skip(1) =~= s.skip(1).push(c));
        lemma_filter_tokens_push(s.skip(1), c);
        assert(filter_tokens(s.push(c)) =~= filter_tokens(s) + (if is_token_char(c) {
            seq![c]
        } else {
            Seq::<char>::empty()
        }));
    }
}

/// A successful instruction decode consumes at least one character and
/// no more than the text it was given.
pub proof fn lemma_instr_decode_used(s: Seq<char>)
    ensures
        instr_decode(s) matches Ok(q) ==> 1 <= q.1 <= s.len(),
{
    if s.len() >= 2 {
        lemma_bit_prefix_bound(s.skip(2));
    }
    if s.len() >= 3 {
        lemma_bit_prefix_bound(s.skip(3));
    }
}

/// What decoding a whole token text yields: the instruction sequence, or
/// nothing when some instruction fails to decode.  Decoding applies the
/// instruction grammar repeatedly until the text is exhausted.
pub open spec fn program_decode(toks: Seq<char>) -> Option<Seq<OpShape>>
    decreases toks.len(),
{
    if toks.len() == 0 {
        Some(Seq::empty())
    } else {
        match instr_decode(toks) {
            Err(_) => None,
            Ok(q) => if 1 <= q.1 <= toks.len() {
                match program_decode(toks.skip(q.1)) {
                    None => None,
                    Some(rest) => Some(seq![q.0] + rest),
                }
            } else {
                None
            },
        }
    }
}

/// The mathematical values of a decoded instruction sequence.
pub open spec fn shapes_of(instrs: Seq<Instruction>) -> Seq<OpShape> {
    instrs.map_values(|ins: Instruction| instr_shape(ins))
}

/// Decodes a whole program: the text is filtered down to its meaningful
/// characters, then instructions are decoded one after another until the
/// text is exhausted; the first failure aborts the whole parse.
#[verifier::loop_isolation(false)]
pub fn parse_program(ws_program: &str) -> (r: Result<Vec<Instruction>, &str>)
    ensures
        ({
            let d = program_decode(filter_tokens(ws_program@));
            match r {
                Ok(instrs) => d matches Some(shapes) && shapes_of(instrs@) == shapes,
                Err(e) => d is None && e@ == "unable to parse the current instruction"@,
            }
        }),
{
    let n = ws_program.unicode_len();
    let mut filtered = String::new();
    let mut i: usize = 0;
    while i < n
        invariant
            0 <= i <= n,
            filtered@ == filter_tokens(ws_program@.take(i as int)),
        decreases n - i,
    {
        let c = ws_program.get_char(i);
        proof {
            assert(ws_program@.take(i as int).push(c) =~= ws_program@.take(i + 1));
            lemma_filter_tokens_push(ws_program@.take(i as int), c);
        }
        if c == ' ' || c == '\t' || c == '\n' {
            push_char(&mut filtered, c);
        }
        proof {
            assert(filtered@ =~= filter_tokens(ws_program@.take(i + 1)));
        }
        i = i + 1;
    }
    proof {
        assert(ws_program@.take(n as int) =~= ws_program@);
    }
    let ghost full = filtered@;
    let mut instructions: Vec<Instruction> = Vec::new();
    let mut remaining: &str = filtered.as_str();
    while !remaining.is_empty()
        invariant
            program_decode(full) == (match program_decode(remaining@) {
                None => None::<Seq<OpShape>>,
                Some(rest) => Some(shapes_of(instructions@) + rest),
            }),
        decreases remaining@.len(),
    {
        let ghost before = remaining@;
        let result = parse_instruction(remaining);
        match result {
            Ok(p) => {
                proof {
                    lemma_instr_decode_used(before);
                    let q = instr_decode(before)->Ok_0;
                    if program_decode(before.skip(q.1)) is Some {
                        assert(shapes_of(instructions@.push(p.1)) =~= shapes_of(instructions@)
                            + seq![instr_shape(p.1)]);
                        assert((shapes_of(instructions@) + seq![q.0]) + program_decode(
                            before.skip(q.1),
                        )->Some_0 =~= shapes_of(instructions@) + (seq![q.0] + program_decode(
                            before.skip(q.1),
                        )->Some_0));
                    }
                }
                remaining = p.0;
                instructions.push(p.1);
            },
            Err(_) => {
                return Err("unable to parse the current instruction");
            },
        }
    }
    proof {
        assert(program_decode(remaining@) == Some(Seq::<OpShape>::empty()));
        assert(shapes_of(instructions@) + Seq::<OpShape>::empty() =~= shapes_of(instructions@));
    }
    Ok(instructions)
}

/// Law: a payload field decodes from exactly its own tokens.  Decoding
/// the text `field ++ line break ++ rest` consumes the field and its
/// terminator, yields the field's value, and leaves `rest` as the exact
/// remainder, whatever `rest` holds.
pub proof fn lemma_field_prefix(field: Seq<char>, rest: Seq<char>)
    requires
        field.len() > 0,
        forall|i: int| 0 <= i < field.len() ==> is_bit_char(#[trigger] field[i]),
    ensures
        ({
            let s = field + seq!['\n'] + rest;
            int_field(s) == Ok::<(i32, int), Seq<char>>((int32_of_bits(field), field.len() as int + 1))
                && str_field(s) == Ok::<(Seq<char>, int), Seq<char>>(
                (label_of_bits(field), field.len() as int + 1),
            ) && s.skip(field.len() as int + 1) == rest && (bits_val(field) <= i32::MAX
                ==> int32_of_bits(field) == bits_val(field))
        }),
{
    let s = field + seq!['\n'] + rest;
    assert(forall|j: int| 0 <= j < field.len() ==> is_bit_char(#[trigger] s[j]));
    assert(s[field.len() as int] == '\n');
    lemma_bit_prefix_char(s, field.len() as int);
    assert(s.take(field.len() as int) =~= field);
    assert(s.skip(field.len() as int + 1) =~= rest);
    if bits_val(field) <= i32::MAX {
        lemma_bits_val32_exact(field);
    }
}

/// Law: a program whose text holds no meaningful character at all
/// decodes to the empty instruction sequence.
pub proof fn lemma_comment_only_program(s: Seq<char>)
    requires
        forall|i: int| 0 <= i < s.len() ==> !is_token_char(#[trigger] s[i]),
    ensures
        filter_tokens(s) == Seq::<char>::empty(),
        program_decode(filter_tokens(s)) == Some(Seq::<OpShape>::empty()),
    decreases s.len(),
{
    if s.len() > 0 {
        assert(forall|i: int| 0 <= i < s.skip(1).len() ==> !is_token_char(
            #[trigger] s.skip(1)[i],
        ));
        lemma_comment_only_program(s.skip(1));
        assert(filter_tokens(s) =~= Seq::<char>::empty());
    }
}

} // verus!
