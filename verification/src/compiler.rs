//! Source regeneration: a stable textual rendering of each decoded
//! instruction, and of a whole instruction sequence as the lines of a
//! generated program.  The fixed driver text around those lines is the
//! caller's business; the rendering of the instructions themselves is
//! exact and verified.

use vstd::prelude::*;
use vstd::string::StringExecFns;

use crate::instruction::Instruction;
use crate::numtext::dec_chars;
use crate::numtext::int_to_string;

verus! {

/// The textual rendering of one instruction: the variant's name, an
/// integer operand in decimal, a label operand quoted.
pub open spec fn rust_text(i: Instruction) -> Seq<char> {
    match i {
        Instruction::Push(v) => "Push("@ + dec_chars(v as int) + ")"@,
        Instruction::Duplicate => "Duplicate"@,
        Instruction::CopyNth(v) => "CopyNth("@ + dec_chars(v as int) + ")"@,
        Instruction::Swap => "Swap"@,
        Instruction::Discard => "Discard"@,
        Instruction::Slide(v) => "Slide("@ + dec_chars(v as int) + ")"@,
        Instruction::Add => "Add"@,
        Instruction::Sub => "Sub"@,
        Instruction::Mul => "Mul"@,
        Instruction::Div => "Div"@,
        Instruction::Mod => "Mod"@,
        Instruction::Store => "Store"@,
        Instruction::Retrieve => "Retrieve"@,
        Instruction::SetLabel(l) => "SetLabel(\""@ + l@ + "\".to_string())"@,
        Instruction::CallSubroutine(l) => "CallSubroutine(\""@ + l@ + "\".to_string())"@,
        Instruction::Jump(l) => "Jump(\""@ + l@ + "\".to_string())"@,
        Instruction::JZero(l) => "JZero(\""@ + l@ + "\".to_string())"@,
        Instruction::JNeg(l) => "JNeg(\""@ + l@ + "\".to_string())"@,
        Instruction::EndOfSubroutine => "EndOfSubroutine"@,
        Instruction::EndOfProgram => "EndOfProgram"@,
        Instruction::PrintChar => "PrintChar"@,
        Instruction::PrintInt => "PrintInt"@,
        Instruction::ReadChar => "ReadChar"@,
        Instruction::ReadInt => "ReadInt"@,
    }
}

/// Renders one instruction exactly as `rust_text` describes.
pub fn write_as_rust_string(instruction: &Instruction) -> (s: String)
    ensures
        s@ == rust_text(*instruction),
{
    match instruction {
        Instruction::Push(v) => {
            let mut s = String::from_str("Push(");
            s.append(int_to_string(*v).as_str());
            s.append(")");
            s
        },
        Instruction::Duplicate => String::from_str("Duplicate"),
        Instruction::CopyNth(v) => {
            let mut s = String::from_str("CopyNth(");
            s.append(int_to_string(*v).as_str());
            s.append(")");
            s
        },
        Instruction::Swap => String::from_str("Swap"),
        Instruction::Discard => String::from_str("Discard"),
        Instruction::Slide(v) => {
            let mut s = String::from_str("Slide(");
            s.append(int_to_string(*v).as_str());
            s.append(")");
            s
        },
        Instruction::Add => String::from_str("Add"),
        Instruction::Sub => String::from_str("Sub"),
        Instruction::Mul => String::from_str("Mul"),
        Instruction::Div => String::from_str("Div"),
        Instruction::Mod => String::from_str("Mod"),
        Instruction::Store => String::from_str("Store"),
        Instruction::Retrieve => String::from_str("Retrieve"),
        Instruction::SetLabel(l) => {
            let mut s = String::from_str("SetLabel(\"");
            s.append(l.as_str());
            s.append("\".to_string())");
            s
        },
        Instruction::CallSubroutine(l) => {
            let mut s = String::from_str("CallSubroutine(\"");
            s.append(l.as_str());
            s.append("\".to_string())");
            s
        },
        Instruction::Jump(l) => {
            let mut s = String::from_str("Jump(\"");
            s.append(l.as_str());
            s.append("\".to_string())");
            s
        },
        Instruction::JZero(l) => {
            let mut s = String::from_str("JZero(\"");
            s.append(l.as_str());
            s.append("\".to_string())");
            s
        },
        Instruction::JNeg(l) => {
            let mut s = String::from_str("JNeg(\"");
            s.append(l.as_str());
            s.append("\".to_string())");
            s
        },
        Instruction::EndOfSubroutine => String::from_str("EndOfSubroutine"),
        Instruction::EndOfProgram => String::from_str("EndOfProgram"),
        Instruction::PrintChar => String::from_str("PrintChar"),
        Instruction::PrintInt => String::from_str("PrintInt"),
        Instruction::ReadChar => String::from_str("ReadChar"),
        Instruction::ReadInt => String::from_str("ReadInt"),
    }
}

/// The lines of a generated program: each instruction indented by two
/// tabs, rendered, and ended by a comma and a line break.
pub open spec fn source_lines(instrs: Seq<Instruction>) -> Seq<char>
    decreases instrs.len(),
{
    if instrs.len() == 0 {
        Seq::empty()
    } else {
        source_lines(instrs.drop_last()) + "\t\t"@ + rust_text(instrs.last()) + ",\n"@
    }
}

/// Renders a whole instruction sequence as the lines of a generated
/// program, exactly as `source_lines` describes; the caller wraps them
/// in its fixed driver text.
pub fn generate_source_code(instructions: &Vec<Instruction>) -> (s: String)
    ensures
        s@ == source_lines(instructions@),
{
    let mut s = String::new();
    let n = instructions.len();
    let mut i: usize = 0;
    while i < n
        invariant
            0 <= i <= n,
            n == instructions@.len(),
            s@ == source_lines(instructions@.take(i as int)),
        decreases n - i,
    {
        let line = write_as_rust_string(vstd::std_specs::vec::vec_index(instructions, i));
        s.append("\t\t");
        s.append(line.as_str());
        s.append(",\n");
        proof {
            assert(instructions@.take(i + 1).drop_last() =~= instructions@.take(i as int));
            assert(instructions@.take(i + 1).last() == instructions@[i as int]);
            assert(s@ =~= source_lines(instructions@.take(i + 1)));
        }
        i = i + 1;
    }
    proof {
        assert(instructions@.take(n as int) =~= instructions@);
    }
    s
}

} // verus!
