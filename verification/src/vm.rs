//! The execution engine: a stack machine with a data stack, a
//! return-address stack, a growable memory region, an instruction pointer
//! and a label table.  External input and output are modelled as plain
//! value queues owned by the machine, so each instruction is a
//! deterministic transition described exactly by the specification
//! function [`step`].

use vstd::prelude::*;

use crate::instruction::Instruction;
use crate::instruction::clone_instruction;
use crate::labels::LabelMap;
use crate::numtext::int_of_line;

verus! {

/// The reasons one execution step can fail.
#[derive(PartialEq, Eq, Structural, Clone, Copy, Debug)]
pub enum ExecError {
    /// An operation found fewer data-stack elements than it requires.
    StackUnderflow,
    /// A subroutine return found the return-address stack empty.
    CallStackUnderflow,
    /// A jump or call named a label that the program never defines.
    MissingLabel,
    /// A division or modulo found a zero divisor.
    DivisionByZero,
    /// A read-integer operation could not parse its input line as an
    /// integer, or a read found no input available.
    InputParseFailure,
    /// The instruction pointer left the program without an explicit
    /// end-of-program instruction.
    PointerOutOfBounds,
    /// A memory write named a negative address.
    NegativeAddress,
}

/// One element of the machine's emitted output, in execution order.
#[derive(PartialEq, Eq, Structural, Clone, Copy, Debug)]
pub enum OutputEvent {
    /// A single character, from the low 8 bits of the printed value.
    Char(u8),
    /// A signed integer printed in its decimal text form.
    Int(i32),
}

/// The mathematical state of the machine: everything an instruction can
/// read or change.
#[verifier::ext_equal]
pub struct MachineView {
    pub stack: Seq<i32>,
    pub call_stack: Seq<usize>,
    pub heap: Seq<i32>,
    pub ip: int,
    pub input: Seq<char>,
    pub output: Seq<OutputEvent>,
}

/// The state after one step together with the step's reported result.
#[verifier::ext_equal]
pub struct StepOutcome {
    pub post: MachineView,
    pub result: Result<(), ExecError>,
}

pub open spec fn step_ok(s: MachineView) -> StepOutcome {
    StepOutcome { post: s, result: Ok(()) }
}

pub open spec fn step_err(s: MachineView, e: ExecError) -> StepOutcome {
    StepOutcome { post: s, result: Err(e) }
}

/// The memory region after writing `v` at `addr`: an in-bounds write
/// updates in place; a write past the end grows the region with zeroes so
/// that `addr` becomes its last slot.
pub open spec fn heap_write(heap: Seq<i32>, addr: int, v: i32) -> Seq<i32>
    recommends
        0 <= addr,
{
    if addr < heap.len() {
        heap.update(addr, v)
    } else {
        heap + Seq::new((addr - heap.len()) as nat, |i: int| 0i32) + seq![v]
    }
}

/// The value stored at `addr`, or the default 0 outside the region.
pub open spec fn heap_at(heap: Seq<i32>, addr: int) -> i32 {
    if 0 <= addr < heap.len() {
        heap[addr]
    } else {
        0
    }
}

/// Index of the first line break in the input, or the input's length when
/// there is none.
pub open spec fn nl_index(s: Seq<char>) -> int
    decreases s.len(),
{
    if s.len() == 0 {
        0
    } else if s[0] == '\n' {
        0
    } else {
        1 + nl_index(s.skip(1))
    }
}

/// How many input characters one line consumes: the line itself and its
/// terminating line break, when present.
pub open spec fn line_consumed(s: Seq<char>) -> int {
    if nl_index(s) < s.len() {
        nl_index(s) + 1
    } else {
        nl_index(s)
    }
}

/// `nl_index` is the unique boundary: no line break before it, and a line
/// break at it when it is inside the input.
pub proof fn lemma_nl_index_char(s: Seq<char>, k: int)
    requires
        0 <= k <= s.len(),
        forall|j: int| 0 <= j < k ==> #[trigger] s[j] != '\n',
        k == s.len() || s[k] == '\n',
    ensures
        nl_index(s) == k,
    decreases s.len(),
{
    if s.len() == 0 {
    } else if k == 0 {
    } else {
        let t = s.skip(1);
        assert(forall|j: int| 0 <= j < k - 1 ==> #[trigger] t[j] != '\n');
        lemma_nl_index_char(t, k - 1);
    }
}

/// One execution step of the machine: the state after executing the
/// instruction under the pointer, and the step's result.  An erroneous
/// step keeps whatever elements it had already consumed before the
/// failing check and never moves the pointer.
pub open spec fn step(
    prog: Seq<Instruction>,
    labels: Map<Seq<char>, int>,
    s: MachineView,
) -> StepOutcome {
    if !(0 <= s.ip < prog.len()) {
        step_err(s, ExecError::PointerOutOfBounds)
    } else {
        let n = s.stack.len() as int;
        match prog[s.ip] {
            Instruction::Push(v) => step_ok(
                MachineView { stack: s.stack.push(v), ip: s.ip + 1, ..s },
            ),
            Instruction::Duplicate => if n < 1 {
                step_err(s, ExecError::StackUnderflow)
            } else {
                step_ok(MachineView { stack: s.stack.push(s.stack.last()), ip: s.ip + 1, ..s })
            },
            Instruction::CopyNth(k) => if k < 0 || n <= k {
                step_err(s, ExecError::StackUnderflow)
            } else {
                step_ok(
                    MachineView { stack: s.stack.push(s.stack[n - 1 - k]), ip: s.ip + 1, ..s },
                )
            },
            Instruction::Swap => if n < 2 {
                step_err(s, ExecError::StackUnderflow)
            } else {
                step_ok(
                    MachineView {
                        stack: s.stack.update(n - 1, s.stack[n - 2]).update(n - 2, s.stack[n - 1]),
                        ip: s.ip + 1,
                        ..s
                    },
                )
            },
            Instruction::Discard => if n < 1 {
                step_err(s, ExecError::StackUnderflow)
            } else {
                step_ok(MachineView { stack: s.stack.drop_last(), ip: s.ip + 1, ..s })
            },
            Instruction::Slide(k) => if k < 0 || n < k + 1 {
                step_err(s, ExecError::StackUnderflow)
            } else {
                step_ok(
                    MachineView {
                        stack: s.stack.take(n - 1 - k).push(s.stack.last()),
                        ip: s.ip + 1,
                        ..s
                    },
                )
            },
            Instruction::Add => if n < 2 {
                step_err(s, ExecError::StackUnderflow)
            } else {
                let v = vstd::wrapping::i32_specs::wrapping_add(s.stack[n - 2], s.stack[n - 1]);
                step_ok(MachineView { stack: s.stack.take(n - 2).push(v), ip: s.ip + 1, ..s })
            },
            Instruction::Sub => if n < 2 {
                step_err(s, ExecError::StackUnderflow)
            } else {
                let v = vstd::wrapping::i32_specs::wrapping_sub(s.stack[n - 2], s.stack[n - 1]);
                step_ok(MachineView { stack: s.stack.take(n - 2).push(v), ip: s.ip + 1, ..s })
            },
            Instruction::Mul => if n < 2 {
                step_err(s, ExecError::StackUnderflow)
            } else {
                let v = vstd::wrapping::i32_specs::wrapping_mul(s.stack[n - 2], s.stack[n - 1]);
                step_ok(MachineView { stack: s.stack.take(n - 2).push(v), ip: s.ip + 1, ..s })
            },
            Instruction::Div => if n < 2 {
                step_err(s, ExecError::StackUnderflow)
            } else if s.stack[n - 1] == 0 {
                step_err(
                    MachineView { stack: s.stack.take(n - 2), ..s },
                    ExecError::DivisionByZero,
                )
            } else {
                // truncating-toward-zero quotient; the one case that
                // overflows the type wraps to its own value
                let v = match s.stack[n - 2].checked_div(s.stack[n - 1]) {
                    Some(q) => q,
                    None => i32::MIN,
                };
                step_ok(MachineView { stack: s.stack.take(n - 2).push(v), ip: s.ip + 1, ..s })
            },
            Instruction::Mod => if n < 2 {
                step_err(s, ExecError::StackUnderflow)
            } else if s.stack[n - 1] == 0 {
                step_err(
                    MachineView { stack: s.stack.take(n - 2), ..s },
                    ExecError::DivisionByZero,
                )
            } else {
                // remainder with the dividend's sign; the one case the
                // checked form refuses has remainder 0
                let v = match s.stack[n - 2].checked_rem(s.stack[n - 1]) {
                    Some(m) => m,
                    None => 0,
                };
                step_ok(MachineView { stack: s.stack.take(n - 2).push(v), ip: s.ip + 1, ..s })
            },
            Instruction::Store => if n < 2 {
                step_err(s, ExecError::StackUnderflow)
            } else {
                let value = s.stack[n - 1];
                let addr = s.stack[n - 2];
                let popped = MachineView { stack: s.stack.take(n - 2), ..s };
                if addr < 0 {
                    step_err(popped, ExecError::NegativeAddress)
                } else {
                    step_ok(
                        MachineView {
                            heap: heap_write(s.heap, addr as int, value),
                            ip: s.ip + 1,
                            ..popped
                        },
                    )
                }
            },
            Instruction::Retrieve => if n < 1 {
                step_err(s, ExecError::StackUnderflow)
            } else {
                let addr = s.stack[n - 1];
                step_ok(
                    MachineView {
                        stack: s.stack.take(n - 1).push(heap_at(s.heap, addr as int)),
                        ip: s.ip + 1,
                        ..s
                    },
                )
            },
            Instruction::SetLabel(_) => step_ok(MachineView { ip: s.ip + 1, ..s }),
            Instruction::CallSubroutine(l) => {
                let pushed = MachineView { call_stack: s.call_stack.push(s.ip as usize), ..s };
                if labels.contains_key(l@) {
                    step_ok(MachineView { ip: labels[l@], ..pushed })
                } else {
                    step_err(pushed, ExecError::MissingLabel)
                }
            },
            Instruction::Jump(l) => if labels.contains_key(l@) {
                step_ok(MachineView { ip: labels[l@], ..s })
            } else {
                step_err(s, ExecError::MissingLabel)
            },
            Instruction::JZero(l) => if n < 1 {
                step_err(s, ExecError::StackUnderflow)
            } else {
                let top = s.stack[n - 1];
                let popped = MachineView { stack: s.stack.drop_last(), ..s };
                if top == 0 {
                    if labels.contains_key(l@) {
                        step_ok(MachineView { ip: labels[l@], ..popped })
                    } else {
                        step_err(popped, ExecError::MissingLabel)
                    }
                } else {
                    step_ok(MachineView { ip: s.ip + 1, ..popped })
                }
            },
            Instruction::JNeg(l) => if n < 1 {
                step_err(s, ExecError::StackUnderflow)
            } else {
                let top = s.stack[n - 1];
                let popped = MachineView { stack: s.stack.drop_last(), ..s };
                if top < 0 {
                    if labels.contains_key(l@) {
                        step_ok(MachineView { ip: labels[l@], ..popped })
                    } else {
                        step_err(popped, ExecError::MissingLabel)
                    }
                } else {
                    step_ok(MachineView { ip: s.ip + 1, ..popped })
                }
            },
            Instruction::EndOfSubroutine => if s.call_stack.len() == 0 {
                step_err(s, ExecError::CallStackUnderflow)
            } else {
                step_ok(
                    MachineView {
                        call_stack: s.call_stack.drop_last(),
                        ip: s.call_stack.last() + 1,
                        ..s
                    },
                )
            },
            Instruction::EndOfProgram => step_ok(s),
            Instruction::PrintChar => if n < 1 {
                step_err(s, ExecError::StackUnderflow)
            } else {
                step_ok(
                    MachineView {
                        stack: s.stack.drop_last(),
                        output: s.output.push(OutputEvent::Char(s.stack[n - 1] as u8)),
                        ip: s.ip + 1,
                        ..s
                    },
                )
            },
            Instruction::PrintInt => if n < 1 {
                step_err(s, ExecError::StackUnderflow)
            } else {
                step_ok(
                    MachineView {
                        stack: s.stack.drop_last(),
                        output: s.output.push(OutputEvent::Int(s.stack[n - 1])),
                        ip: s.ip + 1,
                        ..s
                    },
                )
            },
            Instruction::ReadChar => if n < 1 {
                step_err(s, ExecError::StackUnderflow)
            } else if s.input.len() == 0 {
                step_err(s, ExecError::InputParseFailure)
            } else {
                let c = s.input[0];
                let addr = s.stack[n - 1];
                let popped = MachineView {
                    stack: s.stack.drop_last(),
                    input: s.input.skip(1),
                    ..s
                };
                if addr < 0 {
                    step_err(popped, ExecError::NegativeAddress)
                } else {
                    step_ok(
                        MachineView {
                            heap: heap_write(s.heap, addr as int, c as i32),
                            ip: s.ip + 1,
                            ..popped
                        },
                    )
                }
            },
            Instruction::ReadInt => if n < 1 {
                step_err(s, ExecError::StackUnderflow)
            } else {
                let line = s.input.take(nl_index(s.input));
                let rest = s.input.skip(line_consumed(s.input));
                match int_of_line(line) {
                    None => step_err(
                        MachineView { input: rest, ..s },
                        ExecError::InputParseFailure,
                    ),
                    Some(v) => {
                        let addr = s.stack[n - 1];
                        let popped = MachineView {
                            stack: s.stack.drop_last(),
                            input: rest,
                            ..s
                        };
                        if addr < 0 {
                            step_err(popped, ExecError::NegativeAddress)
                        } else {
                            step_ok(
                                MachineView {
                                    heap: heap_write(s.heap, addr as int, v),
                                    ip: s.ip + 1,
                                    ..popped
                                },
                            )
                        }
                    },
                }
            },
        }
    }
}

/// The machine state reached after `n` steps from `s`, errors and all: an
/// erroneous step leaves its partial effects in place, exactly as the
/// engine does when told to keep going.
pub open spec fn steps(
    prog: Seq<Instruction>,
    labels: Map<Seq<char>, int>,
    s: MachineView,
    n: nat,
) -> MachineView
    decreases n,
{
    if n == 0 {
        s
    } else {
        step(prog, labels, steps(prog, labels, s, (n - 1) as nat)).post
    }
}

/// The label table a program defines: one entry per label-definition
/// instruction, a later definition overwriting an earlier one.
pub open spec fn program_labels(prog: Seq<Instruction>) -> Map<Seq<char>, int>
    decreases prog.len(),
{
    if prog.len() == 0 {
        Map::empty()
    } else {
        match prog.last() {
            Instruction::SetLabel(l) => program_labels(prog.drop_last()).insert(
                l@,
                prog.len() - 1,
            ),
            _ => program_labels(prog.drop_last()),
        }
    }
}

/// The execution engine.  It owns every piece of mutable run-time state:
/// the data stack, the return-address stack, the memory region, the
/// instruction pointer, the label table, and the queues that stand for
/// external input and output.
pub struct VirtualMachine {
    pub stack: Vec<i32>,
    pub heap: Vec<i32>,
    pub call_stack: Vec<usize>,
    pub ip: usize,
    pub labels: LabelMap,
    pub instructions: Vec<Instruction>,
    pub debug: bool,
    /// External input characters not yet consumed by the read operations.
    pub input: Vec<char>,
    /// Events emitted by the print operations, in execution order.
    pub output: Vec<OutputEvent>,
}

impl VirtualMachine {
    /// The machine's state as a mathematical value.
    pub open spec fn mview(&self) -> MachineView {
        MachineView {
            stack: self.stack@,
            call_stack: self.call_stack@,
            heap: self.heap@,
            ip: self.ip as int,
            input: self.input@,
            output: self.output@,
        }
    }

    /// Well-formedness: every recorded return address points into the
    /// program.  Construction establishes it and every step preserves it.
    pub open spec fn wf(&self) -> bool {
        forall|i: int|
            0 <= i < self.call_stack@.len() ==> (#[trigger] self.call_stack@[i] as int)
                < self.instructions@.len()
    }

    /// Builds an engine for the given instruction sequence: both stacks
    /// and the memory region empty, the pointer at the first instruction,
    /// and the label table filled in one forward scan, a later definition
    /// of a label overwriting an earlier one.
    pub fn new(instructions: &[Instruction]) -> (vm: VirtualMachine)
        ensures
            vm.wf(),
            vm.instructions@ == instructions@,
            vm.labels@ == program_labels(instructions@),
            vm.stack@ == Seq::<i32>::empty(),
            vm.call_stack@ == Seq::<usize>::empty(),
            vm.heap@ == Seq::<i32>::empty(),
            vm.input@ == Seq::<char>::empty(),
            vm.output@ == Seq::<OutputEvent>::empty(),
            vm.ip == 0,
            vm.debug == false,
    {
        let mut copied: Vec<Instruction> = Vec::new();
        let mut labels = LabelMap::new();
        let mut index: usize = 0;
        while index < instructions.len()
            invariant
                0 <= index <= instructions@.len(),
                copied@ == instructions@.subrange(0, index as int),
                labels@ == program_labels(instructions@.subrange(0, index as int)),
            decreases instructions@.len() - index,
        {
            let ins = clone_instruction(&instructions[index]);
            match &ins {
                Instruction::SetLabel(l) => {
                    labels.insert(l, index);
                },
                _ => {},
            }
            copied.push(ins);
            proof {
                let pre = instructions@.subrange(0, index as int);
                let post = instructions@.subrange(0, index + 1);
                assert(post.drop_last() =~= pre);
                assert(post.last() == instructions@[index as int]);
            }
            index = index + 1;
        }
        proof {
            assert(instructions@.subrange(0, instructions@.len() as int) =~= instructions@);
        }
        VirtualMachine {
            stack: Vec::new(),
            heap: Vec::new(),
            call_stack: Vec::new(),
            ip: 0,
            labels,
            instructions: copied,
            debug: false,
            input: Vec::new(),
            output: Vec::new(),
        }
    }
}

/// The parts of the machine that execution never changes: the program,
/// the label table and the debug flag.
pub open spec fn same_program(pre: VirtualMachine, post: VirtualMachine) -> bool {
    &&& post.instructions == pre.instructions
    &&& post.labels == pre.labels
    &&& post.debug == pre.debug
}

/// Takes one line off the front of the input queue: the characters up to
/// the first line break, which is consumed along with them; without a
/// line break, everything that is left.
#[verifier::loop_isolation(false)]
fn take_line(input: &mut Vec<char>) -> (line: Vec<char>)
    ensures
        line@ == old(input)@.take(nl_index(old(input)@)),
        final(input)@ == old(input)@.skip(line_consumed(old(input)@)),
{
    let n = input.len();
    let mut j: usize = 0;
    while j < n && *vstd::std_specs::vec::vec_index(input, j) != '\n'
        invariant
            0 <= j <= n,
            forall|k: int| 0 <= k < j ==> #[trigger] input@[k] != '\n',
        decreases n - j,
    {
        j = j + 1;
    }
    proof {
        lemma_nl_index_char(input@, j as int);
    }
    let mut line: Vec<char> = Vec::new();
    let mut k: usize = 0;
    while k < j
        invariant
            0 <= k <= j,
            line@ == input@.subrange(0, k as int),
        decreases j - k,
    {
        let c = *vstd::std_specs::vec::vec_index(input, k);
        line.push(c);
        proof {
            assert(input@.subrange(0, k as int).push(input@[k as int]) =~= input@.subrange(
                0,
                k + 1,
            ));
        }
        k = k + 1;
    }
    let consumed: usize = if j < n {
        j + 1
    } else {
        j
    };
    let mut rest: Vec<char> = Vec::new();
    let mut m: usize = consumed;
    while m < n
        invariant
            consumed <= m <= n,
            rest@ == input@.subrange(consumed as int, m as int),
        decreases n - m,
    {
        let c = *vstd::std_specs::vec::vec_index(input, m);
        rest.push(c);
        proof {
            assert(input@.subrange(consumed as int, m as int).push(input@[m as int])
                =~= input@.subrange(consumed as int, m + 1));
        }
        m = m + 1;
    }
    proof {
        assert(line@ =~= input@.take(nl_index(input@)));
        assert(rest@ =~= input@.skip(line_consumed(input@)));
    }
    *input = rest;
    line
}

impl VirtualMachine {
    /// Advances the pointer past the current instruction.
    fn move_on(&mut self) -> (r: Result<(), ExecError>)
        requires
            old(self).ip < old(self).instructions.len(),
        ensures
            r == Ok::<(), ExecError>(()),
            *final(self) == (VirtualMachine { ip: (old(self).ip + 1) as usize, ..*old(self) }),
    {
        self.ip = self.ip + 1;
        Ok(())
    }

    /// Pushes the operand onto the data stack.
    fn run_push(&mut self, v: i32) -> (r: Result<(), ExecError>)
        requires
            old(self).ip < old(self).instructions.len(),
        ensures
            r == Ok::<(), ExecError>(()),
            same_program(*old(self), *final(self)),
            final(self).stack@ == old(self).stack@.push(v),
            final(self).ip == old(self).ip + 1,
            final(self).heap == old(self).heap,
            final(self).call_stack == old(self).call_stack,
            final(self).input == old(self).input,
            final(self).output == old(self).output,
    {
        self.stack.push(v);
        self.move_on()
    }

    /// Pushes a copy of the top of the data stack; underflow when empty.
    fn run_duplicate(&mut self) -> (r: Result<(), ExecError>)
        requires
            old(self).ip < old(self).instructions.len(),
        ensures
            same_program(*old(self), *final(self)),
            final(self).heap == old(self).heap,
            final(self).call_stack == old(self).call_stack,
            final(self).input == old(self).input,
            final(self).output == old(self).output,
            old(self).stack@.len() == 0 ==> r == Err::<(), ExecError>(ExecError::StackUnderflow)
                && final(self).stack == old(self).stack && final(self).ip == old(self).ip,
            old(self).stack@.len() > 0 ==> r == Ok::<(), ExecError>(()) && final(self).stack@
                == old(self).stack@.push(old(self).stack@.last()) && final(self).ip == old(self).ip + 1,
    {
        if self.stack.len() > 0 {
            let top = *vstd::std_specs::vec::vec_index(&self.stack, self.stack.len() - 1);
            self.stack.push(top);
            self.move_on()
        } else {
            Err(ExecError::StackUnderflow)
        }
    }

    /// Pushes a copy of the element `v` positions below the top, the top
    /// itself being position zero; underflow when the stack is not that
    /// deep or the operand is negative.
    fn run_copynth(&mut self, v: i32) -> (r: Result<(), ExecError>)
        requires
            old(self).ip < old(self).instructions.len(),
        ensures
            same_program(*old(self), *final(self)),
            final(self).heap == old(self).heap,
            final(self).call_stack == old(self).call_stack,
            final(self).input == old(self).input,
            final(self).output == old(self).output,
            v < 0 || old(self).stack@.len() <= v ==> r == Err::<(), ExecError>(
                ExecError::StackUnderflow,
            ) && final(self).stack == old(self).stack && final(self).ip == old(self).ip,
            0 <= v < old(self).stack@.len() ==> r == Ok::<(), ExecError>(()) && final(self).stack@
                == old(self).stack@.push(
                old(self).stack@[old(self).stack@.len() - 1 - v],
            ) && final(self).ip == old(self).ip + 1,
    {
        if v >= 0 && (v as usize) < self.stack.len() {
            let idx = self.stack.len() - 1 - (v as usize);
            let elem = *vstd::std_specs::vec::vec_index(&self.stack, idx);
            self.stack.push(elem);
            self.move_on()
        } else {
            Err(ExecError::StackUnderflow)
        }
    }

    /// Exchanges the top two elements; underflow below two elements.
    fn run_swap(&mut self) -> (r: Result<(), ExecError>)
        requires
            old(self).ip < old(self).instructions.len(),
        ensures
            same_program(*old(self), *final(self)),
            final(self).heap == old(self).heap,
            final(self).call_stack == old(self).call_stack,
            final(self).input == old(self).input,
            final(self).output == old(self).output,
            old(self).stack@.len() < 2 ==> r == Err::<(), ExecError>(ExecError::StackUnderflow)
                && final(self).stack == old(self).stack && final(self).ip == old(self).ip,
            old(self).stack@.len() >= 2 ==> {
                let n = old(self).stack@.len() as int;
                r == Ok::<(), ExecError>(()) && final(self).stack@ == old(self).stack@.update(
                    n - 1,
                    old(self).stack@[n - 2],
                ).update(n - 2, old(self).stack@[n - 1]) && final(self).ip == old(self).ip + 1
            },
    {
        if self.stack.len() >= 2 {
            let a = self.stack.pop().unwrap();
            let b = self.stack.pop().unwrap();
            self.stack.push(a);
            self.stack.push(b);
            proof {
                let n = old(self).stack@.len() as int;
                assert(self.stack@ =~= old(self).stack@.update(n - 1, old(self).stack@[n - 2])
                    .update(n - 2, old(self).stack@[n - 1]));
            }
            self.move_on()
        } else {
            Err(ExecError::StackUnderflow)
        }
    }

    /// Removes the top element; underflow when empty.
    fn run_discard(&mut self) -> (r: Result<(), ExecError>)
        requires
            old(self).ip < old(self).instructions.len(),
        ensures
            same_program(*old(self), *final(self)),
            final(self).heap == old(self).heap,
            final(self).call_stack == old(self).call_stack,
            final(self).input == old(self).input,
            final(self).output == old(self).output,
            old(self).stack@.len() == 0 ==> r == Err::<(), ExecError>(ExecError::StackUnderflow)
                && final(self).stack == old(self).stack && final(self).ip == old(self).ip,
            old(self).stack@.len() > 0 ==> r == Ok::<(), ExecError>(()) && final(self).stack@
                == old(self).stack@.drop_last() && final(self).ip == old(self).ip + 1,
    {
        if self.stack.len() > 0 {
            let _ = self.stack.pop();
            self.move_on()
        } else {
            Err(ExecError::StackUnderflow)
        }
    }

    /// Removes the `v` elements immediately below the top while keeping
    /// the top in place; underflow when the stack is not that deep or the
    /// operand is negative.
    fn run_slide(&mut self, v: i32) -> (r: Result<(), ExecError>)
        requires
            old(self).ip < old(self).instructions.len(),
        ensures
            same_program(*old(self), *final(self)),
            final(self).heap == old(self).heap,
            final(self).call_stack == old(self).call_stack,
            final(self).input == old(self).input,
            final(self).output == old(self).output,
            v < 0 || old(self).stack@.len() < v + 1 ==> r == Err::<(), ExecError>(
                ExecError::StackUnderflow,
            ) && final(self).stack == old(self).stack && final(self).ip == old(self).ip,
            0 <= v && v + 1 <= old(self).stack@.len() ==> {
                let n = old(self).stack@.len() as int;
                r == Ok::<(), ExecError>(()) && final(self).stack@ == old(self).stack@.take(
                    n - 1 - v,
                ).push(old(self).stack@.last()) && final(self).ip == old(self).ip + 1
            },
    {
        if v >= 0 && (v as usize) < self.stack.len() {
            let n = self.stack.len();
            let top = *vstd::std_specs::vec::vec_index(&self.stack, n - 1);
            self.stack.truncate(n - 1 - (v as usize));
            self.stack.push(top);
            self.move_on()
        } else {
            Err(ExecError::StackUnderflow)
        }
    }

    /// Pops the right operand, then the left, and pushes their wrapping
    /// sum; underflow below two elements.
    fn run_add(&mut self) -> (r: Result<(), ExecError>)
        requires
            old(self).ip < old(self).instructions.len(),
        ensures
            same_program(*old(self), *final(self)),
            final(self).heap == old(self).heap,
            final(self).call_stack == old(self).call_stack,
            final(self).input == old(self).input,
            final(self).output == old(self).output,
            old(self).stack@.len() < 2 ==> r == Err::<(), ExecError>(ExecError::StackUnderflow)
                && final(self).stack == old(self).stack && final(self).ip == old(self).ip,
            old(self).stack@.len() >= 2 ==> {
                let n = old(self).stack@.len() as int;
                r == Ok::<(), ExecError>(()) && final(self).stack@ == old(self).stack@.take(n - 2)
                    .push(
                    vstd::wrapping::i32_specs::wrapping_add(
                        old(self).stack@[n - 2],
                        old(self).stack@[n - 1],
                    ),
                ) && final(self).ip == old(self).ip + 1
            },
    {
        if self.stack.len() >= 2 {
            let right = self.stack.pop().unwrap();
            let left = self.stack.pop().unwrap();
            self.stack.push(left.wrapping_add(right));
            proof {
                let n = old(self).stack@.len() as int;
                assert(self.stack@ =~= old(self).stack@.take(n - 2).push(
                    vstd::wrapping::i32_specs::wrapping_add(
                        old(self).stack@[n - 2],
                        old(self).stack@[n - 1],
                    ),
                ));
            }
            self.move_on()
        } else {
            Err(ExecError::StackUnderflow)
        }
    }

    /// Pops the right operand, then the left, and pushes their wrapping
    /// difference; underflow below two elements.
    fn run_sub(&mut self) -> (r: Result<(), ExecError>)
        requires
            old(self).ip < old(self).instructions.len(),
        ensures
            same_program(*old(self), *final(self)),
            final(self).heap == old(self).heap,
            final(self).call_stack == old(self).call_stack,
            final(self).input == old(self).input,
            final(self).output == old(self).output,
            old(self).stack@.len() < 2 ==> r == Err::<(), ExecError>(ExecError::StackUnderflow)
                && final(self).stack == old(self).stack && final(self).ip == old(self).ip,
            old(self).stack@.len() >= 2 ==> {
                let n = old(self).stack@.len() as int;
                r == Ok::<(), ExecError>(()) && final(self).stack@ == old(self).stack@.take(n - 2)
                    .push(
                    vstd::wrapping::i32_specs::wrapping_sub(
                        old(self).stack@[n - 2],
                        old(self).stack@[n - 1],
                    ),
                ) && final(self).ip == old(self).ip + 1
            },
    {
        if self.stack.len() >= 2 {
            let right = self.stack.pop().unwrap();
            let left = self.stack.pop().unwrap();
            self.stack.push(left.wrapping_sub(right));
            proof {
                let n = old(self).stack@.len() as int;
                assert(self.stack@ =~= old(self).stack@.take(n - 2).push(
                    vstd::wrapping::i32_specs::wrapping_sub(
                        old(self).stack@[n - 2],
                        old(self).stack@[n - 1],
                    ),
                ));
            }
            self.move_on()
        } else {
            Err(ExecError::StackUnderflow)
        }
    }

    /// Pops the right operand, then the left, and pushes their wrapping
    /// product; underflow below two elements.
    fn run_mul(&mut self) -> (r: Result<(), ExecError>)
        requires
            old(self).ip < old(self).instructions.len(),
        ensures
            same_program(*old(self), *final(self)),
            final(self).heap == old(self).heap,
            final(self).call_stack == old(self).call_stack,
            final(self).input == old(self).input,
            final(self).output == old(self).output,
            old(self).stack@.len() < 2 ==> r == Err::<(), ExecError>(ExecError::StackUnderflow)
                && final(self).stack == old(self).stack && final(self).ip == old(self).ip,
            old(self).stack@.len() >= 2 ==> {
                let n = old(self).stack@.len() as int;
                r == Ok::<(), ExecError>(()) && final(self).stack@ == old(self).stack@.take(n - 2)
                    .push(
                    vstd::wrapping::i32_specs::wrapping_mul(
                        old(self).stack@[n - 2],
                        old(self).stack@[n - 1],
                    ),
                ) && final(self).ip == old(self).ip + 1
            },
    {
        if self.stack.len() >= 2 {
            let right = self.stack.pop().unwrap();
            let left = self.stack.pop().unwrap();
            self.stack.push(left.wrapping_mul(right));
            proof {
                let n = old(self).stack@.len() as int;
                assert(self.stack@ =~= old(self).stack@.take(n - 2).push(
                    vstd::wrapping::i32_specs::wrapping_mul(
                        old(self).stack@[n - 2],
                        old(self).stack@[n - 1],
                    ),
                ));
            }
            self.move_on()
        } else {
            Err(ExecError::StackUnderflow)
        }
    }

    /// Pops the right operand, then the left, and pushes the truncating
    /// quotient `left / right`; a zero divisor is a division-by-zero
    /// error after the operands are consumed, and the one quotient that
    /// overflows the type wraps to its own value.
    fn run_div(&mut self) -> (r: Result<(), ExecError>)
        requires
            old(self).ip < old(self).instructions.len(),
        ensures
            same_program(*old(self), *final(self)),
            final(self).heap == old(self).heap,
            final(self).call_stack == old(self).call_stack,
            final(self).input == old(self).input,
            final(self).output == old(self).output,
            old(self).stack@.len() < 2 ==> r == Err::<(), ExecError>(ExecError::StackUnderflow)
                && final(self).stack == old(self).stack && final(self).ip == old(self).ip,
            old(self).stack@.len() >= 2 ==> {
                let n = old(self).stack@.len() as int;
                let left = old(self).stack@[n - 2];
                let right = old(self).stack@[n - 1];
                if right == 0 {
                    r == Err::<(), ExecError>(ExecError::DivisionByZero) && final(self).stack@
                        == old(self).stack@.take(n - 2) && final(self).ip == old(self).ip
                } else {
                    r == Ok::<(), ExecError>(()) && final(self).stack@ == old(self).stack@.take(
                        n - 2,
                    ).push(
                        match left.checked_div(right) {
                            Some(q) => q,
                            None => i32::MIN,
                        },
                    ) && final(self).ip == old(self).ip + 1
                }
            },
    {
        if self.stack.len() >= 2 {
            let right = self.stack.pop().unwrap();
            let left = self.stack.pop().unwrap();
            if right == 0 {
                return Err(ExecError::DivisionByZero);
            }
            let q = match left.checked_div(right) {
                Some(q) => q,
                None => i32::MIN,
            };
            self.stack.push(q);
            proof {
                let n = old(self).stack@.len() as int;
                assert(self.stack@ =~= old(self).stack@.take(n - 2).push(q));
            }
            self.move_on()
        } else {
            Err(ExecError::StackUnderflow)
        }
    }

    /// Pops the right operand, then the left, and pushes the remainder of
    /// `left / right`, its sign following the dividend; a zero divisor is
    /// a division-by-zero error after the operands are consumed.
    fn run_mod(&mut self) -> (r: Result<(), ExecError>)
        requires
            old(self).ip < old(self).instructions.len(),
        ensures
            same_program(*old(self), *final(self)),
            final(self).heap == old(self).heap,
            final(self).call_stack == old(self).call_stack,
            final(self).input == old(self).input,
            final(self).output == old(self).output,
            old(self).stack@.len() < 2 ==> r == Err::<(), ExecError>(ExecError::StackUnderflow)
                && final(self).stack == old(self).stack && final(self).ip == old(self).ip,
            old(self).stack@.len() >= 2 ==> {
                let n = old(self).stack@.len() as int;
                let left = old(self).stack@[n - 2];
                let right = old(self).stack@[n - 1];
                if right == 0 {
                    r == Err::<(), ExecError>(ExecError::DivisionByZero) && final(self).stack@
                        == old(self).stack@.take(n - 2) && final(self).ip == old(self).ip
                } else {
                    r == Ok::<(), ExecError>(()) && final(self).stack@ == old(self).stack@.take(
                        n - 2,
                    ).push(
                        match left.checked_rem(right) {
                            Some(m) => m,
                            None => 0,
                        },
                    ) && final(self).ip == old(self).ip + 1
                }
            },
    {
        if self.stack.len() >= 2 {
            let right = self.stack.pop().unwrap();
            let left = self.stack.pop().unwrap();
            if right == 0 {
                return Err(ExecError::DivisionByZero);
            }
            let m = match left.checked_rem(right) {
                Some(m) => m,
                None => 0,
            };
            self.stack.push(m);
            proof {
                let n = old(self).stack@.len() as int;
                assert(self.stack@ =~= old(self).stack@.take(n - 2).push(m));
            }
            self.move_on()
        } else {
            Err(ExecError::StackUnderflow)
        }
    }

    /// Writes `value` at `address` in the memory region, growing it with
    /// zeroes when the address lies past the current bound.  The region
    /// never shrinks.
    #[verifier::loop_isolation(false)]
    fn write_heap(&mut self, address: i32, value: i32)
        requires
            address >= 0,
        ensures
            same_program(*old(self), *final(self)),
            final(self).stack == old(self).stack,
            final(self).call_stack == old(self).call_stack,
            final(self).input == old(self).input,
            final(self).output == old(self).output,
            final(self).ip == old(self).ip,
            final(self).heap@ == heap_write(old(self).heap@, address as int, value),
    {
        let addr = address as usize;
        if addr < self.heap.len() {
            let slot = vstd::std_specs::vec::vec_index_mut(&mut self.heap, addr);
            *slot = value;
            proof {
                assert(self.heap@ =~= heap_write(old(self).heap@, address as int, value));
            }
        } else {
            proof {
                assert(self.heap@ =~= old(self).heap@ + Seq::new(
                    (self.heap@.len() - old(self).heap@.len()) as nat,
                    |i: int| 0i32,
                ));
            }
            while self.heap.len() < addr
                invariant
                    old(self).heap@.len() <= self.heap@.len() <= addr,
                    self.heap@ == old(self).heap@ + Seq::new(
                        (self.heap@.len() - old(self).heap@.len()) as nat,
                        |i: int| 0i32,
                    ),
                    same_program(*old(self), *self),
                    self.stack == old(self).stack,
                    self.call_stack == old(self).call_stack,
                    self.input == old(self).input,
                    self.output == old(self).output,
                    self.ip == old(self).ip,
                decreases addr - self.heap.len(),
            {
                self.heap.push(0);
                proof {
                    assert(self.heap@ =~= old(self).heap@ + Seq::new(
                        (self.heap@.len() - old(self).heap@.len()) as nat,
                        |i: int| 0i32,
                    ));
                }
            }
            self.heap.push(value);
            proof {
                assert(self.heap@ =~= heap_write(old(self).heap@, address as int, value));
            }
        }
    }

    /// The value stored at `address`, or the default 0 when the address
    /// lies outside the region; the region itself is untouched.
    fn read_heap(&self, address: i32) -> (v: i32)
        ensures
            v == heap_at(self.heap@, address as int),
    {
        if address >= 0 && (address as usize) < self.heap.len() {
            *vstd::std_specs::vec::vec_index(&self.heap, address as usize)
        } else {
            0
        }
    }

    /// Pops the value, then the address, and stores the value at that
    /// address; underflow below two elements, and a negative address is
    /// an error after the operands are consumed.
    fn run_store(&mut self) -> (r: Result<(), ExecError>)
        requires
            old(self).ip < old(self).instructions.len(),
        ensures
            same_program(*old(self), *final(self)),
            final(self).call_stack == old(self).call_stack,
            final(self).input == old(self).input,
            final(self).output == old(self).output,
            old(self).stack@.len() < 2 ==> r == Err::<(), ExecError>(ExecError::StackUnderflow)
                && final(self).stack == old(self).stack && final(self).ip == old(self).ip
                && final(self).heap == old(self).heap,
            old(self).stack@.len() >= 2 ==> {
                let n = old(self).stack@.len() as int;
                let value = old(self).stack@[n - 1];
                let address = old(self).stack@[n - 2];
                final(self).stack@ == old(self).stack@.take(n - 2) && if address < 0 {
                    r == Err::<(), ExecError>(ExecError::NegativeAddress)
                        && final(self).ip == old(self).ip
                        && final(self).heap == old(self).heap
                } else {
                    r == Ok::<(), ExecError>(())
                        && final(self).ip == old(self).ip + 1
                        && final(self).heap@ == heap_write(old(self).heap@, address as int, value)
                }
            },
    {
        if self.stack.len() >= 2 {
            let value = self.stack.pop().unwrap();
            let address = self.stack.pop().unwrap();
            proof {
                let n = old(self).stack@.len() as int;
                assert(self.stack@ =~= old(self).stack@.take(n - 2));
            }
            if address < 0 {
                return Err(ExecError::NegativeAddress);
            }
            self.write_heap(address, value);
            self.move_on()
        } else {
            Err(ExecError::StackUnderflow)
        }
    }

    /// Pops an address and pushes the value stored there, the default 0
    /// outside the region; the region never grows; underflow when empty.
    fn run_retrieve(&mut self) -> (r: Result<(), ExecError>)
        requires
            old(self).ip < old(self).instructions.len(),
        ensures
            same_program(*old(self), *final(self)),
            final(self).heap == old(self).heap,
            final(self).call_stack == old(self).call_stack,
            final(self).input == old(self).input,
            final(self).output == old(self).output,
            old(self).stack@.len() == 0 ==> r == Err::<(), ExecError>(ExecError::StackUnderflow)
                && final(self).stack == old(self).stack && final(self).ip == old(self).ip,
            old(self).stack@.len() > 0 ==> {
                let n = old(self).stack@.len() as int;
                r == Ok::<(), ExecError>(()) && final(self).stack@ == old(self).stack@.take(n - 1)
                    .push(heap_at(old(self).heap@, old(self).stack@[n - 1] as int)) && final(self).ip == old(self).ip + 1
            },
    {
        if self.stack.len() > 0 {
            let address = self.stack.pop().unwrap();
            let value = self.read_heap(address);
            self.stack.push(value);
            proof {
                let n = old(self).stack@.len() as int;
                assert(self.stack@ =~= old(self).stack@.take(n - 1).push(value));
            }
            self.move_on()
        } else {
            Err(ExecError::StackUnderflow)
        }
    }

    /// Sets the pointer to the index the label table records for `label`,
    /// or fails with a missing-label error leaving the machine untouched.
    fn run_jump(&mut self, label: &String) -> (r: Result<(), ExecError>)
        ensures
            same_program(*old(self), *final(self)),
            final(self).stack == old(self).stack,
            final(self).heap == old(self).heap,
            final(self).call_stack == old(self).call_stack,
            final(self).input == old(self).input,
            final(self).output == old(self).output,
            old(self).labels@.contains_key(label@) ==> r == Ok::<(), ExecError>(()) && final(self).ip as int == old(self).labels@[label@],
            !old(self).labels@.contains_key(label@) ==> r == Err::<(), ExecError>(
                ExecError::MissingLabel,
            ) && final(self).ip == old(self).ip,
    {
        match self.labels.get(label) {
            Some(new_ip) => {
                self.ip = new_ip;
                Ok(())
            },
            None => Err(ExecError::MissingLabel),
        }
    }

    /// Records the current pointer on the return-address stack, then
    /// jumps unconditionally to `label`.  The record stays even when the
    /// label is missing and the jump fails.
    fn run_callsubroutine(&mut self, label: &String) -> (r: Result<(), ExecError>)
        requires
            old(self).ip < old(self).instructions.len(),
        ensures
            same_program(*old(self), *final(self)),
            final(self).stack == old(self).stack,
            final(self).heap == old(self).heap,
            final(self).input == old(self).input,
            final(self).output == old(self).output,
            final(self).call_stack@ == old(self).call_stack@.push(old(self).ip),
            old(self).labels@.contains_key(label@) ==> r == Ok::<(), ExecError>(()) && final(self).ip as int == old(self).labels@[label@],
            !old(self).labels@.contains_key(label@) ==> r == Err::<(), ExecError>(
                ExecError::MissingLabel,
            ) && final(self).ip == old(self).ip,
    {
        let here = self.ip;
        self.call_stack.push(here);
        self.run_jump(label)
    }

    /// Pops the top of the data stack and jumps to `label` when the
    /// popped value satisfies the chosen test (negative, or else zero);
    /// otherwise the pointer advances.  The popped value is consumed
    /// whatever the outcome; underflow when the stack is empty.
    fn conditionnal_jump(&mut self, label: &String, jump_if_negative: bool) -> (r: Result<
        (),
        ExecError,
    >)
        requires
            old(self).ip < old(self).instructions.len(),
        ensures
            same_program(*old(self), *final(self)),
            final(self).heap == old(self).heap,
            final(self).call_stack == old(self).call_stack,
            final(self).input == old(self).input,
            final(self).output == old(self).output,
            old(self).stack@.len() == 0 ==> r == Err::<(), ExecError>(ExecError::StackUnderflow)
                && final(self).stack == old(self).stack && final(self).ip == old(self).ip,
            old(self).stack@.len() > 0 ==> {
                let top = old(self).stack@.last();
                let taken = if jump_if_negative {
                    top < 0
                } else {
                    top == 0
                };
                final(self).stack@ == old(self).stack@.drop_last() && if taken {
                    if old(self).labels@.contains_key(label@) {
                        r == Ok::<(), ExecError>(()) && final(self).ip as int == old(self).labels@[label@]
                    } else {
                        r == Err::<(), ExecError>(ExecError::MissingLabel) && final(self).ip
                            == old(self).ip
                    }
                } else {
                    r == Ok::<(), ExecError>(()) && final(self).ip == old(self).ip + 1
                }
            },
    {
        if self.stack.len() > 0 {
            let top_stack_value = self.stack.pop().unwrap();
            let taken = if jump_if_negative {
                top_stack_value < 0
            } else {
                top_stack_value == 0
            };
            if taken {
                self.run_jump(label)
            } else {
                self.move_on()
            }
        } else {
            Err(ExecError::StackUnderflow)
        }
    }

    /// Pops the top and jumps to `label` when it is zero.
    fn run_jzero(&mut self, label: &String) -> (r: Result<(), ExecError>)
        requires
            old(self).ip < old(self).instructions.len(),
        ensures
            same_program(*old(self), *final(self)),
            final(self).heap == old(self).heap,
            final(self).call_stack == old(self).call_stack,
            final(self).input == old(self).input,
            final(self).output == old(self).output,
            old(self).stack@.len() == 0 ==> r == Err::<(), ExecError>(ExecError::StackUnderflow)
                && final(self).stack == old(self).stack && final(self).ip == old(self).ip,
            old(self).stack@.len() > 0 ==> {
                let top = old(self).stack@.last();
                final(self).stack@ == old(self).stack@.drop_last() && if top == 0 {
                    if old(self).labels@.contains_key(label@) {
                        r == Ok::<(), ExecError>(()) && final(self).ip as int == old(self).labels@[label@]
                    } else {
                        r == Err::<(), ExecError>(ExecError::MissingLabel) && final(self).ip
                            == old(self).ip
                    }
                } else {
                    r == Ok::<(), ExecError>(()) && final(self).ip == old(self).ip + 1
                }
            },
    {
        self.conditionnal_jump(label, false)
    }

    /// Pops the top and jumps to `label` when it is negative.
    fn run_jneg(&mut self, label: &String) -> (r: Result<(), ExecError>)
        requires
            old(self).ip < old(self).instructions.len(),
        ensures
            same_program(*old(self), *final(self)),
            final(self).heap == old(self).heap,
            final(self).call_stack == old(self).call_stack,
            final(self).input == old(self).input,
            final(self).output == old(self).output,
            old(self).stack@.len() == 0 ==> r == Err::<(), ExecError>(ExecError::StackUnderflow)
                && final(self).stack == old(self).stack && final(self).ip == old(self).ip,
            old(self).stack@.len() > 0 ==> {
                let top = old(self).stack@.last();
                final(self).stack@ == old(self).stack@.drop_last() && if top < 0 {
                    if old(self).labels@.contains_key(label@) {
                        r == Ok::<(), ExecError>(()) && final(self).ip as int == old(self).labels@[label@]
                    } else {
                        r == Err::<(), ExecError>(ExecError::MissingLabel) && final(self).ip
                            == old(self).ip
                    }
                } else {
                    r == Ok::<(), ExecError>(()) && final(self).ip == old(self).ip + 1
                }
            },
    {
        self.conditionnal_jump(label, true)
    }

    /// Pops the return-address stack and resumes at the instruction after
    /// the recorded address; an empty return-address stack is an error.
    fn run_endofsubroutine(&mut self) -> (r: Result<(), ExecError>)
        requires
            old(self).wf(),
        ensures
            same_program(*old(self), *final(self)),
            final(self).stack == old(self).stack,
            final(self).heap == old(self).heap,
            final(self).input == old(self).input,
            final(self).output == old(self).output,
            old(self).call_stack@.len() == 0 ==> r == Err::<(), ExecError>(
                ExecError::CallStackUnderflow,
            ) && final(self).call_stack == old(self).call_stack && final(self).ip == old(self).ip,
            old(self).call_stack@.len() > 0 ==> r == Ok::<(), ExecError>(()) && final(self).call_stack@ == old(self).call_stack@.drop_last() && final(self).ip == old(self).call_stack@.last() + 1,
    {
        if self.call_stack.len() > 0 {
            let previous_address = self.call_stack.pop().unwrap();
            proof {
                assert((old(self).call_stack@[old(self).call_stack@.len() - 1] as int) < old(self).instructions@.len());
            }
            proof {
                assert(previous_address == old(self).call_stack@.last());
                assert(self.call_stack@ =~= old(self).call_stack@.drop_last());
                assert(old(self).instructions.len() == old(self).instructions@.len());
            }
            self.ip = previous_address;
            self.move_on()
        } else {
            Err(ExecError::CallStackUnderflow)
        }
    }

    /// Pops the top and emits it as one character, keeping only its low 8
    /// bits; underflow when the stack is empty.
    fn run_printchar(&mut self) -> (r: Result<(), ExecError>)
        requires
            old(self).ip < old(self).instructions.len(),
        ensures
            same_program(*old(self), *final(self)),
            final(self).heap == old(self).heap,
            final(self).call_stack == old(self).call_stack,
            final(self).input == old(self).input,
            old(self).stack@.len() == 0 ==> r == Err::<(), ExecError>(ExecError::StackUnderflow)
                && final(self).stack == old(self).stack && final(self).ip == old(self).ip
                && final(self).output == old(self).output,
            old(self).stack@.len() > 0 ==> r == Ok::<(), ExecError>(()) && final(self).stack@
                == old(self).stack@.drop_last() && final(self).output@ == old(self).output@.push(
                OutputEvent::Char(old(self).stack@.last() as u8),
            ) && final(self).ip == old(self).ip + 1,
    {
        if self.stack.len() > 0 {
            let top_stack_value = self.stack.pop().unwrap();
            let byte: u8 = #[verifier::truncate] (top_stack_value as u8);
            self.output.push(OutputEvent::Char(byte));
            self.move_on()
        } else {
            Err(ExecError::StackUnderflow)
        }
    }

    /// Pops the top and emits it as a decimal integer; underflow when the
    /// stack is empty.
    fn run_printint(&mut self) -> (r: Result<(), ExecError>)
        requires
            old(self).ip < old(self).instructions.len(),
        ensures
            same_program(*old(self), *final(self)),
            final(self).heap == old(self).heap,
            final(self).call_stack == old(self).call_stack,
            final(self).input == old(self).input,
            old(self).stack@.len() == 0 ==> r == Err::<(), ExecError>(ExecError::StackUnderflow)
                && final(self).stack == old(self).stack && final(self).ip == old(self).ip
                && final(self).output == old(self).output,
            old(self).stack@.len() > 0 ==> r == Ok::<(), ExecError>(()) && final(self).stack@
                == old(self).stack@.drop_last() && final(self).output@ == old(self).output@.push(
                OutputEvent::Int(old(self).stack@.last()),
            ) && final(self).ip == old(self).ip + 1,
    {
        if self.stack.len() > 0 {
            let top_stack_value = self.stack.pop().unwrap();
            self.output.push(OutputEvent::Int(top_stack_value));
            self.move_on()
        } else {
            Err(ExecError::StackUnderflow)
        }
    }

    /// Pops a destination address, consumes one character of external
    /// input and stores its code at that address.  An empty input queue
    /// stands for exhausted input and is an input failure; a negative
    /// address is an error after the character and the address are
    /// consumed.
    fn run_readchar(&mut self) -> (r: Result<(), ExecError>)
        requires
            old(self).ip < old(self).instructions.len(),
        ensures
            same_program(*old(self), *final(self)),
            final(self).call_stack == old(self).call_stack,
            final(self).output == old(self).output,
            old(self).stack@.len() == 0 ==> r == Err::<(), ExecError>(ExecError::StackUnderflow)
                && final(self).stack == old(self).stack && final(self).ip == old(self).ip
                && final(self).heap == old(self).heap && final(self).input == old(self).input,
            old(self).stack@.len() > 0 && old(self).input@.len() == 0 ==> r == Err::<(), ExecError>(ExecError::InputParseFailure) && final(self).stack == old(self).stack && final(self).ip == old(self).ip && final(self).heap == old(self).heap && final(self).input == old(self).input,
            old(self).stack@.len() > 0 && old(self).input@.len() > 0 ==> {
                let c = old(self).input@[0];
                let address = old(self).stack@.last();
                final(self).stack@ == old(self).stack@.drop_last() && final(self).input@ == old(self).input@.skip(1) && if address < 0 {
                    r == Err::<(), ExecError>(ExecError::NegativeAddress) && final(self).ip == old(self).ip && final(self).heap == old(self).heap
                } else {
                    r == Ok::<(), ExecError>(()) && final(self).ip == old(self).ip + 1 && final(self).heap@ == heap_write(old(self).heap@, address as int, c as i32)
                }
            },
    {
        if self.stack.len() == 0 {
            return Err(ExecError::StackUnderflow);
        }
        if self.input.len() == 0 {
            return Err(ExecError::InputParseFailure);
        }
        let c = self.input.remove(0);
        proof {
            assert(self.input@ =~= old(self).input@.skip(1));
        }
        let address = self.stack.pop().unwrap();
        proof {
            assert(self.stack@ =~= old(self).stack@.drop_last());
        }
        if address < 0 {
            return Err(ExecError::NegativeAddress);
        }
        let code: i32 = c as i32;
        self.write_heap(address, code);
        self.move_on()
    }

    /// Pops a destination address, consumes one line of external input,
    /// parses it as a signed integer and stores the value at that
    /// address.  A line that is not an integer - an exhausted input queue
    /// included - is an input failure after the line is consumed; a
    /// negative address is an error after the line and the address are
    /// consumed.
    fn run_readint(&mut self) -> (r: Result<(), ExecError>)
        requires
            old(self).ip < old(self).instructions.len(),
        ensures
            same_program(*old(self), *final(self)),
            final(self).call_stack == old(self).call_stack,
            final(self).output == old(self).output,
            old(self).stack@.len() == 0 ==> r == Err::<(), ExecError>(ExecError::StackUnderflow)
                && final(self).stack == old(self).stack && final(self).ip == old(self).ip
                && final(self).heap == old(self).heap && final(self).input == old(self).input,
            old(self).stack@.len() > 0 ==> {
                let line = old(self).input@.take(nl_index(old(self).input@));
                let rest = old(self).input@.skip(line_consumed(old(self).input@));
                final(self).input@ == rest && match int_of_line(line) {
                    None => r == Err::<(), ExecError>(ExecError::InputParseFailure) && final(self).stack == old(self).stack && final(self).ip == old(self).ip && final(self).heap == old(self).heap,
                    Some(v) => {
                        let address = old(self).stack@.last();
                        final(self).stack@ == old(self).stack@.drop_last() && if address < 0 {
                            r == Err::<(), ExecError>(ExecError::NegativeAddress)
                                && final(self).ip == old(self).ip
                                && final(self).heap == old(self).heap
                        } else {
                            r == Ok::<(), ExecError>(())
                                && final(self).ip == old(self).ip + 1
                                && final(self).heap@ == heap_write(
                                old(self).heap@,
                                address as int,
                                v,
                            )
                        }
                    },
                }
            },
    {
        if self.stack.len() == 0 {
            return Err(ExecError::StackUnderflow);
        }
        let line = take_line(&mut self.input);
        let parsed = crate::numtext::parse_int_chars(line.as_slice());
        match parsed {
            None => Err(ExecError::InputParseFailure),
            Some(v) => {
                let address = self.stack.pop().unwrap();
                proof {
                    assert(self.stack@ =~= old(self).stack@.drop_last());
                }
                if address < 0 {
                    return Err(ExecError::NegativeAddress);
                }
                self.write_heap(address, v);
                self.move_on()
            },
        }
    }

    /// Executes the instruction under the pointer and reports its result:
    /// exactly the transition that [`step`] describes.  A pointer outside
    /// the program is a fatal error, not a crash; the explicit
    /// end-of-program instruction succeeds and leaves the pointer where
    /// it is.
    pub fn run_instruction(&mut self) -> (r: Result<(), ExecError>)
        requires
            old(self).wf(),
        ensures
            final(self).wf(),
            same_program(*old(self), *final(self)),
            final(self).mview() == step(
                old(self).instructions@,
                old(self).labels@,
                old(self).mview(),
            ).post,
            r == step(old(self).instructions@, old(self).labels@, old(self).mview()).result,
    {
        let ghost so = step(old(self).instructions@, old(self).labels@, old(self).mview());
        if self.ip >= self.instructions.len() {
            proof {
                assert(self.mview() =~= so.post);
            }
            return Err(ExecError::PointerOutOfBounds);
        }
        let instruction = clone_instruction(vstd::std_specs::vec::vec_index(
            &self.instructions,
            self.ip,
        ));
        let res = match instruction {
            Instruction::Push(v) => self.run_push(v),
            Instruction::Duplicate => self.run_duplicate(),
            Instruction::CopyNth(v) => self.run_copynth(v),
            Instruction::Swap => self.run_swap(),
            Instruction::Discard => self.run_discard(),
            Instruction::Slide(v) => self.run_slide(v),
            Instruction::Add => self.run_add(),
            Instruction::Sub => self.run_sub(),
            Instruction::Mul => self.run_mul(),
            Instruction::Div => self.run_div(),
            Instruction::Mod => self.run_mod(),
            Instruction::Store => self.run_store(),
            Instruction::Retrieve => self.run_retrieve(),
            Instruction::SetLabel(_) => self.move_on(),
            Instruction::CallSubroutine(subroutine) => self.run_callsubroutine(&subroutine),
            Instruction::Jump(label) => self.run_jump(&label),
            Instruction::JZero(label) => self.run_jzero(&label),
            Instruction::JNeg(label) => self.run_jneg(&label),
            Instruction::EndOfSubroutine => self.run_endofsubroutine(),
            Instruction::EndOfProgram => Ok(()),
            Instruction::PrintChar => self.run_printchar(),
            Instruction::PrintInt => self.run_printint(),
            Instruction::ReadChar => self.run_readchar(),
            Instruction::ReadInt => self.run_readint(),
        };
        proof {
            assert(self.mview() =~= so.post);
            assert(res == so.result);
        }
        res
    }

    /// Executes `n` instructions and reports only the outcome of the
    /// last one: an error among the first `n - 1` steps neither stops
    /// execution nor shows in the result, exactly as [`steps`] iterates
    /// the transition.
    pub fn run_n(&mut self, n: usize) -> (r: Result<(), ExecError>)
        requires
            old(self).wf(),
            n >= 1,
        ensures
            final(self).wf(),
            same_program(*old(self), *final(self)),
            final(self).mview() == steps(
                old(self).instructions@,
                old(self).labels@,
                old(self).mview(),
                n as nat,
            ),
            r == step(
                old(self).instructions@,
                old(self).labels@,
                steps(
                    old(self).instructions@,
                    old(self).labels@,
                    old(self).mview(),
                    (n - 1) as nat,
                ),
            ).result,
    {
        let ghost prog = old(self).instructions@;
        let ghost lmap = old(self).labels@;
        let ghost s0 = old(self).mview();
        let mut i: usize = 0;
        while i < n - 1
            invariant
                0 <= i <= n - 1,
                n >= 1,
                self.wf(),
                same_program(*old(self), *self),
                prog == old(self).instructions@,
                lmap == old(self).labels@,
                s0 == old(self).mview(),
                self.mview() == steps(prog, lmap, s0, i as nat),
            decreases n - 1 - i,
        {
            let _ = self.run_instruction();
            i = i + 1;
        }
        self.run_instruction()
    }
}

/// The machine's overall condition: still running, normally terminated
/// by an explicit end-of-program instruction, or stopped by its first
/// failure.  Both terminal conditions are absorbing.
#[derive(PartialEq, Eq, Structural, Clone, Copy, Debug)]
pub enum MachineStatus {
    Running,
    NormallyTerminated,
    Failed(ExecError),
}

/// Running the machine with a step budget: executes instruction after
/// instruction until the current instruction is the end-of-program
/// marker (normal termination), a step fails (the first failure stops
/// the run and is reported), the pointer leaves the program, or the
/// budget runs out with the machine still running.
pub open spec fn run_outcome(
    prog: Seq<Instruction>,
    labels: Map<Seq<char>, int>,
    s: MachineView,
    fuel: nat,
) -> (MachineView, MachineStatus)
    decreases fuel,
{
    if !(0 <= s.ip < prog.len()) {
        (s, MachineStatus::Failed(ExecError::PointerOutOfBounds))
    } else if prog[s.ip] is EndOfProgram {
        (s, MachineStatus::NormallyTerminated)
    } else if fuel == 0 {
        (s, MachineStatus::Running)
    } else {
        let so = step(prog, labels, s);
        match so.result {
            Err(e) => (so.post, MachineStatus::Failed(e)),
            Ok(u) => run_outcome(prog, labels, so.post, (fuel - 1) as nat),
        }
    }
}

impl VirtualMachine {
    /// Executes up to `max_steps` instructions, swallowing nothing: the
    /// run stops at normal termination or at the first failure, which is
    /// reported; a run that exhausts the budget is still running.
    /// Exactly the run that [`run_outcome`] describes.
    #[verifier::loop_isolation(false)]
    pub fn run_program(&mut self, max_steps: usize) -> (r: MachineStatus)
        requires
            old(self).wf(),
        ensures
            final(self).wf(),
            same_program(*old(self), *final(self)),
            ({
                let (post, status) = run_outcome(
                    old(self).instructions@,
                    old(self).labels@,
                    old(self).mview(),
                    max_steps as nat,
                );
                final(self).mview() == post && r == status
            }),
    {
        let ghost prog = old(self).instructions@;
        let ghost lmap = old(self).labels@;
        let ghost s0 = old(self).mview();
        let mut fuel = max_steps;
        loop
            invariant
                self.wf(),
                same_program(*old(self), *self),
                prog == self.instructions@,
                lmap == self.labels@,
                run_outcome(prog, lmap, s0, max_steps as nat) == run_outcome(
                    prog,
                    lmap,
                    self.mview(),
                    fuel as nat,
                ),
            decreases fuel,
        {
            if self.ip >= self.instructions.len() {
                return MachineStatus::Failed(ExecError::PointerOutOfBounds);
            }
            let at_end = match vstd::std_specs::vec::vec_index(&self.instructions, self.ip) {
                Instruction::EndOfProgram => true,
                _ => false,
            };
            if at_end {
                return MachineStatus::NormallyTerminated;
            }
            if fuel == 0 {
                return MachineStatus::Running;
            }
            match self.run_instruction() {
                Err(e) => {
                    return MachineStatus::Failed(e);
                },
                Ok(_) => {},
            }
            fuel = fuel - 1;
        }
    }
}

/// The least number of data-stack elements an instruction demands before
/// it does any work, for the operations that demand any: the stack,
/// arithmetic and memory operations, the conditional jumps and the
/// print and read operations.
pub open spec fn min_operands(i: Instruction) -> Option<int> {
    match i {
        Instruction::Duplicate => Some(1),
        Instruction::CopyNth(k) => if k >= 0 {
            Some(k + 1)
        } else {
            None
        },
        Instruction::Swap => Some(2),
        Instruction::Discard => Some(1),
        Instruction::Slide(k) => if k >= 0 {
            Some(k + 1)
        } else {
            None
        },
        Instruction::Add => Some(2),
        Instruction::Sub => Some(2),
        Instruction::Mul => Some(2),
        Instruction::Div => Some(2),
        Instruction::Mod => Some(2),
        Instruction::Store => Some(2),
        Instruction::Retrieve => Some(1),
        Instruction::JZero(_) => Some(1),
        Instruction::JNeg(_) => Some(1),
        Instruction::PrintChar => Some(1),
        Instruction::PrintInt => Some(1),
        Instruction::ReadChar => Some(1),
        Instruction::ReadInt => Some(1),
        _ => None,
    }
}

/// Law: an operation that finds fewer data-stack elements than its
/// minimum always fails with a stack underflow and mutates nothing - in
/// particular the pointer stays where it was.
pub proof fn lemma_underflow_leaves_state(
    prog: Seq<Instruction>,
    labels: Map<Seq<char>, int>,
    s: MachineView,
)
    requires
        0 <= s.ip < prog.len(),
        min_operands(prog[s.ip]) is Some,
        s.stack.len() < min_operands(prog[s.ip]).unwrap(),
    ensures
        step(prog, labels, s).result == Err::<(), ExecError>(ExecError::StackUnderflow),
        step(prog, labels, s).post == s,
{
    assert(step(prog, labels, s).post =~= s);
}

/// Law: one step never shrinks the memory region, and a retrieve
/// instruction leaves the region exactly as it was.
pub proof fn lemma_step_heap_monotonic(
    prog: Seq<Instruction>,
    labels: Map<Seq<char>, int>,
    s: MachineView,
)
    ensures
        step(prog, labels, s).post.heap.len() >= s.heap.len(),
        0 <= s.ip < prog.len() && prog[s.ip] is Retrieve ==> step(prog, labels, s).post.heap
            == s.heap,
{
}

/// The text a sequence of output events prints: each character event is
/// its one character, each integer event its decimal text.
pub open spec fn output_text(events: Seq<OutputEvent>) -> Seq<char>
    decreases events.len(),
{
    if events.len() == 0 {
        Seq::empty()
    } else {
        output_text(events.drop_last()) + (match events.last() {
            OutputEvent::Char(b) => seq![b as char],
            OutputEvent::Int(v) => crate::numtext::dec_chars(v as int),
        })
    }
}

/// Renders emitted output events as the text they stand for.
#[verifier::loop_isolation(false)]
pub fn render_output(events: &Vec<OutputEvent>) -> (s: String)
    ensures
        s@ == output_text(events@),
{
    let mut s = String::new();
    let n = events.len();
    let mut i: usize = 0;
    while i < n
        invariant
            0 <= i <= n,
            s@ == output_text(events@.take(i as int)),
        decreases n - i,
    {
        let e = *vstd::std_specs::vec::vec_index(events, i);
        match e {
            OutputEvent::Char(b) => {
                let c: char = b as char;
                crate::numtext::push_char(&mut s, c);
            },
            OutputEvent::Int(v) => {
                let text = crate::numtext::int_to_string(v);
                s.append(text.as_str());
            },
        }
        proof {
            assert(events@.take(i + 1).drop_last() =~= events@.take(i as int));
            assert(events@.take(i + 1).last() == events@[i as int]);
            assert(s@ =~= output_text(events@.take(i + 1)));
        }
        i = i + 1;
    }
    proof {
        assert(events@.take(n as int) =~= events@);
    }
    s
}

/// Law: the memory region's length is monotonically non-decreasing
/// across any execution.
pub proof fn lemma_steps_heap_monotonic(
    prog: Seq<Instruction>,
    labels: Map<Seq<char>, int>,
    s: MachineView,
    n: nat,
)
    ensures
        steps(prog, labels, s, n).heap.len() >= s.heap.len(),
    decreases n,
{
    if n > 0 {
        lemma_steps_heap_monotonic(prog, labels, s, (n - 1) as nat);
        lemma_step_heap_monotonic(prog, labels, steps(prog, labels, s, (n - 1) as nat));
    }
}

} // verus!
