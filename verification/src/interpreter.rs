//! A brainfuck interpreter over a 30,000-cell tape of wrapping bytes.
//!
//! The head wraps at both ends of the tape, `,` stores 0 on end of
//! input and execution continues, and the `#` debug sentinel aborts
//! the run unless the twenty cells at the right end of the tape — the
//! temp pool, by the generator's layout — are all zero. A run is a
//! pure function of the program text and the input bytes: `run`'s
//! contract equates it with the spec-level machine `interp_spec`.

use vstd::prelude::*;
use vstd::string::StrSliceExecFns;

verus! {

/// Cells on the interpreter's tape.
pub const INTERP_TAPE: usize = 30000;

/// The run is aborted after this many executed commands.
pub const MAX_INSTRUCTIONS: u64 = 100_000_000_000_000;

/// How many trailing cells the `#` sentinel requires to be zero.
pub const SENTINEL_CELLS: usize = 20;

/// Why a run stopped without completing.
#[derive(Debug, Clone, PartialEq, Eq, Structural)]
pub enum Fault {
    /// The program's `[` and `]` counts differ.
    UnevenBrackets,
    /// A `#` sentinel found a non-zero temp cell.
    SentinelFailure,
    /// The instruction ceiling was reached.
    TooManyInstructions,
}

/// The machine state of a run.
pub struct MachineState {
    pub tape: Seq<u8>,
    pub ptr: int,
    pub ip: int,
    pub inpos: int,
    pub out: Seq<u8>,
}

/// How a spec-level run ends.
pub enum RunOutcome {
    /// The instruction pointer left the program.
    Finished(MachineState),
    /// A `#` sentinel failed.
    SentinelFault(MachineState),
    /// The fuel ran out first.
    OutOfSteps(MachineState),
}

/// The jump table and open-bracket stack after scanning `n` characters.
/// Unmatched brackets keep the table entry 0.
pub open spec fn jump_fold(code: Seq<char>, n: int) -> (Seq<int>, Seq<int>)
    decreases n,
{
    if n <= 0 {
        (Seq::new(code.len(), |i: int| 0int), Seq::empty())
    } else {
        let (jt, stk) = jump_fold(code, n - 1);
        let c = code[n - 1];
        if c == '[' {
            (jt, stk.push(n - 1))
        } else if c == ']' {
            if stk.len() > 0 {
                (jt.update(stk.last(), n - 1).update(n - 1, stk.last()), stk.drop_last())
            } else {
                (jt, stk)
            }
        } else {
            (jt, stk)
        }
    }
}

/// The jump table of a program: each `[` maps to its `]` and back.
pub open spec fn jumps_spec(code: Seq<char>) -> Seq<int> {
    jump_fold(code, code.len() as int).0
}

/// A byte incremented with wrap-around.
pub open spec fn wrap_inc(b: u8) -> u8 {
    if b == 255 {
        0
    } else {
        (b + 1) as u8
    }
}

/// A byte decremented with wrap-around.
pub open spec fn wrap_dec(b: u8) -> u8 {
    if b == 0 {
        255
    } else {
        (b - 1) as u8
    }
}

/// The sentinel's demand: the last `SENTINEL_CELLS` cells are zero.
pub open spec fn temps_zero(tape: Seq<u8>) -> bool {
    forall|k: int|
        INTERP_TAPE - SENTINEL_CELLS <= k < INTERP_TAPE ==> #[trigger] tape[k] == 0
}

/// One command executed on the machine state. `#` and unknown
/// characters only advance the instruction pointer.
pub open spec fn step_spec(
    code: Seq<char>,
    jt: Seq<int>,
    input: Seq<u8>,
    st: MachineState,
) -> MachineState {
    let c = code[st.ip];
    if c == '>' {
        let p = if st.ptr + 1 >= INTERP_TAPE {
            st.ptr + 1 - INTERP_TAPE
        } else {
            st.ptr + 1
        };
        MachineState { ptr: p, ip: st.ip + 1, ..st }
    } else if c == '<' {
        let p = if st.ptr - 1 < 0 {
            st.ptr - 1 + INTERP_TAPE
        } else {
            st.ptr - 1
        };
        MachineState { ptr: p, ip: st.ip + 1, ..st }
    } else if c == '+' {
        MachineState { tape: st.tape.update(st.ptr, wrap_inc(st.tape[st.ptr])), ip: st.ip + 1, ..st }
    } else if c == '-' {
        MachineState { tape: st.tape.update(st.ptr, wrap_dec(st.tape[st.ptr])), ip: st.ip + 1, ..st }
    } else if c == '.' {
        MachineState { out: st.out.push(st.tape[st.ptr]), ip: st.ip + 1, ..st }
    } else if c == ',' {
        if st.inpos < input.len() {
            MachineState {
                tape: st.tape.update(st.ptr, input[st.inpos]),
                inpos: st.inpos + 1,
                ip: st.ip + 1,
                ..st
            }
        } else {
            MachineState { tape: st.tape.update(st.ptr, 0), ip: st.ip + 1, ..st }
        }
    } else if c == '[' {
        if st.tape[st.ptr] == 0 {
            MachineState { ip: jt[st.ip] + 1, ..st }
        } else {
            MachineState { ip: st.ip + 1, ..st }
        }
    } else if c == ']' {
        if st.tape[st.ptr] != 0 {
            MachineState { ip: jt[st.ip] + 1, ..st }
        } else {
            MachineState { ip: st.ip + 1, ..st }
        }
    } else {
        MachineState { ip: st.ip + 1, ..st }
    }
}

/// Run the machine until the program ends, a sentinel fails, or the
/// fuel runs out.
pub open spec fn run_spec(
    code: Seq<char>,
    jt: Seq<int>,
    input: Seq<u8>,
    st: MachineState,
    fuel: nat,
) -> RunOutcome
    decreases fuel,
{
    if st.ip < 0 || st.ip >= code.len() {
        RunOutcome::Finished(st)
    } else if fuel == 0 {
        RunOutcome::OutOfSteps(st)
    } else if code[st.ip] == '#' && !temps_zero(st.tape) {
        RunOutcome::SentinelFault(st)
    } else {
        run_spec(code, jt, input, step_spec(code, jt, input, st), (fuel - 1) as nat)
    }
}

/// The machine as it starts: a zero tape, everything at the origin.
pub open spec fn init_state() -> MachineState {
    MachineState {
        tape: Seq::new(INTERP_TAPE as nat, |i: int| 0u8),
        ptr: 0,
        ip: 0,
        inpos: 0,
        out: Seq::empty(),
    }
}

/// A whole run as a function of the program text and the input bytes.
pub open spec fn interp_spec(code: Seq<char>, input: Seq<u8>) -> RunOutcome {
    run_spec(code, jumps_spec(code), input, init_state(), MAX_INSTRUCTIONS as nat)
}

/// Occurrences of one character in a text.
pub open spec fn count_char(s: Seq<char>, c: char) -> int
    decreases s.len(),
{
    if s.len() == 0 {
        0
    } else {
        count_char(s.drop_last(), c) + (if s.last() == c {
            1int
        } else {
            0int
        })
    }
}

/// The brainfuck interpreter: a fresh tape per run.
pub struct Interpreter {
    tape: Vec<u8>,
    pointer: usize,
    instructions_ran: u64,
}

impl Interpreter {
    /// A machine that has run nothing yet: a zeroed tape, the head at
    /// cell 0, no commands executed.
    pub closed spec fn is_fresh(&self) -> bool {
        &&& self.tape@ == init_state().tape
        &&& self.pointer == 0
        &&& self.instructions_ran == 0
    }

    /// A machine with a zeroed tape and the head at cell 0.
    pub fn new() -> (r: Self)
        ensures
            r.is_fresh(),
    {
        let mut tape: Vec<u8> = Vec::new();
        let mut i: usize = 0;
        while i < INTERP_TAPE
            invariant
                i <= INTERP_TAPE,
                tape@ == Seq::new(i as nat, |k: int| 0u8),
            decreases INTERP_TAPE - i,
        {
            tape.push(0);
            proof {
                assert(tape@ =~= Seq::new((i + 1) as nat, |k: int| 0u8));
            }
            i = i + 1;
        }
        Interpreter { tape, pointer: 0, instructions_ran: 0 }
    }

    /// Precompute the bracket jump table.
    fn calculate_jumps(code: &Vec<char>) -> (jt: Vec<usize>)
        ensures
            jt@.len() == code@.len(),
            jt@.map_values(|x: usize| x as int) == jumps_spec(code@),
    {
        let n = code.len();
        let mut jt: Vec<usize> = Vec::new();
        let mut i: usize = 0;
        while i < n
            invariant
                i <= n,
                n == code@.len(),
                jt@ == Seq::new(i as nat, |k: int| 0usize),
            decreases n - i,
        {
            jt.push(0);
            proof {
                assert(jt@ =~= Seq::new((i + 1) as nat, |k: int| 0usize));
            }
            i = i + 1;
        }
        let mut stack: Vec<usize> = Vec::new();
        let mut i: usize = 0;
        proof {
            assert(jt@.map_values(|x: usize| x as int) =~= jump_fold(code@, 0).0);
            assert(stack@.map_values(|x: usize| x as int) =~= jump_fold(code@, 0).1);
        }
        while i < n
            invariant
                i <= n,
                n == code@.len(),
                jt@.len() == n,
                forall|k: int| 0 <= k < stack@.len() ==> #[trigger] stack@[k] < n,
                jt@.map_values(|x: usize| x as int) == jump_fold(code@, i as int).0,
                stack@.map_values(|x: usize| x as int) == jump_fold(code@, i as int).1,
            decreases n - i,
        {
            let c = code[i];
            if c == '[' {
                stack.push(i);
                proof {
                    assert(stack@.map_values(|x: usize| x as int) =~= jump_fold(
                        code@,
                        i + 1,
                    ).1);
                }
            } else if c == ']' {
                if let Some(start) = stack.pop() {
                    let ghost pre = jt@.map_values(|x: usize| x as int);
                    jt[start] = i;
                    jt[i] = start;
                    proof {
                        assert(jt@.map_values(|x: usize| x as int) =~= pre.update(
                            start as int,
                            i as int,
                        ).update(i as int, start as int));
                        assert(stack@.map_values(|x: usize| x as int) =~= jump_fold(
                            code@,
                            i + 1,
                        ).1);
                    }
                }
            }
            i = i + 1;
        }
        proof {
            assert(jump_fold(code@, n as int) == jump_fold(code@, code@.len() as int));
        }
        jt
    }

    /// Whether the sentinel's cells are all zero.
    fn temps_clear(tape: &Vec<u8>) -> (b: bool)
        requires
            tape@.len() == INTERP_TAPE,
        ensures
            b == temps_zero(tape@),
    {
        let mut k: usize = INTERP_TAPE - SENTINEL_CELLS;
        while k < INTERP_TAPE
            invariant
                INTERP_TAPE - SENTINEL_CELLS <= k <= INTERP_TAPE,
                tape@.len() == INTERP_TAPE,
                forall|j: int|
                    INTERP_TAPE - SENTINEL_CELLS <= j < k ==> #[trigger] tape@[j] == 0,
            decreases INTERP_TAPE - k,
        {
            if tape[k] != 0 {
                return false;
            }
            k = k + 1;
        }
        true
    }

    /// Execute the program against the input bytes and return what it
    /// wrote. The result is exactly what the spec-level machine gives
    /// on the same text and input: a run is deterministic.
    pub fn run(self, code: &str, input: &Vec<u8>) -> (r: Result<Vec<u8>, Fault>)
        requires
            self.is_fresh(),
        ensures
            count_char(code@, '[') != count_char(code@, ']') <==> r == Err::<Vec<u8>, _>(
                Fault::UnevenBrackets,
            ),
            count_char(code@, '[') == count_char(code@, ']') ==> match interp_spec(
                code@,
                input@,
            ) {
                RunOutcome::Finished(st) => r is Ok && r->Ok_0@ == st.out,
                RunOutcome::SentinelFault(st) => r == Err::<Vec<u8>, _>(Fault::SentinelFailure),
                RunOutcome::OutOfSteps(st) => r == Err::<Vec<u8>, _>(
                    Fault::TooManyInstructions,
                ),
            },
    {
        let mut this = self;
        let code_v = crate::utils::collect_chars(code);
        if !Self::brackets_match(&code_v) {
            return Err(Fault::UnevenBrackets);
        }
        let jt = Self::calculate_jumps(&code_v);
        let ghost gjt = jumps_spec(code@);
        let n = code_v.len();
        let mut ip: usize = 0;
        let mut inpos: usize = 0;
        let mut out: Vec<u8> = Vec::new();
        while ip < n
            invariant
                n == code@.len(),
                code_v@ == code@,
                count_char(code@, '[') == count_char(code@, ']'),
                jt@.len() == n,
                jt@.map_values(|x: usize| x as int) == gjt,
                gjt == jumps_spec(code@),
                this.tape@.len() == INTERP_TAPE,
                this.pointer < INTERP_TAPE,
                this.instructions_ran <= MAX_INSTRUCTIONS,
                interp_spec(code@, input@) == run_spec(
                    code@,
                    gjt,
                    input@,
                    MachineState {
                        tape: this.tape@,
                        ptr: this.pointer as int,
                        ip: ip as int,
                        inpos: inpos as int,
                        out: out@,
                    },
                    (MAX_INSTRUCTIONS - this.instructions_ran) as nat,
                ),
            decreases MAX_INSTRUCTIONS - this.instructions_ran, n - ip,
        {
            let ghost cur = MachineState {
                tape: this.tape@,
                ptr: this.pointer as int,
                ip: ip as int,
                inpos: inpos as int,
                out: out@,
            };
            if this.instructions_ran >= MAX_INSTRUCTIONS {
                return Err(Fault::TooManyInstructions);
            }
            let c = code_v[ip];
            if c == '#' {
                if !Self::temps_clear(&this.tape) {
                    return Err(Fault::SentinelFailure);
                }
            }
            let ghost nxt = step_spec(code@, gjt, input@, cur);
            if c == '>' {
                if this.pointer + 1 >= INTERP_TAPE {
                    this.pointer = this.pointer + 1 - INTERP_TAPE;
                } else {
                    this.pointer = this.pointer + 1;
                }
                ip = ip + 1;
            } else if c == '<' {
                if this.pointer == 0 {
                    this.pointer = INTERP_TAPE - 1;
                } else {
                    this.pointer = this.pointer - 1;
                }
                ip = ip + 1;
            } else if c == '+' {
                let b = this.tape[this.pointer];
                let nb = if b == 255 {
                    0
                } else {
                    b + 1
                };
                this.tape[this.pointer] = nb;
                ip = ip + 1;
            } else if c == '-' {
                let b = this.tape[this.pointer];
                let nb = if b == 0 {
                    255
                } else {
                    b - 1
                };
                this.tape[this.pointer] = nb;
                ip = ip + 1;
            } else if c == '.' {
                let b = this.tape[this.pointer];
                out.push(b);
                ip = ip + 1;
            } else if c == ',' {
                if inpos < input.len() {
                    let b = input[inpos];
                    this.tape[this.pointer] = b;
                    inpos = inpos + 1;
                } else {
                    this.tape[this.pointer] = 0;
                }
                ip = ip + 1;
            } else if c == '[' {
                if this.tape[this.pointer] == 0 {
                    let t = jt[ip];
                    proof {
                        lemma_jump_fold_range(code@, code@.len() as int);
                    }
                    ip = t + 1;
                } else {
                    ip = ip + 1;
                }
            } else if c == ']' {
                if this.tape[this.pointer] != 0 {
                    let t = jt[ip];
                    proof {
                        lemma_jump_fold_range(code@, code@.len() as int);
                    }
                    ip = t + 1;
                } else {
                    ip = ip + 1;
                }
            } else {
                ip = ip + 1;
            }
            this.instructions_ran = this.instructions_ran + 1;
            proof {
                assert(MachineState {
                    tape: this.tape@,
                    ptr: this.pointer as int,
                    ip: ip as int,
                    inpos: inpos as int,
                    out: out@,
                } == nxt);
            }
        }
        Ok(out)
    }

    /// Whether `[` and `]` occur equally often.
    fn brackets_match(code: &Vec<char>) -> (b: bool)
        ensures
            b == (count_char(code@, '[') == count_char(code@, ']')),
    {
        let n = code.len();
        let mut opens: usize = 0;
        let mut closes: usize = 0;
        let mut i: usize = 0;
        while i < n
            invariant
                i <= n,
                n == code@.len(),
                opens == count_char(code@.take(i as int), '['),
                closes == count_char(code@.take(i as int), ']'),
                opens <= i,
                closes <= i,
            decreases n - i,
        {
            proof {
                assert(code@.take(i + 1).drop_last() =~= code@.take(i as int));
                assert(code@.take(i + 1).last() == code@[i as int]);
            }
            let c = code[i];
            if c == '[' {
                opens = opens + 1;
            } else if c == ']' {
                closes = closes + 1;
            }
            i = i + 1;
        }
        proof {
            assert(code@.take(n as int) =~= code@);
        }
        opens == closes
    }
}

/// Every entry the jump fold writes stays inside the program.
proof fn lemma_jump_fold_range(code: Seq<char>, n: int)
    requires
        0 <= n <= code.len(),
    ensures
        jump_fold(code, n).0.len() == code.len(),
        forall|k: int| 0 <= k < code.len() ==> 0 <= #[trigger] jump_fold(code, n).0[k]
            < code.len() || jump_fold(code, n).0[k] == 0,
        forall|k: int| 0 <= k < jump_fold(code, n).1.len() ==> 0 <= #[trigger] jump_fold(
            code,
            n,
        ).1[k] < code.len(),
    decreases n,
{
    if n <= 0 {
    } else {
        lemma_jump_fold_range(code, n - 1);
    }
}

} // verus!
