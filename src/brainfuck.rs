//! A Brainfuck interpreter: a program is parsed from text, with its loops
//! matched, and then run on an input and a data tape.
use vstd::prelude::*;
use vstd::string::StrSliceExecFns;

verus! {

/// Why a text is not a program.
#[derive(Debug, Clone, PartialEq, Eq)]
pub enum ParseError {
    /// The character at `location` is no instruction.
    UnknownInstruction { location: usize, instruction: char },
    /// The bracket at `location` has no partner.
    UnmatchedLoop { location: usize },
}

/// Why a run stopped before the end of the program.
#[derive(Debug, Clone, PartialEq, Eq)]
pub enum ExecuteError {
    /// The program read past the end of its input.
    NoInputLeft,
    /// The program ran for more than [`MAX_STEPS`] instructions.
    InfiniteLoop,
}

/// The most instructions that a run may execute.
pub const MAX_STEPS: usize = 10000;

pub open spec fn is_instruction(c: char) -> bool {
    c == '>' || c == '<' || c == '+' || c == '-' || c == '.' || c == ',' || c == '[' || c == ']'
}

/// How many loops are open after `s`: its `[` less its `]`.
pub open spec fn depth(s: Seq<char>) -> int
    decreases s.len(),
{
    if s.len() == 0 {
        0
    } else {
        depth(s.drop_last()) + if s.last() == '[' {
            1int
        } else if s.last() == ']' {
            -1int
        } else {
            0int
        }
    }
}

/// The first `k` characters of `code` are instructions, and none of them
/// closes a loop that was not open.
pub open spec fn sound_prefix(code: Seq<char>, k: int) -> bool {
    forall|j: int| 0 <= j < k ==> is_instruction(#[trigger] code[j]) && depth(code.take(j + 1)) >= 0
}

/// `code` is a program: only instructions, with every loop closed.
pub open spec fn is_program(code: Seq<char>) -> bool {
    sound_prefix(code, code.len() as int) && depth(code) == 0
}

/// The `]` at `j` closes the loop that the `[` at `i` opens.
pub open spec fn matched(code: Seq<char>, i: int, j: int) -> bool {
    &&& 0 <= i < j < code.len()
    &&& code[i] == '['
    &&& code[j] == ']'
    &&& depth(code.take(j + 1)) == depth(code.take(i))
    &&& forall|k: int| i < k <= j ==> depth(#[trigger] code.take(k)) > depth(code.take(i))
}

/// `jumps` gives each bracket of `code` its partner.
pub open spec fn jumps_match(code: Seq<char>, jumps: Seq<usize>) -> bool {
    &&& jumps.len() == code.len()
    &&& forall|i: int|
        0 <= i < code.len() && #[trigger] code[i] == '[' ==> matched(code, i, jumps[i] as int)
            && jumps[jumps[i] as int] == i
    &&& forall|j: int|
        0 <= j < code.len() && #[trigger] code[j] == ']' ==> matched(code, jumps[j] as int, j)
            && jumps[jumps[j] as int] == j
}

/// A parsed program: its instructions, and for each bracket the position of
/// its partner.
#[derive(Debug, PartialEq, Eq)]
pub struct Program {
    code: Vec<char>,
    jumps: Vec<usize>,
}

impl Program {
    pub closed spec fn code(&self) -> Seq<char> {
        self.code@
    }

    pub closed spec fn jumps(&self) -> Seq<usize> {
        self.jumps@
    }

    pub open spec fn wf(&self) -> bool {
        is_program(self.code()) && jumps_match(self.code(), self.jumps())
    }
}

proof fn lemma_take_depth(code: Seq<char>, i: int)
    requires
        0 <= i < code.len(),
    ensures
        code.take(i + 1).drop_last() == code.take(i),
        code.take(i + 1).last() == code[i],
        depth(code.take(i + 1)) == depth(code.take(i)) + if code[i] == '[' {
            1int
        } else if code[i] == ']' {
            -1int
        } else {
            0int
        },
{
    assert(code.take(i + 1).drop_last() =~= code.take(i));
}

/// Position `p` is on the stack of open loops.
pub open spec fn on_stack(stack: Seq<usize>, p: int) -> bool {
    exists|a: int| 0 <= a < stack.len() && stack[a] == p
}

/// What holds after the parser has read the first `i` characters of `code`:
/// `stack` holds the positions of the loops still open, innermost last, and
/// `jumps` the partners of the brackets whose loops have closed.
#[verifier::opaque]
pub open spec fn scan_inv(code: Seq<char>, i: int, stack: Seq<usize>, jumps: Seq<usize>) -> bool {
    &&& 0 <= i <= code.len()
    &&& jumps.len() == i
    &&& sound_prefix(code, i)
    &&& stack.len() == depth(code.take(i))
    &&& forall|a: int, b: int| 0 <= a < b < stack.len() ==> stack[a] < stack[b]
    &&& forall|a: int|
        0 <= a < stack.len() ==> #[trigger] stack[a] < i && code[stack[a] as int] == '[' && depth(
            code.take(stack[a] as int),
        ) == a && forall|k: int| stack[a] < k <= i ==> depth(#[trigger] code.take(k)) >= a + 1
    &&& forall|p: int|
        0 <= p < i && #[trigger] code[p] == '[' ==> on_stack(stack, p) || (matched(
            code,
            p,
            jumps[p] as int,
        ) && jumps[p] < i && jumps[jumps[p] as int] == p)
    &&& forall|q: int|
        0 <= q < i && #[trigger] code[q] == ']' ==> matched(code, jumps[q] as int, q)
            && jumps[jumps[q] as int] == q
    &&& forall|q: int|
        0 <= q < i && #[trigger] code[q] == ']' ==> !on_stack(stack, jumps[q] as int)
}

proof fn lemma_scan_start(code: Seq<char>)
    ensures
        scan_inv(code, 0, seq![], seq![]),
{
    reveal(scan_inv);
    assert(code.take(0) =~= seq![]);
}

proof fn lemma_scan_open(code: Seq<char>, i: int, stack: Seq<usize>, jumps: Seq<usize>)
    requires
        scan_inv(code, i, stack, jumps),
        i < code.len(),
        code[i] == '[',
        i <= usize::MAX,
    ensures
        scan_inv(code, i + 1, stack.push(i as usize), jumps.push(0)),
{
    reveal(scan_inv);
    lemma_take_depth(code, i);
    let s2 = stack.push(i as usize);
    let j2 = jumps.push(0);
    assert forall|a: int| 0 <= a < s2.len() implies #[trigger] s2[a] < i + 1 && code[s2[a] as int]
        == '[' && depth(code.take(s2[a] as int)) == a && forall|k: int|
        s2[a] < k <= i + 1 ==> depth(#[trigger] code.take(k)) >= a + 1 by {
        if a < stack.len() {
            assert(s2[a] == stack[a]);
        }
    }
    assert forall|p: int| 0 <= p < i + 1 && #[trigger] code[p] == '[' implies on_stack(s2, p) || (
    matched(code, p, j2[p] as int) && j2[p] < i + 1 && j2[j2[p] as int] == p) by {
        if p == i {
            assert(s2[stack.len() as int] == p);
        } else if on_stack(stack, p) {
            let a = choose|a: int| 0 <= a < stack.len() && stack[a] == p;
            assert(s2[a] == p);
        } else {
            assert(j2[p] == jumps[p]);
            assert(j2[jumps[p] as int] == jumps[jumps[p] as int]);
        }
    }
    assert forall|q: int| 0 <= q < i + 1 && #[trigger] code[q] == ']' implies matched(
        code,
        j2[q] as int,
        q,
    ) && j2[j2[q] as int] == q && !on_stack(s2, j2[q] as int) by {
        assert(j2[q] == jumps[q]);
        assert(j2[jumps[q] as int] == jumps[jumps[q] as int]);
        if on_stack(s2, j2[q] as int) {
            let a = choose|a: int| 0 <= a < s2.len() && s2[a] == j2[q] as int;
            if a < stack.len() {
                assert(stack[a] == s2[a]);
            }
        }
    }
}

proof fn lemma_scan_close(code: Seq<char>, i: int, stack: Seq<usize>, jumps: Seq<usize>)
    requires
        scan_inv(code, i, stack, jumps),
        i < code.len(),
        code[i] == ']',
        stack.len() > 0,
        i <= usize::MAX,
    ensures
        stack.last() < i,
        jumps.len() == i,
        ({
            let start = stack.last();
            scan_inv(
                code,
                i + 1,
                stack.drop_last(),
                jumps.update(start as int, i as usize).push(start),
            )
        }),
{
    reveal(scan_inv);
    lemma_take_depth(code, i);
    let m = stack.len() - 1;
    let start = stack[m];
    let s2 = stack.drop_last();
    let j2 = jumps.update(start as int, i as usize).push(start);
    assert(matched(code, start as int, i));
    assert forall|a: int| 0 <= a < s2.len() implies #[trigger] s2[a] < i + 1 && code[s2[a] as int]
        == '[' && depth(code.take(s2[a] as int)) == a && forall|k: int|
        s2[a] < k <= i + 1 ==> depth(#[trigger] code.take(k)) >= a + 1 by {
        assert(s2[a] == stack[a]);
    }
    assert forall|p: int| 0 <= p < i + 1 && #[trigger] code[p] == '[' implies on_stack(s2, p) || (
    matched(code, p, j2[p] as int) && j2[p] < i + 1 && j2[j2[p] as int] == p) by {
        if p == start {
        } else if on_stack(stack, p) {
            let a = choose|a: int| 0 <= a < stack.len() && stack[a] == p;
            assert(a != m);
            assert(s2[a] == p);
        } else {
            let q = jumps[p] as int;
            assert(code[q] == ']');
            assert(j2[p] == jumps[p]);
            assert(j2[q] == jumps[q]);
        }
    }
    assert forall|q: int| 0 <= q < i + 1 && #[trigger] code[q] == ']' implies matched(
        code,
        j2[q] as int,
        q,
    ) && j2[j2[q] as int] == q && !on_stack(s2, j2[q] as int) by {
        if q == i {
            assert(j2[q] == start);
            assert(j2[start as int] == i);
            if on_stack(s2, start as int) {
                let a = choose|a: int| 0 <= a < s2.len() && s2[a] == start;
                assert(stack[a] < stack[m]);
            }
        } else {
            let p = jumps[q] as int;
            assert(!on_stack(stack, p));
            assert(p != start as int) by {
                assert(stack[m] == start);
            }
            assert(j2[q] == jumps[q]);
            assert(j2[p] == jumps[p]);
            if on_stack(s2, p) {
                let a = choose|a: int| 0 <= a < s2.len() && s2[a] == p;
                assert(stack[a] == p);
            }
        }
    }
}

proof fn lemma_scan_plain(code: Seq<char>, i: int, stack: Seq<usize>, jumps: Seq<usize>)
    requires
        scan_inv(code, i, stack, jumps),
        i < code.len(),
        is_instruction(code[i]),
        code[i] != '[',
        code[i] != ']',
    ensures
        scan_inv(code, i + 1, stack, jumps.push(0)),
{
    reveal(scan_inv);
    lemma_take_depth(code, i);
    let j2 = jumps.push(0);
    assert forall|p: int| 0 <= p < i + 1 && #[trigger] code[p] == '[' implies on_stack(stack, p) || (
    matched(code, p, j2[p] as int) && j2[p] < i + 1 && j2[j2[p] as int] == p) by {
        if !on_stack(stack, p) {
            assert(j2[p] == jumps[p]);
            assert(j2[jumps[p] as int] == jumps[jumps[p] as int]);
        }
    }
    assert forall|q: int| 0 <= q < i + 1 && #[trigger] code[q] == ']' implies matched(
        code,
        j2[q] as int,
        q,
    ) && j2[j2[q] as int] == q by {
        assert(j2[q] == jumps[q]);
        assert(j2[jumps[q] as int] == jumps[jumps[q] as int]);
    }
}

proof fn lemma_scan_stray_close(code: Seq<char>, i: int, stack: Seq<usize>, jumps: Seq<usize>)
    requires
        scan_inv(code, i, stack, jumps),
        i < code.len(),
        code[i] == ']',
        stack.len() == 0,
    ensures
        sound_prefix(code, i),
        depth(code.take(i + 1)) < 0,
{
    reveal(scan_inv);
    lemma_take_depth(code, i);
}

proof fn lemma_scan_unknown(code: Seq<char>, i: int, stack: Seq<usize>, jumps: Seq<usize>)
    requires
        scan_inv(code, i, stack, jumps),
    ensures
        sound_prefix(code, i),
{
    reveal(scan_inv);
}

proof fn lemma_scan_end(code: Seq<char>, stack: Seq<usize>, jumps: Seq<usize>)
    requires
        scan_inv(code, code.len() as int, stack, jumps),
    ensures
        sound_prefix(code, code.len() as int),
        stack.len() == 0 ==> is_program(code) && jumps_match(code, jumps),
        stack.len() > 0 ==> depth(code) > 0 && code[stack.last() as int] == '[' && stack.last()
            < code.len(),
{
    reveal(scan_inv);
    assert(code.take(code.len() as int) =~= code);
    if stack.len() == 0 {
        assert forall|p: int| 0 <= p < code.len() && #[trigger] code[p] == '[' implies matched(
            code,
            p,
            jumps[p] as int,
        ) && jumps[jumps[p] as int] == p by {
            assert(!on_stack(stack, p));
        }
    }
}

/// Parses `program`, matching each `[` with its `]`.
pub fn parse_program(program: &str) -> (r: Result<Program, ParseError>)
    ensures
        match r {
            Ok(p) => is_program(program@) && p.code() == program@ && p.wf(),
            Err(ParseError::UnknownInstruction { location, instruction }) => sound_prefix(
                program@,
                location as int,
            ) && location < program@.len() && program@[location as int] == instruction
                && !is_instruction(instruction),
            Err(ParseError::UnmatchedLoop { location }) => (sound_prefix(program@, location as int)
                && location < program@.len() && program@[location as int] == ']' && depth(
                program@.take(location + 1),
            ) < 0) || (sound_prefix(program@, program@.len() as int) && depth(program@) > 0
                && location < program@.len() && program@[location as int] == '['),
        },
{
    let n = program.unicode_len();
    let mut code: Vec<char> = Vec::new();
    let mut jumps: Vec<usize> = Vec::new();
    let mut stack: Vec<usize> = Vec::new();
    let mut i: usize = 0;
    proof {
        lemma_scan_start(program@);
    }
    while i < n
        invariant
            n == program@.len(),
            i <= n,
            code@ == program@.take(i as int),
            scan_inv(program@, i as int, stack@, jumps@),
        decreases n - i,
    {
        let c = program.get_char(i);
        if c == '[' {
            proof {
                lemma_scan_open(program@, i as int, stack@, jumps@);
            }
            stack.push(i);
            jumps.push(0);
        } else if c == ']' {
            if stack.len() == 0 {
                proof {
                    lemma_scan_stray_close(program@, i as int, stack@, jumps@);
                }
                return Err(ParseError::UnmatchedLoop { location: i });
            }
            proof {
                lemma_scan_close(program@, i as int, stack@, jumps@);
            }
            let start = stack.pop().unwrap();
            jumps[start] = i;
            jumps.push(start);
        } else if c == '>' || c == '<' || c == '+' || c == '-' || c == '.' || c == ',' {
            proof {
                lemma_scan_plain(program@, i as int, stack@, jumps@);
            }
            jumps.push(0);
        } else {
            proof {
                lemma_scan_unknown(program@, i as int, stack@, jumps@);
            }
            return Err(ParseError::UnknownInstruction { location: i, instruction: c });
        }
        code.push(c);
        i = i + 1;
        assert(code@ =~= program@.take(i as int));
    }
    proof {
        lemma_scan_end(program@, stack@, jumps@);
    }
    assert(program@.take(n as int) =~= program@);
    if stack.len() > 0 {
        let last = stack.len() - 1;
        return Err(ParseError::UnmatchedLoop { location: stack[last] });
    }
    Ok(Program { code, jumps })
}

/// The state of a run: the position of the next instruction, the data
/// pointer, how much input has been read, the tape and the output so far.
pub struct Machine {
    pub pc: int,
    pub ptr: int,
    pub inp: int,
    pub data: Seq<u8>,
    pub out: Seq<char>,
}

/// The machine after the instruction at `m.pc`, or `None` where it reads past
/// the end of `input`.
pub open spec fn step(code: Seq<char>, jumps: Seq<usize>, input: Seq<u8>, m: Machine) -> Option<
    Machine,
> {
    let c = code[m.pc];
    let cell = m.data[m.ptr];
    let next = m.pc + 1;
    if c == '>' {
        let ptr = if m.ptr + 1 < m.data.len() {
            m.ptr + 1
        } else {
            m.ptr
        };
        Some(Machine { pc: next, ptr, inp: m.inp, data: m.data, out: m.out })
    } else if c == '<' {
        let ptr = if m.ptr > 0 {
            m.ptr - 1
        } else {
            m.ptr
        };
        Some(Machine { pc: next, ptr, inp: m.inp, data: m.data, out: m.out })
    } else if c == '+' {
        Some(
            Machine {
                pc: next,
                ptr: m.ptr,
                inp: m.inp,
                data: m.data.update(m.ptr, cell.wrapping_add(1)),
                out: m.out,
            },
        )
    } else if c == '-' {
        Some(
            Machine {
                pc: next,
                ptr: m.ptr,
                inp: m.inp,
                data: m.data.update(m.ptr, cell.wrapping_sub(1)),
                out: m.out,
            },
        )
    } else if c == '.' {
        Some(Machine { pc: next, ptr: m.ptr, inp: m.inp, data: m.data, out: m.out.push(cell as char) })
    } else if c == ',' {
        if m.inp < input.len() {
            Some(
                Machine {
                    pc: next,
                    ptr: m.ptr,
                    inp: m.inp + 1,
                    data: m.data.update(m.ptr, cell.wrapping_add(input[m.inp])),
                    out: m.out,
                },
            )
        } else {
            None
        }
    } else if (c == '[' && cell == 0) || (c == ']' && cell != 0) {
        Some(Machine { pc: jumps[m.pc] + 1, ptr: m.ptr, inp: m.inp, data: m.data, out: m.out })
    } else {
        Some(Machine { pc: next, ptr: m.ptr, inp: m.inp, data: m.data, out: m.out })
    }
}

/// The outcome of running from `m` after `steps` instructions: the output
/// once the program ends, or why it stopped.
pub open spec fn run(
    code: Seq<char>,
    jumps: Seq<usize>,
    input: Seq<u8>,
    m: Machine,
    steps: int,
) -> Result<Seq<char>, ExecuteError>
    decreases MAX_STEPS + 1 - steps,
{
    if m.pc < 0 || m.pc >= code.len() {
        Ok(m.out)
    } else if steps > MAX_STEPS {
        Err(ExecuteError::InfiniteLoop)
    } else {
        match step(code, jumps, input, m) {
            Some(m2) => run(code, jumps, input, m2, steps + 1),
            None => Err(ExecuteError::NoInputLeft),
        }
    }
}

/// The machine at the start of a run on the tape `data`.
pub open spec fn start_machine(data: Seq<u8>) -> Machine {
    Machine { pc: 0, ptr: 0, inp: 0, data, out: seq![] }
}

/// Relies on `String::from_iter` over `char`s: the string holds the
/// characters in order.
#[verifier::external_body]
fn string_from_chars(chars: Vec<char>) -> (r: String)
    ensures
        r@ == chars@,
{
    String::from_iter(chars)
}

impl Program {
    /// Runs the program on `input` with the tape `data`, the data pointer
    /// starting on its first cell.
    #[verifier::rlimit(50)]
    pub fn execute(&self, input: Vec<u8>, data: Vec<u8>) -> (r: Result<String, ExecuteError>)
        requires
            self.wf(),
            data@.len() > 0,
        ensures
            r matches Ok(s) ==> run(self.code(), self.jumps(), input@, start_machine(data@), 0) == Ok::<
                Seq<char>,
                ExecuteError,
            >(s@),
            r matches Err(e) ==> run(self.code(), self.jumps(), input@, start_machine(data@), 0)
                == Err::<Seq<char>, ExecuteError>(e),
    {
        let ghost code = self.code();
        let ghost jumps = self.jumps();
        let ghost start = start_machine(data@);
        let mut tape = data;
        let mut output: Vec<char> = Vec::new();
        let mut pc: usize = 0;
        let mut ptr: usize = 0;
        let mut inp: usize = 0;
        let mut steps: usize = 0;
        assert(output@ =~= seq![]);
        while pc < self.code.len()
            invariant
                self.wf(),
                start == start_machine(data@),
                code == self.code@,
                jumps == self.jumps@,
                pc <= code.len(),
                ptr < tape@.len(),
                inp <= input@.len(),
                steps <= MAX_STEPS + 1,
                run(code, jumps, input@, start, 0) == run(
                    code,
                    jumps,
                    input@,
                    Machine {
                        pc: pc as int,
                        ptr: ptr as int,
                        inp: inp as int,
                        data: tape@,
                        out: output@,
                    },
                    steps as int,
                ),
            decreases MAX_STEPS + 1 - steps,
        {
            let ghost m = Machine {
                pc: pc as int,
                ptr: ptr as int,
                inp: inp as int,
                data: tape@,
                out: output@,
            };
            if steps > MAX_STEPS {
                assert(run(code, jumps, input@, m, steps as int) == Err::<Seq<char>, ExecuteError>(
                    ExecuteError::InfiniteLoop,
                ));
                assert(run(code, jumps, input@, start, 0) == Err::<Seq<char>, ExecuteError>(
                    ExecuteError::InfiniteLoop,
                ));
                return Err(ExecuteError::InfiniteLoop);
            }
            assert(run(code, jumps, input@, m, steps as int) == match step(code, jumps, input@, m) {
                Some(m2) => run(code, jumps, input@, m2, steps + 1),
                None => Err(ExecuteError::NoInputLeft),
            });
            steps = steps + 1;
            let c = self.code[pc];
            let cell = tape[ptr];
            assert(c == code[pc as int] && cell == m.data[m.ptr]);
            if c == '>' {
                if ptr < tape.len() - 1 {
                    ptr = ptr + 1;
                }
                pc = pc + 1;
            } else if c == '<' {
                if ptr > 0 {
                    ptr = ptr - 1;
                }
                pc = pc + 1;
            } else if c == '+' {
                tape[ptr] = cell.wrapping_add(1);
                pc = pc + 1;
            } else if c == '-' {
                tape[ptr] = cell.wrapping_sub(1);
                pc = pc + 1;
            } else if c == '.' {
                output.push(cell as char);
                pc = pc + 1;
            } else if c == ',' {
                if inp < input.len() {
                    tape[ptr] = cell.wrapping_add(input[inp]);
                    inp = inp + 1;
                    pc = pc + 1;
                } else {
                    assert(step(code, jumps, input@, m) is None);
                    assert(run(code, jumps, input@, start, 0) == Err::<Seq<char>, ExecuteError>(
                        ExecuteError::NoInputLeft,
                    ));
                    return Err(ExecuteError::NoInputLeft);
                }
            } else if (c == '[' && cell == 0) || (c == ']' && cell != 0) {
                pc = self.jumps[pc] + 1;
            } else {
                pc = pc + 1;
            }
        }
        Ok(string_from_chars(output))
    }
}

} // verus!
