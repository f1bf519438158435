use vstd::prelude::*;

use crate::ast::{SpecStmt, Statement, lemma_stmts_view_elems, stmts_view};
use crate::lexer::{lex_ok, token_seq};
use crate::parser::{parse, spec_parse};
use crate::semantics::{Config, Frame, St, Status, init_config, ptr_ok, run_n, step, wrap_inc};

verus! {

/// Number of byte cells on the tape.
pub const CAPACITY: usize = 1024;

/// Upper bound on abstract-machine steps one call of `execute_stmts` takes.
/// The language's loops need not terminate, so a budget is what makes the
/// interpreter itself provably terminating; at two to the sixty-fourth minus
/// one steps it is unreachable for any program that finishes at all in
/// practice.
pub const STEP_LIMIT: u64 = 18446744073709551615;

/// The abstract single-byte input/output capability the interpreter is given:
/// reading consumes the front of the input it stands for, or reports
/// exhaustion; writing appends to the output it stands for.
pub trait BrainfuckIO {
    /// The input bytes not yet read. The default stands for a source that is
    /// already exhausted; an implementation backed by a buffer overrides it.
    open spec fn input_view(&self) -> Seq<u8> {
        Seq::empty()
    }

    /// The output bytes written so far. The default stands for a sink that
    /// keeps nothing; an implementation backed by a buffer overrides it.
    open spec fn output_view(&self) -> Seq<u8> {
        Seq::empty()
    }

    /// The next input byte, or `None` exactly when input is exhausted.
    fn read_char(&mut self) -> (r: Option<u8>)
        ensures
            final(self).output_view() == old(self).output_view(),
            old(self).input_view().len() > 0 ==> r == Some(old(self).input_view()[0])
                && final(self).input_view() == old(self).input_view().drop_first(),
            old(self).input_view().len() == 0 ==> r is None && final(self).input_view() == old(
                self,
            ).input_view(),
    ;

    /// Emits one output byte.
    fn write_char(&mut self, byte: u8)
        ensures
            final(self).output_view() == old(self).output_view().push(byte),
            final(self).input_view() == old(self).input_view(),
    ;
}

/// Deterministic in-memory input/output: reads consume `input` from the
/// front, writes collect into `output`.
pub struct TestIO {
    pub input: Vec<u8>,
    pub output: Vec<u8>,
    pub input_pos: usize,
}

/// Relies on `String::from_utf8_lossy` of std: bytes that are valid UTF-8 are
/// decoded unchanged, so a sequence of ASCII bytes becomes exactly the text
/// whose characters are those bytes.
#[verifier::external_body]
fn bytes_to_string_lossy(bytes: &Vec<u8>) -> (r: String)
    ensures
        (forall|i: int| 0 <= i < bytes@.len() ==> #[trigger] bytes@[i] < 128) ==> r@ == bytes@.map(
            |i: int, b: u8| b as char,
        ),
{
    String::from_utf8_lossy(bytes).into_owned()
}

impl TestIO {
    /// Fresh buffers: all of `input` still to be read, nothing written yet.
    pub fn new(input: Vec<u8>) -> (r: TestIO)
        ensures
            r.input_view() == input@,
            r.output_view() == Seq::<u8>::empty(),
    {
        let r = TestIO { input, output: Vec::new(), input_pos: 0 };
        proof {
            assert(r.input_view() =~= r.input@);
        }
        r
    }

    /// The bytes written so far, as text; ASCII output is rendered verbatim.
    pub fn get_output(&self) -> (r: String)
        ensures
            (forall|i: int|
                0 <= i < self.output_view().len() ==> #[trigger] self.output_view()[i] < 128)
                ==> r@ == self.output_view().map(|i: int, b: u8| b as char),
    {
        bytes_to_string_lossy(&self.output)
    }
}

impl BrainfuckIO for TestIO {
    open spec fn input_view(&self) -> Seq<u8> {
        if self.input_pos <= self.input.len() {
            self.input@.skip(self.input_pos as int)
        } else {
            Seq::empty()
        }
    }

    open spec fn output_view(&self) -> Seq<u8> {
        self.output@
    }

    fn read_char(&mut self) -> (r: Option<u8>) {
        if self.input_pos < self.input.len() {
            let c = self.input[self.input_pos];
            self.input_pos = self.input_pos + 1;
            proof {
                assert(old(self).input_view().drop_first() =~= self.input_view());
            }
            Some(c)
        } else {
            proof {
                assert(self.input_view() =~= Seq::<u8>::empty());
            }
            None
        }
    }

    fn write_char(&mut self, byte: u8) {
        self.output.push(byte);
    }
}

/// A fatal execution fault. Pointer motion out of the tape is a fault; cell
/// arithmetic, by contrast, wraps modulo 256 and never faults. Exhausting the
/// step budget reports that the program was still running at `STEP_LIMIT`
/// abstract-machine steps.
#[derive(Debug, PartialEq, Eq, Clone, Copy)]
pub enum RuntimeError {
    PointerOutOfBounds,
    StepLimitExceeded,
}

/// The interpreter: a tape of byte cells, a pointer into it, an internal log
/// of every byte output, and the owned input/output capability.
pub struct Runtime<T: BrainfuckIO> {
    pub mem: Vec<u8>,
    pub ptr: usize,
    pub output: Vec<u8>,
    pub io: T,
}

/// The models of the executable frames of the interpreter's control stack.
pub open spec fn abs_frames(frames: Seq<(&Vec<Statement>, usize, bool)>) -> Seq<Frame> {
    frames.map(
        |k: int, f: (&Vec<Statement>, usize, bool)|
            Frame { block: stmts_view(f.0@), pos: f.1 as int, looping: f.2 },
    )
}

impl<T: BrainfuckIO> Runtime<T> {
    /// The mathematical state of this runtime.
    pub open spec fn st(&self) -> St {
        St {
            tape: self.mem@,
            ptr: self.ptr as int,
            input: self.io.input_view(),
            output: self.output@,
        }
    }

    /// Well-formed: the pointer addresses a cell, and the internal output log
    /// agrees with what has been handed to the capability.
    pub open spec fn wf(&self) -> bool {
        &&& self.ptr < self.mem@.len()
        &&& self.io.output_view() == self.output@
    }

    /// A runtime over the given tape and pointer, with an empty output log,
    /// owning `io`.
    pub fn new(mem: Vec<u8>, ptr: usize, io: T) -> (r: Runtime<T>)
        ensures
            r.mem == mem,
            r.ptr == ptr,
            r.io == io,
            r.output@ == Seq::<u8>::empty(),
    {
        Runtime { mem, ptr, output: Vec::new(), io }
    }

    /// The value of the cell at `index`, or `None` out of bounds.
    pub fn get_memory_at(&self, index: usize) -> (r: Option<u8>)
        ensures
            index < self.mem@.len() ==> r == Some(self.mem@[index as int]),
            index >= self.mem@.len() ==> r is None,
    {
        if index < self.mem.len() {
            Some(self.mem[index])
        } else {
            None
        }
    }

    /// Executes `stmts` against this runtime: once when `is_top`, else as a
    /// loop body repeated while the current cell is nonzero, tested before
    /// every pass. This is exactly the abstract machine of `semantics`, run
    /// for at most `STEP_LIMIT` steps: on success the machine completes in
    /// the final runtime state; on a pointer fault it faults there, the
    /// runtime left in the state the fault was reached in; and the budget
    /// error comes exactly when the machine is still running at `STEP_LIMIT`
    /// steps. By `lemma_outcome_unique` these cases exclude one another.
    pub fn execute_stmts(&mut self, stmts: &Vec<Statement>, is_top: bool) -> (r: Result<
        (),
        RuntimeError,
    >)
        requires
            old(self).wf(),
        ensures
            final(self).wf(),
            match r {
                Ok(()) => exists|n: nat|
                    run_n(init_config(stmts_view(stmts@), old(self).st(), is_top), n)
                        == Status::Completed(final(self).st()),
                Err(e) => match e {
                    RuntimeError::PointerOutOfBounds => exists|n: nat|
                        run_n(init_config(stmts_view(stmts@), old(self).st(), is_top), n)
                            == Status::Faulted(final(self).st()),
                    RuntimeError::StepLimitExceeded => exists|c: Config|
                        run_n(
                            init_config(stmts_view(stmts@), old(self).st(), is_top),
                            STEP_LIMIT as nat,
                        ) == Status::Running(c),
                },
            },
    {
        let ghost init = init_config(stmts_view(stmts@), old(self).st(), is_top);
        let mut frames: Vec<(&Vec<Statement>, usize, bool)> = Vec::new();
        let start_pos: usize = if is_top {
            0
        } else {
            stmts.len()
        };
        frames.push((stmts, start_pos, !is_top));
        let ghost mut steps: nat = 0;
        let mut fuel: u64 = STEP_LIMIT;
        proof {
            lemma_stmts_view_elems(stmts@);
            assert(abs_frames(frames@) =~= init.frames);
        }
        while frames.len() > 0
            invariant
                self.wf(),
                init == init_config(stmts_view(stmts@), old(self).st(), is_top),
                steps + fuel == STEP_LIMIT,
                run_n(init, steps) == Status::Running(
                    Config { frames: abs_frames(frames@), st: self.st() },
                ),
            decreases fuel,
        {
            let ghost cur = Config { frames: abs_frames(frames@), st: self.st() };
            if fuel == 0 {
                return Err(RuntimeError::StepLimitExceeded);
            }
            fuel = fuel - 1;
            let frame = frames.pop().unwrap();
            let (block, i, looping) = frame;
            proof {
                assert(abs_frames(frames@) =~= cur.frames.drop_last());
                assert(cur.frames.last() == Frame {
                    block: stmts_view(block@),
                    pos: i as int,
                    looping,
                });
                lemma_stmts_view_elems(block@);
            }
            if i < block.len() {
                match &block[i] {
                    Statement::IncPtrStmt => {
                        let len = self.mem.len();
                        if self.ptr + 1 < len {
                            self.ptr = self.ptr + 1;
                            frames.push((block, i + 1, looping));
                        } else {
                            proof {
                                assert(step(cur) == Status::Faulted(self.st()));
                                assert(run_n(init, steps + 1) == Status::Faulted(self.st()));
                            }
                            return Err(RuntimeError::PointerOutOfBounds);
                        }
                    },
                    Statement::DecPtrStmt => {
                        if self.ptr >= 1 {
                            self.ptr = self.ptr - 1;
                            frames.push((block, i + 1, looping));
                        } else {
                            proof {
                                assert(step(cur) == Status::Faulted(self.st()));
                                assert(run_n(init, steps + 1) == Status::Faulted(self.st()));
                            }
                            return Err(RuntimeError::PointerOutOfBounds);
                        }
                    },
                    Statement::IncValStmt => {
                        let p = self.ptr;
                        let v = self.mem[p];
                        let nv: u8 = if v == 255 {
                            0
                        } else {
                            v + 1
                        };
                        self.mem[p] = nv;
                        frames.push((block, i + 1, looping));
                    },
                    Statement::DecValStmt => {
                        let p = self.ptr;
                        let v = self.mem[p];
                        let nv: u8 = if v == 0 {
                            255
                        } else {
                            v - 1
                        };
                        self.mem[p] = nv;
                        frames.push((block, i + 1, looping));
                    },
                    Statement::OutputStmt => {
                        let v = self.mem[self.ptr];
                        self.output.push(v);
                        self.io.write_char(v);
                        frames.push((block, i + 1, looping));
                    },
                    Statement::InputStmt => {
                        let b = self.io.read_char();
                        match b {
                            Some(x) => {
                                let p = self.ptr;
                                self.mem[p] = x;
                            },
                            None => {},
                        }
                        frames.push((block, i + 1, looping));
                    },
                    Statement::BracketsStmt(body) => {
                        proof {
                            lemma_stmts_view_elems(body@);
                        }
                        frames.push((block, i + 1, looping));
                        frames.push((body, body.len(), true));
                    },
                }
            } else {
                if looping {
                    if self.mem[self.ptr] != 0 {
                        frames.push((block, 0, looping));
                    }
                }
            }
            proof {
                if i < block@.len() {
                    match block@[i as int] {
                        Statement::BracketsStmt(body) => {
                            assert(abs_frames(frames@) =~= cur.frames.drop_last().push(
                                Frame {
                                    block: stmts_view(block@),
                                    pos: i + 1 as int,
                                    looping,
                                },
                            ).push(
                                Frame {
                                    block: stmts_view(body@),
                                    pos: body@.len() as int,
                                    looping: true,
                                },
                            ));
                        },
                        _ => {
                            assert(abs_frames(frames@) =~= cur.frames.drop_last().push(
                                Frame { block: stmts_view(block@), pos: i + 1 as int, looping },
                            ));
                        },
                    }
                } else {
                    if looping && cur.st.tape[cur.st.ptr] != 0 {
                        assert(abs_frames(frames@) =~= cur.frames.drop_last().push(
                            Frame { block: stmts_view(block@), pos: 0, looping },
                        ));
                    } else {
                        assert(abs_frames(frames@) =~= cur.frames.drop_last());
                    }
                }
                assert(step(cur) == Status::Running(
                    Config { frames: abs_frames(frames@), st: self.st() },
                ));
                steps = steps + 1;
                assert(run_n(init, steps) == Status::Running(
                    Config { frames: abs_frames(frames@), st: self.st() },
                ));
            }
        }
        proof {
            assert(abs_frames(frames@) =~= Seq::<Frame>::empty());
            assert(step(Config { frames: abs_frames(frames@), st: self.st() })
                == Status::Completed(self.st()));
            assert(run_n(init, steps + 1) == Status::Completed(self.st()));
        }
        Ok(())
    }
}

/// The canonical starting state: a zero-filled tape of `CAPACITY` cells, the
/// pointer at cell zero, the given input, no output yet.
pub open spec fn start_state(input: Seq<u8>) -> St {
    St { tape: Seq::new(CAPACITY as nat, |i: int| 0u8), ptr: 0, input, output: Seq::empty() }
}

/// A zero-filled tape of `CAPACITY` cells.
fn zero_tape() -> (r: Vec<u8>)
    ensures
        r@ == Seq::new(CAPACITY as nat, |i: int| 0u8),
{
    let mut v: Vec<u8> = Vec::new();
    let mut i: usize = 0;
    while i < CAPACITY
        invariant
            i <= CAPACITY,
            v@.len() == i,
            forall|k: int| 0 <= k < i ==> v@[k] == 0u8,
        decreases CAPACITY - i,
    {
        v.push(0u8);
        i = i + 1;
    }
    proof {
        assert(v@ =~= Seq::new(CAPACITY as nat, |i: int| 0u8));
    }
    v
}

/// Parses `source` and, when that succeeds, executes the program on the
/// canonical starting state against in-memory buffers holding `input`.
/// `None` when parsing fails, when execution faults, or when the step budget
/// runs out; otherwise the finished runtime, open for inspection.
pub fn run_code_test(source: &str, input: Vec<u8>) -> (r: Option<Runtime<TestIO>>)
    ensures
        match r {
            Some(rt) => {
                &&& rt.wf()
                &&& lex_ok(source@)
                &&& spec_parse(token_seq(source@)) is Ok
                &&& exists|n: nat|
                    run_n(
                        init_config(
                            spec_parse(token_seq(source@))->Ok_0,
                            start_state(input@),
                            true,
                        ),
                        n,
                    ) == Status::Completed(rt.st())
            },
            None => !lex_ok(source@) || spec_parse(token_seq(source@)) is Err || (exists|
                n: nat,
                f: St,
            |
                run_n(
                    init_config(spec_parse(token_seq(source@))->Ok_0, start_state(input@), true),
                    n,
                ) == Status::Faulted(f)) || (exists|c: Config|
                run_n(
                    init_config(spec_parse(token_seq(source@))->Ok_0, start_state(input@), true),
                    STEP_LIMIT as nat,
                ) == Status::Running(c)),
        },
{
    let prog = match parse(source) {
        Ok(p) => p,
        Err(_) => {
            return None;
        },
    };
    let ghost body0 = stmts_view(prog.body@);
    let mem = zero_tape();
    let io = TestIO::new(input);
    let mut runtime = Runtime::new(mem, 0, io);
    proof {
        assert(spec_parse(token_seq(source@))->Ok_0 == body0);
        assert(runtime.st().input == input@);
        assert(runtime.st().tape =~= start_state(input@).tape);
        assert(runtime.st() == start_state(input@));
        assert(runtime.wf());
    }
    let ghost st0 = runtime.st();
    match runtime.execute_stmts(&prog.body, true) {
        Ok(()) => {
            proof {
                assert(init_config(body0, st0, true) == init_config(
                    spec_parse(token_seq(source@))->Ok_0,
                    start_state(input@),
                    true,
                ));
            }
            Some(runtime)
        },
        Err(_) => None,
    }
}


/// The statement sequence of `n` cell increments followed by one output.
pub open spec fn inc_then_output(n: nat) -> Seq<SpecStmt> {
    Seq::new(
        n + 1,
        |i: int|
            if i < n {
                SpecStmt::IncVal
            } else {
                SpecStmt::Output
            },
    )
}

/// The state reached after `k` of the increments: cell zero holds the count
/// modulo 256, nothing read or written yet.
pub open spec fn inc_state(input: Seq<u8>, k: nat) -> St {
    St {
        tape: start_state(input).tape.update(0, (k % 256) as u8),
        ptr: 0,
        input: input,
        output: Seq::empty(),
    }
}

/// After `k` steps of a run of `n` increments and an output, the first `k`
/// increments have happened: cell zero counts `k` modulo 256.
proof fn lemma_inc_prefix(n: nat, input: Seq<u8>, k: nat)
    requires
        k <= n,
    ensures
        run_n(init_config(inc_then_output(n), start_state(input), true), k) == Status::Running(
            Config {
                frames: seq![Frame { block: inc_then_output(n), pos: k as int, looping: false }],
                st: inc_state(input, k),
            },
        ),
    decreases k,
{
    let block = inc_then_output(n);
    let c0 = init_config(block, start_state(input), true);
    if k == 0 {
        assert(start_state(input).tape =~= inc_state(input, 0).tape);
        assert(c0.st == inc_state(input, 0));
        assert(c0.frames =~= seq![Frame { block, pos: 0, looping: false }]);
    } else {
        lemma_inc_prefix(n, input, (k - 1) as nat);
        let cur = Config {
            frames: seq![Frame { block, pos: k - 1, looping: false }],
            st: inc_state(input, (k - 1) as nat),
        };
        let target = Config {
            frames: seq![Frame { block, pos: k as int, looping: false }],
            st: inc_state(input, k),
        };
        assert(cur.frames.last() == Frame { block, pos: k - 1, looping: false });
        assert(cur.frames.drop_last() =~= Seq::<Frame>::empty());
        assert(block.len() == n + 1);
        assert(block[k - 1] == SpecStmt::IncVal);
        assert(cur.st.tape.len() == CAPACITY);
        assert(ptr_ok(cur.st));
        vstd::arithmetic::div_mod::lemma_mod_division_less_than_divisor((k - 1) as int, 256);
        vstd::arithmetic::div_mod::lemma_mod_division_less_than_divisor(k as int, 256);
        vstd::arithmetic::div_mod::lemma_mod_adds((k - 1) as int, 1, 256);
        assert(cur.st.tape[0] == ((k - 1) % 256) as u8);
        assert(wrap_inc((((k - 1) as nat % 256)) as u8) == (k % 256) as u8);
        assert(cur.st.tape.update(0, (k % 256) as u8) =~= target.st.tape);
        assert(cur.frames.drop_last().push(Frame { block, pos: k as int, looping: false })
            =~= target.frames);
        assert(step(cur) == Status::Running(target));
        assert(run_n(c0, k) == step(cur));
    }
}

/// Executing a program of `n` cell increments followed by one output, from
/// the canonical starting state, completes with the single output byte `n`
/// modulo 256: cell zero was incremented `n` times, wrapping, and then
/// written out.
pub proof fn lemma_increments_output_count(n: nat, input: Seq<u8>)
    ensures
        exists|m: nat|
            run_n(init_config(inc_then_output(n), start_state(input), true), m)
                == Status::Completed(
                St {
                    tape: start_state(input).tape.update(0, (n % 256) as u8),
                    ptr: 0,
                    input: input,
                    output: seq![(n % 256) as u8],
                },
            ),
{
    let block = inc_then_output(n);
    let c0 = init_config(block, start_state(input), true);
    lemma_inc_prefix(n, input, n);
    let cur = Config {
        frames: seq![Frame { block, pos: n as int, looping: false }],
        st: inc_state(input, n),
    };
    let out_byte = (n % 256) as u8;
    let st_done = St {
        tape: start_state(input).tape.update(0, out_byte),
        ptr: 0,
        input: input,
        output: seq![out_byte],
    };
    let after_out = Config {
        frames: seq![Frame { block, pos: n + 1 as int, looping: false }],
        st: st_done,
    };
    vstd::arithmetic::div_mod::lemma_mod_division_less_than_divisor(n as int, 256);
    assert(cur.frames.last() == Frame { block, pos: n as int, looping: false });
    assert(cur.frames.drop_last() =~= Seq::<Frame>::empty());
    assert(block[n as int] == SpecStmt::Output);
    assert(cur.st.tape.len() == CAPACITY);
    assert(ptr_ok(cur.st));
    assert(cur.st.tape[0] == out_byte);
    assert(cur.st.output.push(out_byte) =~= st_done.output);
    assert(cur.st.tape == st_done.tape);
    assert(cur.frames.drop_last().push(Frame { block, pos: n + 1 as int, looping: false })
        =~= after_out.frames);
    assert(step(cur) == Status::Running(after_out));
    assert(run_n(c0, n + 1) == Status::Running(after_out));
    // the frame is finished with its only pass and is popped
    assert(after_out.frames.last().pos >= block.len());
    assert(after_out.frames.drop_last() =~= Seq::<Frame>::empty());
    assert(step(after_out) == Status::Running(Config { frames: Seq::empty(), st: st_done }));
    assert(run_n(c0, n + 2) == Status::Running(Config { frames: Seq::empty(), st: st_done }));
    // no frames are left: the run is complete
    assert(step(Config { frames: Seq::empty(), st: st_done }) == Status::Completed(st_done));
    assert(run_n(c0, n + 3) == Status::Completed(st_done));
}

} // verus!
