use vstd::prelude::*;

use crate::ast::SpecStmt;

verus! {

/// The mathematical execution state: the tape of byte cells, the pointer into
/// it, the input bytes not yet read, and the output bytes written so far.
pub struct St {
    pub tape: Seq<u8>,
    pub ptr: int,
    pub input: Seq<u8>,
    pub output: Seq<u8>,
}

/// One frame of the abstract machine's control stack: a block of statements,
/// the position of the next statement to run, and whether the block is a loop
/// body — zero-tested before every pass and repeated — or a run-once block.
pub struct Frame {
    pub block: Seq<SpecStmt>,
    pub pos: int,
    pub looping: bool,
}

/// A configuration of the abstract machine that is still running.
pub struct Config {
    pub frames: Seq<Frame>,
    pub st: St,
}

/// The machine's status after some number of steps. Completion and faulting
/// carry the state they were reached in and are final.
pub enum Status {
    Running(Config),
    Completed(St),
    Faulted(St),
}

/// Increment of a cell, wrapping modulo 256.
pub open spec fn wrap_inc(v: u8) -> u8 {
    if v == 255 {
        0
    } else {
        (v + 1) as u8
    }
}

/// Decrement of a cell, wrapping modulo 256.
pub open spec fn wrap_dec(v: u8) -> u8 {
    if v == 0 {
        255
    } else {
        (v - 1) as u8
    }
}

/// Whether the pointer of `st` addresses a cell.
pub open spec fn ptr_ok(st: St) -> bool {
    0 <= st.ptr < st.tape.len()
}

/// One step of the abstract machine. The innermost (last) frame acts. A frame
/// whose position has reached the end of its block is finished with a pass:
/// a run-once block is popped; a loop body re-tests the current cell and
/// either starts over at position zero or is popped. (A loop body's frame is
/// pushed already at end-of-pass position, so the same test also guards its
/// first pass.) Otherwise the statement at the position runs: pointer motion
/// out of the tape faults, cell arithmetic wraps modulo 256, output appends
/// the current cell, input overwrites it with the next input byte when one is
/// left and otherwise leaves it unchanged, and a loop statement pushes a
/// frame for its body. A configuration with no frames left completes the run.
pub open spec fn step(c: Config) -> Status {
    if c.frames.len() == 0 {
        Status::Completed(c.st)
    } else {
        let fr = c.frames.last();
        let rest = c.frames.drop_last();
        let st = c.st;
        if fr.pos >= fr.block.len() {
            if fr.looping {
                if !ptr_ok(st) {
                    Status::Faulted(st)
                } else if st.tape[st.ptr] != 0 {
                    Status::Running(
                        Config {
                            frames: rest.push(Frame { block: fr.block, pos: 0, looping: true }),
                            st,
                        },
                    )
                } else {
                    Status::Running(Config { frames: rest, st })
                }
            } else {
                Status::Running(Config { frames: rest, st })
            }
        } else {
            let advanced = rest.push(
                Frame { block: fr.block, pos: fr.pos + 1, looping: fr.looping },
            );
            match fr.block[fr.pos] {
                SpecStmt::IncPtr => {
                    if 0 <= st.ptr + 1 < st.tape.len() {
                        Status::Running(
                            Config {
                                frames: advanced,
                                st: St {
                                    tape: st.tape,
                                    ptr: st.ptr + 1,
                                    input: st.input,
                                    output: st.output,
                                },
                            },
                        )
                    } else {
                        Status::Faulted(st)
                    }
                },
                SpecStmt::DecPtr => {
                    if 0 <= st.ptr - 1 < st.tape.len() {
                        Status::Running(
                            Config {
                                frames: advanced,
                                st: St {
                                    tape: st.tape,
                                    ptr: st.ptr - 1,
                                    input: st.input,
                                    output: st.output,
                                },
                            },
                        )
                    } else {
                        Status::Faulted(st)
                    }
                },
                SpecStmt::IncVal => {
                    if ptr_ok(st) {
                        Status::Running(
                            Config {
                                frames: advanced,
                                st: St {
                                    tape: st.tape.update(st.ptr, wrap_inc(st.tape[st.ptr])),
                                    ptr: st.ptr,
                                    input: st.input,
                                    output: st.output,
                                },
                            },
                        )
                    } else {
                        Status::Faulted(st)
                    }
                },
                SpecStmt::DecVal => {
                    if ptr_ok(st) {
                        Status::Running(
                            Config {
                                frames: advanced,
                                st: St {
                                    tape: st.tape.update(st.ptr, wrap_dec(st.tape[st.ptr])),
                                    ptr: st.ptr,
                                    input: st.input,
                                    output: st.output,
                                },
                            },
                        )
                    } else {
                        Status::Faulted(st)
                    }
                },
                SpecStmt::Output => {
                    if ptr_ok(st) {
                        Status::Running(
                            Config {
                                frames: advanced,
                                st: St {
                                    tape: st.tape,
                                    ptr: st.ptr,
                                    input: st.input,
                                    output: st.output.push(st.tape[st.ptr]),
                                },
                            },
                        )
                    } else {
                        Status::Faulted(st)
                    }
                },
                SpecStmt::Input => {
                    if ptr_ok(st) {
                        if st.input.len() > 0 {
                            Status::Running(
                                Config {
                                    frames: advanced,
                                    st: St {
                                        tape: st.tape.update(st.ptr, st.input[0]),
                                        ptr: st.ptr,
                                        input: st.input.drop_first(),
                                        output: st.output,
                                    },
                                },
                            )
                        } else {
                            Status::Running(Config { frames: advanced, st })
                        }
                    } else {
                        Status::Faulted(st)
                    }
                },
                SpecStmt::Loop(body) => {
                    Status::Running(
                        Config {
                            frames: advanced.push(
                                Frame { block: body, pos: body.len() as int, looping: true },
                            ),
                            st,
                        },
                    )
                },
            }
        }
    }
}

/// The status after `n` steps from configuration `c`.
pub open spec fn run_n(c: Config, n: nat) -> Status
    decreases n,
{
    if n == 0 {
        Status::Running(c)
    } else {
        match run_n(c, (n - 1) as nat) {
            Status::Running(c2) => step(c2),
            done => done,
        }
    }
}

/// The starting configuration for executing `block` against `st`: one frame,
/// a run-once block when `is_top`, else a loop body. A loop body's frame
/// starts at end-of-pass position, where the zero-test happens, so the test
/// guards the first pass as well.
pub open spec fn init_config(block: Seq<SpecStmt>, st: St, is_top: bool) -> Config {
    Config {
        frames: seq![
            Frame {
                block,
                pos: if is_top {
                    0
                } else {
                    block.len() as int
                },
                looping: !is_top,
            },
        ],
        st,
    }
}

/// Completion and faulting are final: once the machine has left the running
/// status, every later step count reports the same outcome.
pub proof fn lemma_outcome_final(c: Config, n: nat, m: nat)
    requires
        n <= m,
        !(run_n(c, n) is Running),
    ensures
        run_n(c, m) == run_n(c, n),
    decreases m,
{
    if m > n {
        lemma_outcome_final(c, n, (m - 1) as nat);
    }
}

/// The machine is deterministic: whatever two step counts at which it has
/// finished, the outcome — completed or faulted, and in which state — is the
/// same. An `exists` over step counts therefore pins the outcome.
pub proof fn lemma_outcome_unique(c: Config, n: nat, m: nat)
    requires
        !(run_n(c, n) is Running),
        !(run_n(c, m) is Running),
    ensures
        run_n(c, n) == run_n(c, m),
{
    if n <= m {
        lemma_outcome_final(c, n, m);
    } else {
        lemma_outcome_final(c, m, n);
    }
}

} // verus!
