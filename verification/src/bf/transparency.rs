//! The peephole pass cannot be observed: on the abstract machine, a program
//! and its optimized form end the same way with the same output.
//!
//! One step of the optimized program stands for as many steps of the
//! plain one as the run has instructions that the pass folded into the
//! instruction at hand. The laws here leave out the programs in which a
//! run of pointer moves adds up to 256 or more: there the folded count
//! wraps, and the pointer of the plain program does not.

use vstd::prelude::*;

use crate::bf::ir::BfIR;
use crate::bf::machine::lemma_halted_stays;
use crate::bf::machine::lemma_result_stable;
use crate::bf::machine::lemma_run_split;
use crate::bf::machine::lemma_step_valid;
use crate::bf::machine::result_within;
use crate::bf::machine::run;
use crate::bf::machine::step;
use crate::bf::machine::State;
use crate::bf::peephole::count_sum;
use crate::bf::peephole::lemma_run_at;
use crate::bf::peephole::lemma_run_start;
use crate::bf::peephole::optimized;
use crate::bf::peephole::run_at;
use crate::bf::peephole::run_start;

verus! {

/// No run of pointer moves in `code` adds up to more than 255, so that no
/// folded pointer move wraps.
pub open spec fn pointer_runs_fit(code: Seq<BfIR>) -> bool {
    forall|j: int|
        0 <= j < optimized(code).len() && (#[trigger] optimized(code)[j]).is_pointer_move()
            ==> count_sum(run_at(code, j)) < 256
}

/// The state `p` of the plain program stands where the state `q` of
/// the optimized program stands: at the start of the run that `q` is at,
/// with everything else equal. After a fault only the tape, the input and
/// the output are compared.
pub open spec fn corresponds(code: Seq<BfIR>, p: State, q: State) -> bool {
    if q.fault {
        p.fault && p.tape == q.tape && p.input == q.input && p.output == q.output
    } else {
        p == (State { pc: run_start(code, q.pc), ..q })
    }
}

/// The number of steps of the plain program that the next step of the
/// optimized program stands for.
pub open spec fn stride(code: Seq<BfIR>, q: State) -> nat {
    if q.halted(optimized(code)) {
        1
    } else if q.mode is Backward {
        (run_start(code, q.pc) - run_start(code, q.pc - 1)) as nat
    } else {
        (run_start(code, q.pc + 1) - run_start(code, q.pc)) as nat
    }
}

/// The number of steps of the plain program that `m` steps of the
/// optimized program from `q` stand for.
pub open spec fn cost(code: Seq<BfIR>, q: State, m: nat) -> nat
    decreases m,
{
    if m == 0 {
        0
    } else {
        stride(code, q) + cost(code, step(optimized(code), q), (m - 1) as nat)
    }
}

/// One more step: the state after `k + 1` steps is the step of the state
/// after `k`.
proof fn lemma_run_last(code: Seq<BfIR>, s: State, k: nat)
    ensures
        run(code, s, k + 1) == step(code, run(code, s, k)),
{
    lemma_run_split(code, s, k, 1);
    let t = run(code, s, k);
    assert(run(code, step(code, t), 0) == step(code, t));
}

/// Steps keep a valid state valid.
proof fn lemma_run_valid(code: Seq<BfIR>, s: State, n: nat)
    requires
        s.valid(code),
    ensures
        run(code, s, n).valid(code),
    decreases n,
{
    if n > 0 {
        lemma_step_valid(code, s);
        lemma_run_valid(code, step(code, s), (n - 1) as nat);
    }
}

/// The sum of the counts of a part of the code with one more instruction.
proof fn lemma_count_sum_last(code: Seq<BfIR>, from: int, k: nat)
    requires
        0 <= from,
        from + k < code.len(),
    ensures
        count_sum(code.subrange(from, from + k + 1)) == count_sum(code.subrange(from, from + k))
            + code[from + k].count(),
        count_sum(code.subrange(from, from + k)) >= 0,
    decreases k,
{
    assert(code.subrange(from, from + k + 1).drop_last() == code.subrange(from, from + k));
    if k > 0 {
        lemma_count_sum_last(code, from, (k - 1) as nat);
    } else {
        assert(code.subrange(from, from + 0) == Seq::<BfIR>::empty());
    }
}

/// Reducing the left operand modulo 256 does not change a sum or a
/// difference modulo 256, nor does reducing the right one.
proof fn lemma_wrap(a: int, b: int)
    ensures
        ((a % 256) + b) % 256 == (a + b) % 256,
        ((a % 256) - b) % 256 == (a - b) % 256,
        (a + (b % 256)) % 256 == (a + b) % 256,
        (a - (b % 256)) % 256 == (a - b) % 256,
{
    vstd::arithmetic::div_mod::lemma_add_mod_noop(a, b, 256);
    vstd::arithmetic::div_mod::lemma_add_mod_noop(a % 256, b, 256);
    vstd::arithmetic::div_mod::lemma_add_mod_noop(a, b % 256, 256);
    vstd::arithmetic::div_mod::lemma_sub_mod_noop(a, b, 256);
    vstd::arithmetic::div_mod::lemma_sub_mod_noop(a % 256, b, 256);
    vstd::arithmetic::div_mod::lemma_sub_mod_noop(a, b % 256, 256);
    vstd::arithmetic::div_mod::lemma_mod_twice(a, 256);
    vstd::arithmetic::div_mod::lemma_mod_twice(b, 256);
}

/// What `k` steps over `AddVal` do: one addition of the sum of the counts.
proof fn lemma_add_val_steps(code: Seq<BfIR>, p: State, k: nat)
    requires
        p.valid(code),
        p.mode is Run,
        !p.fault,
        p.pc + k <= code.len(),
        forall|i: int| p.pc <= i < p.pc + k ==> #[trigger] code[i] is AddVal,
    ensures
        run(code, p, k) == (State {
            pc: p.pc + k,
            tape: p.tape.update(
                p.ptr,
                ((p.tape[p.ptr] + count_sum(code.subrange(p.pc, p.pc + k))) % 256) as u8,
            ),
            ..p
        }),
    decreases k,
{
    if k == 0 {
        assert(code.subrange(p.pc, p.pc + 0) == Seq::<BfIR>::empty());
        assert(p.tape.update(p.ptr, p.tape[p.ptr]) == p.tape);
    } else {
        let j = (k - 1) as nat;
        lemma_add_val_steps(code, p, j);
        lemma_run_last(code, p, j);
        lemma_count_sum_last(code, p.pc, j);
        let before = run(code, p, j);
        let part = count_sum(code.subrange(p.pc, p.pc + j));
        let last = code[p.pc + j];
        assert(last is AddVal);
        let n = last.count();
        let cell = p.tape[p.ptr] as int;
        lemma_wrap(cell + part, n);
        assert(before.tape.update(p.ptr, ((before.tape[p.ptr] + n) % 256) as u8) == p.tape.update(
            p.ptr,
            ((cell + part + n) % 256) as u8,
        ));
        assert(step(code, before) == before.execute(last));
    }
}

/// What `k` steps over `SubVal` do: one subtraction of the sum of the counts.
proof fn lemma_sub_val_steps(code: Seq<BfIR>, p: State, k: nat)
    requires
        p.valid(code),
        p.mode is Run,
        !p.fault,
        p.pc + k <= code.len(),
        forall|i: int| p.pc <= i < p.pc + k ==> #[trigger] code[i] is SubVal,
    ensures
        run(code, p, k) == (State {
            pc: p.pc + k,
            tape: p.tape.update(
                p.ptr,
                ((p.tape[p.ptr] - count_sum(code.subrange(p.pc, p.pc + k))) % 256) as u8,
            ),
            ..p
        }),
    decreases k,
{
    if k == 0 {
        assert(code.subrange(p.pc, p.pc + 0) == Seq::<BfIR>::empty());
        assert(p.tape.update(p.ptr, p.tape[p.ptr]) == p.tape);
    } else {
        let j = (k - 1) as nat;
        lemma_sub_val_steps(code, p, j);
        lemma_run_last(code, p, j);
        lemma_count_sum_last(code, p.pc, j);
        let before = run(code, p, j);
        let part = count_sum(code.subrange(p.pc, p.pc + j));
        let last = code[p.pc + j];
        assert(last is SubVal);
        let n = last.count();
        let cell = p.tape[p.ptr] as int;
        lemma_wrap(cell - part, n);
        assert(before.tape.update(p.ptr, ((before.tape[p.ptr] - n) % 256) as u8) == p.tape.update(
            p.ptr,
            ((cell - part - n) % 256) as u8,
        ));
        assert(step(code, before) == before.execute(last));
    }
}

/// What `k` steps over `AddPtr` do: one move up by the sum of the counts,
/// or a fault if that leaves the tape.
proof fn lemma_add_ptr_steps(code: Seq<BfIR>, p: State, k: nat)
    requires
        p.valid(code),
        p.mode is Run,
        !p.fault,
        p.pc + k <= code.len(),
        forall|i: int| p.pc <= i < p.pc + k ==> #[trigger] code[i] is AddPtr,
    ensures
        ({
            let total = count_sum(code.subrange(p.pc, p.pc + k));
            let r = run(code, p, k);
            if p.ptr + total < p.tape.len() {
                r == (State { pc: p.pc + k, ptr: p.ptr + total, ..p })
            } else {
                r.fault && r.tape == p.tape && r.input == p.input && r.output == p.output
            }
        }),
    decreases k,
{
    if k == 0 {
        assert(code.subrange(p.pc, p.pc + 0) == Seq::<BfIR>::empty());
    } else {
        let j = (k - 1) as nat;
        lemma_add_ptr_steps(code, p, j);
        lemma_run_last(code, p, j);
        lemma_count_sum_last(code, p.pc, j);
        let before = run(code, p, j);
        let last = code[p.pc + j];
        assert(last is AddPtr);
        if !before.fault {
            assert(step(code, before) == before.execute(last));
        }
    }
}

/// What `k` steps over `SubPtr` do: one move down by the sum of the
/// counts, or a fault if that leaves the tape.
proof fn lemma_sub_ptr_steps(code: Seq<BfIR>, p: State, k: nat)
    requires
        p.valid(code),
        p.mode is Run,
        !p.fault,
        p.pc + k <= code.len(),
        forall|i: int| p.pc <= i < p.pc + k ==> #[trigger] code[i] is SubPtr,
    ensures
        ({
            let total = count_sum(code.subrange(p.pc, p.pc + k));
            let r = run(code, p, k);
            if p.ptr - total >= 0 {
                r == (State { pc: p.pc + k, ptr: p.ptr - total, ..p })
            } else {
                r.fault && r.tape == p.tape && r.input == p.input && r.output == p.output
            }
        }),
    decreases k,
{
    if k == 0 {
        assert(code.subrange(p.pc, p.pc + 0) == Seq::<BfIR>::empty());
    } else {
        let j = (k - 1) as nat;
        lemma_sub_ptr_steps(code, p, j);
        lemma_run_last(code, p, j);
        lemma_count_sum_last(code, p.pc, j);
        let before = run(code, p, j);
        let last = code[p.pc + j];
        assert(last is SubPtr);
        if !before.fault {
            assert(step(code, before) == before.execute(last));
        }
    }
}

/// Walking forward over `k` instructions that are no jumps moves on by `k`.
proof fn lemma_walk_forward(code: Seq<BfIR>, p: State, k: nat)
    requires
        p.mode is Forward,
        !p.fault,
        0 <= p.pc,
        p.pc + k <= code.len(),
        forall|i: int| p.pc <= i < p.pc + k ==> (#[trigger] code[i]).is_counted(),
    ensures
        run(code, p, k) == (State { pc: p.pc + k, ..p }),
    decreases k,
{
    if k > 0 {
        let j = (k - 1) as nat;
        lemma_walk_forward(code, p, j);
        lemma_run_last(code, p, j);
        assert(code[p.pc + j].is_counted());
    }
}

/// Walking backward over `k` instructions that are no jumps moves back by `k`.
proof fn lemma_walk_backward(code: Seq<BfIR>, p: State, k: nat)
    requires
        p.mode is Backward,
        !p.fault,
        0 <= p.pc - k,
        p.pc <= code.len(),
        forall|i: int| p.pc - k <= i < p.pc ==> (#[trigger] code[i]).is_counted(),
    ensures
        run(code, p, k) == (State { pc: p.pc - k, ..p }),
    decreases k,
{
    if k > 0 {
        let j = (k - 1) as nat;
        lemma_walk_backward(code, p, j);
        lemma_run_last(code, p, j);
        assert(code[p.pc - j - 1].is_counted());
    }
}

/// A step of the optimized program that executes a folded instruction is
/// matched by the steps of the plain program over the run.
proof fn lemma_folded_step_corresponds(code: Seq<BfIR>, p: State, q: State)
    requires
        pointer_runs_fit(code),
        q.valid(optimized(code)),
        p.valid(code),
        corresponds(code, p, q),
        !q.halted(optimized(code)),
        q.mode is Run,
        code[run_start(code, q.pc)].is_counted(),
    ensures
        corresponds(code, run(code, p, stride(code, q)), step(optimized(code), q)),
{
    let out = optimized(code);
    let k = stride(code, q);
    let j = q.pc;
    lemma_run_at(code, j);
    let s = run_start(code, j);
    let e = run_start(code, j + 1);
    assert(run_at(code, j) == code.subrange(s, e));
    let total = count_sum(code.subrange(s, e));
    let head = code[s];
    assert(out[j] == head.with_count((total % 256) as u8));
    assert(step(out, q) == q.execute(out[j]));
    match head {
        BfIR::AddVal(_) => {
            assert forall|i: int| s <= i < e implies #[trigger] code[i] is AddVal by {
                assert(code[i].same_variant(head));
            }
            lemma_add_val_steps(code, p, k);
            let cell = p.tape[p.ptr] as int;
            lemma_wrap(cell, total);
        },
        BfIR::SubVal(_) => {
            assert forall|i: int| s <= i < e implies #[trigger] code[i] is SubVal by {
                assert(code[i].same_variant(head));
            }
            lemma_sub_val_steps(code, p, k);
            let cell = p.tape[p.ptr] as int;
            lemma_wrap(cell, total);
        },
        BfIR::AddPtr(_) => {
            assert forall|i: int| s <= i < e implies #[trigger] code[i] is AddPtr by {
                assert(code[i].same_variant(head));
            }
            lemma_add_ptr_steps(code, p, k);
            lemma_count_sum_last(code, s, (k - 1) as nat);
            assert(out[j].is_pointer_move());
            assert(0 <= total < 256);
        },
        BfIR::SubPtr(_) => {
            assert forall|i: int| s <= i < e implies #[trigger] code[i] is SubPtr by {
                assert(code[i].same_variant(head));
            }
            lemma_sub_ptr_steps(code, p, k);
            lemma_count_sum_last(code, s, (k - 1) as nat);
            assert(out[j].is_pointer_move());
            assert(0 <= total < 256);
        },
        _ => {},
    }
}

/// A step of the optimized program that walks over a folded instruction
/// is matched by the steps of the plain program over the run.
proof fn lemma_walk_step_corresponds(code: Seq<BfIR>, p: State, q: State)
    requires
        q.valid(optimized(code)),
        p.valid(code),
        corresponds(code, p, q),
        !q.halted(optimized(code)),
        !(q.mode is Run),
        code[run_start(code, if q.mode is Backward {
                q.pc - 1
            } else {
                q.pc
            })].is_counted(),
    ensures
        corresponds(code, run(code, p, stride(code, q)), step(optimized(code), q)),
{
    let out = optimized(code);
    let k = stride(code, q);
    let j = if q.mode is Backward {
        q.pc - 1
    } else {
        q.pc
    };
    lemma_run_at(code, j);
    let s = run_start(code, j);
    let e = run_start(code, j + 1);
    assert forall|i: int| s <= i < e implies (#[trigger] code[i]).is_counted() by {
        assert(code[i].same_variant(code[s]));
    }
    assert(out[j].is_counted());
    if q.mode is Forward {
        lemma_walk_forward(code, p, k);
        assert(step(out, q) == q.pass_forward(out[j]));
    } else {
        lemma_walk_backward(code, p, k);
        assert(step(out, q) == q.pass_backward(out[j]));
    }
}

/// A step of the optimized program over an instruction without a count is
/// matched by the same step of the plain program.
proof fn lemma_uncounted_step_corresponds(code: Seq<BfIR>, p: State, q: State)
    requires
        q.valid(optimized(code)),
        p.valid(code),
        corresponds(code, p, q),
        !q.halted(optimized(code)),
        !code[run_start(code, if q.mode is Backward {
                q.pc - 1
            } else {
                q.pc
            })].is_counted(),
    ensures
        stride(code, q) == 1,
        corresponds(code, run(code, p, 1), step(optimized(code), q)),
{
    let out = optimized(code);
    let j = if q.mode is Backward {
        q.pc - 1
    } else {
        q.pc
    };
    lemma_run_at(code, j);
    let s = run_start(code, j);
    assert(out[j] == code[s]);
    lemma_run_last(code, p, 0);
    assert(run(code, p, 1) == step(code, p));
    if q.mode is Backward {
        assert(run_start(code, q.pc) == s + 1);
        assert(step(out, q) == q.pass_backward(out[j]));
        assert(step(code, p) == p.pass_backward(code[s]));
    } else if q.mode is Forward {
        assert(step(out, q) == q.pass_forward(out[j]));
        assert(step(code, p) == p.pass_forward(code[s]));
    } else {
        assert(step(out, q) == q.execute(out[j]));
        assert(step(code, p) == p.execute(code[s]));
    }
}

/// One step of the optimized program is matched by the steps of the
/// plain program that it stands for.
proof fn lemma_step_corresponds(code: Seq<BfIR>, p: State, q: State)
    requires
        pointer_runs_fit(code),
        q.valid(optimized(code)),
        p.valid(code),
        corresponds(code, p, q),
    ensures
        stride(code, q) >= 1,
        corresponds(code, run(code, p, stride(code, q)), step(optimized(code), q)),
{
    let out = optimized(code);
    lemma_run_start(code, q.pc);
    if q.halted(out) {
        if !q.fault {
            assert(p.halted(code));
        }
        lemma_halted_stays(code, p, 1);
    } else {
        let j = if q.mode is Backward {
            q.pc - 1
        } else {
            q.pc
        };
        lemma_run_at(code, j);
        if !code[run_start(code, j)].is_counted() {
            lemma_uncounted_step_corresponds(code, p, q);
        } else if q.mode is Run {
            lemma_folded_step_corresponds(code, p, q);
        } else {
            lemma_walk_step_corresponds(code, p, q);
        }
    }
}

/// As many steps of the optimized program as one likes are matched by the
/// steps of the plain program that they stand for, which are no fewer.
pub proof fn lemma_run_corresponds(code: Seq<BfIR>, p: State, q: State, m: nat)
    requires
        pointer_runs_fit(code),
        q.valid(optimized(code)),
        p.valid(code),
        corresponds(code, p, q),
    ensures
        cost(code, q, m) >= m,
        corresponds(code, run(code, p, cost(code, q, m)), run(optimized(code), q, m)),
        run(optimized(code), q, m).valid(optimized(code)),
        run(code, p, cost(code, q, m)).valid(code),
    decreases m,
{
    if m > 0 {
        let out = optimized(code);
        let k = stride(code, q);
        lemma_step_corresponds(code, p, q);
        lemma_step_valid(out, q);
        lemma_run_valid(code, p, k);
        lemma_run_corresponds(code, run(code, p, k), step(out, q), (m - 1) as nat);
        lemma_run_split(code, p, k, cost(code, step(out, q), (m - 1) as nat));
    }
}

/// Corresponding states end the same way, or neither has ended, and have
/// written the same output.
proof fn lemma_corresponding_outcome(code: Seq<BfIR>, p: State, q: State)
    requires
        q.valid(optimized(code)),
        corresponds(code, p, q),
    ensures
        p.outcome(code) == q.outcome(optimized(code)),
        p.output == q.output,
{
    lemma_run_start(code, q.pc);
    lemma_run_start(code, 0);
}

/// The peephole pass is transparent, from the optimized program to the
/// plain one: if the optimized program ends within `m` steps, the plain
/// program ends too, in the same way and with the same output.
///
/// This holds of every program in which no run of pointer moves adds up
/// to more than 255.
pub proof fn lemma_plain_ends_as_optimized(
    code: Seq<BfIR>,
    cells: nat,
    input: Seq<u8>,
    m: nat,
) -> (n: nat)
    requires
        pointer_runs_fit(code),
        cells > 0,
        result_within(optimized(code), State::initial(cells, input), m) is Some,
    ensures
        n >= m,
        result_within(code, State::initial(cells, input), n) == result_within(
            optimized(code),
            State::initial(cells, input),
            m,
        ),
{
    let start = State::initial(cells, input);
    lemma_run_corresponds(code, start, start, m);
    let n = cost(code, start, m);
    lemma_corresponding_outcome(code, run(code, start, n), run(optimized(code), start, m));
    n
}

/// The peephole pass is transparent, from the plain program to the
/// optimized: if the plain program ends within `n` steps, the optimized
/// program ends within `n` steps too, in the same way and with the same
/// output.
///
/// This holds of every program in which no run of pointer moves adds up
/// to more than 255.
pub proof fn lemma_optimized_ends_as_plain(
    code: Seq<BfIR>,
    cells: nat,
    input: Seq<u8>,
    n: nat,
)
    requires
        pointer_runs_fit(code),
        cells > 0,
        result_within(code, State::initial(cells, input), n) is Some,
    ensures
        result_within(optimized(code), State::initial(cells, input), n) == result_within(
            code,
            State::initial(cells, input),
            n,
        ),
{
    let start = State::initial(cells, input);
    lemma_run_corresponds(code, start, start, n);
    let more = cost(code, start, n);
    lemma_result_stable(code, start, n, more);
    lemma_corresponding_outcome(code, run(code, start, more), run(optimized(code), start, n));
}

/// While neither program has ended, the optimized one has written, after
/// `m` steps, what the plain one has written after the steps that they
/// stand for: the two write the same bytes in the same order.
pub proof fn lemma_same_output(code: Seq<BfIR>, cells: nat, input: Seq<u8>, m: nat) -> (n: nat)
    requires
        pointer_runs_fit(code),
        cells > 0,
    ensures
        n >= m,
        run(code, State::initial(cells, input), n).output == run(
            optimized(code),
            State::initial(cells, input),
            m,
        ).output,
{
    let start = State::initial(cells, input);
    lemma_run_corresponds(code, start, start, m);
    let n = cost(code, start, m);
    lemma_corresponding_outcome(code, run(code, start, n), run(optimized(code), start, m));
    n
}

} // verus!
