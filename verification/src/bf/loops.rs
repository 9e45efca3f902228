//! Which `Jz` belongs to which `Jnz`: the pairs that delimit the loops of
//! a program, how they are found, and that the abstract machine walks from
//! one jump of a pair to the other.

use vstd::prelude::*;

use crate::bf::ir::depth;
use crate::bf::ir::well_nested;
use crate::bf::ir::BfIR;
use crate::bf::machine::lemma_run_split;
use crate::bf::machine::run;
use crate::bf::machine::step;
use crate::bf::machine::Mode;
use crate::bf::machine::State;

verus! {

/// One more instruction: how the depth moves.
proof fn lemma_prefix_step(code: Seq<BfIR>, n: int)
    requires
        0 <= n < code.len(),
    ensures
        depth(code.take(n + 1)) == depth(code.take(n)) + code[n].nesting(),
{
    assert(code.take(n + 1).drop_last() == code.take(n));
}

/// The `Jz` at `open` and the `Jnz` at `close` delimit one loop: the depth
/// behind `close` is the depth before `open`, for the first time.
pub open spec fn paired(code: Seq<BfIR>, open: int, close: int) -> bool {
    &&& 0 <= open < close < code.len()
    &&& code[open] is Jz
    &&& code[close] is Jnz
    &&& depth(code.take(close + 1)) == depth(code.take(open))
    &&& forall|k: int| open < k <= close ==> depth(#[trigger] code.take(k)) > depth(code.take(open))
}

/// The index of the jump that instruction `i` is paired with.
pub open spec fn partner(code: Seq<BfIR>, i: int) -> int {
    choose|m: int| paired(code, i, m) || paired(code, m, i)
}

/// A jump has one partner only.
pub proof fn lemma_partner_unique(code: Seq<BfIR>, i: int, m: int)
    requires
        paired(code, i, m) || paired(code, m, i),
    ensures
        partner(code, i) == m,
{
    let p = partner(code, i);
    assert(paired(code, i, p) || paired(code, p, i));
    if paired(code, i, m) {
        assert(paired(code, i, p));
        if m < p {
            assert(depth(code.take(m + 1)) > depth(code.take(i)));
        } else if p < m {
            assert(depth(code.take(p + 1)) > depth(code.take(i)));
        }
    } else {
        assert(paired(code, p, i));
        if m < p {
            assert(depth(code.take(p)) > depth(code.take(m)));
        } else if p < m {
            assert(depth(code.take(m)) > depth(code.take(p)));
        }
    }
}

/// In well-nested code every jump has its partner.
pub proof fn lemma_jumps_are_paired(code: Seq<BfIR>, i: int)
    requires
        well_nested(code),
        0 <= i < code.len(),
        code[i] is Jz || code[i] is Jnz,
    ensures
        code[i] is Jz ==> paired(code, i, partner(code, i)),
        code[i] is Jnz ==> paired(code, partner(code, i), i),
{
    lemma_prefix_step(code, i);
    assert(code.take(code.len() as int) == code);
    assert(code.take(0) == Seq::<BfIR>::empty());
    if code[i] is Jz {
        let close = lemma_find_close(code, i, i + 1);
        lemma_partner_unique(code, i, close);
    } else {
        let open = lemma_find_open(code, i, i);
        lemma_partner_unique(code, i, open);
    }
}

/// Looks from `k` on for the `Jnz` at which the depth is back to what it
/// was before the `Jz` at `open`.
proof fn lemma_find_close(code: Seq<BfIR>, open: int, k: int) -> (close: int)
    requires
        0 <= open < k <= code.len(),
        code[open] is Jz,
        depth(code) <= depth(code.take(open)),
        forall|j: int| open < j < k ==> depth(#[trigger] code.take(j)) > depth(code.take(open)),
    ensures
        paired(code, open, close),
    decreases code.len() - k,
{
    lemma_prefix_step(code, open);
    lemma_prefix_step(code, k - 1);
    assert(code.take(code.len() as int) == code);
    if depth(code.take(k)) <= depth(code.take(open)) {
        assert(depth(code.take(k - 1)) > depth(code.take(open)));
        k - 1
    } else {
        lemma_find_close(code, open, k + 1)
    }
}

/// Looks from `k` back for the `Jz` before which the depth is what it is
/// behind the `Jnz` at `close`.
proof fn lemma_find_open(code: Seq<BfIR>, close: int, k: int) -> (open: int)
    requires
        0 <= k <= close < code.len(),
        code[close] is Jnz,
        0 <= depth(code.take(close + 1)),
        forall|j: int| k < j <= close ==> depth(#[trigger] code.take(j)) > depth(code.take(close + 1)),
    ensures
        paired(code, open, close),
    decreases k,
{
    lemma_prefix_step(code, close);
    lemma_prefix_step(code, k);
    assert(code.take(0) == Seq::<BfIR>::empty());
    if depth(code.take(k)) <= depth(code.take(close + 1)) {
        assert(depth(code.take(k + 1)) > depth(code.take(close + 1)));
        k
    } else {
        lemma_find_open(code, close, k - 1)
    }
}

/// For every jump the index of its partner, 0 for the other instructions;
/// `None` if the jumps do not pair up.
pub fn jump_table(code: &[BfIR]) -> (result: Option<Vec<usize>>)
    ensures
        result is Some <==> well_nested(code@),
        result matches Some(table) ==> {
            &&& table.len() == code.len()
            &&& forall|i: int|
                0 <= i < code.len() && (code[i] is Jz || code[i] is Jnz) ==> #[trigger] table[i]
                    == partner(code@, i) && table[i] < code.len()
        },
{
    let mut table: Vec<usize> = Vec::new();
    let mut stack: Vec<usize> = Vec::new();
    let mut i: usize = 0;
    proof {
        assert(code@.take(0) == Seq::<BfIR>::empty());
    }
    while i < code.len()
        invariant
            i <= code.len(),
            table.len() == i,
            stack.len() == depth(code@.take(i as int)),
            forall|k: int| 0 <= k <= i ==> depth(#[trigger] code@.take(k)) >= 0,
            forall|t: int|
                0 <= t < stack.len() ==> {
                    &&& 0 <= #[trigger] stack[t] < i
                    &&& code[stack[t] as int] is Jz
                    &&& depth(code@.take(stack[t] as int)) == t
                },
            forall|t: int, k: int|
                #![trigger stack[t], code@.take(k)]
                0 <= t < stack.len() && stack[t] < k <= i ==> depth(code@.take(k)) > t,
            forall|j: int|
                0 <= j < i && code[j] is Jnz ==> paired(code@, #[trigger] table[j] as int, j),
            forall|j: int|
                0 <= j < i && code[j] is Jz ==> paired(code@, j, #[trigger] table[j] as int) || (
                exists|t: int| 0 <= t < stack.len() && stack[t] == j),
        decreases code.len() - i,
    {
        proof {
            lemma_prefix_step(code@, i as int);
        }
        let ghost before = stack@;
        let ghost pairs = table@;
        match code[i] {
            BfIR::Jz => {
                stack.push(i);
                table.push(0);
                proof {
                    assert(stack[stack.len() - 1] == i);
                    assert forall|j: int| 0 <= j < i + 1 && code[j] is Jz implies paired(
                        code@,
                        j,
                        #[trigger] table[j] as int,
                    ) || (exists|t: int| 0 <= t < stack.len() && stack[t] == j) by {
                        if j < i && !paired(code@, j, pairs[j] as int) {
                            let t = choose|t: int| 0 <= t < before.len() && before[t] == j;
                            assert(stack[t] == j);
                        }
                    }
                }
            },
            BfIR::Jnz => {
                if stack.len() == 0 {
                    proof {
                        assert(depth(code@.take(i + 1)) < 0);
                    }
                    return None;
                }
                let open = stack[stack.len() - 1];
                stack.pop();
                table.set(open, i);
                table.push(open);
                proof {
                    let top = before.len() - 1;
                    assert(before[top] == open);
                    assert(paired(code@, open as int, i as int));
                    assert forall|j: int| 0 <= j < i + 1 && code[j] is Jz implies paired(
                        code@,
                        j,
                        #[trigger] table[j] as int,
                    ) || (exists|t: int| 0 <= t < stack.len() && stack[t] == j) by {
                        if j != open && !paired(code@, j, pairs[j] as int) {
                            let t = choose|t: int| 0 <= t < before.len() && before[t] == j;
                            assert(stack[t] == j);
                        }
                    }
                    assert forall|j: int| 0 <= j < i + 1 && code[j] is Jnz implies paired(
                        code@,
                        #[trigger] table[j] as int,
                        j,
                    ) by {
                        if j < i {
                            assert(paired(code@, pairs[j] as int, j));
                        }
                    }
                }
            },
            _ => {
                table.push(0);
            },
        }
        i += 1;
    }
    proof {
        assert(code@.take(code.len() as int) == code@);
    }
    if stack.len() != 0 {
        return None;
    }
    proof {
        assert forall|j: int| 0 <= j < code.len() && (code[j] is Jz || code[j] is Jnz) implies (
        #[trigger] table[j]) == partner(code@, j) && table[j] < code.len() by {
            if code[j] is Jz {
                assert(paired(code@, j, table[j] as int));
            } else {
                assert(paired(code@, table[j] as int, j));
            }
            lemma_partner_unique(code@, j, table[j] as int);
        }
    }
    Some(table)
}

/// The abstract machine walks forward from a `Jz` to where generated code
/// jumps: behind the `Jnz` that the `Jz` is paired with.
pub proof fn lemma_skipped_loop_ends_behind_partner(code: Seq<BfIR>, s: State, open: int)
    requires
        0 <= open < code.len(),
        code[open] is Jz,
        well_nested(code),
        s.mode is Forward,
        s.nest == 0,
        s.pc == open + 1,
        !s.fault,
    ensures
        run(code, s, (partner(code, open) - open) as nat) == (State {
            pc: partner(code, open) + 1,
            mode: Mode::Run,
            ..s
        }),
{
    lemma_jumps_are_paired(code, open);
    let close = partner(code, open);
    lemma_walk_to_close(code, s, open, close, (close - open - 1) as nat);
    let before = run(code, s, (close - open - 1) as nat);
    lemma_run_split(code, s, (close - open - 1) as nat, 1);
    assert(run(code, before, 1) == step(code, before)) by {
        assert(run(code, step(code, before), 0) == step(code, before));
    }
    lemma_prefix_step(code, close);
    lemma_prefix_step(code, open);
}

/// Walking forward inside a loop: after `k` steps the machine is `k`
/// instructions on and as deep as the code is nested there.
proof fn lemma_walk_to_close(code: Seq<BfIR>, s: State, open: int, close: int, k: nat)
    requires
        paired(code, open, close),
        s.mode is Forward,
        s.nest == 0,
        s.pc == open + 1,
        !s.fault,
        open + 1 + k <= close,
    ensures
        run(code, s, k) == (State {
            pc: open + 1 + k,
            nest: depth(code.take(open + 1 + k)) - depth(code.take(open + 1)),
            ..s
        }),
    decreases k,
{
    if k > 0 {
        let j = (k - 1) as nat;
        lemma_walk_to_close(code, s, open, close, j);
        lemma_run_split(code, s, j, 1);
        let before = run(code, s, j);
        assert(run(code, before, 1) == step(code, before)) by {
            assert(run(code, step(code, before), 0) == step(code, before));
        }
        let at = open + 1 + j;
        lemma_prefix_step(code, at);
        lemma_prefix_step(code, open);
        assert(depth(code.take(at + 1)) > depth(code.take(open)));
        assert(step(code, before) == before.pass_forward(code[at]));
    }
}

/// The abstract machine walks backward from a `Jnz` to where generated
/// code jumps: behind the `Jz` that the `Jnz` is paired with.
pub proof fn lemma_repeated_loop_starts_behind_partner(code: Seq<BfIR>, s: State, close: int)
    requires
        0 <= close < code.len(),
        code[close] is Jnz,
        well_nested(code),
        s.mode is Backward,
        s.nest == 0,
        s.pc == close,
        !s.fault,
    ensures
        run(code, s, (close - partner(code, close)) as nat) == (State {
            pc: partner(code, close) + 1,
            mode: Mode::Run,
            ..s
        }),
{
    lemma_jumps_are_paired(code, close);
    let open = partner(code, close);
    lemma_walk_to_open(code, s, open, close, (close - open - 1) as nat);
    let before = run(code, s, (close - open - 1) as nat);
    lemma_run_split(code, s, (close - open - 1) as nat, 1);
    assert(run(code, before, 1) == step(code, before)) by {
        assert(run(code, step(code, before), 0) == step(code, before));
    }
    lemma_prefix_step(code, close);
    lemma_prefix_step(code, open);
}

/// Walking backward inside a loop: after `k` steps the machine is `k`
/// instructions back and as deep as the code is nested from there on.
proof fn lemma_walk_to_open(code: Seq<BfIR>, s: State, open: int, close: int, k: nat)
    requires
        paired(code, open, close),
        s.mode is Backward,
        s.nest == 0,
        s.pc == close,
        !s.fault,
        open + 1 <= close - k,
    ensures
        run(code, s, k) == (State {
            pc: close - k,
            nest: depth(code.take(close - k)) - depth(code.take(close)),
            ..s
        }),
    decreases k,
{
    if k > 0 {
        let j = (k - 1) as nat;
        lemma_walk_to_open(code, s, open, close, j);
        lemma_run_split(code, s, j, 1);
        let before = run(code, s, j);
        assert(run(code, before, 1) == step(code, before)) by {
            assert(run(code, step(code, before), 0) == step(code, before));
        }
        let at = close - j - 1;
        lemma_prefix_step(code, at);
        lemma_prefix_step(code, close);
        lemma_prefix_step(code, open);
        assert(depth(code.take(at)) > depth(code.take(open)));
        assert(step(code, before) == before.pass_backward(code[at]));
    }
}

} // verus!
