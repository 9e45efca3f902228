//! What the peephole pass computes, stated over sequences of instructions,
//! and the laws that follow from that statement.

use vstd::prelude::*;

use crate::bf::ir::depth;
use crate::bf::ir::lemma_depth_concat;
use crate::bf::ir::lemma_depth_flat;
use crate::bf::ir::well_nested;
use crate::bf::ir::BfIR;

verus! {

/// The length of the run at the head of `code`: the longest prefix made of
/// one counted variant, or a single instruction if the head has no count.
pub open spec fn run_len(code: Seq<BfIR>) -> int
    decreases code.len(),
{
    if code.len() == 0 {
        0
    } else if code.len() > 1 && code[0].is_counted() && code[1].same_variant(code[0]) {
        1 + run_len(code.drop_first())
    } else {
        1
    }
}

/// The sum of the counts of all instructions in `code`.
pub open spec fn count_sum(code: Seq<BfIR>) -> int
    decreases code.len(),
{
    if code.len() == 0 {
        0
    } else {
        count_sum(code.drop_last()) + code.last().count()
    }
}

/// The one instruction that a run folds to: its variant, with the counts
/// summed modulo 256.
pub open spec fn folded(run: Seq<BfIR>) -> BfIR
    recommends
        run.len() > 0,
{
    run[0].with_count((count_sum(run) % 256) as u8)
}

/// The result of the pass: every run of `code` folded, in order.
pub open spec fn optimized(code: Seq<BfIR>) -> Seq<BfIR>
    decreases code.len(),
    via optimized_terminates
{
    if code.len() == 0 {
        Seq::empty()
    } else {
        seq![folded(code.take(run_len(code)))] + optimized(code.skip(run_len(code)))
    }
}

#[via_fn]
proof fn optimized_terminates(code: Seq<BfIR>) {
    if code.len() != 0 {
        lemma_run_len_bounds(code);
    }
}

/// A run is never empty and never longer than the code it heads.
pub proof fn lemma_run_len_bounds(code: Seq<BfIR>)
    requires
        code.len() > 0,
    ensures
        1 <= run_len(code) <= code.len(),
    decreases code.len(),
{
    if code.len() > 1 && code[0].is_counted() && code[1].same_variant(code[0]) {
        lemma_run_len_bounds(code.drop_first());
    }
}

/// Every instruction of the run at the head is of the head's variant, and
/// the instruction after a run of a counted variant is of another.
pub proof fn lemma_run_shape(code: Seq<BfIR>)
    requires
        code.len() > 0,
    ensures
        forall|k: int| 0 <= k < run_len(code) ==> (#[trigger] code[k]).same_variant(code[0]),
        run_len(code) < code.len() && code[0].is_counted() ==> !code[run_len(code)].same_variant(
            code[0],
        ),
        !code[0].is_counted() ==> run_len(code) == 1,
    decreases code.len(),
{
    lemma_run_len_bounds(code);
    if code.len() > 1 && code[0].is_counted() && code[1].same_variant(code[0]) {
        let rest = code.drop_first();
        lemma_run_shape(rest);
        lemma_run_len_bounds(rest);
        assert forall|k: int| 0 <= k < run_len(code) implies (#[trigger] code[k]).same_variant(
            code[0],
        ) by {
            if k > 0 {
                assert(code[k] == rest[k - 1]);
                assert(rest[k - 1].same_variant(rest[0]));
            }
        }
        if run_len(code) < code.len() {
            assert(code[run_len(code)] == rest[run_len(rest)]);
        }
    }
}

/// A prefix of `n` instructions of the head's counted variant, followed by
/// the end of the code or by another variant, is the run at the head.
pub proof fn lemma_run_len_is(code: Seq<BfIR>, n: int)
    requires
        1 <= n <= code.len(),
        code[0].is_counted(),
        forall|k: int| 0 <= k < n ==> (#[trigger] code[k]).same_variant(code[0]),
        n == code.len() || !code[n].same_variant(code[0]),
    ensures
        run_len(code) == n,
    decreases n,
{
    if n > 1 {
        let rest = code.drop_first();
        assert(code[1].same_variant(code[0]));
        assert forall|k: int| 0 <= k < n - 1 implies (#[trigger] rest[k]).same_variant(rest[0]) by {
            assert(rest[k] == code[k + 1]);
        }
        lemma_run_len_is(rest, n - 1);
    }
}

/// A single instruction sums to its own count and folds to itself.
pub proof fn lemma_count_sum_single(i: BfIR)
    ensures
        count_sum(seq![i]) == i.count(),
        folded(seq![i]) == i,
{
    assert(seq![i].drop_last() == Seq::<BfIR>::empty());
    assert(count_sum(seq![i].drop_last()) == 0);
}

/// The pass never adds an instruction.
pub proof fn lemma_optimized_len(code: Seq<BfIR>)
    ensures
        optimized(code).len() <= code.len(),
    decreases code.len(),
{
    if code.len() > 0 {
        lemma_run_len_bounds(code);
        lemma_optimized_len(code.skip(run_len(code)));
    }
}

/// The index in `code` at which the run begins that the pass folds into
/// its instruction `j`; for `j` at the end of the result, the end of `code`.
pub open spec fn run_start(code: Seq<BfIR>, j: int) -> int
    decreases j,
{
    if j <= 0 {
        0
    } else {
        let start = run_start(code, j - 1);
        start + run_len(code.skip(start))
    }
}

/// The run that the pass folds into its instruction `j`.
pub open spec fn run_at(code: Seq<BfIR>, j: int) -> Seq<BfIR> {
    code.subrange(run_start(code, j), run_start(code, j + 1))
}

/// The folded instruction is of the variant of its run, and changes the
/// nesting depth as the whole run does.
pub proof fn lemma_folded_shape(code: Seq<BfIR>)
    requires
        code.len() > 0,
    ensures
        folded(code.take(run_len(code))).same_variant(code[0]),
        folded(code.take(run_len(code))).nesting() == depth(code.take(run_len(code))),
        !code[0].is_counted() ==> folded(code.take(run_len(code))) == code[0],
{
    lemma_run_len_bounds(code);
    lemma_run_shape(code);
    let run = code.take(run_len(code));
    if code[0].is_counted() {
        assert forall|k: int| 0 <= k < run.len() implies (#[trigger] run[k]).nesting() == 0 by {
            assert(code[k].same_variant(code[0]));
        }
        lemma_depth_flat(run);
    } else {
        assert(run == seq![code[0]]);
        assert(run.drop_last() == Seq::<BfIR>::empty());
        assert(depth(run.drop_last()) == 0);
    }
}

/// How the result of the pass lines up with the code it came from: its
/// instruction `j` is the fold of the run that starts at `run_start`, what
/// follows it is the result for what follows that run, and the nesting
/// depth before it is the depth before the run.
pub proof fn lemma_run_start(code: Seq<BfIR>, j: int)
    requires
        0 <= j <= optimized(code).len(),
    ensures
        0 <= run_start(code, j) <= code.len(),
        j <= run_start(code, j),
        optimized(code).skip(j) == optimized(code.skip(run_start(code, j))),
        j == optimized(code).len() <==> run_start(code, j) == code.len(),
        j < optimized(code).len() ==> {
            &&& run_start(code, j) < run_start(code, j + 1) <= code.len()
            &&& run_start(code, j + 1) - run_start(code, j) == run_len(
                code.skip(run_start(code, j)),
            )
            &&& optimized(code)[j] == folded(run_at(code, j))
        },
        depth(optimized(code).take(j)) == depth(code.take(run_start(code, j))),
    decreases j,
{
    let out = optimized(code);
    if j == 0 {
        assert(out.skip(0) == out);
        assert(code.skip(0) == code);
        assert(out.take(0) == code.take(0));
    } else {
        lemma_run_start(code, j - 1);
        let before = run_start(code, j - 1);
        let tail = code.skip(before);
        lemma_run_len_bounds(tail);
        lemma_folded_shape(tail);
        let r = run_len(tail);
        assert(out.skip(j) == out.skip(j - 1).skip(1));
        assert(optimized(tail).skip(1) == optimized(tail.skip(r)));
        assert(tail.skip(r) == code.skip(before + r));
        assert(tail.take(r) == code.subrange(before, before + r));
        assert(out[j - 1] == out.skip(j - 1)[0]);
        assert(out.take(j) == out.take(j - 1) + seq![out[j - 1]]);
        lemma_depth_concat(out.take(j - 1), seq![out[j - 1]]);
        assert(seq![out[j - 1]].drop_last() == Seq::<BfIR>::empty());
        assert(depth(seq![out[j - 1]].drop_last()) == 0);
        assert(code.take(before + r) == code.take(before) + tail.take(r));
        lemma_depth_concat(code.take(before), tail.take(r));
    }
    let here = run_start(code, j);
    if j < out.len() {
        let tail = code.skip(here);
        assert(optimized(tail).len() > 0);
        lemma_run_len_bounds(tail);
        assert(tail.take(run_len(tail)) == code.subrange(here, here + run_len(tail)));
        assert(out[j] == out.skip(j)[0]);
    } else {
        assert(out.skip(j).len() == 0);
        if here < code.len() {
            lemma_run_len_bounds(code.skip(here));
        }
    }
}

/// The pass leaves the brackets in their order, so well-nested code stays
/// well nested.
pub proof fn lemma_optimized_keeps_nesting(code: Seq<BfIR>)
    ensures
        depth(optimized(code)) == depth(code),
        well_nested(code) ==> well_nested(optimized(code)),
{
    let out = optimized(code);
    lemma_run_start(code, out.len() as int);
    assert(out.take(out.len() as int) == out);
    assert(code.take(code.len() as int) == code);
    if well_nested(code) {
        assert forall|k: int| 0 <= k <= out.len() implies depth(#[trigger] out.take(k)) >= 0 by {
            lemma_run_start(code, k);
        }
    }
}

/// What is known of the run that the pass folds into its instruction `j`:
/// where it lies, that it is of one variant, what it folds to, and that
/// the next run, if the run has a count, is of another variant.
pub proof fn lemma_run_at(code: Seq<BfIR>, j: int)
    requires
        0 <= j < optimized(code).len(),
    ensures
        0 <= run_start(code, j) < run_start(code, j + 1) <= code.len(),
        forall|i: int|
            run_start(code, j) <= i < run_start(code, j + 1) ==> (#[trigger] code[i]).same_variant(
                code[run_start(code, j)],
            ),
        optimized(code)[j] == code[run_start(code, j)].with_count(
            (count_sum(run_at(code, j)) % 256) as u8,
        ),
        !code[run_start(code, j)].is_counted() ==> run_start(code, j + 1) == run_start(code, j) + 1,
        code[run_start(code, j)].is_counted() && run_start(code, j + 1) < code.len()
            ==> !code[run_start(code, j + 1)].same_variant(code[run_start(code, j)]),
{
    lemma_run_start(code, j);
    let s = run_start(code, j);
    let tail = code.skip(s);
    lemma_run_len_bounds(tail);
    lemma_run_shape(tail);
    assert forall|i: int| s <= i < run_start(code, j + 1) implies (#[trigger] code[i]).same_variant(
        code[s],
    ) by {
        assert(code[i] == tail[i - s]);
        assert(tail[i - s].same_variant(tail[0]));
    }
    assert(run_at(code, j)[0] == code[s]);
    if run_start(code, j + 1) < code.len() {
        assert(code[run_start(code, j + 1)] == tail[run_len(tail)]);
    }
}

/// No instruction with a count is followed by one of its own variant:
/// there is nothing left to fold.
pub open spec fn settled(code: Seq<BfIR>) -> bool {
    forall|i: int|
        0 <= i < code.len() - 1 ==> !((#[trigger] code[i]).is_counted() && code[i + 1].same_variant(
            code[i],
        ))
}

/// The pass changes nothing in code that has nothing left to fold.
pub proof fn lemma_settled_is_fixed(code: Seq<BfIR>)
    requires
        settled(code),
    ensures
        optimized(code) == code,
    decreases code.len(),
{
    if code.len() > 0 {
        if code.len() > 1 {
            assert(!(code[0].is_counted() && code[1].same_variant(code[0])));
        }
        assert(run_len(code) == 1);
        let rest = code.skip(1);
        assert forall|i: int| 0 <= i < rest.len() - 1 implies !((#[trigger] rest[i]).is_counted()
            && rest[i + 1].same_variant(rest[i])) by {
            assert(rest[i] == code[i + 1]);
            assert(!(code[i + 1].is_counted() && code[i + 2].same_variant(code[i + 1])));
        }
        lemma_settled_is_fixed(rest);
        assert(code.take(1) == seq![code[0]]);
        lemma_count_sum_single(code[0]);
        assert(seq![code[0]] + rest == code);
    }
}

/// The result of the pass has nothing left to fold.
pub proof fn lemma_optimized_is_settled(code: Seq<BfIR>)
    ensures
        settled(optimized(code)),
{
    let out = optimized(code);
    assert forall|j: int| 0 <= j < out.len() - 1 implies !((#[trigger] out[j]).is_counted()
        && out[j + 1].same_variant(out[j])) by {
        lemma_run_at(code, j);
        lemma_run_at(code, j + 1);
    }
}

/// The pass is idempotent: applied to its own result, it changes nothing.
pub proof fn lemma_optimized_idempotent(code: Seq<BfIR>)
    ensures
        optimized(optimized(code)) == optimized(code),
{
    lemma_optimized_is_settled(code);
    lemma_settled_is_fixed(optimized(code));
}

/// Whether the pass keeps the last instruction of `a` apart from the first
/// of `b` when the two stand side by side.
pub open spec fn apart(a: Seq<BfIR>, b: Seq<BfIR>) -> bool {
    a.len() == 0 || b.len() == 0 || !(a.last().is_counted() && b[0].same_variant(a.last()))
}

/// The run at the head of `a` does not reach into `b` if the two are apart.
proof fn lemma_run_len_concat(a: Seq<BfIR>, b: Seq<BfIR>)
    requires
        a.len() > 0,
        apart(a, b),
    ensures
        run_len(a + b) == run_len(a),
    decreases a.len(),
{
    let ab = a + b;
    if a.len() == 1 {
        if b.len() > 0 {
            assert(ab[1] == b[0]);
        }
    } else {
        assert(ab[0] == a[0] && ab[1] == a[1]);
        assert(ab.drop_first() == a.drop_first() + b);
        assert(a.drop_first().last() == a.last());
        lemma_run_len_concat(a.drop_first(), b);
    }
}

/// The pass works on two pieces of code that are apart as it works on
/// each alone.
pub proof fn lemma_optimized_concat(a: Seq<BfIR>, b: Seq<BfIR>)
    requires
        apart(a, b),
    ensures
        optimized(a + b) == optimized(a) + optimized(b),
    decreases a.len(),
{
    if a.len() == 0 {
        assert(a + b == b);
        assert(optimized(a) + optimized(b) == optimized(b));
    } else {
        lemma_run_len_concat(a, b);
        lemma_run_len_bounds(a);
        let r = run_len(a);
        let rest = a.skip(r);
        assert((a + b).take(r) == a.take(r));
        assert((a + b).skip(r) == rest + b);
        if rest.len() > 0 {
            assert(rest.last() == a.last());
        }
        lemma_optimized_concat(rest, b);
        assert(seq![folded(a.take(r))] + (optimized(rest) + optimized(b)) == (seq![
            folded(a.take(r)),
        ] + optimized(rest)) + optimized(b));
    }
}

/// `k` copies of one instruction.
pub open spec fn repeated(unit: BfIR, k: nat) -> Seq<BfIR> {
    Seq::new(k, |i: int| unit)
}

/// The counts of `k` copies of an instruction add up to `k` times its count.
proof fn lemma_count_sum_repeated(unit: BfIR, k: nat)
    ensures
        count_sum(repeated(unit, k)) == k * unit.count(),
    decreases k,
{
    if k > 0 {
        assert(repeated(unit, k).drop_last() == repeated(unit, (k - 1) as nat));
        lemma_count_sum_repeated(unit, (k - 1) as nat);
        assert(k * unit.count() == (k - 1) * unit.count() + unit.count()) by (nonlinear_arith);
    } else {
        assert(0 * unit.count() == 0);
    }
}

/// A run of `k` unit operations alone folds to one instruction whose count
/// is `k` modulo 256.
pub proof fn lemma_unit_run_folds(unit: BfIR, k: nat)
    requires
        unit.is_counted(),
        unit.count() == 1,
        k > 0,
    ensures
        optimized(repeated(unit, k)) == seq![unit.with_count((k % 256) as u8)],
{
    let code = repeated(unit, k);
    lemma_run_len_is(code, k as int);
    lemma_count_sum_repeated(unit, k);
    assert(code.take(k as int) == code);
    assert(code.skip(k as int) == Seq::<BfIR>::empty());
    assert(optimized(code.skip(k as int)) == Seq::<BfIR>::empty());
    assert(k * 1 == k);
}

/// A run of exactly `k` unit operations, `k` a multiple of 256, folds to a
/// count of 0, wherever it stands: the 8-bit count wraps.
pub proof fn lemma_full_turns_fold_to_zero(
    before: Seq<BfIR>,
    unit: BfIR,
    k: nat,
    after: Seq<BfIR>,
)
    requires
        unit.is_counted(),
        unit.count() == 1,
        k > 0,
        k % 256 == 0,
        before.len() > 0 ==> !before.last().same_variant(unit),
        after.len() > 0 ==> !after[0].same_variant(unit),
    ensures
        optimized(before + repeated(unit, k) + after) == optimized(before) + seq![
            unit.with_count(0),
        ] + optimized(after),
{
    let run = repeated(unit, k);
    lemma_unit_run_folds(unit, k);
    assert(run.last() == unit && run[0] == unit);
    assert((before + run).last() == unit);
    lemma_optimized_concat(before + run, after);
    lemma_optimized_concat(before, run);
}

} // verus!
