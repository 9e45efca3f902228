//! From source text to the intermediate representation, and the peephole
//! pass that folds runs of one counted instruction.

use vstd::prelude::*;

use crate::bf::error::CompileError;
use crate::bf::error::CompileErrorKind;
use crate::bf::ir::depth;
use crate::bf::ir::well_nested;
use crate::bf::ir::BfIR;
use crate::bf::peephole::count_sum;
use crate::bf::peephole::folded;
use crate::bf::peephole::lemma_count_sum_single;
use crate::bf::peephole::lemma_optimized_keeps_nesting;
use crate::bf::peephole::lemma_optimized_len;
use crate::bf::peephole::lemma_run_len_bounds;
use crate::bf::peephole::lemma_run_len_is;
use crate::bf::peephole::lemma_run_shape;
use crate::bf::peephole::optimized;
use crate::bf::peephole::run_len;

verus! {

/// The instruction that a source character stands for; `None` for every
/// character that is not one of the eight operators.
pub open spec fn instruction_of(c: char) -> Option<BfIR> {
    if c == '+' {
        Some(BfIR::AddVal(1))
    } else if c == '-' {
        Some(BfIR::SubVal(1))
    } else if c == '>' {
        Some(BfIR::AddPtr(1))
    } else if c == '<' {
        Some(BfIR::SubPtr(1))
    } else if c == ',' {
        Some(BfIR::GetByte)
    } else if c == '.' {
        Some(BfIR::PutByte)
    } else if c == '[' {
        Some(BfIR::Jz)
    } else if c == ']' {
        Some(BfIR::Jnz)
    } else {
        None
    }
}

/// The instructions of the operators in `src`, in the order of the text.
pub open spec fn lower(src: Seq<char>) -> Seq<BfIR>
    decreases src.len(),
{
    if src.len() == 0 {
        Seq::empty()
    } else {
        match instruction_of(src.last()) {
            Some(instruction) => lower(src.drop_last()).push(instruction),
            None => lower(src.drop_last()),
        }
    }
}

/// `1` for `[`, `-1` for `]`, `0` for any other character.
pub open spec fn bracket(c: char) -> int {
    if c == '[' {
        1
    } else if c == ']' {
        -1
    } else {
        0
    }
}

/// The number of `[` in `src` minus the number of `]`.
pub open spec fn balance(src: Seq<char>) -> int
    decreases src.len(),
{
    if src.len() == 0 {
        0
    } else {
        balance(src.drop_last()) + bracket(src.last())
    }
}

/// The line of the cursor after reading `src`: one more than the number of
/// line feeds read.
pub open spec fn line_after(src: Seq<char>) -> int
    decreases src.len(),
{
    if src.len() == 0 {
        1
    } else if src.last() == '\n' {
        line_after(src.drop_last()) + 1
    } else {
        line_after(src.drop_last())
    }
}

/// The column of the cursor after reading `src`: the number of characters
/// read since the last line feed.
pub open spec fn col_after(src: Seq<char>) -> int
    decreases src.len(),
{
    if src.len() == 0 || src.last() == '\n' {
        0
    } else {
        col_after(src.drop_last()) + 1
    }
}

/// The line of the character at index `i`, counted from 1.
pub open spec fn line_of(src: Seq<char>, i: int) -> int {
    line_after(src.take(i + 1))
}

/// The column of the character at index `i`, counted from 1.
pub open spec fn col_of(src: Seq<char>, i: int) -> int {
    col_after(src.take(i + 1))
}

/// No prefix of `src` closes more brackets than it has opened.
pub open spec fn never_negative(src: Seq<char>) -> bool {
    forall|k: int| 0 <= k <= src.len() ==> balance(#[trigger] src.take(k)) >= 0
}

/// The character at index `i` is the first `]` that closes nothing.
pub open spec fn unexpected_close(src: Seq<char>, i: int) -> bool {
    &&& 0 <= i < src.len()
    &&& never_negative(src.take(i))
    &&& balance(src.take(i + 1)) < 0
}

/// The character at index `j` is a `[` that nothing after it closes.
pub open spec fn stays_open(src: Seq<char>, j: int) -> bool {
    &&& 0 <= j < src.len()
    &&& src[j] == '['
    &&& forall|k: int| j < k <= src.len() ==> balance(#[trigger] src.take(k)) > balance(src.take(j))
}

/// The character at index `j` is the last `[` that nothing closes: of the
/// loops still open at the end of the text, the innermost.
pub open spec fn innermost_open(src: Seq<char>, j: int) -> bool {
    &&& stays_open(src, j)
    &&& forall|j2: int| j < j2 < src.len() ==> !#[trigger] stays_open(src, j2)
}

/// Whether `src` is a program: its brackets pair up.
pub open spec fn balanced(src: Seq<char>) -> bool {
    never_negative(src) && balance(src) == 0
}

/// Whether `e` is the error of `src`: the first `]` that closes nothing
/// or, if there is none, the innermost `[` that is still open at the end,
/// with the line and column of that character.
pub open spec fn reports(src: Seq<char>, e: CompileError) -> bool {
    match e.kind {
        CompileErrorKind::UnexpectedRightBracket => exists|i: int|
            {
                &&& unexpected_close(src, i)
                &&& e.line == line_of(src, i)
                &&& e.col == col_of(src, i)
            },
        CompileErrorKind::UnclosedLeftBracket => {
            &&& never_negative(src)
            &&& exists|j: int|
                {
                    &&& innermost_open(src, j)
                    &&& e.line == line_of(src, j)
                    &&& e.col == col_of(src, j)
                }
        },
    }
}

/// A text with an error is no program, and has one error only.
pub proof fn lemma_reports_unique(src: Seq<char>, e: CompileError, f: CompileError)
    requires
        reports(src, e),
        reports(src, f),
    ensures
        !balanced(src),
        e == f,
{
    if e.kind is UnexpectedRightBracket {
        let i = choose|i: int|
            unexpected_close(src, i) && e.line == line_of(src, i) && e.col == col_of(src, i);
        assert(balance(src.take(i + 1)) < 0);
        if f.kind is UnexpectedRightBracket {
            let i2 = choose|i2: int|
                unexpected_close(src, i2) && f.line == line_of(src, i2) && f.col == col_of(src, i2);
            if i < i2 {
                assert(src.take(i2).take(i + 1) == src.take(i + 1));
            } else if i2 < i {
                assert(src.take(i).take(i2 + 1) == src.take(i2 + 1));
            }
        }
    } else {
        let j = choose|j: int|
            innermost_open(src, j) && e.line == line_of(src, j) && e.col == col_of(src, j);
        assert(src.take(src.len() as int) == src);
        assert(balance(src.take(j)) >= 0);
        if f.kind is UnexpectedRightBracket {
            let i2 = choose|i2: int|
                unexpected_close(src, i2) && f.line == line_of(src, i2) && f.col == col_of(src, i2);
            assert(balance(src.take(i2 + 1)) < 0);
        } else {
            let j2 = choose|j2: int|
                innermost_open(src, j2) && f.line == line_of(src, j2) && f.col == col_of(src, j2);
            if j < j2 {
                assert(!stays_open(src, j2));
            } else if j2 < j {
                assert(!stays_open(src, j));
            }
        }
    }
}

/// One more character read: how every quantity of the scan moves.
proof fn lemma_scan_step(src: Seq<char>, n: int)
    requires
        0 <= n < src.len(),
    ensures
        src.take(n + 1).drop_last() == src.take(n),
        src.take(n + 1).last() == src[n],
        balance(src.take(n + 1)) == balance(src.take(n)) + bracket(src[n]),
        line_after(src.take(n + 1)) == line_after(src.take(n)) + if src[n] == '\n' {
            1int
        } else {
            0int
        },
        col_after(src.take(n + 1)) == if src[n] == '\n' {
            0
        } else {
            col_after(src.take(n)) + 1
        },
        lower(src.take(n + 1)) == match instruction_of(src[n]) {
            Some(instruction) => lower(src.take(n)).push(instruction),
            None => lower(src.take(n)),
        },
{
    assert(src.take(n + 1).drop_last() == src.take(n));
}

/// A prefix of a prefix is a prefix.
proof fn lemma_take_take(src: Seq<char>, n: int, k: int)
    requires
        0 <= k <= n <= src.len(),
    ensures
        src.take(n).take(k) == src.take(k),
{
}

/// Translates source text into instructions.
///
/// Succeeds exactly when the brackets of `src` pair up, and then returns
/// the instructions of its operators in order. Otherwise reports the first
/// `]` that closes nothing or, if there is none, the innermost `[` that is
/// still open at the end, with its line and column.
///
/// Positions are 32-bit, so the text must be shorter than `u32::MAX`
/// characters.
pub fn compile(src: &str) -> (result: Result<Vec<BfIR>, CompileError>)
    requires
        src@.len() < u32::MAX,
    ensures
        match result {
            Ok(code) => {
                &&& balanced(src@)
                &&& code@ == lower(src@)
                &&& well_nested(code@)
            },
            Err(e) => reports(src@, e),
        },
{
    let mut code: Vec<BfIR> = Vec::new();
    let mut stk: Vec<(usize, u32, u32)> = Vec::new();
    let ghost mut opens: Seq<int> = Seq::empty();

    let mut line: u32 = 1;
    let mut col: u32 = 0;

    assert(src@.take(0) == Seq::<char>::empty());

    for ch in it: src.chars()
        invariant
            it.seq() == src@,
            src@.len() < u32::MAX,
            code@ == lower(src@.take(it.index())),
            line == line_after(src@.take(it.index())),
            col == col_after(src@.take(it.index())),
            line <= 1 + it.index(),
            col <= it.index(),
            never_negative(src@.take(it.index())),
            stk.len() == balance(src@.take(it.index())),
            stk.len() == opens.len(),
            stk.len() == depth(code@),
            forall|k: int| 0 <= k <= code.len() ==> depth(#[trigger] code@.take(k)) >= 0,
            forall|t: int|
                0 <= t < opens.len() ==> {
                    &&& 0 <= #[trigger] opens[t] < it.index()
                    &&& src@[opens[t]] == '['
                    &&& balance(src@.take(opens[t])) == t
                    &&& stk[t].1 == line_of(src@, opens[t])
                    &&& stk[t].2 == col_of(src@, opens[t])
                },
            forall|t: int, k: int|
                #![trigger opens[t], src@.take(k)]
                0 <= t < opens.len() && opens[t] < k <= it.index() ==> balance(src@.take(k)) > t,
    {
        let ghost n = it.index();
        let ghost prefix = src@.take(n);
        let ghost next = src@.take(n + 1);
        proof {
            lemma_scan_step(src@, n);
            assert forall|k: int| 0 <= k <= n implies #[trigger] next.take(k) == src@.take(k) by {
                lemma_take_take(src@, n + 1, k);
            }
            assert(next.take(n + 1) == next);
        }
        col += 1;
        if ch == '\n' {
            line += 1;
            col = 0;
        } else if ch == '+' {
            code.push(BfIR::AddVal(1));
        } else if ch == '-' {
            code.push(BfIR::SubVal(1));
        } else if ch == '>' {
            code.push(BfIR::AddPtr(1));
        } else if ch == '<' {
            code.push(BfIR::SubPtr(1));
        } else if ch == ',' {
            code.push(BfIR::GetByte);
        } else if ch == '.' {
            code.push(BfIR::PutByte);
        } else if ch == '[' {
            let pos = code.len();
            stk.push((pos, line, col));
            proof {
                opens = opens.push(n);
            }
            code.push(BfIR::Jz);
        } else if ch == ']' {
            if stk.len() == 0 {
                proof {
                    assert(unexpected_close(src@, n)) by {
                        assert forall|k: int| 0 <= k <= prefix.len() implies balance(
                            #[trigger] prefix.take(k),
                        ) >= 0 by {
                            lemma_take_take(src@, n, k);
                        }
                    }
                }
                return Err(
                    CompileError { line, col, kind: CompileErrorKind::UnexpectedRightBracket },
                );
            }
            stk.pop();
            proof {
                opens = opens.drop_last();
            }
            code.push(BfIR::Jnz);
        }
        proof {
            let ghost old_code = lower(prefix);
            if code@.len() > old_code.len() {
                assert(code@.drop_last() == old_code);
                assert forall|k: int| 0 <= k <= code.len() implies depth(
                    #[trigger] code@.take(k),
                ) >= 0 by {
                    if k < code.len() {
                        assert(code@.take(k) == old_code.take(k));
                    } else {
                        assert(code@.take(k) == code@);
                    }
                }
            }
            assert forall|k: int| 0 <= k <= next.len() implies balance(#[trigger] next.take(k))
                >= 0 by {
                if k <= n {
                    lemma_take_take(src@, n, k);
                    assert(prefix.take(k) == src@.take(k));
                }
            }
        }
    }

    proof {
        assert(src@.take(src@.len() as int) == src@);
    }

    if stk.len() > 0 {
        let top = stk[stk.len() - 1];
        proof {
            let t = opens.len() - 1;
            let j = opens[t];
            assert(stays_open(src@, j));
            assert forall|j2: int| j < j2 < src@.len() implies !#[trigger] stays_open(src@, j2) by {
                if stays_open(src@, j2) {
                    assert(opens[t] < j2 && balance(src@.take(j2)) > t);
                    assert(balance(src@.take(src@.len() as int)) > balance(src@.take(j2)));
                }
            }
            assert(innermost_open(src@, j));
        }
        return Err(
            CompileError { line: top.1, col: top.2, kind: CompileErrorKind::UnclosedLeftBracket },
        );
    }
    proof {
        assert(code@.take(code@.len() as int) == code@);
    }
    Ok(code)
}

/// The repetition count that an instruction carries.
fn count_of(instruction: BfIR) -> (n: u8)
    ensures
        n == instruction.count(),
{
    match instruction {
        BfIR::AddVal(n) => n,
        BfIR::SubVal(n) => n,
        BfIR::AddPtr(n) => n,
        BfIR::SubPtr(n) => n,
        _ => 0,
    }
}

/// Whether an instruction carries a repetition count.
fn carries_count(instruction: BfIR) -> (r: bool)
    ensures
        r == instruction.is_counted(),
{
    match instruction {
        BfIR::AddVal(_) | BfIR::SubVal(_) | BfIR::AddPtr(_) | BfIR::SubPtr(_) => true,
        _ => false,
    }
}

/// Whether two instructions are of one variant.
fn alike(a: BfIR, b: BfIR) -> (r: bool)
    ensures
        r == a.same_variant(b),
{
    match (a, b) {
        (BfIR::AddVal(_), BfIR::AddVal(_)) => true,
        (BfIR::SubVal(_), BfIR::SubVal(_)) => true,
        (BfIR::AddPtr(_), BfIR::AddPtr(_)) => true,
        (BfIR::SubPtr(_), BfIR::SubPtr(_)) => true,
        (BfIR::GetByte, BfIR::GetByte) => true,
        (BfIR::PutByte, BfIR::PutByte) => true,
        (BfIR::Jz, BfIR::Jz) => true,
        (BfIR::Jnz, BfIR::Jnz) => true,
        _ => false,
    }
}

/// The instruction of the variant of `instruction` with count `n`.
fn recount(instruction: BfIR, n: u8) -> (r: BfIR)
    ensures
        r == instruction.with_count(n),
{
    match instruction {
        BfIR::AddVal(_) => BfIR::AddVal(n),
        BfIR::SubVal(_) => BfIR::SubVal(n),
        BfIR::AddPtr(_) => BfIR::AddPtr(n),
        BfIR::SubPtr(_) => BfIR::SubPtr(n),
        other => other,
    }
}

/// Gives back what a vector no longer needs.
///
/// Trusted: `Vec::shrink_to_fit` changes the capacity of a vector and
/// none of its elements.
#[verifier::external_body]
fn shrink(code: &mut Vec<BfIR>)
    ensures
        final(code)@ == old(code)@,
{
    code.shrink_to_fit();
}

/// Folds every run of one counted instruction into a single instruction
/// whose count is the sum of the run's counts modulo 256, in place.
///
/// Instructions without a count are kept as they are, so the brackets keep
/// their order and nesting, and the code never grows.
pub fn optimize(code: &mut Vec<BfIR>)
    ensures
        final(code)@ == optimized(old(code)@),
        final(code)@.len() <= old(code)@.len(),
        well_nested(old(code)@) ==> well_nested(final(code)@),
{
    let ghost before = code@;
    let mut i: usize = 0;
    let mut pc: usize = 0;
    let len = code.len();

    proof {
        assert(before.skip(0) == before);
        assert(code@.take(0) + optimized(before) == optimized(before));
    }
    while i < len
        invariant
            len == before.len(),
            code@.len() == len,
            pc <= i <= len,
            forall|k: int| i <= k < len ==> code@[k] == before[k],
            optimized(before) == code@.take(pc as int) + optimized(before.skip(i as int)),
        decreases len - i,
    {
        let head = code[i];
        let ghost rest = before.skip(i as int);
        let mut x: u8 = count_of(head);
        let mut j: usize = i + 1;
        proof {
            lemma_run_len_bounds(rest);
            lemma_run_shape(rest);
            lemma_count_sum_single(head);
            assert(before.subrange(i as int, j as int) == seq![head]);
        }
        let counted = carries_count(head);
        while counted && j < len && alike(code[j], head)
            invariant
                len == before.len(),
                code@.len() == len,
                i < j <= len,
                head == before[i as int],
                counted == head.is_counted(),
                counted || j == i + 1,
                forall|k: int| i <= k < len ==> code@[k] == before[k],
                forall|k: int| i <= k < j ==> (#[trigger] before[k]).same_variant(head),
                x == count_sum(before.subrange(i as int, j as int)) % 256,
            decreases len - j,
        {
            proof {
                assert(before.subrange(i as int, j + 1).drop_last() == before.subrange(
                    i as int,
                    j as int,
                ));
            }
            x = x.wrapping_add(count_of(code[j]));
            j += 1;
        }
        proof {
            if head.is_counted() {
                assert forall|k: int| 0 <= k < j - i implies (#[trigger] rest[k]).same_variant(
                    rest[0],
                ) by {
                    assert(rest[k] == before[i + k]);
                }
                if j < len {
                    assert(rest[j - i] == before[j as int]);
                }
                lemma_run_len_is(rest, j - i);
            }
            assert(rest[0] == head);
            assert(run_len(rest) == j - i);
            assert(rest.take(j - i) == before.subrange(i as int, j as int));
            assert(rest.skip(j - i) == before.skip(j as int));
        }
        let ghost written = code@.take(pc as int);
        code[pc] = recount(head, x);
        proof {
            let f = folded(rest.take(j - i));
            assert(code@[pc as int] == f);
            assert(code@.take(pc + 1) == written.push(f));
            assert(optimized(rest) == seq![f] + optimized(rest.skip(j - i)));
            assert(written.push(f) + optimized(before.skip(j as int)) == written + (seq![f]
                + optimized(before.skip(j as int))));
        }
        pc += 1;
        i = j;
    }
    proof {
        assert(before.skip(len as int) == Seq::<BfIR>::empty());
        assert(code@.take(pc as int) + Seq::<BfIR>::empty() == code@.take(pc as int));
        lemma_optimized_len(before);
        lemma_optimized_keeps_nesting(before);
    }
    code.truncate(pc);
    shrink(code);
}

} // verus!
