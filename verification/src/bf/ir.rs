//! The intermediate representation that the compiler produces and the
//! code generator consumes.

use vstd::prelude::*;

verus! {

/// One instruction of the intermediate representation.
///
/// The four counted variants stand for a unit operation repeated `n`
/// times; the count wraps at 256.
#[derive(Debug, Clone, Copy, PartialEq, Eq, Structural)]
pub enum BfIR {
    /// `+`: add to the current cell.
    AddVal(u8),
    /// `-`: subtract from the current cell.
    SubVal(u8),
    /// `>`: move the data pointer up.
    AddPtr(u8),
    /// `<`: move the data pointer down.
    SubPtr(u8),
    /// `,`: read one byte into the current cell.
    GetByte,
    /// `.`: write the current cell.
    PutByte,
    /// `[`: skip the loop if the current cell is zero.
    Jz,
    /// `]`: repeat the loop if the current cell is not zero.
    Jnz,
}

impl BfIR {
    /// Whether the instruction carries a repetition count.
    pub open spec fn is_counted(self) -> bool {
        self is AddVal || self is SubVal || self is AddPtr || self is SubPtr
    }

    /// Whether the instruction moves the data pointer.
    pub open spec fn is_pointer_move(self) -> bool {
        self is AddPtr || self is SubPtr
    }

    /// The repetition count of a counted instruction, 0 for the others.
    pub open spec fn count(self) -> int {
        match self {
            BfIR::AddVal(n) => n as int,
            BfIR::SubVal(n) => n as int,
            BfIR::AddPtr(n) => n as int,
            BfIR::SubPtr(n) => n as int,
            _ => 0,
        }
    }

    /// Whether two instructions are of the same variant, whatever their counts.
    pub open spec fn same_variant(self, other: BfIR) -> bool {
        match self {
            BfIR::AddVal(_) => other is AddVal,
            BfIR::SubVal(_) => other is SubVal,
            BfIR::AddPtr(_) => other is AddPtr,
            BfIR::SubPtr(_) => other is SubPtr,
            BfIR::GetByte => other is GetByte,
            BfIR::PutByte => other is PutByte,
            BfIR::Jz => other is Jz,
            BfIR::Jnz => other is Jnz,
        }
    }

    /// The instruction of the same variant with count `n`; an uncounted
    /// instruction is returned as it is.
    pub open spec fn with_count(self, n: u8) -> BfIR {
        match self {
            BfIR::AddVal(_) => BfIR::AddVal(n),
            BfIR::SubVal(_) => BfIR::SubVal(n),
            BfIR::AddPtr(_) => BfIR::AddPtr(n),
            BfIR::SubPtr(_) => BfIR::SubPtr(n),
            _ => self,
        }
    }

    /// How the instruction changes the nesting depth: `Jz` opens a loop,
    /// `Jnz` closes one.
    pub open spec fn nesting(self) -> int {
        match self {
            BfIR::Jz => 1,
            BfIR::Jnz => -1,
            _ => 0,
        }
    }
}

/// The nesting depth after the whole of `code`: loops opened minus loops closed.
pub open spec fn depth(code: Seq<BfIR>) -> int
    decreases code.len(),
{
    if code.len() == 0 {
        0
    } else {
        depth(code.drop_last()) + code.last().nesting()
    }
}

/// Every `Jnz` closes a loop that an earlier `Jz` opened, and no loop is left open.
pub open spec fn well_nested(code: Seq<BfIR>) -> bool {
    &&& depth(code) == 0
    &&& forall|k: int| 0 <= k <= code.len() ==> depth(#[trigger] code.take(k)) >= 0
}

/// The depth of a concatenation is the sum of the depths of its parts.
pub proof fn lemma_depth_concat(a: Seq<BfIR>, b: Seq<BfIR>)
    ensures
        depth(a + b) == depth(a) + depth(b),
    decreases b.len(),
{
    if b.len() == 0 {
        assert(a + b == a);
    } else {
        assert((a + b).drop_last() == a + b.drop_last());
        lemma_depth_concat(a, b.drop_last());
    }
}

/// Instructions that are not jumps leave the depth at zero.
pub proof fn lemma_depth_flat(code: Seq<BfIR>)
    requires
        forall|k: int| 0 <= k < code.len() ==> (#[trigger] code[k]).nesting() == 0,
    ensures
        depth(code) == 0,
    decreases code.len(),
{
    if code.len() > 0 {
        lemma_depth_flat(code.drop_last());
    }
}

} // verus!
