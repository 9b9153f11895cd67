//! The symbol and the alignment of dynamic shared memory.

use vstd::prelude::*;

use crate::attributes::{continues_identifier, is_identifier};
use crate::smem::{
    declares, ends_identifier, is_max_alignment, max_alignment, max_alignment_exists, smem_symbol,
    MirOp,
};

verus! {

/// The symbol of a function is a fixed prefix and behind it the whole name of the function, so
/// that different functions have different symbols.
pub proof fn symbols_hold_the_whole_name(func_name: Seq<char>, other: Seq<char>)
    ensures
        ({
            let prefix = "__dynamic_smem_"@;
            let symbol = smem_symbol(func_name);
            &&& symbol.len() == prefix.len() + func_name.len()
            &&& symbol.take(prefix.len() as int) == prefix
            &&& symbol.skip(prefix.len() as int) == func_name
        }),
        smem_symbol(func_name) == smem_symbol(other) <==> func_name == other,
{
    let prefix = "__dynamic_smem_"@;
    let n = prefix.len() as int;
    assert(smem_symbol(func_name).take(n) =~= prefix);
    assert(smem_symbol(func_name).skip(n) =~= func_name);
    assert(smem_symbol(other).skip(n) =~= other);
}

/// The largest alignment is that of some declaration in some block, and no declaration in any
/// block has a larger one. There is none exactly when no block declares dynamic shared memory.
pub proof fn largest_alignment(blocks: Seq<Vec<MirOp>>, b: int, k: int, alignment: u64)
    ensures
        max_alignment(blocks) matches Some(max) ==> exists|i: int, j: int|
            0 <= i < blocks.len() && 0 <= j < blocks[i]@.len() && (#[trigger] blocks[i]@[j]) == (
            MirOp::ExternShared { alignment: max }),
        0 <= b < blocks.len() && 0 <= k < blocks[b]@.len() && blocks[b]@[k] == (
        MirOp::ExternShared { alignment }) ==> (max_alignment(blocks) matches Some(max)
            && alignment <= max),
{
    max_alignment_exists(blocks);
    assert(is_max_alignment(blocks, max_alignment(blocks)));
    if let Some(max) = max_alignment(blocks) {
        assert(declares(blocks, max));
    }
    if 0 <= b < blocks.len() && 0 <= k < blocks[b]@.len() && blocks[b]@[k] == (
    MirOp::ExternShared { alignment }) {
        assert(declares(blocks, alignment));
    }
}

/// Every identifier can end a symbol. A text can end a symbol exactly when both parts of it can.
pub proof fn names_that_end_symbols(s: Seq<char>, a: Seq<char>, b: Seq<char>)
    ensures
        is_identifier(s) ==> ends_identifier(s),
        ends_identifier(Seq::empty()),
        ends_identifier(a + b) <==> ends_identifier(a) && ends_identifier(b),
{
    if ends_identifier(a + b) {
        assert forall|i: int| 0 <= i < a.len() implies continues_identifier(#[trigger] a[i]) by {
            assert((a + b)[i] == a[i]);
        }
        assert forall|i: int| 0 <= i < b.len() implies continues_identifier(#[trigger] b[i]) by {
            assert((a + b)[a.len() + i] == b[i]);
        }
    }
}

}
