//! Dynamic shared memory: the alignment that a function needs and the symbol that stands for it.

use pliron::identifier::Identifier;
use vstd::prelude::*;
use vstd::string::*;

use crate::attributes::{continues_identifier, identifier_text, is_identifier, new_identifier};

verus! {

/// An operation of a MIR block, as far as dynamic shared memory is concerned.
#[derive(Clone, Copy, PartialEq, Eq, Debug, Structural)]
pub enum MirOp {
    /// A declaration of dynamic shared memory, with its alignment.
    ExternShared { alignment: u64 },
    /// Anything else.
    Other,
}

/// Some block declares dynamic shared memory of this alignment.
pub open spec fn declares(blocks: Seq<Vec<MirOp>>, alignment: u64) -> bool {
    exists|b: int, k: int|
        0 <= b < blocks.len() && 0 <= k < blocks[b]@.len() && (#[trigger] blocks[b]@[k])
            == (MirOp::ExternShared { alignment })
}

/// The largest alignment that `blocks` declare, if they declare any.
pub open spec fn is_max_alignment(blocks: Seq<Vec<MirOp>>, max: Option<u64>) -> bool {
    match max {
        None => forall|alignment: u64| !#[trigger] declares(blocks, alignment),
        Some(m) => declares(blocks, m) && forall|alignment: u64| #[trigger]
            declares(blocks, alignment) ==> alignment <= m,
    }
}

/// The largest alignment that `blocks` declare, if they declare any.
pub open spec fn max_alignment(blocks: Seq<Vec<MirOp>>) -> Option<u64> {
    choose|max: Option<u64>| is_max_alignment(blocks, max)
}

/// There is only one largest alignment.
pub proof fn max_alignment_is_unique(blocks: Seq<Vec<MirOp>>, a: Option<u64>, b: Option<u64>)
    requires
        is_max_alignment(blocks, a),
        is_max_alignment(blocks, b),
    ensures
        a == b,
{
    if a is Some {
        assert(declares(blocks, a->0));
    }
    if b is Some {
        assert(declares(blocks, b->0));
    }
}

/// The largest of the alignments up to a bound.
proof fn max_alignment_below(blocks: Seq<Vec<MirOp>>, bound: int) -> (max: Option<u64>)
    requires
        -1 <= bound <= u64::MAX,
        forall|alignment: u64| #[trigger] declares(blocks, alignment) ==> alignment <= bound,
    ensures
        is_max_alignment(blocks, max),
    decreases bound + 1,
{
    if bound == -1 {
        None
    } else if declares(blocks, bound as u64) {
        Some(bound as u64)
    } else {
        max_alignment_below(blocks, bound - 1)
    }
}

/// There always is a largest alignment, or none is declared.
pub proof fn max_alignment_exists(blocks: Seq<Vec<MirOp>>)
    ensures
        is_max_alignment(blocks, max_alignment(blocks)),
{
    let max = max_alignment_below(blocks, u64::MAX as int);
    assert(is_max_alignment(blocks, max));
}

/// What the first `b` blocks and the first `k` operations of the next one declare.
spec fn declares_so_far(blocks: Seq<Vec<MirOp>>, b: int, k: int, alignment: u64) -> bool {
    exists|i: int, j: int|
        0 <= i < blocks.len() && 0 <= j < blocks[i]@.len() && (i < b || i == b && j < k) && (
        #[trigger] blocks[i]@[j]) == (MirOp::ExternShared { alignment })
}

spec fn is_max_so_far(blocks: Seq<Vec<MirOp>>, b: int, k: int, max: Option<u64>) -> bool {
    match max {
        None => forall|alignment: u64| !#[trigger] declares_so_far(blocks, b, k, alignment),
        Some(m) => declares_so_far(blocks, b, k, m) && forall|alignment: u64| #[trigger]
            declares_so_far(blocks, b, k, alignment) ==> alignment <= m,
    }
}

/// Finds the largest alignment of the dynamic shared memory that the blocks of a function declare.
pub fn compute_max_dynamic_smem_alignment(mir_blocks: &[Vec<MirOp>]) -> (r: Option<u64>)
    ensures
        r == max_alignment(mir_blocks@),
        is_max_alignment(mir_blocks@, r),
{
    let ghost blocks = mir_blocks@;
    let mut max_alignment: Option<u64> = None;
    for b in 0..mir_blocks.len()
        invariant
            blocks == mir_blocks@,
            is_max_so_far(blocks, b as int, 0, max_alignment),
    {
        let block: &Vec<MirOp> = &mir_blocks[b];
        for k in 0..block.len()
            invariant
                blocks == mir_blocks@,
                0 <= b < blocks.len(),
                *block == blocks[b as int],
                is_max_so_far(blocks, b as int, k as int, max_alignment),
        {
            if let MirOp::ExternShared { alignment } = block[k] {
                max_alignment = match max_alignment {
                    Some(current_max) => Some(
                        if current_max < alignment {
                            alignment
                        } else {
                            current_max
                        },
                    ),
                    None => Some(alignment),
                };
            }
            proof {
                assert forall|a: u64| #[trigger] declares_so_far(blocks, b as int, k + 1, a) == (
                declares_so_far(blocks, b as int, k as int, a) || blocks[b as int]@[k as int] == (
                MirOp::ExternShared { alignment: a })) by {
                    if declares_so_far(blocks, b as int, k + 1, a) {
                        let (i, j) = choose|i: int, j: int|
                            0 <= i < blocks.len() && 0 <= j < blocks[i]@.len() && (i < b || i == b
                                && j < k + 1) && (#[trigger] blocks[i]@[j]) == (
                            MirOp::ExternShared { alignment: a });
                        if i == b && j == k {
                        } else {
                            assert(blocks[i]@[j] == (MirOp::ExternShared { alignment: a }));
                        }
                    }
                    if blocks[b as int]@[k as int] == (MirOp::ExternShared { alignment: a }) {
                        assert(declares_so_far(blocks, b as int, k + 1, a));
                    }
                    if declares_so_far(blocks, b as int, k as int, a) {
                        let (i, j) = choose|i: int, j: int|
                            0 <= i < blocks.len() && 0 <= j < blocks[i]@.len() && (i < b || i == b
                                && j < k) && (#[trigger] blocks[i]@[j]) == (MirOp::ExternShared {
                                alignment: a,
                            });
                        assert(blocks[i]@[j] == (MirOp::ExternShared { alignment: a }));
                    }
                }
                if max_alignment is Some {
                    assert(declares_so_far(blocks, b as int, k + 1, max_alignment->0));
                }
            }
        }
        proof {
            let len = block@.len() as int;
            assert forall|a: u64| #[trigger] declares_so_far(blocks, b + 1, 0, a) == declares_so_far(
                blocks,
                b as int,
                len,
                a,
            ) by {
                if declares_so_far(blocks, b + 1, 0, a) {
                    let (i, j) = choose|i: int, j: int|
                        0 <= i < blocks.len() && 0 <= j < blocks[i]@.len() && (i < b + 1 || i == b
                            + 1 && j < 0) && (#[trigger] blocks[i]@[j]) == (MirOp::ExternShared {
                            alignment: a,
                        });
                    assert(blocks[i]@[j] == (MirOp::ExternShared { alignment: a }));
                }
                if declares_so_far(blocks, b as int, len, a) {
                    let (i, j) = choose|i: int, j: int|
                        0 <= i < blocks.len() && 0 <= j < blocks[i]@.len() && (i < b || i == b && j
                            < len) && (#[trigger] blocks[i]@[j]) == (MirOp::ExternShared {
                            alignment: a,
                        });
                    assert(blocks[i]@[j] == (MirOp::ExternShared { alignment: a }));
                }
            }
        }
    }
    proof {
        assert forall|a: u64| #[trigger] declares(blocks, a) == declares_so_far(
            blocks,
            blocks.len() as int,
            0,
            a,
        ) by {
            if declares(blocks, a) {
                let (i, j) = choose|i: int, j: int|
                    0 <= i < blocks.len() && 0 <= j < blocks[i]@.len() && (#[trigger] blocks[i]@[j])
                        == (MirOp::ExternShared { alignment: a });
                assert(blocks[i]@[j] == (MirOp::ExternShared { alignment: a }));
            }
        }
        max_alignment_exists(blocks);
        max_alignment_is_unique(blocks, max_alignment, self::max_alignment(blocks));
    }
    max_alignment
}

/// The name of the dynamic shared memory of a function.
pub open spec fn smem_symbol(func_name: Seq<char>) -> Seq<char> {
    "__dynamic_smem_"@ + func_name
}

/// A function name can end the name of a symbol.
pub open spec fn ends_identifier(s: Seq<char>) -> bool {
    forall|i: int| 0 <= i < s.len() ==> continues_identifier(#[trigger] s[i])
}

/// The symbol of a function is an identifier where the characters of its name may stand in one.
pub proof fn smem_symbol_is_identifier(func_name: Seq<char>)
    ensures
        is_identifier(smem_symbol(func_name)) == ends_identifier(func_name),
{
    reveal_strlit("__dynamic_smem_");
    let s = smem_symbol(func_name);
    let n = "__dynamic_smem_"@.len() as int;
    assert forall|i: int| 0 <= i < func_name.len() implies s[n + i] == func_name[i] by {}
    if is_identifier(s) {
        assert forall|i: int| 0 <= i < func_name.len() implies continues_identifier(
            #[trigger] func_name[i],
        ) by {
            assert(continues_identifier(s[n + i]));
        }
    }
}

/// Makes the symbol that stands for the dynamic shared memory of a function. There is none for a
/// name that holds other characters than ASCII letters, digits and underscores.
pub fn dynamic_smem_symbol(func_name: &str) -> (r: Option<Identifier>)
    ensures
        r is Some <==> ends_identifier(func_name@),
        r matches Some(id) ==> identifier_text(id) == smem_symbol(func_name@),
        r matches Some(id) ==> identifier_text(id) == "__dynamic_smem_"@ + func_name@,
{
    let mut symbol: String = "__dynamic_smem_".to_owned();
    symbol.append(func_name);
    proof {
        smem_symbol_is_identifier(func_name@);
    }
    new_identifier(symbol.as_str())
}

/// The symbol and the alignment of the dynamic shared memory of each function that declares some.
pub struct DynamicSmemAlignmentMap {
    entries: Vec<(String, (Identifier, u64))>,
}

impl View for DynamicSmemAlignmentMap {
    type V = Map<Seq<char>, (Seq<char>, u64)>;

    /// Function names to the text of the symbol and the alignment.
    closed spec fn view(&self) -> Map<Seq<char>, (Seq<char>, u64)> {
        Map::new(
            |name: Seq<char>| exists|i: int| #[trigger] self.is_at(i, name),
            |name: Seq<char>|
                {
                    let i = choose|i: int| #[trigger] self.is_at(i, name);
                    (identifier_text(self.entries@[i].1.0), self.entries@[i].1.1)
                },
        )
    }
}

impl DynamicSmemAlignmentMap {
    spec fn is_at(&self, i: int, name: Seq<char>) -> bool {
        0 <= i < self.entries@.len() && self.entries@[i].0@ == name
    }

    /// No function occurs twice.
    #[verifier::type_invariant]
    spec fn names_are_distinct(&self) -> bool {
        forall|i: int, j: int|
            0 <= i < j < self.entries@.len() ==> (#[trigger] self.entries@[i]).0@ != (
            #[trigger] self.entries@[j]).0@
    }

    /// A map of no function.
    pub fn new() -> (r: Self)
        ensures
            r@ == Map::<Seq<char>, (Seq<char>, u64)>::empty(),
    {
        let r: Self = DynamicSmemAlignmentMap { entries: Vec::new() };
        assert forall|name: Seq<char>| !r@.dom().contains(name) by {
            assert(forall|i: int| !r.is_at(i, name));
        }
        assert(r@ =~= Map::<Seq<char>, (Seq<char>, u64)>::empty());
        r
    }

    /// Where a function stands.
    fn position(&self, name: &String) -> (r: Option<usize>)
        ensures
            match r {
                Some(i) => self.is_at(i as int, name@),
                None => forall|i: int| !self.is_at(i, name@),
            },
    {
        for i in 0..self.entries.len()
            invariant
                forall|k: int| 0 <= k < i ==> !self.is_at(k, name@),
        {
            if self.entries[i].0 == *name {
                return Some(i);
            }
        }
        None
    }

    /// Sets the symbol and the alignment of a function.
    pub fn insert(&mut self, name: String, symbol: Identifier, alignment: u64)
        ensures
            final(self)@ == old(self)@.insert(name@, (identifier_text(symbol), alignment)),
    {
        proof {
            use_type_invariant(&*self);
        }
        let ghost key = name@;
        let ghost value = (identifier_text(symbol), alignment);
        let found: Option<usize> = self.position(&name);
        let mut entries: Vec<(String, (Identifier, u64))> = Vec::new();
        std::mem::swap(&mut entries, &mut self.entries);
        match found {
            Some(i) => {
                entries.set(i, (name, (symbol, alignment)));
            },
            None => {
                entries.push((name, (symbol, alignment)));
            },
        }
        proof {
            let was = old(self).entries@;
            assert forall|i: int| 0 <= i < was.len() implies (#[trigger] was[i]).0@ != key || found
                == Some(i as usize) by {
                assert(old(self).is_at(i, was[i].0@));
            }
            assert forall|i: int, j: int| 0 <= i < j < entries@.len() implies (
            #[trigger] entries@[i]).0@ != (#[trigger] entries@[j]).0@ by {
                if found is Some {
                    assert(was[i].0@ != was[j].0@);
                }
            }
        }
        self.entries = entries;
        proof {
            let was = *old(self);
            let at: int = match found {
                Some(i) => i as int,
                None => was.entries@.len() as int,
            };
            assert(self.is_at(at, key));
            assert forall|i: int, other: Seq<char>| other != key implies #[trigger] self.is_at(
                i,
                other,
            ) == was.is_at(i, other) by {}
            assert forall|i: int| self.is_at(i, key) implies i == at by {}
            assert forall|other: Seq<char>| #[trigger] self@.dom().contains(other)
                == was@.insert(key, value).dom().contains(other) by {
                if other != key {
                    if exists|i: int| #[trigger] was.is_at(i, other) {
                        let i = choose|i: int| #[trigger] was.is_at(i, other);
                        assert(self.is_at(i, other));
                    }
                    if exists|i: int| #[trigger] self.is_at(i, other) {
                        let i = choose|i: int| #[trigger] self.is_at(i, other);
                        assert(was.is_at(i, other));
                    }
                }
            }
            assert forall|other: Seq<char>| #[trigger] self@.dom().contains(other) implies self@[other]
                == was@.insert(key, value)[other] by {
                if other != key {
                    let i = choose|i: int| #[trigger] self.is_at(i, other);
                    let j = choose|j: int| #[trigger] was.is_at(j, other);
                    assert(was.is_at(i, other));
                    assert(i == j);
                }
            }
            assert(self@ =~= was@.insert(key, value));
        }
    }

    /// The symbol and the alignment of a function.
    pub fn get(&self, name: &str) -> (r: Option<(&Identifier, u64)>)
        ensures
            match r {
                Some((symbol, alignment)) => self@.dom().contains(name@) && self@[name@] == (
                    identifier_text(*symbol),
                    alignment,
                ),
                None => !self@.dom().contains(name@),
            },
    {
        proof {
            use_type_invariant(self);
        }
        let key: String = name.to_owned();
        match self.position(&key) {
            Some(i) => {
                let entry: &(String, (Identifier, u64)) = &self.entries[i];
                assert(self.is_at(i as int, name@));
                assert forall|j: int| self.is_at(j, name@) implies j == i by {}
                Some((&entry.1.0, entry.1.1))
            },
            None => None,
        }
    }
}

}
