//! Lowering a whole function.
//!
//! The driver owns the IR. It reports what it found or did as an event, and [`convert_func`] says
//! what to do next.

use pliron::attribute::AttributeDict;
use pliron::context::Context;
use pliron::identifier::Identifier;
use vstd::prelude::*;

use crate::attributes::{
    attribute_entries, identifier_string, identifier_text, is_kernel, kernel_key, opaque_indices,
    opaque_kernel_arg_indices, opaque_kernel_arg_layouts, opaque_layouts, propagate_kernel_attrs,
    propagated, AttributeModel,
};
use crate::error::{ErrorModel, LoweringError, LoweringErrorOf};
use crate::layout::{layout_models, usizes, ExplicitStructLayout};
use crate::prologue::{build_entry_prologue, entry, Entry, PlacedOp, Progress, Value};
use crate::smem::{
    compute_max_dynamic_smem_alignment, dynamic_smem_symbol, ends_identifier, max_alignment,
    smem_symbol, DynamicSmemAlignmentMap, MirOp,
};
use crate::types::MirType;

verus! {

/// `pliron`'s store of all IR.
#[verifier::external_type_specification]
#[verifier::external_body]
pub struct ExContext(Context);

/// What the name and the attributes of a function say of its lowering.
pub struct FuncSignature {
    /// The text of the name of the function.
    pub name_text: String,
    pub is_kernel: bool,
    /// The arguments that cross the kernel boundary as one opaque value.
    pub opaque_arg_indices: Vec<usize>,
    /// The host layouts of such arguments.
    pub opaque_arg_layouts: Vec<(usize, ExplicitStructLayout)>,
}

/// What is read of a function that has a body.
pub struct FuncBody {
    /// The operations of each block.
    pub blocks: Vec<Vec<MirOp>>,
    /// The types of the MIR arguments.
    pub arg_types: Vec<MirType>,
    /// The arguments of the LLVM entry block.
    pub llvm_args: Vec<Value>,
}

/// A block that an action names.
#[derive(Clone, Copy, PartialEq, Eq, Debug, Structural)]
pub enum Block {
    /// The entry block of the LLVM function.
    LlvmEntry,
    /// The first block of the MIR function.
    MirEntry,
}

/// How far the lowering of a function is.
pub enum FuncState {
    /// Nothing is done.
    Start,
    /// The signature is to be converted, for a function of that name.
    SignatureAsked { name: Identifier, signature: FuncSignature },
    /// The LLVM function is to be created.
    FunctionAsked(FuncSignature),
    /// The prologue is to be emitted. It leads to the arguments of the MIR entry block, or to a
    /// failure behind the operations that were listed by then.
    PrologueAsked(Result<Vec<Value>, LoweringError>),
    /// The MIR body is to be moved in. The MIR entry block gets these arguments.
    InlineAsked(Vec<Value>),
    /// The insertion point is to be set to the end of the entry block.
    EntryEndAsked(Vec<Value>),
    /// The branch is to be inserted.
    BranchAsked,
    /// The insertion point is to be set back.
    RestoreAsked,
    /// The LLVM function is to be inserted.
    InsertAsked,
    /// There is nothing more to do.
    Finished,
}

/// What the driver reports.
pub enum FuncEvent {
    /// A function of that name was reached.
    Reached { name: Identifier },
    /// The signature was converted to a type that the type converter calls by a number, or the
    /// type converter failed with a message.
    SignatureConverted(Result<usize, String>),
    /// The LLVM function and its entry block were created. A function without blocks has no body.
    FunctionCreated { body: Option<FuncBody> },
    /// The operations of the prologue were emitted, or one of them failed with a message.
    PrologueEmitted(Result<(), String>),
    /// The MIR body was moved in.
    BodyInlined,
    /// The insertion point was set.
    InsertionPointSet,
    /// The branch was inserted.
    BranchInserted,
    /// The insertion point was set back.
    InsertionPointRestored,
    /// The LLVM function was inserted.
    FunctionInserted,
}

/// What the driver is to do.
pub enum FuncAction {
    /// Convert the signature under the opaque arguments that the state holds.
    ConvertSignature,
    /// Create the LLVM function under this name and with this converted type, and its entry block.
    CreateFunction { name: Identifier, ty: usize },
    /// Emit the operations in the entry block.
    EmitPrologue { ops: Vec<PlacedOp> },
    /// Move all MIR blocks in right behind a block.
    InlineBody { after: Block },
    /// Keep the insertion point in mind and set it to the end of a block.
    SetInsertionPoint { at_end_of: Block },
    /// Insert, at the insertion point, a branch to a block with these arguments.
    InsertBranch { target: Block, args: Vec<Value> },
    /// Set the insertion point back to where it was.
    RestoreInsertionPoint,
    /// Insert the LLVM function at the insertion point.
    InsertFunction,
    /// Put the LLVM function in place of the MIR function.
    ReplaceFunction,
    /// Give up.
    Fail(LoweringError),
}

/// What the lowering of functions writes to, apart from the IR.
pub struct Effects {
    /// The attributes of the LLVM function.
    pub llvm_attributes: Map<Seq<char>, AttributeModel>,
    /// The symbol and the alignment of the dynamic shared memory of each function.
    pub smem: Map<Seq<char>, (Seq<char>, u64)>,
}

/// The attributes of an LLVM function once it is created: those of a kernel are carried over.
pub open spec fn with_kernel_attributes(
    signature: FuncSignature,
    mir: Map<Seq<char>, AttributeModel>,
    llvm: Map<Seq<char>, AttributeModel>,
) -> Map<Seq<char>, AttributeModel> {
    if signature.is_kernel {
        propagated(mir, llvm, "gpu_kernel"@)
    } else {
        llvm
    }
}

/// The known alignments once a body was looked at.
pub open spec fn with_alignment_of(
    smem: Map<Seq<char>, (Seq<char>, u64)>,
    name: Seq<char>,
    blocks: Seq<Vec<MirOp>>,
) -> Map<Seq<char>, (Seq<char>, u64)> {
    match max_alignment(blocks) {
        Some(alignment) => smem.insert(name, (smem_symbol(name), alignment)),
        None => smem,
    }
}

/// The entry of a function with this signature and body.
pub open spec fn entry_of(signature: FuncSignature, body: FuncBody) -> Entry {
    entry(
        body.arg_types@,
        body.llvm_args@,
        signature.opaque_arg_indices@,
        signature.opaque_arg_layouts@,
    )
}

/// The prologue of a function with this signature and body.
pub open spec fn prologue_of(signature: FuncSignature, body: FuncBody) -> Progress {
    entry_of(signature, body).prologue(body.arg_types@.len() as int, Seq::empty())
}

/// The event belongs to the state, all is there that putting the arguments of a body together
/// looks up, and the symbol of declared shared memory can be made.
pub open spec fn accepts(state: FuncState, event: FuncEvent) -> bool {
    match (state, event) {
        (FuncState::Start, FuncEvent::Reached { .. }) => true,
        (FuncState::SignatureAsked { .. }, FuncEvent::SignatureConverted(_)) => true,
        (FuncState::FunctionAsked(signature), FuncEvent::FunctionCreated { body }) => {
            body matches Some(body) ==> {
                &&& entry_of(signature, body).well_formed()
                &&& max_alignment(body.blocks@) is Some ==> ends_identifier(signature.name_text@)
            }
        },
        (FuncState::PrologueAsked(_), FuncEvent::PrologueEmitted(_)) => true,
        (FuncState::InlineAsked(_), FuncEvent::BodyInlined) => true,
        (FuncState::EntryEndAsked(_), FuncEvent::InsertionPointSet) => true,
        (FuncState::BranchAsked, FuncEvent::BranchInserted) => true,
        (FuncState::RestoreAsked, FuncEvent::InsertionPointRestored) => true,
        (FuncState::InsertAsked, FuncEvent::FunctionInserted) => true,
        _ => false,
    }
}

/// The lowering failed with this failure.
pub open spec fn failed(state: FuncState, action: FuncAction, e: ErrorModel) -> bool {
    state is Finished && (action matches FuncAction::Fail(err) && err@ == e)
}

/// What follows an event, for a function with the attributes `mir`.
pub open spec fn leads_to(
    state: FuncState,
    event: FuncEvent,
    mir: Map<Seq<char>, AttributeModel>,
    before: Effects,
    next: FuncState,
    action: FuncAction,
    after: Effects,
) -> bool {
    match (state, event) {
        (FuncState::Start, FuncEvent::Reached { name }) => {
            &&& after == before
            &&& match opaque_layouts(mir) {
                Err(e) => failed(next, action, e),
                Ok(layouts) => {
                    &&& action is ConvertSignature
                    &&& next matches FuncState::SignatureAsked { name: kept, signature } && {
                        &&& kept == name
                        &&& signature.name_text@ == identifier_text(name)
                        &&& signature.is_kernel == mir.dom().contains("gpu_kernel"@)
                        &&& usizes(signature.opaque_arg_indices@) == opaque_indices(mir)
                        &&& layout_models(signature.opaque_arg_layouts@) == layouts
                    }
                },
            }
        },
        (
            FuncState::SignatureAsked { name, signature },
            FuncEvent::SignatureConverted(outcome),
        ) => {
            &&& after == before
            &&& match outcome {
                Err(text) => failed(next, action, LoweringErrorOf::Outside { text: text@ }),
                Ok(ty) => {
                    &&& next == FuncState::FunctionAsked(signature)
                    &&& action == (FuncAction::CreateFunction { name, ty })
                },
            }
        },
        (FuncState::FunctionAsked(signature), FuncEvent::FunctionCreated { body }) => {
            &&& after.llvm_attributes == with_kernel_attributes(
                signature,
                mir,
                before.llvm_attributes,
            )
            &&& match body {
                None => {
                    &&& after.smem == before.smem
                    &&& next is InsertAsked
                    &&& action is InsertFunction
                },
                Some(body) => {
                    let end = prologue_of(signature, body);
                    &&& after.smem == with_alignment_of(
                        before.smem,
                        signature.name_text@,
                        body.blocks@,
                    )
                    &&& action matches FuncAction::EmitPrologue { ops } && ops@ == end.ops
                    &&& next matches FuncState::PrologueAsked(outcome) && match outcome {
                        Ok(values) => end.failure is None && values@ == end.values,
                        Err(e) => end.failure == Some(e@),
                    }
                },
            }
        },
        (FuncState::PrologueAsked(planned), FuncEvent::PrologueEmitted(outcome)) => {
            &&& after == before
            &&& match (outcome, planned) {
                (Err(text), _) => failed(next, action, LoweringErrorOf::Outside { text: text@ }),
                (Ok(_), Err(e)) => failed(next, action, e@),
                (Ok(_), Ok(args)) => {
                    &&& next == FuncState::InlineAsked(args)
                    &&& action == (FuncAction::InlineBody { after: Block::LlvmEntry })
                },
            }
        },
        (FuncState::InlineAsked(args), FuncEvent::BodyInlined) => {
            &&& after == before
            &&& next == FuncState::EntryEndAsked(args)
            &&& action == (FuncAction::SetInsertionPoint { at_end_of: Block::LlvmEntry })
        },
        (FuncState::EntryEndAsked(args), FuncEvent::InsertionPointSet) => {
            &&& after == before
            &&& next is BranchAsked
            &&& action == (FuncAction::InsertBranch { target: Block::MirEntry, args })
        },
        (FuncState::BranchAsked, FuncEvent::BranchInserted) => {
            &&& after == before
            &&& next is RestoreAsked
            &&& action is RestoreInsertionPoint
        },
        (FuncState::RestoreAsked, FuncEvent::InsertionPointRestored) => {
            &&& after == before
            &&& next is InsertAsked
            &&& action is InsertFunction
        },
        (FuncState::InsertAsked, FuncEvent::FunctionInserted) => {
            &&& after == before
            &&& next is Finished
            &&& action is ReplaceFunction
        },
        _ => false,
    }
}

/// Lowers a function, step by step: what to do after an event, and how far the lowering is then.
/// `mir_attributes` are those of the MIR function. When the LLVM function was created,
/// `llvm_attributes` are its attributes, and those of a kernel are carried over to it; they are
/// not touched at any other step. The alignment of declared shared memory is noted when the body
/// is looked at, before the prologue is planned.
pub fn convert_func(
    state: FuncState,
    event: FuncEvent,
    mir_attributes: &AttributeDict,
    llvm_attributes: &mut AttributeDict,
    dynamic_smem_alignments: &mut DynamicSmemAlignmentMap,
) -> (r: (FuncState, FuncAction))
    requires
        accepts(state, event),
    ensures
        leads_to(
            state,
            event,
            attribute_entries(*mir_attributes),
            (Effects {
                llvm_attributes: attribute_entries(*old(llvm_attributes)),
                smem: old(dynamic_smem_alignments)@,
            }),
            r.0,
            r.1,
            (Effects {
                llvm_attributes: attribute_entries(*final(llvm_attributes)),
                smem: final(dynamic_smem_alignments)@,
            }),
        ),
{
    match (state, event) {
        (FuncState::Start, FuncEvent::Reached { name }) => {
            let opaque_arg_indices: Vec<usize> = opaque_kernel_arg_indices(mir_attributes);
            match opaque_kernel_arg_layouts(mir_attributes) {
                Err(e) => (FuncState::Finished, FuncAction::Fail(e)),
                Ok(opaque_arg_layouts) => {
                    let signature: FuncSignature = FuncSignature {
                        name_text: identifier_string(&name),
                        is_kernel: is_kernel(mir_attributes),
                        opaque_arg_indices,
                        opaque_arg_layouts,
                    };
                    (FuncState::SignatureAsked { name, signature }, FuncAction::ConvertSignature)
                },
            }
        },
        (
            FuncState::SignatureAsked { name, signature },
            FuncEvent::SignatureConverted(outcome),
        ) => {
            match outcome {
                Err(text) => (
                    FuncState::Finished,
                    FuncAction::Fail(LoweringErrorOf::Outside { text }),
                ),
                Ok(ty) => (
                    FuncState::FunctionAsked(signature),
                    FuncAction::CreateFunction { name, ty },
                ),
            }
        },
        (FuncState::FunctionAsked(signature), FuncEvent::FunctionCreated { body }) => {
            if signature.is_kernel {
                propagate_kernel_attrs(mir_attributes, llvm_attributes, &kernel_key());
            }
            match body {
                None => (FuncState::InsertAsked, FuncAction::InsertFunction),
                Some(body) => {
                    let max_align: Option<u64> = compute_max_dynamic_smem_alignment(
                        body.blocks.as_slice(),
                    );
                    if let Some(align) = max_align {
                        match dynamic_smem_symbol(signature.name_text.as_str()) {
                            Some(symbol) => {
                                dynamic_smem_alignments.insert(
                                    signature.name_text.clone(),
                                    symbol,
                                    align,
                                );
                            },
                            None => {
                                assert(false);
                            },
                        }
                    }
                    let mut ops: Vec<PlacedOp> = Vec::new();
                    assert(ops@ =~= Seq::empty());
                    let planned: Result<Vec<Value>, LoweringError> = build_entry_prologue(
                        body.arg_types.as_slice(),
                        body.llvm_args.as_slice(),
                        signature.opaque_arg_indices.as_slice(),
                        signature.opaque_arg_layouts.as_slice(),
                        &mut ops,
                    );
                    (FuncState::PrologueAsked(planned), FuncAction::EmitPrologue { ops })
                },
            }
        },
        (FuncState::PrologueAsked(planned), FuncEvent::PrologueEmitted(outcome)) => {
            match outcome {
                Err(text) => (
                    FuncState::Finished,
                    FuncAction::Fail(LoweringErrorOf::Outside { text }),
                ),
                Ok(_) => match planned {
                    Err(e) => (FuncState::Finished, FuncAction::Fail(e)),
                    Ok(args) => (
                        FuncState::InlineAsked(args),
                        FuncAction::InlineBody { after: Block::LlvmEntry },
                    ),
                },
            }
        },
        (FuncState::InlineAsked(args), FuncEvent::BodyInlined) => (
            FuncState::EntryEndAsked(args),
            FuncAction::SetInsertionPoint { at_end_of: Block::LlvmEntry },
        ),
        (FuncState::EntryEndAsked(args), FuncEvent::InsertionPointSet) => (
            FuncState::BranchAsked,
            FuncAction::InsertBranch { target: Block::MirEntry, args },
        ),
        (FuncState::BranchAsked, FuncEvent::BranchInserted) => (
            FuncState::RestoreAsked,
            FuncAction::RestoreInsertionPoint,
        ),
        (FuncState::RestoreAsked, FuncEvent::InsertionPointRestored) => (
            FuncState::InsertAsked,
            FuncAction::InsertFunction,
        ),
        (FuncState::InsertAsked, FuncEvent::FunctionInserted) => (
            FuncState::Finished,
            FuncAction::ReplaceFunction,
        ),
        _ => vstd::pervasive::unreached(),
    }
}

/// Registers the lowering. There is nothing to register.
pub fn register(_ctx: &mut Context)
    ensures
        *final(_ctx) == *old(_ctx),
{
}

}
