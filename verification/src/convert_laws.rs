//! What holds of the lowering of a function from beginning to end.

use pliron::identifier::Identifier;
use vstd::prelude::*;

use crate::attributes::{
    identifier_text, launch_keys, opaque_indices, opaque_layouts, propagated,
    propagation_marks_the_kernel, text_entry, AttributeModel,
};
use crate::convert::{
    accepts, entry_of, leads_to, with_alignment_of, Block, Effects, FuncAction, FuncBody,
    FuncEvent, FuncSignature, FuncState,
};
use crate::error::{ErrorModel, LoweringError, LoweringErrorOf};
use crate::layout::{layout_models, usizes, LayoutModel};
use crate::prologue::{entry, Entry, PlacedOp, Value};
use crate::smem::{declares, ends_identifier, max_alignment, max_alignment_exists, MirOp};

verus! {

/// One step of a lowering.
pub struct Step {
    pub state: FuncState,
    pub event: FuncEvent,
    pub before: Effects,
    pub next: FuncState,
    pub action: FuncAction,
    pub after: Effects,
}

/// A step follows the rules and goes on where the one before it ended.
pub open spec fn is_step(mir: Map<Seq<char>, AttributeModel>, steps: Seq<Step>, k: int) -> bool {
    let s = steps[k];
    &&& leads_to(s.state, s.event, mir, s.before, s.next, s.action, s.after)
    &&& if k == 0 {
        s.state is Start
    } else {
        s.state == steps[k - 1].next && s.before == steps[k - 1].after
    }
}

/// The steps of the lowering of a function with the attributes `mir`, from the start on.
pub open spec fn is_run(mir: Map<Seq<char>, AttributeModel>, steps: Seq<Step>) -> bool {
    forall|k: int| 0 <= k < steps.len() ==> #[trigger] is_step(mir, steps, k)
}

/// The lowering ended with the MIR function replaced.
pub open spec fn succeeds(mir: Map<Seq<char>, AttributeModel>, steps: Seq<Step>) -> bool {
    &&& steps.len() > 0
    &&& is_run(mir, steps)
    &&& steps.last().action is ReplaceFunction
}

/// A lowering is finished exactly when the function is replaced or given up.
pub proof fn lowering_ends_by_replacing_or_failing(
    state: FuncState,
    event: FuncEvent,
    mir: Map<Seq<char>, AttributeModel>,
    before: Effects,
    next: FuncState,
    action: FuncAction,
    after: Effects,
)
    requires
        leads_to(state, event, mir, before, next, action, after),
    ensures
        next is Finished <==> (action is ReplaceFunction || action is Fail),
{
}

/// How many events a lowering has taken at the least.
pub open spec fn stage(state: FuncState) -> nat {
    match state {
        FuncState::Start => 0,
        FuncState::SignatureAsked { .. } => 1,
        FuncState::FunctionAsked(_) => 2,
        FuncState::PrologueAsked(_) => 3,
        FuncState::InlineAsked(_) => 4,
        FuncState::EntryEndAsked(_) => 5,
        FuncState::BranchAsked => 6,
        FuncState::RestoreAsked => 7,
        FuncState::InsertAsked => 8,
        FuncState::Finished => 9,
    }
}

/// Every event takes a lowering further, so that it ends after nine of them at the latest.
pub proof fn lowering_goes_on(
    state: FuncState,
    event: FuncEvent,
    mir: Map<Seq<char>, AttributeModel>,
    before: Effects,
    next: FuncState,
    action: FuncAction,
    after: Effects,
)
    requires
        leads_to(state, event, mir, before, next, action, after),
    ensures
        stage(state) < stage(next) <= 9,
{
}

/// A lowering that succeeds asks, in this order, for the signature, the LLVM function, and where
/// there is a body, the prologue, the body behind the entry block, the insertion point at the end
/// of the entry block, the branch to the MIR entry block and the insertion point as it was; then
/// for the LLVM function to be inserted and to replace the MIR function.
pub proof fn requests_come_in_order(mir: Map<Seq<char>, AttributeModel>, steps: Seq<Step>)
    requires
        succeeds(mir, steps),
    ensures
        steps.len() == 4 || steps.len() == 9,
        steps[0].event is Reached,
        steps[0].action is ConvertSignature,
        steps[1].event is SignatureConverted,
        steps[1].action is CreateFunction,
        steps[2].event is FunctionCreated,
        steps[2].event->body is Some <==> steps.len() == 9,
        steps.len() == 4 ==> {
            &&& steps[2].action is InsertFunction
            &&& steps[3].action is ReplaceFunction
        },
        steps.len() == 9 ==> {
            &&& steps[2].action is EmitPrologue
            &&& steps[3].action == (FuncAction::InlineBody { after: Block::LlvmEntry })
            &&& steps[4].action == (FuncAction::SetInsertionPoint { at_end_of: Block::LlvmEntry })
            &&& steps[5].action matches FuncAction::InsertBranch { target, .. } && target
                == Block::MirEntry
            &&& steps[6].action is RestoreInsertionPoint
            &&& steps[7].action is InsertFunction
            &&& steps[8].action is ReplaceFunction
        },
{
    let n = steps.len();
    assert(steps[n - 1] == steps.last());
    assert(is_step(mir, steps, 0));
    assert(is_step(mir, steps, n - 1));
    assert(n > 1);
    assert(is_step(mir, steps, 1));
    assert(n > 2);
    assert(is_step(mir, steps, 2));
    assert(n > 3);
    assert(is_step(mir, steps, 3));
    if n > 4 {
        assert(is_step(mir, steps, 4));
        assert(n > 5);
        assert(is_step(mir, steps, 5));
        assert(n > 6);
        assert(is_step(mir, steps, 6));
        assert(n > 7);
        assert(is_step(mir, steps, 7));
        assert(n > 8);
        assert(is_step(mir, steps, 8));
        if n > 9 {
            assert(is_step(mir, steps, 9));
        }
    }
}

/// The LLVM function is created under the name of the MIR function and with the type that the
/// signature was converted to. The conversion is asked for with the opaque arguments that the
/// attributes list and with their host layouts, whether or not the function is a kernel.
pub proof fn function_has_its_name_and_type(mir: Map<Seq<char>, AttributeModel>, steps: Seq<Step>)
    requires
        succeeds(mir, steps),
    ensures
        steps[0].event matches FuncEvent::Reached { name } && steps[1].event
            matches FuncEvent::SignatureConverted(Ok(ty)) && steps[1].action
            == (FuncAction::CreateFunction { name, ty }),
        steps[1].state matches FuncState::SignatureAsked { signature, .. } && usizes(
            signature.opaque_arg_indices@,
        ) == opaque_indices(mir) && opaque_layouts(mir) == Ok::<
            Seq<(int, LayoutModel)>,
            ErrorModel,
        >(layout_models(signature.opaque_arg_layouts@)),
{
    requests_come_in_order(mir, steps);
    assert(is_step(mir, steps, 0));
    assert(is_step(mir, steps, 1));
    assert(is_step(mir, steps, 2));
}

/// The alignment of dynamic shared memory is noted under the name that the LLVM function is
/// created under, and nothing else is noted.
pub proof fn alignment_is_noted_under_the_name(
    mir: Map<Seq<char>, AttributeModel>,
    steps: Seq<Step>,
)
    requires
        succeeds(mir, steps),
    ensures
        steps[1].action matches FuncAction::CreateFunction { name, .. } && steps.last().after.smem
            == match steps[2].event->body {
            Some(body) => with_alignment_of(
                steps[0].before.smem,
                identifier_text(name),
                body.blocks@,
            ),
            None => steps[0].before.smem,
        },
{
    requests_come_in_order(mir, steps);
    assert(is_step(mir, steps, 0));
    assert(is_step(mir, steps, 1));
    assert(is_step(mir, steps, 2));
    assert(is_step(mir, steps, 3));
    if steps.len() == 9 {
        assert(is_step(mir, steps, 4));
        assert(is_step(mir, steps, 5));
        assert(is_step(mir, steps, 6));
        assert(is_step(mir, steps, 7));
        assert(is_step(mir, steps, 8));
    }
}

/// The alignment noted for a function covers all dynamic shared memory that it declares, and is
/// one that it declares. A function that declares none leaves no note.
pub proof fn noted_alignment_covers_declarations(
    smem: Map<Seq<char>, (Seq<char>, u64)>,
    name: Seq<char>,
    blocks: Seq<Vec<MirOp>>,
)
    ensures
        forall|alignment: u64| #[trigger]
            declares(blocks, alignment) ==> with_alignment_of(smem, name, blocks).dom().contains(
                name,
            ) && alignment <= with_alignment_of(smem, name, blocks)[name].1 && declares(
                blocks,
                with_alignment_of(smem, name, blocks)[name].1,
            ),
        (forall|alignment: u64| !#[trigger] declares(blocks, alignment)) ==> with_alignment_of(
            smem,
            name,
            blocks,
        ) == smem,
{
    max_alignment_exists(blocks);
}

/// A kernel is lowered to a kernel: the mark of a kernel is set and its launch attributes are
/// kept. A function that is no kernel keeps the attributes that it was created with.
pub proof fn kernels_stay_kernels(mir: Map<Seq<char>, AttributeModel>, steps: Seq<Step>)
    requires
        succeeds(mir, steps),
    ensures
        mir.dom().contains("gpu_kernel"@) ==> {
            &&& text_entry(steps.last().after.llvm_attributes, "gpu_kernel"@) == Some("true"@)
            &&& forall|key: Seq<char>|
                launch_keys().contains(key) && mir.dom().contains(key)
                    ==> steps.last().after.llvm_attributes.dom().contains(key)
                    && #[trigger] steps.last().after.llvm_attributes[key] == mir[key]
        },
        !mir.dom().contains("gpu_kernel"@) ==> steps.last().after.llvm_attributes
            == steps[0].before.llvm_attributes,
{
    requests_come_in_order(mir, steps);
    assert(is_step(mir, steps, 0));
    assert(is_step(mir, steps, 1));
    assert(is_step(mir, steps, 2));
    assert(is_step(mir, steps, 3));
    if steps.len() == 9 {
        assert(is_step(mir, steps, 4));
        assert(is_step(mir, steps, 5));
        assert(is_step(mir, steps, 6));
        assert(is_step(mir, steps, 7));
        assert(is_step(mir, steps, 8));
    }
    propagation_marks_the_kernel(mir, steps[0].before.llvm_attributes);
}

/// The branch into the MIR body passes one value for each MIR argument, and every MIR argument
/// gets what was passed for it.
pub proof fn branch_passes_the_arguments(mir: Map<Seq<char>, AttributeModel>, steps: Seq<Step>)
    requires
        succeeds(mir, steps),
        steps[2].event->body is Some,
        entry_of(steps[2].state->FunctionAsked_0, steps[2].event->body->0).takes_block_arguments(),
        entry_of(steps[2].state->FunctionAsked_0, steps[2].event->body->0).places_are_distinct(),
    ensures
        ({
            let e = entry_of(steps[2].state->FunctionAsked_0, steps[2].event->body->0);
            let ops = steps[2].action->ops@;
            let args = steps[5].action->args@;
            &&& steps[2].action is EmitPrologue
            &&& steps[5].action is InsertBranch
            &&& args.len() == e.types.len()
            &&& forall|arg: int|
                0 <= arg < args.len() ==> e.stands_for(arg, ops, #[trigger] args[arg])
        }),
{
    requests_come_in_order(mir, steps);
    assert(is_step(mir, steps, 2));
    assert(is_step(mir, steps, 3));
    assert(is_step(mir, steps, 4));
    assert(is_step(mir, steps, 5));
    let e = entry_of(steps[2].state->FunctionAsked_0, steps[2].event->body->0);
    let ops = steps[2].action->ops;
    let args = steps[5].action->args@;
    assert(ops.len() == ops@.len());
    e.prologue_lists_in_order(Seq::empty());
    assert forall|arg: int| 0 <= arg < args.len() implies e.stands_for(
        arg,
        ops@,
        #[trigger] args[arg],
    ) by {
        e.arguments_arrive(arg, Seq::empty());
    }
}

/// A lowering goes through whatever the attributes of the function, as long as the host layouts
/// can be read, the signature converts and the arguments can be put together: at every point of a
/// run whose events report no failure nothing is given up, and the next thing is asked for. The
/// name, the type, the operations and the branch arguments are those of the function.
pub proof fn lowering_of_a_body_succeeds(
    mir: Map<Seq<char>, AttributeModel>,
    steps: Seq<Step>,
    layouts: Seq<(int, LayoutModel)>,
    body: FuncBody,
)
    requires
        is_run(mir, steps),
        0 < steps.len() <= 9,
        opaque_layouts(mir) == Ok::<Seq<(int, LayoutModel)>, ErrorModel>(layouts),
        steps.len() > 1 ==> (steps[1].event matches FuncEvent::SignatureConverted(Ok(_))),
        steps.len() > 2 ==> steps[2].event == (FuncEvent::FunctionCreated { body: Some(body) }),
        steps.len() > 3 ==> (steps[3].event matches FuncEvent::PrologueEmitted(Ok(_))),
        (Entry {
            types: body.arg_types@,
            llvm_args: body.llvm_args@,
            opaque: opaque_indices(mir),
            layouts,
        }).prologue(body.arg_types@.len() as int, Seq::empty()).failure is None,
    ensures
        ({
            let end = (Entry {
                types: body.arg_types@,
                llvm_args: body.llvm_args@,
                opaque: opaque_indices(mir),
                layouts,
            }).prologue(body.arg_types@.len() as int, Seq::empty());
            &&& forall|k: int| 0 <= k < steps.len() ==> !((#[trigger] steps[k]).action is Fail)
            &&& steps[0].event is Reached
            &&& steps[0].action is ConvertSignature
            &&& steps[0].next is SignatureAsked
            &&& steps.len() > 1 ==> steps[1].action == (FuncAction::CreateFunction {
                name: steps[0].event->name,
                ty: steps[1].event->SignatureConverted_0->Ok_0,
            }) && steps[1].next is FunctionAsked
            &&& steps.len() > 2 ==> (steps[2].action matches FuncAction::EmitPrologue { ops }
                && ops@ == end.ops) && steps[2].next is PrologueAsked
            &&& steps.len() > 3 ==> steps[3].action == (FuncAction::InlineBody {
                after: Block::LlvmEntry,
            }) && steps[3].next is InlineAsked
            &&& steps.len() > 4 ==> steps[4].event is BodyInlined && steps[4].action == (
            FuncAction::SetInsertionPoint { at_end_of: Block::LlvmEntry })
                && steps[4].next is EntryEndAsked
            &&& steps.len() > 5 ==> steps[5].event is InsertionPointSet && (
            steps[5].action matches FuncAction::InsertBranch { target, args } && target
                == Block::MirEntry && args@ == end.values) && steps[5].next is BranchAsked
            &&& steps.len() > 6 ==> steps[6].event is BranchInserted
                && steps[6].action is RestoreInsertionPoint && steps[6].next is RestoreAsked
            &&& steps.len() > 7 ==> steps[7].event is InsertionPointRestored
                && steps[7].action is InsertFunction && steps[7].next is InsertAsked
            &&& steps.len() > 8 ==> steps[8].event is FunctionInserted
                && steps[8].action is ReplaceFunction && steps[8].next is Finished
        }),
{
    let e = Entry {
        types: body.arg_types@,
        llvm_args: body.llvm_args@,
        opaque: opaque_indices(mir),
        layouts,
    };
    assert(is_step(mir, steps, 0));
    if steps.len() > 1 {
        assert(is_step(mir, steps, 1));
    }
    if steps.len() > 2 {
        assert(is_step(mir, steps, 2));
        let signature = steps[2].state->FunctionAsked_0;
        assert(entry_of(signature, body) == e);
    }
    if steps.len() > 3 {
        assert(is_step(mir, steps, 3));
    }
    if steps.len() > 4 {
        assert(is_step(mir, steps, 4));
    }
    if steps.len() > 5 {
        assert(is_step(mir, steps, 5));
    }
    if steps.len() > 6 {
        assert(is_step(mir, steps, 6));
    }
    if steps.len() > 7 {
        assert(is_step(mir, steps, 7));
    }
    if steps.len() > 8 {
        assert(is_step(mir, steps, 8));
    }
}

/// In particular a lowering goes through where each argument can be put together and there are as
/// many LLVM arguments as the arguments are flattened to: with all events delivered, the MIR
/// function is replaced.
pub proof fn lowering_of_lowerable_arguments_succeeds(
    mir: Map<Seq<char>, AttributeModel>,
    steps: Seq<Step>,
    layouts: Seq<(int, LayoutModel)>,
    body: FuncBody,
)
    requires
        is_run(mir, steps),
        0 < steps.len() <= 9,
        opaque_layouts(mir) == Ok::<Seq<(int, LayoutModel)>, ErrorModel>(layouts),
        steps.len() > 1 ==> (steps[1].event matches FuncEvent::SignatureConverted(Ok(_))),
        steps.len() > 2 ==> steps[2].event == (FuncEvent::FunctionCreated { body: Some(body) }),
        steps.len() > 3 ==> (steps[3].event matches FuncEvent::PrologueEmitted(Ok(_))),
        ({
            let e = Entry {
                types: body.arg_types@,
                llvm_args: body.llvm_args@,
                opaque: opaque_indices(mir),
                layouts,
            };
            &&& forall|arg: int| 0 <= arg < e.types.len() ==> #[trigger] e.is_lowerable(arg)
            &&& e.taken_before(e.types.len() as int) <= e.llvm_args.len()
        }),
    ensures
        forall|k: int| 0 <= k < steps.len() ==> !((#[trigger] steps[k]).action is Fail),
        forall|k: int|
            0 <= k < steps.len() ==> ((#[trigger] steps[k]).next is Finished <==> k == 8),
        steps.len() == 9 ==> steps.last().action is ReplaceFunction,
{
    let e = Entry {
        types: body.arg_types@,
        llvm_args: body.llvm_args@,
        opaque: opaque_indices(mir),
        layouts,
    };
    e.prologue_succeeds(e.types.len() as int, Seq::empty());
    lowering_of_a_body_succeeds(mir, steps, layouts, body);
    assert forall|k: int| 0 <= k < steps.len() implies ((#[trigger] steps[k]).next is Finished <==> k
        == 8) by {
        if k == 0 || k == 1 || k == 2 || k == 3 || k == 4 || k == 5 || k == 6 || k == 7 {
        } else {
            assert(k == 8);
        }
    }
}

/// A function without a body goes through whenever the host layouts can be read and the signature
/// converts: it is created, inserted and put in place of the MIR function.
pub proof fn lowering_of_a_declaration_succeeds(
    mir: Map<Seq<char>, AttributeModel>,
    steps: Seq<Step>,
)
    requires
        is_run(mir, steps),
        0 < steps.len() <= 4,
        opaque_layouts(mir) is Ok,
        steps.len() > 1 ==> (steps[1].event matches FuncEvent::SignatureConverted(Ok(_))),
        steps.len() > 2 ==> steps[2].event == (FuncEvent::FunctionCreated { body: None }),
    ensures
        steps[0].action is ConvertSignature && steps[0].next is SignatureAsked,
        steps.len() > 1 ==> steps[1].action == (FuncAction::CreateFunction {
            name: steps[0].event->name,
            ty: steps[1].event->SignatureConverted_0->Ok_0,
        }) && steps[1].next is FunctionAsked,
        steps.len() > 2 ==> steps[2].action is InsertFunction && steps[2].next is InsertAsked,
        steps.len() > 3 ==> steps[3].event is FunctionInserted && steps[3].action is ReplaceFunction
            && steps[3].next is Finished,
{
    assert(is_step(mir, steps, 0));
    if steps.len() > 1 {
        assert(is_step(mir, steps, 1));
    }
    if steps.len() > 2 {
        assert(is_step(mir, steps, 2));
    }
    if steps.len() > 3 {
        assert(is_step(mir, steps, 3));
    }
}

/// The signature of every function whose host layouts can be read is asked for, with the opaque
/// arguments that its attributes list and with their host layouts, under its name. The function
/// counts as a kernel exactly where it has the kernel mark.
pub proof fn signature_is_asked_for_as_the_attributes_say(
    mir: Map<Seq<char>, AttributeModel>,
    steps: Seq<Step>,
    layouts: Seq<(int, LayoutModel)>,
)
    requires
        is_run(mir, steps),
        steps.len() > 0,
        opaque_layouts(mir) == Ok::<Seq<(int, LayoutModel)>, ErrorModel>(layouts),
    ensures
        steps[0].event matches FuncEvent::Reached { name }
            && steps[0].next matches FuncState::SignatureAsked { name: kept, signature } && {
            &&& kept == name
            &&& signature.name_text@ == identifier_text(name)
            &&& signature.is_kernel <==> mir.dom().contains("gpu_kernel"@)
            &&& usizes(signature.opaque_arg_indices@) == opaque_indices(mir)
            &&& layout_models(signature.opaque_arg_layouts@) == layouts
        },
        steps.len() > 1 && (steps[1].event matches FuncEvent::SignatureConverted(Ok(_)))
            ==> steps[1].next == FuncState::FunctionAsked(
            steps[0].next->SignatureAsked_signature,
        ),
{
    assert(is_step(mir, steps, 0));
    if steps.len() > 1 {
        assert(is_step(mir, steps, 1));
    }
}

/// After so many steps a lowering is at least so far.
proof fn stage_of_step(mir: Map<Seq<char>, AttributeModel>, steps: Seq<Step>, k: int)
    requires
        is_run(mir, steps),
        0 <= k < steps.len(),
    ensures
        stage(steps[k].state) >= k,
        k == 0 ==> steps[k].state is Start,
        k == 1 ==> steps[k].state is SignatureAsked,
        k == 2 ==> steps[k].state is FunctionAsked,
        k == 3 ==> steps[k].state is PrologueAsked || steps[k].state is InsertAsked,
        k <= 8,
    decreases k,
{
    assert(is_step(mir, steps, k));
    if k > 0 {
        stage_of_step(mir, steps, k - 1);
        assert(is_step(mir, steps, k - 1));
    }
}

/// A lowering is given up exactly where the host layouts cannot be read, the signature does not
/// convert, an operation of the prologue cannot be emitted or an argument cannot be put together,
/// and with that failure.
pub proof fn failures_are_those_that_came(
    mir: Map<Seq<char>, AttributeModel>,
    steps: Seq<Step>,
    k: int,
)
    requires
        is_run(mir, steps),
        0 <= k < steps.len(),
    ensures
        ({
            let failure: Option<ErrorModel> = if k == 0 {
                match opaque_layouts(mir) {
                    Err(e) => Some(e),
                    Ok(_) => None,
                }
            } else if k == 1 {
                match steps[1].event->SignatureConverted_0 {
                    Err(text) => Some(LoweringErrorOf::Outside { text: text@ }),
                    Ok(_) => None,
                }
            } else if k == 3 && steps[2].event->body is Some {
                match steps[3].event->PrologueEmitted_0 {
                    Err(text) => Some(LoweringErrorOf::Outside { text: text@ }),
                    Ok(_) => {
                        let body = steps[2].event->body->0;
                        (Entry {
                            types: body.arg_types@,
                            llvm_args: body.llvm_args@,
                            opaque: opaque_indices(mir),
                            layouts: opaque_layouts(mir)->Ok_0,
                        }).prologue(body.arg_types@.len() as int, Seq::empty()).failure
                    },
                }
            } else {
                None
            };
            match failure {
                Some(e) => steps[k].next is Finished && (steps[k].action matches FuncAction::Fail(
                    err,
                ) && err@ == e),
                None => !(steps[k].action is Fail),
            }
        }),
{
    stage_of_step(mir, steps, k);
    assert(is_step(mir, steps, 0));
    assert(is_step(mir, steps, k));
    if k >= 1 {
        assert(is_step(mir, steps, 1));
        stage_of_step(mir, steps, 1);
    }
    if k >= 2 {
        assert(is_step(mir, steps, 2));
        stage_of_step(mir, steps, 2);
    }
    if k == 3 && steps[2].event->body is Some {
        let body = steps[2].event->body->0;
        let e = Entry {
            types: body.arg_types@,
            llvm_args: body.llvm_args@,
            opaque: opaque_indices(mir),
            layouts: opaque_layouts(mir)->Ok_0,
        };
        assert(entry_of(steps[2].state->FunctionAsked_0, body) == e);
    }
    if k > 3 {
        stage_of_step(mir, steps, 3);
        assert(is_step(mir, steps, 3));
        if steps[3].state is InsertAsked {
            assert(is_step(mir, steps, 4));
        }
    }
}

/// Nothing is written before the LLVM function was created. When it was, the attributes of a
/// function with the kernel mark are carried over to it, and the largest alignment of declared
/// dynamic shared memory is noted under the whole name of the function, with the symbol that ends
/// in that name. Nothing is written after that, whatever follows.
pub proof fn effects_of_a_lowering(
    mir: Map<Seq<char>, AttributeModel>,
    steps: Seq<Step>,
    k: int,
)
    requires
        is_run(mir, steps),
        0 <= k < steps.len(),
    ensures
        k < 2 ==> steps[k].after == steps[0].before,
        k >= 2 ==> {
            let name = identifier_text(steps[0].event->name);
            let before = steps[0].before;
            let after = steps[k].after;
            &&& after.llvm_attributes == if mir.dom().contains("gpu_kernel"@) {
                propagated(mir, before.llvm_attributes, "gpu_kernel"@)
            } else {
                before.llvm_attributes
            }
            &&& after.smem == match steps[2].event->body {
                Some(body) => match max_alignment(body.blocks@) {
                    Some(alignment) => before.smem.insert(
                        name,
                        ("__dynamic_smem_"@ + name, alignment),
                    ),
                    None => before.smem,
                },
                None => before.smem,
            }
        },
    decreases k,
{
    stage_of_step(mir, steps, k);
    assert(is_step(mir, steps, 0));
    assert(is_step(mir, steps, k));
    if k > 0 {
        assert(is_step(mir, steps, k - 1));
        effects_of_a_lowering(mir, steps, k - 1);
    }
    if k == 2 {
        assert(is_step(mir, steps, 1));
        stage_of_step(mir, steps, 1);
    }
}

/// Every state takes the event that reports what was asked for. A created function is taken
/// whatever its attributes, where nothing is lacking that its arguments look up and where its name
/// makes a symbol or no dynamic shared memory is declared.
pub proof fn states_take_their_events(
    name: Identifier,
    signature: FuncSignature,
    body: FuncBody,
    converted: Result<usize, String>,
    planned: Result<Vec<Value>, LoweringError>,
    emitted: Result<(), String>,
    args: Vec<Value>,
)
    ensures
        accepts(FuncState::Start, FuncEvent::Reached { name }),
        accepts(
            FuncState::SignatureAsked { name, signature },
            FuncEvent::SignatureConverted(converted),
        ),
        accepts(FuncState::FunctionAsked(signature), FuncEvent::FunctionCreated { body: None }),
        entry(
            body.arg_types@,
            body.llvm_args@,
            signature.opaque_arg_indices@,
            signature.opaque_arg_layouts@,
        ).well_formed() && (max_alignment(body.blocks@) is None || ends_identifier(
            signature.name_text@,
        )) ==> accepts(
            FuncState::FunctionAsked(signature),
            FuncEvent::FunctionCreated { body: Some(body) },
        ),
        accepts(FuncState::PrologueAsked(planned), FuncEvent::PrologueEmitted(emitted)),
        accepts(FuncState::InlineAsked(args), FuncEvent::BodyInlined),
        accepts(FuncState::EntryEndAsked(args), FuncEvent::InsertionPointSet),
        accepts(FuncState::BranchAsked, FuncEvent::BranchInserted),
        accepts(FuncState::RestoreAsked, FuncEvent::InsertionPointRestored),
        accepts(FuncState::InsertAsked, FuncEvent::FunctionInserted),
{
}

/// A block of the functions that a lowering works on.
pub enum BlockModel {
    /// The entry block of the LLVM function.
    Entry,
    /// A block of the MIR function.
    Mir(int),
}

/// Where the rewriter inserts.
pub enum Point {
    /// Where it was when the MIR function was reached.
    AtFunction,
    /// At the end of a block.
    EndOf(BlockModel),
}

/// What a lowering does to the IR.
pub struct Ir {
    /// The blocks of the MIR function.
    pub mir_blocks: Seq<BlockModel>,
    /// The name and the type of the LLVM function, once it is created.
    pub function: Option<(Seq<char>, usize)>,
    /// The blocks of the LLVM function.
    pub llvm_blocks: Seq<BlockModel>,
    /// The operations of the prologue.
    pub prologue: Seq<PlacedOp>,
    /// The branches that were inserted: where, to which block, with which arguments.
    pub branches: Seq<(Point, BlockModel, Seq<Value>)>,
    pub point: Point,
    /// The insertion point that is kept in mind.
    pub saved: Option<Point>,
    /// Where the LLVM function was inserted.
    pub inserted: Option<Point>,
    /// Whether the LLVM function, once inserted, was put in place of the MIR function.
    pub replaced: bool,
}

/// The IR when a MIR function with so many blocks is reached.
pub open spec fn reached(blocks: nat) -> Ir {
    Ir {
        mir_blocks: Seq::new(blocks, |k: int| BlockModel::Mir(k)),
        function: None,
        llvm_blocks: Seq::empty(),
        prologue: Seq::empty(),
        branches: Seq::empty(),
        point: Point::AtFunction,
        saved: None,
        inserted: None,
        replaced: false,
    }
}

pub open spec fn block_model(block: Block) -> BlockModel {
    match block {
        Block::LlvmEntry => BlockModel::Entry,
        Block::MirEntry => BlockModel::Mir(0),
    }
}

/// What an action does to the IR.
pub open spec fn perform(action: FuncAction, ir: Ir) -> Ir {
    match action {
        FuncAction::CreateFunction { name, ty } => Ir {
            function: Some((identifier_text(name), ty)),
            llvm_blocks: seq![BlockModel::Entry],
            ..ir
        },
        FuncAction::EmitPrologue { ops } => Ir { prologue: ops@, ..ir },
        FuncAction::InlineBody { after } => {
            let at = ir.llvm_blocks.index_of(block_model(after)) + 1;
            Ir {
                llvm_blocks: ir.llvm_blocks.take(at) + ir.mir_blocks + ir.llvm_blocks.skip(at),
                mir_blocks: Seq::empty(),
                ..ir
            }
        },
        FuncAction::SetInsertionPoint { at_end_of } => Ir {
            saved: Some(ir.point),
            point: Point::EndOf(block_model(at_end_of)),
            ..ir
        },
        FuncAction::InsertBranch { target, args } => Ir {
            branches: ir.branches.push((ir.point, block_model(target), args@)),
            ..ir
        },
        FuncAction::RestoreInsertionPoint => Ir { point: ir.saved->0, saved: None, ..ir },
        FuncAction::InsertFunction => Ir { inserted: Some(ir.point), ..ir },
        FuncAction::ReplaceFunction => Ir { replaced: ir.inserted is Some, ..ir },
        FuncAction::ConvertSignature => ir,
        FuncAction::Fail(_) => ir,
    }
}

/// The IR after the first `k` steps.
pub open spec fn performed(steps: Seq<Step>, k: int, ir: Ir) -> Ir
    decreases k,
{
    if k <= 0 {
        ir
    } else {
        perform(steps[k - 1].action, performed(steps, k - 1, ir))
    }
}

/// A lowering that succeeds leaves an LLVM function of the name and the converted type, inserted
/// where the MIR function was reached and put in its place, with the insertion point as it was.
/// The blocks of the LLVM function are its entry block, which ends in a branch to the MIR entry
/// block, and behind it all blocks of the MIR function in their order. Without a body there is the
/// entry block alone.
pub proof fn lowered_function_holds_the_body(
    mir: Map<Seq<char>, AttributeModel>,
    steps: Seq<Step>,
    blocks: nat,
)
    requires
        succeeds(mir, steps),
        steps[2].event->body is Some ==> steps[2].event->body->0.blocks@.len() == blocks,
    ensures
        ({
            let ir = performed(steps, steps.len() as int, reached(blocks));
            &&& steps[0].event matches FuncEvent::Reached { name } && steps[1].event
                matches FuncEvent::SignatureConverted(Ok(ty)) && ir.function == Some(
                (identifier_text(name), ty),
            )
            &&& ir.point is AtFunction
            &&& ir.saved is None
            &&& ir.inserted == Some(Point::AtFunction)
            &&& ir.replaced
            &&& if steps[2].event->body is Some {
                &&& ir.llvm_blocks == seq![BlockModel::Entry] + Seq::new(
                    blocks,
                    |k: int| BlockModel::Mir(k),
                )
                &&& ir.mir_blocks == Seq::<BlockModel>::empty()
                &&& ir.prologue == steps[2].action->ops@
                &&& ir.branches == seq![
                    (
                        Point::EndOf(BlockModel::Entry),
                        BlockModel::Mir(0),
                        steps[5].action->args@,
                    ),
                ]
            } else {
                &&& ir.llvm_blocks == seq![BlockModel::Entry]
                &&& ir.branches == Seq::<(Point, BlockModel, Seq<Value>)>::empty()
            }
        }),
{
    requests_come_in_order(mir, steps);
    function_has_its_name_and_type(mir, steps);
    let start = reached(blocks);
    reveal_with_fuel(performed, 10);
    let created = performed(steps, 2, start);
    assert(created.llvm_blocks[0] == BlockModel::Entry);
    assert(created.llvm_blocks.contains(BlockModel::Entry));
    assert(created.llvm_blocks.index_of(BlockModel::Entry) == 0);
    let ir = performed(steps, steps.len() as int, start);
    if steps.len() == 9 {
        let all = Seq::new(blocks, |k: int| BlockModel::Mir(k));
        assert(ir.llvm_blocks =~= seq![BlockModel::Entry] + all);
        assert(ir.branches =~= seq![
            (Point::EndOf(BlockModel::Entry), BlockModel::Mir(0), steps[5].action->args@),
        ]);
    }
}

}
