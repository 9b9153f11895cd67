use mir_lower::convert::{
    convert_func, register, Block, FuncAction, FuncBody, FuncEvent, FuncState,
};
use mir_lower::error::LoweringErrorOf;
use mir_lower::prologue::{Op, PlacedOp, Placement, Value};
use mir_lower::smem::{DynamicSmemAlignmentMap, MirOp};
use mir_lower::types::{LlvmType, MirType, TypeShape};
use pliron::attribute::AttributeDict;
use pliron::builtin::attributes::{BoolAttr, StringAttr};
use pliron::context::Context;
use pliron::identifier::Identifier;

fn id(name: &str) -> Identifier {
    Identifier::try_new(name.to_string()).unwrap()
}

fn kernel(indices: &str, layouts: &str) -> AttributeDict {
    let mut dict = AttributeDict::default();
    dict.set(id("gpu_kernel"), StringAttr::new("true".to_string()));
    dict.set(id("maxntid"), StringAttr::new("256".to_string()));
    dict.set(id("opaque_kernel_args"), StringAttr::new(indices.to_string()));
    dict.set(id("opaque_kernel_arg_layouts"), StringAttr::new(layouts.to_string()));
    dict
}

fn scalar(id: usize, zero_sized: bool) -> MirType {
    MirType { shape: TypeShape::Other, converted: Ok(LlvmType { id, zero_sized }) }
}

/// A function that is being lowered, with all that the lowering writes to.
struct Run {
    mir: AttributeDict,
    llvm: AttributeDict,
    smem: DynamicSmemAlignmentMap,
}

impl Run {
    fn new(mir: AttributeDict) -> Run {
        let mut llvm = AttributeDict::default();
        llvm.set(id("linkage"), StringAttr::new("external".to_string()));
        Run { mir, llvm, smem: DynamicSmemAlignmentMap::new() }
    }

    fn step(&mut self, state: FuncState, event: FuncEvent) -> (FuncState, FuncAction) {
        convert_func(state, event, &self.mir, &mut self.llvm, &mut self.smem)
    }

    fn signature_asked(&mut self, name: &str) -> FuncState {
        let (state, action) = self.step(FuncState::Start, FuncEvent::Reached { name: id(name) });
        assert!(matches!(action, FuncAction::ConvertSignature));
        state
    }

    fn function_asked(&mut self, name: &str) -> FuncState {
        let state = self.signature_asked(name);
        let (state, action) = self.step(state, FuncEvent::SignatureConverted(Ok(17)));
        match action {
            FuncAction::CreateFunction { name: created, ty } => {
                assert_eq!((created, ty), (id(name), 17));
            }
            _ => panic!(),
        }
        state
    }

    /// Inserts the LLVM function and replaces the MIR function.
    fn finish(&mut self, state: FuncState, action: FuncAction) {
        assert!(matches!(action, FuncAction::InsertFunction));
        let (state, action) = self.step(state, FuncEvent::FunctionInserted);
        assert!(matches!(action, FuncAction::ReplaceFunction));
        assert!(matches!(state, FuncState::Finished));
    }
}

fn text_of(dict: &AttributeDict, name: &str) -> Option<String> {
    dict.get::<StringAttr>(&id(name)).map(|a| String::from(a.clone()))
}

#[test]
fn a_kernel_is_lowered_from_end_to_end() {
    let mut run = Run::new(kernel("1", "0:0:0:0"));
    let state = run.signature_asked("reduce");
    match &state {
        FuncState::SignatureAsked { name, signature } => {
            assert_eq!(*name, id("reduce"));
            assert_eq!(signature.name_text, "reduce");
            assert!(signature.is_kernel);
            assert_eq!(signature.opaque_arg_indices, vec![1]);
            assert_eq!(signature.opaque_arg_layouts.len(), 1);
            assert_eq!(signature.opaque_arg_layouts[0].0, 0);
        }
        _ => panic!(),
    }
    let (state, action) = run.step(state, FuncEvent::SignatureConverted(Ok(5)));
    match action {
        FuncAction::CreateFunction { name, ty } => assert_eq!((name, ty), (id("reduce"), 5)),
        _ => panic!(),
    }
    let body = FuncBody {
        blocks: vec![vec![MirOp::Other], vec![MirOp::ExternShared { alignment: 64 }]],
        arg_types: vec![scalar(7, true), scalar(8, true), scalar(9, false)],
        llvm_args: vec![Value::Argument(0), Value::Argument(1)],
    };
    assert_eq!(text_of(&run.llvm, "gpu_kernel"), None);
    let (state, action) = run.step(state, FuncEvent::FunctionCreated { body: Some(body) });
    assert_eq!(text_of(&run.llvm, "gpu_kernel"), Some("true".to_string()));
    assert_eq!(text_of(&run.llvm, "maxntid"), Some("256".to_string()));
    assert_eq!(text_of(&run.llvm, "linkage"), Some("external".to_string()));
    assert_eq!(text_of(&run.llvm, "opaque_kernel_args"), None);
    let (symbol, alignment) = run.smem.get("reduce").unwrap();
    assert_eq!((symbol.to_string().as_str(), alignment), ("__dynamic_smem_reduce", 64));
    match action {
        FuncAction::EmitPrologue { ops } => assert_eq!(
            ops,
            vec![
                PlacedOp { op: Op::Undef { ty: 7 }, place: Placement::AtFront },
                PlacedOp { op: Op::Undef { ty: 8 }, place: Placement::After(0) },
            ]
        ),
        _ => panic!(),
    }
    let (state, action) = run.step(state, FuncEvent::PrologueEmitted(Ok(())));
    assert!(matches!(action, FuncAction::InlineBody { after: Block::LlvmEntry }));
    let (state, action) = run.step(state, FuncEvent::BodyInlined);
    assert!(matches!(action, FuncAction::SetInsertionPoint { at_end_of: Block::LlvmEntry }));
    let (state, action) = run.step(state, FuncEvent::InsertionPointSet);
    match action {
        FuncAction::InsertBranch { target, args } => {
            assert_eq!(target, Block::MirEntry);
            assert_eq!(args, vec![Value::Result(0), Value::Result(1), Value::Argument(1)]);
        }
        _ => panic!(),
    }
    let (state, action) = run.step(state, FuncEvent::BranchInserted);
    assert!(matches!(action, FuncAction::RestoreInsertionPoint));
    let (state, action) = run.step(state, FuncEvent::InsertionPointRestored);
    run.finish(state, action);
}

#[test]
fn a_function_without_a_body_is_inserted_at_once() {
    let mut run = Run::new(AttributeDict::default());
    let state = run.function_asked("helper");
    let (state, action) = run.step(state, FuncEvent::FunctionCreated { body: None });
    run.finish(state, action);
    assert!(run.smem.get("helper").is_none());
    assert_eq!(text_of(&run.llvm, "gpu_kernel"), None);
}

#[test]
fn opaque_arguments_count_without_a_kernel_mark() {
    let mut mir = kernel("2", "0:0:0:4");
    mir.0.remove(&id("gpu_kernel"));
    let mut run = Run::new(mir);
    match run.signature_asked("device_fn") {
        FuncState::SignatureAsked { signature, .. } => {
            assert!(!signature.is_kernel);
            assert_eq!(signature.opaque_arg_indices, vec![2]);
            assert_eq!(signature.opaque_arg_layouts.len(), 1);
        }
        _ => panic!(),
    }
}

#[test]
fn a_body_without_shared_memory_leaves_no_note() {
    let mut run = Run::new(AttributeDict::default());
    let state = run.function_asked("f");
    let body = FuncBody { blocks: vec![vec![MirOp::Other]], arg_types: vec![], llvm_args: vec![] };
    let event = FuncEvent::FunctionCreated { body: Some(body) };
    let (_, action) = run.step(state, event);
    assert!(matches!(action, FuncAction::EmitPrologue { .. }));
    assert!(run.smem.get("f").is_none());
}

#[test]
fn bad_layouts_fail_before_anything_is_done() {
    let mut run = Run::new(kernel("", "0:0"));
    let event = FuncEvent::Reached { name: id("f") };
    let (state, action) = run.step(FuncState::Start, event);
    assert!(matches!(state, FuncState::Finished));
    match action {
        FuncAction::Fail(e) => {
            assert_eq!(e.message(), "Invalid opaque kernel arg layout entry `0:0`");
        }
        _ => panic!(),
    }
    run.mir.set(id("opaque_kernel_arg_layouts"), BoolAttr::new(true));
    let event = FuncEvent::Reached { name: id("f") };
    let (_, action) = run.step(FuncState::Start, event);
    assert!(matches!(action, FuncAction::Fail(LoweringErrorOf::LayoutsNotText)));
}

#[test]
fn a_signature_that_does_not_convert_fails() {
    let mut run = Run::new(AttributeDict::default());
    let event = FuncEvent::Reached { name: id("f") };
    let (state, _) = run.step(FuncState::Start, event);
    let event = FuncEvent::SignatureConverted(Err("no such type".to_string()));
    let (state, action) = run.step(state, event);
    assert!(matches!(state, FuncState::Finished));
    match action {
        FuncAction::Fail(e) => assert_eq!(e.message(), "no such type"),
        _ => panic!(),
    }
}

#[test]
fn a_prologue_that_cannot_be_built_fails_after_its_operations_and_keeps_the_note() {
    let mut run = Run::new(kernel("0", ""));
    let state = run.function_asked("f");
    let body = FuncBody {
        blocks: vec![vec![MirOp::ExternShared { alignment: 4 }]],
        arg_types: vec![scalar(7, true), scalar(8, false)],
        llvm_args: vec![],
    };
    let event = FuncEvent::FunctionCreated { body: Some(body) };
    let (state, action) = run.step(state, event);
    match action {
        FuncAction::EmitPrologue { ops } => assert_eq!(ops.len(), 1),
        _ => panic!(),
    }
    let (state, action) = run.step(state, FuncEvent::PrologueEmitted(Ok(())));
    assert!(matches!(state, FuncState::Finished));
    assert!(matches!(action, FuncAction::Fail(LoweringErrorOf::NoMoreArgs)));
    assert!(run.smem.get("f").is_some());
}

#[test]
fn an_operation_that_cannot_be_built_fails_first() {
    let mut run = Run::new(AttributeDict::default());
    let state = run.function_asked("f");
    let body =
        FuncBody { blocks: vec![vec![]], arg_types: vec![scalar(8, false)], llvm_args: vec![] };
    let event = FuncEvent::FunctionCreated { body: Some(body) };
    let (state, _) = run.step(state, event);
    let event = FuncEvent::PrologueEmitted(Err("no such field".to_string()));
    let (state, action) = run.step(state, event);
    assert!(matches!(state, FuncState::Finished));
    match action {
        FuncAction::Fail(e) => assert_eq!(e.message(), "no such field"),
        _ => panic!(),
    }
}

#[test]
fn registering_takes_a_context() {
    let mut ctx = Context::new();
    register(&mut ctx);
}
