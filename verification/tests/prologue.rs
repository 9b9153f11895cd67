use std::collections::BTreeMap;

use mir_lower::error::{LoweringError, LoweringErrorOf};
use mir_lower::layout::ExplicitStructLayout;
use mir_lower::prologue::{
    arguments_are_well_formed, build_entry_prologue, insert_op_sequentially, needed_places,
    reconstruct_opaque_struct_arg, reconstruct_slice, reconstruct_struct, reconstruct_zero_sized,
    NeededPlaces, Op, PlacedOp, Placement, Value,
};
use mir_lower::types::{
    classify_argument_type, classify_opaque_argument_type, find_host_layout,
    llvm_field_indices_for_struct, logical_layout, struct_layout_for_mir_type, FieldPlaces,
    LlvmType, MirType, PlacesAnswer, ReconstructKind, StructType, TypeShape,
};

fn sized(id: usize) -> Result<LlvmType, String> {
    Ok(LlvmType { id, zero_sized: false })
}

fn empty(id: usize) -> Result<LlvmType, String> {
    Ok(LlvmType { id, zero_sized: true })
}

fn bad(text: &str) -> Result<LlvmType, String> {
    Err(text.to_string())
}

fn layout(mem_to_decl: &[usize]) -> ExplicitStructLayout {
    ExplicitStructLayout { mem_to_decl: mem_to_decl.to_vec(), field_offsets: vec![], total_size: 64 }
}

fn plain(id: usize) -> MirType {
    MirType { shape: TypeShape::Other, converted: sized(id) }
}

fn slice(id: usize) -> MirType {
    MirType { shape: TypeShape::Slice, converted: sized(id) }
}

fn structure(
    id: usize,
    fields: Vec<Result<LlvmType, String>>,
    order: &[usize],
    indices: PlacesAnswer,
) -> MirType {
    MirType {
        shape: TypeShape::Struct(StructType {
            fields,
            layout: layout(order),
            places: vec![FieldPlaces { layout: layout(order), answer: indices }],
        }),
        converted: sized(id),
    }
}

fn hosted(
    converted: Result<LlvmType, String>,
    fields: Vec<Result<LlvmType, String>>,
    host: &ExplicitStructLayout,
    from: PlacesAnswer,
    to: PlacesAnswer,
) -> MirType {
    let logical = logical_layout(fields.len());
    MirType {
        shape: TypeShape::Struct(StructType {
            fields,
            layout: layout(&[9]),
            places: vec![
                FieldPlaces { layout: host.clone(), answer: from },
                FieldPlaces { layout: logical, answer: to },
            ],
        }),
        converted,
    }
}

fn undef(ty: usize, place: Placement) -> PlacedOp {
    PlacedOp { op: Op::Undef { ty }, place }
}

fn insert(aggregate: usize, value: Value, index: u32, prev: usize) -> PlacedOp {
    PlacedOp {
        op: Op::InsertValue { aggregate: Value::Result(aggregate), value, index },
        place: Placement::After(prev),
    }
}

fn extract(aggregate: Value, index: u32, prev: usize) -> PlacedOp {
    PlacedOp { op: Op::ExtractValue { aggregate, index }, place: Placement::After(prev) }
}

fn args(n: usize) -> Vec<Value> {
    (0..n).map(Value::Argument).collect()
}

fn build(
    types: &[MirType],
    llvm_args: &[Value],
    opaque: &[usize],
    layouts: &[(usize, ExplicitStructLayout)],
) -> (Result<Vec<Value>, LoweringError>, Vec<PlacedOp>) {
    assert!(arguments_are_well_formed(types, llvm_args, opaque, layouts));
    let mut ops = Vec::new();
    let r = build_entry_prologue(types, llvm_args, opaque, layouts, &mut ops);
    (r, ops)
}

/// The block that comes out when each operation is put where its place says.
fn block(ops: &[PlacedOp]) -> Vec<usize> {
    let mut order: Vec<usize> = Vec::new();
    for (number, op) in ops.iter().enumerate() {
        match op.place {
            Placement::AtFront => order.insert(0, number),
            Placement::After(prev) => {
                let at = order.iter().position(|n| *n == prev).unwrap();
                order.insert(at + 1, number);
            }
        }
    }
    order
}

/// What a value of the prologue is when its operations run.
#[derive(Clone, PartialEq, Debug)]
enum Computed {
    Argument(usize),
    FieldOf(usize, u32),
    Aggregate(usize, BTreeMap<u32, Computed>),
}

fn compute(ops: &[PlacedOp], v: Value) -> Computed {
    match v {
        Value::Argument(number) => Computed::Argument(number),
        Value::Result(number) => match ops[number].op {
            Op::Undef { ty } => Computed::Aggregate(ty, BTreeMap::new()),
            Op::InsertValue { aggregate, value, index } => match compute(ops, aggregate) {
                Computed::Aggregate(ty, mut fields) => {
                    fields.insert(index, compute(ops, value));
                    Computed::Aggregate(ty, fields)
                }
                other => panic!("{other:?}"),
            },
            Op::ExtractValue { aggregate, index } => match compute(ops, aggregate) {
                Computed::Argument(number) => Computed::FieldOf(number, index),
                other => panic!("{other:?}"),
            },
        },
    }
}

fn aggregate(ty: usize, fields: Vec<(u32, Computed)>) -> Computed {
    Computed::Aggregate(ty, fields.into_iter().collect())
}

#[test]
fn every_argument_arrives() {
    let host = layout(&[2, 0, 1]);
    let closure = hosted(
        sized(10),
        vec![sized(1), empty(2), sized(3)],
        &host,
        Ok(vec![Some(4), None, Some(0)]),
        Ok(vec![Some(0), None, Some(1)]),
    );
    let st = structure(
        20,
        vec![sized(1), sized(2), empty(3)],
        &[1, 2, 0],
        Ok(vec![Some(2), Some(0), None]),
    );
    let nothing = MirType { shape: TypeShape::Other, converted: empty(30) };
    let types = vec![st, closure, plain(0), slice(40), nothing];
    let (r, ops) = build(&types, &args(6), &[4], &[(1, host)]);
    let values: Vec<Computed> = r.unwrap().iter().map(|v| compute(&ops, *v)).collect();
    assert_eq!(
        values,
        vec![
            aggregate(20, vec![(0, Computed::Argument(0)), (2, Computed::Argument(1))]),
            aggregate(10, vec![(0, Computed::FieldOf(2, 4)), (1, Computed::FieldOf(2, 0))]),
            Computed::Argument(3),
            aggregate(40, vec![(0, Computed::Argument(4)), (1, Computed::Argument(5))]),
            aggregate(30, vec![]),
        ]
    );
}

#[test]
fn operations_are_placed_one_behind_the_other() {
    let mut ops = Vec::new();
    let first = insert_op_sequentially(&mut ops, Op::Undef { ty: 3 }, None);
    let second = insert_op_sequentially(&mut ops, Op::Undef { ty: 4 }, Some(first));
    assert_eq!((first, second), (0, 1));
    assert_eq!(ops, vec![undef(3, Placement::AtFront), undef(4, Placement::After(0))]);
}

#[test]
fn plain_arguments_are_classified() {
    assert_eq!(classify_argument_type(&plain(0)), ReconstructKind::Plain);
    assert_eq!(classify_argument_type(&slice(0)), ReconstructKind::Slice);
    let disjoint = MirType { shape: TypeShape::DisjointSlice, converted: bad("unused") };
    assert_eq!(classify_argument_type(&disjoint), ReconstructKind::Slice);
    let fields = vec![sized(1), empty(2), bad("no type"), sized(3)];
    let st = structure(0, fields, &[0, 1, 2, 3], Ok(vec![]));
    assert_eq!(classify_argument_type(&st), ReconstructKind::Struct(3));
    assert_eq!(
        classify_argument_type(&structure(0, vec![], &[], Ok(vec![]))),
        ReconstructKind::Struct(0)
    );
}

#[test]
fn opaque_arguments_are_classified() {
    assert_eq!(classify_opaque_argument_type(&slice(0)), Ok(ReconstructKind::Plain));
    let none = MirType { shape: TypeShape::Slice, converted: empty(0) };
    assert_eq!(classify_opaque_argument_type(&none), Ok(ReconstructKind::ZeroSized));
    let failing = MirType { shape: TypeShape::Other, converted: bad("no such type") };
    assert_eq!(
        classify_opaque_argument_type(&failing),
        Err(LoweringErrorOf::Outside { text: "no such type".to_string() })
    );
}

#[test]
fn only_structs_have_a_struct_layout() {
    let st = structure(0, vec![sized(1)], &[0], Ok(vec![Some(0)]));
    assert_eq!(struct_layout_for_mir_type(&st).ok().map(|st| st.layout.clone()), Some(layout(&[0])));
    let e = struct_layout_for_mir_type(&plain(0)).err().unwrap();
    assert_eq!(e, LoweringErrorOf::NotAStruct);
    assert_eq!(e.message(), "Expected MIR struct type for aggregate reconstruction");
}

#[test]
fn the_logical_layout_is_declaration_order() {
    let l = logical_layout(3);
    assert_eq!(l.mem_to_decl, vec![0, 1, 2]);
    assert_eq!(l.field_offsets, Vec::<u64>::new());
    assert_eq!(l.total_size, 0);
}

#[test]
fn the_first_host_layout_of_an_argument_counts() {
    let layouts = vec![(1, layout(&[0])), (2, layout(&[1])), (1, layout(&[2]))];
    assert_eq!(find_host_layout(&layouts, 1), Some(&layout(&[0])));
    assert_eq!(find_host_layout(&layouts, 2), Some(&layout(&[1])));
    assert_eq!(find_host_layout(&layouts, 0), None);
}

#[test]
fn places_are_looked_up_by_layout() {
    let host = layout(&[1, 0]);
    let ty = hosted(
        sized(0),
        vec![sized(1), sized(2)],
        &host,
        Ok(vec![Some(1), Some(0)]),
        Err("too wide".to_string()),
    );
    let st = struct_layout_for_mir_type(&ty).ok().unwrap();
    assert_eq!(
        llvm_field_indices_for_struct(st, &host).ok(),
        Some(&vec![Some(1), Some(0)])
    );
    assert_eq!(
        llvm_field_indices_for_struct(st, &logical_layout(2)).err(),
        Some(LoweringErrorOf::Outside { text: "too wide".to_string() })
    );
    assert!(st.find_places(&layout(&[0, 1])).is_none());
}

fn needed<'a>(
    before: &[MirType],
    ty: &MirType,
    count: usize,
    opaque: &[usize],
    layouts: &'a [(usize, ExplicitStructLayout)],
) -> NeededPlaces<'a> {
    assert!(arguments_are_well_formed(before, &args(count), opaque, layouts));
    needed_places(before, ty, &args(count), opaque, layouts)
}

/// A struct of which no places are known yet.
fn bare(converted: Result<LlvmType, String>) -> MirType {
    MirType {
        shape: TypeShape::Struct(StructType {
            fields: vec![sized(1), empty(2)],
            layout: layout(&[1, 0]),
            places: vec![],
        }),
        converted,
    }
}

#[test]
fn the_needed_places_depend_on_how_an_argument_is_passed() {
    let layouts = vec![(1, layout(&[1, 0]))];
    let front = || vec![plain(0)];
    assert!(matches!(needed(&front(), &bare(sized(3)), 2, &[], &[]), NeededPlaces::Own));
    assert!(matches!(needed(&front(), &bare(sized(3)), 2, &[1], &[]), NeededPlaces::Nowhere));
    match needed(&front(), &bare(sized(3)), 2, &[1], &layouts) {
        NeededPlaces::Host { layout: host, logical } => {
            assert_eq!(*host, layout(&[1, 0]));
            assert_eq!(logical, logical_layout(2));
        }
        _ => panic!(),
    }
    assert!(matches!(needed(&front(), &plain(3), 2, &[], &[]), NeededPlaces::Nowhere));
}

#[test]
fn no_places_are_needed_where_no_field_is_reached() {
    let layouts = vec![(1, layout(&[1, 0]))];
    let front = || vec![plain(0)];
    // The type takes no space or does not convert.
    assert!(matches!(needed(&front(), &bare(empty(3)), 2, &[1], &layouts), NeededPlaces::Nowhere));
    assert!(matches!(needed(&front(), &bare(bad("no")), 2, &[1], &layouts), NeededPlaces::Nowhere));
    assert!(matches!(needed(&front(), &bare(bad("no")), 2, &[], &[]), NeededPlaces::Nowhere));
    // Too few LLVM arguments are left.
    assert!(matches!(needed(&front(), &bare(sized(3)), 1, &[], &[]), NeededPlaces::Nowhere));
    assert!(matches!(needed(&front(), &bare(sized(3)), 1, &[1], &layouts), NeededPlaces::Nowhere));
    // An argument in front fails.
    let failing = MirType { shape: TypeShape::Slice, converted: bad("no slice") };
    assert!(matches!(needed(&[failing], &bare(sized(3)), 9, &[], &[]), NeededPlaces::Nowhere));
}

#[test]
fn a_slice_is_a_pointer_and_a_length() {
    let mut ops = vec![undef(9, Placement::AtFront)];
    let (v, last) =
        reconstruct_slice(&mut ops, Some(0), &slice(5), Value::Argument(3), Value::Argument(4))
            .unwrap();
    assert_eq!((v, last), (Value::Result(3), 3));
    assert_eq!(
        ops[1..],
        [
            undef(5, Placement::After(0)),
            insert(1, Value::Argument(3), 0, 1),
            insert(2, Value::Argument(4), 1, 2),
        ]
    );
}

#[test]
fn a_slice_whose_type_does_not_convert_fails() {
    let ty = MirType { shape: TypeShape::Slice, converted: bad("opaque element") };
    let mut ops = Vec::new();
    let r = reconstruct_slice(&mut ops, None, &ty, Value::Argument(0), Value::Argument(1));
    assert_eq!(r, Err(LoweringErrorOf::Outside { text: "opaque element".to_string() }));
    assert!(ops.is_empty());
}

#[test]
fn a_zero_sized_value_is_undefined() {
    let mut ops = Vec::new();
    let r = reconstruct_zero_sized(&mut ops, None, &plain(8));
    assert_eq!(r, Ok((Value::Result(0), 0)));
    assert_eq!(ops, vec![undef(8, Placement::AtFront)]);
}

#[test]
fn a_struct_takes_its_values_in_memory_order() {
    let ty = structure(
        7,
        vec![sized(1), empty(2), sized(3)],
        &[2, 1, 0],
        Ok(vec![Some(1), None, Some(0)]),
    );
    let mut ops = Vec::new();
    let r = reconstruct_struct(&mut ops, None, &ty, &[Value::Argument(4), Value::Argument(5)]);
    assert_eq!(r, Ok((Value::Result(2), 2)));
    assert_eq!(
        ops,
        vec![
            undef(7, Placement::AtFront),
            insert(0, Value::Argument(4), 0, 0),
            insert(1, Value::Argument(5), 1, 1),
        ]
    );
}

#[test]
fn struct_failures() {
    let fields = || vec![sized(1), sized(2)];
    let known = || Ok(vec![Some(0), Some(1)]);
    let mut ops = Vec::new();
    let e = reconstruct_struct(&mut ops, None, &structure(7, fields(), &[0, 1], known()), &args(1))
        .unwrap_err();
    assert_eq!(e, LoweringErrorOf::MissingFieldValue { field: 1 });
    assert_eq!(
        e.message(),
        "Entry block arg mismatch: missing flattened value for struct field 1"
    );
    assert_eq!(ops.len(), 2);

    let mut ops = Vec::new();
    let e = reconstruct_struct(&mut ops, None, &structure(7, fields(), &[0, 1], known()), &args(12))
        .unwrap_err();
    assert_eq!(e, LoweringErrorOf::UnusedFieldValues { count: 10 });
    assert_eq!(e.message(), "Entry block arg mismatch: 10 unused flattened struct values");
    assert_eq!(ops.len(), 3);

    let mut ops = Vec::new();
    let ty = structure(7, fields(), &[1, 0], Ok(vec![Some(0), None]));
    let e = reconstruct_struct(&mut ops, None, &ty, &args(2)).unwrap_err();
    assert_eq!(e, LoweringErrorOf::FieldWithoutIndex { field: 1 });
    assert_eq!(e.message(), "Struct field 1 has no LLVM field for reconstruction");
    assert_eq!(ops.len(), 1);

    let mut ops = Vec::new();
    let ty = structure(7, fields(), &[0, 1], Err("no layout".to_string()));
    let e = reconstruct_struct(&mut ops, None, &ty, &args(2)).unwrap_err();
    assert_eq!(e, LoweringErrorOf::Outside { text: "no layout".to_string() });
    assert_eq!(e.message(), "no layout");
    assert!(ops.is_empty());

    let mut ops = Vec::new();
    let ty = structure(7, vec![sized(1), bad("no field type")], &[0, 1], known());
    let e = reconstruct_struct(&mut ops, None, &ty, &args(2)).unwrap_err();
    assert_eq!(e.message(), "no field type");
    assert_eq!(ops.len(), 2);

    let mut ops = Vec::new();
    let e = reconstruct_struct(&mut ops, None, &plain(7), &args(2)).unwrap_err();
    assert_eq!(e, LoweringErrorOf::NotAStruct);
    assert!(ops.is_empty());
}

#[test]
fn an_opaque_struct_moves_its_fields_from_host_to_logical_places() {
    let host = layout(&[1, 0]);
    let ty = hosted(
        sized(7),
        vec![sized(1), empty(2), sized(3)],
        &host,
        Ok(vec![Some(2), None, Some(0)]),
        Ok(vec![Some(0), None, Some(1)]),
    );
    let mut ops = Vec::new();
    let opaque_val = Value::Argument(6);
    let r = reconstruct_opaque_struct_arg(&mut ops, None, &ty, opaque_val, &host);
    assert_eq!(r, Ok((Value::Result(4), 4)));
    assert_eq!(
        ops,
        vec![
            undef(7, Placement::AtFront),
            extract(opaque_val, 2, 0),
            insert(0, Value::Result(1), 0, 1),
            extract(opaque_val, 0, 2),
            insert(2, Value::Result(3), 1, 3),
        ]
    );
}

#[test]
fn opaque_struct_failures() {
    let host = layout(&[1, 0]);
    let fields = || vec![sized(1), sized(2)];
    let known = || Ok(vec![Some(0), Some(1)]);
    let cases: Vec<(MirType, LoweringError, &str, usize)> = vec![
        (
            hosted(sized(7), fields(), &host, Ok(vec![Some(0), None]), known()),
            LoweringErrorOf::FieldWithoutHostIndex { field: 1 },
            "Opaque struct field 1 has no host-layout LLVM field",
            3,
        ),
        (
            hosted(sized(7), fields(), &host, known(), Ok(vec![None, Some(0)])),
            LoweringErrorOf::FieldWithoutLogicalIndex { field: 0 },
            "Opaque struct field 0 has no logical LLVM field",
            1,
        ),
        (
            hosted(sized(7), fields(), &host, Err("host".to_string()), Err("logical".to_string())),
            LoweringErrorOf::Outside { text: "host".to_string() },
            "host",
            0,
        ),
        (
            hosted(sized(7), fields(), &host, known(), Err("logical".to_string())),
            LoweringErrorOf::Outside { text: "logical".to_string() },
            "logical",
            0,
        ),
        (
            hosted(bad("struct"), fields(), &host, known(), known()),
            LoweringErrorOf::Outside { text: "struct".to_string() },
            "struct",
            0,
        ),
        (
            plain(7),
            LoweringErrorOf::NotAStruct,
            "Expected MIR struct type for aggregate reconstruction",
            0,
        ),
    ];
    for (ty, error, message, listed) in cases {
        let mut ops = Vec::new();
        let e = reconstruct_opaque_struct_arg(&mut ops, None, &ty, Value::Argument(0), &host)
            .unwrap_err();
        assert_eq!(e, error);
        assert_eq!(e.message(), message);
        assert_eq!(ops.len(), listed);
    }
}

#[test]
fn an_opaque_struct_without_size_needs_no_fields() {
    let host = layout(&[]);
    let ty = MirType { shape: TypeShape::Other, converted: empty(3) };
    let mut ops = Vec::new();
    let r = reconstruct_opaque_struct_arg(&mut ops, None, &ty, Value::Argument(0), &host);
    assert_eq!(r, Ok((Value::Result(0), 0)));
    assert_eq!(ops, vec![undef(3, Placement::AtFront)]);
}

#[test]
fn a_map_kernel_gets_its_closure_and_its_slices() {
    // A closure with a wide and a small capture, an input slice and an output slice.
    let host = layout(&[1, 0]);
    let closure = hosted(
        sized(10),
        vec![sized(1), sized(2)],
        &host,
        Ok(vec![Some(1), Some(0)]),
        Ok(vec![Some(0), Some(1)]),
    );
    let out = MirType { shape: TypeShape::DisjointSlice, converted: sized(12) };
    let types = vec![closure, slice(11), out];
    let (r, ops) = build(&types, &args(5), &[0], &[(0, host)]);
    assert_eq!(r, Ok(vec![Value::Result(4), Value::Result(7), Value::Result(10)]));
    assert_eq!(
        ops,
        vec![
            undef(10, Placement::AtFront),
            extract(Value::Argument(0), 1, 0),
            insert(0, Value::Result(1), 0, 1),
            extract(Value::Argument(0), 0, 2),
            insert(2, Value::Result(3), 1, 3),
            undef(11, Placement::After(4)),
            insert(5, Value::Argument(1), 0, 5),
            insert(6, Value::Argument(2), 1, 6),
            undef(12, Placement::After(7)),
            insert(8, Value::Argument(3), 0, 8),
            insert(9, Value::Argument(4), 1, 9),
        ]
    );
    assert_eq!(block(&ops), (0..11).collect::<Vec<_>>());
}

#[test]
fn closures_with_zero_to_four_captures() {
    for captures in 0..5usize {
        let host = layout(&(0..captures).rev().collect::<Vec<_>>());
        let places: Vec<Option<u32>> = (0..captures as u32).map(Some).collect();
        let backwards: Vec<Option<u32>> = places.iter().rev().copied().collect();
        let converted = if captures == 0 { empty(1) } else { sized(1) };
        let fields = (0..captures).map(|n| sized(n + 2)).collect();
        let ty = hosted(converted, fields, &host, Ok(backwards.clone()), Ok(places.clone()));
        let (r, ops) = build(&[ty, plain(0)], &args(2), &[0], &[(0, host)]);
        assert_eq!(r, Ok(vec![Value::Result(2 * captures), Value::Argument(1)]));
        assert_eq!(ops.len(), 2 * captures + 1);
        assert_eq!(block(&ops), (0..2 * captures + 1).collect::<Vec<_>>());
        for n in 0..captures {
            assert_eq!(ops[2 * n + 1].op, Op::ExtractValue {
                aggregate: Value::Argument(0),
                index: backwards[n].unwrap(),
            });
            assert_eq!(ops[2 * n + 2].op, Op::InsertValue {
                aggregate: Value::Result(2 * n),
                value: Value::Result(2 * n + 1),
                index: places[n].unwrap(),
            });
        }
    }
}

#[test]
fn arguments_take_llvm_arguments_in_turn() {
    let st = || {
        structure(20, vec![sized(1), empty(2), sized(3)], &[2, 0, 1], Ok(vec![Some(1), None, Some(0)]))
    };
    let nothing = || MirType { shape: TypeShape::Other, converted: empty(30) };
    let types = vec![plain(0), st(), nothing(), slice(21), st()];
    let (r, ops) = build(&types, &args(6), &[2, 4], &[]);
    // The last struct is opaque and comes as it is.
    assert_eq!(
        r,
        Ok(vec![
            Value::Argument(0),
            Value::Result(2),
            Value::Result(3),
            Value::Result(6),
            Value::Argument(5),
        ])
    );
    assert_eq!(
        ops,
        vec![
            undef(20, Placement::AtFront),
            insert(0, Value::Argument(1), 0, 0),
            insert(1, Value::Argument(2), 1, 1),
            undef(30, Placement::After(2)),
            undef(21, Placement::After(3)),
            insert(4, Value::Argument(3), 0, 4),
            insert(5, Value::Argument(4), 1, 5),
        ]
    );
    assert_eq!(block(&ops), (0..7).collect::<Vec<_>>());
}

#[test]
fn an_empty_function_entry() {
    let (r, ops) = build(&[], &args(3), &[0], &[(1, layout(&[]))]);
    assert_eq!(r, Ok(vec![]));
    assert!(ops.is_empty());
}

#[test]
fn too_few_llvm_arguments() {
    let st = || structure(20, vec![sized(1), sized(2)], &[0, 1], Ok(vec![Some(0), Some(1)]));
    let (r, ops) = build(&[slice(1), slice(2)], &args(3), &[], &[]);
    let e = r.unwrap_err();
    assert_eq!(e, LoweringErrorOf::TooFewArgsForSlice);
    assert_eq!(e.message(), "Entry block arg mismatch: need 2 more LLVM args for slice");
    assert_eq!(ops.len(), 3);

    let (r, ops) = build(&[plain(1), st()], &args(2), &[], &[]);
    let e = r.unwrap_err();
    assert_eq!(e, LoweringErrorOf::TooFewArgsForStruct { fields: 2 });
    assert_eq!(e.message(), "Entry block arg mismatch: need 2 more LLVM args for struct");
    assert!(ops.is_empty());

    let (r, _) = build(&[plain(1), plain(2)], &args(1), &[], &[]);
    let e = r.unwrap_err();
    assert_eq!(e, LoweringErrorOf::NoMoreArgs);
    assert_eq!(e.message(), "Entry block arg mismatch: no more LLVM args available");

    let host = layout(&[]);
    let ty = hosted(empty(1), vec![], &host, Ok(vec![]), Ok(vec![]));
    let (r, _) = build(&[plain(1), ty], &args(1), &[1], &[(1, host)]);
    let e = r.unwrap_err();
    assert_eq!(e, LoweringErrorOf::NoArgForOpaqueStruct { arg: 1 });
    assert_eq!(
        e.message(),
        "Entry block arg mismatch: no LLVM arg available for opaque struct argument 1"
    );
}

#[test]
fn a_failing_argument_keeps_what_was_listed() {
    let failing = MirType { shape: TypeShape::Other, converted: bad("no type") };
    let (r, ops) = build(&[slice(1), failing, slice(2)], &args(5), &[1], &[]);
    assert_eq!(r, Err(LoweringErrorOf::Outside { text: "no type".to_string() }));
    assert_eq!(ops.len(), 3);
}

#[test]
fn a_field_that_does_not_convert_is_counted_and_then_fails() {
    let ty = structure(1, vec![bad("no field type")], &[0], Ok(vec![Some(0)]));
    let (r, _) = build(&[ty], &args(0), &[], &[]);
    assert_eq!(r, Err(LoweringErrorOf::TooFewArgsForStruct { fields: 1 }));
    let ty = structure(1, vec![bad("no field type")], &[0], Ok(vec![Some(0)]));
    let (r, _) = build(&[ty], &args(1), &[], &[]);
    assert_eq!(r, Err(LoweringErrorOf::Outside { text: "no field type".to_string() }));
}

#[test]
fn ill_formed_structs_are_told_apart() {
    let host = layout(&[1, 0]);
    let layouts = vec![(0, host.clone())];
    let ok = |ty: MirType, count: usize, opaque: &[usize], layouts: &[(usize, ExplicitStructLayout)]| {
        arguments_are_well_formed(&[ty], &args(count), opaque, layouts)
    };
    let short = || structure(1, vec![sized(1), sized(2)], &[0, 1], Ok(vec![Some(0)]));
    assert!(!ok(short(), 2, &[], &[]));
    assert!(ok(short(), 2, &[0], &[]));
    assert!(!ok(short(), 2, &[0], &layouts));
    assert!(!ok(structure(1, vec![sized(1)], &[1], Ok(vec![Some(0)])), 1, &[], &[]));
    assert!(!ok(structure(1, vec![sized(1)], &[], Ok(vec![Some(0)])), 1, &[], &[]));
    assert!(ok(structure(1, vec![sized(1)], &[7], Err("unplaced".to_string())), 1, &[], &[]));
    let good = hosted(sized(1), vec![sized(1)], &host, Ok(vec![Some(0)]), Ok(vec![Some(0)]));
    assert!(ok(good, 1, &[], &layouts));
    let thin = |to| hosted(sized(1), vec![sized(1)], &host, Ok(vec![]), to);
    assert!(!ok(thin(Ok(vec![Some(0)])), 1, &[], &layouts));
    assert!(ok(thin(Err("unplaced".to_string())), 1, &[], &layouts));
}

#[test]
fn what_is_not_looked_up_may_be_missing() {
    let host = layout(&[1, 0]);
    let layouts = vec![(0, host.clone())];
    // Too few LLVM arguments, a type that does not convert, one that takes no space.
    let (r, _) = build(&[bare(sized(1))], &[], &[], &[]);
    assert_eq!(r, Err(LoweringErrorOf::TooFewArgsForStruct { fields: 1 }));
    let (r, _) = build(&[bare(bad("no struct"))], &args(1), &[], &[]);
    assert_eq!(r, Err(LoweringErrorOf::Outside { text: "no struct".to_string() }));
    let (r, _) = build(&[bare(bad("no struct"))], &args(1), &[], &layouts);
    assert_eq!(r, Err(LoweringErrorOf::Outside { text: "no struct".to_string() }));
    let (r, ops) = build(&[bare(empty(4))], &args(1), &[], &layouts);
    assert_eq!(r, Ok(vec![Value::Result(0)]));
    assert_eq!(ops, vec![undef(4, Placement::AtFront)]);
    let (r, _) = build(&[bare(sized(1))], &[], &[], &layouts);
    assert_eq!(r, Err(LoweringErrorOf::NoArgForOpaqueStruct { arg: 0 }));
    // An argument behind one that fails.
    let (r, _) = build(&[slice(1), bare(sized(1))], &args(1), &[], &[]);
    assert_eq!(r, Err(LoweringErrorOf::TooFewArgsForSlice));
    // Places behind the first fault, and declaration order behind a host layout without places.
    let faulty = structure(1, vec![sized(1), sized(2)], &[0], Ok(vec![None]));
    let (r, _) = build(&[faulty], &args(2), &[], &[]);
    assert_eq!(r, Err(LoweringErrorOf::FieldWithoutIndex { field: 0 }));
    let unplaced = MirType {
        shape: TypeShape::Struct(StructType {
            fields: vec![sized(1)],
            layout: layout(&[0]),
            places: vec![FieldPlaces { layout: host.clone(), answer: Err("no host".to_string()) }],
        }),
        converted: sized(1),
    };
    let (r, _) = build(&[unplaced], &args(1), &[], &layouts);
    assert_eq!(r, Err(LoweringErrorOf::Outside { text: "no host".to_string() }));
    let faulty = hosted(sized(1), vec![sized(1), sized(2)], &host, Ok(vec![None]), Ok(vec![]));
    let (r, _) = build(&[faulty], &args(1), &[], &layouts);
    assert_eq!(r, Err(LoweringErrorOf::FieldWithoutHostIndex { field: 0 }));
}

#[test]
fn a_prologue_stands_in_front_of_earlier_operations() {
    let mut ops = vec![
        undef(8, Placement::AtFront),
        undef(9, Placement::AtFront),
        undef(7, Placement::After(0)),
    ];
    let earlier = block(&ops);
    assert_eq!(earlier, vec![1, 0, 2]);
    let types = vec![plain(0), slice(5), slice(6)];
    let r = build_entry_prologue(&types, &args(5), &[], &[], &mut ops);
    let values: Vec<Computed> = r.unwrap().iter().map(|v| compute(&ops, *v)).collect();
    assert_eq!(
        values,
        vec![
            Computed::Argument(0),
            aggregate(5, vec![(0, Computed::Argument(1)), (1, Computed::Argument(2))]),
            aggregate(6, vec![(0, Computed::Argument(3)), (1, Computed::Argument(4))]),
        ]
    );
    assert_eq!(block(&ops), vec![3, 4, 5, 6, 7, 8, 1, 0, 2]);
}
