//! The operations of a prologue, one by one.

use vstd::prelude::*;

use crate::entry_laws::{first_fault_is_first, first_move_fault_is_within};
use crate::error::{ErrorModel, LoweringError, LoweringErrorOf};
use crate::layout::LayoutModel;
use crate::prologue::{
    extract_op, gives, insert_op, place_after, rebuilt_opaque_struct, rebuilt_slice,
    rebuilt_struct, rebuilt_zero_sized, undef_op, Op, PlacedOp, Placement, Rebuilt, Value,
};
use crate::types::{is_sized, MirType, StructType, TypeShape};

verus! {

/// An operation stands right behind the one that it is put after, and in front of the block where
/// there is none.
pub proof fn places_follow(number: usize)
    ensures
        place_after(Some(number)) == Placement::After(number),
        place_after(None) == Placement::AtFront,
{
}

/// A call gives what a rebuilt value says exactly where it listed the same operations and returned
/// the same value with the same last operation, or the same failure.
pub proof fn calls_give_what_is_rebuilt(
    ops: Seq<PlacedOp>,
    r: Result<(Value, usize), LoweringError>,
    rebuilt: Rebuilt,
)
    ensures
        gives(ops, r, rebuilt) ==> ops == rebuilt.0,
        gives(ops, r, rebuilt) ==> (r is Ok <==> rebuilt.1 is Ok),
        gives(ops, r, rebuilt) && r is Ok ==> r->Ok_0 == rebuilt.1->Ok_0,
        gives(ops, r, rebuilt) && r is Err ==> r->Err_0@ == rebuilt.1->Err_0,
{
}

/// A value that takes no space is one undefined value of its type, right behind the operation
/// before it or in front of the block. A type that does not convert is a failure that lists
/// nothing.
pub proof fn zero_sized_operations(ops: Seq<PlacedOp>, prev: Option<usize>, ty: MirType)
    ensures
        ty.converted matches Err(text) ==> rebuilt_zero_sized(ops, prev, ty) == (
            ops,
            Err::<(Value, usize), ErrorModel>(LoweringErrorOf::Outside { text: text@ }),
        ),
        ty.converted matches Ok(converted) ==> {
            let (listed, outcome) = rebuilt_zero_sized(ops, prev, ty);
            &&& listed == ops.push(
                PlacedOp {
                    op: Op::Undef { ty: converted.id },
                    place: match prev {
                        Some(number) => Placement::After(number),
                        None => Placement::AtFront,
                    },
                },
            )
            &&& outcome == Ok::<(Value, usize), ErrorModel>(
                (Value::Result(ops.len() as usize), ops.len() as usize),
            )
        },
{
}

/// A slice is an undefined value of its type, then the pointer in the first field, then the length
/// in the second, each operation right behind the one before it.
pub proof fn slice_operations(
    ops: Seq<PlacedOp>,
    prev: Option<usize>,
    ty: MirType,
    ptr_val: Value,
    len_val: Value,
)
    ensures
        ty.converted matches Err(text) ==> rebuilt_slice(ops, prev, ty, ptr_val, len_val) == (
            ops,
            Err::<(Value, usize), ErrorModel>(LoweringErrorOf::Outside { text: text@ }),
        ),
        ty.converted matches Ok(converted) ==> {
            let (listed, outcome) = rebuilt_slice(ops, prev, ty, ptr_val, len_val);
            let n = ops.len() as int;
            &&& listed.len() == n + 3
            &&& listed.take(n) == ops
            &&& listed[n] == (PlacedOp {
                op: Op::Undef { ty: converted.id },
                place: match prev {
                    Some(number) => Placement::After(number),
                    None => Placement::AtFront,
                },
            })
            &&& listed[n + 1] == (PlacedOp {
                op: Op::InsertValue {
                    aggregate: Value::Result(n as usize),
                    value: ptr_val,
                    index: 0,
                },
                place: Placement::After(n as usize),
            })
            &&& listed[n + 2] == (PlacedOp {
                op: Op::InsertValue {
                    aggregate: Value::Result((n + 1) as usize),
                    value: len_val,
                    index: 1,
                },
                place: Placement::After((n + 1) as usize),
            })
            &&& outcome == Ok::<(Value, usize), ErrorModel>(
                (Value::Result((n + 2) as usize), (n + 2) as usize),
            )
        },
{
    let (listed, _) = rebuilt_slice(ops, prev, ty, ptr_val, len_val);
    assert(listed.take(ops.len() as int) =~= ops);
}

impl StructType {
    /// The operation that sets the field at a memory position stands where its value is counted.
    proof fn insert_of_field(&self, stop: int, base: int, values: Seq<Value>, m: int)
        requires
            0 <= m < stop,
            is_sized(self.fields@[self.declared_at(m)]),
        ensures
            self.sized_before(m) < self.field_inserts(stop, base, values).len(),
            self.field_inserts(stop, base, values)[self.sized_before(m) as int] == insert_op(
                base + self.sized_before(m),
                values[self.sized_before(m) as int],
                self.place_of(self.declared_at(m))->0,
                base + self.sized_before(m),
            ),
        decreases stop,
    {
        self.field_inserts_len(stop, base, values);
        self.field_inserts_len(stop - 1, base, values);
        if m < stop - 1 {
            self.insert_of_field(stop - 1, base, values, m);
        }
    }

    /// The operations that move a field stand where the field is counted.
    proof fn move_of_field(
        &self,
        stop: int,
        base: int,
        host: Value,
        layout: LayoutModel,
        field: int,
    )
        requires
            0 <= field < stop,
            is_sized(self.fields@[field]),
        ensures
            ({
                let k = 2 * self.sized_declared_before(field) as int;
                let moves = self.field_moves(stop, base, host, layout);
                &&& k + 1 < moves.len()
                &&& moves[k] == extract_op(
                    host,
                    self.place_under(layout, field)->0,
                    base + k,
                )
                &&& moves[k + 1] == insert_op(
                    base + k,
                    Value::Result((base + k + 1) as usize),
                    self.logical_place_of(field)->0,
                    base + k + 1,
                )
            }),
        decreases stop,
    {
        self.field_moves_len(stop, base, host, layout);
        self.field_moves_len(stop - 1, base, host, layout);
        if field < stop - 1 {
            self.move_of_field(stop - 1, base, host, layout, field);
        }
    }
}

/// Where a struct is not rebuilt at all, nothing is listed: its type does not convert, it is no
/// struct, or the places of its fields are not known.
pub proof fn struct_failures_at_once(
    ops: Seq<PlacedOp>,
    prev: Option<usize>,
    ty: MirType,
    values: Seq<Value>,
)
    ensures
        ty.converted matches Err(text) ==> rebuilt_struct(ops, prev, ty, values) == (
            ops,
            Err::<(Value, usize), ErrorModel>(LoweringErrorOf::Outside { text: text@ }),
        ),
        ty.converted is Ok && !(ty.shape is Struct) ==> rebuilt_struct(ops, prev, ty, values) == (
            ops,
            Err::<(Value, usize), ErrorModel>(LoweringErrorOf::NotAStruct),
        ),
        ty.converted is Ok ==> (ty.shape matches TypeShape::Struct(st) ==> (st.places_under(
            st.layout@,
        ) matches Some(Err(text)) ==> rebuilt_struct(ops, prev, ty, values) == (
            ops,
            Err::<(Value, usize), ErrorModel>(LoweringErrorOf::Outside { text: text@ }),
        ))),
{
}

/// A struct is an undefined value of its type in which the sized fields are set one after the
/// other, in memory order: the next value, at the place of the field, each operation right behind
/// the one before it. It stops at the first field whose type does not convert, that finds no value
/// left or that has no place, and fails for that reason. At the end all values must be used up.
/// Returns the memory position at which it stops.
pub proof fn struct_operations(
    ops: Seq<PlacedOp>,
    prev: Option<usize>,
    ty: MirType,
    st: StructType,
    values: Seq<Value>,
) -> (stop: int)
    requires
        ty.converted is Ok,
        ty.shape == TypeShape::Struct(st),
        st.places_under(st.layout@) matches Some(Ok(_)),
    ensures
        ({
            let (listed, outcome) = rebuilt_struct(ops, prev, ty, values);
            let base = ops.len() as int;
            let n = st.fields@.len();
            let places = st.places_under(st.layout@)->0->Ok_0@;
            let order = st.layout.mem_to_decl@;
            &&& 0 <= stop <= n
            &&& listed.len() == base + 1 + st.sized_before(stop)
            &&& listed.take(base) == ops
            &&& listed[base] == (PlacedOp {
                op: Op::Undef { ty: ty.converted->Ok_0.id },
                place: match prev {
                    Some(number) => Placement::After(number),
                    None => Placement::AtFront,
                },
            })
            &&& forall|m: int|
                0 <= m < stop ==> (#[trigger] st.fields@[order[m] as int]) is Ok && (
                !st.fields@[order[m] as int]->Ok_0.zero_sized ==> {
                    let k = st.sized_before(m);
                    &&& k < values.len()
                    &&& places[order[m] as int] is Some
                    &&& listed[base + 1 + k] == (PlacedOp {
                        op: Op::InsertValue {
                            aggregate: Value::Result((base + k) as usize),
                            value: values[k as int],
                            index: places[order[m] as int]->0,
                        },
                        place: Placement::After((base + k) as usize),
                    })
                })
            &&& if stop == n {
                if st.sized_before(stop) == values.len() {
                    outcome == Ok::<(Value, usize), ErrorModel>(
                        (
                            Value::Result((base + values.len()) as usize),
                            (base + values.len()) as usize,
                        ),
                    )
                } else {
                    outcome == Err::<(Value, usize), ErrorModel>(
                        LoweringErrorOf::UnusedFieldValues {
                            count: (values.len() - st.sized_before(stop)) as usize,
                        },
                    )
                }
            } else {
                match st.fields@[order[stop] as int] {
                    Err(text) => outcome == Err::<(Value, usize), ErrorModel>(
                        LoweringErrorOf::Outside { text: text@ },
                    ),
                    Ok(field) => {
                        &&& !field.zero_sized
                        &&& if st.sized_before(stop) >= values.len() {
                            outcome == Err::<(Value, usize), ErrorModel>(
                                LoweringErrorOf::MissingFieldValue { field: order[stop] },
                            )
                        } else {
                            &&& places[order[stop] as int] is None
                            &&& outcome == Err::<(Value, usize), ErrorModel>(
                                LoweringErrorOf::FieldWithoutIndex { field: order[stop] },
                            )
                        }
                    },
                }
            }
        }),
{
    let (listed, _) = rebuilt_struct(ops, prev, ty, values);
    let base = ops.len() as int;
    let n = st.fields@.len() as int;
    let order = st.layout.mem_to_decl@;
    let places = st.places_under(st.layout@)->0->Ok_0@;
    let count = values.len();
    let stop = match st.first_fault(n, count) {
        Some((m, _)) => m,
        None => n,
    };
    if st.first_fault(n, count) is Some {
        first_fault_is_first(st, n, count);
    }
    let inserts = st.field_inserts(stop, base, values);
    st.field_inserts_len(stop, base, values);
    assert(listed == ops.push(undef_op(ty.converted->Ok_0, prev)) + inserts);
    assert(listed.take(base) =~= ops);
    assert forall|m: int| 0 <= m < stop implies (#[trigger] st.fields@[order[m] as int]) is Ok && (
    !st.fields@[order[m] as int]->Ok_0.zero_sized ==> {
        let k = st.sized_before(m);
        &&& k < values.len()
        &&& places[order[m] as int] is Some
        &&& listed[base + 1 + k] == (PlacedOp {
            op: Op::InsertValue {
                aggregate: Value::Result((base + k) as usize),
                value: values[k as int],
                index: places[order[m] as int]->0,
            },
            place: Placement::After((base + k) as usize),
        })
    }) by {
        st.no_fault_before(stop, count, m);
        assert(st.declared_at(m) == order[m]);
        if is_sized(st.fields@[order[m] as int]) {
            st.insert_of_field(stop, base, values, m);
            assert(listed[base + 1 + st.sized_before(m)] == inserts[st.sized_before(m) as int]);
        }
    }
    stop
}

/// Where a struct is not rebuilt of a host value at all, nothing is listed. One that takes no
/// space is an undefined value, whatever its shape.
pub proof fn opaque_struct_failures_at_once(
    ops: Seq<PlacedOp>,
    prev: Option<usize>,
    ty: MirType,
    host: Value,
    layout: LayoutModel,
)
    ensures
        ({
            let r = rebuilt_opaque_struct(ops, prev, ty, host, layout);
            match ty.converted {
                Err(text) => r == (
                    ops,
                    Err::<(Value, usize), ErrorModel>(LoweringErrorOf::Outside { text: text@ }),
                ),
                Ok(converted) => if converted.zero_sized {
                    r == rebuilt_zero_sized(ops, prev, ty)
                } else {
                    match ty.shape {
                        TypeShape::Struct(st) => {
                            let from = st.places_under(layout);
                            let to = st.places_under(st.logical_layout());
                            &&& from matches Some(Err(text)) ==> r == (
                                ops,
                                Err::<(Value, usize), ErrorModel>(
                                    LoweringErrorOf::Outside { text: text@ },
                                ),
                            )
                            &&& from matches Some(Ok(_)) ==> (to matches Some(Err(text)) ==> r == (
                                ops,
                                Err::<(Value, usize), ErrorModel>(
                                    LoweringErrorOf::Outside { text: text@ },
                                ),
                            ))
                        },
                        _ => r == (
                            ops,
                            Err::<(Value, usize), ErrorModel>(LoweringErrorOf::NotAStruct),
                        ),
                    }
                },
            }
        }),
{
}

/// A struct in a host layout is an undefined value of its own type in which the sized fields are
/// set one after the other, in declaration order: each is read from the host value at its place in
/// the host layout and set at its place in declaration order, each operation right behind the one
/// before it. It stops at the first field whose type does not convert or that lacks a place, and
/// fails for that reason. Returns the field at which it stops.
pub proof fn opaque_struct_operations(
    ops: Seq<PlacedOp>,
    prev: Option<usize>,
    ty: MirType,
    st: StructType,
    host: Value,
    layout: LayoutModel,
) -> (stop: int)
    requires
        ty.converted matches Ok(converted) && !converted.zero_sized,
        ty.shape == TypeShape::Struct(st),
        st.places_under(layout) matches Some(Ok(_)),
        st.places_under(st.logical_layout()) matches Some(Ok(_)),
    ensures
        ({
            let (listed, outcome) = rebuilt_opaque_struct(ops, prev, ty, host, layout);
            let base = ops.len() as int;
            let n = st.fields@.len();
            let from = st.places_under(layout)->0->Ok_0@;
            let to = st.places_under(st.logical_layout())->0->Ok_0@;
            &&& 0 <= stop <= n
            &&& listed.len() == base + 1 + 2 * st.sized_declared_before(stop)
            &&& listed.take(base) == ops
            &&& listed[base] == (PlacedOp {
                op: Op::Undef { ty: ty.converted->Ok_0.id },
                place: match prev {
                    Some(number) => Placement::After(number),
                    None => Placement::AtFront,
                },
            })
            &&& forall|field: int|
                0 <= field < stop ==> (#[trigger] st.fields@[field]) is Ok && (
                !st.fields@[field]->Ok_0.zero_sized ==> {
                    let k = base + 2 * st.sized_declared_before(field);
                    &&& from[field] is Some
                    &&& to[field] is Some
                    &&& listed[k + 1] == (PlacedOp {
                        op: Op::ExtractValue { aggregate: host, index: from[field]->0 },
                        place: Placement::After(k as usize),
                    })
                    &&& listed[k + 2] == (PlacedOp {
                        op: Op::InsertValue {
                            aggregate: Value::Result(k as usize),
                            value: Value::Result((k + 1) as usize),
                            index: to[field]->0,
                        },
                        place: Placement::After((k + 1) as usize),
                    })
                })
            &&& if stop == n {
                outcome == Ok::<(Value, usize), ErrorModel>(
                    (
                        Value::Result((base + 2 * st.sized_declared_before(stop)) as usize),
                        (base + 2 * st.sized_declared_before(stop)) as usize,
                    ),
                )
            } else {
                match st.fields@[stop] {
                    Err(text) => outcome == Err::<(Value, usize), ErrorModel>(
                        LoweringErrorOf::Outside { text: text@ },
                    ),
                    Ok(field) => {
                        &&& !field.zero_sized
                        &&& if from[stop] is None {
                            outcome == Err::<(Value, usize), ErrorModel>(
                                LoweringErrorOf::FieldWithoutHostIndex { field: stop as usize },
                            )
                        } else {
                            &&& to[stop] is None
                            &&& outcome == Err::<(Value, usize), ErrorModel>(
                                LoweringErrorOf::FieldWithoutLogicalIndex { field: stop as usize },
                            )
                        }
                    },
                }
            }
        }),
{
    let (listed, _) = rebuilt_opaque_struct(ops, prev, ty, host, layout);
    let base = ops.len() as int;
    let n = st.fields@.len() as int;
    let from = st.places_under(layout)->0->Ok_0@;
    let to = st.places_under(st.logical_layout())->0->Ok_0@;
    let stop = match st.first_move_fault(n, layout) {
        Some((field, _)) => field,
        None => n,
    };
    if st.first_move_fault(n, layout) is Some {
        first_move_fault_is_within(st, n, layout);
    }
    let moves = st.field_moves(stop, base, host, layout);
    st.field_moves_len(stop, base, host, layout);
    assert(listed == ops.push(undef_op(ty.converted->Ok_0, prev)) + moves);
    assert(listed.take(base) =~= ops);
    assert forall|field: int| 0 <= field < stop implies (#[trigger] st.fields@[field]) is Ok && (
    !st.fields@[field]->Ok_0.zero_sized ==> {
        let k = base + 2 * st.sized_declared_before(field);
        &&& from[field] is Some
        &&& to[field] is Some
        &&& listed[k + 1] == (PlacedOp {
            op: Op::ExtractValue { aggregate: host, index: from[field]->0 },
            place: Placement::After(k as usize),
        })
        &&& listed[k + 2] == (PlacedOp {
            op: Op::InsertValue {
                aggregate: Value::Result(k as usize),
                value: Value::Result((k + 1) as usize),
                index: to[field]->0,
            },
            place: Placement::After((k + 1) as usize),
        })
    }) by {
        st.no_move_fault_before(stop, field, layout);
        if is_sized(st.fields@[field]) {
            st.move_of_field(stop, base, host, layout, field);
            let j = 2 * st.sized_declared_before(field) as int;
            assert(listed[base + 1 + j] == moves[j]);
            assert(listed[base + 2 + j] == moves[j + 1]);
        }
    }
    stop
}

}
