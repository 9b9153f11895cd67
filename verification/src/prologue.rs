//! The entry prologue of a lowered function.
//!
//! The entry block of the LLVM function takes flattened arguments: a pointer and a length for a
//! slice, one value for each sized field of a struct, one host value for an opaque argument. The
//! prologue is the list of operations that puts the arguments of the MIR entry block together
//! again. The driver creates the listed operations one after the other and places each where the
//! list says.

use vstd::prelude::*;

use crate::error::{ErrorModel, LoweringError, LoweringErrorOf};
use crate::layout::{layout_models, usizes, ExplicitStructLayout, LayoutModel};
use crate::types::{
    argument_kind, classify_argument_type, classify_opaque_argument_type, find_host_layout,
    host_layout, is_sized, llvm_field_indices_for_struct, logical_layout,
    opaque_argument_kind, struct_layout_for_mir_type, LlvmType, MirType,
    PlacesAnswer, ReconstructKind, StructType, TypeShape,
};

verus! {

/// A value that the prologue can name.
#[derive(Clone, Copy, PartialEq, Eq, Debug, Structural)]
pub enum Value {
    /// An argument of the LLVM entry block.
    Argument(usize),
    /// The result of an operation of the prologue.
    Result(usize),
}

/// An operation of the prologue.
#[derive(Clone, Copy, PartialEq, Eq, Debug, Structural)]
pub enum Op {
    /// `llvm.mlir.undef` of a converted type.
    Undef { ty: usize },
    /// `llvm.insertvalue`: the aggregate with one field set.
    InsertValue { aggregate: Value, value: Value, index: u32 },
    /// `llvm.extractvalue`: one field of the aggregate.
    ExtractValue { aggregate: Value, index: u32 },
}

/// Where an operation is put into the entry block.
#[derive(Clone, Copy, PartialEq, Eq, Debug, Structural)]
pub enum Placement {
    /// In front of all operations.
    AtFront,
    /// Right behind an operation of the prologue.
    After(usize),
}

/// An operation with its place.
#[derive(Clone, Copy, PartialEq, Eq, Debug, Structural)]
pub struct PlacedOp {
    pub op: Op,
    pub place: Placement,
}

/// The place behind `prev`, or in front where there is none.
pub open spec fn place_after(prev: Option<usize>) -> Placement {
    match prev {
        Some(number) => Placement::After(number),
        None => Placement::AtFront,
    }
}

/// Lists `op` next, behind `prev` if there is one and else in front of the block. Returns the
/// number of the operation.
pub fn insert_op_sequentially(ops: &mut Vec<PlacedOp>, op: Op, prev: Option<usize>) -> (number:
    usize)
    ensures
        final(ops)@ == old(ops)@.push(PlacedOp { op, place: place_after(prev) }),
        number == old(ops)@.len(),
{
    let number: usize = ops.len();
    let place: Placement = match prev {
        Some(before) => Placement::After(before),
        None => Placement::AtFront,
    };
    ops.push(PlacedOp { op, place });
    number
}

/// What rebuilding a value comes to: the operations listed by then, and the value with the last
/// operation that it took, or a failure.
pub type Rebuilt = (Seq<PlacedOp>, Result<(Value, usize), ErrorModel>);

pub open spec fn undef_op(ty: LlvmType, prev: Option<usize>) -> PlacedOp {
    PlacedOp { op: Op::Undef { ty: ty.id }, place: place_after(prev) }
}

/// An operation that sets a field of the result of operation `last` and stands right behind
/// operation `prev`.
pub open spec fn insert_op(last: int, value: Value, index: u32, prev: int) -> PlacedOp {
    PlacedOp {
        op: Op::InsertValue { aggregate: Value::Result(last as usize), value, index },
        place: Placement::After(prev as usize),
    }
}

/// An operation that reads a field and stands right behind operation `prev`.
pub open spec fn extract_op(aggregate: Value, index: u32, prev: int) -> PlacedOp {
    PlacedOp {
        op: Op::ExtractValue { aggregate, index },
        place: Placement::After(prev as usize),
    }
}

/// A value that takes no space: one undefined value of its type.
pub open spec fn rebuilt_zero_sized(
    ops: Seq<PlacedOp>,
    prev: Option<usize>,
    ty: MirType,
) -> Rebuilt {
    match ty.converted {
        Err(text) => (ops, Err(LoweringErrorOf::Outside { text: text@ })),
        Ok(converted) => (
            ops.push(undef_op(converted, prev)),
            Ok((Value::Result(ops.len() as usize), ops.len() as usize)),
        ),
    }
}

/// A slice: an undefined pair whose first field is set to the pointer and whose second is set to
/// the length.
pub open spec fn rebuilt_slice(
    ops: Seq<PlacedOp>,
    prev: Option<usize>,
    ty: MirType,
    ptr_val: Value,
    len_val: Value,
) -> Rebuilt {
    let base = ops.len() as int;
    match ty.converted {
        Err(text) => (ops, Err(LoweringErrorOf::Outside { text: text@ })),
        Ok(converted) => (
            ops.push(undef_op(converted, prev)).push(insert_op(base, ptr_val, 0, base)).push(
                insert_op(base + 1, len_val, 1, base + 1),
            ),
            Ok((Value::Result((base + 2) as usize), (base + 2) as usize)),
        ),
    }
}

impl StructType {
    /// The declaration index of the field at a memory position.
    pub open spec fn declared_at(&self, m: int) -> int {
        self.layout.mem_to_decl@[m] as int
    }

    /// How many sized fields lie before a memory position.
    pub open spec fn sized_before(&self, m: int) -> nat
        decreases m,
    {
        if m <= 0 {
            0
        } else if is_sized(self.fields@[self.declared_at(m - 1)]) {
            self.sized_before(m - 1) + 1
        } else {
            self.sized_before(m - 1)
        }
    }

    /// The place of a field in the LLVM struct.
    pub open spec fn place_of(&self, field: int) -> Option<u32> {
        self.place_under(self.layout@, field)
    }

    /// What keeps the field at a memory position from being set from one of `count` values.
    pub open spec fn fault_at(&self, m: int, count: nat) -> Option<ErrorModel> {
        let field = self.declared_at(m);
        match self.fields@[field] {
            Err(text) => Some(LoweringErrorOf::Outside { text: text@ }),
            Ok(ty) => if ty.zero_sized {
                None
            } else if self.sized_before(m) >= count {
                Some(LoweringErrorOf::MissingFieldValue { field: field as usize })
            } else if self.place_of(field) is None {
                Some(LoweringErrorOf::FieldWithoutIndex { field: field as usize })
            } else {
                None
            },
        }
    }

    /// The first such fault before memory position `m`, with its position.
    pub open spec fn first_fault(&self, m: int, count: nat) -> Option<(int, ErrorModel)>
        decreases m,
    {
        if m <= 0 {
            None
        } else {
            match self.first_fault(m - 1, count) {
                Some(fault) => Some(fault),
                None => match self.fault_at(m - 1, count) {
                    Some(e) => Some((m - 1, e)),
                    None => None,
                },
            }
        }
    }

    /// The operations that set the sized fields before memory position `m`, where operation
    /// `base` is the undefined struct: the fields take the values in turn.
    pub open spec fn field_inserts(&self, m: int, base: int, values: Seq<Value>) -> Seq<PlacedOp>
        decreases m,
    {
        if m <= 0 {
            Seq::empty()
        } else {
            let before = self.field_inserts(m - 1, base, values);
            let field = self.declared_at(m - 1);
            let k = self.sized_before(m - 1) as int;
            if is_sized(self.fields@[field]) {
                before.push(insert_op(base + k, values[k], self.place_of(field)->0, base + k))
            } else {
                before
            }
        }
    }

    /// How many sized fields are declared before a field.
    pub open spec fn sized_declared_before(&self, field: int) -> nat
        decreases field,
    {
        if field <= 0 {
            0
        } else if is_sized(self.fields@[field - 1]) {
            self.sized_declared_before(field - 1) + 1
        } else {
            self.sized_declared_before(field - 1)
        }
    }

    /// The place of a field in the logical struct.
    pub open spec fn logical_place_of(&self, field: int) -> Option<u32> {
        self.place_under(self.logical_layout(), field)
    }

    /// What keeps a field from being moved from a struct in the host layout to the logical one.
    pub open spec fn move_fault_at(&self, field: int, layout: LayoutModel) -> Option<ErrorModel> {
        match self.fields@[field] {
            Err(text) => Some(LoweringErrorOf::Outside { text: text@ }),
            Ok(ty) => if ty.zero_sized {
                None
            } else if self.place_under(layout, field) is None {
                Some(LoweringErrorOf::FieldWithoutHostIndex { field: field as usize })
            } else if self.logical_place_of(field) is None {
                Some(LoweringErrorOf::FieldWithoutLogicalIndex { field: field as usize })
            } else {
                None
            },
        }
    }

    /// The first such fault among the fields declared before `field`, with its field.
    pub open spec fn first_move_fault(&self, field: int, layout: LayoutModel) -> Option<
        (int, ErrorModel),
    >
        decreases field,
    {
        if field <= 0 {
            None
        } else {
            match self.first_move_fault(field - 1, layout) {
                Some(fault) => Some(fault),
                None => match self.move_fault_at(field - 1, layout) {
                    Some(e) => Some((field - 1, e)),
                    None => None,
                },
            }
        }
    }

    /// The operations that move the sized fields declared before `field` out of the host value,
    /// where operation `base` is the undefined logical struct: each field is read and then set.
    pub open spec fn field_moves(
        &self,
        field: int,
        base: int,
        host: Value,
        layout: LayoutModel,
    ) -> Seq<PlacedOp>
        decreases field,
    {
        if field <= 0 {
            Seq::empty()
        } else {
            let before = self.field_moves(field - 1, base, host, layout);
            let last = base + 2 * self.sized_declared_before(field - 1);
            if is_sized(self.fields@[field - 1]) {
                before.push(extract_op(host, self.place_under(layout, field - 1)->0, last)).push(
                    insert_op(
                        last,
                        Value::Result((last + 1) as usize),
                        self.logical_place_of(field - 1)->0,
                        last + 1,
                    ),
                )
            } else {
                before
            }
        }
    }
}

/// A struct: an undefined struct whose sized fields are set, in memory order, to the given values
/// in turn. Each value must find its field.
pub open spec fn rebuilt_struct(
    ops: Seq<PlacedOp>,
    prev: Option<usize>,
    ty: MirType,
    values: Seq<Value>,
) -> Rebuilt {
    let base = ops.len() as int;
    match (ty.converted, ty.shape) {
        (Err(text), _) => (ops, Err(LoweringErrorOf::Outside { text: text@ })),
        (Ok(converted), TypeShape::Struct(st)) => {
            let n = st.fields@.len() as int;
            let start = ops.push(undef_op(converted, prev));
            match st.places_under(st.layout@)->0 {
                Err(text) => (ops, Err(LoweringErrorOf::Outside { text: text@ })),
                Ok(_) => match st.first_fault(n, values.len()) {
                    Some((m, e)) => (start + st.field_inserts(m, base, values), Err(e)),
                    None => {
                        let sized = st.sized_before(n);
                        let done = start + st.field_inserts(n, base, values);
                        if sized != values.len() {
                            (
                                done,
                                Err(
                                    LoweringErrorOf::UnusedFieldValues {
                                        count: (values.len() - sized) as usize,
                                    },
                                ),
                            )
                        } else {
                            (
                                done,
                                Ok((Value::Result((base + sized) as usize), (base + sized) as usize)),
                            )
                        }
                    },
                },
            }
        },
        (Ok(_), _) => (ops, Err(LoweringErrorOf::NotAStruct)),
    }
}

/// An opaque struct that came as one value in a host layout: an undefined logical struct whose
/// sized fields are read from the host value and set, in declaration order.
pub open spec fn rebuilt_opaque_struct(
    ops: Seq<PlacedOp>,
    prev: Option<usize>,
    ty: MirType,
    host: Value,
    layout: LayoutModel,
) -> Rebuilt {
    let base = ops.len() as int;
    match (ty.converted, ty.shape) {
        (Err(text), _) => (ops, Err(LoweringErrorOf::Outside { text: text@ })),
        (Ok(converted), shape) => if converted.zero_sized {
            rebuilt_zero_sized(ops, prev, ty)
        } else {
            match shape {
                TypeShape::Struct(st) => {
                    let n = st.fields@.len() as int;
                    let start = ops.push(undef_op(converted, prev));
                    match (
                        st.places_under(layout)->0,
                        st.places_under(st.logical_layout())->0,
                    ) {
                        (Err(text), _) => (ops, Err(LoweringErrorOf::Outside { text: text@ })),
                        (Ok(_), Err(text)) => (ops, Err(LoweringErrorOf::Outside { text: text@ })),
                        (Ok(_), Ok(_)) => match st.first_move_fault(n, layout) {
                            Some((field, e)) => (
                                start + st.field_moves(field, base, host, layout),
                                Err(e),
                            ),
                            None => {
                                let last = base + 2 * st.sized_declared_before(n);
                                (
                                    start + st.field_moves(n, base, host, layout),
                                    Ok((Value::Result(last as usize), last as usize)),
                                )
                            },
                        },
                    }
                },
                _ => (ops, Err(LoweringErrorOf::NotAStruct)),
            }
        },
    }
}

/// Whether a call listed and returned what `rebuilt` says.
pub open spec fn gives(
    ops: Seq<PlacedOp>,
    r: Result<(Value, usize), LoweringError>,
    rebuilt: Rebuilt,
) -> bool {
    &&& ops == rebuilt.0
    &&& match r {
        Ok(v) => rebuilt.1 == Ok::<(Value, usize), ErrorModel>(v),
        Err(e) => rebuilt.1 == Err::<(Value, usize), ErrorModel>(e@),
    }
}

/// Lists the operation for a value that takes no space.
pub fn reconstruct_zero_sized(ops: &mut Vec<PlacedOp>, prev_op: Option<usize>, mir_ty: &MirType) -> (r:
    Result<(Value, usize), LoweringError>)
    ensures
        gives(final(ops)@, r, rebuilt_zero_sized(old(ops)@, prev_op, *mir_ty)),
{
    match &mir_ty.converted {
        Err(text) => Err(LoweringErrorOf::Outside { text: text.clone() }),
        Ok(ty) => {
            let undef: usize = insert_op_sequentially(ops, Op::Undef { ty: ty.id }, prev_op);
            Ok((Value::Result(undef), undef))
        },
    }
}

/// Lists the operations that make a slice of a pointer and a length.
pub fn reconstruct_slice(
    ops: &mut Vec<PlacedOp>,
    prev_op: Option<usize>,
    mir_ty: &MirType,
    ptr_val: Value,
    len_val: Value,
) -> (r: Result<(Value, usize), LoweringError>)
    ensures
        gives(final(ops)@, r, rebuilt_slice(old(ops)@, prev_op, *mir_ty, ptr_val, len_val)),
{
    let struct_ty: LlvmType = match &mir_ty.converted {
        Err(text) => {
            return Err(LoweringErrorOf::Outside { text: text.clone() });
        },
        Ok(ty) => *ty,
    };
    let undef: usize = insert_op_sequentially(ops, Op::Undef { ty: struct_ty.id }, prev_op);
    let with_ptr: usize = insert_op_sequentially(
        ops,
        Op::InsertValue { aggregate: Value::Result(undef), value: ptr_val, index: 0 },
        Some(undef),
    );
    let with_len: usize = insert_op_sequentially(
        ops,
        Op::InsertValue { aggregate: Value::Result(with_ptr), value: len_val, index: 1 },
        Some(with_ptr),
    );
    Ok((Value::Result(with_len), with_len))
}

impl StructType {
    /// The first fault is the same wherever one looks beyond it.
    proof fn first_fault_stays(&self, m: int, n: int, count: nat)
        requires
            m <= n,
            self.first_fault(m, count) is Some,
        ensures
            self.first_fault(n, count) == self.first_fault(m, count),
        decreases n - m,
    {
        if m < n {
            self.first_fault_stays(m, n - 1, count);
        }
    }

    /// The first fault is the same wherever one looks beyond it.
    proof fn first_move_fault_stays(&self, field: int, n: int, layout: LayoutModel)
        requires
            field <= n,
            self.first_move_fault(field, layout) is Some,
        ensures
            self.first_move_fault(n, layout) == self.first_move_fault(field, layout),
        decreases n - field,
    {
        if field < n {
            self.first_move_fault_stays(field, n - 1, layout);
        }
    }

    /// Each sized field before `m` is set by one operation.
    pub proof fn field_inserts_len(&self, m: int, base: int, values: Seq<Value>)
        ensures
            self.field_inserts(m, base, values).len() == self.sized_before(m),
        decreases m,
    {
        if m > 0 {
            self.field_inserts_len(m - 1, base, values);
        }
    }

    /// Each sized field before `field` is moved by two operations.
    pub proof fn field_moves_len(&self, field: int, base: int, host: Value, layout: LayoutModel)
        ensures
            self.field_moves(field, base, host, layout).len() == 2 * self.sized_declared_before(
                field,
            ),
        decreases field,
    {
        if field > 0 {
            self.field_moves_len(field - 1, base, host, layout);
        }
    }
}

impl StructType {
    /// The field at a memory position is known, and so is its place where it is set from one of
    /// `count` values.
    pub open spec fn is_covered_at(&self, m: int, count: nat) -> bool {
        let field = self.declared_at(m);
        &&& m < self.layout.mem_to_decl@.len()
        &&& field < self.fields@.len()
        &&& is_sized(self.fields@[field]) && self.sized_before(m) < count ==> field
            < self.places_under(self.layout@)->0->Ok_0@.len()
    }

    /// Whatever is looked up while the struct is rebuilt of `count` values is there: the answer
    /// for its own layout, and where it gives places, all that is read up to the first fault.
    pub open spec fn well_formed(&self, count: nat) -> bool {
        self.places_under(self.layout@) matches Some(answer) && (answer is Ok ==> forall|m: int|
            0 <= m < self.fields@.len() && self.first_fault(m, count) is None
                ==> #[trigger] self.is_covered_at(m, count))
    }

    /// The places of a field are known as far as they are read when it is moved from a host value.
    pub open spec fn is_covered_for_host_at(&self, field: int, layout: LayoutModel) -> bool {
        is_sized(self.fields@[field]) ==> {
            &&& field < self.places_under(layout)->0->Ok_0@.len()
            &&& self.place_under(layout, field) is Some ==> field < self.places_under(
                self.logical_layout(),
            )->0->Ok_0@.len()
        }
    }

    /// Whatever is looked up while the struct is rebuilt of a value in a host layout is there: the
    /// answer for that layout, then the one for declaration order, and where both give places, all
    /// that is read up to the first fault.
    pub open spec fn well_formed_for_host(&self, layout: LayoutModel) -> bool {
        let logical = self.places_under(self.logical_layout());
        self.places_under(layout) matches Some(from) && (from is Ok ==> {
            &&& logical is Some
            &&& logical->0 is Ok ==> forall|field: int|
                0 <= field < self.fields@.len() && self.first_move_fault(field, layout) is None
                    ==> #[trigger] self.is_covered_for_host_at(field, layout)
        })
    }

    /// Tests whether all is there that rebuilding the struct of `count` values looks up.
    pub fn is_well_formed(&self, count: usize) -> (r: bool)
        ensures
            r == self.well_formed(count as nat),
    {
        let n: usize = self.fields.len();
        let indices: &Vec<Option<u32>> = match self.find_places(&self.layout) {
            None => {
                return false;
            },
            Some(Err(_)) => {
                return true;
            },
            Some(Ok(indices)) => indices,
        };
        let mut sized: usize = 0;
        for m in 0..n
            invariant
                n == self.fields@.len(),
                self.places_under(self.layout@) == Some::<PlacesAnswer>(Ok(*indices)),
                self.first_fault(m as int, count as nat) is None,
                sized == self.sized_before(m as int),
                sized <= m,
                forall|k: int| 0 <= k < m ==> #[trigger] self.is_covered_at(k, count as nat),
        {
            if m >= self.layout.mem_to_decl.len() || self.layout.mem_to_decl[m] >= n {
                assert(!self.is_covered_at(m as int, count as nat));
                return false;
            }
            let field: usize = self.layout.mem_to_decl[m];
            let fault: bool = match &self.fields[field] {
                Err(_) => true,
                Ok(ty) => if ty.zero_sized {
                    false
                } else if sized >= count {
                    true
                } else if field >= indices.len() {
                    assert(!self.is_covered_at(m as int, count as nat));
                    return false;
                } else {
                    sized = sized + 1;
                    indices[field].is_none()
                },
            };
            assert(self.is_covered_at(m as int, count as nat));
            if fault {
                assert(self.first_fault(m + 1, count as nat) is Some);
                assert forall|k: int|
                    0 <= k < n && self.first_fault(k, count as nat) is None implies #[trigger] self.is_covered_at(
                    k,
                    count as nat,
                ) by {
                    if k > m {
                        self.first_fault_stays(m + 1, k, count as nat);
                    }
                }
                return true;
            }
        }
        true
    }

    /// Tests whether all is there that rebuilding the struct of a value in a host layout looks up.
    pub fn is_well_formed_for_host(&self, host_layout: &ExplicitStructLayout) -> (r: bool)
        ensures
            r == self.well_formed_for_host(host_layout@),
    {
        let n: usize = self.fields.len();
        let ghost layout = host_layout@;
        let from: &Vec<Option<u32>> = match self.find_places(host_layout) {
            None => {
                return false;
            },
            Some(Err(_)) => {
                return true;
            },
            Some(Ok(from)) => from,
        };
        let logical: ExplicitStructLayout = logical_layout(n);
        let to: &Vec<Option<u32>> = match self.find_places(&logical) {
            None => {
                return false;
            },
            Some(Err(_)) => {
                return true;
            },
            Some(Ok(to)) => to,
        };
        for field in 0..n
            invariant
                n == self.fields@.len(),
                layout == host_layout@,
                self.places_under(layout) == Some::<PlacesAnswer>(Ok(*from)),
                self.places_under(self.logical_layout()) == Some::<PlacesAnswer>(Ok(*to)),
                self.first_move_fault(field as int, layout) is None,
                forall|k: int|
                    0 <= k < field ==> #[trigger] self.is_covered_for_host_at(k, layout),
        {
            let fault: bool = match &self.fields[field] {
                Err(_) => true,
                Ok(ty) => if ty.zero_sized {
                    false
                } else if field >= from.len() || (from[field].is_some() && field >= to.len()) {
                    assert(!self.is_covered_for_host_at(field as int, layout));
                    return false;
                } else {
                    from[field].is_none() || to[field].is_none()
                },
            };
            assert(self.is_covered_for_host_at(field as int, layout));
            if fault {
                assert(self.first_move_fault(field + 1, layout) is Some);
                assert forall|k: int|
                    0 <= k < n && self.first_move_fault(k, layout) is None implies #[trigger] self.is_covered_for_host_at(
                    k,
                    layout,
                ) by {
                    if k > field {
                        self.first_move_fault_stays(field + 1, k, layout);
                    }
                }
                return true;
            }
        }
        true
    }
}

/// Lists the operations that make a struct of flattened field values.
pub fn reconstruct_struct(
    ops: &mut Vec<PlacedOp>,
    prev_op: Option<usize>,
    mir_ty: &MirType,
    field_vals: &[Value],
) -> (r: Result<(Value, usize), LoweringError>)
    requires
        mir_ty.converted is Ok ==> (mir_ty.shape matches TypeShape::Struct(st) ==> st.well_formed(
            field_vals@.len(),
        )),
    ensures
        gives(final(ops)@, r, rebuilt_struct(old(ops)@, prev_op, *mir_ty, field_vals@)),
{
    let struct_ty: LlvmType = match &mir_ty.converted {
        Err(text) => {
            return Err(LoweringErrorOf::Outside { text: text.clone() });
        },
        Ok(ty) => *ty,
    };
    let st: &StructType = match struct_layout_for_mir_type(mir_ty) {
        Err(e) => {
            return Err(e);
        },
        Ok(st) => st,
    };
    let field_indices: &Vec<Option<u32>> = match llvm_field_indices_for_struct(st, &st.layout) {
        Err(e) => {
            return Err(e);
        },
        Ok(v) => v,
    };
    let ghost count = field_vals@.len();
    let ghost base = ops@.len() as int;
    let undef: usize = insert_op_sequentially(ops, Op::Undef { ty: struct_ty.id }, prev_op);
    let ghost start = ops@;
    let mut last_op: usize = undef;
    let mut field_val_idx: usize = 0;
    let n: usize = st.fields.len();
    for m in 0..n
        invariant
            n == st.fields@.len(),
            mir_ty.shape == TypeShape::Struct(*st),
            mir_ty.converted == Ok::<LlvmType, String>(struct_ty),
            st.well_formed(count),
            st.places_under(st.layout@) == Some::<PlacesAnswer>(Ok(*field_indices)),
            count == field_vals@.len(),
            base == old(ops)@.len(),
            start == old(ops)@.push(undef_op(struct_ty, prev_op)),
            ops@ == start + st.field_inserts(m as int, base, field_vals@),
            field_val_idx == st.sized_before(m as int),
            field_val_idx <= count,
            last_op == base + field_val_idx,
            st.first_fault(m as int, count) is None,
    {
        assert(st.is_covered_at(m as int, count));
        let decl_idx: usize = st.layout.mem_to_decl[m];
        let field_ty: LlvmType = match &st.fields[decl_idx] {
            Err(text) => {
                assert(st.first_fault(m + 1, count) is Some);
                proof {
                    st.first_fault_stays(m + 1, n as int, count);
                }
                return Err(LoweringErrorOf::Outside { text: text.clone() });
            },
            Ok(ty) => *ty,
        };
        if !field_ty.zero_sized {
            if field_val_idx >= field_vals.len() {
                assert(st.first_fault(m + 1, count) is Some);
                proof {
                    st.first_fault_stays(m + 1, n as int, count);
                }
                return Err(LoweringErrorOf::MissingFieldValue { field: decl_idx });
            }
            let field_val: Value = field_vals[field_val_idx];
            let llvm_idx: u32 = match field_indices[decl_idx] {
                None => {
                    assert(st.first_fault(m + 1, count) is Some);
                    proof {
                        st.first_fault_stays(m + 1, n as int, count);
                    }
                    return Err(LoweringErrorOf::FieldWithoutIndex { field: decl_idx });
                },
                Some(index) => index,
            };
            proof {
                st.field_inserts_len(m as int, base, field_vals@);
            }
            last_op = insert_op_sequentially(
                ops,
                Op::InsertValue {
                    aggregate: Value::Result(last_op),
                    value: field_val,
                    index: llvm_idx,
                },
                Some(last_op),
            );
            assert(ops@ =~= start + st.field_inserts(m + 1, base, field_vals@));
            field_val_idx = field_val_idx + 1;
        }
    }
    if field_val_idx != field_vals.len() {
        return Err(
            LoweringErrorOf::UnusedFieldValues { count: field_vals.len() - field_val_idx },
        );
    }
    Ok((Value::Result(last_op), last_op))
}

/// Lists the operations that make the logical struct of an opaque argument out of its host value.
pub fn reconstruct_opaque_struct_arg(
    ops: &mut Vec<PlacedOp>,
    prev_op: Option<usize>,
    mir_ty: &MirType,
    opaque_val: Value,
    host_layout: &ExplicitStructLayout,
) -> (r: Result<(Value, usize), LoweringError>)
    requires
        (mir_ty.converted matches Ok(converted) && !converted.zero_sized) ==> (
        mir_ty.shape matches TypeShape::Struct(st) ==> st.well_formed_for_host(host_layout@)),
    ensures
        gives(
            final(ops)@,
            r,
            rebuilt_opaque_struct(old(ops)@, prev_op, *mir_ty, opaque_val, host_layout@),
        ),
{
    let struct_ty: LlvmType = match &mir_ty.converted {
        Err(text) => {
            return Err(LoweringErrorOf::Outside { text: text.clone() });
        },
        Ok(ty) => *ty,
    };
    if struct_ty.zero_sized {
        return reconstruct_zero_sized(ops, prev_op, mir_ty);
    }
    let st: &StructType = match struct_layout_for_mir_type(mir_ty) {
        Err(e) => {
            return Err(e);
        },
        Ok(st) => st,
    };
    let n: usize = st.fields.len();
    let host_field_indices: &Vec<Option<u32>> = match llvm_field_indices_for_struct(
        st,
        host_layout,
    ) {
        Err(e) => {
            return Err(e);
        },
        Ok(v) => v,
    };
    let logical: ExplicitStructLayout = logical_layout(n);
    let logical_field_indices: &Vec<Option<u32>> = match llvm_field_indices_for_struct(
        st,
        &logical,
    ) {
        Err(e) => {
            return Err(e);
        },
        Ok(v) => v,
    };
    let ghost layout = host_layout@;
    let ghost base = ops@.len() as int;
    let undef: usize = insert_op_sequentially(ops, Op::Undef { ty: struct_ty.id }, prev_op);
    let ghost start = ops@;
    let mut last_op: usize = undef;
    for decl_idx in 0..n
        invariant
            n == st.fields@.len(),
            mir_ty.shape == TypeShape::Struct(*st),
            mir_ty.converted == Ok::<LlvmType, String>(struct_ty),
            !struct_ty.zero_sized,
            layout == host_layout@,
            st.well_formed_for_host(layout),
            st.places_under(layout) == Some::<PlacesAnswer>(Ok(*host_field_indices)),
            st.places_under(st.logical_layout()) == Some::<PlacesAnswer>(
                Ok(*logical_field_indices),
            ),
            base == old(ops)@.len(),
            start == old(ops)@.push(undef_op(struct_ty, prev_op)),
            ops@ == start + st.field_moves(decl_idx as int, base, opaque_val, layout),
            last_op == base + 2 * st.sized_declared_before(decl_idx as int),
            st.first_move_fault(decl_idx as int, layout) is None,
    {
        assert(st.is_covered_for_host_at(decl_idx as int, layout));
        let field_ty: LlvmType = match &st.fields[decl_idx] {
            Err(text) => {
                assert(st.first_move_fault(decl_idx + 1, layout) is Some);
                proof {
                    st.first_move_fault_stays(decl_idx + 1, n as int, layout);
                }
                return Err(LoweringErrorOf::Outside { text: text.clone() });
            },
            Ok(ty) => *ty,
        };
        if !field_ty.zero_sized {
            let host_idx: u32 = match host_field_indices[decl_idx] {
                None => {
                    assert(st.first_move_fault(decl_idx + 1, layout) is Some);
                    proof {
                        st.first_move_fault_stays(decl_idx + 1, n as int, layout);
                    }
                    return Err(LoweringErrorOf::FieldWithoutHostIndex { field: decl_idx });
                },
                Some(index) => index,
            };
            let logical_idx: u32 = match logical_field_indices[decl_idx] {
                None => {
                    assert(st.first_move_fault(decl_idx + 1, layout) is Some);
                    proof {
                        st.first_move_fault_stays(decl_idx + 1, n as int, layout);
                    }
                    return Err(LoweringErrorOf::FieldWithoutLogicalIndex { field: decl_idx });
                },
                Some(index) => index,
            };
            proof {
                st.field_moves_len(decl_idx as int, base, opaque_val, layout);
            }
            let extract: usize = insert_op_sequentially(
                ops,
                Op::ExtractValue { aggregate: opaque_val, index: host_idx },
                Some(last_op),
            );
            last_op = insert_op_sequentially(
                ops,
                Op::InsertValue {
                    aggregate: Value::Result(last_op),
                    value: Value::Result(extract),
                    index: logical_idx,
                },
                Some(extract),
            );
            assert(ops@ =~= start + st.field_moves(decl_idx + 1, base, opaque_val, layout));
        }
    }
    Ok((Value::Result(last_op), last_op))
}

/// A function entry: the types of the MIR arguments, the flattened LLVM arguments, and which MIR
/// arguments are opaque.
pub struct Entry {
    pub types: Seq<MirType>,
    pub llvm_args: Seq<Value>,
    /// The opaque arguments.
    pub opaque: Seq<int>,
    /// The host layouts of opaque arguments.
    pub layouts: Seq<(int, LayoutModel)>,
}

/// A prologue that is under way.
pub struct Progress {
    /// The operations listed so far.
    pub ops: Seq<PlacedOp>,
    /// The last operation of the prologue.
    pub last: Option<usize>,
    /// The MIR arguments put together so far.
    pub values: Seq<Value>,
    /// What stopped it.
    pub failure: Option<ErrorModel>,
}

impl Entry {
    /// Whether an argument comes as one value in a host layout.
    pub open spec fn is_hosted(&self, arg: int) -> bool {
        host_layout(self.layouts, arg) is Some
    }

    /// The host layout of an argument that has one.
    pub open spec fn host_layout_of(&self, arg: int) -> LayoutModel {
        host_layout(self.layouts, arg)->0
    }

    /// How an argument without a host layout is put together.
    pub open spec fn kind_of(&self, arg: int) -> Result<ReconstructKind, ErrorModel> {
        if self.opaque.contains(arg) {
            opaque_argument_kind(self.types[arg])
        } else {
            Ok(argument_kind(self.types[arg]))
        }
    }

    /// How many LLVM arguments an argument takes.
    pub open spec fn width_of(&self, arg: int) -> int {
        if self.is_hosted(arg) {
            1
        } else {
            match self.kind_of(arg) {
                Ok(ReconstructKind::Slice) => 2,
                Ok(ReconstructKind::Struct(fields)) => fields as int,
                Ok(ReconstructKind::Plain) => 1,
                Ok(ReconstructKind::ZeroSized) => 0,
                Err(_) => 0,
            }
        }
    }

    /// How many LLVM arguments the arguments before `arg` take.
    pub open spec fn taken_before(&self, arg: int) -> int
        decreases arg,
    {
        if arg <= 0 {
            0
        } else {
            self.taken_before(arg - 1) + self.width_of(arg - 1)
        }
    }

    /// The LLVM arguments that an argument takes.
    pub open spec fn flattened(&self, arg: int) -> Seq<Value> {
        self.llvm_args.subrange(
            self.taken_before(arg),
            self.taken_before(arg) + self.width_of(arg),
        )
    }

    /// What is wrong where too few LLVM arguments are left for an argument.
    pub open spec fn shortage_of(&self, arg: int) -> ErrorModel {
        if self.is_hosted(arg) {
            LoweringErrorOf::NoArgForOpaqueStruct { arg: arg as usize }
        } else {
            match self.kind_of(arg) {
                Ok(ReconstructKind::Slice) => LoweringErrorOf::TooFewArgsForSlice,
                Ok(ReconstructKind::Struct(fields)) => LoweringErrorOf::TooFewArgsForStruct {
                    fields,
                },
                _ => LoweringErrorOf::NoMoreArgs,
            }
        }
    }

    /// Putting one argument together: the operations listed by then, and the value with the last
    /// operation of the prologue, or a failure.
    pub open spec fn rebuilt_argument(
        &self,
        arg: int,
        ops: Seq<PlacedOp>,
        prev: Option<usize>,
    ) -> (Seq<PlacedOp>, Result<(Value, Option<usize>), ErrorModel>) {
        let ty = self.types[arg];
        let from = self.flattened(arg);
        if !self.is_hosted(arg) && self.kind_of(arg) is Err {
            (ops, Err(self.kind_of(arg)->Err_0))
        } else if self.taken_before(arg) + self.width_of(arg) > self.llvm_args.len() {
            (ops, Err(self.shortage_of(arg)))
        } else if self.is_hosted(arg) {
            with_last(rebuilt_opaque_struct(ops, prev, ty, from[0], self.host_layout_of(arg)))
        } else {
            match self.kind_of(arg)->Ok_0 {
                ReconstructKind::Slice => with_last(
                    rebuilt_slice(ops, prev, ty, from[0], from[1]),
                ),
                ReconstructKind::Struct(_) => with_last(rebuilt_struct(ops, prev, ty, from)),
                ReconstructKind::Plain => (ops, Ok((from[0], prev))),
                ReconstructKind::ZeroSized => with_last(rebuilt_zero_sized(ops, prev, ty)),
            }
        }
    }

    /// The prologue for the first `n` arguments, behind operations that are listed already. A
    /// failure ends it.
    pub open spec fn prologue(&self, n: int, ops: Seq<PlacedOp>) -> Progress
        decreases n,
    {
        if n <= 0 {
            Progress { ops, last: None, values: Seq::empty(), failure: None }
        } else {
            let before = self.prologue(n - 1, ops);
            if before.failure is Some {
                before
            } else {
                let (listed, outcome) = self.rebuilt_argument(n - 1, before.ops, before.last);
                match outcome {
                    Ok((value, last)) => Progress {
                        ops: listed,
                        last,
                        values: before.values.push(value),
                        failure: None,
                    },
                    Err(e) => Progress {
                        ops: listed,
                        last: before.last,
                        values: before.values,
                        failure: Some(e),
                    },
                }
            }
        }
    }

    /// Every argument before `arg` can be put together.
    pub open spec fn is_reached(&self, arg: int) -> bool {
        self.prologue(arg, Seq::empty()).failure is None
    }

    /// Enough LLVM arguments are left for an argument.
    pub open spec fn is_supplied(&self, arg: int) -> bool {
        self.taken_before(arg) + self.width_of(arg) <= self.llvm_args.len()
    }

    /// An argument is a struct that is going to be rebuilt of its fields: it is reached, its type
    /// converts, enough LLVM arguments are left for it, and it is not passed on as it is.
    pub open spec fn needs_places(&self, arg: int) -> bool {
        let ty = self.types[arg];
        &&& self.is_reached(arg)
        &&& ty.shape is Struct
        &&& self.is_supplied(arg)
        &&& ty.converted matches Ok(converted) && if self.is_hosted(arg) {
            !converted.zero_sized
        } else {
            !self.opaque.contains(arg)
        }
    }

    /// Whatever is looked up when an argument is rebuilt of its fields is there.
    pub open spec fn argument_is_well_formed(&self, arg: int) -> bool {
        let st = self.types[arg].shape->Struct_0;
        self.needs_places(arg) ==> if self.is_hosted(arg) {
            st.well_formed_for_host(self.host_layout_of(arg))
        } else {
            st.well_formed(self.width_of(arg) as nat)
        }
    }

    /// Whatever is looked up when the arguments are rebuilt of their fields is there.
    pub open spec fn well_formed(&self) -> bool {
        forall|arg: int|
            0 <= arg < self.types.len() ==> #[trigger] self.argument_is_well_formed(arg)
    }

    /// Whether and how an argument fails does not depend on what is listed before it.
    proof fn argument_fails_alike(
        &self,
        arg: int,
        ops: Seq<PlacedOp>,
        prev: Option<usize>,
        other: Seq<PlacedOp>,
        other_prev: Option<usize>,
    )
        ensures
            self.rebuilt_argument(arg, ops, prev).1 is Err <==> self.rebuilt_argument(
                arg,
                other,
                other_prev,
            ).1 is Err,
    {
    }

    /// Whether the prologue fails does not depend on what is listed before it.
    pub proof fn prologue_fails_alike(&self, n: int, ops: Seq<PlacedOp>)
        ensures
            self.prologue(n, ops).failure is None <==> self.is_reached(n),
        decreases n,
    {
        if n > 0 {
            self.prologue_fails_alike(n - 1, ops);
            let a = self.prologue(n - 1, ops);
            let b = self.prologue(n - 1, Seq::empty());
            self.argument_fails_alike(n - 1, a.ops, a.last, b.ops, b.last);
        }
    }

    /// What comes of the first `n` arguments depends on them alone.
    proof fn prologue_depends_on_prefix(&self, longer: Entry, n: int, ops: Seq<PlacedOp>)
        requires
            0 <= n <= self.types.len() <= longer.types.len(),
            longer.types.take(self.types.len() as int) == self.types,
            longer.llvm_args == self.llvm_args,
            longer.opaque == self.opaque,
            longer.layouts == self.layouts,
        ensures
            longer.prologue(n, ops) == self.prologue(n, ops),
            longer.taken_before(n) == self.taken_before(n),
        decreases n,
    {
        if n > 0 {
            self.prologue_depends_on_prefix(longer, n - 1, ops);
            assert(longer.types.take(self.types.len() as int)[n - 1] == longer.types[n - 1]);
            assert(longer.flattened(n - 1) == self.flattened(n - 1));
        }
    }

    /// A failure ends the prologue.
    proof fn prologue_failure_stays(&self, k: int, n: int, ops: Seq<PlacedOp>)
        requires
            k <= n,
            self.prologue(k, ops).failure is Some,
        ensures
            self.prologue(n, ops) == self.prologue(k, ops),
        decreases n - k,
    {
        if k < n {
            self.prologue_failure_stays(k, n - 1, ops);
        }
    }
}

/// The last operation of a rebuilt value is the last of the prologue.
pub open spec fn with_last(rebuilt: Rebuilt) -> (
    Seq<PlacedOp>,
    Result<(Value, Option<usize>), ErrorModel>,
) {
    match rebuilt.1 {
        Ok((value, last)) => (rebuilt.0, Ok((value, Some(last)))),
        Err(e) => (rebuilt.0, Err(e)),
    }
}

/// The entry that the arguments of a call describe.
pub open spec fn entry(
    types: Seq<MirType>,
    llvm_args: Seq<Value>,
    opaque_indices: Seq<usize>,
    opaque_layouts: Seq<(usize, ExplicitStructLayout)>,
) -> Entry {
    Entry {
        types,
        llvm_args,
        opaque: usizes(opaque_indices),
        layouts: layout_models(opaque_layouts),
    }
}

/// Whether `indices` lists `arg`.
fn lists_index(indices: &[usize], arg: usize) -> (r: bool)
    ensures
        r == usizes(indices@).contains(arg as int),
{
    for i in 0..indices.len()
        invariant
            forall|k: int| 0 <= k < i ==> indices@[k] != arg,
    {
        if indices[i] == arg {
            assert(usizes(indices@)[i as int] == arg as int);
            return true;
        }
    }
    assert forall|k: int| 0 <= k < usizes(indices@).len() implies usizes(indices@)[k]
        != arg as int by {
        assert(indices@[k] != arg);
    }
    false
}

/// Puts one argument together. Returns its value, the last operation of the prologue and how many
/// LLVM arguments are taken by then.
fn rebuild_argument(
    mir_arg_types: &[MirType],
    arg_idx: usize,
    llvm_args: &[Value],
    llvm_arg_idx: usize,
    opaque_arg_indices: &[usize],
    opaque_arg_layouts: &[(usize, ExplicitStructLayout)],
    ops: &mut Vec<PlacedOp>,
    last_op: Option<usize>,
) -> (r: Result<(Value, Option<usize>, usize), LoweringError>)
    requires
        arg_idx < mir_arg_types@.len(),
        llvm_arg_idx <= llvm_args@.len(),
        ({
            let e = entry(mir_arg_types@, llvm_args@, opaque_arg_indices@, opaque_arg_layouts@);
            &&& llvm_arg_idx == e.taken_before(arg_idx as int)
            &&& e.is_reached(arg_idx as int)
            &&& e.argument_is_well_formed(arg_idx as int)
        }),
    ensures
        ({
            let e = entry(mir_arg_types@, llvm_args@, opaque_arg_indices@, opaque_arg_layouts@);
            let (listed, outcome) = e.rebuilt_argument(arg_idx as int, old(ops)@, last_op);
            &&& final(ops)@ == listed
            &&& match r {
                Ok((value, last, taken)) => {
                    &&& outcome == Ok::<(Value, Option<usize>), ErrorModel>((value, last))
                    &&& taken == e.taken_before(arg_idx + 1)
                    &&& taken <= llvm_args@.len()
                },
                Err(err) => outcome == Err::<(Value, Option<usize>), ErrorModel>(err@),
            }
        }),
{
    let ghost e = entry(mir_arg_types@, llvm_args@, opaque_arg_indices@, opaque_arg_layouts@);
    let ghost at = arg_idx as int;
    let mir_ty: &MirType = &mir_arg_types[arg_idx];
    let left: usize = llvm_args.len() - llvm_arg_idx;
    if let Some(layout) = find_host_layout(opaque_arg_layouts, arg_idx) {
        if left < 1 {
            return Err(LoweringErrorOf::NoArgForOpaqueStruct { arg: arg_idx });
        }
        let opaque_val: Value = llvm_args[llvm_arg_idx];
        let (val, new_last) = match reconstruct_opaque_struct_arg(
            ops,
            last_op,
            mir_ty,
            opaque_val,
            layout,
        ) {
            Ok(rebuilt) => rebuilt,
            Err(err) => {
                return Err(err);
            },
        };
        return Ok((val, Some(new_last), llvm_arg_idx + 1));
    }
    let kind: ReconstructKind = if lists_index(opaque_arg_indices, arg_idx) {
        match classify_opaque_argument_type(mir_ty) {
            Ok(kind) => kind,
            Err(err) => {
                return Err(err);
            },
        }
    } else {
        classify_argument_type(mir_ty)
    };
    match kind {
        ReconstructKind::Slice => {
            if left < 2 {
                return Err(LoweringErrorOf::TooFewArgsForSlice);
            }
            let ptr_val: Value = llvm_args[llvm_arg_idx];
            let len_val: Value = llvm_args[llvm_arg_idx + 1];
            match reconstruct_slice(ops, last_op, mir_ty, ptr_val, len_val) {
                Ok((val, new_last)) => Ok((val, Some(new_last), llvm_arg_idx + 2)),
                Err(err) => Err(err),
            }
        },
        ReconstructKind::Struct(num_fields) => {
            if left < num_fields {
                return Err(LoweringErrorOf::TooFewArgsForStruct { fields: num_fields });
            }
            let field_vals: &[Value] = vstd::slice::slice_subrange(
                llvm_args,
                llvm_arg_idx,
                llvm_arg_idx + num_fields,
            );
            assert(field_vals@ == e.flattened(at));
            match reconstruct_struct(ops, last_op, mir_ty, field_vals) {
                Ok((val, new_last)) => Ok((val, Some(new_last), llvm_arg_idx + num_fields)),
                Err(err) => Err(err),
            }
        },
        ReconstructKind::Plain => {
            if left < 1 {
                return Err(LoweringErrorOf::NoMoreArgs);
            }
            Ok((llvm_args[llvm_arg_idx], last_op, llvm_arg_idx + 1))
        },
        ReconstructKind::ZeroSized => {
            match reconstruct_zero_sized(ops, last_op, mir_ty) {
                Ok((val, new_last)) => Ok((val, Some(new_last), llvm_arg_idx)),
                Err(err) => Err(err),
            }
        },
    }
}

/// Lists the operations that put the MIR arguments together and returns those arguments. On a
/// failure the operations that were listed before it stay.
pub fn build_entry_prologue(
    mir_arg_types: &[MirType],
    llvm_args: &[Value],
    opaque_arg_indices: &[usize],
    opaque_arg_layouts: &[(usize, ExplicitStructLayout)],
    ops: &mut Vec<PlacedOp>,
) -> (r: Result<Vec<Value>, LoweringError>)
    requires
        entry(
            mir_arg_types@,
            llvm_args@,
            opaque_arg_indices@,
            opaque_arg_layouts@,
        ).well_formed(),
    ensures
        ({
            let end = entry(
                mir_arg_types@,
                llvm_args@,
                opaque_arg_indices@,
                opaque_arg_layouts@,
            ).prologue(mir_arg_types@.len() as int, old(ops)@);
            &&& final(ops)@ == end.ops
            &&& match r {
                Ok(values) => end.failure is None && values@ == end.values,
                Err(e) => end.failure == Some(e@),
            }
        }),
{
    let ghost e = entry(mir_arg_types@, llvm_args@, opaque_arg_indices@, opaque_arg_layouts@);
    let ghost n = mir_arg_types@.len() as int;
    let mut llvm_arg_idx: usize = 0;
    let mut last_op: Option<usize> = None;
    let mut result_args: Vec<Value> = Vec::new();
    assert(result_args@ =~= Seq::empty());
    for arg_idx in 0..mir_arg_types.len()
        invariant
            e == entry(mir_arg_types@, llvm_args@, opaque_arg_indices@, opaque_arg_layouts@),
            n == mir_arg_types@.len(),
            e.well_formed(),
            llvm_arg_idx == e.taken_before(arg_idx as int),
            llvm_arg_idx <= llvm_args@.len(),
            e.prologue(arg_idx as int, old(ops)@) == (Progress {
                ops: ops@,
                last: last_op,
                values: result_args@,
                failure: None,
            }),
    {
        proof {
            e.prologue_fails_alike(arg_idx as int, old(ops)@);
        }
        assert(e.argument_is_well_formed(arg_idx as int));
        match rebuild_argument(
            mir_arg_types,
            arg_idx,
            llvm_args,
            llvm_arg_idx,
            opaque_arg_indices,
            opaque_arg_layouts,
            ops,
            last_op,
        ) {
            Ok((val, new_last, taken)) => {
                last_op = new_last;
                llvm_arg_idx = taken;
                result_args.push(val);
            },
            Err(err) => {
                proof {
                    e.prologue_failure_stays(arg_idx + 1, n, old(ops)@);
                }
                return Err(err);
            },
        }
    }
    Ok(result_args)
}

/// Tests whether all is there that putting an argument together looks up, where `taken` LLVM
/// arguments are taken by the arguments before it and none of those fails.
fn argument_is_well_formed(
    mir_arg_types: &[MirType],
    arg_idx: usize,
    llvm_args: &[Value],
    taken: usize,
    opaque_arg_indices: &[usize],
    opaque_arg_layouts: &[(usize, ExplicitStructLayout)],
) -> (r: bool)
    requires
        arg_idx < mir_arg_types@.len(),
        taken <= llvm_args@.len(),
        ({
            let e = entry(mir_arg_types@, llvm_args@, opaque_arg_indices@, opaque_arg_layouts@);
            &&& taken == e.taken_before(arg_idx as int)
            &&& e.is_reached(arg_idx as int)
        }),
    ensures
        r == entry(
            mir_arg_types@,
            llvm_args@,
            opaque_arg_indices@,
            opaque_arg_layouts@,
        ).argument_is_well_formed(arg_idx as int),
{
    let mir_ty: &MirType = &mir_arg_types[arg_idx];
    let left: usize = llvm_args.len() - taken;
    match (&mir_ty.shape, &mir_ty.converted) {
        (TypeShape::Struct(st), Ok(converted)) => match find_host_layout(
            opaque_arg_layouts,
            arg_idx,
        ) {
            Some(layout) => left < 1 || converted.zero_sized || st.is_well_formed_for_host(layout),
            None => if lists_index(opaque_arg_indices, arg_idx) {
                true
            } else if let ReconstructKind::Struct(count) = classify_argument_type(mir_ty) {
                left < count || st.is_well_formed(count)
            } else {
                true
            },
        },
        _ => true,
    }
}

/// Tests whether all is there that putting the arguments together looks up.
pub fn arguments_are_well_formed(
    mir_arg_types: &[MirType],
    llvm_args: &[Value],
    opaque_arg_indices: &[usize],
    opaque_arg_layouts: &[(usize, ExplicitStructLayout)],
) -> (r: bool)
    ensures
        r == entry(
            mir_arg_types@,
            llvm_args@,
            opaque_arg_indices@,
            opaque_arg_layouts@,
        ).well_formed(),
{
    let ghost e = entry(mir_arg_types@, llvm_args@, opaque_arg_indices@, opaque_arg_layouts@);
    let mut ops: Vec<PlacedOp> = Vec::new();
    let mut last_op: Option<usize> = None;
    let mut taken: usize = 0;
    assert(ops@ =~= Seq::empty());
    for arg_idx in 0..mir_arg_types.len()
        invariant
            e == entry(mir_arg_types@, llvm_args@, opaque_arg_indices@, opaque_arg_layouts@),
            taken == e.taken_before(arg_idx as int),
            taken <= llvm_args@.len(),
            e.prologue(arg_idx as int, Seq::empty()).ops == ops@,
            e.prologue(arg_idx as int, Seq::empty()).last == last_op,
            e.is_reached(arg_idx as int),
            forall|k: int| 0 <= k < arg_idx ==> #[trigger] e.argument_is_well_formed(k),
    {
        if !argument_is_well_formed(
            mir_arg_types,
            arg_idx,
            llvm_args,
            taken,
            opaque_arg_indices,
            opaque_arg_layouts,
        ) {
            return false;
        }
        match rebuild_argument(
            mir_arg_types,
            arg_idx,
            llvm_args,
            taken,
            opaque_arg_indices,
            opaque_arg_layouts,
            &mut ops,
            last_op,
        ) {
            Ok((_, new_last, now_taken)) => {
                last_op = new_last;
                taken = now_taken;
            },
            Err(_) => {
                assert(!e.is_reached(arg_idx + 1));
                assert forall|k: int| 0 <= k < e.types.len() implies #[trigger] e.argument_is_well_formed(
                    k,
                ) by {
                    if k > arg_idx {
                        e.prologue_failure_stays(arg_idx + 1, k, Seq::empty());
                    }
                }
                return true;
            },
        }
    }
    true
}

/// The layouts under which the places of the fields of a struct argument are needed.
pub enum NeededPlaces<'a> {
    /// None: the argument is no struct, is passed on as it is, takes no space, or fails before.
    Nowhere,
    /// The struct's own.
    Own,
    /// A host layout and, where its places are known, the one in which the fields lie in
    /// declaration order.
    Host { layout: &'a ExplicitStructLayout, logical: ExplicitStructLayout },
}

/// Says under which layouts the places of the fields of an argument are needed, before any of them
/// is known. The arguments in front of it are described in full.
pub fn needed_places<'a>(
    before: &[MirType],
    ty: &MirType,
    llvm_args: &[Value],
    opaque_arg_indices: &[usize],
    opaque_arg_layouts: &'a [(usize, ExplicitStructLayout)],
) -> (r: NeededPlaces<'a>)
    requires
        entry(before@, llvm_args@, opaque_arg_indices@, opaque_arg_layouts@).well_formed(),
    ensures
        ({
            let arg = before@.len() as int;
            let e = entry(
                before@.push(*ty),
                llvm_args@,
                opaque_arg_indices@,
                opaque_arg_layouts@,
            );
            match r {
                NeededPlaces::Nowhere => !e.needs_places(arg),
                NeededPlaces::Own => e.needs_places(arg) && !e.is_hosted(arg),
                NeededPlaces::Host { layout, logical } => {
                    &&& e.needs_places(arg)
                    &&& e.is_hosted(arg)
                    &&& layout@ == e.host_layout_of(arg)
                    &&& logical@ == ty.shape->Struct_0.logical_layout()
                },
            }
        }),
{
    let arg: usize = before.len();
    let ghost f = entry(before@, llvm_args@, opaque_arg_indices@, opaque_arg_layouts@);
    let ghost e = entry(before@.push(*ty), llvm_args@, opaque_arg_indices@, opaque_arg_layouts@);
    let mut ops: Vec<PlacedOp> = Vec::new();
    let mut last_op: Option<usize> = None;
    let mut taken: usize = 0;
    assert(ops@ =~= Seq::empty());
    assert(e.types.take(f.types.len() as int) =~= f.types);
    for arg_idx in 0..before.len()
        invariant
            f == entry(before@, llvm_args@, opaque_arg_indices@, opaque_arg_layouts@),
            e == entry(before@.push(*ty), llvm_args@, opaque_arg_indices@, opaque_arg_layouts@),
            e.types.take(f.types.len() as int) == f.types,
            f.well_formed(),
            arg == before@.len(),
            taken == f.taken_before(arg_idx as int),
            taken <= llvm_args@.len(),
            f.prologue(arg_idx as int, Seq::empty()).ops == ops@,
            f.prologue(arg_idx as int, Seq::empty()).last == last_op,
            f.is_reached(arg_idx as int),
    {
        assert(f.argument_is_well_formed(arg_idx as int));
        match rebuild_argument(
            before,
            arg_idx,
            llvm_args,
            taken,
            opaque_arg_indices,
            opaque_arg_layouts,
            &mut ops,
            last_op,
        ) {
            Ok((_, new_last, now_taken)) => {
                last_op = new_last;
                taken = now_taken;
            },
            Err(_) => {
                proof {
                    assert(!f.is_reached(arg_idx + 1));
                    f.prologue_failure_stays(arg_idx + 1, arg as int, Seq::empty());
                    f.prologue_depends_on_prefix(e, arg as int, Seq::empty());
                }
                return NeededPlaces::Nowhere;
            },
        }
    }
    proof {
        f.prologue_depends_on_prefix(e, arg as int, Seq::empty());
    }
    assert(e.types[arg as int] == *ty);
    let left: usize = llvm_args.len() - taken;
    match (&ty.shape, &ty.converted) {
        (TypeShape::Struct(st), Ok(converted)) => match find_host_layout(opaque_arg_layouts, arg) {
            Some(layout) => if left < 1 || converted.zero_sized {
                NeededPlaces::Nowhere
            } else {
                NeededPlaces::Host { layout, logical: logical_layout(st.fields.len()) }
            },
            None => if lists_index(opaque_arg_indices, arg) {
                NeededPlaces::Nowhere
            } else if let ReconstructKind::Struct(count) = classify_argument_type(ty) {
                if left < count {
                    NeededPlaces::Nowhere
                } else {
                    NeededPlaces::Own
                }
            } else {
                NeededPlaces::Nowhere
            },
        },
        _ => NeededPlaces::Nowhere,
    }
}

}
