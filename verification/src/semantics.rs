//! What the operations of a prologue compute, and that the MIR arguments get what was passed.

use vstd::prelude::*;

use crate::layout::LayoutModel;
use crate::prologue::{
    extract_op, insert_op, rebuilt_opaque_struct, rebuilt_slice, rebuilt_struct, undef_op, Op,
    PlacedOp, Value,
};
use crate::types::{is_sized, LlvmType, MirType, StructType, TypeShape};

verus! {

/// What a field of a value holds.
pub enum FieldValue {
    /// This value.
    Is(Value),
    /// Nothing defined.
    Undefined,
    /// What the field of another value holds, of which the operations say nothing.
    PartOf(Value, u32),
}

/// One more than the number of the operation that a value comes from.
pub open spec fn rank(v: Value) -> nat {
    match v {
        Value::Argument(_) => 0,
        Value::Result(number) => (number + 1) as nat,
    }
}

/// What field `index` of `v` holds. Setting a field leaves the others as they were.
pub open spec fn field_of(ops: Seq<PlacedOp>, v: Value, index: u32) -> FieldValue
    decreases rank(v),
{
    match v {
        Value::Argument(_) => FieldValue::PartOf(v, index),
        Value::Result(number) => if number >= ops.len() {
            FieldValue::PartOf(v, index)
        } else {
            match ops[number as int].op {
                Op::Undef { .. } => FieldValue::Undefined,
                Op::ExtractValue { .. } => FieldValue::PartOf(v, index),
                Op::InsertValue { aggregate, value, index: set } => if set == index {
                    FieldValue::Is(value)
                } else if rank(aggregate) < rank(v) {
                    field_of(ops, aggregate, index)
                } else {
                    FieldValue::PartOf(v, index)
                },
            }
        },
    }
}

/// The type of the undefined value that `v` is made of by setting fields.
pub open spec fn base_type(ops: Seq<PlacedOp>, v: Value) -> Option<usize>
    decreases rank(v),
{
    match v {
        Value::Argument(_) => None,
        Value::Result(number) => if number >= ops.len() {
            None
        } else {
            match ops[number as int].op {
                Op::Undef { ty } => Some(ty),
                Op::ExtractValue { .. } => None,
                Op::InsertValue { aggregate, .. } => if rank(aggregate) < rank(v) {
                    base_type(ops, aggregate)
                } else {
                    None
                },
            }
        },
    }
}

/// `v` is read from a field of `from`.
pub open spec fn is_read_from(ops: Seq<PlacedOp>, v: Value, from: Value, index: u32) -> bool {
    v matches Value::Result(number) && number < ops.len() && ops[number as int].op
        == (Op::ExtractValue { aggregate: from, index })
}

/// `v` is an undefined value of a type.
pub open spec fn is_undefined(ops: Seq<PlacedOp>, v: Value, ty: LlvmType) -> bool {
    v matches Value::Result(number) && number < ops.len() && ops[number as int].op == (Op::Undef {
        ty: ty.id,
    })
}

/// `longer` begins with `ops`.
pub open spec fn extends(ops: Seq<PlacedOp>, longer: Seq<PlacedOp>) -> bool {
    ops.len() <= longer.len() && longer.take(ops.len() as int) == ops
}

/// Listing more operations changes no value that is there.
pub proof fn field_of_is_stable(ops: Seq<PlacedOp>, longer: Seq<PlacedOp>, v: Value, index: u32)
    requires
        extends(ops, longer),
        rank(v) <= ops.len(),
    ensures
        field_of(longer, v, index) == field_of(ops, v, index),
    decreases rank(v),
{
    if let Value::Result(number) = v {
        assert(longer.take(ops.len() as int)[number as int] == longer[number as int]);
        if let Op::InsertValue { aggregate, value, index: set } = ops[number as int].op {
            if set != index && rank(aggregate) < rank(v) {
                field_of_is_stable(ops, longer, aggregate, index);
            }
        }
    }
}

/// Listing more operations changes the type of no value that is there.
pub proof fn base_type_is_stable(ops: Seq<PlacedOp>, longer: Seq<PlacedOp>, v: Value)
    requires
        extends(ops, longer),
        rank(v) <= ops.len(),
    ensures
        base_type(longer, v) == base_type(ops, v),
    decreases rank(v),
{
    if let Value::Result(number) = v {
        assert(longer.take(ops.len() as int)[number as int] == longer[number as int]);
        if let Op::InsertValue { aggregate, .. } = ops[number as int].op {
            if rank(aggregate) < rank(v) {
                base_type_is_stable(ops, longer, aggregate);
            }
        }
    }
}

/// A slice has the pointer in its first field and the length in its second.
pub proof fn slice_holds_pointer_and_length(
    ops: Seq<PlacedOp>,
    prev: Option<usize>,
    ty: MirType,
    ptr_val: Value,
    len_val: Value,
)
    requires
        ty.converted is Ok,
        ops.len() + 3 <= usize::MAX,
    ensures
        ({
            let (listed, outcome) = rebuilt_slice(ops, prev, ty, ptr_val, len_val);
            let v = outcome->Ok_0.0;
            &&& outcome is Ok
            &&& field_of(listed, v, 0) == FieldValue::Is(ptr_val)
            &&& field_of(listed, v, 1) == FieldValue::Is(len_val)
            &&& forall|index: u32|
                index > 1 ==> #[trigger] field_of(listed, v, index) == FieldValue::Undefined
        }),
{
    let (listed, outcome) = rebuilt_slice(ops, prev, ty, ptr_val, len_val);
    let base = ops.len() as int;
    assert(listed[base] == undef_op(ty.converted->Ok_0, prev));
    assert(listed[base + 1] == insert_op(base, ptr_val, 0, base));
    assert(listed[base + 2] == insert_op(base + 1, len_val, 1, base + 1));
    reveal_with_fuel(field_of, 4);
}

impl StructType {
    /// No two sized fields have the same place in the LLVM struct.
    pub open spec fn places_are_distinct(&self) -> bool {
        forall|m: int, k: int|
            0 <= m < k < self.fields@.len() && is_sized(self.fields@[#[trigger] self.declared_at(m)])
                && is_sized(self.fields@[#[trigger] self.declared_at(k)]) ==> self.place_of(
                self.declared_at(m),
            ) != self.place_of(self.declared_at(k))
    }

    /// No two sized fields have the same place in the logical struct.
    pub open spec fn logical_places_are_distinct(&self) -> bool {
        forall|d: int, k: int|
            0 <= d < k < self.fields@.len() && is_sized(#[trigger] self.fields@[d]) && is_sized(
                #[trigger] self.fields@[k],
            ) ==> self.logical_place_of(d) != self.logical_place_of(k)
    }

    /// Some sized field at a memory position before `m` has this place.
    pub open spec fn sets_before(&self, m: int, index: u32) -> bool {
        exists|k: int|
            0 <= k < m && is_sized(self.fields@[#[trigger] self.declared_at(k)]) && self.place_of(
                self.declared_at(k),
            ) == Some(index)
    }

    /// Some sized field declared before `field` has this logical place.
    pub open spec fn moves_before(&self, field: int, index: u32) -> bool {
        exists|d: int|
            0 <= d < field && is_sized(#[trigger] self.fields@[d]) && self.logical_place_of(d)
                == Some(index)
    }

    /// Where no fault comes first, there is none at any earlier position.
    pub proof fn no_fault_before(&self, n: int, count: nat, m: int)
        requires
            self.first_fault(n, count) is None,
            0 <= m < n,
        ensures
            self.fault_at(m, count) is None,
            self.first_fault(m, count) is None,
        decreases n,
    {
        if m < n - 1 {
            self.no_fault_before(n - 1, count, m);
        }
    }

    /// Where no fault comes first, there is none at any earlier field.
    pub proof fn no_move_fault_before(&self, n: int, field: int, layout: LayoutModel)
        requires
            self.first_move_fault(n, layout) is None,
            0 <= field < n,
        ensures
            self.move_fault_at(field, layout) is None,
            self.first_move_fault(field, layout) is None,
        decreases n,
    {
        if field < n - 1 {
            self.no_move_fault_before(n - 1, field, layout);
        }
    }

    /// Counting further counts no less.
    pub proof fn sized_before_grows(&self, m: int, n: int)
        requires
            m <= n,
        ensures
            self.sized_before(m) <= self.sized_before(n),
        decreases n - m,
    {
        if m < n {
            self.sized_before_grows(m, n - 1);
        }
    }

    /// Once the fields before `m` are set, each of them holds its value and no other is defined.
    proof fn set_fields_hold_their_values(
        &self,
        ops: Seq<PlacedOp>,
        undef: PlacedOp,
        m: int,
        n: int,
        values: Seq<Value>,
    )
        requires
            self.places_are_distinct(),
            0 <= m <= n,
            n == self.fields@.len(),
            self.first_fault(n, values.len()) is None,
            undef.op is Undef,
            ops.len() + 1 + self.sized_before(n) <= usize::MAX,
        ensures
            ({
                let base = ops.len() as int;
                let listed = ops.push(undef) + self.field_inserts(m, base, values);
                let v = Value::Result((base + self.sized_before(m)) as usize);
                &&& forall|k: int|
                    0 <= k < m && is_sized(self.fields@[#[trigger] self.declared_at(k)])
                        ==> field_of(listed, v, self.place_of(self.declared_at(k))->0)
                        == FieldValue::Is(values[self.sized_before(k) as int])
                &&& forall|index: u32|
                    !self.sets_before(m, index) ==> #[trigger] field_of(listed, v, index)
                        == FieldValue::Undefined
            }),
        decreases m,
    {
        let base = ops.len() as int;
        let listed = ops.push(undef) + self.field_inserts(m, base, values);
        let v = Value::Result((base + self.sized_before(m)) as usize);
        self.field_inserts_len(m, base, values);
        self.sized_before_grows(m, n);
        if m == 0 {
            assert(listed[base] == undef);
        } else {
            self.set_fields_hold_their_values(ops, undef, m - 1, n, values);
            let shorter = ops.push(undef) + self.field_inserts(m - 1, base, values);
            let w = Value::Result((base + self.sized_before(m - 1)) as usize);
            let field = self.declared_at(m - 1);
            self.field_inserts_len(m - 1, base, values);
            self.sized_before_grows(m - 1, n);
            self.no_fault_before(n, values.len(), m - 1);
            if is_sized(self.fields@[field]) {
                let k = self.sized_before(m - 1) as int;
                let set = self.place_of(field)->0;
                assert(listed =~= shorter.push(insert_op(base + k, values[k], set, base + k)));
                assert(listed.take(shorter.len() as int) =~= shorter);
                assert(listed[base + k + 1] == insert_op(base + k, values[k], set, base + k));
                assert forall|index: u32| index != set implies #[trigger] field_of(listed, v, index)
                    == field_of(shorter, w, index) by {
                    field_of_is_stable(shorter, listed, w, index);
                }
                assert forall|j: int|
                    0 <= j < m && is_sized(self.fields@[#[trigger] self.declared_at(j)]) implies field_of(
                    listed,
                    v,
                    self.place_of(self.declared_at(j))->0,
                ) == FieldValue::Is(values[self.sized_before(j) as int]) by {
                    if j < m - 1 {
                        self.no_fault_before(n, values.len(), j);
                        assert(self.place_of(self.declared_at(j)) != self.place_of(
                            self.declared_at(m - 1),
                        ));
                    }
                }
                assert forall|index: u32| !self.sets_before(m, index) implies #[trigger] field_of(
                    listed,
                    v,
                    index,
                ) == FieldValue::Undefined by {
                    assert(self.place_of(self.declared_at(m - 1)) == Some(set));
                    assert(!self.sets_before(m - 1, index));
                }
            } else {
                assert(listed == shorter);
                assert forall|index: u32| !self.sets_before(m, index) implies #[trigger] field_of(
                    listed,
                    v,
                    index,
                ) == FieldValue::Undefined by {
                    assert(!self.sets_before(m - 1, index));
                }
            }
        }
    }

    /// Counting further counts no less.
    pub proof fn sized_declared_before_grows(&self, m: int, n: int)
        requires
            m <= n,
        ensures
            self.sized_declared_before(m) <= self.sized_declared_before(n),
        decreases n - m,
    {
        if m < n {
            self.sized_declared_before_grows(m, n - 1);
        }
    }

    /// Once the fields before `field` are moved, each of them holds what was read from its place
    /// in the host value and no other is defined.
    proof fn moved_fields_hold_host_fields(
        &self,
        ops: Seq<PlacedOp>,
        undef: PlacedOp,
        field: int,
        n: int,
        host: Value,
        layout: LayoutModel,
    )
        requires
            self.logical_places_are_distinct(),
            0 <= field <= n,
            n == self.fields@.len(),
            self.first_move_fault(n, layout) is None,
            undef.op is Undef,
            ops.len() + 1 + 2 * self.sized_declared_before(n) <= usize::MAX,
        ensures
            ({
                let base = ops.len() as int;
                let listed = ops.push(undef) + self.field_moves(field, base, host, layout);
                let v = Value::Result((base + 2 * self.sized_declared_before(field)) as usize);
                &&& forall|d: int|
                    0 <= d < field && is_sized(#[trigger] self.fields@[d]) ==> self.holds_host_field(
                        listed,
                        v,
                        d,
                        host,
                        layout,
                    )
                &&& forall|index: u32|
                    !self.moves_before(field, index) ==> #[trigger] field_of(listed, v, index)
                        == FieldValue::Undefined
            }),
        decreases field,
    {
        let base = ops.len() as int;
        let listed = ops.push(undef) + self.field_moves(field, base, host, layout);
        let v = Value::Result((base + 2 * self.sized_declared_before(field)) as usize);
        self.field_moves_len(field, base, host, layout);
        self.sized_declared_before_grows(field, n);
        if field == 0 {
            assert(listed[base] == undef);
        } else {
            self.moved_fields_hold_host_fields(ops, undef, field - 1, n, host, layout);
            let shorter = ops.push(undef) + self.field_moves(field - 1, base, host, layout);
            let last = base + 2 * self.sized_declared_before(field - 1);
            let w = Value::Result(last as usize);
            self.field_moves_len(field - 1, base, host, layout);
            self.sized_declared_before_grows(field - 1, n);
            self.no_move_fault_before(n, field - 1, layout);
            if is_sized(self.fields@[field - 1]) {
                let from = self.place_under(layout, field - 1)->0;
                let set = self.logical_place_of(field - 1)->0;
                let read = extract_op(host, from, last);
                let insert = insert_op(last, Value::Result((last + 1) as usize), set, last + 1);
                assert(listed =~= shorter.push(read).push(insert));
                assert(listed.take(shorter.len() as int) =~= shorter);
                assert(listed[last + 1] == read);
                assert(listed[last + 2] == insert);
                assert forall|index: u32| index != set implies #[trigger] field_of(listed, v, index)
                    == field_of(shorter, w, index) by {
                    field_of_is_stable(shorter, listed, w, index);
                }
                assert forall|d: int| 0 <= d < field && is_sized(#[trigger] self.fields@[d]) implies self.holds_host_field(
                    listed,
                    v,
                    d,
                    host,
                    layout,
                ) by {
                    if d < field - 1 {
                        self.no_move_fault_before(n, d, layout);
                        assert(self.logical_place_of(d) != self.logical_place_of(field - 1));
                        assert(self.holds_host_field(shorter, w, d, host, layout));
                        let number = field_of(shorter, w, self.logical_place_of(d)->0)->Is_0->Result_0;
                        assert(listed.take(shorter.len() as int)[number as int]
                            == listed[number as int]);
                    }
                }
                assert forall|index: u32| !self.moves_before(field, index) implies #[trigger] field_of(
                    listed,
                    v,
                    index,
                ) == FieldValue::Undefined by {
                    assert(is_sized(self.fields@[field - 1]));
                    assert(!self.moves_before(field - 1, index));
                }
            } else {
                assert(listed == shorter);
                assert forall|index: u32| !self.moves_before(field, index) implies #[trigger] field_of(
                    listed,
                    v,
                    index,
                ) == FieldValue::Undefined by {
                    assert(!self.moves_before(field - 1, index));
                }
            }
        }
    }

    /// The logical place of a field in `v` holds what is read from the place of that field in
    /// `host`, which lies in a host layout.
    pub open spec fn holds_host_field(
        &self,
        ops: Seq<PlacedOp>,
        v: Value,
        field: int,
        host: Value,
        layout: LayoutModel,
    ) -> bool {
        match field_of(ops, v, self.logical_place_of(field)->0) {
            FieldValue::Is(x) => is_read_from(ops, x, host, self.place_under(layout, field)->0),
            _ => false,
        }
    }

    /// The place of the field at memory position `m` in `v` holds the value that the field was
    /// flattened to.
    pub open spec fn holds_flattened_field(
        &self,
        ops: Seq<PlacedOp>,
        v: Value,
        m: int,
        values: Seq<Value>,
    ) -> bool {
        field_of(ops, v, self.place_of(self.declared_at(m))->0) == FieldValue::Is(
            values[self.sized_before(m) as int],
        )
    }

    /// `v` is the struct with each sized field set to the value it was flattened to, and nothing
    /// else defined.
    pub open spec fn is_rebuilt(&self, ops: Seq<PlacedOp>, v: Value, values: Seq<Value>) -> bool {
        let n = self.fields@.len() as int;
        &&& self.sized_before(n) == values.len()
        &&& forall|m: int|
            0 <= m < n && is_sized(self.fields@[#[trigger] self.declared_at(m)])
                ==> self.holds_flattened_field(ops, v, m, values)
        &&& forall|index: u32|
            !self.sets_before(n, index) ==> #[trigger] field_of(ops, v, index)
                == FieldValue::Undefined
    }

    /// `v` is the logical struct with each sized field read from the host value, and nothing else
    /// defined.
    pub open spec fn is_rebuilt_from_host(
        &self,
        ops: Seq<PlacedOp>,
        v: Value,
        host: Value,
        layout: LayoutModel,
    ) -> bool {
        let n = self.fields@.len() as int;
        &&& forall|d: int|
            0 <= d < n && is_sized(#[trigger] self.fields@[d]) ==> self.holds_host_field(
                ops,
                v,
                d,
                host,
                layout,
            )
        &&& forall|index: u32|
            !self.moves_before(n, index) ==> #[trigger] field_of(ops, v, index)
                == FieldValue::Undefined
    }
}

impl StructType {
    proof fn set_fields_keep_the_type(
        &self,
        ops: Seq<PlacedOp>,
        undef: PlacedOp,
        m: int,
        values: Seq<Value>,
    )
        requires
            0 <= m,
            undef.op is Undef,
            ops.len() + 1 + self.sized_before(m) <= usize::MAX,
        ensures
            base_type(
                ops.push(undef) + self.field_inserts(m, ops.len() as int, values),
                Value::Result((ops.len() + self.sized_before(m)) as usize),
            ) == Some(undef.op->Undef_ty),
        decreases m,
    {
        let base = ops.len() as int;
        let listed = ops.push(undef) + self.field_inserts(m, base, values);
        self.field_inserts_len(m, base, values);
        if m == 0 {
            assert(listed[base] == undef);
        } else {
            let shorter = ops.push(undef) + self.field_inserts(m - 1, base, values);
            self.field_inserts_len(m - 1, base, values);
            self.set_fields_keep_the_type(ops, undef, m - 1, values);
            let k = self.sized_before(m - 1) as int;
            let field = self.declared_at(m - 1);
            if is_sized(self.fields@[field]) {
                let op = insert_op(base + k, values[k], self.place_of(field)->0, base + k);
                assert(listed =~= shorter.push(op));
                assert(listed.take(shorter.len() as int) =~= shorter);
                assert(listed[base + k + 1] == op);
                base_type_is_stable(shorter, listed, Value::Result((base + k) as usize));
            } else {
                assert(listed == shorter);
            }
        }
    }

    proof fn moved_fields_keep_the_type(
        &self,
        ops: Seq<PlacedOp>,
        undef: PlacedOp,
        field: int,
        host: Value,
        layout: LayoutModel,
    )
        requires
            0 <= field,
            undef.op is Undef,
            ops.len() + 1 + 2 * self.sized_declared_before(field) <= usize::MAX,
        ensures
            base_type(
                ops.push(undef) + self.field_moves(field, ops.len() as int, host, layout),
                Value::Result((ops.len() + 2 * self.sized_declared_before(field)) as usize),
            ) == Some(undef.op->Undef_ty),
        decreases field,
    {
        let base = ops.len() as int;
        let listed = ops.push(undef) + self.field_moves(field, base, host, layout);
        self.field_moves_len(field, base, host, layout);
        if field == 0 {
            assert(listed[base] == undef);
        } else {
            let shorter = ops.push(undef) + self.field_moves(field - 1, base, host, layout);
            self.field_moves_len(field - 1, base, host, layout);
            self.moved_fields_keep_the_type(ops, undef, field - 1, host, layout);
            let last = base + 2 * self.sized_declared_before(field - 1);
            if is_sized(self.fields@[field - 1]) {
                let read = extract_op(host, self.place_under(layout, field - 1)->0, last);
                let insert = insert_op(
                    last,
                    Value::Result((last + 1) as usize),
                    self.logical_place_of(field - 1)->0,
                    last + 1,
                );
                assert(listed =~= shorter.push(read).push(insert));
                assert(listed.take(shorter.len() as int) =~= shorter);
                assert(listed[last + 2] == insert);
                base_type_is_stable(shorter, listed, Value::Result(last as usize));
            } else {
                assert(listed == shorter);
            }
        }
    }
}

/// A slice has the type that the argument converts to.
pub proof fn slice_has_its_type(
    ops: Seq<PlacedOp>,
    prev: Option<usize>,
    ty: MirType,
    ptr_val: Value,
    len_val: Value,
)
    requires
        ty.converted is Ok,
        ops.len() + 3 <= usize::MAX,
    ensures
        base_type(
            rebuilt_slice(ops, prev, ty, ptr_val, len_val).0,
            rebuilt_slice(ops, prev, ty, ptr_val, len_val).1->Ok_0.0,
        ) == Some(ty.converted->Ok_0.id),
{
    let (listed, outcome) = rebuilt_slice(ops, prev, ty, ptr_val, len_val);
    let base = ops.len() as int;
    assert(listed[base] == undef_op(ty.converted->Ok_0, prev));
    assert(listed[base + 1] == insert_op(base, ptr_val, 0, base));
    assert(listed[base + 2] == insert_op(base + 1, len_val, 1, base + 1));
    reveal_with_fuel(base_type, 4);
}

/// A struct that is put together has the type that the argument converts to.
pub proof fn struct_has_its_type(
    ops: Seq<PlacedOp>,
    prev: Option<usize>,
    ty: MirType,
    values: Seq<Value>,
)
    requires
        rebuilt_struct(ops, prev, ty, values).1 is Ok,
        rebuilt_struct(ops, prev, ty, values).0.len() <= usize::MAX,
    ensures
        base_type(
            rebuilt_struct(ops, prev, ty, values).0,
            rebuilt_struct(ops, prev, ty, values).1->Ok_0.0,
        ) == Some(ty.converted->Ok_0.id),
{
    let st = ty.shape->Struct_0;
    let n = st.fields@.len() as int;
    st.field_inserts_len(n, ops.len() as int, values);
    st.set_fields_keep_the_type(ops, undef_op(ty.converted->Ok_0, prev), n, values);
}

/// A struct that is put together of a host value has the type that the argument converts to.
pub proof fn opaque_struct_has_its_type(
    ops: Seq<PlacedOp>,
    prev: Option<usize>,
    ty: MirType,
    host: Value,
    layout: LayoutModel,
)
    requires
        rebuilt_opaque_struct(ops, prev, ty, host, layout).1 is Ok,
        rebuilt_opaque_struct(ops, prev, ty, host, layout).0.len() <= usize::MAX,
    ensures
        base_type(
            rebuilt_opaque_struct(ops, prev, ty, host, layout).0,
            rebuilt_opaque_struct(ops, prev, ty, host, layout).1->Ok_0.0,
        ) == Some(ty.converted->Ok_0.id),
{
    let converted = ty.converted->Ok_0;
    if converted.zero_sized {
        assert(rebuilt_opaque_struct(ops, prev, ty, host, layout).0[ops.len() as int] == undef_op(
            converted,
            prev,
        ));
    } else {
        let st = ty.shape->Struct_0;
        let n = st.fields@.len() as int;
        st.field_moves_len(n, ops.len() as int, host, layout);
        st.moved_fields_keep_the_type(ops, undef_op(converted, prev), n, host, layout);
    }
}

/// What a field holds, and which type a value has, operation by operation: an undefined value has
/// its own type and no field defined, setting a field sets that field alone and keeps the type.
pub proof fn operations_set_fields(ops: Seq<PlacedOp>, number: usize, index: u32)
    requires
        number < ops.len(),
    ensures
        ops[number as int].op matches Op::Undef { ty } ==> {
            &&& base_type(ops, Value::Result(number)) == Some(ty)
            &&& field_of(ops, Value::Result(number), index) == FieldValue::Undefined
        },
        ops[number as int].op matches Op::InsertValue { aggregate, value, index: set } ==> {
            &&& set == index ==> field_of(ops, Value::Result(number), index) == FieldValue::Is(
                value,
            )
            &&& (aggregate matches Value::Result(before) && before < number) ==> {
                &&& base_type(ops, Value::Result(number)) == base_type(ops, aggregate)
                &&& set != index ==> field_of(ops, Value::Result(number), index) == field_of(
                    ops,
                    aggregate,
                    index,
                )
            }
        },
{
}

/// A struct that is put together has each of its sized fields set to the value that the field was
/// flattened to, and nothing else defined.
pub proof fn struct_holds_flattened_values(
    ops: Seq<PlacedOp>,
    prev: Option<usize>,
    ty: MirType,
    st: StructType,
    values: Seq<Value>,
)
    requires
        ty.shape == TypeShape::Struct(st),
        st.places_are_distinct(),
        rebuilt_struct(ops, prev, ty, values).1 is Ok,
        rebuilt_struct(ops, prev, ty, values).0.len() <= usize::MAX,
    ensures
        st.is_rebuilt(
            rebuilt_struct(ops, prev, ty, values).0,
            rebuilt_struct(ops, prev, ty, values).1->Ok_0.0,
            values,
        ),
{
    let n = st.fields@.len() as int;
    let base = ops.len() as int;
    st.field_inserts_len(n, base, values);
    st.set_fields_hold_their_values(ops, undef_op(ty.converted->Ok_0, prev), n, n, values);
}

/// A logical struct that is put together has each of its sized fields read from that field of the
/// host value, and nothing else defined. One that takes no space is undefined.
pub proof fn opaque_struct_holds_host_fields(
    ops: Seq<PlacedOp>,
    prev: Option<usize>,
    ty: MirType,
    st: StructType,
    host: Value,
    layout: LayoutModel,
)
    requires
        ty.shape == TypeShape::Struct(st),
        ty.converted->Ok_0.zero_sized || st.logical_places_are_distinct(),
        rebuilt_opaque_struct(ops, prev, ty, host, layout).1 is Ok,
        rebuilt_opaque_struct(ops, prev, ty, host, layout).0.len() <= usize::MAX,
    ensures
        ({
            let (listed, outcome) = rebuilt_opaque_struct(ops, prev, ty, host, layout);
            if ty.converted->Ok_0.zero_sized {
                is_undefined(listed, outcome->Ok_0.0, ty.converted->Ok_0)
            } else {
                st.is_rebuilt_from_host(listed, outcome->Ok_0.0, host, layout)
            }
        }),
{
    let n = st.fields@.len() as int;
    let base = ops.len() as int;
    if !ty.converted->Ok_0.zero_sized {
        st.field_moves_len(n, base, host, layout);
        st.moved_fields_hold_host_fields(
            ops,
            undef_op(ty.converted->Ok_0, prev),
            n,
            n,
            host,
            layout,
        );
    }
}

}
