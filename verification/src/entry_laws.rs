//! What holds of a whole entry prologue.

use vstd::prelude::*;

use crate::layout::LayoutModel;
use crate::prologue::{
    extract_op, insert_op, place_after, rebuilt_opaque_struct, rebuilt_slice, rebuilt_struct,
    rebuilt_zero_sized, undef_op, Entry, Op, PlacedOp, Placement, Rebuilt, Value,
};
use crate::semantics::{
    base_type, base_type_is_stable, extends, field_of, field_of_is_stable, is_undefined,
    opaque_struct_has_its_type, opaque_struct_holds_host_fields, rank, slice_has_its_type,
    slice_holds_pointer_and_length, struct_has_its_type, struct_holds_flattened_values, FieldValue,
};
use crate::types::{is_sized, MirType, ReconstructKind, StructType, TypeShape};

verus! {

/// The number of the operation before operation `k` of a listing that begins with operation
/// `base`.
pub open spec fn number_before(k: int, base: int) -> Option<usize> {
    if k <= base {
        None
    } else {
        Some((k - 1) as usize)
    }
}

/// Operation `k` of a listing that begins with operation `base` stands right behind the operation
/// before it, and the first in front of the block. It uses arguments and results of earlier
/// operations only.
pub open spec fn is_in_place(op: PlacedOp, k: int, base: int) -> bool {
    &&& op.place == place_after(number_before(k, base))
    &&& match op.op {
        Op::Undef { .. } => true,
        Op::InsertValue { aggregate, value, .. } => rank(aggregate) <= k && rank(value) <= k,
        Op::ExtractValue { aggregate, .. } => rank(aggregate) <= k,
    }
}

/// From operation `base` on, every operation stands right behind the one before it and uses what
/// is there by then.
pub open spec fn is_listing(ops: Seq<PlacedOp>, base: int) -> bool {
    forall|k: int| base <= k < ops.len() ==> is_in_place(#[trigger] ops[k], k, base)
}

/// Every operation stands in front or behind an operation that is listed before it.
pub open spec fn is_placeable(ops: Seq<PlacedOp>) -> bool {
    forall|k: int|
        0 <= k < ops.len() ==> ((#[trigger] ops[k]).place matches Placement::After(prev) ==> prev
            < k)
}

/// The order in which the operations stand in the block once each is put where its place says.
pub open spec fn block_order(ops: Seq<PlacedOp>) -> Seq<int>
    decreases ops.len(),
{
    if ops.len() == 0 {
        Seq::empty()
    } else {
        let order = block_order(ops.drop_last());
        let number = ops.len() - 1;
        match ops.last().place {
            Placement::AtFront => seq![number] + order,
            Placement::After(prev) => order.insert(order.index_of(prev as int) + 1, number),
        }
    }
}

/// Every operation stands in the block, and nothing else does.
#[verifier::rlimit(60)]
#[verifier::spinoff_prover]
pub proof fn block_holds_the_operations(ops: Seq<PlacedOp>)
    requires
        is_placeable(ops),
    ensures
        block_order(ops).len() == ops.len(),
        forall|k: int| #[trigger] block_order(ops).contains(k) <==> 0 <= k < ops.len(),
    decreases ops.len(),
{
    if ops.len() > 0 {
        let init = ops.drop_last();
        assert forall|k: int| 0 <= k < init.len() implies ((
        #[trigger] init[k]).place matches Placement::After(prev) ==> prev < k) by {
            assert(init[k] == ops[k]);
        }
        block_holds_the_operations(init);
        let order = block_order(init);
        let whole = block_order(ops);
        let number = ops.len() - 1;
        let at: int = match ops.last().place {
            Placement::AtFront => 0,
            Placement::After(prev) => order.index_of(prev as int) + 1,
        };
        assert(ops[number] == ops.last());
        if let Placement::After(prev) = ops.last().place {
            assert(order.contains(prev as int));
        }
        assert(whole =~= order.insert(at, number));
        assert(whole[at] == number);
        assert forall|k: int| #[trigger] whole.contains(k) <==> 0 <= k < ops.len() by {
            if whole.contains(k) {
                let i = whole.index_of(k);
                if i < at {
                    assert(order[i] == k);
                    assert(order.contains(k));
                } else if i > at {
                    assert(order[i - 1] == k);
                    assert(order.contains(k));
                }
            } else if 0 <= k < number {
                assert(order.contains(k));
                let i = order.index_of(k);
                if i < at {
                    assert(whole[i] == k);
                } else {
                    assert(whole[i + 1] == k);
                }
            }
        }
    }
}

/// The operations of a listing stand in the block in the order in which they are listed. Those
/// that were there before come behind them, in the order that they had.
pub proof fn listing_stands_in_order(earlier: Seq<PlacedOp>, ops: Seq<PlacedOp>)
    requires
        is_placeable(earlier),
        extends(earlier, ops),
        is_listing(ops, earlier.len() as int),
        ops.len() <= usize::MAX,
    ensures
        block_order(ops) == Seq::new(
            (ops.len() - earlier.len()) as nat,
            |k: int| earlier.len() + k,
        ) + block_order(earlier),
    decreases ops.len(),
{
    let base = earlier.len() as int;
    if ops.len() == base {
        assert(ops.take(base) =~= ops);
        assert(block_order(ops) =~= Seq::new(0, |k: int| base + k) + block_order(earlier));
    } else {
        let init = ops.drop_last();
        assert(init.take(base) =~= ops.take(base));
        assert forall|k: int| base <= k < init.len() implies is_in_place(
            #[trigger] init[k],
            k,
            base,
        ) by {
            assert(init[k] == ops[k]);
        }
        listing_stands_in_order(earlier, init);
        block_holds_the_operations(earlier);
        let order = block_order(init);
        let number = ops.len() - 1;
        let new = number - base;
        let wanted = Seq::new((new + 1) as nat, |k: int| base + k) + block_order(earlier);
        assert(ops[number] == ops.last());
        assert(is_in_place(ops[number], number, base));
        if new == 0 {
            assert(block_order(ops) =~= wanted);
        } else {
            assert(order[new - 1] == number - 1);
            assert(order.contains(number - 1));
            let at = order.index_of(number - 1);
            assert(order[at] == number - 1);
            if at >= new {
                assert(block_order(earlier)[at - new] == number - 1);
                assert(block_order(earlier).contains(number - 1));
            }
            assert(at == new - 1);
            assert(block_order(ops) =~= wanted);
        }
    }
}

/// A value was rebuilt by listing more operations; it is the result of the last of them.
spec fn continues(ops: Seq<PlacedOp>, base: int, rebuilt: Rebuilt) -> bool {
    &&& is_listing(rebuilt.0, base)
    &&& extends(ops, rebuilt.0)
    &&& rebuilt.1 matches Ok((v, last)) ==> rebuilt.0.len() > base && last == rebuilt.0.len() - 1
        && v == Value::Result(last)
}

proof fn push_continues_listing(ops: Seq<PlacedOp>, base: int, op: PlacedOp)
    requires
        0 <= base,
        is_listing(ops, base),
        is_in_place(op, ops.len() as int, base),
    ensures
        is_listing(ops.push(op), base),
        extends(ops, ops.push(op)),
{
    assert(ops.push(op).take(ops.len() as int) =~= ops);
}

proof fn extends_is_transitive(a: Seq<PlacedOp>, b: Seq<PlacedOp>, c: Seq<PlacedOp>)
    requires
        extends(a, b),
        extends(b, c),
    ensures
        extends(a, c),
{
    assert(c.take(a.len() as int) =~= b.take(a.len() as int)) by {
        assert(c.take(b.len() as int).take(a.len() as int) =~= c.take(a.len() as int));
    }
}

proof fn zero_sized_continues(ops: Seq<PlacedOp>, base: int, ty: MirType)
    requires
        0 <= base <= ops.len(),
        is_listing(ops, base),
        rebuilt_zero_sized(ops, number_before(ops.len() as int, base), ty).0.len() <= usize::MAX,
    ensures
        continues(ops, base, rebuilt_zero_sized(ops, number_before(ops.len() as int, base), ty)),
{
    let prev = number_before(ops.len() as int, base);
    assert(ops.take(ops.len() as int) =~= ops);
    if ty.converted is Ok {
        push_continues_listing(ops, base, undef_op(ty.converted->Ok_0, prev));
    }
}

proof fn slice_continues(
    ops: Seq<PlacedOp>,
    base: int,
    ty: MirType,
    ptr_val: Value,
    len_val: Value,
)
    requires
        0 <= base <= ops.len(),
        is_listing(ops, base),
        rank(ptr_val) <= ops.len(),
        rank(len_val) <= ops.len(),
        rebuilt_slice(ops, number_before(ops.len() as int, base), ty, ptr_val, len_val).0.len()
            <= usize::MAX,
    ensures
        continues(
            ops,
            base,
            rebuilt_slice(ops, number_before(ops.len() as int, base), ty, ptr_val, len_val),
        ),
{
    let prev = number_before(ops.len() as int, base);
    let at = ops.len() as int;
    assert(ops.take(ops.len() as int) =~= ops);
    if ty.converted is Ok {
        let one = ops.push(undef_op(ty.converted->Ok_0, prev));
        push_continues_listing(ops, base, undef_op(ty.converted->Ok_0, prev));
        let two = one.push(insert_op(at, ptr_val, 0, at));
        push_continues_listing(one, base, insert_op(at, ptr_val, 0, at));
        let three = two.push(insert_op(at + 1, len_val, 1, at + 1));
        push_continues_listing(two, base, insert_op(at + 1, len_val, 1, at + 1));
        extends_is_transitive(ops, one, two);
        extends_is_transitive(ops, two, three);
    }
}

proof fn field_inserts_continue(
    st: StructType,
    start: Seq<PlacedOp>,
    base: int,
    at: int,
    m: int,
    values: Seq<Value>,
)
    requires
        is_listing(start, base),
        start.len() == at + 1,
        0 <= base <= at,
        0 <= m,
        st.sized_before(m) <= values.len(),
        forall|k: int| 0 <= k < values.len() ==> rank(#[trigger] values[k]) <= at,
        at + 1 + st.sized_before(m) <= usize::MAX,
    ensures
        is_listing(start + st.field_inserts(m, at, values), base),
        extends(start, start + st.field_inserts(m, at, values)),
    decreases m,
{
    let listed = start + st.field_inserts(m, at, values);
    assert(listed.take(start.len() as int) =~= start);
    if m == 0 {
        assert(listed =~= start);
    } else {
        let shorter = start + st.field_inserts(m - 1, at, values);
        field_inserts_continue(st, start, base, at, m - 1, values);
        st.field_inserts_len(m - 1, at, values);
        let field = st.declared_at(m - 1);
        let k = st.sized_before(m - 1) as int;
        if is_sized(st.fields@[field]) {
            let op = insert_op(at + k, values[k], st.place_of(field)->0, at + k);
            assert(listed =~= shorter.push(op));
            push_continues_listing(shorter, base, op);
        } else {
            assert(listed =~= shorter);
        }
    }
}

/// Up to the first fault, no more fields are set than there are values.
proof fn sized_within_values(st: StructType, m: int, count: nat)
    requires
        0 <= m,
        st.first_fault(m, count) is None,
    ensures
        st.sized_before(m) <= count,
    decreases m,
{
    if m > 0 {
        sized_within_values(st, m - 1, count);
    }
}

/// The first fault is a fault, and there is none before it.
pub proof fn first_fault_is_first(st: StructType, n: int, count: nat)
    requires
        st.first_fault(n, count) is Some,
    ensures
        st.first_fault(n, count) matches Some((m, e)) && 0 <= m < n && st.first_fault(m, count) is None
            && st.fault_at(m, count) == Some(e),
    decreases n,
{
    if st.first_fault(n - 1, count) is Some {
        first_fault_is_first(st, n - 1, count);
    }
}

proof fn struct_continues(ops: Seq<PlacedOp>, base: int, ty: MirType, values: Seq<Value>)
    requires
        0 <= base <= ops.len(),
        is_listing(ops, base),
        forall|k: int| 0 <= k < values.len() ==> rank(#[trigger] values[k]) <= ops.len(),
        rebuilt_struct(ops, number_before(ops.len() as int, base), ty, values).0.len() <= usize::MAX,
    ensures
        continues(ops, base, rebuilt_struct(ops, number_before(ops.len() as int, base), ty, values)),
{
    let prev = number_before(ops.len() as int, base);
    let at = ops.len() as int;
    assert(ops.take(ops.len() as int) =~= ops);
    if ty.converted is Ok && ty.shape is Struct {
        let st = ty.shape->Struct_0;
        let n = st.fields@.len() as int;
        let start = ops.push(undef_op(ty.converted->Ok_0, prev));
        push_continues_listing(ops, base, undef_op(ty.converted->Ok_0, prev));
        if st.places_under(st.layout@)->0 is Ok {
            let m = match st.first_fault(n, values.len()) {
                Some((m, _)) => m,
                None => n,
            };
            if st.first_fault(n, values.len()) is Some {
                first_fault_is_first(st, n, values.len());
            }
            sized_within_values(st, m, values.len());
            st.field_inserts_len(m, at, values);
            field_inserts_continue(st, start, base, at, m, values);
            extends_is_transitive(ops, start, start + st.field_inserts(m, at, values));
        }
    }
}

proof fn field_moves_continue(
    st: StructType,
    start: Seq<PlacedOp>,
    base: int,
    at: int,
    field: int,
    host: Value,
    layout: LayoutModel,
)
    requires
        is_listing(start, base),
        start.len() == at + 1,
        0 <= base <= at,
        0 <= field,
        rank(host) <= at,
        at + 1 + 2 * st.sized_declared_before(field) <= usize::MAX,
    ensures
        is_listing(start + st.field_moves(field, at, host, layout), base),
        extends(start, start + st.field_moves(field, at, host, layout)),
    decreases field,
{
    let listed = start + st.field_moves(field, at, host, layout);
    assert(listed.take(start.len() as int) =~= start);
    if field == 0 {
        assert(listed =~= start);
    } else {
        let shorter = start + st.field_moves(field - 1, at, host, layout);
        field_moves_continue(st, start, base, at, field - 1, host, layout);
        st.field_moves_len(field - 1, at, host, layout);
        let last = at + 2 * st.sized_declared_before(field - 1);
        if is_sized(st.fields@[field - 1]) {
            let read = extract_op(host, st.place_under(layout, field - 1)->0, last);
            let insert = insert_op(
                last,
                Value::Result((last + 1) as usize),
                st.logical_place_of(field - 1)->0,
                last + 1,
            );
            assert(listed =~= shorter.push(read).push(insert));
            push_continues_listing(shorter, base, read);
            push_continues_listing(shorter.push(read), base, insert);
        } else {
            assert(listed =~= shorter);
        }
    }
}

/// The first fault is a fault of one of the fields looked at, and there is none before it.
pub proof fn first_move_fault_is_within(st: StructType, n: int, layout: LayoutModel)
    requires
        st.first_move_fault(n, layout) is Some,
    ensures
        st.first_move_fault(n, layout) matches Some((field, e)) && 0 <= field < n
            && st.first_move_fault(field, layout) is None && st.move_fault_at(field, layout)
            == Some(e),
    decreases n,
{
    if st.first_move_fault(n - 1, layout) is Some {
        first_move_fault_is_within(st, n - 1, layout);
    }
}

proof fn opaque_struct_continues(
    ops: Seq<PlacedOp>,
    base: int,
    ty: MirType,
    host: Value,
    layout: LayoutModel,
)
    requires
        0 <= base <= ops.len(),
        is_listing(ops, base),
        rank(host) <= ops.len(),
        rebuilt_opaque_struct(ops, number_before(ops.len() as int, base), ty, host, layout).0.len()
            <= usize::MAX,
    ensures
        continues(ops, base, rebuilt_opaque_struct(ops, number_before(ops.len() as int, base), ty, host, layout)),
{
    let prev = number_before(ops.len() as int, base);
    let at = ops.len() as int;
    assert(ops.take(ops.len() as int) =~= ops);
    if ty.converted is Ok {
        if ty.converted->Ok_0.zero_sized {
            zero_sized_continues(ops, base, ty);
        } else if ty.shape is Struct {
            let st = ty.shape->Struct_0;
            let n = st.fields@.len() as int;
            let start = ops.push(undef_op(ty.converted->Ok_0, prev));
            push_continues_listing(ops, base, undef_op(ty.converted->Ok_0, prev));
            if st.places_under(layout)->0 is Ok && st.places_under(st.logical_layout())->0 is Ok {
                let field = match st.first_move_fault(n, layout) {
                    Some((field, _)) => field,
                    None => n,
                };
                if st.first_move_fault(n, layout) is Some {
                    first_move_fault_is_within(st, n, layout);
                }
                st.field_moves_len(field, at, host, layout);
                field_moves_continue(st, start, base, at, field, host, layout);
                extends_is_transitive(
                    ops,
                    start,
                    start + st.field_moves(field, at, host, layout),
                );
            }
        }
    }
}

impl Entry {
    /// The LLVM arguments are arguments of the entry block.
    pub open spec fn takes_block_arguments(&self) -> bool {
        forall|i: int| 0 <= i < self.llvm_args.len() ==> (#[trigger] self.llvm_args[i]) is Argument
    }

    /// What `v` has to be for an argument, given the LLVM arguments that the argument was
    /// flattened to.
    pub open spec fn stands_for(&self, arg: int, ops: Seq<PlacedOp>, v: Value) -> bool {
        let ty = self.types[arg];
        let from = self.flattened(arg);
        if self.is_hosted(arg) {
            if ty.converted->Ok_0.zero_sized {
                is_undefined(ops, v, ty.converted->Ok_0)
            } else {
                &&& base_type(ops, v) == Some(ty.converted->Ok_0.id)
                &&& ty.shape matches TypeShape::Struct(st) && st.is_rebuilt_from_host(
                    ops,
                    v,
                    from[0],
                    self.host_layout_of(arg),
                )
            }
        } else {
            match self.kind_of(arg) {
                Ok(ReconstructKind::Slice) => {
                    &&& base_type(ops, v) == Some(ty.converted->Ok_0.id)
                    &&& field_of(ops, v, 0) == FieldValue::Is(from[0])
                    &&& field_of(ops, v, 1) == FieldValue::Is(from[1])
                },
                Ok(ReconstructKind::Struct(_)) => {
                    &&& base_type(ops, v) == Some(ty.converted->Ok_0.id)
                    &&& ty.shape matches TypeShape::Struct(st) && st.is_rebuilt(ops, v, from)
                },
                Ok(ReconstructKind::Plain) => v == from[0],
                Ok(ReconstructKind::ZeroSized) => is_undefined(ops, v, ty.converted->Ok_0),
                Err(_) => false,
            }
        }
    }

    /// No two sized fields of a struct argument share a place in the value that it is rebuilt to.
    pub open spec fn places_are_distinct(&self) -> bool {
        forall|arg: int|
            0 <= arg < self.types.len() && #[trigger] self.needs_places(arg) ==> {
                let st = self.types[arg].shape->Struct_0;
                if self.is_hosted(arg) {
                    st.logical_places_are_distinct()
                } else {
                    st.places_are_distinct()
                }
            }
    }

    /// Putting one argument together goes on with the listing and gives a value that stands for
    /// the argument.
    proof fn argument_continues(&self, arg: int, base: int, ops: Seq<PlacedOp>)
        requires
            0 <= arg < self.types.len(),
            0 <= base <= ops.len(),
            is_listing(ops, base),
            self.takes_block_arguments(),
            0 <= self.taken_before(arg) <= self.llvm_args.len(),
            self.rebuilt_argument(arg, ops, number_before(ops.len() as int, base)).0.len() <= usize::MAX,
        ensures
            ({
                let (listed, outcome) = self.rebuilt_argument(
                    arg,
                    ops,
                    number_before(ops.len() as int, base),
                );
                &&& is_listing(listed, base)
                &&& extends(ops, listed)
                &&& self.width_of(arg) >= 0
                &&& outcome matches Ok((v, last)) ==> {
                    &&& last == number_before(listed.len() as int, base)
                    &&& rank(v) <= listed.len()
                    &&& self.taken_before(arg) + self.width_of(arg) <= self.llvm_args.len()
                    &&& self.is_reached(arg) && self.places_are_distinct() ==> self.stands_for(
                        arg,
                        listed,
                        v,
                    )
                }
            }),
    {
        let prev = number_before(ops.len() as int, base);
        let (listed, outcome) = self.rebuilt_argument(arg, ops, prev);
        let ty = self.types[arg];
        let from = self.flattened(arg);
        assert(ops.take(ops.len() as int) =~= ops);
        if !self.is_hosted(arg) && self.kind_of(arg) is Err {
        } else if self.taken_before(arg) + self.width_of(arg) > self.llvm_args.len() {
        } else {
            assert forall|k: int| 0 <= k < from.len() implies rank(#[trigger] from[k]) == 0 by {
                assert(from[k] == self.llvm_args[self.taken_before(arg) + k]);
            }
            if self.is_hosted(arg) {
                opaque_struct_continues(ops, base, ty, from[0], self.host_layout_of(arg));
                if outcome is Ok && self.is_reached(arg) && self.places_are_distinct() {
                    if ty.shape is Struct {
                        assert(ty.converted->Ok_0.zero_sized || self.needs_places(arg));
                        opaque_struct_has_its_type(
                            ops,
                            prev,
                            ty,
                            from[0],
                            self.host_layout_of(arg),
                        );
                        opaque_struct_holds_host_fields(
                            ops,
                            prev,
                            ty,
                            ty.shape->Struct_0,
                            from[0],
                            self.host_layout_of(arg),
                        );
                    }
                }
            } else {
                match self.kind_of(arg)->Ok_0 {
                    ReconstructKind::Slice => {
                        slice_continues(ops, base, ty, from[0], from[1]);
                        if outcome is Ok {
                            slice_has_its_type(ops, prev, ty, from[0], from[1]);
                            slice_holds_pointer_and_length(ops, prev, ty, from[0], from[1]);
                        }
                    },
                    ReconstructKind::Struct(_) => {
                        struct_continues(ops, base, ty, from);
                        if outcome is Ok && self.is_reached(arg) && self.places_are_distinct() {
                            let st = ty.shape->Struct_0;
                            assert(!self.opaque.contains(arg));
                            assert(self.needs_places(arg));
                            struct_has_its_type(ops, prev, ty, from);
                            struct_holds_flattened_values(ops, prev, ty, st, from);
                        }
                    },
                    ReconstructKind::Plain => {},
                    ReconstructKind::ZeroSized => {
                        zero_sized_continues(ops, base, ty);
                    },
                }
            }
        }
    }

    /// A value that stands for an argument still does when more operations are listed.
    proof fn standing_is_stable(
        &self,
        arg: int,
        ops: Seq<PlacedOp>,
        longer: Seq<PlacedOp>,
        v: Value,
    )
        requires
            extends(ops, longer),
            rank(v) <= ops.len(),
            self.stands_for(arg, ops, v),
        ensures
            self.stands_for(arg, longer, v),
    {
        let ty = self.types[arg];
        let from = self.flattened(arg);
        assert forall|index: u32| #[trigger] field_of(longer, v, index) == field_of(
            ops,
            v,
            index,
        ) by {
            field_of_is_stable(ops, longer, v, index);
        }
        base_type_is_stable(ops, longer, v);
        assert forall|number: int| 0 <= number < ops.len() implies #[trigger] longer[number]
            == ops[number] by {
            assert(longer.take(ops.len() as int)[number] == longer[number]);
        }
        if self.is_hosted(arg) {
            if !ty.converted->Ok_0.zero_sized {
                let st = ty.shape->Struct_0;
                let layout = self.host_layout_of(arg);
                assert forall|d: int|
                    0 <= d < st.fields@.len() && is_sized(#[trigger] st.fields@[d]) implies st.holds_host_field(
                    longer,
                    v,
                    d,
                    from[0],
                    layout,
                ) by {
                    assert(st.holds_host_field(ops, v, d, from[0], layout));
                }
                assert(st.is_rebuilt_from_host(longer, v, from[0], layout));
            }
        } else if self.kind_of(arg) is Ok && self.kind_of(arg)->Ok_0 is Struct {
            let st = ty.shape->Struct_0;
            assert forall|m: int|
                0 <= m < st.fields@.len() && is_sized(
                    st.fields@[#[trigger] st.declared_at(m)],
                ) implies st.holds_flattened_field(longer, v, m, from) by {
                assert(st.holds_flattened_field(ops, v, m, from));
            }
            assert(st.is_rebuilt(longer, v, from));
        }
    }

    /// A longer prologue begins with the shorter one.
    proof fn prologue_extends(&self, earlier: Seq<PlacedOp>, k: int, n: int)
        requires
            0 <= k <= n <= self.types.len(),
            self.takes_block_arguments(),
            self.prologue(n, earlier).ops.len() <= usize::MAX,
        ensures
            extends(self.prologue(k, earlier).ops, self.prologue(n, earlier).ops),
            self.prologue(n, earlier).failure is None ==> self.prologue(
                k,
                earlier,
            ).failure is None,
        decreases n - k,
    {
        let end = self.prologue(n, earlier);
        if k == n {
            assert(end.ops.take(end.ops.len() as int) =~= end.ops);
        } else {
            self.prologue_step(earlier, n);
            self.prologue_extends(earlier, k, n - 1);
            extends_is_transitive(
                self.prologue(k, earlier).ops,
                self.prologue(n - 1, earlier).ops,
                end.ops,
            );
        }
    }

    /// What one more argument adds to a prologue.
    proof fn prologue_step(&self, earlier: Seq<PlacedOp>, n: int)
        requires
            0 < n <= self.types.len(),
            self.takes_block_arguments(),
            self.prologue(n, earlier).ops.len() <= usize::MAX,
        ensures
            extends(self.prologue(n - 1, earlier).ops, self.prologue(n, earlier).ops),
            self.prologue_is_in_order(earlier, n),
            self.prologue_is_in_order(earlier, n - 1),
        decreases n,
    {
        let before = self.prologue(n - 1, earlier);
        let end = self.prologue(n, earlier);
        // The shorter prologue is no longer than the longer one, whatever its length.
        assert(before.ops.len() <= end.ops.len()) by {
            self.argument_lists_more(n - 1, before.ops, before.last);
        }
        if n > 1 {
            self.prologue_step(earlier, n - 1);
        }
        assert(before.ops.take(before.ops.len() as int) =~= before.ops);
        assert(earlier.take(earlier.len() as int) =~= earlier);
        if before.failure is None {
            self.argument_continues(n - 1, earlier.len() as int, before.ops);
        }
        extends_is_transitive(earlier, before.ops, end.ops);
    }

    /// Putting one argument together lists no fewer operations.
    proof fn argument_lists_more(&self, arg: int, ops: Seq<PlacedOp>, prev: Option<usize>)
        ensures
            ops.len() <= self.rebuilt_argument(arg, ops, prev).0.len(),
    {
    }

    /// The prologue of the first `n` arguments is a listing, its last operation is known, and
    /// while nothing fails it has one value for each argument and takes no more LLVM arguments
    /// than there are.
    pub open spec fn prologue_is_in_order(&self, earlier: Seq<PlacedOp>, n: int) -> bool {
        let end = self.prologue(n, earlier);
        &&& extends(earlier, end.ops)
        &&& is_listing(end.ops, earlier.len() as int)
        &&& end.failure is None ==> {
            &&& end.last == number_before(end.ops.len() as int, earlier.len() as int)
            &&& end.values.len() == n
            &&& forall|i: int| 0 <= i < n ==> rank(#[trigger] end.values[i]) <= end.ops.len()
            &&& 0 <= self.taken_before(n) <= self.llvm_args.len()
        }
    }

    /// The operations of a prologue, finished or not, each stand right behind the one before and
    /// use earlier results only. They stand in front of the operations that were listed before,
    /// which keep their order. A finished prologue has one value for each MIR argument, defined
    /// by its operations, and takes no more LLVM arguments than there are.
    pub proof fn prologue_lists_in_order(&self, earlier: Seq<PlacedOp>)
        requires
            is_placeable(earlier),
            self.takes_block_arguments(),
            self.prologue(self.types.len() as int, earlier).ops.len() <= usize::MAX,
        ensures
            self.prologue_is_in_order(earlier, self.types.len() as int),
            block_order(self.prologue(self.types.len() as int, earlier).ops) == Seq::new(
                (self.prologue(self.types.len() as int, earlier).ops.len() - earlier.len()) as nat,
                |k: int| earlier.len() + k,
            ) + block_order(earlier),
    {
        let n = self.types.len() as int;
        if n > 0 {
            self.prologue_step(earlier, n);
        }
        assert(earlier.take(earlier.len() as int) =~= earlier);
        listing_stands_in_order(earlier, self.prologue(n, earlier).ops);
    }

    /// The values of a prologue do not change when it goes on.
    proof fn prologue_keeps_values(&self, earlier: Seq<PlacedOp>, k: int, n: int)
        requires
            0 <= k <= n <= self.types.len(),
            self.takes_block_arguments(),
            self.prologue(n, earlier).ops.len() <= usize::MAX,
            self.prologue(n, earlier).failure is None,
        ensures
            self.prologue(k, earlier).failure is None,
            forall|i: int|
                0 <= i < k ==> #[trigger] self.prologue(n, earlier).values[i]
                    == self.prologue(k, earlier).values[i],
        decreases n - k,
    {
        if k < n {
            self.prologue_step(earlier, n);
            self.prologue_keeps_values(earlier, k, n - 1);
            if k > 0 {
                self.prologue_extends(earlier, k, n);
                self.prologue_step(earlier, k);
            }
        }
    }

    /// Every MIR argument gets what was passed for it. Where the prologue does not fail, the value
    /// for an argument is the LLVM argument itself, or the slice, the struct or the logical opaque
    /// struct whose fields hold the LLVM arguments that the argument was flattened to, or an
    /// undefined value where the argument takes no space.
    pub proof fn arguments_arrive(&self, arg: int, earlier: Seq<PlacedOp>)
        requires
            0 <= arg < self.types.len(),
            self.takes_block_arguments(),
            self.places_are_distinct(),
            self.prologue(self.types.len() as int, earlier).failure is None,
            self.prologue(self.types.len() as int, earlier).ops.len() <= usize::MAX,
        ensures
            self.stands_for(
                arg,
                self.prologue(self.types.len() as int, earlier).ops,
                self.prologue(self.types.len() as int, earlier).values[arg],
            ),
    {
        let n = self.types.len() as int;
        let before = self.prologue(arg, earlier);
        let after = self.prologue(arg + 1, earlier);
        let end = self.prologue(n, earlier);
        self.prologue_extends(earlier, arg + 1, n);
        self.prologue_step(earlier, arg + 1);
        self.argument_continues(arg, earlier.len() as int, before.ops);
        self.prologue_keeps_values(earlier, arg + 1, n);
        self.prologue_fails_alike(arg, earlier);
        self.standing_is_stable(arg, after.ops, end.ops, after.values[arg]);
        assert(end.values[arg] == after.values[arg]);
    }

    /// The LLVM arguments of different MIR arguments lie apart, in the order of the MIR arguments.
    pub proof fn arguments_lie_apart(&self, first: int, second: int)
        requires
            0 <= first < second < self.types.len(),
        ensures
            self.taken_before(first) + self.width_of(first) <= self.taken_before(second),
        decreases second - first,
    {
        if first < second - 1 {
            self.arguments_lie_apart(first, second - 1);
        }
    }

    /// An argument with a host layout takes exactly one LLVM argument, whatever its type.
    pub proof fn hosted_argument_is_one_value(&self, arg: int)
        requires
            self.is_hosted(arg),
        ensures
            self.width_of(arg) == 1,
    {
    }
}

}
