//! When an entry prologue succeeds.

use vstd::prelude::*;

use crate::layout::LayoutModel;
use crate::prologue::{rebuilt_opaque_struct, rebuilt_struct, Entry, PlacedOp, Value};
use crate::types::{
    flattened_fields, flattened_fields_are_fields, is_sized, MirType, StructType, TypeShape,
};

verus! {

impl StructType {
    /// Every field type converts.
    pub open spec fn fields_convert(&self) -> bool {
        forall|field: int| 0 <= field < self.fields@.len() ==> (#[trigger] self.fields@[field]) is Ok
    }

    /// The memory order lists each field once.
    pub open spec fn order_lists_each_field(&self) -> bool {
        let n = self.fields@.len() as int;
        &&& forall|m: int| 0 <= m < n ==> 0 <= #[trigger] self.declared_at(m) < n
        &&& forall|m: int, k: int|
            0 <= m < k < n ==> #[trigger] self.declared_at(m) != #[trigger] self.declared_at(k)
        &&& forall|field: int| 0 <= field < n ==> #[trigger] self.is_listed(field)
    }

    /// The memory order lists a field.
    pub open spec fn is_listed(&self, field: int) -> bool {
        exists|m: int| 0 <= m < self.fields@.len() && #[trigger] self.declared_at(m) == field
    }

    /// The struct can be rebuilt of its flattened fields: its fields convert, the memory order
    /// lists each of them once, and each sized field has a place.
    pub open spec fn is_rebuildable(&self) -> bool {
        &&& self.places_under(self.layout@)->0 is Ok
        &&& self.fields_convert()
        &&& self.order_lists_each_field()
        &&& forall|field: int|
            0 <= field < self.fields@.len() && is_sized(#[trigger] self.fields@[field])
                ==> self.place_of(field) is Some
    }

    /// The struct can be rebuilt of a value in a host layout: its fields convert, and each sized
    /// field has a place in both layouts.
    pub open spec fn is_rebuildable_from_host(&self, layout: LayoutModel) -> bool {
        &&& self.places_under(layout)->0 is Ok
        &&& self.places_under(self.logical_layout())->0 is Ok
        &&& self.fields_convert()
        &&& forall|field: int|
            0 <= field < self.fields@.len() && is_sized(#[trigger] self.fields@[field])
                ==> self.place_under(layout, field) is Some && self.logical_place_of(field) is Some
    }

    /// The sized fields at memory positions before `m`.
    spec fn sized_by_memory(&self, m: int) -> Set<int> {
        Set::new(
            |field: int|
                is_sized(self.fields@[field]) && exists|k: int|
                    0 <= k < m && #[trigger] self.declared_at(k) == field,
        )
    }

    /// The sized fields declared before `field`.
    spec fn sized_by_declaration(&self, field: int) -> Set<int> {
        Set::new(|k: int| 0 <= k < field && is_sized(self.fields@[k]))
    }

    proof fn sized_by_memory_len(&self, m: int)
        requires
            0 <= m <= self.fields@.len(),
            self.order_lists_each_field(),
        ensures
            self.sized_by_memory(m).finite(),
            self.sized_by_memory(m).len() == self.sized_before(m),
        decreases m,
    {
        if m == 0 {
            assert(self.sized_by_memory(m) =~= Set::empty());
        } else {
            self.sized_by_memory_len(m - 1);
            let before = self.sized_by_memory(m - 1);
            let field = self.declared_at(m - 1);
            assert(!before.contains(field));
            assert forall|other: int| #[trigger] self.sized_by_memory(m).contains(other) == (
            before.contains(other) || other == field && is_sized(self.fields@[field])) by {
                if before.contains(other) {
                    let k = choose|k: int| 0 <= k < m - 1 && #[trigger] self.declared_at(k) == other;
                    assert(self.declared_at(k) == other);
                }
            }
            if is_sized(self.fields@[field]) {
                assert(self.sized_by_memory(m) =~= before.insert(field));
            } else {
                assert(self.sized_by_memory(m) =~= before);
            }
        }
    }

    proof fn sized_by_declaration_len(&self, field: int)
        requires
            0 <= field <= self.fields@.len(),
            self.fields_convert(),
        ensures
            self.sized_by_declaration(field).finite(),
            self.sized_by_declaration(field).len() == flattened_fields(self.fields@, field),
        decreases field,
    {
        if field == 0 {
            assert(self.sized_by_declaration(field) =~= Set::empty());
        } else {
            self.sized_by_declaration_len(field - 1);
            let before = self.sized_by_declaration(field - 1);
            assert(self.fields@[field - 1] is Ok);
            if is_sized(self.fields@[field - 1]) {
                assert(self.sized_by_declaration(field) =~= before.insert(field - 1));
            } else {
                assert(self.sized_by_declaration(field) =~= before);
            }
        }
    }

    /// A struct is rebuilt of exactly as many values as it is flattened to.
    pub proof fn takes_what_it_is_flattened_to(&self)
        requires
            self.fields_convert(),
            self.order_lists_each_field(),
        ensures
            self.sized_before(self.fields@.len() as int) == flattened_fields(
                self.fields@,
                self.fields@.len() as int,
            ),
    {
        let n = self.fields@.len() as int;
        self.sized_by_memory_len(n);
        self.sized_by_declaration_len(n);
        assert forall|field: int| #[trigger] self.sized_by_memory(n).contains(field)
            == self.sized_by_declaration(n).contains(field) by {
            if self.sized_by_memory(n).contains(field) {
                let m = choose|m: int| 0 <= m < n && #[trigger] self.declared_at(m) == field;
                assert(self.declared_at(m) == field);
            } else if 0 <= field < n {
                assert(self.is_listed(field));
            }
        }
        assert(self.sized_by_memory(n) =~= self.sized_by_declaration(n));
    }

    proof fn no_fault_where_rebuildable(&self, m: int, count: nat)
        requires
            0 <= m <= self.fields@.len(),
            self.is_rebuildable(),
            self.sized_before(self.fields@.len() as int) <= count,
        ensures
            self.first_fault(m, count) is None,
        decreases m,
    {
        if m > 0 {
            self.no_fault_where_rebuildable(m - 1, count);
            assert(self.fields@[self.declared_at(m - 1)] is Ok);
            self.sized_before_grows(m, self.fields@.len() as int);
        }
    }

    proof fn no_move_fault_where_rebuildable(&self, field: int, layout: LayoutModel)
        requires
            0 <= field <= self.fields@.len(),
            self.is_rebuildable_from_host(layout),
        ensures
            self.first_move_fault(field, layout) is None,
        decreases field,
    {
        if field > 0 {
            self.no_move_fault_where_rebuildable(field - 1, layout);
            assert(self.fields@[field - 1] is Ok);
        }
    }
}

/// A rebuildable struct is rebuilt of the values that it was flattened to.
pub proof fn struct_is_rebuilt(
    ops: Seq<PlacedOp>,
    prev: Option<usize>,
    ty: MirType,
    st: StructType,
    values: Seq<Value>,
)
    requires
        ty.converted is Ok,
        ty.shape == TypeShape::Struct(st),
        st.is_rebuildable(),
        values.len() == flattened_fields(st.fields@, st.fields@.len() as int),
    ensures
        rebuilt_struct(ops, prev, ty, values).1 is Ok,
{
    st.takes_what_it_is_flattened_to();
    st.no_fault_where_rebuildable(st.fields@.len() as int, values.len());
}

/// A struct that is rebuildable from a host layout is rebuilt of any value.
pub proof fn opaque_struct_is_rebuilt(
    ops: Seq<PlacedOp>,
    prev: Option<usize>,
    ty: MirType,
    st: StructType,
    host: Value,
    layout: LayoutModel,
)
    requires
        ty.converted is Ok,
        ty.shape == TypeShape::Struct(st),
        st.is_rebuildable_from_host(layout),
    ensures
        rebuilt_opaque_struct(ops, prev, ty, host, layout).1 is Ok,
{
    st.no_move_fault_where_rebuildable(st.fields@.len() as int, layout);
}

impl Entry {
    /// An argument can be put together: its type converts, unless the LLVM argument is passed on
    /// as it is, and a struct that is rebuilt of its fields is rebuildable.
    pub open spec fn is_lowerable(&self, arg: int) -> bool {
        let ty = self.types[arg];
        if self.is_hosted(arg) {
            ty.converted matches Ok(converted) && (converted.zero_sized || (
            ty.shape matches TypeShape::Struct(st) && st.is_rebuildable_from_host(
                self.host_layout_of(arg),
            )))
        } else if self.opaque.contains(arg) {
            ty.converted is Ok
        } else {
            match ty.shape {
                TypeShape::Slice => ty.converted is Ok,
                TypeShape::DisjointSlice => ty.converted is Ok,
                TypeShape::Struct(st) => ty.converted is Ok && st.is_rebuildable(),
                TypeShape::Other => true,
            }
        }
    }

    /// Arguments take no fewer LLVM arguments than the first of them.
    proof fn taken_before_grows(&self, k: int, n: int)
        requires
            k <= n,
        ensures
            self.taken_before(k) <= self.taken_before(n),
        decreases n - k,
    {
        if k < n {
            self.taken_before_grows(k, n - 1);
        }
    }

    /// A prologue succeeds where every argument can be put together and there are as many LLVM
    /// arguments as the MIR arguments are flattened to.
    pub proof fn prologue_succeeds(&self, n: int, ops: Seq<PlacedOp>)
        requires
            0 <= n <= self.types.len(),
            forall|arg: int| 0 <= arg < n ==> #[trigger] self.is_lowerable(arg),
            self.taken_before(n) <= self.llvm_args.len(),
        ensures
            self.prologue(n, ops).failure is None,
        decreases n,
    {
        if n > 0 {
            let arg = n - 1;
            self.taken_before_grows(arg, n);
            self.taken_before_grows(0, arg);
            self.prologue_succeeds(arg, ops);
            let before = self.prologue(arg, ops);
            let ty = self.types[arg];
            let from = self.flattened(arg);
            assert(self.is_lowerable(arg));
            if self.is_hosted(arg) {
                if !ty.converted->Ok_0.zero_sized {
                    opaque_struct_is_rebuilt(
                        before.ops,
                        before.last,
                        ty,
                        ty.shape->Struct_0,
                        from[0],
                        self.host_layout_of(arg),
                    );
                }
            } else if self.kind_of(arg)->Ok_0 is Struct {
                let st = ty.shape->Struct_0;
                assert(!self.opaque.contains(arg));
                assert(st.fields.len() == st.fields@.len());
                flattened_fields_are_fields(st.fields@, st.fields@.len() as int);
                struct_is_rebuilt(before.ops, before.last, ty, st, from);
            }
        }
    }
}

}
