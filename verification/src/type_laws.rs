//! How arguments are flattened, and which layouts and places are found.

use vstd::prelude::*;

use crate::error::{ErrorModel, LoweringErrorOf};
use crate::layout::LayoutModel;
use crate::types::{
    answer_for, argument_kind, flattened_fields, flattened_fields_are_fields, host_layout,
    is_sized, logical_layout_model, opaque_argument_kind, FieldPlaces, LlvmType, MirType,
    ReconstructKind, StructType, TypeShape,
};

verus! {

proof fn flattened_fields_are_filtered(fields: Seq<Result<LlvmType, String>>, n: int)
    requires
        0 <= n <= fields.len(),
    ensures
        flattened_fields(fields, n) == fields.take(n).filter(
            |f: Result<LlvmType, String>| f is Err || !f->Ok_0.zero_sized,
        ).len(),
    decreases n,
{
    let p = |f: Result<LlvmType, String>| f is Err || !f->Ok_0.zero_sized;
    reveal(Seq::filter);
    if n > 0 {
        flattened_fields_are_filtered(fields, n - 1);
        assert(fields.take(n).drop_last() =~= fields.take(n - 1));
        assert(fields.take(n).last() == fields[n - 1]);
    }
}

/// A slice of either kind is a pointer and a length, a struct is one value for each field that
/// does not take no space, and anything else is passed as it is, whatever it converts to.
pub proof fn arguments_are_flattened_by_shape(ty: MirType)
    ensures
        ty.shape is Slice || ty.shape is DisjointSlice <==> argument_kind(ty) is Slice,
        ty.shape is Other <==> argument_kind(ty) is Plain,
        !(argument_kind(ty) is ZeroSized),
        ty.shape matches TypeShape::Struct(st) ==> (argument_kind(
            ty,
        ) matches ReconstructKind::Struct(count) && count == st.fields@.filter(
            |f: Result<LlvmType, String>| f is Err || !f->Ok_0.zero_sized,
        ).len()),
{
    if let TypeShape::Struct(st) = ty.shape {
        let n = st.fields@.len() as int;
        assert(st.fields.len() == st.fields@.len());
        assert(st.fields@.take(n) =~= st.fields@);
        flattened_fields_are_filtered(st.fields@, n);
        flattened_fields_are_fields(st.fields@, n);
    }
}

/// An opaque argument is one value, or none where it takes no space, whatever its shape. One that
/// does not convert fails as the conversion does.
pub proof fn opaque_arguments_are_one_value(ty: MirType)
    ensures
        ty.converted matches Ok(t) && t.zero_sized ==> opaque_argument_kind(ty) == Ok::<
            ReconstructKind,
            ErrorModel,
        >(ReconstructKind::ZeroSized),
        ty.converted matches Ok(t) && !t.zero_sized ==> opaque_argument_kind(ty) == Ok::<
            ReconstructKind,
            ErrorModel,
        >(ReconstructKind::Plain),
        ty.converted matches Err(text) ==> opaque_argument_kind(ty) == Err::<
            ReconstructKind,
            ErrorModel,
        >(LoweringErrorOf::Outside { text: text@ }),
{
}

/// A field is sized exactly where its type converts to one that takes space.
pub proof fn sized_fields_take_space(field: Result<LlvmType, String>)
    ensures
        is_sized(field) <==> field is Ok && !field->Ok_0.zero_sized,
{
}

/// The host layout of an argument is the first that is given for it.
pub proof fn first_host_layout(layouts: Seq<(int, LayoutModel)>, arg: int, i: int)
    ensures
        0 <= i < layouts.len() && layouts[i].0 == arg && (forall|j: int|
            0 <= j < i ==> (#[trigger] layouts[j]).0 != arg) ==> host_layout(layouts, arg) == Some(
            layouts[i].1,
        ),
        (forall|j: int| 0 <= j < layouts.len() ==> (#[trigger] layouts[j]).0 != arg)
            <==> host_layout(layouts, arg) is None,
    decreases layouts.len(),
{
    if layouts.len() > 0 {
        let rest = layouts.skip(1);
        first_host_layout(rest, arg, i - 1);
        assert forall|j: int| 0 <= j < rest.len() implies rest[j] == layouts[j + 1] by {}
        if layouts[0].0 != arg {
            if host_layout(rest, arg) is None {
                assert forall|j: int| 0 <= j < layouts.len() implies (#[trigger] layouts[j]).0
                    != arg by {
                    if j > 0 {
                        assert(rest[j - 1].0 != arg);
                    }
                }
            }
            if forall|j: int| 0 <= j < layouts.len() ==> (#[trigger] layouts[j]).0 != arg {
                assert forall|j: int| 0 <= j < rest.len() implies (#[trigger] rest[j]).0 != arg by {
                    assert(layouts[j + 1].0 != arg);
                }
            }
            if 0 < i < layouts.len() && layouts[i].0 == arg && (forall|j: int|
                0 <= j < i ==> (#[trigger] layouts[j]).0 != arg) {
                assert forall|j: int| 0 <= j < i - 1 implies (#[trigger] rest[j]).0 != arg by {
                    assert(layouts[j + 1].0 != arg);
                }
                assert(rest[i - 1] == layouts[i]);
            }
        }
    }
}

/// What is known of the places under a layout is the first answer for exactly that layout.
pub proof fn first_answer(places: Seq<FieldPlaces>, layout: LayoutModel, i: int)
    ensures
        0 <= i < places.len() && places[i].layout@ == layout && (forall|j: int|
            0 <= j < i ==> (#[trigger] places[j]).layout@ != layout) ==> answer_for(places, layout)
            == Some(places[i].answer),
        (forall|j: int| 0 <= j < places.len() ==> (#[trigger] places[j]).layout@ != layout)
            <==> answer_for(places, layout) is None,
    decreases places.len(),
{
    if places.len() > 0 {
        let rest = places.skip(1);
        first_answer(rest, layout, i - 1);
        assert forall|j: int| 0 <= j < rest.len() implies rest[j] == places[j + 1] by {}
        if places[0].layout@ != layout {
            if answer_for(rest, layout) is None {
                assert forall|j: int| 0 <= j < places.len() implies (#[trigger] places[j]).layout@
                    != layout by {
                    if j > 0 {
                        assert(rest[j - 1].layout@ != layout);
                    }
                }
            }
            if forall|j: int| 0 <= j < places.len() ==> (#[trigger] places[j]).layout@ != layout {
                assert forall|j: int| 0 <= j < rest.len() implies (#[trigger] rest[j]).layout@
                    != layout by {
                    assert(places[j + 1].layout@ != layout);
                }
            }
            if 0 < i < places.len() && places[i].layout@ == layout && (forall|j: int|
                0 <= j < i ==> (#[trigger] places[j]).layout@ != layout) {
                assert forall|j: int| 0 <= j < i - 1 implies (#[trigger] rest[j]).layout@
                    != layout by {
                    assert(places[j + 1].layout@ != layout);
                }
                assert(rest[i - 1] == places[i]);
            }
        }
    }
}

/// The layout of declaration order lists the fields as they are declared and states no offsets.
pub proof fn declaration_order(n: nat)
    ensures
        logical_layout_model(n).mem_to_decl.len() == n,
        forall|i: int| 0 <= i < n ==> #[trigger] logical_layout_model(n).mem_to_decl[i] == i,
        logical_layout_model(n).field_offsets.len() == 0,
        logical_layout_model(n).total_size == 0,
{
}

impl StructType {
    /// Where a struct's fields lie: its own layout and declaration order have the places that the
    /// type converter answered for exactly these layouts, and the memory order names the fields.
    pub proof fn places_are_those_answered(&self, layout: LayoutModel, field: int, m: int)
        ensures
            self.places_under(layout) == answer_for(self.places@, layout),
            self.logical_layout() == logical_layout_model(self.fields@.len()),
            answer_for(self.places@, layout) matches Some(Ok(places)) ==> self.place_under(
                layout,
                field,
            ) == places@[field],
            answer_for(self.places@, self.layout@) matches Some(Ok(places)) ==> self.place_of(field)
                == places@[field],
            answer_for(
                self.places@,
                logical_layout_model(self.fields@.len()),
            ) matches Some(Ok(places)) ==> self.logical_place_of(field) == places@[field],
            self.declared_at(m) == self.layout.mem_to_decl@[m],
    {
    }

    /// How many sized fields come before a position, in memory and in declaration order.
    pub proof fn sized_fields_are_counted(&self, m: int)
        requires
            0 <= m,
        ensures
            self.sized_before(0) == 0,
            self.sized_declared_before(0) == 0,
            ({
                let field = self.fields@[self.layout.mem_to_decl@[m] as int];
                self.sized_before(m + 1) == self.sized_before(m) + if field is Ok
                    && !field->Ok_0.zero_sized {
                    1int
                } else {
                    0int
                }
            }),
            self.sized_declared_before(m + 1) == self.sized_declared_before(m)
                + if self.fields@[m] is Ok && !self.fields@[m]->Ok_0.zero_sized {
                1int
            } else {
                0int
            },
    {
    }
}

}
