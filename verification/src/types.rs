//! Argument types as the lowering of a function reads them.
//!
//! Converting a type and placing the fields of an LLVM struct are the work of the type
//! converter. What it answered for an argument type is part of the description of that type.

use vstd::prelude::*;

use crate::error::{ErrorModel, LoweringError, LoweringErrorOf};
use crate::layout::{layout_models, usizes, ExplicitStructLayout, LayoutModel};

verus! {

/// A converted type.
#[derive(Clone, Copy, PartialEq, Eq, Debug, Structural)]
pub struct LlvmType {
    /// What the type converter calls the type.
    pub id: usize,
    /// Whether values of the type take no space.
    pub zero_sized: bool,
}

/// What the type converter answered when it was asked for the places of the fields of a struct in
/// the LLVM struct: a place for each field, in declaration order, or a message.
pub type PlacesAnswer = Result<Vec<Option<u32>>, String>;

/// The places of the fields of a struct under a layout.
pub struct FieldPlaces {
    pub layout: ExplicitStructLayout,
    pub answer: PlacesAnswer,
}

/// A struct type of the MIR.
pub struct StructType {
    /// What each field type converts to, in declaration order.
    pub fields: Vec<Result<LlvmType, String>>,
    /// How the fields lie in memory.
    pub layout: ExplicitStructLayout,
    /// The places of the fields under the layouts that the type converter was asked for.
    pub places: Vec<FieldPlaces>,
}

/// What kind of type an argument has.
pub enum TypeShape {
    /// A slice, `&[T]`.
    Slice,
    /// A slice whose elements each thread has for itself.
    DisjointSlice,
    /// A struct.
    Struct(StructType),
    /// Anything else.
    Other,
}

/// The type of an argument.
pub struct MirType {
    pub shape: TypeShape,
    /// What the type converts to.
    pub converted: Result<LlvmType, String>,
}

/// A field whose value takes space.
pub open spec fn is_sized(field: Result<LlvmType, String>) -> bool {
    field matches Ok(ty) && !ty.zero_sized
}

/// The first answer that is known for a layout.
pub open spec fn answer_for(places: Seq<FieldPlaces>, layout: LayoutModel) -> Option<PlacesAnswer>
    decreases places.len(),
{
    if places.len() == 0 {
        None
    } else if places[0].layout@ == layout {
        Some(places[0].answer)
    } else {
        answer_for(places.skip(1), layout)
    }
}

impl StructType {
    /// What is known of the places of the fields under a layout.
    pub open spec fn places_under(&self, layout: LayoutModel) -> Option<PlacesAnswer> {
        answer_for(self.places@, layout)
    }

    /// The place of a field under a layout.
    pub open spec fn place_under(&self, layout: LayoutModel, field: int) -> Option<u32> {
        self.places_under(layout)->0->Ok_0@[field]
    }

    /// The layout in which the fields lie in declaration order.
    pub open spec fn logical_layout(&self) -> LayoutModel {
        logical_layout_model(self.fields@.len())
    }

    /// Finds what is known of the places of the fields under a layout.
    pub fn find_places(&self, layout: &ExplicitStructLayout) -> (r: Option<&PlacesAnswer>)
        ensures
            match r {
                Some(answer) => self.places_under(layout@) == Some(*answer),
                None => self.places_under(layout@) is None,
            },
    {
        let ghost all = self.places@;
        assert(all.skip(0) =~= all);
        for i in 0..self.places.len()
            invariant
                all == self.places@,
                answer_for(all, layout@) == answer_for(all.skip(i as int), layout@),
        {
            assert(all.skip(i as int).skip(1) =~= all.skip(i + 1));
            if self.places[i].layout.is_same(layout) {
                return Some(&self.places[i].answer);
            }
        }
        assert(all.skip(all.len() as int).len() == 0);
        None
    }
}

/// How an argument is put together again from the LLVM arguments that it was flattened to.
#[derive(Clone, Copy, PartialEq, Eq, Debug, Structural)]
pub enum ReconstructKind {
    /// A slice, from a pointer and a length.
    Slice,
    /// A struct, from as many values as it has fields that take space.
    Struct(usize),
    /// The argument itself.
    Plain,
    /// A value that takes no space and has no LLVM argument.
    ZeroSized,
}

/// How many of the first `n` fields are flattened to an argument. A field whose type does not
/// convert counts.
pub open spec fn flattened_fields(fields: Seq<Result<LlvmType, String>>, n: int) -> nat
    decreases n,
{
    if n <= 0 {
        0
    } else {
        let before = flattened_fields(fields, n - 1);
        if fields[n - 1] is Err || is_sized(fields[n - 1]) {
            before + 1
        } else {
            before
        }
    }
}

/// How a plain argument is put together.
pub open spec fn argument_kind(ty: MirType) -> ReconstructKind {
    match ty.shape {
        TypeShape::Slice => ReconstructKind::Slice,
        TypeShape::DisjointSlice => ReconstructKind::Slice,
        TypeShape::Struct(st) => ReconstructKind::Struct(
            flattened_fields(st.fields@, st.fields@.len() as int) as usize,
        ),
        TypeShape::Other => ReconstructKind::Plain,
    }
}

/// There are no more flattened fields than fields.
pub proof fn flattened_fields_are_fields(fields: Seq<Result<LlvmType, String>>, n: int)
    requires
        0 <= n,
    ensures
        flattened_fields(fields, n) <= n,
    decreases n,
{
    if n > 0 {
        flattened_fields_are_fields(fields, n - 1);
    }
}

/// Decides how a plain argument is put together.
pub fn classify_argument_type(arg_ty: &MirType) -> (r: ReconstructKind)
    ensures
        r == argument_kind(*arg_ty),
{
    match &arg_ty.shape {
        TypeShape::Slice => ReconstructKind::Slice,
        TypeShape::DisjointSlice => ReconstructKind::Slice,
        TypeShape::Struct(st) => {
            let mut count: usize = 0;
            for i in 0..st.fields.len()
                invariant
                    count == flattened_fields(st.fields@, i as int),
                    count <= i,
            {
                let flattened: bool = match &st.fields[i] {
                    Ok(ty) => !ty.zero_sized,
                    Err(_) => true,
                };
                if flattened {
                    count = count + 1;
                }
            }
            ReconstructKind::Struct(count)
        },
        TypeShape::Other => ReconstructKind::Plain,
    }
}

/// How an opaque argument without a host layout is put together: it takes one LLVM argument
/// unless it takes no space.
pub open spec fn opaque_argument_kind(ty: MirType) -> Result<ReconstructKind, ErrorModel> {
    match ty.converted {
        Ok(converted) => if converted.zero_sized {
            Ok(ReconstructKind::ZeroSized)
        } else {
            Ok(ReconstructKind::Plain)
        },
        Err(text) => Err(LoweringErrorOf::Outside { text: text@ }),
    }
}

/// Decides how an opaque argument without a host layout is put together.
pub fn classify_opaque_argument_type(arg_ty: &MirType) -> (r: Result<
    ReconstructKind,
    LoweringError,
>)
    ensures
        match r {
            Ok(kind) => opaque_argument_kind(*arg_ty) == Ok::<ReconstructKind, ErrorModel>(kind),
            Err(e) => opaque_argument_kind(*arg_ty) == Err::<ReconstructKind, ErrorModel>(e@),
        },
{
    match &arg_ty.converted {
        Ok(converted) => if converted.zero_sized {
            Ok(ReconstructKind::ZeroSized)
        } else {
            Ok(ReconstructKind::Plain)
        },
        Err(text) => Err(LoweringErrorOf::Outside { text: text.clone() }),
    }
}

/// The struct that a type is, or a failure where it is none.
pub fn struct_layout_for_mir_type(mir_ty: &MirType) -> (r: Result<&StructType, LoweringError>)
    ensures
        match r {
            Ok(st) => mir_ty.shape == TypeShape::Struct(*st),
            Err(e) => e@ == ErrorModel::NotAStruct && !(mir_ty.shape is Struct),
        },
{
    match &mir_ty.shape {
        TypeShape::Struct(st) => Ok(st),
        _ => Err(LoweringErrorOf::NotAStruct),
    }
}

/// The places of the fields of a struct under a layout that the type converter was asked for.
pub fn llvm_field_indices_for_struct<'a>(
    st: &'a StructType,
    layout: &ExplicitStructLayout,
) -> (r: Result<&'a Vec<Option<u32>>, LoweringError>)
    requires
        st.places_under(layout@) is Some,
    ensures
        match r {
            Ok(indices) => st.places_under(layout@) == Some::<PlacesAnswer>(Ok(*indices)),
            Err(e) => st.places_under(layout@) matches Some(Err(text)) && e@
                == (ErrorModel::Outside { text: text@ }),
        },
{
    match st.find_places(layout) {
        Some(Ok(indices)) => Ok(indices),
        Some(Err(text)) => Err(LoweringErrorOf::Outside { text: text.clone() }),
        None => vstd::pervasive::unreached(),
    }
}

/// The layout of a struct whose `n` fields lie in declaration order, with no offsets stated.
pub open spec fn logical_layout_model(n: nat) -> LayoutModel {
    LayoutModel {
        mem_to_decl: Seq::new(n, |i: int| i),
        field_offsets: Seq::empty(),
        total_size: 0,
    }
}

/// The layout of a struct whose `n` fields lie in declaration order.
pub fn logical_layout(n: usize) -> (r: ExplicitStructLayout)
    ensures
        r@ == logical_layout_model(n as nat),
{
    let mut mem_to_decl: Vec<usize> = Vec::new();
    for i in 0..n
        invariant
            usizes(mem_to_decl@) == Seq::new(i as nat, |k: int| k),
    {
        let ghost before = usizes(mem_to_decl@);
        mem_to_decl.push(i);
        assert(usizes(mem_to_decl@) =~= before.push(i as int));
        assert(before.push(i as int) =~= Seq::new((i + 1) as nat, |k: int| k));
    }
    let layout: ExplicitStructLayout = ExplicitStructLayout {
        mem_to_decl,
        field_offsets: Vec::new(),
        total_size: 0,
    };
    assert(layout@ =~= logical_layout_model(n as nat));
    layout
}

/// The first layout that is given for an argument.
pub open spec fn host_layout(layouts: Seq<(int, LayoutModel)>, arg: int) -> Option<LayoutModel>
    decreases layouts.len(),
{
    if layouts.len() == 0 {
        None
    } else if layouts[0].0 == arg {
        Some(layouts[0].1)
    } else {
        host_layout(layouts.skip(1), arg)
    }
}

/// Finds the first layout that is given for an argument.
pub fn find_host_layout(layouts: &[(usize, ExplicitStructLayout)], arg: usize) -> (r: Option<
    &ExplicitStructLayout,
>)
    ensures
        match r {
            Some(layout) => host_layout(layout_models(layouts@), arg as int) == Some(layout@),
            None => host_layout(layout_models(layouts@), arg as int) is None,
        },
{
    let ghost models = layout_models(layouts@);
    assert(models.skip(0) =~= models);
    for i in 0..layouts.len()
        invariant
            models == layout_models(layouts@),
            host_layout(models, arg as int) == host_layout(models.skip(i as int), arg as int),
    {
        assert(models.skip(i as int).skip(1) =~= models.skip(i + 1));
        assert(models.skip(i as int)[0] == (layouts@[i as int].0 as int, layouts@[i as int].1@));
        if layouts[i].0 == arg {
            return Some(&layouts[i].1);
        }
    }
    assert(models.skip(models.len() as int).len() == 0);
    None
}

}
