//! Which LLVM arguments each MIR argument gets, and what comes of it.

use vstd::prelude::*;

use crate::error::{ErrorModel, LoweringErrorOf};
use crate::layout::{ExplicitStructLayout, LayoutModel};
use crate::prologue::{
    entry, rebuilt_opaque_struct, rebuilt_slice, rebuilt_struct, rebuilt_zero_sized, Entry, Op,
    PlacedOp, Progress, Rebuilt, Value,
};
use crate::semantics::{base_type, field_of, FieldValue};
use crate::type_laws::{
    arguments_are_flattened_by_shape, first_host_layout, opaque_arguments_are_one_value,
};
use crate::types::{is_sized, LlvmType, MirType, StructType, TypeShape};

verus! {

/// An entry holds what the call was given: the types, the LLVM arguments, the opaque indices and
/// the host layouts, all of them in their order.
pub proof fn entry_holds_the_arguments_of_the_call(
    types: Seq<MirType>,
    llvm_args: Seq<Value>,
    indices: Seq<usize>,
    layouts: Seq<(usize, ExplicitStructLayout)>,
)
    ensures
        ({
            let e = entry(types, llvm_args, indices, layouts);
            &&& e.types == types
            &&& e.llvm_args == llvm_args
            &&& e.opaque.len() == indices.len()
            &&& forall|i: int| 0 <= i < indices.len() ==> #[trigger] e.opaque[i] == indices[i]
            &&& e.layouts.len() == layouts.len()
            &&& forall|i: int|
                0 <= i < layouts.len() ==> (#[trigger] e.layouts[i]).0 == layouts[i].0
                    && e.layouts[i].1 == layouts[i].1@
        }),
{
}

/// A rebuilding step of one argument lists and returns what a rebuilt value says.
pub open spec fn is_step_of(
    step: (Seq<PlacedOp>, Result<(Value, Option<usize>), ErrorModel>),
    rebuilt: Rebuilt,
) -> bool {
    &&& step.0 == rebuilt.0
    &&& rebuilt.1 matches Ok((value, last)) ==> step.1 == Ok::<
        (Value, Option<usize>),
        ErrorModel,
    >((value, Some(last)))
    &&& rebuilt.1 matches Err(e) ==> step.1 == Err::<(Value, Option<usize>), ErrorModel>(e)
}

impl Entry {
    /// An argument has a host layout exactly where one is given for it, and it has the first.
    pub proof fn hosted_arguments_have_a_layout(&self, arg: int, i: int)
        ensures
            !self.is_hosted(arg) <==> forall|j: int|
                0 <= j < self.layouts.len() ==> (#[trigger] self.layouts[j]).0 != arg,
            0 <= i < self.layouts.len() && self.layouts[i].0 == arg && (forall|j: int|
                0 <= j < i ==> (#[trigger] self.layouts[j]).0 != arg) ==> self.host_layout_of(arg)
                == self.layouts[i].1,
    {
        first_host_layout(self.layouts, arg, i);
    }

    /// The LLVM arguments of an argument begin where those of the arguments before it end. An
    /// argument with a host layout takes one, an opaque one takes one unless it takes no space, a
    /// slice takes two, a struct one for each field that does not take no space, and anything else
    /// one.
    pub proof fn arguments_take_llvm_arguments_in_turn(&self, arg: int)
        requires
            0 <= arg,
        ensures
            self.taken_before(0) == 0,
            self.is_hosted(arg) ==> self.taken_before(arg + 1) == self.taken_before(arg) + 1,
            !self.is_hosted(arg) && self.opaque.contains(arg) ==> match self.types[arg].converted {
                Ok(t) => self.taken_before(arg + 1) == self.taken_before(arg) + if t.zero_sized {
                    0int
                } else {
                    1int
                },
                Err(_) => self.taken_before(arg + 1) == self.taken_before(arg),
            },
            !self.is_hosted(arg) && !self.opaque.contains(arg) ==> match self.types[arg].shape {
                TypeShape::Slice => self.taken_before(arg + 1) == self.taken_before(arg) + 2,
                TypeShape::DisjointSlice => self.taken_before(arg + 1) == self.taken_before(arg)
                    + 2,
                TypeShape::Struct(st) => self.taken_before(arg + 1) == self.taken_before(arg)
                    + st.fields@.filter(
                    |f: Result<LlvmType, String>| f is Err || !f->Ok_0.zero_sized,
                ).len(),
                TypeShape::Other => self.taken_before(arg + 1) == self.taken_before(arg) + 1,
            },
    {
        arguments_are_flattened_by_shape(self.types[arg]);
        opaque_arguments_are_one_value(self.types[arg]);
    }

    proof fn taken_is_positive(&self, arg: int)
        ensures
            self.taken_before(arg) >= 0,
        decreases arg,
    {
        if arg > 0 {
            self.taken_is_positive(arg - 1);
        }
    }

    /// What an argument with a host layout comes to: the struct that is rebuilt of the next LLVM
    /// argument in that layout, or a failure that names the argument where none is left.
    pub proof fn hosted_argument_takes_the_next(
        &self,
        arg: int,
        ops: Seq<PlacedOp>,
        prev: Option<usize>,
    )
        requires
            0 <= arg,
            self.is_hosted(arg),
        ensures
            ({
                let t = self.taken_before(arg);
                let step = self.rebuilt_argument(arg, ops, prev);
                if t + 1 > self.llvm_args.len() {
                    step == (
                        ops,
                        Err::<(Value, Option<usize>), ErrorModel>(
                            LoweringErrorOf::NoArgForOpaqueStruct { arg: arg as usize },
                        ),
                    )
                } else {
                    is_step_of(
                        step,
                        rebuilt_opaque_struct(
                            ops,
                            prev,
                            self.types[arg],
                            self.llvm_args[t],
                            self.host_layout_of(arg),
                        ),
                    )
                }
            }),
    {
        self.taken_is_positive(arg);
    }

    /// What an opaque argument without a host layout comes to: the next LLVM argument, or an
    /// undefined value where it takes no space. A type that does not convert is a failure, and so
    /// is a want of LLVM arguments.
    pub proof fn opaque_argument_takes_the_next(
        &self,
        arg: int,
        ops: Seq<PlacedOp>,
        prev: Option<usize>,
    )
        requires
            0 <= arg,
            !self.is_hosted(arg),
            self.opaque.contains(arg),
        ensures
            ({
                let t = self.taken_before(arg);
                let step = self.rebuilt_argument(arg, ops, prev);
                match self.types[arg].converted {
                    Err(text) => step == (
                        ops,
                        Err::<(Value, Option<usize>), ErrorModel>(
                            LoweringErrorOf::Outside { text: text@ },
                        ),
                    ),
                    Ok(converted) => if converted.zero_sized {
                        t <= self.llvm_args.len() ==> is_step_of(
                            step,
                            rebuilt_zero_sized(ops, prev, self.types[arg]),
                        )
                    } else if t + 1 > self.llvm_args.len() {
                        step == (
                            ops,
                            Err::<(Value, Option<usize>), ErrorModel>(LoweringErrorOf::NoMoreArgs),
                        )
                    } else {
                        step == (
                            ops,
                            Ok::<(Value, Option<usize>), ErrorModel>((self.llvm_args[t], prev)),
                        )
                    },
                }
            }),
    {
        self.taken_is_positive(arg);
        opaque_arguments_are_one_value(self.types[arg]);
    }

    /// What any other argument comes to: a slice is rebuilt of the next two LLVM arguments, the
    /// pointer and the length; a struct is rebuilt of as many as it is flattened to, the next of
    /// them for the next field; and anything else is the next LLVM argument. Each has a failure of
    /// its own where too few are left.
    pub proof fn plain_argument_takes_the_next(
        &self,
        arg: int,
        ops: Seq<PlacedOp>,
        prev: Option<usize>,
    )
        requires
            0 <= arg,
            !self.is_hosted(arg),
            !self.opaque.contains(arg),
        ensures
            ({
                let t = self.taken_before(arg);
                let ty = self.types[arg];
                let left = self.llvm_args.len() - t;
                let step = self.rebuilt_argument(arg, ops, prev);
                match ty.shape {
                    TypeShape::Struct(st) => {
                        let count = st.fields@.filter(
                            |f: Result<LlvmType, String>| f is Err || !f->Ok_0.zero_sized,
                        ).len();
                        if left < count {
                            step == (
                                ops,
                                Err::<(Value, Option<usize>), ErrorModel>(
                                    LoweringErrorOf::TooFewArgsForStruct {
                                        fields: count as usize,
                                    },
                                ),
                            )
                        } else {
                            is_step_of(
                                step,
                                rebuilt_struct(
                                    ops,
                                    prev,
                                    ty,
                                    Seq::new(count, |i: int| self.llvm_args[t + i]),
                                ),
                            )
                        }
                    },
                    TypeShape::Other => if left < 1 {
                        step == (
                            ops,
                            Err::<(Value, Option<usize>), ErrorModel>(LoweringErrorOf::NoMoreArgs),
                        )
                    } else {
                        step == (
                            ops,
                            Ok::<(Value, Option<usize>), ErrorModel>((self.llvm_args[t], prev)),
                        )
                    },
                    _ => if left < 2 {
                        step == (
                            ops,
                            Err::<(Value, Option<usize>), ErrorModel>(
                                LoweringErrorOf::TooFewArgsForSlice,
                            ),
                        )
                    } else {
                        is_step_of(
                            step,
                            rebuilt_slice(
                                ops,
                                prev,
                                ty,
                                self.llvm_args[t],
                                self.llvm_args[t + 1],
                            ),
                        )
                    },
                }
            }),
    {
        self.taken_is_positive(arg);
        let ty = self.types[arg];
        arguments_are_flattened_by_shape(ty);
        if let TypeShape::Struct(st) = ty.shape {
            let t = self.taken_before(arg);
            let count = st.fields@.filter(
                |f: Result<LlvmType, String>| f is Err || !f->Ok_0.zero_sized,
            ).len();
            if self.llvm_args.len() - t >= count {
                assert(self.flattened(arg) =~= Seq::new(count, |i: int| self.llvm_args[t + i]));
            }
        }
    }

    /// A prologue begins with what is listed and adds the arguments one after the other. The first
    /// argument that fails ends it: the values before it and what is listed by then stay.
    pub proof fn prologue_adds_one_argument(&self, n: int, ops: Seq<PlacedOp>)
        requires
            0 <= n,
        ensures
            self.prologue(0, ops) == (Progress {
                ops,
                last: None,
                values: Seq::empty(),
                failure: None,
            }),
            ({
                let before = self.prologue(n, ops);
                let after = self.prologue(n + 1, ops);
                let (listed, outcome) = self.rebuilt_argument(n, before.ops, before.last);
                if before.failure is Some {
                    after == before
                } else {
                    &&& after.ops == listed
                    &&& match outcome {
                        Ok((value, last)) => after.failure is None && after.last == last
                            && after.values == before.values.push(value),
                        Err(e) => after.failure == Some(e) && after.values == before.values,
                    }
                }
            }),
    {
    }

    /// Every MIR argument gets the LLVM arguments that follow those of the arguments before it, in
    /// their order. A plain argument is the LLVM argument itself. A slice has the first of them in
    /// its first field and the second in its second. A struct has the next of them in each sized
    /// field, in memory order. An argument in a host layout has, in each sized field, what is read
    /// from its one LLVM argument at the host place of that field. What is put together has the
    /// type that the argument converts to, and what takes no space is an undefined value of it.
    pub proof fn every_argument_gets_its_llvm_arguments(&self, arg: int, earlier: Seq<PlacedOp>)
        requires
            0 <= arg < self.types.len(),
            self.takes_block_arguments(),
            self.places_are_distinct(),
            self.prologue(self.types.len() as int, earlier).failure is None,
            self.prologue(self.types.len() as int, earlier).ops.len() <= usize::MAX,
        ensures
            ({
                let end = self.prologue(self.types.len() as int, earlier);
                let ops = end.ops;
                let v = end.values[arg];
                let ty = self.types[arg];
                let t = self.taken_before(arg);
                let whole = base_type(ops, v) == Some(ty.converted->Ok_0.id);
                if self.is_hosted(arg) {
                    &&& whole
                    &&& if ty.converted->Ok_0.zero_sized {
                        forall|index: u32| #[trigger]
                            field_of(ops, v, index) == FieldValue::Undefined
                    } else {
                        ty.shape matches TypeShape::Struct(st) && forall|d: int|
                            0 <= d < st.fields@.len() && (#[trigger] st.fields@[d] matches Ok(f)
                                && !f.zero_sized) ==> {
                                let place = st.places_under(st.logical_layout())->0->Ok_0@[d]->0;
                                let from = st.places_under(
                                    self.host_layout_of(arg),
                                )->0->Ok_0@[d]->0;
                                field_of(ops, v, place) matches FieldValue::Is(x)
                                    && x matches Value::Result(number) && number < ops.len()
                                    && ops[number as int].op == (Op::ExtractValue {
                                    aggregate: self.llvm_args[t],
                                    index: from,
                                })
                            }
                    }
                } else if self.opaque.contains(arg) {
                    if ty.converted->Ok_0.zero_sized {
                        whole && forall|index: u32| #[trigger]
                            field_of(ops, v, index) == FieldValue::Undefined
                    } else {
                        v == self.llvm_args[t]
                    }
                } else {
                    match ty.shape {
                        TypeShape::Other => v == self.llvm_args[t],
                        TypeShape::Struct(st) => {
                            &&& whole
                            &&& forall|m: int|
                                0 <= m < st.fields@.len() && (
                                #[trigger] st.fields@[st.layout.mem_to_decl@[m] as int] matches Ok(
                                    f,
                                ) && !f.zero_sized) ==> field_of(
                                    ops,
                                    v,
                                    st.places_under(
                                        st.layout@,
                                    )->0->Ok_0@[st.layout.mem_to_decl@[m] as int]->0,
                                ) == FieldValue::Is(self.llvm_args[t + st.sized_before(m)])
                        },
                        _ => {
                            &&& whole
                            &&& field_of(ops, v, 0) == FieldValue::Is(self.llvm_args[t])
                            &&& field_of(ops, v, 1) == FieldValue::Is(self.llvm_args[t + 1])
                        },
                    }
                }
            }),
    {
        let n = self.types.len() as int;
        let end = self.prologue(n, earlier);
        let v = end.values[arg];
        let ty = self.types[arg];
        let t = self.taken_before(arg);
        self.taken_is_positive(arg);
        self.arguments_arrive(arg, earlier);
        self.arguments_fit(arg, n, earlier);
        let from = self.flattened(arg);
        assert forall|i: int| 0 <= i < from.len() implies #[trigger] from[i] == self.llvm_args[t
            + i] by {}
        if self.is_hosted(arg) {
            if !ty.converted->Ok_0.zero_sized {
                let st = ty.shape->Struct_0;
                assert forall|d: int|
                    0 <= d < st.fields@.len() && (#[trigger] st.fields@[d] matches Ok(f)
                        && !f.zero_sized) implies st.holds_host_field(
                    end.ops,
                    v,
                    d,
                    self.llvm_args[t],
                    self.host_layout_of(arg),
                ) by {}
            }
        } else if !self.opaque.contains(arg) {
            if let TypeShape::Struct(st) = ty.shape {
                assert forall|m: int|
                    0 <= m < st.fields@.len() && (
                    #[trigger] st.fields@[st.layout.mem_to_decl@[m] as int] matches Ok(f)
                        && !f.zero_sized) implies field_of(
                    end.ops,
                    v,
                    st.places_under(st.layout@)->0->Ok_0@[st.layout.mem_to_decl@[m] as int]->0,
                ) == FieldValue::Is(self.llvm_args[t + st.sized_before(m)]) by {
                    assert(is_sized(st.fields@[st.declared_at(m)]));
                    assert(st.holds_flattened_field(end.ops, v, m, from));
                    st.sized_before_grows(m + 1, st.fields@.len() as int);
                    assert(from[st.sized_before(m) as int] == self.llvm_args[t + st.sized_before(
                        m,
                    )]);
                }
            }
        }
    }

    /// Where the prologue does not fail, enough LLVM arguments were left for each argument.
    proof fn arguments_fit(&self, arg: int, n: int, ops: Seq<PlacedOp>)
        requires
            0 <= arg < n,
            self.prologue(n, ops).failure is None,
        ensures
            self.taken_before(arg) + self.width_of(arg) <= self.llvm_args.len(),
        decreases n,
    {
        if arg < n - 1 {
            self.arguments_fit(arg, n - 1, ops);
        }
    }
}

impl StructType {
    /// A struct lacks nothing where the places of all its fields are known and the memory order
    /// names a field at each position, or where the type converter failed for its layout, whatever
    /// it is rebuilt of.
    pub proof fn ordinary_structs_lack_nothing(&self, count: nat, host: LayoutModel)
        ensures
            self.places_under(self.layout@) matches Some(Err(_)) ==> self.well_formed(count),
            (self.places_under(self.layout@) matches Some(Ok(places)) && places@.len()
                >= self.fields@.len()) && self.layout.mem_to_decl@.len() >= self.fields@.len() && (
            forall|m: int|
                0 <= m < self.fields@.len() ==> #[trigger] self.layout.mem_to_decl@[m]
                    < self.fields@.len()) ==> self.well_formed(count),
            self.places_under(host) matches Some(Err(_)) ==> self.well_formed_for_host(host),
            (self.places_under(host) is Some && self.places_under(
                self.logical_layout(),
            ) matches Some(Err(_))) ==> self.well_formed_for_host(host),
            (self.places_under(host) matches Some(Ok(from)) && from@.len() >= self.fields@.len())
                && (self.places_under(self.logical_layout()) matches Some(Ok(to)) && to@.len()
                >= self.fields@.len()) ==> self.well_formed_for_host(host),
    {
    }
}

impl Entry {
    /// The places of the fields of an argument are needed exactly where it is a struct that is
    /// reached, that converts, that has enough LLVM arguments left and that is not passed on as it
    /// is.
    pub proof fn places_are_needed_for_rebuilt_structs(&self, arg: int)
        requires
            0 <= arg,
        ensures
            self.is_hosted(arg) ==> (self.needs_places(arg) <==> (self.prologue(
                arg,
                Seq::empty(),
            ).failure is None && self.types[arg].shape is Struct && (
            self.types[arg].converted matches Ok(t) && !t.zero_sized) && self.taken_before(arg) + 1
                <= self.llvm_args.len())),
            !self.is_hosted(arg) ==> (self.needs_places(arg) <==> (self.prologue(
                arg,
                Seq::empty(),
            ).failure is None && (self.types[arg].shape matches TypeShape::Struct(st)
                && self.taken_before(arg) + st.fields@.filter(
                |f: Result<LlvmType, String>| f is Err || !f->Ok_0.zero_sized,
            ).len() <= self.llvm_args.len()) && self.types[arg].converted is Ok
                && !self.opaque.contains(arg))),
    {
        arguments_are_flattened_by_shape(self.types[arg]);
    }

    /// Something can be lacking only of a struct that is rebuilt of its fields: an argument that is
    /// not reached, does not convert, has too few LLVM arguments left, takes no space or is passed
    /// on as it is never keeps an entry from being put together.
    pub proof fn only_rebuilt_structs_can_lack_something(&self)
        ensures
            self.well_formed() <==> forall|arg: int|
                0 <= arg < self.types.len() && #[trigger] self.needs_places(arg) ==> {
                    let st = self.types[arg].shape->Struct_0;
                    if self.is_hosted(arg) {
                        st.well_formed_for_host(self.host_layout_of(arg))
                    } else {
                        st.well_formed(self.width_of(arg) as nat)
                    }
                },
    {
        if self.well_formed() {
            assert forall|arg: int|
                0 <= arg < self.types.len() && #[trigger] self.needs_places(arg) implies {
                let st = self.types[arg].shape->Struct_0;
                if self.is_hosted(arg) {
                    st.well_formed_for_host(self.host_layout_of(arg))
                } else {
                    st.well_formed(self.width_of(arg) as nat)
                }
            } by {
                assert(self.argument_is_well_formed(arg));
            }
        }
    }

    /// Nothing is lacking where each struct that is rebuilt of its fields lacks nothing; arguments
    /// that are no structs never lack anything.
    pub proof fn entries_of_ordinary_structs_lack_nothing(&self)
        requires
            forall|arg: int|
                0 <= arg < self.types.len() && ((
                #[trigger] self.types[arg]).shape matches TypeShape::Struct(st)) ==> {
                    let st = self.types[arg].shape->Struct_0;
                    if self.is_hosted(arg) {
                        st.well_formed_for_host(self.host_layout_of(arg))
                    } else {
                        forall|count: nat| #[trigger] st.well_formed(count)
                    }
                },
        ensures
            self.well_formed(),
    {
        assert forall|arg: int| 0 <= arg < self.types.len() implies #[trigger] self.argument_is_well_formed(
            arg,
        ) by {
            let ty = self.types[arg];
            if self.needs_places(arg) && !self.is_hosted(arg) {
                let st = ty.shape->Struct_0;
                assert(st.well_formed(self.width_of(arg) as nat));
            }
        }
    }

    /// An argument can be put together where it is passed on as it is and is no struct or slice,
    /// where it is a slice or an opaque argument that converts, and where it is a struct that
    /// converts, with all its fields, whose memory order lists each field once and whose sized
    /// fields have places in the layouts that it is rebuilt from and to.
    pub proof fn ordinary_arguments_are_lowerable(&self, arg: int)
        ensures
            ({
                let ty = self.types[arg];
                let plain = !self.is_hosted(arg) && !self.opaque.contains(arg);
                &&& plain && ty.shape is Other ==> self.is_lowerable(arg)
                &&& plain && (ty.shape is Slice || ty.shape is DisjointSlice) && ty.converted is Ok
                    ==> self.is_lowerable(arg)
                &&& !self.is_hosted(arg) && self.opaque.contains(arg) && ty.converted is Ok
                    ==> self.is_lowerable(arg)
                &&& self.is_hosted(arg) && (ty.converted matches Ok(t) && t.zero_sized)
                    ==> self.is_lowerable(arg)
                &&& ty.shape matches TypeShape::Struct(st) ==> {
                    let n = st.fields@.len();
                    let order = st.layout.mem_to_decl@;
                    let converts = ty.converted is Ok && forall|d: int|
                        0 <= d < n ==> (#[trigger] st.fields@[d]) is Ok;
                    &&& plain && converts && (st.places_under(st.layout@) matches Some(Ok(places))
                        && forall|d: int|
                        0 <= d < n && !(#[trigger] st.fields@[d])->Ok_0.zero_sized
                            ==> places@[d] is Some) && (forall|m: int|
                        0 <= m < n ==> #[trigger] order[m] < n) && (forall|m: int, k: int|
                        0 <= m < k < n ==> #[trigger] order[m] != #[trigger] order[k]) && (
                    forall|d: int| 0 <= d < n ==> #[trigger] st.is_listed(d)) ==> self.is_lowerable(
                        arg,
                    )
                    &&& self.is_hosted(arg) && converts && (st.places_under(
                        self.host_layout_of(arg),
                    ) matches Some(Ok(from)) && forall|d: int|
                        0 <= d < n && !(#[trigger] st.fields@[d])->Ok_0.zero_sized
                            ==> from@[d] is Some) && (st.places_under(
                        st.logical_layout(),
                    ) matches Some(Ok(to)) && forall|d: int|
                        0 <= d < n && !(#[trigger] st.fields@[d])->Ok_0.zero_sized
                            ==> to@[d] is Some) ==> self.is_lowerable(arg)
                }
            }),
    {
    }
}

}
