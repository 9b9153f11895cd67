//! Kernel attributes of operations: reading the opaque arguments of a kernel and carrying the
//! launch attributes over to the lowered function.

use pliron::attribute::AttributeDict;
use pliron::identifier::Identifier;
use vstd::prelude::*;
use vstd::string::*;

use crate::error::{ErrorModel, LoweringError, LoweringErrorOf};
use crate::layout::{
    layout_models, layouts_of_text, listed_indices, parse_layouts, parse_listed_indices, usizes,
    ExplicitStructLayout, LayoutModel,
};
use crate::text::split;

verus! {

/// `pliron`'s names of symbols and attributes.
#[verifier::external_type_specification]
#[verifier::external_body]
pub struct ExIdentifier(Identifier);

/// `pliron`'s dictionary of the attributes of an operation.
#[verifier::external_type_specification]
#[verifier::external_body]
pub struct ExAttributeDict(AttributeDict);

/// The characters that an identifier holds.
pub uninterp spec fn identifier_text(id: Identifier) -> Seq<char>;

/// An attribute as contracts speak of it.
pub enum AttributeModel {
    /// A string attribute, with its string.
    Text(Seq<char>),
    /// Any other attribute, told apart by a number that it shares with its clones.
    Other(int),
}

/// The attributes that a dictionary holds, by the characters of their names.
pub uninterp spec fn attribute_entries(dict: AttributeDict) -> Map<Seq<char>, AttributeModel>;

pub open spec fn starts_identifier(c: char) -> bool {
    'a' <= c <= 'z' || 'A' <= c <= 'Z' || c == '_'
}

pub open spec fn continues_identifier(c: char) -> bool {
    starts_identifier(c) || '0' <= c <= '9'
}

/// ASCII letters, digits and underscores, at least one of them and no digit in front.
pub open spec fn is_identifier(s: Seq<char>) -> bool {
    &&& s.len() > 0
    &&& starts_identifier(s[0])
    &&& forall|i: int| 0 <= i < s.len() ==> continues_identifier(#[trigger] s[i])
}

/// Calls `Identifier::try_new` of `pliron`, which takes a text exactly where it matches
/// `[a-zA-Z_][a-zA-Z0-9_]*`, and then holds that text.
#[verifier::external_body]
pub(crate) fn new_identifier(text: &str) -> (r: Option<Identifier>)
    ensures
        r is Some <==> is_identifier(text@),
        r matches Some(id) ==> identifier_text(id) == text@,
{
    Identifier::try_new(text.to_string()).ok()
}

/// Calls `Identifier::to_string` of `pliron`, which writes out the text that an identifier holds.
#[verifier::external_body]
pub(crate) fn identifier_string(id: &Identifier) -> (r: String)
    ensures
        r@ == identifier_text(*id),
{
    id.to_string()
}

/// Calls `contains_key` of the map inside an `AttributeDict` of `pliron`, which says whether the
/// dictionary has an attribute of that name.
#[verifier::external_body]
fn contains_attribute(dict: &AttributeDict, key: &Identifier) -> (r: bool)
    ensures
        r == attribute_entries(*dict).dom().contains(identifier_text(*key)),
{
    dict.0.contains_key(key)
}

/// Calls `AttributeDict::get` of `pliron` for a `StringAttr`: the string of the attribute of that
/// name, if there is one and it is a string attribute.
#[verifier::external_body]
fn text_attribute(dict: &AttributeDict, key: &Identifier) -> (r: Option<String>)
    ensures
        match r {
            Some(s) => text_entry(attribute_entries(*dict), identifier_text(*key)) == Some(s@),
            None => text_entry(attribute_entries(*dict), identifier_text(*key)) is None,
        },
{
    dict.get::<pliron::builtin::attributes::StringAttr>(key).map(|a| String::from(a.clone()))
}

/// Calls `AttributeDict::set` of `pliron` with a `StringAttr`: the dictionary then has a string
/// attribute of that name with that string, in place of one that it may have had, and is
/// otherwise as before.
#[verifier::external_body]
fn set_text_attribute(dict: &mut AttributeDict, key: &Identifier, text: &str)
    ensures
        attribute_entries(*final(dict)) == attribute_entries(*old(dict)).insert(
            identifier_text(*key),
            AttributeModel::Text(text@),
        ),
{
    dict.set(key.clone(), pliron::builtin::attributes::StringAttr::new(text.to_string()));
}

/// Calls `get` and `insert` of the map inside an `AttributeDict` of `pliron`: the second
/// dictionary then has a clone of the attribute of that name in the first, in place of one that
/// it may have had, and is otherwise as before. An attribute object is a `dyn` value, so the two
/// calls stand together.
#[verifier::external_body]
fn copy_attribute(from: &AttributeDict, to: &mut AttributeDict, key: &Identifier)
    requires
        attribute_entries(*from).dom().contains(identifier_text(*key)),
    ensures
        attribute_entries(*final(to)) == attribute_entries(*old(to)).insert(
            identifier_text(*key),
            attribute_entries(*from)[identifier_text(*key)],
        ),
{
    to.0.insert(key.clone(), from.0.get(key).unwrap().clone());
}

/// An identifier that is known to be one.
fn known_identifier(text: &str) -> (r: Identifier)
    requires
        is_identifier(text@),
    ensures
        identifier_text(r) == text@,
{
    match new_identifier(text) {
        Some(id) => id,
        None => vstd::pervasive::unreached(),
    }
}

/// The string of a string attribute.
pub open spec fn text_entry(entries: Map<Seq<char>, AttributeModel>, key: Seq<char>) -> Option<
    Seq<char>,
> {
    if entries.dom().contains(key) {
        match entries[key] {
            AttributeModel::Text(s) => Some(s),
            AttributeModel::Other(_) => None,
        }
    } else {
        None
    }
}

/// The name of the attribute that marks a kernel.
pub fn kernel_key() -> (r: Identifier)
    ensures
        identifier_text(r) == "gpu_kernel"@,
{
    proof {
        reveal_strlit("gpu_kernel");
    }
    known_identifier("gpu_kernel")
}

/// Whether an operation is marked as a kernel.
pub fn is_kernel(attributes: &AttributeDict) -> (r: bool)
    ensures
        r == attribute_entries(*attributes).dom().contains("gpu_kernel"@),
{
    contains_attribute(attributes, &kernel_key())
}

/// The indices of the arguments that cross the kernel boundary as one opaque value.
pub open spec fn opaque_indices(entries: Map<Seq<char>, AttributeModel>) -> Seq<int> {
    match text_entry(entries, "opaque_kernel_args"@) {
        Some(value) => listed_indices(split(value, ',')),
        None => Seq::empty(),
    }
}

/// Reads the indices of the opaque arguments. Without a string attribute there are none, and
/// what is no number between the commas is passed over.
pub fn opaque_kernel_arg_indices(attributes: &AttributeDict) -> (r: Vec<usize>)
    ensures
        usizes(r@) == opaque_indices(attribute_entries(*attributes)),
{
    proof {
        reveal_strlit("opaque_kernel_args");
    }
    let key: Identifier = known_identifier("opaque_kernel_args");
    match text_attribute(attributes, &key) {
        Some(value) => parse_listed_indices(value.as_str()),
        None => {
            let none: Vec<usize> = Vec::new();
            assert(usizes(none@) =~= Seq::empty());
            none
        },
    }
}

/// The host layouts of opaque arguments.
pub open spec fn opaque_layouts(entries: Map<Seq<char>, AttributeModel>) -> Result<
    Seq<(int, LayoutModel)>,
    ErrorModel,
> {
    if !entries.dom().contains("opaque_kernel_arg_layouts"@) {
        Ok(Seq::empty())
    } else {
        match text_entry(entries, "opaque_kernel_arg_layouts"@) {
            Some(value) => layouts_of_text(value),
            None => Err(LoweringErrorOf::LayoutsNotText),
        }
    }
}

/// Reads the host layouts of opaque arguments. Without the attribute there are none; an attribute
/// that is no string, or whose string holds a bad layout, is a failure.
pub fn opaque_kernel_arg_layouts(attributes: &AttributeDict) -> (r: Result<
    Vec<(usize, ExplicitStructLayout)>,
    LoweringError,
>)
    ensures
        match r {
            Ok(v) => opaque_layouts(attribute_entries(*attributes)) == Ok::<
                Seq<(int, LayoutModel)>,
                ErrorModel,
            >(layout_models(v@)),
            Err(e) => opaque_layouts(attribute_entries(*attributes)) == Err::<
                Seq<(int, LayoutModel)>,
                ErrorModel,
            >(e@),
        },
{
    proof {
        reveal_strlit("opaque_kernel_arg_layouts");
    }
    let key: Identifier = known_identifier("opaque_kernel_arg_layouts");
    if !contains_attribute(attributes, &key) {
        let none: Vec<(usize, ExplicitStructLayout)> = Vec::new();
        assert(layout_models(none@) =~= Seq::empty());
        return Ok(none);
    }
    match text_attribute(attributes, &key) {
        Some(value) => parse_layouts(value.as_str()),
        None => Err(LoweringErrorOf::LayoutsNotText),
    }
}

/// The launch attributes that a kernel keeps when it is lowered.
pub open spec fn launch_keys() -> Set<Seq<char>> {
    set![
        "cluster_dim_x"@,
        "cluster_dim_y"@,
        "cluster_dim_z"@,
        "maxntid"@,
        "minctasm"@,
    ]
}

/// The attributes of the lowered function once those of the kernel `mir` are carried over: the
/// kernel mark is set, launch attributes are those of the kernel where it has them, and the rest
/// stays.
pub open spec fn propagated(
    mir: Map<Seq<char>, AttributeModel>,
    llvm: Map<Seq<char>, AttributeModel>,
    kernel_key: Seq<char>,
) -> Map<Seq<char>, AttributeModel> {
    llvm.insert(kernel_key, AttributeModel::Text("true"@)).union_prefer_right(
        mir.restrict(launch_keys()),
    )
}

/// Copies an attribute where there is one.
fn copy_if_present(from: &AttributeDict, to: &mut AttributeDict, key: &Identifier)
    ensures
        attribute_entries(*final(to)) == attribute_entries(*old(to)).union_prefer_right(
            attribute_entries(*from).restrict(set![identifier_text(*key)]),
        ),
{
    if contains_attribute(from, key) {
        copy_attribute(from, to, key);
    }
    assert(attribute_entries(*to) =~= attribute_entries(*old(to)).union_prefer_right(
        attribute_entries(*from).restrict(set![identifier_text(*key)]),
    ));
}

/// Carries the kernel attributes of `mir` over to `llvm`.
pub fn propagate_kernel_attrs(mir: &AttributeDict, llvm: &mut AttributeDict, kernel_key: &Identifier)
    ensures
        attribute_entries(*final(llvm)) == propagated(
            attribute_entries(*mir),
            attribute_entries(*old(llvm)),
            identifier_text(*kernel_key),
        ),
{
    proof {
        reveal_strlit("cluster_dim_x");
        reveal_strlit("cluster_dim_y");
        reveal_strlit("cluster_dim_z");
        reveal_strlit("maxntid");
        reveal_strlit("minctasm");
    }
    set_text_attribute(llvm, kernel_key, "true");
    copy_if_present(mir, llvm, &known_identifier("cluster_dim_x"));
    copy_if_present(mir, llvm, &known_identifier("cluster_dim_y"));
    copy_if_present(mir, llvm, &known_identifier("cluster_dim_z"));
    copy_if_present(mir, llvm, &known_identifier("maxntid"));
    copy_if_present(mir, llvm, &known_identifier("minctasm"));
    assert(attribute_entries(*llvm) =~= propagated(
        attribute_entries(*mir),
        attribute_entries(*old(llvm)),
        identifier_text(*kernel_key),
    ));
}

/// Carrying the attributes over a second time changes nothing.
pub proof fn propagation_is_idempotent(
    mir: Map<Seq<char>, AttributeModel>,
    llvm: Map<Seq<char>, AttributeModel>,
    kernel_key: Seq<char>,
)
    ensures
        propagated(mir, propagated(mir, llvm, kernel_key), kernel_key) == propagated(
            mir,
            llvm,
            kernel_key,
        ),
{
    assert(propagated(mir, propagated(mir, llvm, kernel_key), kernel_key) =~= propagated(
        mir,
        llvm,
        kernel_key,
    ));
}

/// The lowered function of a kernel is marked as a kernel, has each launch attribute that the
/// kernel has, and keeps every other attribute of its own.
pub proof fn propagation_marks_the_kernel(
    mir: Map<Seq<char>, AttributeModel>,
    llvm: Map<Seq<char>, AttributeModel>,
)
    ensures
        text_entry(propagated(mir, llvm, "gpu_kernel"@), "gpu_kernel"@) == Some("true"@),
        forall|key: Seq<char>|
            launch_keys().contains(key) && mir.dom().contains(key) ==> propagated(
                mir,
                llvm,
                "gpu_kernel"@,
            ).dom().contains(key) && #[trigger] propagated(mir, llvm, "gpu_kernel"@)[key]
                == mir[key],
        forall|key: Seq<char>|
            key != "gpu_kernel"@ && !(launch_keys().contains(key) && mir.dom().contains(key)) ==> (
            #[trigger] propagated(mir, llvm, "gpu_kernel"@).dom().contains(key)
                <==> llvm.dom().contains(key)),
        forall|key: Seq<char>|
            key != "gpu_kernel"@ && !(launch_keys().contains(key) && mir.dom().contains(key))
                && llvm.dom().contains(key) ==> #[trigger] propagated(mir, llvm, "gpu_kernel"@)[key]
                == llvm[key],
{
    reveal_strlit("gpu_kernel");
    reveal_strlit("cluster_dim_x");
    reveal_strlit("cluster_dim_y");
    reveal_strlit("cluster_dim_z");
    reveal_strlit("maxntid");
    reveal_strlit("minctasm");
    assert("gpu_kernel"@[0] == 'g');
    assert("cluster_dim_x"@[0] == 'c');
    assert("cluster_dim_y"@[0] == 'c');
    assert("cluster_dim_z"@[0] == 'c');
    assert("maxntid"@[0] == 'm');
    assert("minctasm"@[0] == 'm');
}

}
