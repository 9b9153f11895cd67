//! What is read from the attributes of a kernel, and what is carried over.

use vstd::prelude::*;

use crate::attributes::{
    continues_identifier, is_identifier, launch_keys, opaque_indices, opaque_layouts, propagated,
    starts_identifier, text_entry, AttributeModel,
};
use crate::error::{ErrorModel, LoweringErrorOf};
use crate::layout::{layout_entry, LayoutModel};
use crate::layout_laws::{entries_are_read_in_turn, indices_are_taken_part_by_part};
use crate::layout_text::{
    all_within, indices_read_back, layout_fits, layouts_read_back, layouts_text, list_text,
};
use crate::number::number;
use crate::text::{is_blank, split, split_without_separator};
use crate::text_laws::{split_at_a_separator, text_with_a_visible_character};

verus! {

/// A text has the string of the attribute of that name exactly where the attribute is a string.
pub proof fn texts_are_string_attributes(
    entries: Map<Seq<char>, AttributeModel>,
    key: Seq<char>,
    s: Seq<char>,
)
    ensures
        text_entry(entries, key) == Some(s) <==> entries.dom().contains(key) && entries[key]
            == AttributeModel::Text(s),
        text_entry(entries, key) is None <==> !entries.dom().contains(key) || entries[key] is Other,
{
}

/// Opaque arguments that are written as a list are read as exactly those, in their order.
pub proof fn opaque_arguments_read_back(
    entries: Map<Seq<char>, AttributeModel>,
    indices: Seq<int>,
)
    requires
        entries.dom().contains("opaque_kernel_args"@),
        entries["opaque_kernel_args"@] == AttributeModel::Text(list_text(indices)),
        forall|i: int| 0 <= i < indices.len() ==> 0 <= #[trigger] indices[i] <= usize::MAX,
    ensures
        opaque_indices(entries) == indices,
{
    assert(all_within(indices, usize::MAX as int));
    indices_read_back(indices);
}

/// Two lists of opaque arguments with a comma between them are read as both, one behind the other.
/// Text without a comma is read as the number that it writes, or as nothing. Without the attribute,
/// and where it is no string, there are no opaque arguments. No other attribute matters.
pub proof fn opaque_arguments_are_read_part_by_part(
    whole: Map<Seq<char>, AttributeModel>,
    first: Map<Seq<char>, AttributeModel>,
    second: Map<Seq<char>, AttributeModel>,
    a: Seq<char>,
    b: Seq<char>,
)
    ensures
        !whole.dom().contains("opaque_kernel_args"@) ==> opaque_indices(whole) == Seq::<
            int,
        >::empty(),
        whole.dom().contains("opaque_kernel_args"@) && whole["opaque_kernel_args"@] is Other
            ==> opaque_indices(whole) == Seq::<int>::empty(),
        whole.dom().contains("opaque_kernel_args"@) && whole["opaque_kernel_args"@]
            == AttributeModel::Text(a) && !a.contains(',') ==> opaque_indices(whole) == (
        match number(a, usize::MAX as int) {
            Ok(n) => seq![n],
            Err(_) => Seq::empty(),
        }),
        whole.dom().contains("opaque_kernel_args"@) && whole["opaque_kernel_args"@]
            == AttributeModel::Text(a.push(',') + b) && first.dom().contains(
            "opaque_kernel_args"@,
        ) && first["opaque_kernel_args"@] == AttributeModel::Text(a) && second.dom().contains(
            "opaque_kernel_args"@,
        ) && second["opaque_kernel_args"@] == AttributeModel::Text(b) ==> opaque_indices(whole)
            == opaque_indices(first) + opaque_indices(second),
{
    split_at_a_separator(a, b, ',');
    indices_are_taken_part_by_part(split(a, ','), split(b, ','), a);
    if !a.contains(',') {
        split_without_separator(a, ',');
    }
}

/// Host layouts that are written as text are read as exactly those, all of them and in their order.
pub proof fn host_layouts_read_back(
    entries: Map<Seq<char>, AttributeModel>,
    layouts: Seq<(int, LayoutModel)>,
)
    requires
        entries.dom().contains("opaque_kernel_arg_layouts"@),
        entries["opaque_kernel_arg_layouts"@] == AttributeModel::Text(layouts_text(layouts)),
        forall|i: int|
            0 <= i < layouts.len() ==> 0 <= (#[trigger] layouts[i]).0 <= usize::MAX && 0
                <= layouts[i].1.total_size <= u64::MAX,
        forall|i: int, k: int|
            0 <= i < layouts.len() && 0 <= k < layouts[i].1.mem_to_decl.len() ==> 0
                <= #[trigger] layouts[i].1.mem_to_decl[k] <= usize::MAX,
        forall|i: int, k: int|
            0 <= i < layouts.len() && 0 <= k < layouts[i].1.field_offsets.len() ==> 0
                <= #[trigger] layouts[i].1.field_offsets[k] <= u64::MAX,
    ensures
        opaque_layouts(entries) == Ok::<Seq<(int, LayoutModel)>, ErrorModel>(layouts),
{
    assert forall|i: int| 0 <= i < layouts.len() implies layout_fits(
        (#[trigger] layouts[i]).0,
        layouts[i].1,
    ) by {
        assert(all_within(layouts[i].1.mem_to_decl, usize::MAX as int));
        assert(all_within(layouts[i].1.field_offsets, u64::MAX as int));
    }
    layouts_read_back(layouts);
}

/// Two texts with a semicolon between them, neither of them blank, hold the layouts of the first
/// and behind them those of the second, or the first failure. Text without a semicolon that is not
/// blank holds the one layout that it reads as, or fails as it does. Blank text holds none, and so
/// does a function without the attribute; an attribute that is no string is a failure.
pub proof fn host_layouts_are_read_in_turn(
    whole: Map<Seq<char>, AttributeModel>,
    first: Map<Seq<char>, AttributeModel>,
    second: Map<Seq<char>, AttributeModel>,
    a: Seq<char>,
    b: Seq<char>,
)
    ensures
        !whole.dom().contains("opaque_kernel_arg_layouts"@) ==> opaque_layouts(whole) == Ok::<
            Seq<(int, LayoutModel)>,
            ErrorModel,
        >(Seq::empty()),
        whole.dom().contains("opaque_kernel_arg_layouts"@)
            && whole["opaque_kernel_arg_layouts"@] is Other ==> opaque_layouts(whole) == Err::<
            Seq<(int, LayoutModel)>,
            ErrorModel,
        >(LoweringErrorOf::LayoutsNotText),
        whole.dom().contains("opaque_kernel_arg_layouts"@) && whole["opaque_kernel_arg_layouts"@]
            == AttributeModel::Text(a) && is_blank(a) ==> opaque_layouts(whole) == Ok::<
            Seq<(int, LayoutModel)>,
            ErrorModel,
        >(Seq::empty()),
        whole.dom().contains("opaque_kernel_arg_layouts"@) && whole["opaque_kernel_arg_layouts"@]
            == AttributeModel::Text(a) && !is_blank(a) && !a.contains(';') ==> match layout_entry(
            a,
        ) {
            Ok(layout) => opaque_layouts(whole) == Ok::<Seq<(int, LayoutModel)>, ErrorModel>(
                seq![layout],
            ),
            Err(e) => opaque_layouts(whole) == Err::<Seq<(int, LayoutModel)>, ErrorModel>(e),
        },
        whole.dom().contains("opaque_kernel_arg_layouts"@) && whole["opaque_kernel_arg_layouts"@]
            == AttributeModel::Text(a.push(';') + b) && first.dom().contains(
            "opaque_kernel_arg_layouts"@,
        ) && first["opaque_kernel_arg_layouts"@] == AttributeModel::Text(a) && second.dom().contains(
            "opaque_kernel_arg_layouts"@,
        ) && second["opaque_kernel_arg_layouts"@] == AttributeModel::Text(b) && (a.len() == 0
            || !is_blank(a)) && (b.len() == 0 || !is_blank(b)) ==> match (
            opaque_layouts(first),
            opaque_layouts(second),
        ) {
            (Err(e), _) => opaque_layouts(whole) == Err::<Seq<(int, LayoutModel)>, ErrorModel>(e),
            (Ok(_), Err(e)) => opaque_layouts(whole) == Err::<
                Seq<(int, LayoutModel)>,
                ErrorModel,
            >(e),
            (Ok(x), Ok(y)) => opaque_layouts(whole) == Ok::<Seq<(int, LayoutModel)>, ErrorModel>(
                x + y,
            ),
        },
{
    split_at_a_separator(a, b, ';');
    entries_are_read_in_turn(split(a, ';'), split(b, ';'), a);
    let text = a.push(';') + b;
    assert(text[a.len() as int] == ';');
    text_with_a_visible_character(text, a.len() as int);
    if !a.contains(';') {
        split_without_separator(a, ';');
    }
    let none = Seq::<char>::empty();
    assert(split(none, ';') == seq![none]);
    entries_are_read_in_turn(split(a, ';'), split(b, ';'), none);
    if a.len() == 0 {
        assert(a =~= none);
        assert(is_blank(a));
    }
    if b.len() == 0 {
        assert(b =~= none);
        assert(is_blank(b));
    }
}

/// What an LLVM function has once the attributes of a kernel are carried over: the kernel mark
/// under the given name, the cluster dimensions and the launch bounds of the kernel where it has
/// them, and else what it had.
pub proof fn carried_over_attributes(
    mir: Map<Seq<char>, AttributeModel>,
    llvm: Map<Seq<char>, AttributeModel>,
    kernel_key: Seq<char>,
    key: Seq<char>,
)
    ensures
        ({
            let launch = key == "cluster_dim_x"@ || key == "cluster_dim_y"@ || key
                == "cluster_dim_z"@ || key == "maxntid"@ || key == "minctasm"@;
            let after = propagated(mir, llvm, kernel_key);
            &&& launch_keys().contains(key) <==> launch
            &&& after.dom().contains(key) <==> (launch && mir.dom().contains(key)) || key
                == kernel_key || llvm.dom().contains(key)
            &&& launch && mir.dom().contains(key) ==> after[key] == mir[key]
            &&& !(launch && mir.dom().contains(key)) && key == kernel_key ==> after[key]
                == AttributeModel::Text("true"@)
            &&& !(launch && mir.dom().contains(key)) && key != kernel_key && llvm.dom().contains(
                key,
            ) ==> after[key] == llvm[key]
        }),
{
}

/// Identifiers are made of ASCII letters, digits and underscores. Behind an identifier any row of
/// them makes an identifier, and what begins an identifier is no digit.
pub proof fn identifiers_are_ascii_words(s: Seq<char>, c: char)
    ensures
        !is_identifier(Seq::empty()),
        is_identifier(seq![c]) <==> 'a' <= c <= 'z' || 'A' <= c <= 'Z' || c == '_',
        s.len() > 0 ==> (is_identifier(s.push(c)) <==> is_identifier(s) && ('a' <= c <= 'z' || 'A'
            <= c <= 'Z' || c == '_' || '0' <= c <= '9')),
{
    let t = s.push(c);
    assert(seq![c][0] == c);
    if is_identifier(seq![c]) {
        assert(starts_identifier(seq![c][0]));
    }
    if s.len() > 0 {
        if is_identifier(t) {
            assert(continues_identifier(t[s.len() as int]));
            assert forall|i: int| 0 <= i < s.len() implies continues_identifier(#[trigger] s[i]) by {
                assert(t[i] == s[i]);
            }
            assert(t[0] == s[0]);
        }
        if is_identifier(s) && continues_identifier(c) {
            assert forall|i: int| 0 <= i < t.len() implies continues_identifier(#[trigger] t[i]) by {
                if i < s.len() {
                    assert(t[i] == s[i]);
                }
            }
            assert(t[0] == s[0]);
        }
    }
}

}
