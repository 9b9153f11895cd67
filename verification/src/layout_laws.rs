//! What lists, entries and layouts read as, in terms of their parts.

use vstd::prelude::*;

use crate::error::{ErrorModel, LoweringErrorOf};
use crate::layout::{
    layout_entries, layout_entry, layout_models, layouts_of_text, listed_indices, number_list,
    numbers, u64s, usizes, ExplicitStructLayout, LayoutModel,
};
use crate::layout_text::{layout_text, layouts_text, list_text};
use crate::number::{decimal, number, NumberError};
use crate::text::{is_blank, join, split, split_without_separator};
use crate::text_laws::{join_adds_a_piece, split_at_a_separator};

verus! {

/// Models hold the numbers of what they stand for, each in its place.
pub proof fn models_hold_the_numbers(
    indices: Seq<usize>,
    offsets: Seq<u64>,
    layouts: Seq<(usize, ExplicitStructLayout)>,
    layout: ExplicitStructLayout,
)
    ensures
        usizes(indices).len() == indices.len(),
        forall|i: int| 0 <= i < indices.len() ==> #[trigger] usizes(indices)[i] == indices[i],
        u64s(offsets).len() == offsets.len(),
        forall|i: int| 0 <= i < offsets.len() ==> #[trigger] u64s(offsets)[i] == offsets[i],
        layout_models(layouts).len() == layouts.len(),
        forall|i: int|
            0 <= i < layouts.len() ==> (#[trigger] layout_models(layouts)[i]).0 == layouts[i].0
                && layout_models(layouts)[i].1 == layouts[i].1@,
        layout@.total_size == layout.total_size,
        layout@.mem_to_decl.len() == layout.mem_to_decl@.len(),
        forall|i: int|
            0 <= i < layout.mem_to_decl@.len() ==> #[trigger] layout@.mem_to_decl[i]
                == layout.mem_to_decl@[i],
        layout@.field_offsets.len() == layout.field_offsets@.len(),
        forall|i: int|
            0 <= i < layout.field_offsets@.len() ==> #[trigger] layout@.field_offsets[i]
                == layout.field_offsets@[i],
{
}

/// Numbers that are read one by one: all of them, or the failure of the first that is none.
proof fn numbers_are_read_one_by_one(parts: Seq<Seq<char>>, label: Seq<char>, max: int)
    ensures
        match numbers(parts, label, max) {
            Ok(xs) => xs.len() == parts.len() && forall|i: int|
                0 <= i < parts.len() ==> number(#[trigger] parts[i], max) == Ok::<int, NumberError>(
                    xs[i],
                ),
            Err(e) => exists|k: int|
                0 <= k < parts.len() && (number(#[trigger] parts[k], max) matches Err(error) && e
                    == (ErrorModel::InvalidListValue { label, part: parts[k], error })) && (
                forall|i: int| 0 <= i < k ==> number(#[trigger] parts[i], max) is Ok),
        },
    decreases parts.len(),
{
    if parts.len() > 0 {
        let init = parts.drop_last();
        let last = parts.len() - 1;
        numbers_are_read_one_by_one(init, label, max);
        assert(parts[last] == parts.last());
        assert forall|i: int| 0 <= i < last implies #[trigger] parts[i] == init[i] by {}
        match numbers(init, label, max) {
            Ok(xs) => {
                assert forall|i: int| 0 <= i < last implies number(#[trigger] parts[i], max) == Ok::<
                    int,
                    NumberError,
                >(xs[i]) by {
                    assert(number(init[i], max) == Ok::<int, NumberError>(xs[i]));
                }
            },
            Err(e) => {
                let k = choose|k: int|
                    0 <= k < init.len() && (number(#[trigger] init[k], max) matches Err(error) && e
                        == (ErrorModel::InvalidListValue { label, part: init[k], error })) && (
                    forall|i: int| 0 <= i < k ==> number(#[trigger] init[i], max) is Ok);
                assert(parts[k] == init[k]);
                assert forall|i: int| 0 <= i < k implies number(#[trigger] parts[i], max) is Ok by {
                    assert(number(init[i], max) is Ok);
                }
            },
        }
    }
}

/// A list reads as the numbers between its commas, one for each, in their order. The first of them
/// that is no number is the failure, under the label of the list. No text is no number.
pub proof fn list_reads_as_its_numbers(value: Seq<char>, label: Seq<char>, max: int)
    ensures
        value.len() == 0 ==> number_list(value, label, max) == Ok::<Seq<int>, ErrorModel>(
            Seq::empty(),
        ),
        value.len() > 0 ==> ({
            let parts = split(value, ',');
            match number_list(value, label, max) {
                Ok(xs) => xs.len() == parts.len() && forall|i: int|
                    0 <= i < parts.len() ==> number(#[trigger] parts[i], max) == Ok::<
                        int,
                        NumberError,
                    >(xs[i]),
                Err(e) => exists|k: int|
                    0 <= k < parts.len() && (number(#[trigger] parts[k], max) matches Err(error)
                        && e == (ErrorModel::InvalidListValue { label, part: parts[k], error }))
                        && (forall|i: int| 0 <= i < k ==> number(#[trigger] parts[i], max) is Ok),
            }
        }),
{
    numbers_are_read_one_by_one(split(value, ','), label, max);
}

/// Indices are taken from both halves of a list of parts; a part that is a number gives that
/// number, and any other gives none.
pub proof fn indices_are_taken_part_by_part(
    a: Seq<Seq<char>>,
    b: Seq<Seq<char>>,
    part: Seq<char>,
)
    ensures
        listed_indices(a + b) == listed_indices(a) + listed_indices(b),
        listed_indices(seq![part]) == match number(part, usize::MAX as int) {
            Ok(n) => seq![n],
            Err(_) => Seq::empty(),
        },
    decreases b.len(),
{
    assert(seq![part].drop_last() =~= Seq::empty());
    assert(listed_indices(seq![part].drop_last()) == Seq::<int>::empty());
    assert(seq![part].last() == part);
    assert(listed_indices(seq![part]) =~= match number(part, usize::MAX as int) {
        Ok(n) => seq![n],
        Err(_) => Seq::empty(),
    });
    if b.len() == 0 {
        assert(a + b =~= a);
        assert(listed_indices(a) + listed_indices(b) =~= listed_indices(a));
    } else {
        indices_are_taken_part_by_part(a, b.drop_last(), part);
        assert((a + b).drop_last() =~= a + b.drop_last());
        assert((a + b).last() == b.last());
        assert(listed_indices(a + b) =~= listed_indices(a) + listed_indices(b));
    }
}

/// An entry of four parts without a colon reads as the number, the two lists and the number that
/// they write, in this order, and fails with the first of them that does.
pub proof fn entry_reads_as_its_parts(
    index: Seq<char>,
    order: Seq<char>,
    offsets: Seq<char>,
    size: Seq<char>,
)
    requires
        !index.contains(':'),
        !order.contains(':'),
        !offsets.contains(':'),
        !size.contains(':'),
    ensures
        ({
            let r = layout_entry(
                index.push(':') + (order.push(':') + (offsets.push(':') + size)),
            );
            match number(index, usize::MAX as int) {
                Err(error) => r == Err::<(int, LayoutModel), ErrorModel>(
                    LoweringErrorOf::InvalidLayoutIndex { text: index, error },
                ),
                Ok(i) => match number_list(order, "memory order"@, usize::MAX as int) {
                    Err(e) => r == Err::<(int, LayoutModel), ErrorModel>(e),
                    Ok(mem) => match number_list(offsets, "field offsets"@, u64::MAX as int) {
                        Err(e) => r == Err::<(int, LayoutModel), ErrorModel>(e),
                        Ok(at) => match number(size, u64::MAX as int) {
                            Err(error) => r == Err::<(int, LayoutModel), ErrorModel>(
                                LoweringErrorOf::InvalidLayoutSize { text: size, error },
                            ),
                            Ok(n) => r matches Ok((arg, layout)) && arg == i && layout.mem_to_decl
                                == mem && layout.field_offsets == at && layout.total_size == n,
                        },
                    },
                },
            }
        }),
{
    let three = offsets.push(':') + size;
    let two = order.push(':') + three;
    split_at_a_separator(index, two, ':');
    split_at_a_separator(order, three, ':');
    split_at_a_separator(offsets, size, ':');
    split_without_separator(index, ':');
    split_without_separator(order, ':');
    split_without_separator(offsets, ':');
    split_without_separator(size, ':');
    let parts = split(index.push(':') + two, ':');
    assert(parts =~= seq![index, order, offsets, size]);
}

/// An entry that has not three colons is a failure that quotes it.
pub proof fn entry_needs_three_colons(entry: Seq<char>)
    requires
        split(entry, ':').len() != 4,
    ensures
        layout_entry(entry) == Err::<(int, LayoutModel), ErrorModel>(
            LoweringErrorOf::InvalidLayoutEntry { entry },
        ),
{
}

/// The layouts of two rows of entries are those of the first and behind them those of the second.
/// An entry gives the layout that it reads as, and an empty entry gives none.
pub proof fn entries_are_read_in_turn(
    a: Seq<Seq<char>>,
    b: Seq<Seq<char>>,
    entry: Seq<char>,
)
    ensures
        match (layout_entries(a), layout_entries(b)) {
            (Err(e), _) => layout_entries(a + b) == Err::<Seq<(int, LayoutModel)>, ErrorModel>(e),
            (Ok(_), Err(e)) => layout_entries(a + b) == Err::<Seq<(int, LayoutModel)>, ErrorModel>(
                e,
            ),
            (Ok(x), Ok(y)) => layout_entries(a + b) == Ok::<Seq<(int, LayoutModel)>, ErrorModel>(
                x + y,
            ),
        },
        entry.len() == 0 ==> layout_entries(seq![entry]) == Ok::<
            Seq<(int, LayoutModel)>,
            ErrorModel,
        >(Seq::empty()),
        entry.len() > 0 ==> match layout_entry(entry) {
            Ok(layout) => layout_entries(seq![entry]) == Ok::<Seq<(int, LayoutModel)>, ErrorModel>(
                seq![layout],
            ),
            Err(e) => layout_entries(seq![entry]) == Err::<Seq<(int, LayoutModel)>, ErrorModel>(e),
        },
    decreases b.len(),
{
    assert(seq![entry].drop_last() =~= Seq::empty());
    assert(layout_entries(seq![entry].drop_last()) == Ok::<Seq<(int, LayoutModel)>, ErrorModel>(
        Seq::empty(),
    ));
    assert(seq![entry].last() == entry);
    if entry.len() > 0 && layout_entry(entry) is Ok {
        assert(Seq::empty().push(layout_entry(entry)->Ok_0) =~= seq![layout_entry(entry)->Ok_0]);
    }
    if b.len() == 0 {
        assert(a + b =~= a);
        if layout_entries(a) is Ok {
            assert(layout_entries(a)->Ok_0 + Seq::empty() =~= layout_entries(a)->Ok_0);
        }
    } else {
        entries_are_read_in_turn(a, b.drop_last(), entry);
        assert((a + b).drop_last() =~= a + b.drop_last());
        assert((a + b).last() == b.last());
        if layout_entries(a) is Ok && layout_entries(b) is Ok {
            assert(layout_entries(a + b)->Ok_0 =~= layout_entries(a)->Ok_0 + layout_entries(
                b,
            )->Ok_0);
        }
    }
}

/// White space alone holds no layout. Any other text holds those of the entries between its
/// semicolons.
pub proof fn text_holds_the_layouts_of_its_entries(value: Seq<char>)
    ensures
        is_blank(value) ==> layouts_of_text(value) == Ok::<Seq<(int, LayoutModel)>, ErrorModel>(
            Seq::empty(),
        ),
        !is_blank(value) ==> layouts_of_text(value) == layout_entries(split(value, ';')),
{
}

/// A list is written as its numbers with commas between them.
pub proof fn list_is_written_number_by_number(xs: Seq<int>, x: int)
    ensures
        list_text(Seq::empty()) == Seq::<char>::empty(),
        list_text(seq![x]) == decimal(x as nat),
        xs.len() > 0 ==> list_text(xs.push(x)) == list_text(xs).push(',') + decimal(x as nat),
{
    let f = |x: int| decimal(x as nat);
    assert(seq![x].map_values(f) =~= seq![decimal(x as nat)]);
    assert(Seq::<int>::empty().map_values(f) =~= Seq::<Seq<char>>::empty());
    assert(xs.push(x).map_values(f) =~= xs.map_values(f).push(decimal(x as nat)));
    join_adds_a_piece(xs.map_values(f), decimal(x as nat), ',');
    assert(join(seq![decimal(x as nat)], ',') == decimal(x as nat)) by {
        join_adds_a_piece(xs.map_values(f), decimal(x as nat), ',');
    }
}

/// A layout is written as its argument index, its memory order, its field offsets and its size,
/// with colons between them; layouts are written with semicolons between them.
pub proof fn layouts_are_written_part_by_part(
    arg_index: int,
    layout: LayoutModel,
    before: Seq<(int, LayoutModel)>,
)
    ensures
        layout_text(arg_index, layout) == decimal(arg_index as nat).push(':') + list_text(
            layout.mem_to_decl,
        ).push(':') + list_text(layout.field_offsets).push(':') + decimal(
            layout.total_size as nat,
        ),
        layouts_text(seq![(arg_index, layout)]) == layout_text(arg_index, layout),
        before.len() > 0 ==> layouts_text(before.push((arg_index, layout))) == layouts_text(
            before,
        ).push(';') + layout_text(arg_index, layout),
{
    let a = decimal(arg_index as nat);
    let b = list_text(layout.mem_to_decl);
    let c = list_text(layout.field_offsets);
    let d = decimal(layout.total_size as nat);
    join_adds_a_piece(seq![a], b, ':');
    join_adds_a_piece(seq![a], a, ':');
    join_adds_a_piece(seq![a, b], c, ':');
    join_adds_a_piece(seq![a, b, c], d, ':');
    assert(seq![a].push(b) =~= seq![a, b]);
    assert(seq![a, b].push(c) =~= seq![a, b, c]);
    assert(seq![a, b, c].push(d) =~= seq![a, b, c, d]);
    assert(layout_text(arg_index, layout) =~= a.push(':') + b.push(':') + c.push(':') + d);
    let f = |p: (int, LayoutModel)| layout_text(p.0, p.1);
    let text = layout_text(arg_index, layout);
    assert(seq![(arg_index, layout)].map_values(f) =~= seq![text]);
    assert(before.push((arg_index, layout)).map_values(f) =~= before.map_values(f).push(text));
    join_adds_a_piece(before.map_values(f), text, ';');
}

}
