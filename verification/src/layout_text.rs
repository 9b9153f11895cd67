//! Writing lists and layouts as text, and that reading gives back what was written.

use vstd::prelude::*;

use crate::error::ErrorModel;
use crate::layout::{
    layout_entries, layout_entry, layouts_of_text, listed_indices, number_list, numbers,
    LayoutModel,
};
use crate::number::{
    decimal, decimal_is_worth_its_number, is_digit, number, number_of_decimal,
};
use crate::text::{is_white_space, join, split, split_of_join};

verus! {

/// Numbers written out one by one.
pub open spec fn decimals(xs: Seq<int>) -> Seq<Seq<char>> {
    xs.map_values(|x: int| decimal(x as nat))
}

/// A list of numbers with commas between them.
pub open spec fn list_text(xs: Seq<int>) -> Seq<char> {
    join(decimals(xs), ',')
}

/// The four parts of a layout entry.
pub open spec fn layout_parts(arg_index: int, layout: LayoutModel) -> Seq<Seq<char>> {
    seq![
        decimal(arg_index as nat),
        list_text(layout.mem_to_decl),
        list_text(layout.field_offsets),
        decimal(layout.total_size as nat),
    ]
}

/// A layout with the index of its argument.
pub open spec fn layout_text(arg_index: int, layout: LayoutModel) -> Seq<char> {
    join(layout_parts(arg_index, layout), ':')
}

/// Layouts with semicolons between them.
pub open spec fn layouts_text(layouts: Seq<(int, LayoutModel)>) -> Seq<char> {
    join(layouts.map_values(|p: (int, LayoutModel)| layout_text(p.0, p.1)), ';')
}

/// Every number lies between zero and `max`.
pub open spec fn all_within(xs: Seq<int>, max: int) -> bool {
    forall|i: int| 0 <= i < xs.len() ==> 0 <= #[trigger] xs[i] <= max
}

/// The numbers of a layout fit the machine integers that hold them.
pub open spec fn layout_fits(arg_index: int, layout: LayoutModel) -> bool {
    &&& 0 <= arg_index <= usize::MAX
    &&& all_within(layout.mem_to_decl, usize::MAX as int)
    &&& all_within(layout.field_offsets, u64::MAX as int)
    &&& 0 <= layout.total_size <= u64::MAX
}

/// A written number holds digits only.
proof fn decimal_avoids(n: nat, c: char)
    requires
        !is_digit(c),
    ensures
        !decimal(n).contains(c),
{
    decimal_is_worth_its_number(n);
}

/// Joined pieces hold a character only where a piece holds it or it is the separator.
proof fn join_avoids(parts: Seq<Seq<char>>, sep: char, c: char)
    requires
        sep != c,
        forall|i: int| 0 <= i < parts.len() ==> !(#[trigger] parts[i]).contains(c),
    ensures
        !join(parts, sep).contains(c),
    decreases parts.len(),
{
    if parts.len() > 1 {
        let init = parts.drop_last();
        assert forall|i: int| 0 <= i < init.len() implies !(#[trigger] init[i]).contains(c) by {
            assert(init[i] == parts[i]);
        }
        join_avoids(init, sep, c);
        let front = join(init, sep).push(sep);
        assert(parts[parts.len() - 1] == parts.last());
        assert forall|j: int| 0 <= j < join(parts, sep).len() implies join(parts, sep)[j] != c by {
            if j < join(init, sep).len() {
                assert(join(init, sep)[j] == join(parts, sep)[j]);
            } else if j >= front.len() {
                assert(parts.last()[j - front.len()] == join(parts, sep)[j]);
            }
        }
    } else if parts.len() == 1 {
        assert(!parts[0].contains(c));
    }
}

/// A written list holds digits and commas only.
proof fn list_text_avoids(xs: Seq<int>, c: char)
    requires
        !is_digit(c),
        c != ',',
    ensures
        !list_text(xs).contains(c),
{
    assert forall|i: int| 0 <= i < decimals(xs).len() implies !(#[trigger] decimals(
        xs,
    )[i]).contains(c) by {
        decimal_avoids(xs[i] as nat, c);
    }
    join_avoids(decimals(xs), ',', c);
}

/// Joined pieces begin as the first piece does.
proof fn join_begins_with_first(parts: Seq<Seq<char>>, sep: char)
    requires
        parts.len() > 0,
        parts[0].len() > 0,
    ensures
        join(parts, sep).len() > 0,
        join(parts, sep)[0] == parts[0][0],
    decreases parts.len(),
{
    if parts.len() > 1 {
        assert(parts.drop_last()[0] == parts[0]);
        join_begins_with_first(parts.drop_last(), sep);
        assert(join(parts, sep)[0] == join(parts.drop_last(), sep)[0]);
    }
}

proof fn numbers_of_decimals(xs: Seq<int>, label: Seq<char>, max: int)
    requires
        all_within(xs, max),
    ensures
        numbers(decimals(xs), label, max) == Ok::<Seq<int>, ErrorModel>(xs),
    decreases xs.len(),
{
    if xs.len() == 0 {
        assert(xs =~= Seq::empty());
    } else {
        let init = xs.drop_last();
        assert forall|i: int| 0 <= i < init.len() implies 0 <= #[trigger] init[i] <= max by {
            assert(init[i] == xs[i]);
        }
        numbers_of_decimals(init, label, max);
        assert(decimals(xs).drop_last() =~= decimals(init));
        assert(0 <= xs[xs.len() - 1] <= max);
        assert(decimals(xs).last() == decimal(xs.last() as nat));
        number_of_decimal(xs.last() as nat, max);
        assert(init.push(xs.last()) =~= xs);
    }
}

/// A list of numbers reads back from the text that it is written as.
pub proof fn list_reads_back(xs: Seq<int>, label: Seq<char>, max: int)
    requires
        all_within(xs, max),
    ensures
        number_list(list_text(xs), label, max) == Ok::<Seq<int>, ErrorModel>(xs),
{
    if xs.len() == 0 {
        assert(xs =~= Seq::empty());
    } else {
        assert forall|i: int| 0 <= i < decimals(xs).len() implies !(#[trigger] decimals(
            xs,
        )[i]).contains(',') by {
            decimal_avoids(xs[i] as nat, ',');
        }
        split_of_join(decimals(xs), ',');
        numbers_of_decimals(xs, label, max);
        decimal_is_worth_its_number(xs[0] as nat);
        assert(decimals(xs)[0] == decimal(xs[0] as nat));
        join_begins_with_first(decimals(xs), ',');
    }
}

proof fn listed_indices_of_decimals(xs: Seq<int>)
    requires
        all_within(xs, usize::MAX as int),
    ensures
        listed_indices(decimals(xs)) == xs,
    decreases xs.len(),
{
    if xs.len() == 0 {
        assert(xs =~= Seq::empty());
    } else {
        let init = xs.drop_last();
        assert forall|i: int| 0 <= i < init.len() implies 0 <= #[trigger] init[i]
            <= usize::MAX as int by {
            assert(init[i] == xs[i]);
        }
        listed_indices_of_decimals(init);
        assert(decimals(xs).drop_last() =~= decimals(init));
        assert(0 <= xs[xs.len() - 1] <= usize::MAX);
        assert(decimals(xs).last() == decimal(xs.last() as nat));
        number_of_decimal(xs.last() as nat, usize::MAX as int);
        assert(init.push(xs.last()) =~= xs);
    }
}

/// Argument indices read back from the text that they are written as.
pub proof fn indices_read_back(xs: Seq<int>)
    requires
        all_within(xs, usize::MAX as int),
    ensures
        listed_indices(split(list_text(xs), ',')) == xs,
{
    if xs.len() == 0 {
        let none = list_text(xs);
        assert(none.len() == 0);
        assert(split(none, ',').drop_last() =~= Seq::empty());
        assert(split(none, ',').last() == none);
        assert(number(none, usize::MAX as int) is Err);
        assert(listed_indices(split(none, ',').drop_last()) =~= Seq::empty());
        assert(xs =~= Seq::empty());
    } else {
        assert forall|i: int| 0 <= i < decimals(xs).len() implies !(#[trigger] decimals(
            xs,
        )[i]).contains(',') by {
            decimal_avoids(xs[i] as nat, ',');
        }
        split_of_join(decimals(xs), ',');
        listed_indices_of_decimals(xs);
    }
}

/// A layout reads back from the entry that it is written as.
pub proof fn layout_reads_back(arg_index: int, layout: LayoutModel)
    requires
        layout_fits(arg_index, layout),
    ensures
        layout_entry(layout_text(arg_index, layout)) == Ok::<(int, LayoutModel), ErrorModel>(
            (arg_index, layout),
        ),
{
    let parts = layout_parts(arg_index, layout);
    assert forall|i: int| 0 <= i < parts.len() implies !(#[trigger] parts[i]).contains(':') by {
        decimal_avoids(arg_index as nat, ':');
        list_text_avoids(layout.mem_to_decl, ':');
        list_text_avoids(layout.field_offsets, ':');
        decimal_avoids(layout.total_size as nat, ':');
    }
    split_of_join(parts, ':');
    number_of_decimal(arg_index as nat, usize::MAX as int);
    list_reads_back(layout.mem_to_decl, "memory order"@, usize::MAX as int);
    list_reads_back(layout.field_offsets, "field offsets"@, u64::MAX as int);
    number_of_decimal(layout.total_size as nat, u64::MAX as int);
}

/// A written layout has a digit in front and no semicolon.
proof fn layout_text_shape(arg_index: int, layout: LayoutModel)
    ensures
        layout_text(arg_index, layout).len() > 0,
        is_digit(layout_text(arg_index, layout)[0]),
        !layout_text(arg_index, layout).contains(';'),
{
    let parts = layout_parts(arg_index, layout);
    assert forall|i: int| 0 <= i < parts.len() implies !(#[trigger] parts[i]).contains(';') by {
        decimal_avoids(arg_index as nat, ';');
        list_text_avoids(layout.mem_to_decl, ';');
        list_text_avoids(layout.field_offsets, ';');
        decimal_avoids(layout.total_size as nat, ';');
    }
    join_avoids(parts, ':', ';');
    decimal_is_worth_its_number(arg_index as nat);
    join_begins_with_first(parts, ':');
    assert(is_digit(parts[0][0]));
}

proof fn layout_entries_read_back(layouts: Seq<(int, LayoutModel)>)
    requires
        forall|i: int|
            0 <= i < layouts.len() ==> layout_fits((#[trigger] layouts[i]).0, layouts[i].1),
    ensures
        layout_entries(
            layouts.map_values(|p: (int, LayoutModel)| layout_text(p.0, p.1)),
        ) == Ok::<Seq<(int, LayoutModel)>, ErrorModel>(layouts),
    decreases layouts.len(),
{
    let entries = layouts.map_values(|p: (int, LayoutModel)| layout_text(p.0, p.1));
    if layouts.len() == 0 {
        assert(layouts =~= Seq::empty());
    } else {
        let init = layouts.drop_last();
        assert forall|i: int| 0 <= i < init.len() implies layout_fits(
            (#[trigger] init[i]).0,
            init[i].1,
        ) by {
            assert(init[i] == layouts[i]);
        }
        layout_entries_read_back(init);
        assert(entries.drop_last() =~= init.map_values(
            |p: (int, LayoutModel)| layout_text(p.0, p.1),
        ));
        let last = layouts[layouts.len() - 1];
        assert(entries.last() == layout_text(last.0, last.1));
        layout_text_shape(last.0, last.1);
        layout_reads_back(last.0, last.1);
        assert(init.push(last) =~= layouts);
    }
}

/// All host layouts read back from the text that they are written as.
pub proof fn layouts_read_back(layouts: Seq<(int, LayoutModel)>)
    requires
        forall|i: int|
            0 <= i < layouts.len() ==> layout_fits((#[trigger] layouts[i]).0, layouts[i].1),
    ensures
        layouts_of_text(layouts_text(layouts)) == Ok::<Seq<(int, LayoutModel)>, ErrorModel>(
            layouts,
        ),
{
    let entries = layouts.map_values(|p: (int, LayoutModel)| layout_text(p.0, p.1));
    if layouts.len() == 0 {
        assert(layouts =~= Seq::empty());
    } else {
        assert forall|i: int| 0 <= i < entries.len() implies !(#[trigger] entries[i]).contains(
            ';',
        ) by {
            layout_text_shape(layouts[i].0, layouts[i].1);
        }
        split_of_join(entries, ';');
        layout_entries_read_back(layouts);
        layout_text_shape(layouts[0].0, layouts[0].1);
        assert(entries[0] == layout_text(layouts[0].0, layouts[0].1));
        join_begins_with_first(entries, ';');
        assert(!is_white_space(layouts_text(layouts)[0]));
    }
}

}
