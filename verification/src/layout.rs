//! Host layouts of opaque kernel arguments, and the text that they travel in.
//!
//! A layout is written `index:order:offsets:size`. The order and the offsets are lists of numbers
//! with commas between them; several layouts have semicolons between them.

use vstd::prelude::*;
use vstd::string::*;

use crate::error::{ErrorModel, LoweringError, LoweringErrorOf};
use crate::number::{number, parse_u64, parse_usize};
use crate::text::{blank, is_blank, split, split_at_char, texts};

verus! {

/// Where the fields of a struct lie in memory.
#[derive(Clone, PartialEq, Eq, Debug)]
pub struct ExplicitStructLayout {
    /// The declaration index of each field, in memory order.
    pub mem_to_decl: Vec<usize>,
    /// The byte offset of each field.
    pub field_offsets: Vec<u64>,
    /// The size of the whole struct in bytes.
    pub total_size: u64,
}

/// A layout as contracts speak of it.
#[verifier::ext_equal]
pub struct LayoutModel {
    pub mem_to_decl: Seq<int>,
    pub field_offsets: Seq<int>,
    pub total_size: int,
}

pub open spec fn usizes(s: Seq<usize>) -> Seq<int> {
    s.map_values(|n: usize| n as int)
}

pub open spec fn u64s(s: Seq<u64>) -> Seq<int> {
    s.map_values(|n: u64| n as int)
}

impl View for ExplicitStructLayout {
    type V = LayoutModel;

    open spec fn view(&self) -> LayoutModel {
        LayoutModel {
            mem_to_decl: usizes(self.mem_to_decl@),
            field_offsets: u64s(self.field_offsets@),
            total_size: self.total_size as int,
        }
    }
}

impl ExplicitStructLayout {
    /// Tests whether two layouts are the same.
    pub fn is_same(&self, other: &ExplicitStructLayout) -> (r: bool)
        ensures
            r == (self@ == other@),
    {
        if self.total_size != other.total_size || self.mem_to_decl.len() != other.mem_to_decl.len()
            || self.field_offsets.len() != other.field_offsets.len() {
            assert(self@.mem_to_decl.len() == self.mem_to_decl@.len());
            assert(other@.mem_to_decl.len() == other.mem_to_decl@.len());
            assert(self@.field_offsets.len() == self.field_offsets@.len());
            assert(other@.field_offsets.len() == other.field_offsets@.len());
            return false;
        }
        for i in 0..self.mem_to_decl.len()
            invariant
                self.mem_to_decl@.len() == other.mem_to_decl@.len(),
                forall|k: int| 0 <= k < i ==> self@.mem_to_decl[k] == other@.mem_to_decl[k],
        {
            if self.mem_to_decl[i] != other.mem_to_decl[i] {
                assert(self@.mem_to_decl[i as int] != other@.mem_to_decl[i as int]);
                return false;
            }
        }
        for i in 0..self.field_offsets.len()
            invariant
                self.field_offsets@.len() == other.field_offsets@.len(),
                forall|k: int| 0 <= k < i ==> self@.field_offsets[k] == other@.field_offsets[k],
        {
            if self.field_offsets[i] != other.field_offsets[i] {
                assert(self@.field_offsets[i as int] != other@.field_offsets[i as int]);
                return false;
            }
        }
        assert(self@ =~= other@);
        true
    }
}

/// Argument indices with their layouts, as contracts speak of them.
pub open spec fn layout_models(s: Seq<(usize, ExplicitStructLayout)>) -> Seq<(int, LayoutModel)> {
    s.map_values(|p: (usize, ExplicitStructLayout)| (p.0 as int, p.1@))
}

/// The numbers that `parts` write out, or the first of them that is no number.
pub open spec fn numbers(parts: Seq<Seq<char>>, label: Seq<char>, max: int) -> Result<
    Seq<int>,
    ErrorModel,
>
    decreases parts.len(),
{
    if parts.len() == 0 {
        Ok(Seq::empty())
    } else {
        match numbers(parts.drop_last(), label, max) {
            Err(e) => Err(e),
            Ok(before) => match number(parts.last(), max) {
                Ok(n) => Ok(before.push(n)),
                Err(error) => Err(
                    LoweringErrorOf::InvalidListValue { label, part: parts.last(), error },
                ),
            },
        }
    }
}

/// The list of numbers that a text holds. No text is no number.
pub open spec fn number_list(value: Seq<char>, label: Seq<char>, max: int) -> Result<
    Seq<int>,
    ErrorModel,
> {
    if value.len() == 0 {
        Ok(Seq::empty())
    } else {
        numbers(split(value, ','), label, max)
    }
}

/// A failure stays whatever follows it.
proof fn numbers_keep_failure(parts: Seq<Seq<char>>, label: Seq<char>, max: int, k: int)
    requires
        0 <= k <= parts.len(),
        numbers(parts.take(k), label, max) is Err,
    ensures
        numbers(parts, label, max) == numbers(parts.take(k), label, max),
    decreases parts.len(),
{
    if k == parts.len() {
        assert(parts.take(k) =~= parts);
    } else {
        assert(parts.drop_last().take(k) =~= parts.take(k));
        numbers_keep_failure(parts.drop_last(), label, max, k);
    }
}

/// Reads a list of `usize` numbers. `label` names the list in a failure.
pub fn parse_usize_list(value: &str, label: &str) -> (r: Result<Vec<usize>, LoweringError>)
    ensures
        match r {
            Ok(v) => number_list(value@, label@, usize::MAX as int) == Ok::<Seq<int>, ErrorModel>(
                usizes(v@),
            ),
            Err(e) => number_list(value@, label@, usize::MAX as int) == Err::<
                Seq<int>,
                ErrorModel,
            >(e@),
        },
{
    let mut out: Vec<usize> = Vec::new();
    if value.is_empty() {
        assert(usizes(out@) =~= Seq::empty());
        return Ok(out);
    }
    let parts: Vec<&str> = split_at_char(value, ',');
    let ghost pieces = texts(parts@);
    assert(usizes(out@) =~= Seq::empty());
    for i in 0..parts.len()
        invariant
            value@.len() > 0,
            pieces == texts(parts@),
            pieces == split(value@, ','),
            numbers(pieces.take(i as int), label@, usize::MAX as int) == Ok::<
                Seq<int>,
                ErrorModel,
            >(usizes(out@)),
    {
        let part: &str = parts[i];
        let ghost before = usizes(out@);
        let ghost next = pieces.take(i + 1);
        assert(next.drop_last() =~= pieces.take(i as int));
        assert(next.last() == part@);
        match parse_usize(part) {
            Ok(n) => {
                out.push(n);
                assert(usizes(out@) =~= before.push(n as int));
            },
            Err(error) => {
                proof {
                    numbers_keep_failure(pieces, label@, usize::MAX as int, i + 1);
                }
                return Err(
                    LoweringErrorOf::InvalidListValue {
                        label: label.to_owned(),
                        part: part.to_owned(),
                        error,
                    },
                );
            },
        }
    }
    assert(pieces.take(pieces.len() as int) =~= pieces);
    Ok(out)
}

/// Reads a list of `u64` numbers. `label` names the list in a failure.
pub fn parse_u64_list(value: &str, label: &str) -> (r: Result<Vec<u64>, LoweringError>)
    ensures
        match r {
            Ok(v) => number_list(value@, label@, u64::MAX as int) == Ok::<Seq<int>, ErrorModel>(
                u64s(v@),
            ),
            Err(e) => number_list(value@, label@, u64::MAX as int) == Err::<Seq<int>, ErrorModel>(
                e@,
            ),
        },
{
    let mut out: Vec<u64> = Vec::new();
    if value.is_empty() {
        assert(u64s(out@) =~= Seq::empty());
        return Ok(out);
    }
    let parts: Vec<&str> = split_at_char(value, ',');
    let ghost pieces = texts(parts@);
    assert(u64s(out@) =~= Seq::empty());
    for i in 0..parts.len()
        invariant
            value@.len() > 0,
            pieces == texts(parts@),
            pieces == split(value@, ','),
            numbers(pieces.take(i as int), label@, u64::MAX as int) == Ok::<
                Seq<int>,
                ErrorModel,
            >(u64s(out@)),
    {
        let part: &str = parts[i];
        let ghost before = u64s(out@);
        let ghost next = pieces.take(i + 1);
        assert(next.drop_last() =~= pieces.take(i as int));
        assert(next.last() == part@);
        match parse_u64(part) {
            Ok(n) => {
                out.push(n);
                assert(u64s(out@) =~= before.push(n as int));
            },
            Err(error) => {
                proof {
                    numbers_keep_failure(pieces, label@, u64::MAX as int, i + 1);
                }
                return Err(
                    LoweringErrorOf::InvalidListValue {
                        label: label.to_owned(),
                        part: part.to_owned(),
                        error,
                    },
                );
            },
        }
    }
    assert(pieces.take(pieces.len() as int) =~= pieces);
    Ok(out)
}

/// The numbers among `parts`, in their order; what is no number is passed over.
pub open spec fn listed_indices(parts: Seq<Seq<char>>) -> Seq<int>
    decreases parts.len(),
{
    if parts.len() == 0 {
        Seq::empty()
    } else {
        let before = listed_indices(parts.drop_last());
        match number(parts.last(), usize::MAX as int) {
            Ok(n) => before.push(n),
            Err(_) => before,
        }
    }
}

/// Reads the indices between the commas of `value`, passing over what is no number.
pub fn parse_listed_indices(value: &str) -> (r: Vec<usize>)
    ensures
        usizes(r@) == listed_indices(split(value@, ',')),
{
    let mut out: Vec<usize> = Vec::new();
    let parts: Vec<&str> = split_at_char(value, ',');
    let ghost pieces = texts(parts@);
    assert(usizes(out@) =~= Seq::empty());
    for i in 0..parts.len()
        invariant
            pieces == texts(parts@),
            pieces == split(value@, ','),
            usizes(out@) == listed_indices(pieces.take(i as int)),
    {
        let part: &str = parts[i];
        let ghost before = usizes(out@);
        let ghost next = pieces.take(i + 1);
        assert(next.drop_last() =~= pieces.take(i as int));
        assert(next.last() == part@);
        if let Ok(n) = parse_usize(part) {
            out.push(n);
            assert(usizes(out@) =~= before.push(n as int));
        }
    }
    assert(pieces.take(pieces.len() as int) =~= pieces);
    out
}

/// The layout that one entry writes out, with the index of its argument. A failure is that of
/// the first bad part.
pub open spec fn layout_entry(entry: Seq<char>) -> Result<(int, LayoutModel), ErrorModel> {
    let parts = split(entry, ':');
    if parts.len() != 4 {
        Err(LoweringErrorOf::InvalidLayoutEntry { entry })
    } else {
        match number(parts[0], usize::MAX as int) {
            Err(error) => Err(LoweringErrorOf::InvalidLayoutIndex { text: parts[0], error }),
            Ok(arg_index) => match number_list(parts[1], "memory order"@, usize::MAX as int) {
                Err(e) => Err(e),
                Ok(mem_to_decl) => match number_list(
                    parts[2],
                    "field offsets"@,
                    u64::MAX as int,
                ) {
                    Err(e) => Err(e),
                    Ok(field_offsets) => match number(parts[3], u64::MAX as int) {
                        Err(error) => Err(
                            LoweringErrorOf::InvalidLayoutSize { text: parts[3], error },
                        ),
                        Ok(total_size) => Ok(
                            (arg_index, LayoutModel { mem_to_decl, field_offsets, total_size }),
                        ),
                    },
                },
            },
        }
    }
}

/// Reads one `index:order:offsets:size` entry.
pub fn parse_layout_entry(entry: &str) -> (r: Result<(usize, ExplicitStructLayout), LoweringError>)
    ensures
        match r {
            Ok(p) => layout_entry(entry@) == Ok::<(int, LayoutModel), ErrorModel>(
                (p.0 as int, p.1@),
            ),
            Err(e) => layout_entry(entry@) == Err::<(int, LayoutModel), ErrorModel>(e@),
        },
{
    let parts: Vec<&str> = split_at_char(entry, ':');
    let ghost pieces = texts(parts@);
    if parts.len() != 4 {
        return Err(LoweringErrorOf::InvalidLayoutEntry { entry: entry.to_owned() });
    }
    assert(pieces[0] == parts[0]@ && pieces[1] == parts[1]@ && pieces[2] == parts[2]@ && pieces[3]
        == parts[3]@);
    let arg_index: usize = match parse_usize(parts[0]) {
        Ok(n) => n,
        Err(error) => {
            return Err(LoweringErrorOf::InvalidLayoutIndex { text: parts[0].to_owned(), error });
        },
    };
    let mem_to_decl: Vec<usize> = match parse_usize_list(parts[1], "memory order") {
        Ok(v) => v,
        Err(e) => {
            return Err(e);
        },
    };
    let field_offsets: Vec<u64> = match parse_u64_list(parts[2], "field offsets") {
        Ok(v) => v,
        Err(e) => {
            return Err(e);
        },
    };
    let total_size: u64 = match parse_u64(parts[3]) {
        Ok(n) => n,
        Err(error) => {
            return Err(LoweringErrorOf::InvalidLayoutSize { text: parts[3].to_owned(), error });
        },
    };
    Ok((arg_index, ExplicitStructLayout { mem_to_decl, field_offsets, total_size }))
}

/// The layouts that `entries` write out, or the first failure. Empty entries are passed over.
pub open spec fn layout_entries(entries: Seq<Seq<char>>) -> Result<
    Seq<(int, LayoutModel)>,
    ErrorModel,
>
    decreases entries.len(),
{
    if entries.len() == 0 {
        Ok(Seq::empty())
    } else {
        match layout_entries(entries.drop_last()) {
            Err(e) => Err(e),
            Ok(before) => if entries.last().len() == 0 {
                Ok(before)
            } else {
                match layout_entry(entries.last()) {
                    Err(e) => Err(e),
                    Ok(layout) => Ok(before.push(layout)),
                }
            },
        }
    }
}

/// The layouts that a text holds. White space alone holds none.
pub open spec fn layouts_of_text(value: Seq<char>) -> Result<Seq<(int, LayoutModel)>, ErrorModel> {
    if is_blank(value) {
        Ok(Seq::empty())
    } else {
        layout_entries(split(value, ';'))
    }
}

/// A failure stays whatever follows it.
proof fn layout_entries_keep_failure(entries: Seq<Seq<char>>, k: int)
    requires
        0 <= k <= entries.len(),
        layout_entries(entries.take(k)) is Err,
    ensures
        layout_entries(entries) == layout_entries(entries.take(k)),
    decreases entries.len(),
{
    if k == entries.len() {
        assert(entries.take(k) =~= entries);
    } else {
        assert(entries.drop_last().take(k) =~= entries.take(k));
        layout_entries_keep_failure(entries.drop_last(), k);
    }
}

/// Reads all host layouts that `value` holds.
pub fn parse_layouts(value: &str) -> (r: Result<Vec<(usize, ExplicitStructLayout)>, LoweringError>)
    ensures
        match r {
            Ok(v) => layouts_of_text(value@) == Ok::<Seq<(int, LayoutModel)>, ErrorModel>(
                layout_models(v@),
            ),
            Err(e) => layouts_of_text(value@) == Err::<Seq<(int, LayoutModel)>, ErrorModel>(e@),
        },
{
    let mut layouts: Vec<(usize, ExplicitStructLayout)> = Vec::new();
    assert(layout_models(layouts@) =~= Seq::empty());
    if blank(value) {
        return Ok(layouts);
    }
    let entries: Vec<&str> = split_at_char(value, ';');
    let ghost pieces = texts(entries@);
    for i in 0..entries.len()
        invariant
            !is_blank(value@),
            pieces == texts(entries@),
            pieces == split(value@, ';'),
            layout_entries(pieces.take(i as int)) == Ok::<Seq<(int, LayoutModel)>, ErrorModel>(
                layout_models(layouts@),
            ),
    {
        let entry: &str = entries[i];
        let ghost before = layout_models(layouts@);
        let ghost next = pieces.take(i + 1);
        assert(next.drop_last() =~= pieces.take(i as int));
        assert(next.last() == entry@);
        if !entry.is_empty() {
            match parse_layout_entry(entry) {
                Ok(layout) => {
                    layouts.push(layout);
                    assert(layout_models(layouts@) =~= before.push((layout.0 as int, layout.1@)));
                },
                Err(e) => {
                    proof {
                        layout_entries_keep_failure(pieces, i + 1);
                    }
                    return Err(e);
                },
            }
        }
    }
    assert(pieces.take(pieces.len() as int) =~= pieces);
    Ok(layouts)
}

}
