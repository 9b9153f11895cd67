//! What holds of text that is split.

use vstd::prelude::*;

use crate::text::{is_blank, is_white_space, join, split, texts};

verus! {

/// The texts of string slices are theirs, each in its place.
pub proof fn texts_are_those_of_the_slices(parts: Seq<&str>)
    ensures
        texts(parts).len() == parts.len(),
        forall|i: int| 0 <= i < parts.len() ==> #[trigger] texts(parts)[i] == parts[i]@,
{
}

/// Two texts with a separator between them are split as each of them is.
pub proof fn split_at_a_separator(a: Seq<char>, b: Seq<char>, sep: char)
    ensures
        split(a.push(sep) + b, sep) == split(a, sep) + split(b, sep),
        split(b, sep).len() > 0,
    decreases b.len(),
{
    let whole = a.push(sep) + b;
    if b.len() == 0 {
        assert(whole =~= a.push(sep));
        assert(whole.drop_last() =~= a);
        assert(b =~= Seq::empty());
        assert(split(whole, sep) =~= split(a, sep) + split(b, sep));
    } else {
        split_at_a_separator(a, b.drop_last(), sep);
        assert(whole.drop_last() =~= a.push(sep) + b.drop_last());
        assert(whole.last() == b.last());
        let before = split(whole.drop_last(), sep);
        let rest = split(b.drop_last(), sep);
        assert(before.last() == rest.last());
        assert(split(whole, sep) =~= split(a, sep) + split(b, sep));
    }
}

/// Joining writes the pieces one behind the other, with a separator in front of each but the
/// first.
pub proof fn join_adds_a_piece(parts: Seq<Seq<char>>, piece: Seq<char>, sep: char)
    ensures
        join(Seq::empty(), sep) == Seq::<char>::empty(),
        join(seq![piece], sep) == piece,
        parts.len() > 0 ==> join(parts.push(piece), sep) == join(parts, sep).push(sep) + piece,
{
    assert(parts.push(piece).drop_last() =~= parts);
}

/// A text is blank exactly when the two parts that it is cut into are. No text is blank.
pub proof fn blank_text_is_blank_throughout(a: Seq<char>, b: Seq<char>)
    ensures
        is_blank(Seq::empty()),
        is_blank(a + b) <==> is_blank(a) && is_blank(b),
{
    if is_blank(a + b) {
        assert forall|i: int| 0 <= i < a.len() implies is_white_space(
            #[trigger] a[i],
        ) by {
            assert((a + b)[i] == a[i]);
        }
        assert forall|i: int| 0 <= i < b.len() implies is_white_space(
            #[trigger] b[i],
        ) by {
            assert((a + b)[a.len() + i] == b[i]);
        }
    }
}

/// Text that holds a printed ASCII character is not blank.
pub proof fn text_with_a_visible_character(s: Seq<char>, i: int)
    requires
        0 <= i < s.len(),
        '\u{21}' <= s[i] <= '\u{7e}',
    ensures
        !is_blank(s),
{
    assert(!is_white_space(s[i]));
}

}
