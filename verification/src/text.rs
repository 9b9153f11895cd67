//! Splitting text at separator characters, and joining it again.

use vstd::prelude::*;
use vstd::string::*;

verus! {

/// The characters that Unicode counts as white space.
pub open spec fn is_white_space(c: char) -> bool {
    ||| '\u{9}' <= c <= '\u{d}'
    ||| c == ' '
    ||| c == '\u{85}'
    ||| c == '\u{a0}'
    ||| c == '\u{1680}'
    ||| '\u{2000}' <= c <= '\u{200a}'
    ||| c == '\u{2028}'
    ||| c == '\u{2029}'
    ||| c == '\u{202f}'
    ||| c == '\u{205f}'
    ||| c == '\u{3000}'
}

/// Text that is empty once the white space at both ends is taken off.
pub open spec fn is_blank(s: Seq<char>) -> bool {
    forall|i: int| 0 <= i < s.len() ==> is_white_space(#[trigger] s[i])
}

/// The pieces of `s` between separators, from left to right.
///
/// There is always one piece more than there are separators, so the empty text has one empty
/// piece.
pub open spec fn split(s: Seq<char>, sep: char) -> Seq<Seq<char>>
    decreases s.len(),
{
    if s.len() == 0 {
        seq![s]
    } else {
        let before = split(s.drop_last(), sep);
        if s.last() == sep {
            before.push(Seq::empty())
        } else {
            before.update(before.len() - 1, before.last().push(s.last()))
        }
    }
}

/// `parts` with `sep` between each two neighbours.
pub open spec fn join(parts: Seq<Seq<char>>, sep: char) -> Seq<char>
    decreases parts.len(),
{
    if parts.len() == 0 {
        Seq::empty()
    } else if parts.len() == 1 {
        parts[0]
    } else {
        join(parts.drop_last(), sep).push(sep) + parts.last()
    }
}

/// The views of a list of string slices.
pub open spec fn texts(parts: Seq<&str>) -> Seq<Seq<char>> {
    parts.map_values(|p: &str| p@)
}

/// Whether `value` holds nothing but white space.
pub fn blank(value: &str) -> (r: bool)
    ensures
        r == is_blank(value@),
{
    let mut all: bool = true;
    for c in it: value.chars()
        invariant
            it.seq() == value@,
            all == is_blank(value@.take(it.index() as int)),
    {
        assert(value@.take(it.index() + 1) =~= value@.take(it.index() as int).push(c));
        let white: bool = ('\u{9}' <= c && c <= '\u{d}') || c == ' ' || c == '\u{85}' || c
            == '\u{a0}' || c == '\u{1680}' || ('\u{2000}' <= c && c <= '\u{200a}') || c
            == '\u{2028}' || c == '\u{2029}' || c == '\u{202f}' || c == '\u{205f}' || c
            == '\u{3000}';
        proof {
            let next = value@.take(it.index() + 1);
            let k = it.index() as int;
            assert(next[k] == c);
            if is_blank(next) {
                assert forall|i: int| 0 <= i < k implies is_white_space(#[trigger] value@.take(k)[i]) by {
                    assert(next[i] == value@.take(k)[i]);
                }
            }
        }
        all = all && white;
    }
    assert(value@.take(value@.len() as int) =~= value@);
    all
}

/// The pieces of `value` between separators, from left to right.
pub fn split_at_char<'a>(value: &'a str, sep: char) -> (parts: Vec<&'a str>)
    ensures
        texts(parts@) == split(value@, sep),
{
    let mut parts: Vec<&'a str> = Vec::new();
    let len: usize = value.unicode_len();
    let mut start: usize = 0;
    let mut at: usize = 0;
    assert(value@.take(0) =~= Seq::empty());
    assert(value@.subrange(0, 0) =~= Seq::empty());
    assert(texts(parts@).push(value@.subrange(0, 0)) =~= split(value@.take(0), sep));
    for c in it: value.chars()
        invariant
            it.seq() == value@,
            len == value@.len(),
            at == it.index(),
            start <= at <= len,
            texts(parts@).push(value@.subrange(start as int, at as int)) == split(
                value@.take(at as int),
                sep,
            ),
    {
        let ghost seen = value@.take(at as int);
        let ghost open_piece = value@.subrange(start as int, at as int);
        let ghost closed = texts(parts@);
        assert(value@.take(at + 1) =~= seen.push(c));
        assert(seen.push(c).drop_last() =~= seen);
        if c == sep {
            let part: &'a str = value.substring_char(start, at);
            parts.push(part);
            assert(texts(parts@) =~= closed.push(open_piece));
            start = at + 1;
            assert(value@.subrange(start as int, at + 1) =~= Seq::empty());
        } else {
            assert(value@.subrange(start as int, at + 1) =~= open_piece.push(c));
            let ghost pieces = closed.push(open_piece);
            assert(pieces.update(pieces.len() - 1, pieces.last().push(c)) =~= closed.push(
                open_piece.push(c),
            ));
        }
        at = at + 1;
    }
    assert(value@.take(len as int) =~= value@);
    let rest: &'a str = value.substring_char(start, len);
    let ghost closed = texts(parts@);
    parts.push(rest);
    assert(texts(parts@) =~= closed.push(rest@));
    parts
}

/// Text without a separator is one piece.
pub proof fn split_without_separator(s: Seq<char>, sep: char)
    requires
        !s.contains(sep),
    ensures
        split(s, sep) == seq![s],
    decreases s.len(),
{
    if s.len() > 0 {
        assert forall|i: int| 0 <= i < s.drop_last().len() implies s.drop_last()[i] != sep by {
            assert(s[i] == s.drop_last()[i]);
        }
        split_without_separator(s.drop_last(), sep);
        assert(s[s.len() - 1] == s.last());
        assert(s.drop_last().push(s.last()) =~= s);
        assert(split(s, sep) =~= seq![s]);
    }
}

/// Splitting after one more separated piece gives that piece at the end.
proof fn split_push_piece(s: Seq<char>, piece: Seq<char>, sep: char)
    requires
        !piece.contains(sep),
    ensures
        split(s.push(sep) + piece, sep) == split(s, sep).push(piece),
    decreases piece.len(),
{
    let whole = s.push(sep) + piece;
    if piece.len() == 0 {
        assert(whole =~= s.push(sep));
        assert(whole.drop_last() =~= s);
        assert(piece =~= Seq::empty());
    } else {
        assert forall|i: int| 0 <= i < piece.drop_last().len() implies piece.drop_last()[i]
            != sep by {
            assert(piece[i] == piece.drop_last()[i]);
        }
        split_push_piece(s, piece.drop_last(), sep);
        assert(piece[piece.len() - 1] == piece.last());
        assert(whole.drop_last() =~= s.push(sep) + piece.drop_last());
        assert(whole.last() == piece.last());
        let before = split(whole.drop_last(), sep);
        assert(piece.drop_last().push(piece.last()) =~= piece);
        assert(before.update(before.len() - 1, before.last().push(whole.last())) =~= split(
            s,
            sep,
        ).push(piece));
    }
}

/// Pieces that hold no separator, at least one of them, come back from the text that joins them.
pub proof fn split_of_join(parts: Seq<Seq<char>>, sep: char)
    requires
        parts.len() > 0,
        forall|i: int| 0 <= i < parts.len() ==> !(#[trigger] parts[i]).contains(sep),
    ensures
        split(join(parts, sep), sep) == parts,
    decreases parts.len(),
{
    if parts.len() == 1 {
        split_without_separator(parts[0], sep);
        assert(parts =~= seq![parts[0]]);
    } else {
        let init = parts.drop_last();
        assert forall|i: int| 0 <= i < init.len() implies !(#[trigger] init[i]).contains(sep) by {
            assert(init[i] == parts[i]);
        }
        split_of_join(init, sep);
        assert(parts[parts.len() - 1] == parts.last());
        split_push_piece(join(init, sep), parts.last(), sep);
        assert(init.push(parts.last()) =~= parts);
    }
}

/// The pieces of a text, joined again, give the text; no piece holds the separator.
pub proof fn join_of_split(s: Seq<char>, sep: char)
    ensures
        split(s, sep).len() > 0,
        join(split(s, sep), sep) == s,
        forall|i: int| 0 <= i < split(s, sep).len() ==> !(#[trigger] split(s, sep)[i]).contains(sep),
    decreases s.len(),
{
    let parts = split(s, sep);
    if s.len() > 0 {
        let before = split(s.drop_last(), sep);
        join_of_split(s.drop_last(), sep);
        assert(s.drop_last().push(s.last()) =~= s);
        assert(parts.drop_last().len() == parts.len() - 1);
        if s.last() == sep {
            assert(parts.drop_last() =~= before);
            assert(s.drop_last().push(sep) + Seq::empty() =~= s);
        } else {
            let c = s.last();
            assert(parts.drop_last() =~= before.drop_last());
            assert forall|i: int| 0 <= i < parts.len() implies !(#[trigger] parts[i]).contains(
                sep,
            ) by {
                assert(!before[i].contains(sep));
                if i == before.len() - 1 {
                    assert forall|j: int| 0 <= j < parts[i].len() implies parts[i][j] != sep by {
                        if j < before[i].len() {
                            assert(before[i][j] == parts[i][j]);
                        }
                    }
                }
            }
            if before.len() == 1 {
                assert(join(parts, sep) =~= s);
            } else {
                assert(join(before, sep) == join(before.drop_last(), sep).push(sep)
                    + before.last());
                assert(join(parts, sep) =~= join(before, sep).push(c));
            }
        }
    }
}

}
