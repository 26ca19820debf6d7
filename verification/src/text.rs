//! Text as a sequence of characters: splitting it, and looking for a part of it.
use vstd::prelude::*;

verus! {

/// The pieces of `text` between the characters that `separates` picks. There is
/// one piece more than there are such characters, and a piece may be empty.
pub open spec fn pieces(text: Seq<char>, separates: spec_fn(char) -> bool) -> Seq<Seq<char>>
    decreases text.len(),
{
    if text.len() == 0 {
        seq![Seq::empty()]
    } else {
        let before = pieces(text.drop_last(), separates);
        if separates(text.last()) {
            before.push(Seq::empty())
        } else {
            before.drop_last().push(before.last().push(text.last()))
        }
    }
}

/// The pieces of `text` between its spaces.
pub open spec fn fields(text: Seq<char>) -> Seq<Seq<char>> {
    pieces(text, |c: char| c == ' ')
}

/// Whether `part` stands somewhere in `text`.
pub open spec fn occurs(part: Seq<char>, text: Seq<char>) -> bool {
    exists|at: int|
        0 <= at <= text.len() - part.len() && #[trigger] text.subrange(at, at + part.len())
            == part
}

/// The characters of `text`, in order.
pub fn chars_of(text: &str) -> (chars: Vec<char>)
    ensures
        chars@ == text@,
{
    let mut chars: Vec<char> = Vec::new();
    for c in it: text.chars()
        invariant
            chars@ == it.seq().take(it.index()),
            it.seq() == text@,
    {
        chars.push(c);
    }
    assert(text@.take(text@.len() as int) == text@);
    chars
}

/// There is always at least one piece.
pub proof fn lemma_pieces_not_empty(text: Seq<char>, separates: spec_fn(char) -> bool)
    ensures
        pieces(text, separates).len() >= 1,
    decreases text.len(),
{
    if text.len() > 0 {
        lemma_pieces_not_empty(text.drop_last(), separates);
    }
}

/// A text without separators is its only piece.
pub proof fn law_unseparated_text_is_one_piece(text: Seq<char>, separates: spec_fn(char) -> bool)
    requires
        forall|i: int| 0 <= i < text.len() ==> !separates(#[trigger] text[i]),
    ensures
        pieces(text, separates) == seq![text],
    decreases text.len(),
{
    if text.len() > 0 {
        let short = text.drop_last();
        assert forall|i: int| 0 <= i < short.len() implies !separates(#[trigger] short[i]) by {
            assert(short[i] == text[i]);
        }
        law_unseparated_text_is_one_piece(short, separates);
        assert(short.push(text.last()) == text);
        assert(pieces(text, separates) == seq![text]);
    } else {
        assert(text == Seq::<char>::empty());
    }
}

/// What stands in front of a separator is split apart from what stands behind it.
pub proof fn law_separator_splits_text(
    left: Seq<char>,
    c: char,
    right: Seq<char>,
    separates: spec_fn(char) -> bool,
)
    requires
        separates(c),
    ensures
        pieces(left + seq![c] + right, separates) == pieces(left, separates) + pieces(
            right,
            separates,
        ),
    decreases right.len(),
{
    let text = left + seq![c] + right;
    let first = pieces(left, separates);
    if right.len() == 0 {
        assert(text.drop_last() == left);
        assert(text.last() == c);
        assert(first.push(Seq::empty()) == first + seq![Seq::<char>::empty()]);
    } else {
        let short = right.drop_last();
        law_separator_splits_text(left, c, short, separates);
        lemma_pieces_not_empty(short, separates);
        assert(text.drop_last() == left + seq![c] + short);
        assert(text.last() == right.last());
        let second = pieces(short, separates);
        assert((first + second).last() == second.last());
        assert((first + second).drop_last() == first + second.drop_last());
        assert(pieces(text, separates) == first + pieces(right, separates));
    }
}

/// No piece holds a separator.
pub proof fn law_pieces_hold_no_separator(
    text: Seq<char>,
    separates: spec_fn(char) -> bool,
    i: int,
    k: int,
)
    requires
        0 <= i < pieces(text, separates).len(),
        0 <= k < pieces(text, separates)[i].len(),
    ensures
        !separates(pieces(text, separates)[i][k]),
    decreases text.len(),
{
    if text.len() > 0 {
        let short = text.drop_last();
        let before = pieces(short, separates);
        lemma_pieces_not_empty(short, separates);
        if i < before.len() && k < before[i].len() {
            law_pieces_hold_no_separator(short, separates, i, k);
        }
    }
}

/// `parts` one behind the other, with `c` between them.
pub open spec fn joined(parts: Seq<Seq<char>>, c: char) -> Seq<char>
    decreases parts.len(),
{
    if parts.len() == 0 {
        Seq::empty()
    } else if parts.len() == 1 {
        parts[0]
    } else {
        joined(parts.drop_last(), c) + seq![c] + parts.last()
    }
}

/// The pieces between the occurrences of one character, joined by it, are the text.
pub proof fn law_pieces_join_to_text(text: Seq<char>, c: char)
    ensures
        joined(pieces(text, |d: char| d == c), c) == text,
    decreases text.len(),
{
    let separates = |d: char| d == c;
    let all = pieces(text, separates);
    if text.len() == 0 {
        assert(text == Seq::<char>::empty());
    } else {
        let short = text.drop_last();
        let before = pieces(short, separates);
        law_pieces_join_to_text(short, c);
        lemma_pieces_not_empty(short, separates);
        assert(text == short.push(text.last()));
        if separates(text.last()) {
            assert(all.drop_last() == before);
            assert(joined(all, c) == joined(before, c) + seq![c] + Seq::<char>::empty());
            assert(joined(all, c) == text);
        } else {
            assert(all.drop_last() == before.drop_last());
            assert(all.last() == before.last().push(text.last()));
            if before.len() == 1 {
                assert(joined(before, c) == before[0]);
                assert(joined(all, c) == all[0]);
                assert(all[0] == before[0].push(text.last()));
            } else {
                let head = joined(before.drop_last(), c) + seq![c];
                assert(joined(all, c) == head + before.last().push(text.last()));
                assert(joined(before, c) == head + before.last());
                assert(joined(all, c) == text);
            }
        }
    }
}

/// Texts that do not hold a character come back from what they are joined to by it.
pub proof fn law_joined_texts_split_again(parts: Seq<Seq<char>>, c: char)
    requires
        parts.len() > 0,
        forall|i: int, k: int|
            0 <= i < parts.len() && 0 <= k < parts[i].len() ==> #[trigger] parts[i][k] != c,
    ensures
        pieces(joined(parts, c), |d: char| d == c) == parts,
    decreases parts.len(),
{
    let separates = |d: char| d == c;
    let last = parts.last();
    assert forall|k: int| 0 <= k < last.len() implies !separates(#[trigger] last[k]) by {
        assert(parts[parts.len() - 1][k] != c);
    }
    law_unseparated_text_is_one_piece(last, separates);
    if parts.len() == 1 {
        assert(seq![last] == parts);
    } else {
        let front = parts.drop_last();
        assert forall|i: int, k: int|
            0 <= i < front.len() && 0 <= k < front[i].len() implies #[trigger] front[i][k] != c by {
            assert(parts[i][k] != c);
        }
        law_joined_texts_split_again(front, c);
        law_separator_splits_text(joined(front, c), c, last, separates);
        assert(front + seq![last] == parts);
    }
}

/// A text without spaces is a field of its own, and a space parts the fields in front of it
/// from those behind it.
pub proof fn law_spaces_part_fields(left: Seq<char>, right: Seq<char>)
    ensures
        fields(left + seq![' '] + right) == fields(left) + fields(right),
        (forall|i: int| 0 <= i < left.len() ==> #[trigger] left[i] != ' ') ==> fields(left)
            == seq![left],
{
    let is_space = |c: char| c == ' ';
    law_separator_splits_text(left, ' ', right, is_space);
    if forall|i: int| 0 <= i < left.len() ==> #[trigger] left[i] != ' ' {
        law_unseparated_text_is_one_piece(left, is_space);
    }
}

/// A part is found wherever it stands, whatever surrounds it.
pub proof fn law_part_is_found_anywhere(before: Seq<char>, part: Seq<char>, after: Seq<char>)
    ensures
        occurs(part, before + part + after),
{
    let text = before + part + after;
    let at = before.len() as int;
    assert(text.subrange(at, at + part.len()) == part);
}

/// A part is found only where it stands: what surrounds it can be told.
pub proof fn law_found_part_is_there(part: Seq<char>, text: Seq<char>) -> (around: (
    Seq<char>,
    Seq<char>,
))
    requires
        occurs(part, text),
    ensures
        text == around.0 + part + around.1,
{
    let at = choose|at: int|
        0 <= at <= text.len() - part.len() && #[trigger] text.subrange(at, at + part.len())
            == part;
    let around = (text.take(at), text.skip(at + part.len()));
    assert(text == around.0 + text.subrange(at, at + part.len()) + around.1);
    around
}

/// Splits `text` at every space.
pub fn split_fields(text: &Vec<char>) -> (parts: Vec<Vec<char>>)
    ensures
        parts@.map_values(|part: Vec<char>| part@) == fields(text@),
{
    let mut parts: Vec<Vec<char>> = Vec::new();
    let mut part: Vec<char> = Vec::new();
    let ghost view = |part: Vec<char>| part@;
    let mut i: usize = 0;
    assert(text@.take(0) == Seq::<char>::empty());
    assert(parts@.map_values(view).push(part@) == fields(text@.take(0)));
    while i < text.len()
        invariant
            i <= text.len(),
            view == (|part: Vec<char>| part@),
            parts@.map_values(view).push(part@) == fields(text@.take(i as int)),
        decreases text.len() - i,
    {
        let c = text[i];
        let ghost done = parts@.map_values(view);
        let ghost current = part@;
        proof {
            assert(text@.take(i + 1).drop_last() == text@.take(i as int));
            assert(text@.take(i + 1).last() == c);
            assert(done.push(current).drop_last() == done);
        }
        if c == ' ' {
            parts.push(part);
            part = Vec::new();
            assert(parts@.map_values(view) == done.push(current));
        } else {
            part.push(c);
        }
        i = i + 1;
    }
    let ghost done = parts@.map_values(view);
    let ghost current = part@;
    parts.push(part);
    proof {
        assert(text@.take(i as int) == text@);
        assert(parts@.map_values(view) == done.push(current));
    }
    parts
}

/// Whether `part` stands somewhere in `text`.
pub fn contains(text: &Vec<char>, part: &Vec<char>) -> (found: bool)
    ensures
        found == occurs(part@, text@),
        found <==> exists|before: Seq<char>, after: Seq<char>|
            text@ == #[trigger] (before + part@ + after),
{
    let mut at: usize = 0;
    while part.len() <= text.len() && at <= text.len() - part.len()
        invariant
            part.len() <= text.len() ==> at <= text.len() - part.len() + 1,
            forall|k: int|
                0 <= k < at ==> #[trigger] text@.subrange(k, k + part@.len()) != part@,
        decreases text.len() - at,
    {
        let mut same: usize = 0;
        while same < part.len() && text[at + same] == part[same]
            invariant
                same <= part.len(),
                at + part.len() <= text.len(),
                text@.subrange(at as int, at + same) == part@.take(same as int),
            decreases part.len() - same,
        {
            assert(text@.subrange(at as int, at + same + 1) == text@.subrange(
                at as int,
                at + same,
            ).push(text@[at + same]));
            assert(part@.take(same + 1) == part@.take(same as int).push(part@[same as int]));
            same = same + 1;
        }
        if same == part.len() {
            proof {
                assert(part@.take(same as int) == part@);
                let around = law_found_part_is_there(part@, text@);
                assert(text@ == around.0 + part@ + around.1);
            }
            return true;
        }
        assert(text@.subrange(at as int, at + part@.len())[same as int] != part@[same as int]);
        at = at + 1;
    }
    proof {
        assert forall|before: Seq<char>, after: Seq<char>| text@ != #[trigger] (before + part@
            + after) by {
            law_part_is_found_anywhere(before, part@, after);
        }
    }
    false
}

} // verus!
