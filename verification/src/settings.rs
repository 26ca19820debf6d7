//! The settings of GIMP's curve tool: a LISP-like text in which every curve stands as a
//! list of samples on a line of its own.
use crate::curve::{
    apply_gray, curve_in, law_colour_is_looked_up_in_gray, law_curve_is_read_number_by_number, scaled,
    through_gray, try_parse_curve,
};
use crate::number::is_digit;
use crate::sample::SampleError;
use crate::text::{
    chars_of, contains, fields, law_separator_splits_text,
    law_unseparated_text_is_one_piece, occurs, pieces,
};
use regex::Regex;
use vstd::prelude::*;

verus! {

/// A line that holds samples, in the notation of regular expressions: `(samples`, their
/// number, the samples, and two brackets that end the line.
///
/// The flags let `^` and `$` match at every line, whether it ends in a line feed, a
/// carriage return or both.
pub const SAMPLES_PATTERN: &'static str = r"(?Rm)^ *\(samples \d+ (.*)\)\)$";

/// Why settings cannot be read.
#[derive(Debug, Clone, Copy, PartialEq, Eq, Structural)]
pub enum SettingsError {
    /// There are less than four lists of samples.
    TooFewCurves,
    /// A number in one of the first four lists is no value of a curve.
    BadSample { curve: usize, error: SampleError },
    /// The first list does not have 256 samples.
    GrayLength,
}

// ---- Where the samples stand ----

/// What starts a list of samples.
pub open spec fn opening() -> Seq<char> {
    seq!['(', 's', 'a', 'm', 'p', 'l', 'e', 's', ' ']
}

/// What ends a list of samples.
pub open spec fn closing() -> Seq<char> {
    seq![')', ')']
}

/// Nothing but spaces.
pub open spec fn is_blank(text: Seq<char>) -> bool {
    forall|i: int| 0 <= i < text.len() ==> #[trigger] text[i] == ' '
}

/// Where the digits from zero to nine of other scripts start, as of Unicode 16.
#[verifier::opaque]
pub open spec fn foreign_zeros() -> Seq<u32> {
    seq![
        0x660, 0x6f0, 0x7c0, 0x966, 0x9e6, 0xa66, 0xae6, 0xb66, 0xbe6, 0xc66, 0xce6, 0xd66, 0xde6,
        0xe50, 0xed0, 0xf20, 0x1040, 0x1090, 0x17e0, 0x1810, 0x1946, 0x19d0, 0x1a80, 0x1a90,
        0x1b50, 0x1bb0, 0x1c40, 0x1c50, 0xa620, 0xa8d0, 0xa900, 0xa9d0, 0xa9f0, 0xaa50, 0xabf0,
        0xff10, 0x104a0, 0x10d30, 0x10d40, 0x11066, 0x110f0, 0x11136, 0x111d0, 0x112f0, 0x11450,
        0x114d0, 0x11650, 0x116c0, 0x116d0, 0x116da, 0x11730, 0x118e0, 0x11950, 0x11bf0, 0x11c50,
        0x11d50, 0x11da0, 0x11f50, 0x16130, 0x16a60, 0x16ac0, 0x16b50, 0x16d70, 0x1ccf0, 0x1d7ce,
        0x1d7d8, 0x1d7e2, 0x1d7ec, 0x1d7f6, 0x1e140, 0x1e2f0, 0x1e4f0, 0x1e5f1, 0x1e950, 0x1fbf0,
    ]
}

/// A decimal digit, of whatever script: a character of Unicode's category `Nd`.
pub open spec fn is_decimal(c: char) -> bool {
    is_digit(c) || (c as u32 >= 0x660 && exists|i: int|
        0 <= i < foreign_zeros().len() && #[trigger] foreign_zeros()[i] <= c as u32
            <= foreign_zeros()[i] + 9)
}

/// Nothing but decimal digits.
pub open spec fn all_decimals(text: Seq<char>) -> bool {
    forall|i: int| 0 <= i < text.len() ==> is_decimal(#[trigger] text[i])
}

/// The list of samples `list` on a line, behind the indentation `pad` and with the number
/// `count` in front of it.
pub open spec fn written_line(pad: Seq<char>, count: Seq<char>, list: Seq<char>) -> Seq<char> {
    pad + opening() + count + seq![' '] + list + closing()
}

/// `line` is made of the indentation `pad`, the number `count` and the list `list`.
pub open spec fn line_parts(
    line: Seq<char>,
    pad: Seq<char>,
    count: Seq<char>,
    list: Seq<char>,
) -> bool {
    &&& is_blank(pad)
    &&& all_decimals(count)
    &&& count.len() > 0
    &&& line == written_line(pad, count, list)
}

/// `line` holds the list of samples `list`.
pub open spec fn line_holds(line: Seq<char>, list: Seq<char>) -> bool {
    exists|pad: Seq<char>, count: Seq<char>| line_parts(line, pad, count, list)
}

/// A line feed or a carriage return.
pub open spec fn is_line_break(c: char) -> bool {
    c == '\n' || c == '\r'
}

/// The lines of `text`. Where two line breaks meet, the line between them is empty.
pub open spec fn lines(text: Seq<char>) -> Seq<Seq<char>> {
    pieces(text, |c: char| is_line_break(c))
}

/// The lists of samples that `lines` hold.
pub open spec fn lists_of(lines: Seq<Seq<char>>) -> Seq<Seq<char>>
    decreases lines.len(),
{
    if lines.len() == 0 {
        Seq::empty()
    } else {
        let before = lists_of(lines.drop_last());
        if exists|list: Seq<char>| line_holds(lines.last(), list) {
            before.push(choose|list: Seq<char>| line_holds(lines.last(), list))
        } else {
            before
        }
    }
}

/// The lists of samples that stand in `text`, one line each.
pub open spec fn lists_in(text: Seq<char>) -> Seq<Seq<char>> {
    lists_of(lines(text))
}

/// The texts that a list of strings holds.
pub open spec fn texts(strings: Seq<String>) -> Seq<Seq<char>> {
    strings.map_values(|string: String| string@)
}

/// Collects what the first group of `SAMPLES_PATTERN` matches, with
/// `regex::Regex::captures_iter`.
///
/// It is the lists of samples that the lines hold, in order. The pattern takes up a whole
/// line, since `^` and `$` match at line breaks alone and `.` matches none. `\d` matches the
/// decimal digits of every script, and the group always takes part in a match.
#[verifier::external_body]
fn match_samples(pattern: &str, text: &str) -> (lists: Vec<String>)
    requires
        pattern@ == SAMPLES_PATTERN@,
    ensures
        texts(lists@) == lists_in(text@),
{
    Regex::new(pattern)
        .unwrap()
        .captures_iter(text)
        .map(|captures| captures.get(1).unwrap().as_str().to_string())
        .collect()
}

// ---- What they amount to ----

/// The first `count` colour channels: each of the lists behind the first one, seen
/// through the gray curve.
pub open spec fn colours_of(gray: Seq<u16>, lists: Seq<Seq<char>>, count: nat) -> Result<
    Seq<Seq<u16>>,
    SettingsError,
>
    decreases count,
{
    if count == 0 {
        Ok(Seq::empty())
    } else {
        match colours_of(gray, lists, (count - 1) as nat) {
            Ok(before) => match curve_in(lists[count as int]) {
                Ok(colour) => Ok(before.push(through_gray(gray, colour))),
                Err(error) => Err(SettingsError::BadSample { curve: count as usize, error }),
            },
            Err(error) => Err(error),
        }
    }
}

/// The three colour channels that lists of samples give: a gray curve, the curves of red,
/// green and blue, and possibly more that do not matter.
pub open spec fn channels_of(lists: Seq<Seq<char>>) -> Result<Seq<Seq<u16>>, SettingsError> {
    if lists.len() < 4 {
        Err(SettingsError::TooFewCurves)
    } else {
        match curve_in(lists[0]) {
            Ok(gray) => if gray.len() == 256 {
                colours_of(gray, lists, 3)
            } else {
                Err(SettingsError::GrayLength)
            },
            Err(error) => Err(SettingsError::BadSample { curve: 0, error }),
        }
    }
}

/// The three colour channels that the settings in `text` give.
pub open spec fn channels_in(text: Seq<char>) -> Result<Seq<Seq<u16>>, SettingsError> {
    channels_of(lists_in(text))
}

/// The curves that a list of vectors holds.
pub open spec fn curves(vectors: Seq<Vec<u16>>) -> Seq<Seq<u16>> {
    vectors.map_values(|vector: Vec<u16>| vector@)
}

/// `channels` is what `lists` give: the three colour channels, or why there are none.
pub open spec fn gives(
    lists: Seq<Seq<char>>,
    channels: Result<Vec<Vec<u16>>, SettingsError>,
) -> bool {
    match channels {
        Ok(found) => channels_of(lists) == Ok::<Seq<Seq<u16>>, SettingsError>(curves(found@)),
        Err(error) => channels_of(lists) == Err::<Seq<Seq<u16>>, SettingsError>(error),
    }
}

/// Combines the gray curve, the first list, with the curves of the three colours, the next
/// three, to three channels.
pub fn channels_from_lists(lists: &Vec<String>) -> (channels: Result<Vec<Vec<u16>>, SettingsError>)
    ensures
        gives(texts(lists@), channels),
        match channels {
            Ok(found) => {
                &&& lists@.len() >= 4
                &&& found@.len() == 3
                &&& forall|k: int, i: int|
                    0 <= k < 3 && 0 <= i < found@[k]@.len() ==> #[trigger] found@[k]@[i]
                        == curve_in(lists@[0]@)->Ok_0[curve_in(lists@[k + 1]@)->Ok_0[i] as int / 257]
            },
            Err(_) => true,
        },
{
    let ghost written = texts(lists@);
    if lists.len() < 4 {
        return Err(SettingsError::TooFewCurves);
    }
    assert(written[0] == lists@[0]@);
    let gray = match try_parse_curve(lists[0].as_str()) {
        Ok(gray) => gray,
        Err(error) => {
            return Err(SettingsError::BadSample { curve: 0, error });
        },
    };
    if gray.len() != 256 {
        return Err(SettingsError::GrayLength);
    }
    let mut channels: Vec<Vec<u16>> = Vec::new();
    let mut i: usize = 1;
    assert(curves(channels@) == Seq::<Seq<u16>>::empty());
    while i < 4
        invariant
            1 <= i <= 4,
            4 <= lists.len(),
            gray.len() == 256,
            written == texts(lists@),
            colours_of(gray@, written, (i - 1) as nat) == Ok::<Seq<Seq<u16>>, SettingsError>(
                curves(channels@),
            ),
            channels_of(written) == colours_of(gray@, written, 3),
        decreases 4 - i,
    {
        assert(written[i as int] == lists@[i as int]@);
        match try_parse_curve(lists[i].as_str()) {
            Ok(colour) => {
                let ghost before = channels@;
                let channel = apply_gray(&gray, &colour);
                channels.push(channel);
                assert(curves(channels@) == curves(before).push(channel@));
            },
            Err(error) => {
                let stopped = SettingsError::BadSample { curve: i, error };
                proof {
                    lemma_colours_stop(gray@, written, i as nat, 3, stopped);
                }
                return Err(stopped);
            },
        }
        i = i + 1;
    }
    proof {
        lemma_found_channels(written, curves(channels@));
        assert forall|k: int, i: int|
            0 <= k < 3 && 0 <= i < channels@[k]@.len() implies #[trigger] channels@[k]@[i]
            == curve_in(lists@[0]@)->Ok_0[curve_in(lists@[k + 1]@)->Ok_0[i] as int / 257] by {
            assert(written[0] == lists@[0]@);
            assert(written[k + 1] == lists@[k + 1]@);
            assert(curves(channels@)[k] == channels@[k]@);
            assert(curves(channels@)[k][i] == channels@[k]@[i]);
        }
    }
    Ok(channels)
}

/// What the channels that lists give hold, value by value.
proof fn lemma_found_channels(lists: Seq<Seq<char>>, found: Seq<Seq<u16>>)
    requires
        channels_of(lists) == Ok::<Seq<Seq<u16>>, SettingsError>(found),
    ensures
        found.len() == 3,
        forall|k: int, i: int|
            0 <= k < 3 && 0 <= i < found[k].len() ==> #[trigger] found[k][i] == curve_in(
                lists[0],
            )->Ok_0[curve_in(lists[k + 1])->Ok_0[i] as int / 257],
        forall|k: int|
            0 <= k < 3 ==> (#[trigger] found[k]).len() == curve_in(lists[k + 1])->Ok_0.len(),
        lists.len() >= 4,
        curve_in(lists[0])->Ok_0.len() == 256,
        forall|k: int| 0 <= k < 4 ==> curve_in(#[trigger] lists[k]) is Ok,
{
    law_when_settings_are_read(lists);
    let gray = curve_in(lists[0])->Ok_0;
    assert(curve_in(lists[0]) is Ok);
    law_curve_is_read_number_by_number(fields(lists[0]), gray);
    assert forall|k: int, i: int|
        0 <= k < 3 && 0 <= i < found[k].len() implies #[trigger] found[k][i] == gray[curve_in(
        lists[k + 1],
    )->Ok_0[i] as int / 257] by {
        assert(found[k] == through_gray(gray, curve_in(lists[k + 1])->Ok_0));
        law_colour_is_looked_up_in_gray(gray, curve_in(lists[k + 1])->Ok_0, i);
    }
    assert forall|k: int| 0 <= k < 3 implies (#[trigger] found[k]).len() == curve_in(
        lists[k + 1],
    )->Ok_0.len() by {
        assert(found[k] == through_gray(gray, curve_in(lists[k + 1])->Ok_0));
    }
}

/// A channel that cannot be had is not made up for by those behind it.
proof fn lemma_colours_stop(
    gray: Seq<u16>,
    lists: Seq<Seq<char>>,
    count: nat,
    total: nat,
    error: SettingsError,
)
    requires
        count <= total,
        colours_of(gray, lists, count) == Err::<Seq<Seq<u16>>, SettingsError>(error),
    ensures
        colours_of(gray, lists, total) == Err::<Seq<Seq<u16>>, SettingsError>(error),
    decreases total - count,
{
    if count < total {
        assert(colours_of(gray, lists, count + 1) == Err::<Seq<Seq<u16>>, SettingsError>(error));
        lemma_colours_stop(gray, lists, count + 1, total, error);
    }
}

/// The lists of samples in `text`.
pub fn sample_lists(text: &str) -> (lists: Vec<String>)
    ensures
        texts(lists@) == lists_in(text@),
{
    match_samples(SAMPLES_PATTERN, text)
}

/// Parses GIMP's new curve format to one curve for each of red, green and blue, or tells
/// why it cannot.
pub fn try_parse_curves(text: String) -> (channels: Result<Vec<Vec<u16>>, SettingsError>)
    ensures
        gives(lists_in(text@), channels),
        match channels {
            Ok(found) => channels_in(text@) == Ok::<Seq<Seq<u16>>, SettingsError>(curves(found@)),
            Err(error) => channels_in(text@) == Err::<Seq<Seq<u16>>, SettingsError>(error),
        },
        channels matches Ok(found) ==> {
            &&& found@.len() == 3
            &&& forall|k: int, i: int|
                0 <= k < 3 && 0 <= i < found@[k]@.len() ==> #[trigger] found@[k]@[i] == curve_in(
                    lists_in(text@)[0],
                )->Ok_0[curve_in(lists_in(text@)[k + 1])->Ok_0[i] as int / 257]
        },
{
    let lists = sample_lists(text.as_str());
    let channels = channels_from_lists(&lists);
    proof {
        assert forall|k: int| 0 <= k < lists@.len() implies #[trigger] lists_in(text@)[k]
            == lists@[k]@ by {
            assert(texts(lists@)[k] == lists@[k]@);
        }
    }
    channels
}

/// Parses GIMP's new curve format, which is formatted in a LISP-like way, to one curve for
/// each of red, green and blue.
pub fn parse_curves(text: String) -> (channels: Vec<Vec<u16>>)
    requires
        channels_in(text@) is Ok,
    ensures
        channels_in(text@) == Ok::<Seq<Seq<u16>>, SettingsError>(curves(channels@)),
        channels@.len() == 3,
        forall|k: int, i: int|
            0 <= k < 3 && 0 <= i < channels@[k]@.len() ==> #[trigger] channels@[k]@[i] == curve_in(
                lists_in(text@)[0],
            )->Ok_0[curve_in(lists_in(text@)[k + 1])->Ok_0[i] as int / 257],
{
    try_parse_curves(text).unwrap()
}

/// Whether the settings say that the curve is meant for linear light.
pub fn is_linear_light(text: &str) -> (linear: bool)
    ensures
        linear == occurs("linear yes"@, text@),
        linear <==> exists|before: Seq<char>, after: Seq<char>|
            text@ == #[trigger] (before + "linear yes"@ + after),
{
    contains(&chars_of(text), &chars_of("linear yes"))
}

// ---- Laws ----

/// A line holds no more than one list of samples.
pub proof fn law_line_holds_one_list(line: Seq<char>, list: Seq<char>, other: Seq<char>)
    requires
        line_holds(line, list),
        line_holds(line, other),
    ensures
        list == other,
{
    let (pad, count) = choose|pad: Seq<char>, count: Seq<char>| line_parts(line, pad, count, list);
    let (pad2, count2) = choose|pad: Seq<char>, count: Seq<char>|
        line_parts(line, pad, count, other);
    lemma_line_layout(line, pad, count, list);
    lemma_line_layout(line, pad2, count2, other);
    assert(pad.len() == pad2.len()) by {
        if pad.len() < pad2.len() {
            assert(line[pad.len() as int] == '(');
            assert(pad2[pad.len() as int] == ' ');
        }
        if pad2.len() < pad.len() {
            assert(line[pad2.len() as int] == '(');
            assert(pad[pad2.len() as int] == ' ');
        }
    }
    assert(count.len() == count2.len()) by {
        let start: int = pad.len() + 9int;
        if count.len() < count2.len() {
            assert(line[start + count.len()] == ' ');
            assert(count2[count.len() as int] == line[start + count.len()]);
        }
        if count2.len() < count.len() {
            assert(line[start + count2.len()] == ' ');
            assert(count[count2.len() as int] == line[start + count2.len()]);
        }
    }
}

/// Where the parts of a line with samples stand in it.
proof fn lemma_line_layout(line: Seq<char>, pad: Seq<char>, count: Seq<char>, list: Seq<char>)
    requires
        line_parts(line, pad, count, list),
    ensures
        line.len() == pad.len() + count.len() + list.len() + 12,
        forall|i: int| 0 <= i < pad.len() ==> #[trigger] pad[i] == line[i],
        line[pad.len() as int] == '(',
        forall|i: int| 0 <= i < count.len() ==> #[trigger] count[i] == line[pad.len() + 9 + i],
        line[pad.len() + 9int + count.len()] == ' ',
        list == line.subrange((pad.len() + count.len() + 10) as int, line.len() - 2),
{
    assert(list == line.subrange((pad.len() + count.len() + 10) as int, line.len() - 2));
    assert(opening()[0] == '(');
}

/// A list without line breaks that is written on a line is the list that is read, whatever
/// its indentation and the number in front of it.
pub proof fn law_written_list_is_read(pad: Seq<char>, count: Seq<char>, list: Seq<char>)
    requires
        is_blank(pad),
        all_decimals(count),
        count.len() > 0,
        forall|i: int| 0 <= i < list.len() ==> !is_line_break(#[trigger] list[i]),
    ensures
        lists_in(written_line(pad, count, list)) == seq![list],
{
    let line = written_line(pad, count, list);
    let breaks = |c: char| is_line_break(c);
    assert forall|i: int| 0 <= i < line.len() implies !breaks(#[trigger] line[i]) by {
        let start = pad.len() + 9 + count.len();
        if i < pad.len() {
            assert(line[i] == pad[i]);
        } else if i < pad.len() + 9 {
            assert(line[i] == opening()[i - pad.len()]);
        } else if i < start {
            assert(line[i] == count[i - pad.len() - 9]);
        } else if i == start {
            assert(line[i] == ' ');
        } else if i < start + 1 + list.len() {
            assert(line[i] == list[i - start - 1]);
        } else {
            assert(line[i] == closing()[i - start - 1 - list.len()]);
        }
    }
    law_unseparated_text_is_one_piece(line, breaks);
    assert(lines(line) == seq![line]);
    assert(line_parts(line, pad, count, list));
    assert(line_holds(line, list));
    assert(seq![line].drop_last() == Seq::<Seq<char>>::empty());
    assert(lists_of(Seq::<Seq<char>>::empty()) == Seq::<Seq<char>>::empty());
    let read = lists_of(seq![line])[0];
    assert(seq![line].last() == line);
    assert(line_holds(line, read));
    law_line_holds_one_list(line, list, read);
    assert(lists_in(line) == seq![list]);
}

/// A line with a list of samples, spelled out: spaces, `(samples `, decimal digits, a space,
/// the list, and two brackets.
pub proof fn law_spelled_line_is_read(pad: Seq<char>, count: Seq<char>, list: Seq<char>)
    requires
        forall|i: int| 0 <= i < pad.len() ==> #[trigger] pad[i] == ' ',
        count.len() > 0,
        forall|i: int| 0 <= i < count.len() ==> is_decimal(#[trigger] count[i]),
        forall|i: int| 0 <= i < list.len() ==> #[trigger] list[i] != '\n' && list[i] != '\r',
    ensures
        lists_in(pad + "(samples "@ + count + " "@ + list + "))"@) == seq![list],
{
    reveal_strlit("(samples ");
    reveal_strlit(" ");
    reveal_strlit("))");
    assert("(samples "@ == opening());
    assert(" "@ == seq![' ']);
    assert("))"@ == closing());
    assert forall|i: int| 0 <= i < list.len() implies !is_line_break(#[trigger] list[i]) by {
        assert(list[i] != '\n');
    }
    law_written_list_is_read(pad, count, list);
}

/// A text without line breaks gives one list at most, and only where it is spelled like a
/// line with that list. Indentation and number can be told.
pub proof fn law_read_line_is_spelled_out(line: Seq<char>) -> (parts: (Seq<char>, Seq<char>))
    requires
        forall|i: int| 0 <= i < line.len() ==> #[trigger] line[i] != '\n' && line[i] != '\r',
        lists_in(line).len() > 0,
    ensures
        lists_in(line).len() == 1,
        line == parts.0 + "(samples "@ + parts.1 + " "@ + lists_in(line)[0] + "))"@,
        forall|i: int| 0 <= i < parts.0.len() ==> #[trigger] parts.0[i] == ' ',
        parts.1.len() > 0,
        forall|i: int| 0 <= i < parts.1.len() ==> is_decimal(#[trigger] parts.1[i]),
{
    let breaks = |c: char| is_line_break(c);
    assert forall|i: int| 0 <= i < line.len() implies !breaks(#[trigger] line[i]) by {
        assert(line[i] != '\n');
    }
    law_unseparated_text_is_one_piece(line, breaks);
    assert(lines(line) == seq![line]);
    assert(seq![line].drop_last() == Seq::<Seq<char>>::empty());
    assert(lists_of(Seq::<Seq<char>>::empty()) == Seq::<Seq<char>>::empty());
    assert(seq![line].last() == line);
    let list = lists_in(line)[0];
    assert(line_holds(line, list));
    let (pad, count) = choose|pad: Seq<char>, count: Seq<char>| line_parts(line, pad, count, list);
    reveal_strlit("(samples ");
    reveal_strlit(" ");
    reveal_strlit("))");
    assert("(samples "@ == opening());
    assert(" "@ == seq![' ']);
    assert("))"@ == closing());
    (pad, count)
}

/// Below U+0660 the ten digits of ASCII are the only decimal digits.
pub proof fn law_decimals_below_other_scripts(c: char)
    requires
        (c as u32) < 0x660,
    ensures
        is_decimal(c) <==> '0' <= c <= '9',
{
}

/// A line feed or a carriage return parts the lists in front of it from those behind it.
pub proof fn law_line_breaks_part_lists(before: Seq<char>, c: char, after: Seq<char>)
    requires
        c == '\n' || c == '\r',
    ensures
        lists_in(before + seq![c] + after) == lists_in(before) + lists_in(after),
{
    law_lines_are_read_apart(before, c, after);
}

/// Where settings can be read, channel `k` is the curve of list `k + 1`, looked up value by
/// value in the curve of the first list.
pub proof fn law_channels_are_colours_in_gray(text: Seq<char>, k: int, i: int)
    requires
        channels_in(text) is Ok,
        0 <= k < 3,
        0 <= i < curve_in(lists_in(text)[k + 1])->Ok_0.len(),
    ensures
        channels_in(text)->Ok_0.len() == 3,
        channels_in(text)->Ok_0[k].len() == curve_in(lists_in(text)[k + 1])->Ok_0.len(),
        channels_in(text)->Ok_0[k][i] == curve_in(lists_in(text)[0])->Ok_0[curve_in(
            lists_in(text)[k + 1],
        )->Ok_0[i] as int / 257],
{
    lemma_found_channels(lists_in(text), channels_in(text)->Ok_0);
    assert(channels_in(text)->Ok_0[k].len() == curve_in(lists_in(text)[k + 1])->Ok_0.len());
}

/// Settings can be read exactly when there are four lists, all four are curves, and the first
/// has 256 values. Where they cannot, what comes first is the reason: too few lists, a number
/// of the first list, the length of the first list, or a number of the three lists behind it,
/// in their order.
pub proof fn law_why_settings_are_not_read(text: Seq<char>, curve: usize, error: SampleError)
    ensures
        channels_in(text) is Ok <==> {
            &&& lists_in(text).len() >= 4
            &&& forall|i: int| 0 <= i < 4 ==> curve_in(#[trigger] lists_in(text)[i]) is Ok
            &&& curve_in(lists_in(text)[0])->Ok_0.len() == 256
        },
        channels_in(text) == Err::<Seq<Seq<u16>>, SettingsError>(SettingsError::TooFewCurves)
            <==> lists_in(text).len() < 4,
        channels_in(text) == Err::<Seq<Seq<u16>>, SettingsError>(SettingsError::GrayLength) <==> {
            &&& lists_in(text).len() >= 4
            &&& curve_in(lists_in(text)[0]) is Ok
            &&& curve_in(lists_in(text)[0])->Ok_0.len() != 256
        },
        channels_in(text) == Err::<Seq<Seq<u16>>, SettingsError>(
            SettingsError::BadSample { curve, error },
        ) <==> {
            &&& lists_in(text).len() >= 4
            &&& curve < 4
            &&& curve_in(lists_in(text)[curve as int]) == Err::<Seq<u16>, SampleError>(error)
            &&& forall|i: int| 0 <= i < curve ==> curve_in(#[trigger] lists_in(text)[i]) is Ok
            &&& curve > 0 ==> curve_in(lists_in(text)[0])->Ok_0.len() == 256
        },
{
    let lists = lists_in(text);
    law_when_settings_are_read(lists);
    if lists.len() >= 4 {
        match curve_in(lists[0]) {
            Ok(gray) => {
                law_curve_is_read_number_by_number(fields(lists[0]), gray);
                lemma_colour_errors(gray, lists, curve, error);
            },
            Err(_) => {},
        }
    }
}

proof fn lemma_colour_errors(
    gray: Seq<u16>,
    lists: Seq<Seq<char>>,
    curve: usize,
    error: SampleError,
)
    ensures
        colours_of(gray, lists, 3) != Err::<Seq<Seq<u16>>, SettingsError>(
            SettingsError::TooFewCurves,
        ),
        colours_of(gray, lists, 3) != Err::<Seq<Seq<u16>>, SettingsError>(
            SettingsError::GrayLength,
        ),
        colours_of(gray, lists, 3) == Err::<Seq<Seq<u16>>, SettingsError>(
            SettingsError::BadSample { curve, error },
        ) <==> {
            &&& 0 < curve < 4
            &&& curve_in(lists[curve as int]) == Err::<Seq<u16>, SampleError>(error)
            &&& forall|i: int| 0 < i < curve ==> curve_in(#[trigger] lists[i]) is Ok
        },
{
    reveal_with_fuel(colours_of, 4);
    assert(colours_of(gray, lists, 0) is Ok);
    assert(colours_of(gray, lists, 1) is Ok <==> curve_in(lists[1]) is Ok);
    assert(colours_of(gray, lists, 2) is Ok <==> curve_in(lists[1]) is Ok && curve_in(
        lists[2],
    ) is Ok);
}

/// The texts of strings and the curves of vectors are those of each, in their order.
pub proof fn law_views_keep_the_order(strings: Seq<String>, vectors: Seq<Vec<u16>>, i: int)
    ensures
        texts(strings).len() == strings.len(),
        0 <= i < strings.len() ==> texts(strings)[i] == strings[i]@,
        curves(vectors).len() == vectors.len(),
        0 <= i < vectors.len() ==> curves(vectors)[i] == vectors[i]@,
{
}

/// A text without line breaks that does not hold a list of samples gives none.
pub proof fn law_other_line_gives_no_list(line: Seq<char>)
    requires
        forall|i: int| 0 <= i < line.len() ==> !is_line_break(#[trigger] line[i]),
        forall|list: Seq<char>| !line_holds(line, list),
    ensures
        lists_in(line) == Seq::<Seq<char>>::empty(),
{
    law_unseparated_text_is_one_piece(line, |c: char| is_line_break(c));
    assert(seq![line].drop_last() == Seq::<Seq<char>>::empty());
    assert(lists_of(Seq::<Seq<char>>::empty()) == Seq::<Seq<char>>::empty());
}

proof fn lemma_lists_of_more_lines(first: Seq<Seq<char>>, second: Seq<Seq<char>>)
    ensures
        lists_of(first + second) == lists_of(first) + lists_of(second),
    decreases second.len(),
{
    let all = first + second;
    if second.len() == 0 {
        assert(all == first);
        assert(lists_of(first) + Seq::<Seq<char>>::empty() == lists_of(first));
    } else {
        lemma_lists_of_more_lines(first, second.drop_last());
        assert(all.drop_last() == first + second.drop_last());
        assert(all.last() == second.last());
        assert(lists_of(all) == lists_of(first) + lists_of(second));
    }
}

/// The lines on either side of a line break are read apart.
pub proof fn law_lines_are_read_apart(before: Seq<char>, c: char, after: Seq<char>)
    requires
        is_line_break(c),
    ensures
        lists_in(before + seq![c] + after) == lists_in(before) + lists_in(after),
{
    law_separator_splits_text(before, c, after, |d: char| is_line_break(d));
    lemma_lists_of_more_lines(lines(before), lines(after));
}

/// Nothing stands on an empty line.
proof fn lemma_empty_text_gives_no_list()
    ensures
        lists_in(Seq::<char>::empty()) == Seq::<Seq<char>>::empty(),
{
    let empty = Seq::<char>::empty();
    assert forall|list: Seq<char>| !line_holds(empty, list) by {
        assert forall|pad: Seq<char>, count: Seq<char>| !line_parts(empty, pad, count, list) by {
            if line_parts(empty, pad, count, list) {
                lemma_line_layout(empty, pad, count, list);
            }
        }
    }
    law_other_line_gives_no_list(empty);
}

/// A line break at the end of a text makes no difference.
proof fn lemma_break_at_the_end(text: Seq<char>, c: char)
    requires
        is_line_break(c),
    ensures
        lists_in(text.push(c)) == lists_in(text),
{
    let empty = Seq::<char>::empty();
    law_lines_are_read_apart(text, c, empty);
    lemma_empty_text_gives_no_list();
    assert(text + seq![c] + empty == text.push(c));
    assert(lists_in(text) + Seq::<Seq<char>>::empty() == lists_in(text));
}

/// The lists of samples `lists`, each on a line that ends in `c`.
pub open spec fn written_lines(
    pad: Seq<char>,
    count: Seq<char>,
    lists: Seq<Seq<char>>,
    c: char,
) -> Seq<char>
    decreases lists.len(),
{
    if lists.len() == 0 {
        Seq::empty()
    } else {
        written_lines(pad, count, lists.drop_last(), c) + written_line(
            pad,
            count,
            lists.last(),
        ).push(c)
    }
}

/// Lists that are written line by line are the lists that are read, in their order.
pub proof fn law_written_lists_are_read(
    pad: Seq<char>,
    count: Seq<char>,
    lists: Seq<Seq<char>>,
    c: char,
)
    requires
        is_blank(pad),
        all_decimals(count),
        count.len() > 0,
        forall|i: int, k: int|
            0 <= i < lists.len() && 0 <= k < lists[i].len() ==> !is_line_break(
                #[trigger] lists[i][k],
            ),
        is_line_break(c),
    ensures
        lists_in(written_lines(pad, count, lists, c)) == lists,
    decreases lists.len(),
{
    if lists.len() == 0 {
        lemma_empty_text_gives_no_list();
    } else {
        let last = lists.last();
        let line = written_line(pad, count, last);
        assert forall|k: int| 0 <= k < last.len() implies !is_line_break(#[trigger] last[k]) by {
            assert(!is_line_break(lists[lists.len() - 1][k]));
        }
        law_written_list_is_read(pad, count, last);
        lemma_break_at_the_end(line, c);
        let front = lists.drop_last();
        assert forall|i: int, k: int|
            0 <= i < front.len() && 0 <= k < front[i].len() implies !is_line_break(
            #[trigger] front[i][k],
        ) by {
            assert(!is_line_break(lists[i][k]));
        }
        law_written_lists_are_read(pad, count, front, c);
        assert(front + seq![last] == lists);
        let before = written_lines(pad, count, front, c);
        if front.len() == 0 {
            assert(before + line.push(c) == line.push(c));
        } else {
            let row = written_lines(pad, count, front.drop_last(), c) + written_line(
                pad,
                count,
                front.last(),
            );
            assert(before == row.push(c));
            lemma_break_at_the_end(row, c);
            law_lines_are_read_apart(row, c, line.push(c));
            assert(row + seq![c] + line.push(c) == before + line.push(c));
        }
    }
}

/// What follows the lines of the first four lists makes no difference, whatever it is.
pub proof fn law_what_follows_is_ignored(text: Seq<char>, more: Seq<char>)
    requires
        text.len() > 0,
        is_line_break(text.last()),
        lists_in(text).len() >= 4,
    ensures
        channels_in(text + more) == channels_in(text),
{
    let before = text.drop_last();
    let c = text.last();
    assert(before.push(c) == text);
    assert(before + seq![c] + more == text + more);
    lemma_break_at_the_end(before, c);
    law_lines_are_read_apart(before, c, more);
    law_further_lists_do_not_matter(lists_in(text), lists_in(more));
}

/// `text`, with a carriage return in front of every line feed.
pub open spec fn with_returns(text: Seq<char>) -> Seq<char>
    decreases text.len(),
{
    if text.len() == 0 {
        Seq::empty()
    } else if text.last() == '\n' {
        with_returns(text.drop_last()) + seq!['\r', '\n']
    } else {
        with_returns(text.drop_last()).push(text.last())
    }
}

proof fn lemma_returns_split(before: Seq<char>, after: Seq<char>)
    ensures
        with_returns(before + after) == with_returns(before) + with_returns(after),
    decreases after.len(),
{
    let text = before + after;
    if after.len() == 0 {
        assert(text == before);
        assert(with_returns(before) + Seq::<char>::empty() == with_returns(before));
    } else {
        let short = after.drop_last();
        lemma_returns_split(before, short);
        assert(text.drop_last() == before + short);
        assert(text.last() == after.last());
        assert(with_returns(text) == with_returns(before) + with_returns(after));
    }
}

proof fn lemma_returns_keep_lines(text: Seq<char>)
    requires
        forall|i: int| 0 <= i < text.len() ==> #[trigger] text[i] != '\n',
    ensures
        with_returns(text) == text,
    decreases text.len(),
{
    if text.len() > 0 {
        let short = text.drop_last();
        assert forall|i: int| 0 <= i < short.len() implies #[trigger] short[i] != '\n' by {
            assert(short[i] == text[i]);
        }
        lemma_returns_keep_lines(short);
        assert(text[text.len() - 1] != '\n');
        assert(short.push(text.last()) == text);
    } else {
        assert(text == Seq::<char>::empty());
    }
}

/// A text gives the same lists whether its lines end in a line feed or in a carriage return
/// and a line feed.
pub proof fn law_returns_do_not_matter(text: Seq<char>)
    ensures
        lists_in(with_returns(text)) == lists_in(text),
        channels_in(with_returns(text)) == channels_in(text),
    decreases text.len(),
{
    if exists|i: int| 0 <= i < text.len() && #[trigger] text[i] == '\n' {
        let at = choose|i: int| 0 <= i < text.len() && #[trigger] text[i] == '\n';
        let before = text.take(at);
        let after = text.skip(at + 1);
        assert(text == before + seq!['\n'] + after);
        law_returns_do_not_matter(before);
        law_returns_do_not_matter(after);
        lemma_returns_split(before + seq!['\n'], after);
        assert((before + seq!['\n']).drop_last() == before);
        assert(with_returns(before + seq!['\n']) == with_returns(before) + seq!['\r', '\n']);
        law_line_ends_do_not_matter(with_returns(before), with_returns(after));
        law_lines_are_read_apart(with_returns(before), '\n', with_returns(after));
        law_lines_are_read_apart(before, '\n', after);
    } else {
        lemma_returns_keep_lines(text);
    }
}

/// A note on linear light is noticed, and changes nothing else.
pub proof fn law_note_on_light_changes_no_channel(text: Seq<char>, c: char)
    requires
        is_line_break(c),
    ensures
        occurs("linear yes"@, "linear yes"@ + seq![c] + text),
        channels_in("linear yes"@ + seq![c] + text) == channels_in(text),
{
    let note = "linear yes"@;
    let whole = note + seq![c] + text;
    reveal_strlit("linear yes");
    assert(whole.subrange(0, 0int + note.len()) == note);
    assert forall|list: Seq<char>| !line_holds(note, list) by {
        assert forall|pad: Seq<char>, count: Seq<char>| !line_parts(note, pad, count, list) by {
            if line_parts(note, pad, count, list) {
                lemma_line_layout(note, pad, count, list);
            }
        }
    }
    law_other_line_gives_no_list(note);
    law_lines_are_read_apart(note, c, text);
    assert(Seq::<Seq<char>>::empty() + lists_in(text) == lists_in(text));
}

/// A channel depends on the gray curve and the list of its own colour alone, not on where
/// that list stands among the three.
pub proof fn law_channels_go_with_their_lists(
    lists: Seq<Seq<char>>,
    other: Seq<Seq<char>>,
    j: int,
    k: int,
)
    requires
        channels_of(lists) is Ok,
        channels_of(other) is Ok,
        0 <= j < 3,
        0 <= k < 3,
        other[0] == lists[0],
        other[k + 1] == lists[j + 1],
    ensures
        channels_of(other)->Ok_0[k] == channels_of(lists)->Ok_0[j],
{
    law_when_settings_are_read(lists);
    law_when_settings_are_read(other);
}

/// Colours that are written in another order give the same channels in that order.
pub proof fn law_moved_colours_move_channels(
    pad: Seq<char>,
    count: Seq<char>,
    gray: Seq<char>,
    a: Seq<char>,
    b: Seq<char>,
    c: Seq<char>,
)
    requires
        is_blank(pad),
        all_decimals(count),
        count.len() > 0,
        forall|i: int| 0 <= i < gray.len() ==> !is_line_break(#[trigger] gray[i]),
        forall|i: int| 0 <= i < a.len() ==> !is_line_break(#[trigger] a[i]),
        forall|i: int| 0 <= i < b.len() ==> !is_line_break(#[trigger] b[i]),
        forall|i: int| 0 <= i < c.len() ==> !is_line_break(#[trigger] c[i]),
        channels_in(written_lines(pad, count, seq![gray, a, b, c], '\n')) is Ok,
    ensures
        ({
            let channels = channels_in(written_lines(pad, count, seq![gray, a, b, c], '\n'))->Ok_0;
            channels_in(written_lines(pad, count, seq![gray, c, a, b], '\n')) == Ok::<
                Seq<Seq<u16>>,
                SettingsError,
            >(seq![channels[2], channels[0], channels[1]])
        }),
{
    lemma_four_lists_are_read(pad, count, gray, a, b, c);
    lemma_four_lists_are_read(pad, count, gray, c, a, b);
    lemma_moved_lists(seq![gray, a, b, c], seq![gray, c, a, b]);
    let channels = channels_of(seq![gray, a, b, c])->Ok_0;
    assert(channels_of(seq![gray, c, a, b])->Ok_0 == seq![
        channels[2],
        channels[0],
        channels[1],
    ]);
}

proof fn lemma_four_lists_are_read(
    pad: Seq<char>,
    count: Seq<char>,
    gray: Seq<char>,
    a: Seq<char>,
    b: Seq<char>,
    c: Seq<char>,
)
    requires
        is_blank(pad),
        all_decimals(count),
        count.len() > 0,
        forall|i: int| 0 <= i < gray.len() ==> !is_line_break(#[trigger] gray[i]),
        forall|i: int| 0 <= i < a.len() ==> !is_line_break(#[trigger] a[i]),
        forall|i: int| 0 <= i < b.len() ==> !is_line_break(#[trigger] b[i]),
        forall|i: int| 0 <= i < c.len() ==> !is_line_break(#[trigger] c[i]),
    ensures
        lists_in(written_lines(pad, count, seq![gray, a, b, c], '\n')) == seq![gray, a, b, c],
{
    let lists = seq![gray, a, b, c];
    assert forall|i: int, k: int|
        0 <= i < lists.len() && 0 <= k < lists[i].len() implies !is_line_break(
        #[trigger] lists[i][k],
    ) by {
        if i == 0 {
            assert(!is_line_break(gray[k]));
        } else if i == 1 {
            assert(!is_line_break(a[k]));
        } else if i == 2 {
            assert(!is_line_break(b[k]));
        } else {
            assert(!is_line_break(c[k]));
        }
    }
    law_written_lists_are_read(pad, count, lists, '\n');
}

proof fn lemma_moved_lists(lists: Seq<Seq<char>>, other: Seq<Seq<char>>)
    requires
        lists.len() == 4,
        other.len() == 4,
        other[0] == lists[0],
        other[1] == lists[3],
        other[2] == lists[1],
        other[3] == lists[2],
        channels_of(lists) is Ok,
    ensures
        channels_of(other) is Ok,
        channels_of(other)->Ok_0.len() == 3,
        channels_of(other)->Ok_0[0] == channels_of(lists)->Ok_0[2],
        channels_of(other)->Ok_0[1] == channels_of(lists)->Ok_0[0],
        channels_of(other)->Ok_0[2] == channels_of(lists)->Ok_0[1],
{
    assert(channels_of(other) is Ok) by {
        law_when_settings_are_read(lists);
        assert(curve_in(lists[0]) is Ok);
        assert(curve_in(lists[1]) is Ok);
        assert(curve_in(lists[2]) is Ok);
        assert(curve_in(lists[3]) is Ok);
        assert(forall|i: int| 0 <= i < 4 ==> curve_in(#[trigger] other[i]) is Ok);
        law_when_settings_are_read(other);
    }
    assert(channels_of(other)->Ok_0.len() == 3) by {
        law_when_settings_are_read(other);
    }
    law_channels_go_with_their_lists(lists, other, 2, 0);
    law_channels_go_with_their_lists(lists, other, 0, 1);
    law_channels_go_with_their_lists(lists, other, 1, 2);
}

/// Whether a line ends in a line feed or in a carriage return and a line feed makes no
/// difference.
pub proof fn law_line_ends_do_not_matter(before: Seq<char>, after: Seq<char>)
    ensures
        lists_in(before + seq!['\r', '\n'] + after) == lists_in(before + seq!['\n'] + after),
{
    law_lines_are_read_apart(before, '\n', after);
    law_lines_are_read_apart(before.push('\r'), '\n', after);
    lemma_break_at_the_end(before, '\r');
    assert(before.push('\r') + seq!['\n'] + after == before + seq!['\r', '\n'] + after);
}

proof fn lemma_colours_use_own_lists(
    gray: Seq<u16>,
    lists: Seq<Seq<char>>,
    other: Seq<Seq<char>>,
    count: nat,
)
    requires
        forall|i: int| 1 <= i <= count ==> #[trigger] lists[i] == other[i],
    ensures
        colours_of(gray, lists, count) == colours_of(gray, other, count),
    decreases count,
{
    if count > 0 {
        lemma_colours_use_own_lists(gray, lists, other, (count - 1) as nat);
        assert(lists[count as int] == other[count as int]);
    }
}

/// Lists behind the fourth, such as that of alpha, make no difference.
pub proof fn law_further_lists_do_not_matter(lists: Seq<Seq<char>>, more: Seq<Seq<char>>)
    requires
        lists.len() >= 4,
    ensures
        channels_of(lists + more) == channels_of(lists),
{
    assert((lists + more)[0] == lists[0]);
    match curve_in(lists[0]) {
        Ok(gray) => {
            lemma_colours_use_own_lists(gray, lists + more, lists, 3);
        },
        Err(_) => {},
    }
}

/// Settings can be read exactly when there are four lists, the values of all four can be
/// read, and the first has 256 of them. Each channel is then a colour seen through gray.
pub proof fn law_when_settings_are_read(lists: Seq<Seq<char>>)
    ensures
        channels_of(lists) is Ok <==> {
            &&& lists.len() >= 4
            &&& fields(lists[0]).len() == 256
            &&& forall|i: int| 0 <= i < 4 ==> curve_in(#[trigger] lists[i]) is Ok
        },
        channels_of(lists) is Ok ==> channels_of(lists)->Ok_0 == seq![
            through_gray(curve_in(lists[0])->Ok_0, curve_in(lists[1])->Ok_0),
            through_gray(curve_in(lists[0])->Ok_0, curve_in(lists[2])->Ok_0),
            through_gray(curve_in(lists[0])->Ok_0, curve_in(lists[3])->Ok_0),
        ],
{
    reveal_with_fuel(colours_of, 4);
    if lists.len() >= 4 {
        match curve_in(lists[0]) {
            Ok(gray) => {
                law_curve_is_read_number_by_number(fields(lists[0]), gray);
                assert(colours_of(gray, lists, 0) == Ok::<Seq<Seq<u16>>, SettingsError>(
                    Seq::empty(),
                ));
                if channels_of(lists) is Ok {
                    assert(curve_in(lists[1]) is Ok);
                    assert(curve_in(lists[2]) is Ok);
                    assert(curve_in(lists[3]) is Ok);
                    assert(channels_of(lists)->Ok_0 == seq![
                        through_gray(gray, curve_in(lists[1])->Ok_0),
                        through_gray(gray, curve_in(lists[2])->Ok_0),
                        through_gray(gray, curve_in(lists[3])->Ok_0),
                    ]);
                }
            },
            Err(_) => {
                assert(curve_in(lists[0]) is Err);
            },
        }
    }
}

/// A channel has as many values as the list of its colour has numbers, and each of them is
/// a value of the gray curve.
pub proof fn law_channels_take_values_of_gray(lists: Seq<Seq<char>>, c: int, i: int)
    requires
        channels_of(lists) is Ok,
        0 <= c < 3,
        0 <= i < fields(lists[c + 1]).len(),
    ensures
        channels_of(lists)->Ok_0[c].len() == fields(lists[c + 1]).len(),
        curve_in(lists[0])->Ok_0.contains(channels_of(lists)->Ok_0[c][i]),
{
    law_when_settings_are_read(lists);
    let gray = curve_in(lists[0])->Ok_0;
    let colour = curve_in(lists[c + 1])->Ok_0;
    assert(curve_in(lists[c + 1]) is Ok);
    assert(curve_in(lists[0]) is Ok);
    law_curve_is_read_number_by_number(fields(lists[c + 1]), colour);
    law_curve_is_read_number_by_number(fields(lists[0]), gray);
    assert(channels_of(lists)->Ok_0[c] == through_gray(gray, colour));
    assert(0 <= scaled(colour[i]) <= 255);
    assert(gray.contains(gray[scaled(colour[i])]));
}

} // verus!
