//! The colour profile that carries the curves.
use crate::gamma::ramp_of;
use crate::settings::{
    channels_of, curves, law_channels_take_values_of_gray, law_when_settings_are_read,
};
use crate::text::{
    fields, law_separator_splits_text, law_unseparated_text_is_one_piece, lemma_pieces_not_empty,
    pieces,
};
use lcms2::{GlobalContext, Locale, Profile, Tag, TagSignature, ToneCurve, MLU};
use vstd::prelude::*;

verus! {

/// A colour profile of Little CMS.
#[verifier::external_type_specification]
#[verifier::external_body]
#[verifier::reject_recursive_types(Context)]
pub struct ExProfile<Context>(Profile<Context>);

/// The context of Little CMS that all threads share.
#[verifier::external_type_specification]
#[verifier::external_body]
pub struct ExGlobalContext(GlobalContext);

/// A text in several languages, as Little CMS keeps it.
#[verifier::external_type_specification]
#[verifier::external_body]
pub struct ExMLU(MLU);

/// A tone curve of Little CMS.
#[verifier::external_type_specification]
#[verifier::external_body]
pub struct ExToneCurve(ToneCurve);

/// The signature of the tag with a profile's description, `desc`.
pub const DESCRIPTION_TAG: u32 = 0x6465_7363;

/// The signature of the tag with the curves of the video card, `vcgt`.
pub const VIDEO_CARD_TAG: u32 = 0x7663_6774;

/// The largest number of values that a tone curve can have.
pub const MAX_ENTRIES: usize = 65530;

/// Texts with less characters than this stay well within what Little CMS allocates at once.
pub const MAX_TEXT: usize = 0x400_0000;

/// The texts that the tags of a profile give for no language in particular, by signature.
pub uninterp spec fn profile_texts(profile: Profile<GlobalContext>) -> Map<u32, Seq<char>>;

/// The tables of the curves that the tags of a profile hold, by signature.
pub uninterp spec fn profile_tables(profile: Profile<GlobalContext>) -> Map<u32, Seq<Seq<u16>>>;

/// Whether a profile is that of a display with the primaries, the white point and the
/// transfer curves of sRGB.
pub uninterp spec fn is_srgb(profile: Profile<GlobalContext>) -> bool;

/// How many more tags can be written to a profile: the free slots of its directory, or none
/// where one of its tags is stored as raw bytes.
pub uninterp spec fn free_slots(profile: Profile<GlobalContext>) -> nat;

/// Whether a text in several languages has an entry for any of them.
pub uninterp spec fn mlu_filled(text: MLU) -> bool;

/// The text that a text in several languages gives for no language in particular. It is
/// empty where there is none.
pub uninterp spec fn mlu_text(text: MLU) -> Seq<char>;

/// The table that a curve was built from.
pub uninterp spec fn curve_table(curve: ToneCurve) -> Seq<u16>;

/// What is kept of a text: all that stands in front of its first null character, or one null
/// character where that is nothing.
pub open spec fn kept_text(text: Seq<char>) -> Seq<char> {
    let front = pieces(text, |c: char| c == '\0')[0];
    if front.len() == 0 {
        seq!['\0']
    } else {
        front
    }
}

/// What is kept of a text has characters that fit in sixteen bits, and a length in bytes that
/// fits in thirty-two.
pub open spec fn is_storable(text: Seq<char>) -> bool {
    &&& kept_text(text).len() < 0x4000_0000
    &&& forall|i: int|
        0 <= i < kept_text(text).len() ==> #[trigger] kept_text(text)[i] as u32 <= 0xffff
}

/// Makes a profile with `lcms2::Profile::new_srgb`.
///
/// It is a profile of the sRGB space, and most of the hundred slots for tags are free.
/// Nothing is said of the time of creation in its header, nor of the texts that it comes
/// with.
#[verifier::external_body]
fn new_srgb() -> (profile: Profile<GlobalContext>)
    ensures
        is_srgb(profile),
        free_slots(profile) >= 80,
{
    Profile::new_srgb()
}

/// Removes the description with `lcms2::Profile::remove_tag`.
///
/// Afterwards the profile has no description. If it had one before, the call tells so.
/// Curves and colours stay as they are, and no slot for tags is taken up. The texts of
/// other tags are left unsaid: one that is linked to the description goes with it.
#[verifier::external_body]
fn remove_description(profile: &mut Profile<GlobalContext>) -> (removed: bool)
    ensures
        !profile_texts(*final(profile)).contains_key(DESCRIPTION_TAG),
        profile_texts(*old(profile)).contains_key(DESCRIPTION_TAG) ==> removed,
        profile_tables(*final(profile)) == profile_tables(*old(profile)),
        is_srgb(*final(profile)) == is_srgb(*old(profile)),
        free_slots(*final(profile)) >= free_slots(*old(profile)),
{
    profile.remove_tag(TagSignature::ProfileDescriptionTag)
}

/// Makes a text without content with `lcms2::MLU::new`, with room for `items` languages at
/// first.
#[verifier::external_body]
fn new_mlu(items: usize) -> (text: MLU)
    requires
        items <= 0xffff,
    ensures
        mlu_text(text) == Seq::<char>::empty(),
        !mlu_filled(text),
{
    MLU::new(items)
}

/// Sets the text for no language in particular with `lcms2::MLURef::set_text`.
///
/// A first text is set, unless it takes up more memory than Little CMS allows itself. What is
/// kept of a text that was set is what stands in front of its first null character, or one
/// null character where that is nothing. What becomes of characters beyond sixteen bits is
/// not stated: it depends on the width of C's wide characters. If the text was not set,
/// nothing changes.
#[verifier::external_body]
fn set_text(text: &mut MLU, content: &str) -> (set: bool)
    ensures
        !mlu_filled(*old(text)) && content@.len() < MAX_TEXT ==> set,
        mlu_filled(*final(text)) == (set || mlu_filled(*old(text))),
        set && is_storable(content@) ==> mlu_text(*final(text)) == kept_text(content@),
        !set ==> mlu_text(*final(text)) == mlu_text(*old(text)),
{
    text.set_text(content, Locale::none())
}

/// Writes the description with `lcms2::Profile::write_tag`.
///
/// The description is written where `text` has an entry and a slot for tags is free, of which
/// it takes up one at most. It is what a copy of `text` gives. Curves and colours stay as
/// they are. What the profile has for a description if it was not written is left unsaid.
#[verifier::external_body]
fn write_description(profile: &mut Profile<GlobalContext>, text: &MLU) -> (written: bool)
    ensures
        free_slots(*old(profile)) > 0 && mlu_filled(*text) ==> written,
        free_slots(*final(profile)) + 1 >= free_slots(*old(profile)),
        written ==> profile_texts(*final(profile)).contains_pair(DESCRIPTION_TAG, mlu_text(*text)),
        profile_tables(*final(profile)) == profile_tables(*old(profile)),
        is_srgb(*final(profile)) == is_srgb(*old(profile)),
{
    profile.write_tag(TagSignature::ProfileDescriptionTag, Tag::MLU(text))
}

/// Makes a curve with `lcms2::ToneCurve::new_tabulated`.
///
/// The curve keeps the values as its table. There has to be one at least, and no more than
/// 65530.
#[verifier::external_body]
fn new_tabulated(values: &Vec<u16>) -> (curve: ToneCurve)
    requires
        0 < values@.len() <= MAX_ENTRIES,
    ensures
        curve_table(curve) == values@,
{
    ToneCurve::new_tabulated(values)
}

/// Writes the curves of the video card with `lcms2::Profile::write_tag`.
///
/// The curves are written where a slot for tags is free, of which they take up one at most.
/// They are copies of the three, in their order. Texts and colours stay as they are. What the
/// profile has for curves if they were not written is left unsaid.
#[verifier::external_body]
fn write_video_card_curves(
    profile: &mut Profile<GlobalContext>,
    red: &ToneCurve,
    green: &ToneCurve,
    blue: &ToneCurve,
) -> (written: bool)
    ensures
        free_slots(*old(profile)) > 0 ==> written,
        free_slots(*final(profile)) + 1 >= free_slots(*old(profile)),
        written ==> profile_tables(*final(profile)).contains_pair(
            VIDEO_CARD_TAG,
            seq![curve_table(*red), curve_table(*green), curve_table(*blue)],
        ),
        profile_texts(*final(profile)) == profile_texts(*old(profile)),
        is_srgb(*final(profile)) == is_srgb(*old(profile)),
{
    profile.write_tag(TagSignature::VcgtTag, Tag::VcgtCurves([red, green, blue]))
}

/// A profile, and whether Little CMS took what was to be written to it.
pub struct BuiltProfile {
    /// The profile.
    pub profile: Profile<GlobalContext>,
    /// Whether it has the description.
    pub described: bool,
    /// Whether it has the curves.
    pub calibrated: bool,
}

impl BuiltProfile {
    /// This is an sRGB profile with the three curves, and with what is kept of the
    /// description, unless that is too long.
    pub open spec fn holds(self, description: Seq<char>, channels: Seq<Seq<u16>>) -> bool {
        &&& is_srgb(self.profile)
        &&& description.len() < MAX_TEXT ==> self.described
        &&& self.described ==> profile_texts(self.profile).contains_key(DESCRIPTION_TAG)
        &&& self.described && is_storable(description) ==> profile_texts(
            self.profile,
        ).contains_pair(DESCRIPTION_TAG, kept_text(description))
        &&& self.calibrated
        &&& profile_tables(self.profile).contains_pair(VIDEO_CARD_TAG, channels)
    }
}

/// The curves of three channels can be stored in a profile.
pub open spec fn are_storable(channels: Seq<Seq<u16>>) -> bool {
    &&& channels.len() >= 3
    &&& forall|i: int| 0 <= i < 3 ==> 0 < (#[trigger] channels[i]).len() <= MAX_ENTRIES
}

/// Builds an sRGB profile with a description, which appears in colour management menus, and
/// with the curves of red, green and blue, the first three channels, that the video card is
/// to use for calibration.
///
/// The curves are always written. So is the description, unless it is too long for Little
/// CMS, which is told beside the profile.
pub fn build_profile(description: &str, channels: &Vec<Vec<u16>>) -> (built: BuiltProfile)
    requires
        are_storable(curves(channels@)),
    ensures
        built.holds(description@, curves(channels@).take(3)),
        is_srgb(built.profile),
        built.calibrated,
        profile_tables(built.profile).contains_pair(
            0x7663_6774,
            seq![channels@[0]@, channels@[1]@, channels@[2]@],
        ),
        description@.len() < 0x400_0000 ==> built.described,
        built.described ==> profile_texts(built.profile).contains_key(0x6465_7363),
        built.described && is_storable(description@) ==> profile_texts(
            built.profile,
        ).contains_pair(0x6465_7363, kept_text(description@)),
{
    let ghost all = curves(channels@);
    proof {
        assert(all[0] == channels@[0]@);
        assert(all[1] == channels@[1]@);
        assert(all[2] == channels@[2]@);
    }
    let mut profile = new_srgb();
    remove_description(&mut profile);
    let mut text = new_mlu(1);
    let set = set_text(&mut text, description);
    let described = write_description(&mut profile, &text);
    let red = new_tabulated(&channels[0]);
    let green = new_tabulated(&channels[1]);
    let blue = new_tabulated(&channels[2]);
    let calibrated = write_video_card_curves(&mut profile, &red, &green, &blue);
    assert(all.take(3) == seq![all[0], all[1], all[2]]);
    BuiltProfile { profile, described: set && described, calibrated }
}

/// Builds a profile as `build_profile` does, or gives none where the channels are less than
/// three, or where one of the first three has no values or more than a profile can hold.
pub fn try_build_profile(
    description: &str,
    channels: &Vec<Vec<u16>>,
) -> (built: Option<BuiltProfile>)
    ensures
        built is Some <==> are_storable(curves(channels@)),
        built is Some <==> channels@.len() >= 3 && 1 <= channels@[0]@.len() <= 65530 && 1
            <= channels@[1]@.len() <= 65530 && 1 <= channels@[2]@.len() <= 65530,
        built matches Some(found) ==> found.holds(description@, curves(channels@).take(3)),
        built matches Some(found) ==> {
            &&& is_srgb(found.profile)
            &&& found.calibrated
            &&& profile_tables(found.profile).contains_pair(
                0x7663_6774,
                seq![channels@[0]@, channels@[1]@, channels@[2]@],
            )
            &&& description@.len() < 0x400_0000 ==> found.described
            &&& found.described ==> profile_texts(found.profile).contains_key(0x6465_7363)
            &&& found.described && is_storable(description@) ==> profile_texts(
                found.profile,
            ).contains_pair(0x6465_7363, kept_text(description@))
        },
{
    if channels.len() < 3 {
        return None;
    }
    proof {
        let all = curves(channels@);
        assert(all[0] == channels@[0]@);
        assert(all[1] == channels@[1]@);
        assert(all[2] == channels@[2]@);
    }
    let mut i: usize = 0;
    while i < 3
        invariant
            i <= 3,
            channels.len() >= 3,
            curves(channels@)[0] == channels@[0]@,
            curves(channels@)[1] == channels@[1]@,
            curves(channels@)[2] == channels@[2]@,
            forall|k: int|
                0 <= k < i ==> 0 < (#[trigger] curves(channels@)[k]).len() <= MAX_ENTRIES,
        decreases 3 - i,
    {
        assert(curves(channels@)[i as int] == channels@[i as int]@);
        if channels[i].len() == 0 || channels[i].len() > MAX_ENTRIES {
            return None;
        }
        i = i + 1;
    }
    Some(build_profile(description, channels))
}

/// A built profile has the colours of sRGB, the three curves in their order as the curves of
/// the video card, and what is kept of the description, if that can be stored.
pub proof fn law_built_profile_has_what_was_asked(
    built: BuiltProfile,
    description: Seq<char>,
    channels: Seq<Seq<u16>>,
)
    requires
        built.holds(description, channels),
        description.len() < 0x400_0000,
    ensures
        is_srgb(built.profile),
        profile_tables(built.profile).contains_pair(0x7663_6774, channels),
        profile_texts(built.profile).contains_key(0x6465_7363),
        (forall|i: int|
            0 <= i < description.len() ==> (#[trigger] description[i] as u32) <= 0xffff)
            ==> profile_texts(built.profile).contains_pair(0x6465_7363, kept_text(description)),
{
    if forall|i: int| 0 <= i < description.len() ==> (#[trigger] description[i] as u32) <= 0xffff {
        lemma_kept_text_is_in_front(description);
    }
}

/// What is kept of a text stands at its front.
proof fn lemma_kept_text_is_in_front(text: Seq<char>)
    ensures
        kept_text(text) == seq!['\0'] || (kept_text(text).len() <= text.len() && forall|i: int|
            0 <= i < kept_text(text).len() ==> #[trigger] kept_text(text)[i] == text[i]),
    decreases text.len(),
{
    if forall|i: int| 0 <= i < text.len() ==> #[trigger] text[i] != '\0' {
        law_kept_texts(text, text);
    } else {
        let at = choose|i: int| 0 <= i < text.len() && text[i] == '\0';
        let front = text.take(at);
        let is_null = |c: char| c == '\0';
        assert(text == front + seq!['\0'] + text.skip(at + 1));
        law_separator_splits_text(front, '\0', text.skip(at + 1), is_null);
        lemma_pieces_not_empty(front, is_null);
        assert(kept_text(text) == kept_text(front));
        lemma_kept_text_is_in_front(front);
    }
}

/// The first three channels can be stored exactly when each has a value, and no more than
/// 65530.
pub proof fn law_storable_lengths(channels: Seq<Seq<u16>>)
    ensures
        are_storable(channels) <==> channels.len() >= 3 && 1 <= channels[0].len() <= 65530 && 1
            <= channels[1].len() <= 65530 && 1 <= channels[2].len() <= 65530,
{
}

/// A text is kept as it is if it has any characters, none of which is null. Of other texts
/// only what stands in front of a null character counts.
pub proof fn law_kept_texts(text: Seq<char>, more: Seq<char>)
    requires
        forall|i: int| 0 <= i < text.len() ==> #[trigger] text[i] != '\0',
    ensures
        text.len() > 0 ==> kept_text(text) == text,
        text.len() == 0 ==> kept_text(text) == seq!['\0'],
        kept_text(text + seq!['\0'] + more) == kept_text(text),
{
    let is_null = |c: char| c == '\0';
    law_unseparated_text_is_one_piece(text, is_null);
    law_separator_splits_text(text, '\0', more, is_null);
    assert(pieces(text, is_null)[0] == text);
    assert(pieces(text + seq!['\0'] + more, is_null)[0] == text);
}

/// A description of ordinary characters, which are not null and fit in sixteen bits, ends up
/// in the profile as it is.
pub proof fn law_ordinary_description_is_kept(
    built: BuiltProfile,
    description: Seq<char>,
    channels: Seq<Seq<u16>>,
)
    requires
        built.holds(description, channels),
        0 < description.len() < MAX_TEXT,
        forall|i: int| 0 <= i < description.len() ==> 0 < #[trigger] description[i] as u32 <= 0xffff,
    ensures
        profile_texts(built.profile).contains_pair(DESCRIPTION_TAG, description),
{
    assert forall|i: int| 0 <= i < description.len() implies #[trigger] description[i] != '\0' by {
        assert(description[i] as u32 > 0);
    }
    law_kept_texts(description, description);
}

/// The channels that settings give can be stored, unless a colour has more samples than a
/// tone curve can have.
pub proof fn law_read_channels_are_storable(lists: Seq<Seq<char>>)
    requires
        channels_of(lists) is Ok,
        forall|i: int| 1 <= i < 4 ==> fields(#[trigger] lists[i]).len() <= MAX_ENTRIES,
    ensures
        are_storable(channels_of(lists)->Ok_0),
{
    law_when_settings_are_read(lists);
    let channels = channels_of(lists)->Ok_0;
    assert forall|c: int| 0 <= c < 3 implies 0 < (#[trigger] channels[c]).len() <= MAX_ENTRIES by {
        let list = lists[c + 1];
        lemma_pieces_not_empty(list, |c: char| c == ' ');
        law_channels_take_values_of_gray(lists, c, 0);
    }
}

/// The curves of a gamma ramp can be stored.
pub proof fn law_ramps_are_storable(factors: Seq<u32>)
    requires
        0 < factors.len() <= MAX_ENTRIES,
    ensures
        are_storable(seq![ramp_of(factors), ramp_of(factors), ramp_of(factors)]),
{
}

} // verus!
