//! What holds of the names of projects and of adding them, whatever their names.

use crate::files;
use crate::files::EntryKind;
use crate::outside;
use crate::projects;
use crate::projects::CopyWork;
use crate::projects::Event;
use crate::projects::ProjectError;
use crate::projects::Stage;
use crate::text;
use crate::text::CharSet;
use crate::text_laws;
use vstd::prelude::*;

verus! {

// ---------------------------------------------------------------------------------------
// Directory names
// ---------------------------------------------------------------------------------------

/// The lower case of the characters of a word, one behind the other.
pub open spec fn lowered(word: Seq<char>) -> Seq<char>
    decreases word.len(),
{
    if word.len() == 0 {
        Seq::empty()
    } else {
        lowered(word.drop_last()) + outside::char_lowercase(word.last())
    }
}

/// Whether a text is a word: it is made of letters and numbers.
pub open spec fn is_word(s: Seq<char>) -> bool {
    forall|i: int| 0 <= i < s.len() ==> outside::alphanumeric(#[trigger] s[i])
}

/// Whether a text holds nothing but white space, hyphens and underscores.
pub open spec fn is_gap(s: Seq<char>) -> bool {
    forall|i: int|
        0 <= i < s.len() ==> (text::white_space(#[trigger] s[i]) || s[i] == '-' || s[i] == '_')
            && !outside::alphanumeric(s[i])
}

/// A word behind a name adds its lower case to the directory name.
pub proof fn lemma_word_is_added(name: Seq<char>, word: Seq<char>)
    requires
        is_word(word),
        word.len() > 0,
    ensures
        projects::name_slug(name + word).text == projects::name_slug(name).text + lowered(word),
        !projects::name_slug(name + word).after_separator,
    decreases word.len(),
{
    let all = name + word;
    assert(all.drop_last() =~= name + word.drop_last());
    assert(all.last() == word.last());
    assert(outside::alphanumeric(word[word.len() - 1]));
    if word.len() > 1 {
        assert(is_word(word.drop_last())) by {
            assert forall|i: int| 0 <= i < word.drop_last().len() implies outside::alphanumeric(
                #[trigger] word.drop_last()[i],
            ) by {
                assert(word.drop_last()[i] == word[i]);
            }
        }
        lemma_word_is_added(name, word.drop_last());
        assert(projects::name_slug(all).text =~= projects::name_slug(name).text + lowered(word));
    } else {
        assert(name + word.drop_last() =~= name);
        assert(lowered(word.drop_last()) =~= Seq::<char>::empty());
        assert(lowered(word) =~= outside::char_lowercase(word.last()));
    }
}

/// Characters between words, however many, add one hyphen, and none before the first word.
pub proof fn lemma_gap_adds_a_hyphen(name: Seq<char>, gap: Seq<char>)
    requires
        is_gap(gap),
        gap.len() > 0,
    ensures
        projects::name_slug(name).text.len() > 0 && !projects::name_slug(name).after_separator
            ==> projects::name_slug(name + gap).text == projects::name_slug(name).text.push('-')
            && projects::name_slug(name + gap).after_separator,
        projects::name_slug(name).text.len() == 0 || projects::name_slug(name).after_separator
            ==> projects::name_slug(name + gap) == projects::name_slug(name),
    decreases gap.len(),
{
    let all = name + gap;
    assert(all.drop_last() =~= name + gap.drop_last());
    assert(all.last() == gap.last());
    assert(!outside::alphanumeric(gap[gap.len() - 1]));
    if gap.len() > 1 {
        assert(is_gap(gap.drop_last())) by {
            assert forall|i: int| 0 <= i < gap.drop_last().len() implies (text::white_space(
                #[trigger] gap.drop_last()[i],
            ) || gap.drop_last()[i] == '-' || gap.drop_last()[i] == '_') && !outside::alphanumeric(
                gap.drop_last()[i],
            ) by {
                assert(gap.drop_last()[i] == gap[i]);
            }
        }
        lemma_gap_adds_a_hyphen(name, gap.drop_last());
    } else {
        assert(name + gap.drop_last() =~= name);
    }
}

/// A character that is neither letter nor number and separates no words is left out.
pub proof fn lemma_other_characters_are_left_out(name: Seq<char>, c: char)
    requires
        !outside::alphanumeric(c),
        !text::white_space(c),
        c != '-',
        c != '_',
    ensures
        projects::name_slug(name.push(c)) == projects::name_slug(name),
{
    assert(name.push(c).drop_last() =~= name);
    assert(name.push(c).last() == c);
}

/// The directory name of two words with a gap between them is the lower case of the one, a hyphen
/// and the lower case of the other.
pub proof fn lemma_directory_name_of_words(a: Seq<char>, gap: Seq<char>, b: Seq<char>)
    requires
        is_word(a),
        is_gap(gap),
        is_word(b),
        gap.len() > 0,
        a.len() > 0 && !text::white_space(a[0]),
        b.len() > 0 && !text::white_space(b.last()),
        lowered(a).len() > 0 && lowered(a)[0] != '-',
        lowered(b).len() > 0 && lowered(b).last() != '-',
    ensures
        projects::directory_name(a + gap + b) == lowered(a) + seq!['-'] + lowered(b),
{
    let name = a + gap + b;
    let none = Seq::<char>::empty();
    assert(name[0] == a[0] && name.last() == b.last());
    text_laws::lemma_trimmed_around(none, name, none, CharSet::WhiteSpace);
    assert(none + name + none =~= name);
    lemma_word_is_added(none, a);
    assert(none + a =~= a);
    assert(none + lowered(a) =~= lowered(a));
    lemma_gap_adds_a_hyphen(a, gap);
    lemma_word_is_added(a + gap, b);
    let s = lowered(a) + seq!['-'] + lowered(b);
    assert(projects::name_slug(name).text =~= s);
    assert(s[0] == lowered(a)[0] && s.last() == lowered(b).last());
    text_laws::lemma_trimmed_around(none, s, none, CharSet::Only('-'));
    assert(none + s + none =~= s);
}

/// An imported project has the name that is asked for, without white space around it, and the name
/// of its source where none is.
pub proof fn lemma_import_name(
    a: Seq<char>,
    name: Seq<char>,
    b: Seq<char>,
    source: Seq<char>,
    other: Option<Seq<char>>,
)
    requires
        text_laws::all_in(a, CharSet::WhiteSpace),
        text_laws::all_in(b, CharSet::WhiteSpace),
        name.len() > 0 ==> !text::white_space(name[0]) && !text::white_space(name.last()),
        source.len() > 0 && !text::white_space(source[0]) && !text::white_space(source.last()),
    ensures
        name.len() > 0 ==> projects::import_name(Some(a + name + b), other) == Some(name),
        name.len() == 0 ==> projects::import_name(Some(a + name + b), Some(source)) == Some(source),
        projects::import_name(None, Some(source)) == Some(source),
        name.len() == 0 ==> projects::import_name(Some(a + name + b), None) is None
            && projects::import_name(None, Some(a + name + b)) is None,
        projects::import_name(None, None) is None,
{
    let none = Seq::<char>::empty();
    text_laws::lemma_trimmed_around(a, name, b, CharSet::WhiteSpace);
    text_laws::lemma_trimmed_around(none, source, none, CharSet::WhiteSpace);
    assert(none + source + none =~= source);
}

// ---------------------------------------------------------------------------------------
// Copying
// ---------------------------------------------------------------------------------------

/// What is done to copy some entries and others is done to copy all of them, in that order.
pub proof fn lemma_copies_concat(
    a: Seq<files::Entry>,
    b: Seq<files::Entry>,
    prefix: Seq<Seq<char>>,
)
    ensures
        projects::copy_works(a + b, prefix) == projects::copy_works(a, prefix)
            + projects::copy_works(b, prefix),
    decreases b.len(),
{
    if b.len() == 0 {
        assert(a + b =~= a);
        assert(projects::copy_works(a, prefix) + projects::copy_works(b, prefix)
            =~= projects::copy_works(a, prefix));
    } else {
        assert((a + b).drop_last() =~= a + b.drop_last());
        lemma_copies_concat(a, b.drop_last(), prefix);
        assert(projects::copy_works(a + b, prefix) =~= projects::copy_works(a, prefix)
            + projects::copy_works(b, prefix));
    }
}

/// A file is copied in one step. A directory is made in one, and what is in it is copied behind.
/// Nothing is done for a symlink.
pub proof fn lemma_copy_of_one(e: files::Entry, prefix: Seq<Seq<char>>)
    ensures
        ({
            let works = projects::copy_works(seq![e], prefix);
            let path = prefix.push(e.name);
            &&& e.metadata.kind == EntryKind::File ==> works == seq![CopyWork::CopyFile(path)]
            &&& e.metadata.kind == EntryKind::Directory ==> works == seq![
                CopyWork::MakeDirectory(path),
            ] + projects::copy_works(e.entries, path)
            &&& e.metadata.kind == EntryKind::Symlink || e.metadata.kind == EntryKind::Other
                ==> works.len() == 0
        }),
{
    let one = seq![e];
    assert(one.drop_last() =~= Seq::<files::Entry>::empty());
    assert(one.last() == e);
    assert(projects::copy_works(one.drop_last(), prefix).len() == 0);
    assert(projects::copy_works(one.drop_last(), prefix).push(
        CopyWork::MakeDirectory(prefix.push(e.name)),
    ) =~= seq![CopyWork::MakeDirectory(prefix.push(e.name))]);
}

// ---------------------------------------------------------------------------------------
// Adding
// ---------------------------------------------------------------------------------------

/// A project is added where every question is answered with no and nothing fails, and stays added.
pub proof fn lemma_added_where_free(events: Seq<Event>)
    requires
        events.len() >= 7,
        forall|i: int| 0 <= i < 7 ==> #[trigger] events[i] == Event::Done,
    ensures
        projects::stages(events) is Added,
    decreases events.len(),
{
    if events.len() > 7 {
        assert forall|i: int| 0 <= i < 7 implies #[trigger] events.drop_last()[i]
            == Event::Done by {
            assert(events.drop_last()[i] == events[i]);
        }
        lemma_added_where_free(events.drop_last());
    } else {
        lemma_stage_after(events, 7);
        assert(events.take(7) =~= events);
    }
}

/// Where adding a project stands after so many steps were done.
proof fn lemma_stage_after(events: Seq<Event>, k: int)
    requires
        0 <= k <= 7,
        k <= events.len(),
        forall|i: int| 0 <= i < k ==> #[trigger] events[i] == Event::Done,
    ensures
        ({
            let stage = projects::stages(events.take(k));
            &&& k == 0 ==> stage is Looking
            &&& k == 1 ==> stage is AskingPath
            &&& k == 2 ==> stage is Creating
            &&& k == 3 ==> stage is Filling
            &&& k == 4 ==> stage is AskingId
            &&& k == 5 ==> stage is AskingPathAgain
            &&& k == 6 ==> stage is Registering
            &&& k == 7 ==> stage is Added
        }),
    decreases k,
{
    if k > 0 {
        lemma_stage_after(events, k - 1);
        assert(events.take(k).drop_last() =~= events.take(k - 1));
        assert(events.take(k).last() == events[k - 1]);
        assert(events[k - 1] == Event::Done);
    }
}

/// Where a step fails, the project is not added. The error is that of the step, or the conflict where
/// something is taken. From the fourth step on, when the directory is there, it is removed first,
/// whatever comes of that.
pub proof fn lemma_failing(events: Seq<Event>, last: Event, k: int)
    requires
        0 <= k < 7,
        events.len() == k + 1,
        forall|i: int| 0 <= i < k ==> #[trigger] events[i] == Event::Done,
        events[k] != Event::Done,
    ensures
        ({
            let stage = projects::stages(events);
            let over = projects::stages(events.push(last));
            &&& k < 3 ==> stage is Failed && over == stage
            &&& k >= 3 ==> stage is Removing && over == Stage::Failed(stage->Removing_0)
            &&& events[k] matches Event::Failed(e) ==> over == Stage::Failed(e)
            &&& events[k] is Taken ==> over is Failed && over->Failed_0 is Conflict
            &&& events[k] is Taken && k == 0 ==> over == Stage::Failed(
                ProjectError::Conflict("Project directory already exists under the Data Root"@),
            )
            &&& events[k] is Taken && (k == 1 || k == 5) ==> over == Stage::Failed(
                ProjectError::Conflict(
                    "Project is already registered under that Data Root path"@,
                ),
            )
            &&& events[k] is Taken && k == 4 ==> over == Stage::Failed(
                ProjectError::Conflict("Project is already registered"@),
            )
        }),
{
    lemma_stage_after(events, k);
    assert(events.drop_last() =~= events.take(k));
    assert(events.last() == events[k]);
    assert(events.push(last).drop_last() =~= events);
    assert(events.push(last).last() == last);
}

/// A project that is not added stays so.
pub proof fn lemma_failed_for_good(stage: Stage, event: Event)
    requires
        stage is Failed || stage is Added,
    ensures
        projects::next_stage(stage, event) == stage,
{
}

// ---------------------------------------------------------------------------------------
// Identities
// ---------------------------------------------------------------------------------------

/// A random UUID has the version 4 and the variant of its kind in their places, and all of the other
/// bits are those that it was made of.
pub proof fn lemma_uuid_bytes(b: Seq<u8>, i: int)
    requires
        b.len() == 16,
        0 <= i < 16,
    ensures
        projects::uuid_bytes(b).len() == 16,
        projects::uuid_bytes(b)[6] / 16 == 4,
        projects::uuid_bytes(b)[8] / 64 == 2,
        i != 6 && i != 8 ==> projects::uuid_bytes(b)[i] == b[i],
        projects::uuid_bytes(b)[6] % 16 == b[6] % 16,
        projects::uuid_bytes(b)[8] % 64 == b[8] % 64,
{
}

/// The digits of a UUID come in five groups with hyphens between them, and without the hyphens they
/// are the digits of its bytes. Its version and its variant show.
pub proof fn lemma_uuid_text(b: Seq<u8>)
    requires
        b.len() == 16,
    ensures
        ({
            let (t, hex) = (projects::uuid_text(b), outside::hex_text(projects::uuid_bytes(b)));
            &&& t.len() == 36
            &&& t[8] == '-' && t[13] == '-' && t[18] == '-' && t[23] == '-'
            &&& t[14] == '4'
            &&& t[19] == '8' || t[19] == '9' || t[19] == 'a' || t[19] == 'b'
            &&& t.subrange(0, 8) + t.subrange(9, 13) + t.subrange(14, 18) + t.subrange(19, 23)
                + t.subrange(24, 36) == hex
        }),
{
    let (t, hex) = (projects::uuid_text(b), outside::hex_text(projects::uuid_bytes(b)));
    assert(t.subrange(0, 8) + t.subrange(9, 13) + t.subrange(14, 18) + t.subrange(19, 23)
        + t.subrange(24, 36) =~= hex);
    lemma_uuid_bytes(b, 0);
    let bytes = projects::uuid_bytes(b);
    assert(t[14] == hex[12] && t[19] == hex[16]);
    assert(hex[12] == outside::hex_digit(bytes[6] as int / 16));
    assert(hex[16] == outside::hex_digit(bytes[8] as int / 16));
    assert(8 <= bytes[8] as int / 16 < 12);
}

} // verus!
