//! Settings: what is stored, what is entered, and what is made of both.

use vstd::prelude::*;
use crate::models::{AppSettings, SaveSettingsInput, SettingsView};
use crate::models;
use crate::text;

verus! {

/// A text that starts and ends with the same quotation mark.
pub open spec fn is_quoted(s: Seq<char>) -> bool {
    s.len() >= 2 && (s[0] == '\'' || s[0] == '"') && s.last() == s[0]
}

/// `s` without white space at its ends, without one pair of quotation marks around
/// it, and without the white space that stood inside them.
pub open spec fn unquoted(s: Seq<char>) -> Seq<char> {
    let t = text::trim(s);
    if is_quoted(t) {
        text::trim(t.subrange(1, t.len() - 1))
    } else {
        t
    }
}

/// The value without white space and one pair of quotation marks around it.
pub fn strip_wrapping_quotes(value: &str) -> (r: String)
    ensures
        r@ == unquoted(value@),
        text::is_trimmed(r@),
{
    let c = text::chars_of(value);
    let (from, to) = text::trim_bounds(&c, 0, c.len());
    let ghost t = text::trim(value@);
    proof {
        assert(c@.subrange(0, c@.len() as int) =~= value@);
        text::lemma_trim(value@);
        if t.len() >= 2 {
            text::lemma_trim(t.subrange(1, t.len() - 1));
        }
    }
    if to - from >= 2 && (c[from] == '\'' || c[from] == '"') && c[to - 1] == c[from] {
        proof {
            assert(is_quoted(t));
            assert(c@.subrange(from + 1, to - 1) =~= t.subrange(1, t.len() - 1));
        }
        let (inner_from, inner_to) = text::trim_bounds(&c, from + 1, to - 1);
        return text::string_from(&c, inner_from, inner_to);
    }
    text::string_from(&c, from, to)
}

/// The settings that an input makes of the existing ones.
pub open spec fn merged(existing: SettingsView, input: SettingsView) -> SettingsView {
    SettingsView {
        api_base: unquoted(input.api_base),
        api_key: input.api_key,
        vision_model: unquoted(input.vision_model),
        fast_answer_model: unquoted(input.fast_answer_model),
        answer_model: unquoted(input.answer_model),
        embedding_model: unquoted(input.embedding_model),
        output_dir: unquoted(input.output_dir),
        shortcut: unquoted(input.shortcut),
        text_shortcut: unquoted(input.text_shortcut),
        active_course_id: match input.active_course_id {
            Some(id) => Some(id),
            None => existing.active_course_id,
        },
    }
}

/// The settings that an input makes of the existing ones.
pub fn merge_settings(existing: &AppSettings, input: SaveSettingsInput) -> (r: AppSettings)
    ensures
        r@ == merged(existing@, input@),
{
    AppSettings {
        api_base: strip_wrapping_quotes(input.api_base.as_str()),
        api_key: input.api_key,
        vision_model: strip_wrapping_quotes(input.vision_model.as_str()),
        fast_answer_model: strip_wrapping_quotes(input.fast_answer_model.as_str()),
        answer_model: strip_wrapping_quotes(input.answer_model.as_str()),
        embedding_model: strip_wrapping_quotes(input.embedding_model.as_str()),
        output_dir: strip_wrapping_quotes(input.output_dir.as_str()),
        shortcut: strip_wrapping_quotes(input.shortcut.as_str()),
        text_shortcut: strip_wrapping_quotes(input.text_shortcut.as_str()),
        active_course_id: match input.active_course_id {
            Some(id) => Some(id),
            None => models::clone_text(&existing.active_course_id),
        },
    }
}

/// What is stored of the settings.
#[derive(Debug)]
pub enum StoredSettings {
    /// There is no file with settings.
    Missing,
    /// There is a file that does not hold settings.
    Unreadable,
    /// The file holds these settings.
    Stored(AppSettings),
}

/// The settings to go on with, and whether they are still to be written.
pub fn load_settings(stored: StoredSettings) -> (r: (AppSettings, bool))
    ensures
        r.0@ == loaded(stored),
        r.1 == (stored is Missing),
{
    match stored {
        StoredSettings::Missing => (AppSettings::defaults(), true),
        StoredSettings::Unreadable => (AppSettings::defaults(), false),
        StoredSettings::Stored(settings) => (settings, false),
    }
}

/// The settings to go on with.
pub open spec fn loaded(stored: StoredSettings) -> SettingsView {
    match stored {
        StoredSettings::Stored(settings) => settings@,
        _ => models::default_settings(),
    }
}

/// An input that keeps all settings but for the active course, which it sets.
pub fn activation(current: AppSettings, course_id: String) -> (r: SaveSettingsInput)
    ensures
        r@ == (SettingsView { active_course_id: Some(course_id@), ..current@ }),
{
    SaveSettingsInput {
        api_base: current.api_base,
        api_key: current.api_key,
        vision_model: current.vision_model,
        fast_answer_model: current.fast_answer_model,
        answer_model: current.answer_model,
        embedding_model: current.embedding_model,
        output_dir: current.output_dir,
        shortcut: current.shortcut,
        text_shortcut: current.text_shortcut,
        active_course_id: Some(course_id),
    }
}

/// The settings with another active course, as an import leaves them.
pub fn with_active_course(current: AppSettings, course_id: String) -> (r: AppSettings)
    ensures
        r@ == (SettingsView { active_course_id: Some(course_id@), ..current@ }),
{
    let mut updated = current;
    updated.active_course_id = Some(course_id);
    updated
}

/// No text of the settings but for the key has white space or a pair of quotation
/// marks around it.
pub open spec fn is_plain(s: SettingsView) -> bool {
    &&& unquoted(s.api_base) == s.api_base
    &&& unquoted(s.vision_model) == s.vision_model
    &&& unquoted(s.fast_answer_model) == s.fast_answer_model
    &&& unquoted(s.answer_model) == s.answer_model
    &&& unquoted(s.embedding_model) == s.embedding_model
    &&& unquoted(s.output_dir) == s.output_dir
    &&& unquoted(s.shortcut) == s.shortcut
    &&& unquoted(s.text_shortcut) == s.text_shortcut
}

/// Saving never loses the active course: an input that names one sets it, an input
/// that names none keeps it.
pub proof fn saving_keeps_the_active_course(existing: SettingsView, input: SettingsView)
    ensures
        input.active_course_id is Some ==> merged(existing, input).active_course_id
            == input.active_course_id,
        input.active_course_id is None ==> merged(existing, input).active_course_id
            == existing.active_course_id,
        existing.active_course_id is Some ==> merged(existing, input).active_course_id is Some,
{
}

/// Activating a course changes nothing else of plain settings.
pub proof fn activating_changes_the_course_alone(current: SettingsView, course_id: Seq<char>)
    requires
        is_plain(current),
    ensures
        merged(current, (SettingsView { active_course_id: Some(course_id), ..current })) == (
        SettingsView { active_course_id: Some(course_id), ..current }),
{
}

/// Entering plain settings unchanged changes nothing.
pub proof fn saving_plain_settings_changes_nothing(settings: SettingsView)
    requires
        is_plain(settings),
    ensures
        merged(settings, settings) == settings,
{
}

/// What a saved text ends up as does not depend on white space around what was
/// entered.
pub proof fn saving_ignores_outer_white_space(before: Seq<char>, s: Seq<char>, after: Seq<char>)
    requires
        text::is_blank(before),
        text::is_blank(after),
    ensures
        unquoted(before + s + after) == unquoted(s),
{
    lemma_trim_padded(before, s, after);
}

/// Trimming takes white space around a text away.
proof fn lemma_trim_padded(before: Seq<char>, s: Seq<char>, after: Seq<char>)
    requires
        text::is_blank(before),
        text::is_blank(after),
    ensures
        text::trim(before + s + after) == text::trim(s),
    decreases before.len() + after.len(),
{
    let whole = before + s + after;
    if before.len() > 0 {
        let rest = before.drop_first();
        assert(whole[0] == before[0]);
        assert(whole.drop_first() =~= rest + s + after);
        assert forall|i: int| 0 <= i < rest.len() implies text::is_white(#[trigger] rest[i]) by {
            assert(rest[i] == before[i + 1]);
        }
        lemma_trim_padded(rest, s, after);
    } else if after.len() > 0 {
        let rest = after.drop_last();
        assert forall|i: int| 0 <= i < rest.len() implies text::is_white(#[trigger] rest[i]) by {
            assert(rest[i] == after[i]);
        }
        lemma_trim_padded(before, s, rest);
        assert(before + s + rest =~= s + rest);
        assert(whole =~= (s + rest).push(after.last()));
        lemma_trim_pushed(s + rest, after.last());
    } else {
        assert(whole =~= s);
    }
}

/// Trimming takes white space at the end of a text away.
proof fn lemma_trim_pushed(s: Seq<char>, c: char)
    requires
        text::is_white(c),
    ensures
        text::trim(s.push(c)) == text::trim(s),
    decreases s.len(),
{
    if s.len() == 0 {
        assert(s.push(c).drop_first() =~= s);
        assert(text::trim_start(s.push(c)) == text::trim_start(s));
    } else if text::is_white(s[0]) {
        assert(s.push(c)[0] == s[0]);
        assert(s.push(c).drop_first() =~= s.drop_first().push(c));
        lemma_trim_pushed(s.drop_first(), c);
    } else {
        assert(s.push(c)[0] == s[0]);
        assert(text::trim_start(s.push(c)) == s.push(c));
        assert(s.push(c).drop_last() =~= s);
    }
}

/// A text that does not start and end with white space or a quotation mark is kept
/// as it is.
proof fn lemma_unquoted_fixed(s: Seq<char>)
    requires
        s.len() > 0 ==> !text::is_white(s[0]) && !text::is_white(s.last()) && s[0] != '\''
            && s[0] != '"',
    ensures
        unquoted(s) == s,
{
    text::lemma_trim_fixed(s);
}

/// The settings where nothing was chosen are plain: saving them unchanged keeps them.
pub proof fn defaults_are_plain()
    ensures
        is_plain(models::default_settings()),
        merged(models::default_settings(), models::default_settings())
            == models::default_settings(),
{
    reveal_strlit("https://api.siliconflow.cn/v1");
    reveal_strlit("THUDM/GLM-4.1V-9B-Thinking");
    reveal_strlit("Qwen/Qwen3-32B");
    reveal_strlit("Pro/zai-org/GLM-5.1");
    reveal_strlit("BAAI/bge-m3");
    reveal_strlit("CommandOrControl+Shift+1");
    reveal_strlit("CommandOrControl+Shift+2");
    let d = models::default_settings();
    lemma_unquoted_fixed(d.api_base);
    lemma_unquoted_fixed(d.vision_model);
    lemma_unquoted_fixed(d.fast_answer_model);
    lemma_unquoted_fixed(d.answer_model);
    lemma_unquoted_fixed(d.embedding_model);
    lemma_unquoted_fixed(d.output_dir);
    lemma_unquoted_fixed(d.shortcut);
    lemma_unquoted_fixed(d.text_shortcut);
}

/// One pair of equal quotation marks around a text goes, with the white space inside it; a
/// text that does not start with one, or does not end with the same, only loses the white
/// space around it.
pub proof fn one_pair_of_quotes_is_stripped(mark: char, s: Seq<char>)
    ensures
        mark == '\'' || mark == '"' ==> unquoted(seq![mark] + s + seq![mark]) == text::trim(s),
        text::is_trimmed(s) && s.len() > 0 && s[0] != '\'' && s[0] != '"' ==> unquoted(s) == s,
        text::is_trimmed(s) && s.len() > 0 && s[0] != s.last() ==> unquoted(s) == s,
        s.len() <= 1 && text::is_trimmed(s) ==> unquoted(s) == s,
{
    if mark == '\'' || mark == '"' {
        let t = seq![mark] + s + seq![mark];
        assert(text::is_trimmed(t));
        text::lemma_trim_fixed(t);
        assert(t.subrange(1, t.len() - 1) =~= s);
    }
    if text::is_trimmed(s) {
        text::lemma_trim_fixed(s);
    }
}

/// What is saved of each entry is the entry itself, without quotation marks and white space
/// around it; of the key nothing is taken off.
pub proof fn entries_are_saved_under_their_own_names(existing: SettingsView, input: SettingsView)
    ensures
        ({
            let r = merged(existing, input);
            &&& r.api_base == unquoted(input.api_base)
            &&& r.api_key == input.api_key
            &&& r.vision_model == unquoted(input.vision_model)
            &&& r.fast_answer_model == unquoted(input.fast_answer_model)
            &&& r.answer_model == unquoted(input.answer_model)
            &&& r.embedding_model == unquoted(input.embedding_model)
            &&& r.output_dir == unquoted(input.output_dir)
            &&& r.shortcut == unquoted(input.shortcut)
            &&& r.text_shortcut == unquoted(input.text_shortcut)
        }),
{
}

/// Stored settings that can be read are gone on with as they are; without such the settings
/// are those where nothing was chosen.
pub proof fn readable_settings_are_kept(settings: AppSettings)
    ensures
        loaded(StoredSettings::Stored(settings)) == settings@,
        loaded(StoredSettings::Missing) == models::default_settings(),
        loaded(StoredSettings::Unreadable) == models::default_settings(),
{
}

} // verus!
