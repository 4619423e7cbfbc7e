use flnder::error::{error_to_string, StudyError};
use flnder::models::{
    default_fast_answer_model, default_text_shortcut, AppSettings, SaveSettingsInput, Score,
};
use flnder::payload::SalvageError;
use flnder::settings::{
    activation, load_settings, merge_settings, strip_wrapping_quotes, with_active_course,
    StoredSettings,
};

fn score(x: f32) -> Score {
    Score { bits: x.to_bits() }
}

fn input(active: Option<&str>) -> SaveSettingsInput {
    SaveSettingsInput {
        api_base: " 'https://x/' ".to_string(),
        api_key: " \"key\" ".to_string(),
        vision_model: "\" v \"".to_string(),
        fast_answer_model: "f".to_string(),
        answer_model: "'a".to_string(),
        embedding_model: "''".to_string(),
        output_dir: "\t/out\n".to_string(),
        shortcut: "'".to_string(),
        text_shortcut: "题".to_string(),
        active_course_id: active.map(|s| s.to_string()),
    }
}

#[test]
fn numbers_are_ordered_as_floats_are() {
    let values = [
        0.0f32, -0.0, 1.0, -1.0, 0.5, 1.0000001, f32::MIN_POSITIVE, -f32::MIN_POSITIVE, f32::MAX,
        f32::MIN, f32::INFINITY, f32::NEG_INFINITY, f32::NAN, -f32::NAN, 1e-45, -1e-45,
    ];
    for a in values {
        for b in values {
            assert_eq!(score(a).is_less(score(b)), a < b, "{} {}", a, b);
        }
    }
}

#[test]
fn numbers_are_clamped_as_floats_are() {
    for x in [0.0f32, -0.0, 0.3, 1.0, 1.5, -2.0, f32::INFINITY, f32::NEG_INFINITY, f32::NAN] {
        assert_eq!(score(x).clamp_to_unit().bits, x.clamp(0.0, 1.0).to_bits());
    }
    assert_eq!(score(1.5).clamp_to_unit().clamp_to_unit().bits, 1.0f32.to_bits());
}

#[test]
fn default_settings_are_those_documented() {
    let d = AppSettings::defaults();
    assert_eq!(d.api_base, "https://api.siliconflow.cn/v1");
    assert_eq!(d.api_key, "");
    assert_eq!(d.vision_model, "THUDM/GLM-4.1V-9B-Thinking");
    assert_eq!(d.fast_answer_model, default_fast_answer_model());
    assert_eq!(d.fast_answer_model, "Qwen/Qwen3-32B");
    assert_eq!(d.answer_model, "Pro/zai-org/GLM-5.1");
    assert_eq!(d.embedding_model, "BAAI/bge-m3");
    assert_eq!(d.output_dir, "");
    assert_eq!(d.shortcut, "CommandOrControl+Shift+1");
    assert_eq!(d.text_shortcut, default_text_shortcut());
    assert_eq!(d.text_shortcut, "CommandOrControl+Shift+2");
    assert!(d.active_course_id.is_none());
    assert_eq!(d.clone().api_base, d.api_base);
}

#[test]
fn one_pair_of_quotation_marks_is_taken_off() {
    assert_eq!(strip_wrapping_quotes("  'a b' "), "a b");
    assert_eq!(strip_wrapping_quotes("\" a \""), "a");
    assert_eq!(strip_wrapping_quotes("''a''"), "'a'");
    assert_eq!(strip_wrapping_quotes("'a\""), "'a\"");
    assert_eq!(strip_wrapping_quotes("'"), "'");
    assert_eq!(strip_wrapping_quotes("''"), "");
    assert_eq!(strip_wrapping_quotes("'题'"), "题");
    assert_eq!(strip_wrapping_quotes(" "), "");
}

#[test]
fn white_space_around_an_entry_changes_nothing() {
    assert_eq!(strip_wrapping_quotes("\n 'x' \t"), strip_wrapping_quotes("'x'"));
}

#[test]
fn settings_are_merged() {
    let mut existing = AppSettings::defaults();
    existing.active_course_id = Some("old".to_string());
    let m = merge_settings(&existing, input(None));
    assert_eq!(m.api_base, "https://x/");
    assert_eq!(m.api_key, " \"key\" ");
    assert_eq!(m.vision_model, "v");
    assert_eq!(m.fast_answer_model, "f");
    assert_eq!(m.answer_model, "'a");
    assert_eq!(m.embedding_model, "");
    assert_eq!(m.output_dir, "/out");
    assert_eq!(m.shortcut, "'");
    assert_eq!(m.text_shortcut, "题");
    assert_eq!(m.active_course_id, Some("old".to_string()));
    assert_eq!(
        merge_settings(&existing, input(Some("new"))).active_course_id,
        Some("new".to_string())
    );
    assert_eq!(merge_settings(&AppSettings::defaults(), input(None)).active_course_id, None);
}

#[test]
fn activating_a_course_keeps_plain_settings() {
    let d = AppSettings::defaults();
    let m = merge_settings(&d, activation(d.clone(), "c".to_string()));
    assert_eq!(m.active_course_id, Some("c".to_string()));
    assert_eq!(m.api_base, d.api_base);
    assert_eq!(m.answer_model, d.answer_model);
    assert_eq!(m.shortcut, d.shortcut);
    let w = with_active_course(d.clone(), "e".to_string());
    assert_eq!(w.active_course_id, Some("e".to_string()));
    assert_eq!(w.vision_model, d.vision_model);
}

#[test]
fn missing_settings_are_written() {
    let (s, write) = load_settings(StoredSettings::Missing);
    assert_eq!(s.answer_model, "Pro/zai-org/GLM-5.1");
    assert!(write);
    let (s, write) = load_settings(StoredSettings::Unreadable);
    assert_eq!(s.answer_model, "Pro/zai-org/GLM-5.1");
    assert!(!write);
    let mut stored = AppSettings::defaults();
    stored.answer_model = "m".to_string();
    let (s, write) = load_settings(StoredSettings::Stored(stored));
    assert_eq!(s.answer_model, "m");
    assert!(!write);
}

#[test]
fn errors_have_their_words() {
    let words = [
        (StudyError::MissingApiKey, "missing API key"),
        (StudyError::MissingVector, "embedding response missing vector"),
        (StudyError::EmptyVector, "embedding vector is empty"),
        (StudyError::MissingContent, "chat response missing content"),
        (
            StudyError::Salvage(SalvageError::MissingPayload),
            "model did not return a questions payload",
        ),
        (StudyError::Salvage(SalvageError::MissingArray), "questions array missing"),
        (
            StudyError::Salvage(SalvageError::NoCompleteObject),
            "no complete question objects could be salvaged",
        ),
        (StudyError::OcrFailed, "tesseract OCR failed"),
        (StudyError::CourseNotFound, "course not found"),
        (StudyError::CourseNameRequired, "course name is required"),
        (StudyError::NoDocument, "select at least one document"),
        (StudyError::NoCourseForCapture, "set an active course before capturing"),
        (StudyError::NoCourseForText, "set an active course before solving"),
        (StudyError::NoQuestion, "failed to split any questions from screenshot"),
        (StudyError::NoSolvedQuestion, "model did not return any solved questions"),
        (StudyError::CaptureFailed, "capture was cancelled or failed"),
        (StudyError::ClipboardUnreadable, "failed to read clipboard text"),
        (StudyError::ClipboardEmpty, "clipboard does not contain readable text"),
        (
            StudyError::ClipboardNotCleared,
            "failed to clear clipboard before starting capture",
        ),
        (StudyError::SnippingNotLaunched, "failed to launch Windows screen snipping"),
        (
            StudyError::NothingCopied,
            "capture was cancelled or no image was copied to the clipboard",
        ),
    ];
    for (error, text) in words {
        assert_eq!(error_to_string(error), text);
    }
}

#[test]
fn plain_settings_are_saved_unchanged() {
    let d = AppSettings::defaults();
    let entered = SaveSettingsInput {
        api_base: d.api_base.clone(),
        api_key: d.api_key.clone(),
        vision_model: d.vision_model.clone(),
        fast_answer_model: d.fast_answer_model.clone(),
        answer_model: d.answer_model.clone(),
        embedding_model: d.embedding_model.clone(),
        output_dir: d.output_dir.clone(),
        shortcut: d.shortcut.clone(),
        text_shortcut: d.text_shortcut.clone(),
        active_course_id: None,
    };
    assert_eq!(format!("{:?}", merge_settings(&d, entered)), format!("{:?}", d));
}
