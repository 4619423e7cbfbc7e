use flnder::ai::{
    after_response, api_error_text, chat_text, deserialize_sources, embedding_of,
    is_retryable_status, local_ocr_fallback, ocr_text_from, parse_solve_payload, quick_answer_body,
    recognised_text, render_questions, AiClient, FullNext, FullStage, MessageContent, PostNext,
    QuickNext, QuickStage, Reply, SourceItem, UserContent, ANSWER_FULLY, ANSWER_QUICKLY, READ_IMAGE,
    RETURN_TEXT,
};
use flnder::error::StudyError;
use flnder::models::{AiSolvedQuestion, AppSettings, Score};

fn owned(parts: &[&str]) -> Vec<String> {
    parts.iter().map(|p| p.to_string()).collect()
}

fn client() -> AiClient {
    AiClient::new(AppSettings::defaults())
}

fn image_url(bytes: &[u8]) -> String {
    match client().extract_question_from_image(bytes).user {
        UserContent::Image { url, .. } => url,
        UserContent::Text(_) => panic!("no image"),
    }
}

#[test]
fn questions_are_rendered_with_their_places() {
    assert_eq!(render_questions(&owned(&["a", "b"])), "1. a\n\n2. b");
    assert_eq!(render_questions(&vec![]), "");
}

#[test]
fn a_request_for_quick_answers_is_small() {
    let r = quick_answer_body("m", "1. a", "ctx");
    assert_eq!(r.model, "m");
    assert_eq!(r.temperature_tenths, 1);
    assert_eq!(r.max_tokens, Some(256));
    assert_eq!(r.enable_thinking, Some(false));
    assert!(r.json_object);
    assert_eq!(r.system, ANSWER_QUICKLY);
    match r.user {
        UserContent::Text(s) => assert_eq!(s, "Questions:\n1. a\n\nCourse context:\nctx"),
        UserContent::Image { .. } => panic!("an image"),
    }
}

#[test]
fn a_request_for_full_answers_is_large() {
    let solve = client().solve_questions(&owned(&["a"]), "ctx");
    let r = solve.request();
    assert_eq!(r.model, "Pro/zai-org/GLM-5.1");
    assert_eq!(r.temperature_tenths, 2);
    assert_eq!(r.max_tokens, Some(2048));
    assert_eq!(r.enable_thinking, None);
    assert!(r.json_object);
    assert_eq!(r.system, ANSWER_FULLY);
    match r.user {
        UserContent::Text(s) => assert_eq!(s, "Questions:\n1. a\n\nCourse context:\nctx"),
        UserContent::Image { .. } => panic!("an image"),
    }
}

#[test]
fn an_image_goes_with_its_bytes() {
    let r = client().extract_question_from_image(b"hi!");
    assert_eq!(r.model, "THUDM/GLM-4.1V-9B-Thinking");
    assert_eq!(r.system, READ_IMAGE);
    assert_eq!(r.max_tokens, None);
    assert!(!r.json_object);
    match r.user {
        UserContent::Image { text, url } => {
            assert_eq!(text, RETURN_TEXT);
            assert_eq!(url, "data:image/png;base64,aGkh");
        }
        UserContent::Text(_) => panic!("no image"),
    }
    assert_eq!(image_url(b""), "data:image/png;base64,");
    assert_eq!(image_url(b"f"), "data:image/png;base64,Zg==");
    assert_eq!(image_url(b"fo"), "data:image/png;base64,Zm8=");
    assert_eq!(image_url(b"foob"), "data:image/png;base64,Zm9vYg==");
    assert_eq!(image_url(&[0xfb, 0xff, 0xbf]), "data:image/png;base64,+/+/");
}

#[test]
fn different_images_have_different_urls() {
    assert_ne!(image_url(&[0]), image_url(&[0, 0]));
    assert_ne!(image_url(&[1, 2, 3]), image_url(&[1, 2, 4]));
}

#[test]
fn an_embedding_is_asked_for() {
    let r = client().embed("x");
    assert_eq!(r.model, "BAAI/bge-m3");
    assert_eq!(r.input, "x");
}

#[test]
fn recognised_text_is_trimmed() {
    assert_eq!(recognised_text(" a\n"), Some("a".to_string()));
    assert_eq!(recognised_text(" \n"), None);
}

#[test]
fn local_recognition_can_fail() {
    assert_eq!(local_ocr_fallback(true, b" a \n"), Ok("a".to_string()));
    assert_eq!(local_ocr_fallback(true, b""), Ok(String::new()));
    assert_eq!(local_ocr_fallback(true, &[b'a', 0xff]), Ok("a\u{fffd}".to_string()));
    assert_eq!(local_ocr_fallback(false, b"a"), Err(StudyError::OcrFailed));
    assert_eq!(ocr_text_from(true, " b "), Ok("b".to_string()));
    assert_eq!(ocr_text_from(false, " b "), Err(StudyError::OcrFailed));
}

#[test]
fn quick_answers_are_asked_for_three_times_at_the_most() {
    let solve = client().solve_quick_answers(&owned(&["a"]), "c");
    assert_eq!(solve.request(QuickStage::First).model, "Qwen/Qwen3-32B");
    assert_eq!(solve.request(QuickStage::Fallback).model, "Pro/zai-org/GLM-5.1");
    assert_eq!(solve.request(QuickStage::Retry).model, "Qwen/Qwen3-32B");
    assert_eq!(
        solve.next(QuickStage::First, Reply::Failed),
        QuickNext::Ask(QuickStage::Fallback)
    );
    assert_eq!(solve.next(QuickStage::Fallback, Reply::Failed), QuickNext::GiveUp);
    assert_eq!(solve.next(QuickStage::Retry, Reply::Failed), QuickNext::GiveUp);
    assert_eq!(
        solve.next(QuickStage::First, Reply::Unreadable),
        QuickNext::Ask(QuickStage::Retry)
    );
    assert_eq!(
        solve.next(QuickStage::Fallback, Reply::Unreadable),
        QuickNext::Ask(QuickStage::Retry)
    );
    assert_eq!(solve.next(QuickStage::Retry, Reply::Unreadable), QuickNext::GiveUp);
    assert_eq!(solve.next(QuickStage::Retry, Reply::Read), QuickNext::Finish);
}

#[test]
fn one_model_is_not_asked_in_its_own_place() {
    let mut settings = AppSettings::defaults();
    settings.fast_answer_model = settings.answer_model.clone();
    let solve = AiClient::new(settings).solve_quick_answers(&vec![], "");
    assert_eq!(solve.next(QuickStage::First, Reply::Failed), QuickNext::GiveUp);
}

#[test]
fn full_answers_are_asked_for_twice_at_the_most() {
    let solve = client().solve_questions(&vec![], "");
    assert_eq!(
        solve.next(FullStage::First, Reply::Unreadable),
        FullNext::Ask(FullStage::Retry)
    );
    assert_eq!(solve.next(FullStage::First, Reply::Failed), FullNext::GiveUp);
    assert_eq!(solve.next(FullStage::Retry, Reply::Unreadable), FullNext::GiveUp);
    assert_eq!(solve.next(FullStage::Retry, Reply::Failed), FullNext::GiveUp);
    assert_eq!(solve.next(FullStage::First, Reply::Read), FullNext::Finish);
}

#[test]
fn the_text_of_a_reply_is_found() {
    assert_eq!(chat_text(MessageContent::Text(String::new())), Ok(String::new()));
    assert_eq!(
        chat_text(MessageContent::Parts(vec![
            Some("a".to_string()),
            None,
            Some("b".to_string())
        ])),
        Ok("a\nb".to_string())
    );
    assert_eq!(
        chat_text(MessageContent::Parts(vec![None, Some(String::new())])),
        Err(StudyError::MissingContent)
    );
    assert_eq!(chat_text(MessageContent::Parts(vec![])), Err(StudyError::MissingContent));
    assert_eq!(chat_text(MessageContent::Other), Err(StudyError::MissingContent));
}

#[test]
fn requests_need_a_key() {
    assert_eq!(client().post("embeddings"), Err(StudyError::MissingApiKey));
    let mut settings = AppSettings::defaults();
    settings.api_key = "k".to_string();
    settings.api_base = "https://x/v1//".to_string();
    assert_eq!(
        AiClient::new(settings).post("chat/completions"),
        Ok("https://x/v1/chat/completions".to_string())
    );
}

#[test]
fn requests_are_sent_three_times_at_the_most() {
    assert_eq!(after_response(200, 0), PostNext::Accept);
    assert_eq!(after_response(299, 5), PostNext::Accept);
    assert_eq!(after_response(503, 0), PostNext::RetryAfter(400));
    assert_eq!(after_response(503, 1), PostNext::RetryAfter(800));
    assert_eq!(after_response(503, 2), PostNext::Fail);
    assert_eq!(after_response(404, 0), PostNext::Fail);
    assert_eq!(after_response(501, 0), PostNext::Fail);
    for status in 100..600 {
        assert_eq!(is_retryable_status(status), [500, 502, 503, 504].contains(&status));
    }
    assert_eq!(
        api_error_text("404 Not Found", "{}"),
        "model API error 404 Not Found: {}"
    );
}

#[test]
fn embeddings_are_taken_from_their_list() {
    let one = Score { bits: 1.0f32.to_bits() };
    assert_eq!(embedding_of(None), Err(StudyError::MissingVector));
    assert_eq!(embedding_of(Some(vec![])), Err(StudyError::EmptyVector));
    assert_eq!(embedding_of(Some(vec![None])), Err(StudyError::EmptyVector));
    assert_eq!(embedding_of(Some(vec![None, Some(one)])), Ok(vec![one]));
}

#[test]
fn sources_are_collected() {
    let s = |x: &str| Some(x.to_string());
    let items = vec![
        SourceItem::Object { title: s("T"), excerpt: s("E"), text: s("X") },
        SourceItem::Object { title: None, excerpt: None, text: s("X") },
        SourceItem::Other,
        SourceItem::Object { title: None, excerpt: None, text: None },
        SourceItem::Text("note".to_string()),
    ];
    let r: Vec<(String, String)> = deserialize_sources(&items)
        .into_iter()
        .map(|x| (x.title, x.excerpt))
        .collect();
    let expected: Vec<(String, String)> = [
        ("T", "E"),
        ("Course material", "X"),
        ("Course material", ""),
        ("Model note", "note"),
    ]
    .iter()
    .map(|(a, b)| (a.to_string(), b.to_string()))
    .collect();
    assert_eq!(r, expected);
}

#[test]
fn confidences_lie_between_zero_and_one() {
    let item = |x: f32| AiSolvedQuestion {
        question: "q".to_string(),
        question_zh: String::new(),
        answer: String::new(),
        answer_brief: String::new(),
        explanation: String::new(),
        confidence: Score { bits: x.to_bits() },
        low_confidence: false,
        sources: vec![],
    };
    let r = parse_solve_payload(vec![item(1.5), item(-0.5), item(0.25)]);
    let bits: Vec<u32> = r.questions.iter().map(|q| q.confidence.bits).collect();
    assert_eq!(bits, vec![1.0f32.to_bits(), 0, 0.25f32.to_bits()]);
    assert_eq!(r.questions[0].question, "q");
}
