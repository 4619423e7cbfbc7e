use flnder::payload::{
    extract_complete_top_level_objects, has_reversed_braces, normalize_model_json, parse_json,
    repair_truncated_json, salvage_questions_payload, JsonAttempt, PayloadError, SalvageError,
};

#[test]
fn fences_around_a_reply_are_taken_off() {
    assert_eq!(normalize_model_json("  {\"a\":1}\n"), "{\"a\":1}");
    assert_eq!(normalize_model_json("```json\n{\"a\":1}\n```"), "{\"a\":1}");
    assert_eq!(normalize_model_json("```\n[1]\n``` "), "[1]");
    assert_eq!(normalize_model_json("```json {\"a\":1}"), "```json {\"a\":1}");
    assert_eq!(normalize_model_json("```json```"), "");
}

#[test]
fn a_cut_reply_is_closed() {
    assert_eq!(repair_truncated_json("{\"a\":[1,2"), "{\"a\":[1,2]}");
    assert_eq!(repair_truncated_json("{\"a\":\"x"), "{\"a\":\"x\"}");
    assert_eq!(repair_truncated_json("{\"a\":\"\\\"[{"), "{\"a\":\"\\\"[{\"}");
    assert_eq!(repair_truncated_json("[{"), "[{]}");
    assert_eq!(repair_truncated_json("]}"), "]}");
    assert_eq!(repair_truncated_json(""), "");
}

#[test]
fn closing_a_closed_reply_changes_nothing() {
    for s in ["{\"a\":[1,{\"b\":\"]\"}]}", "[]", "\"x\""] {
        assert_eq!(repair_truncated_json(s), s);
        assert_eq!(repair_truncated_json(&repair_truncated_json(s)), s);
    }
}

#[test]
fn complete_objects_are_found() {
    assert_eq!(
        extract_complete_top_level_objects("{\"a\":{\"b\":1}}, {\"c\":\"}\"} ,{\"d\":"),
        vec!["{\"a\":{\"b\":1}}".to_string(), "{\"c\":\"}\"}".to_string()]
    );
    assert_eq!(extract_complete_top_level_objects("{} ] {}"), vec!["{}".to_string()]);
    assert!(extract_complete_top_level_objects("{\"a\":").is_empty());
    assert_eq!(extract_complete_top_level_objects("{\"题\":1}"), vec!["{\"题\":1}".to_string()]);
}

#[test]
fn questions_are_salvaged() {
    assert_eq!(
        salvage_questions_payload("x \"questions\": [ {\"a\":1}, {\"b\":2}, {\"c\""),
        Ok("{\"questions\":[{\"a\":1},{\"b\":2}]}".to_string())
    );
    assert_eq!(salvage_questions_payload("{}"), Err(SalvageError::MissingPayload));
    assert_eq!(salvage_questions_payload("{\"questions\": 1}"), Err(SalvageError::MissingArray));
    assert_eq!(
        salvage_questions_payload("{\"questions\": [ {\"a\""),
        Err(SalvageError::NoCompleteObject)
    );
}

#[test]
fn salvaging_keeps_a_complete_payload() {
    let s = "{\"questions\":[{\"a\":1},{\"b\":[2]}]}";
    assert_eq!(salvage_questions_payload(s), Ok(s.to_string()));
}

#[test]
fn attempts_come_in_their_order() {
    let raw = "Here: {\"questions\":[{\"a\":1},{\"b\":";
    assert_eq!(parse_json(raw, None), Ok((JsonAttempt::Direct, raw.to_string())));
    assert_eq!(
        parse_json(raw, Some(JsonAttempt::Direct)),
        Ok((JsonAttempt::Repaired, "{\"questions\":[{\"a\":1},{\"b\":]}}".to_string()))
    );
    assert!(!has_reversed_braces(raw));
    assert_eq!(
        parse_json(raw, Some(JsonAttempt::Repaired)),
        Ok((JsonAttempt::Sliced, "{\"questions\":[{\"a\":1}".to_string()))
    );
    assert_eq!(
        parse_json(raw, Some(JsonAttempt::Sliced)),
        Ok((JsonAttempt::Salvaged, "{\"questions\":[{\"a\":1}]}".to_string()))
    );
    assert_eq!(
        parse_json(raw, Some(JsonAttempt::Salvaged)),
        Err(PayloadError::Unreadable)
    );
}

#[test]
fn a_reply_without_braces_is_salvaged_at_once() {
    assert_eq!(
        parse_json("no", Some(JsonAttempt::Direct)),
        Err(PayloadError::Salvage(SalvageError::MissingPayload))
    );
    assert_eq!(
        parse_json("{ no", Some(JsonAttempt::Repaired)),
        Err(PayloadError::Salvage(SalvageError::MissingPayload))
    );
}

#[test]
fn reversed_braces_are_seen() {
    assert!(has_reversed_braces("} x {"));
    assert!(!has_reversed_braces("}{"));
    assert!(!has_reversed_braces("{}"));
    assert!(!has_reversed_braces("{"));
    assert_eq!(
        parse_json("}{", Some(JsonAttempt::Repaired)),
        Ok((JsonAttempt::Sliced, String::new()))
    );
}

#[test]
fn a_closed_reply_is_tried_unchanged() {
    let raw = "{\"questions\":[]}";
    assert_eq!(parse_json(raw, None), Ok((JsonAttempt::Direct, raw.to_string())));
    assert_eq!(
        parse_json(raw, Some(JsonAttempt::Direct)),
        Ok((JsonAttempt::Repaired, raw.to_string()))
    );
}

#[test]
fn a_longer_reply_keeps_its_objects() {
    let whole = "{\"a\":1}, {\"b\":\"}{\"}, {\"c\":[{}]} ] {}";
    let all = extract_complete_top_level_objects(whole);
    assert_eq!(all.len(), 3);
    for end in 0..=whole.len() {
        let part = extract_complete_top_level_objects(&whole[..end]);
        assert_eq!(part, all[..part.len()].to_vec());
    }
}
