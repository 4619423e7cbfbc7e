use flnder::db::{
    course_name, ensure_column, insert_chunk, insert_document, insert_document_at, list_courses,
    query_similar_chunks, recent_results, row_to_result, save_result, upsert_course, upsert_course_at, CourseRow,
    CourseWrite,
};
use flnder::documents::ParsedDocument;
use flnder::error::StudyError;
use flnder::models::{KnowledgeChunk, Score, SolveResult, SolveSource, SolvedQuestion};

fn s(x: &str) -> String {
    x.to_string()
}

fn chunk(id: &str, similarity: Option<f32>) -> KnowledgeChunk {
    KnowledgeChunk {
        id: s(id),
        course_id: s("c"),
        document_id: s("d"),
        ordinal: 0,
        content: s("text"),
        source_file: s("f"),
        similarity: similarity.map(|x| Score { bits: x.to_bits() }),
    }
}

fn document() -> ParsedDocument {
    ParsedDocument {
        path: s("/p/a.txt"),
        file_name: s("a.txt"),
        kind: s("txt"),
        sha256: s("00"),
        text: s("t"),
    }
}

fn item(ordinal: usize, question: &str) -> SolvedQuestion {
    SolvedQuestion {
        ordinal,
        question: s(question),
        question_zh: s("zh"),
        answer: s("answer"),
        answer_brief: s("A"),
        explanation: s("why"),
        sources: vec![SolveSource { title: s("t"), excerpt: s("e") }],
        confidence: Score { bits: 5 },
        low_confidence: false,
    }
}

fn result(items: Vec<SolvedQuestion>) -> SolveResult {
    SolveResult {
        id: s("id"),
        course_id: s("c"),
        item_count: items.len(),
        items,
        answer_preview: s("1.A"),
        confidence: Score { bits: 9 },
        low_confidence: true,
        suggested_file_stem: s("stem"),
        output_path: s("/o"),
        created_at: s("now"),
    }
}

fn is_id(id: &str) -> bool {
    let c: Vec<char> = id.chars().collect();
    c.len() == 36
        && c.iter().enumerate().all(|(i, ch)| {
            if [8, 13, 18, 23].contains(&i) {
                *ch == '-'
            } else {
                ch.is_ascii_digit() || ('a'..='f').contains(ch)
            }
        })
}

#[test]
fn missing_columns_are_added() {
    let columns = vec![s("id"), s("question")];
    assert_eq!(ensure_column(&columns, "t", "question", "TEXT"), None);
    assert_eq!(
        ensure_column(&columns, "t", "items", "TEXT NOT NULL"),
        Some(s("ALTER TABLE t ADD COLUMN items TEXT NOT NULL"))
    );
}

#[test]
fn a_known_course_keeps_its_identifier() {
    let (id, write) = upsert_course("Maths", Some(s("known")));
    assert_eq!(id, "known");
    match write {
        CourseWrite::Touch { id, updated_at } => {
            assert_eq!(id, "known");
            assert!(updated_at.contains('T'));
        }
        CourseWrite::Insert { .. } => panic!("new"),
    }
}

#[test]
fn a_new_course_gets_an_identifier() {
    let (id, write) = upsert_course("Maths", None);
    assert!(is_id(&id));
    match write {
        CourseWrite::Insert { id: written, name, created_at } => {
            assert_eq!(written, id);
            assert_eq!(name, "Maths");
            assert!(created_at.contains('T'));
        }
        CourseWrite::Touch { .. } => panic!("known"),
    }
    let (other, _) = upsert_course("Maths", None);
    assert_ne!(id, other);
    let (fixed, write) = upsert_course_at("M", None, s("i"), s("n"));
    assert_eq!(fixed, "i");
    assert!(matches!(write, CourseWrite::Insert { .. }));
}

#[test]
fn a_document_is_imported_once() {
    assert!(insert_document("c", &document(), true).is_none());
    let row = insert_document("c", &document(), false).unwrap();
    assert!(is_id(&row.document.id));
    assert_eq!(row.document.course_id, "c");
    assert_eq!(row.document.file_name, "a.txt");
    assert_eq!(row.document.path, "/p/a.txt");
    assert_eq!(row.document.kind, "txt");
    assert_eq!(row.sha256, "00");
    let row = insert_document_at("c", &document(), false, s("i"), s("n")).unwrap();
    assert_eq!(row.document.id, "i");
    assert_eq!(row.document.imported_at, "n");
}

#[test]
fn pieces_are_written_under_new_identifiers() {
    let row = insert_chunk("c", "d", 4, "text", "f.txt");
    assert!(is_id(&row.id));
    assert_eq!(row.course_id, "c");
    assert_eq!(row.document_id, "d");
    assert_eq!(row.ordinal, 4);
    assert_eq!(row.content, "text");
    assert_eq!(row.source_file, "f.txt");
    assert!(row.similarity.is_none());
}

#[test]
fn the_active_course_is_marked() {
    let row = |id: &str| CourseRow {
        id: s(id),
        name: s("n"),
        updated_at: s("u"),
        document_count: 2,
        chunk_count: 3,
    };
    let courses = list_courses(vec![row("a"), row("b")], &Some(s("b")));
    assert_eq!(courses.len(), 2);
    assert!(!courses[0].is_active);
    assert!(courses[1].is_active);
    assert_eq!(courses[1].id, "b");
    assert_eq!(courses[0].document_count, 2);
    assert_eq!(courses[0].chunk_count, 3);
    assert!(list_courses(vec![row("a")], &None).iter().all(|c| !c.is_active));
}

#[test]
fn an_unknown_course_has_no_name() {
    assert_eq!(course_name(Some(s("n"))), Ok(s("n")));
    assert_eq!(course_name(None), Err(StudyError::CourseNotFound));
}

#[test]
fn the_most_similar_pieces_come_first() {
    let pieces = vec![
        chunk("a", Some(0.1)),
        chunk("b", Some(0.9)),
        chunk("c", Some(-0.5)),
        chunk("d", Some(0.9)),
        chunk("e", None),
        chunk("f", Some(0.0)),
        chunk("g", Some(-0.0)),
    ];
    let all: Vec<String> = query_similar_chunks(pieces.clone(), 10)
        .into_iter()
        .map(|p| p.id)
        .collect();
    assert_eq!(all, vec!["b", "d", "a", "f", "g", "c", "e"]);
    let best: Vec<String> = query_similar_chunks(pieces.clone(), 3)
        .into_iter()
        .map(|p| p.id)
        .collect();
    assert_eq!(best, vec!["b", "d", "a"]);
    assert!(query_similar_chunks(pieces, 0).is_empty());
    assert!(query_similar_chunks(vec![], 3).is_empty());
}

#[test]
fn a_result_reads_back_as_it_was_written() {
    let row = save_result(result(vec![item(1, "q1"), item(2, "q2")]));
    assert_eq!(row.question, "q1");
    assert_eq!(row.question_zh, "zh");
    assert_eq!(row.answer, "answer");
    assert_eq!(row.explanation, "why");
    assert_eq!(row.low_confidence, 1);
    assert_eq!(row.sources.as_ref().unwrap()[0].title, "t");
    let read = row_to_result(row);
    assert_eq!(read.id, "id");
    assert_eq!(read.item_count, 2);
    assert_eq!(read.items[1].question, "q2");
    assert_eq!(read.items[0].answer_brief, "A");
    assert_eq!(read.confidence.bits, 9);
    assert!(read.low_confidence);
    assert_eq!(read.answer_preview, "1.A");
    assert_eq!(read.suggested_file_stem, "stem");
    assert_eq!(read.output_path, "/o");
    assert_eq!(read.created_at, "now");
}

#[test]
fn a_result_without_its_list_keeps_its_first_item() {
    let mut row = save_result(result(vec![item(1, "q1"), item(2, "q2")]));
    row.items = None;
    let read = row_to_result(row);
    assert_eq!(read.item_count, 1);
    assert_eq!(read.items[0].ordinal, 1);
    assert_eq!(read.items[0].question, "q1");
    assert_eq!(read.items[0].answer_brief, "answer");
    assert_eq!(read.items[0].confidence.bits, 9);
    assert!(read.items[0].low_confidence);
    assert_eq!(read.items[0].sources[0].excerpt, "e");
}

#[test]
fn an_empty_result_reads_back_with_one_item() {
    let row = save_result(result(vec![]));
    assert_eq!(row.question, "");
    assert!(row.sources.as_ref().unwrap().is_empty());
    let read = row_to_result(row);
    assert_eq!(read.item_count, 1);
    assert_eq!(read.items[0].question, "");
    let mut row = save_result(result(vec![]));
    row.sources = None;
    row.low_confidence = 2;
    let read = row_to_result(row);
    assert!(read.items[0].sources.is_empty());
    assert!(!read.low_confidence);
}

#[test]
fn the_last_results_come_back_first() {
    let saved = |id: &str, time: &str| {
        let mut r = result(vec![item(1, id)]);
        r.id = s(id);
        r.created_at = s(time);
        save_result(r)
    };
    let rows = vec![
        saved("a", "2024-01-02T00:00:00+00:00"),
        saved("b", "2024-03-01T00:00:00+00:00"),
        saved("c", "2023-12-31T23:59:59+00:00"),
        saved("d", "2024-01-02T00:00:00+00:00"),
    ];
    let ids = |limit: usize| {
        recent_results(rows.clone(), limit)
            .into_iter()
            .map(|r| r.id)
            .collect::<Vec<String>>()
    };
    assert_eq!(ids(10), vec!["b", "a", "d", "c"]);
    assert_eq!(ids(2), vec!["b", "a"]);
    assert!(ids(0).is_empty());
    let all = recent_results(rows.clone(), 4);
    assert_eq!(all[0].items[0].question, "b");
    assert_eq!(all[3].created_at, "2023-12-31T23:59:59+00:00");
    assert!(recent_results(vec![], 3).is_empty());
}
