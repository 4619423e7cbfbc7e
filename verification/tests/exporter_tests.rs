use flnder::documents::extract_docx_text;
use flnder::exporter::{export_report, result_document, shown_time_at, write_result_docx};
use flnder::models::{Score, SolveResult, SolveSource, SolvedQuestion};

fn s(x: &str) -> String {
    x.to_string()
}

fn item(ordinal: usize) -> SolvedQuestion {
    SolvedQuestion {
        ordinal,
        question: s("What is\nit?"),
        question_zh: s("是什么"),
        answer: s("An <answer> & more"),
        answer_brief: s("A"),
        explanation: s("because"),
        sources: vec![SolveSource { title: s("Book"), excerpt: s("page") }],
        confidence: Score { bits: 0.5f32.to_bits() },
        low_confidence: ordinal == 2,
    }
}

fn result(created_at: &str) -> SolveResult {
    SolveResult {
        id: s("id"),
        course_id: s("c"),
        item_count: 2,
        items: vec![item(1), item(2)],
        answer_preview: s(""),
        confidence: Score { bits: 0 },
        low_confidence: false,
        suggested_file_stem: s("stem"),
        output_path: s("/o"),
        created_at: s(created_at),
    }
}

/// What the XML of a document shows.
fn xml_of(file: &[u8]) -> String {
    let mut archive = zip::ZipArchive::new(std::io::Cursor::new(file)).unwrap();
    let mut entry = archive.by_name("word/document.xml").unwrap();
    let mut xml = String::new();
    std::io::Read::read_to_string(&mut entry, &mut xml).unwrap();
    xml
}

#[test]
fn a_written_document_can_be_read() {
    let (file, job) = write_result_docx(
        "Maths",
        "/out/x.docx",
        &result("2024-05-06T07:08:09+00:00"),
        &vec![s("50%"), s("51%")],
    )
    .unwrap();
    assert_eq!(job.output_path, "/out/x.docx");
    assert_eq!(job.written_questions, 2);
    assert!(job.created_at.contains('T'));
    let text = extract_docx_text(&file).unwrap();
    let lines: Vec<&str> = text.lines().collect();
    assert_eq!(lines[0], "Maths - 多题答案单");
    assert_eq!(lines[1], "第 1 题");
    assert_eq!(&lines[2..6], &["原题：", "What isit?", "题目中文翻译：", "是什么"]);
    assert!(text.contains("简短答案：\nA\n解析：\nbecause\n置信度：\n50%\n人工复核：\n暂不需要"));
    assert!(text.contains("依据来源：\nBook：page\n生成时间：\n2024-05-0"));
    assert!(text.contains("第 2 题"));
    assert!(text.contains("置信度：\n51%\n人工复核：\n需要"));
    assert!(text.find("第 1 题").unwrap() < text.find("第 2 题").unwrap());
}

#[test]
fn headings_are_bold_and_large() {
    let (file, _) = write_result_docx(
        "Maths",
        "/o",
        &result("2024-05-06T07:08:09+00:00"),
        &vec![s("50%"), s("51%")],
    )
    .unwrap();
    let xml = xml_of(&file);
    assert_eq!(xml.matches("w:type=\"page\"").count(), 2);
    assert_eq!(xml.matches("<w:sz w:val=\"36\"").count(), 1);
    assert_eq!(xml.matches("<w:sz w:val=\"30\"").count(), 2);
    assert_eq!(xml.matches("<w:b />").count(), 1 + 2 * 10);
    assert!(xml.contains("An &lt;answer&gt; &amp; more"));
}

#[test]
fn a_time_that_cannot_be_read_becomes_that_of_now() {
    let (file, _) =
        write_result_docx("M", "/o", &result("never"), &vec![s("1%"), s("2%")]).unwrap();
    let text = extract_docx_text(&file).unwrap();
    let at = text.find("生成时间：\n").unwrap() + "生成时间：\n".len();
    let shown = &text[at..at + 19];
    assert_eq!(&shown[4..5], "-");
    assert_eq!(&shown[13..14], ":");
    assert!(shown[0..4].parse::<u32>().unwrap() >= 2024);
}

#[test]
fn a_document_without_questions_has_its_title() {
    let doc = result_document("C", &vec![], &vec![], &vec![]);
    let mut file = std::io::Cursor::new(Vec::new());
    doc.build().pack(&mut file).unwrap();
    assert_eq!(extract_docx_text(file.get_ref()).unwrap(), "C - 多题答案单");
}

#[test]
fn what_is_reported_follows_from_packing() {
    let (file, job) = export_report(Ok(vec![1, 2]), "/o", 7, s("now")).unwrap();
    assert_eq!(file, vec![1, 2]);
    assert_eq!(job.output_path, "/o");
    assert_eq!(job.written_questions, 7);
    assert_eq!(job.created_at, "now");
    let failed = export_report(Err(zip::result::ZipError::FileNotFound), "/o", 7, s("now"));
    assert!(matches!(failed, Err(zip::result::ZipError::FileNotFound)));
}

#[test]
fn the_time_of_the_result_is_shown() {
    let written = "2019-11-03T23:30:01.250-05:00";
    let (file, _) =
        write_result_docx("M", "/o", &result(written), &vec![s("1%"), s("2%")]).unwrap();
    let expected = chrono::DateTime::parse_from_rfc3339(written)
        .unwrap()
        .with_timezone(&chrono::Local)
        .format("%Y-%m-%d %H:%M:%S")
        .to_string();
    let text = extract_docx_text(&file).unwrap();
    assert_eq!(text.matches(&format!("生成时间：\n{}", expected)).count(), 2);
}

#[test]
fn a_time_is_shown_at_an_offset() {
    let written = "2024-05-06T07:08:09+00:00";
    assert_eq!(shown_time_at(written, 3600), "2024-05-06 08:08:09");
    assert_eq!(shown_time_at(written, 0), "2024-05-06 07:08:09");
    assert_eq!(shown_time_at(written, -8 * 3600), "2024-05-05 23:08:09");
    assert_eq!(shown_time_at("2024-05-06T07:08:09.5+02:00", 0), "2024-05-06 05:08:09");
}
