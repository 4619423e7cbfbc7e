use std::io::{Cursor, Write};

use flnder::documents::{
    extract_docx_text, extract_pptx_text, extract_xml_text, hex_text, join_fragments, parse_document,
    slide_names, sort_names, DocumentError, DocumentStep, XmlEvent,
};

fn archive(entries: &[(&str, &str)]) -> Vec<u8> {
    let mut writer = zip::ZipWriter::new(Cursor::new(Vec::new()));
    for (name, body) in entries {
        writer
            .start_file(*name, zip::write::SimpleFileOptions::default())
            .unwrap();
        writer.write_all(body.as_bytes()).unwrap();
    }
    writer.finish().unwrap().into_inner()
}

fn done(step: DocumentStep) -> flnder::documents::ParsedDocument {
    match step {
        DocumentStep::Done(d) => d,
        DocumentStep::ExtractPdf(_) => panic!("a PDF document"),
    }
}

fn parse(name: &str, ext: Option<&str>, bytes: &[u8]) -> Result<DocumentStep, DocumentError> {
    parse_document(
        format!("/tmp/{}", name),
        Some(name.to_string()),
        ext.map(|e| e.to_string()),
        bytes.to_vec(),
    )
}

#[test]
fn bytes_are_written_in_hexadecimal() {
    assert_eq!(hex_text(&[0, 15, 16, 255]), "000f10ff");
    assert_eq!(hex_text(&[]), "");
}

#[test]
fn character_data_is_joined() {
    assert_eq!(extract_xml_text("<a><b>one</b> <c>two</c></a>").unwrap(), "one\ntwo");
    assert_eq!(extract_xml_text("<a><![CDATA[x<y]]></a>").unwrap(), "x<y");
    assert_eq!(extract_xml_text("").unwrap(), "");
    assert!(extract_xml_text("<a></b>").is_err());
}

#[test]
fn fragments_are_joined_by_line_ends() {
    let events = vec![
        XmlEvent::Markup,
        XmlEvent::Text("a".to_string()),
        XmlEvent::Markup,
        XmlEvent::Text("b".to_string()),
        XmlEvent::End,
    ];
    assert_eq!(join_fragments(&events), "a\nb");
}

#[test]
fn names_are_sorted() {
    let names: Vec<String> = ["b", "a10", "a2", "", "题"].iter().map(|s| s.to_string()).collect();
    let mut expected = names.clone();
    expected.sort();
    assert_eq!(sort_names(names), expected);
}

#[test]
fn slides_are_picked_in_order() {
    let names: Vec<String> = [
        "ppt/slides/slide2.xml",
        "ppt/presentation.xml",
        "ppt/slides/slide1.xml",
        "ppt/slides/_rels/slide1.xml.rels",
        "ppt/slides/slide10.xml",
    ]
    .iter()
    .map(|s| s.to_string())
    .collect();
    assert_eq!(
        slide_names(names),
        vec![
            "ppt/slides/slide1.xml".to_string(),
            "ppt/slides/slide10.xml".to_string(),
            "ppt/slides/slide2.xml".to_string()
        ]
    );
}

#[test]
fn a_word_processor_document_is_read() {
    let bytes = archive(&[("word/document.xml", "<w><t>Hello</t><t>World</t></w>")]);
    assert_eq!(extract_docx_text(&bytes).unwrap(), "Hello\nWorld");
}

#[test]
fn a_presentation_is_read_slide_by_slide() {
    let bytes = archive(&[
        ("ppt/slides/slide2.xml", "<s><t>two</t></s>"),
        ("ppt/slides/slide1.xml", "<s><t>one</t></s>"),
        ("ppt/other.xml", "<s><t>no</t></s>"),
    ]);
    assert_eq!(extract_pptx_text(&bytes).unwrap(), "one\n\ntwo");
}

#[test]
fn broken_archives_give_their_errors() {
    assert!(matches!(extract_docx_text(b"no archive"), Err(DocumentError::Archive(_))));
    assert!(matches!(extract_pptx_text(b"no archive"), Err(DocumentError::Archive(_))));
    let empty = archive(&[("other.xml", "")]);
    assert!(matches!(extract_docx_text(&empty), Err(DocumentError::Archive(_))));
    assert_eq!(extract_pptx_text(&empty).unwrap(), "");
    let broken = archive(&[("word/document.xml", "<a></b>")]);
    assert!(matches!(extract_docx_text(&broken), Err(DocumentError::Xml(_))));
    let mut writer = zip::ZipWriter::new(Cursor::new(Vec::new()));
    writer
        .start_file("word/document.xml", zip::write::SimpleFileOptions::default())
        .unwrap();
    writer.write_all(&[0xff, 0xfe]).unwrap();
    let no_text = writer.finish().unwrap().into_inner();
    assert!(matches!(extract_docx_text(&no_text), Err(DocumentError::Entry(_))));
}

#[test]
fn plain_text_is_read_and_tidied() {
    let d = done(parse("n.txt", Some("TXT"), b"abc").unwrap());
    assert_eq!(d.text, "abc");
    assert_eq!(d.kind, "txt");
    assert_eq!(d.file_name, "n.txt");
    assert_eq!(d.path, "/tmp/n.txt");
    assert_eq!(
        d.sha256,
        "ba7816bf8f01cfea414140de5dae2223b00361a396177a9cb410ff61f20015ad"
    );
    let m = done(parse("n.md", Some("md"), "a  b\r\n\r\n\r\n\r\nc".as_bytes()).unwrap());
    assert_eq!(m.text, "a b\n\nc");
}

#[test]
fn office_documents_are_read_by_their_extension() {
    let docx = archive(&[("word/document.xml", "<w><t>Hello</t></w>")]);
    assert_eq!(done(parse("a.docx", Some("docx"), &docx).unwrap()).text, "Hello");
    let pptx = archive(&[("ppt/slides/slide1.xml", "<w><t>Slide</t></w>")]);
    assert_eq!(done(parse("a.pptx", Some("Pptx"), &pptx).unwrap()).text, "Slide");
}

#[test]
fn a_pdf_document_waits_for_its_text() {
    match parse("a.pdf", Some("PDF"), b"%PDF").unwrap() {
        DocumentStep::ExtractPdf(p) => {
            assert_eq!(p.kind, "pdf");
            assert_eq!(p.sha256.len(), 64);
            let d = p.finish(" a \t b ");
            assert_eq!(d.text, "a b");
            assert_eq!(d.file_name, "a.pdf");
        }
        DocumentStep::Done(_) => panic!("no PDF document"),
    }
}

#[test]
fn other_documents_are_refused() {
    match parse("a.xls", Some("XLS"), b"") {
        Err(DocumentError::UnsupportedType(kind)) => assert_eq!(kind, "xls"),
        _ => panic!("accepted"),
    }
    match parse("a", None, b"") {
        Err(DocumentError::UnsupportedType(kind)) => assert_eq!(kind, ""),
        _ => panic!("accepted"),
    }
    assert!(matches!(parse("a.txt", Some("txt"), &[0xff]), Err(DocumentError::NotUtf8(_))));
    assert!(matches!(
        parse_document("/".to_string(), None, Some("txt".to_string()), b"x".to_vec()),
        Err(DocumentError::InvalidFileName)
    ));
}
