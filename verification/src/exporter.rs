//! Writing solved questions into a word processor document.

use vstd::prelude::*;
use crate::models::{
    DocxExportJob, DocxExportJobView, SolveResult, SolveSourceView, SolvedQuestion,
    SolvedQuestionView,
};
use crate::stamp;
use crate::text;

verus! {

/// A document of the `docx_rs` crate.
#[verifier::external_type_specification]
#[verifier::external_body]
pub struct ExDocx(docx_rs::Docx);

/// A paragraph of the `docx_rs` crate.
#[verifier::external_type_specification]
#[verifier::external_body]
pub struct ExParagraph(docx_rs::Paragraph);

/// A run of the `docx_rs` crate: text with one look.
#[verifier::external_type_specification]
#[verifier::external_body]
pub struct ExRun(docx_rs::Run);

/// What stands in a run.
pub enum RunPart {
    Text(Seq<char>),
    PageBreak,
}

/// What a run holds: what stands in it, whether it is bold, and the size of its
/// letters in half points where it has one of its own.
pub struct RunContent {
    pub parts: Seq<RunPart>,
    pub bold: bool,
    pub size: Option<usize>,
}

/// What stands in a run.
pub uninterp spec fn run_parts(run: docx_rs::Run) -> Seq<RunPart>;

/// Whether a run is bold.
pub uninterp spec fn run_is_bold(run: docx_rs::Run) -> bool;

/// The size of the letters of a run, where it has one of its own.
pub uninterp spec fn run_size(run: docx_rs::Run) -> Option<usize>;

/// The runs of a paragraph.
pub uninterp spec fn paragraph_runs(paragraph: docx_rs::Paragraph) -> Seq<RunContent>;

/// The paragraphs of a document.
pub uninterp spec fn docx_paragraphs(docx: docx_rs::Docx) -> Seq<Seq<RunContent>>;

/// The paragraphs of the document that a file holds.
pub uninterp spec fn paragraphs_in(file: Seq<u8>) -> Seq<Seq<RunContent>>;

/// Whether a document can be packed into a file.
pub uninterp spec fn can_be_packed(docx: docx_rs::Docx) -> bool;

/// What a run holds.
pub open spec fn run_content(run: docx_rs::Run) -> RunContent {
    RunContent { parts: run_parts(run), bold: run_is_bold(run), size: run_size(run) }
}

/// What a document shows of a text: all but its line ends.
pub open spec fn shown(s: Seq<char>) -> Seq<char> {
    s.filter(|c: char| c != '\n' && c != '\r')
}

/// `Run::new`: a run in which nothing stands, with no look of its own.
#[verifier::external_body]
fn new_run() -> (r: docx_rs::Run)
    ensures
        run_parts(r) == Seq::<RunPart>::empty(),
        !run_is_bold(r),
        run_size(r) is None,
{
    docx_rs::Run::new()
}

/// `Run::add_text`: adds a text without its line ends, and changes nothing else.
#[verifier::external_body]
fn add_text(run: docx_rs::Run, text: &str) -> (r: docx_rs::Run)
    ensures
        run_parts(r) == run_parts(run).push(RunPart::Text(shown(text@))),
        run_is_bold(r) == run_is_bold(run),
        run_size(r) == run_size(run),
{
    run.add_text(text)
}

/// `Run::bold`: makes the run bold, and changes nothing else.
#[verifier::external_body]
fn bold(run: docx_rs::Run) -> (r: docx_rs::Run)
    ensures
        run_parts(r) == run_parts(run),
        run_is_bold(r),
        run_size(r) == run_size(run),
{
    run.bold()
}

/// `Run::size`: sets the size of the letters, and changes nothing else.
#[verifier::external_body]
fn sized(run: docx_rs::Run, size: usize) -> (r: docx_rs::Run)
    ensures
        run_parts(r) == run_parts(run),
        run_is_bold(r) == run_is_bold(run),
        run_size(r) == Some(size),
{
    run.size(size)
}

/// `Run::add_break` with `BreakType::Page`: adds a page break, and changes nothing
/// else.
#[verifier::external_body]
fn add_page_break(run: docx_rs::Run) -> (r: docx_rs::Run)
    ensures
        run_parts(r) == run_parts(run).push(RunPart::PageBreak),
        run_is_bold(r) == run_is_bold(run),
        run_size(r) == run_size(run),
{
    run.add_break(docx_rs::BreakType::Page)
}

/// `Paragraph::new`: a paragraph without runs.
#[verifier::external_body]
fn new_paragraph() -> (r: docx_rs::Paragraph)
    ensures
        paragraph_runs(r) == Seq::<RunContent>::empty(),
{
    docx_rs::Paragraph::new()
}

/// `Paragraph::add_run`: adds a run behind the others.
#[verifier::external_body]
fn add_run(paragraph: docx_rs::Paragraph, run: docx_rs::Run) -> (r: docx_rs::Paragraph)
    ensures
        paragraph_runs(r) == paragraph_runs(paragraph).push(run_content(run)),
{
    paragraph.add_run(run)
}

/// `Docx::new`: a document without paragraphs.
#[verifier::external_body]
fn new_docx() -> (r: docx_rs::Docx)
    ensures
        docx_paragraphs(r) == Seq::<Seq<RunContent>>::empty(),
{
    docx_rs::Docx::new()
}

/// `Docx::add_paragraph`: adds a paragraph behind the others.
#[verifier::external_body]
fn add_paragraph(docx: docx_rs::Docx, paragraph: docx_rs::Paragraph) -> (r: docx_rs::Docx)
    ensures
        docx_paragraphs(r) == docx_paragraphs(docx).push(paragraph_runs(paragraph)),
{
    docx.add_paragraph(paragraph)
}

/// `Docx::build` and `XMLDocx::pack`: the file with the document. It holds each
/// paragraph with its runs, their texts and their looks. Which other bytes it holds
/// is left open: the numbers of the paragraphs in it count on from document to
/// document. The file is written in memory, so whether packing succeeds depends on the
/// document alone: one of paragraphs with text cannot be packed only where its text has
/// more bytes than the 32-bit sizes in the archive can count.
#[verifier::external_body]
fn pack(docx: docx_rs::Docx) -> (r: Result<Vec<u8>, zip::result::ZipError>)
    ensures
        r is Ok <==> can_be_packed(docx),
        r matches Ok(file) ==> paragraphs_in(file@) == docx_paragraphs(docx),
{
    let mut file = std::io::Cursor::new(Vec::new());
    docx.build().pack(&mut file)?;
    Ok(file.into_inner())
}

/// A run that shows a text.
pub open spec fn plain_run(s: Seq<char>) -> RunContent {
    RunContent { parts: seq![RunPart::Text(shown(s))], bold: false, size: None }
}

/// A bold run that shows a text.
pub open spec fn bold_run(s: Seq<char>) -> RunContent {
    RunContent { bold: true, ..plain_run(s) }
}

/// A paragraph with one bold text in letters of the given size.
pub open spec fn heading(s: Seq<char>, size: usize) -> Seq<RunContent> {
    seq![(RunContent { size: Some(size), ..bold_run(s) })]
}

/// A paragraph with a bold label and a value.
pub open spec fn labelled(label: Seq<char>, value: Seq<char>) -> Seq<RunContent> {
    seq![bold_run(label + "："@), plain_run(value)]
}

/// A paragraph with a page break.
pub open spec fn page_break() -> Seq<RunContent> {
    seq![(RunContent { parts: seq![RunPart::PageBreak], bold: false, size: None })]
}

/// A paragraph with a bold label and a value.
fn paragraph(label: &str, value: &str) -> (r: docx_rs::Paragraph)
    ensures
        paragraph_runs(r) == labelled(label@, value@),
{
    let mut head = label.to_owned();
    head.append("：");
    let label_run = bold(add_text(new_run(), head.as_str()));
    let value_run = add_text(new_run(), value);
    proof {
        assert(run_content(label_run).parts =~= seq![RunPart::Text(shown(head@))]);
        assert(run_content(value_run).parts =~= seq![RunPart::Text(shown(value@))]);
    }
    let r = add_run(add_run(new_paragraph(), label_run), value_run);
    assert(paragraph_runs(r) =~= labelled(label@, value@));
    r
}

/// A paragraph with one bold text in letters of the given size.
fn heading_paragraph(s: &str, size: usize) -> (r: docx_rs::Paragraph)
    ensures
        paragraph_runs(r) == heading(s@, size),
{
    let run = sized(bold(add_text(new_run(), s)), size);
    assert(run_content(run).parts =~= seq![RunPart::Text(shown(s@))]);
    let r = add_run(new_paragraph(), run);
    assert(paragraph_runs(r) =~= heading(s@, size));
    r
}

/// A paragraph with a page break.
fn page_break_paragraph() -> (r: docx_rs::Paragraph)
    ensures
        paragraph_runs(r) == page_break(),
{
    let run = add_page_break(new_run());
    assert(run_content(run).parts =~= seq![RunPart::PageBreak]);
    let r = add_run(new_paragraph(), run);
    assert(paragraph_runs(r) =~= page_break());
    r
}

/// The paragraphs for the sources of an answer.
pub open spec fn source_paragraphs(sources: Seq<SolveSourceView>) -> Seq<Seq<RunContent>> {
    sources.map_values(
        |s: SolveSourceView| labelled("依据来源"@, s.title + "："@ + s.excerpt),
    )
}

/// The paragraphs for a solved question before those for its sources.
pub open spec fn head_paragraphs(item: SolvedQuestionView, percent: Seq<char>) -> Seq<
    Seq<RunContent>,
> {
    seq![
        heading("第 "@ + text::decimal(item.ordinal as nat) + " 题"@, 30),
        labelled("原题"@, item.question),
        labelled("题目中文翻译"@, item.question_zh),
        labelled("答案"@, item.answer),
        labelled("简短答案"@, item.answer_brief),
        labelled("解析"@, item.explanation),
        labelled("置信度"@, percent),
        labelled(
            "人工复核"@,
            if item.low_confidence {
                "需要"@
            } else {
                "暂不需要"@
            },
        ),
    ]
}

/// The paragraphs for a solved question; its confidence and the time of the result
/// are given as they are to be shown.
pub open spec fn item_paragraphs(
    item: SolvedQuestionView,
    percent: Seq<char>,
    time: Seq<char>,
) -> Seq<Seq<RunContent>> {
    head_paragraphs(item, percent) + source_paragraphs(item.sources) + seq![
        labelled("生成时间"@, time),
        page_break(),
    ]
}

/// The paragraphs for the solved questions, one after the other.
pub open spec fn items_paragraphs(
    items: Seq<SolvedQuestionView>,
    percents: Seq<Seq<char>>,
    times: Seq<Seq<char>>,
) -> Seq<Seq<RunContent>>
    decreases items.len(),
{
    if items.len() == 0 {
        Seq::empty()
    } else {
        items_paragraphs(items.drop_last(), percents, times) + item_paragraphs(
            items.last(),
            percents[items.len() - 1],
            times[items.len() - 1],
        )
    }
}

/// The paragraphs of a document with the solved questions of a course.
pub open spec fn document_paragraphs(
    course_name: Seq<char>,
    items: Seq<SolvedQuestionView>,
    percents: Seq<Seq<char>>,
    times: Seq<Seq<char>>,
) -> Seq<Seq<RunContent>> {
    seq![heading(course_name + " - 多题答案单"@, 36)] + items_paragraphs(items, percents, times)
}

/// Adds the paragraphs for the sources of an answer.
fn add_sources(docx: docx_rs::Docx, item: &SolvedQuestion) -> (r: docx_rs::Docx)
    ensures
        docx_paragraphs(r) == docx_paragraphs(docx) + source_paragraphs(item@.sources),
{
    let mut doc = docx;
    let ghost start = docx_paragraphs(docx);
    let ghost all = source_paragraphs(item@.sources);
    let mut i: usize = 0;
    assert(start + all.take(0) =~= start);
    while i < item.sources.len()
        invariant
            i <= item.sources@.len(),
            all == source_paragraphs(item@.sources),
            docx_paragraphs(doc) == start + all.take(i as int),
        decreases item.sources@.len() - i,
    {
        let source = &item.sources[i];
        let mut value = source.title.clone();
        value.append("：");
        value.append(source.excerpt.as_str());
        doc = add_paragraph(doc, paragraph("依据来源", value.as_str()));
        proof {
            assert(item@.sources[i as int] == source@);
            assert(start + all.take(i + 1) =~= (start + all.take(i as int)).push(all[i as int]));
        }
        i += 1;
    }
    assert(all.take(i as int) =~= all);
    doc
}

/// Adds the paragraphs for a solved question.
fn add_item(docx: docx_rs::Docx, item: &SolvedQuestion, percent: &str, time: &str) -> (r:
    docx_rs::Docx)
    ensures
        docx_paragraphs(r) == docx_paragraphs(docx) + item_paragraphs(item@, percent@, time@),
{
    let ghost start = docx_paragraphs(docx);
    let mut title = "第 ".to_owned();
    let ordinal = text::decimal_text(item.ordinal as u64);
    title.append(ordinal.as_str());
    title.append(" 题");
    let doc = add_paragraph(docx, heading_paragraph(title.as_str(), 30));
    let doc = add_paragraph(doc, paragraph("原题", item.question.as_str()));
    let doc = add_paragraph(doc, paragraph("题目中文翻译", item.question_zh.as_str()));
    let doc = add_paragraph(doc, paragraph("答案", item.answer.as_str()));
    let doc = add_paragraph(doc, paragraph("简短答案", item.answer_brief.as_str()));
    let doc = add_paragraph(doc, paragraph("解析", item.explanation.as_str()));
    let doc = add_paragraph(doc, paragraph("置信度", percent));
    let review = if item.low_confidence {
        "需要"
    } else {
        "暂不需要"
    };
    let doc = add_paragraph(doc, paragraph("人工复核", review));
    assert(docx_paragraphs(doc) =~= start + head_paragraphs(item@, percent@));
    let doc = add_sources(doc, item);
    let doc = add_paragraph(doc, paragraph("生成时间", time));
    let doc = add_paragraph(doc, page_break_paragraph());
    assert(docx_paragraphs(doc) =~= start + item_paragraphs(item@, percent@, time@));
    doc
}

/// A document with the solved questions of a course. The confidence of each question
/// and the time shown with it are given as they are to be shown.
pub fn result_document(
    course_name: &str,
    items: &Vec<SolvedQuestion>,
    percents: &Vec<String>,
    times: &Vec<String>,
) -> (r: docx_rs::Docx)
    requires
        percents@.len() == items@.len(),
        times@.len() == items@.len(),
    ensures
        docx_paragraphs(r) == document_paragraphs(
            course_name@,
            text::views(items@),
            text::views(percents@),
            text::views(times@),
        ),
{
    let mut title = course_name.to_owned();
    title.append(" - 多题答案单");
    let mut doc = add_paragraph(new_docx(), heading_paragraph(title.as_str(), 36));
    let ghost start = docx_paragraphs(doc);
    let ghost all = text::views(items@);
    let ghost p = text::views(percents@);
    let ghost t = text::views(times@);
    let mut i: usize = 0;
    proof {
        assert(start =~= seq![heading(title@, 36)]);
        assert(start + items_paragraphs(all.take(0), p, t) =~= start);
    }
    while i < items.len()
        invariant
            i <= items@.len(),
            percents@.len() == items@.len(),
            times@.len() == items@.len(),
            all == text::views(items@),
            p == text::views(percents@),
            t == text::views(times@),
            docx_paragraphs(doc) == start + items_paragraphs(all.take(i as int), p, t),
        decreases items@.len() - i,
    {
        proof {
            assert(all.take(i + 1).drop_last() =~= all.take(i as int));
            assert(all.take(i + 1).last() == items@[i as int]@);
            assert(p[i as int] == percents@[i as int]@);
            assert(t[i as int] == times@[i as int]@);
        }
        doc = add_item(doc, &items[i], percents[i].as_str(), times[i].as_str());
        assert(docx_paragraphs(doc) =~= start + items_paragraphs(all.take(i + 1), p, t));
        i += 1;
    }
    assert(all.take(i as int) =~= all);
    doc
}

/// The form in which a time is shown.
pub const TIME_FORM: &'static str = "%Y-%m-%d %H:%M:%S";

/// Whether a text can be read as a time.
pub uninterp spec fn is_time(written: Seq<char>) -> bool;

/// A time that is written in a text, so many seconds east of Greenwich, in the given form.
pub uninterp spec fn time_at(written: Seq<char>, offset: i32, form: Seq<char>) -> Seq<char>;

/// `DateTime::parse_from_rfc3339`, `with_timezone` with the zone of the machine, and the
/// offset of the result: how many seconds that zone is east of Greenwich at the time that
/// is written in the text, always less than a day; none where no time can be read in it.
/// Which offset it is, is left open, for it depends on the machine.
#[verifier::external_body]
fn local_offset(written: &str) -> (r: Option<i32>)
    ensures
        r is Some <==> is_time(written@),
        r matches Some(offset) ==> -86_400 < offset < 86_400,
{
    chrono::DateTime::parse_from_rfc3339(written).ok()
        .map(|time| time.with_timezone(&chrono::Local).offset().local_minus_utc())
}

/// `DateTime::parse_from_rfc3339`, `with_timezone` with a zone of the given offset, and
/// `format`: the time that is written in the text, in that zone and in the given form.
#[verifier::external_body]
fn time_text(written: &str, offset: i32, form: &str) -> (r: String)
    requires
        is_time(written@),
        -86_400 < offset < 86_400,
        form@ == TIME_FORM@,
    ensures
        r@ == time_at(written@, offset, form@),
        stamp::is_shown_time(r@),
{
    let zone = chrono::FixedOffset::east_opt(offset).expect("an offset of less than a day");
    chrono::DateTime::parse_from_rfc3339(written).expect("a time")
        .with_timezone(&zone).format(form).to_string()
}

/// `chrono::Local::now` and `format`: the time of the machine in the given form. Which
/// time it is, is left open.
#[verifier::external_body]
fn now_in_form(form: &str) -> (r: String)
    requires
        form@ == TIME_FORM@,
    ensures
        stamp::is_shown_time(r@),
{
    chrono::Local::now().format(form).to_string()
}

/// The text shows the time of a result: the time that is written in it, at some offset. Where
/// none can be read in it, the text shows some time.
pub open spec fn shows(created_at: Seq<char>, time: Seq<char>) -> bool {
    &&& stamp::is_shown_time(time)
    &&& is_time(created_at) ==> exists|offset: i32|
        -86_400 < offset < 86_400 && time == #[trigger] time_at(created_at, offset, TIME_FORM@)
}

/// The time that is written in a text, as it is shown at an offset of so many seconds from
/// UTC.
pub fn shown_time_at(created_at: &str, offset: i32) -> (r: String)
    requires
        is_time(created_at@),
        -86_400 < offset < 86_400,
    ensures
        r@ == time_at(created_at@, offset, TIME_FORM@),
        shows(created_at@, r@),
{
    time_text(created_at, offset, TIME_FORM)
}

/// The time to show with an item of a result: that of the result, in the zone of the
/// machine, or the time now where that cannot be read.
fn shown_time(created_at: &str) -> (r: String)
    ensures
        shows(created_at@, r@),
{
    match local_offset(created_at) {
        Some(offset) => shown_time_at(created_at, offset),
        None => now_in_form(TIME_FORM),
    }
}

/// The times to show with the items of a result.
fn shown_times(created_at: &str, count: usize) -> (r: Vec<String>)
    ensures
        r@.len() == count,
        forall|i: int| 0 <= i < count ==> shows(created_at@, (#[trigger] r@[i])@),
{
    let mut times: Vec<String> = Vec::new();
    while times.len() < count
        invariant
            times@.len() <= count,
            forall|i: int| 0 <= i < times@.len() ==> shows(created_at@, (#[trigger] times@[i])@),
        decreases count - times@.len(),
    {
        times.push(shown_time(created_at));
    }
    times
}

/// The file that came of packing a document, and what is reported of it: the path, the
/// number of questions and the time as they are given. Where packing failed, its error.
pub fn export_report(
    packed: Result<Vec<u8>, zip::result::ZipError>,
    output_path: &str,
    written_questions: usize,
    created_at: String,
) -> (r: Result<(Vec<u8>, DocxExportJob), zip::result::ZipError>)
    ensures
        packed matches Ok(file) ==> (r matches Ok((f, job)) && f@ == file@ && job@ == (
        DocxExportJobView {
            output_path: output_path@,
            written_questions,
            created_at: created_at@,
        })),
        packed matches Err(e) ==> (r matches Err(f) && f == e),
{
    match packed {
        Err(e) => Err(e),
        Ok(file) => Ok(
            (
                file,
                DocxExportJob {
                    output_path: output_path.to_owned(),
                    written_questions,
                    created_at,
                },
            ),
        ),
    }
}

/// The file with the solved questions of a result, and what is reported of it. The
/// confidences are given as they are to be shown. It fails just where the document with
/// these questions cannot be packed. With each question the time of the result is shown;
/// the offset at which it is shown depends on the time zone of the machine, and where no
/// time can be read in the result, the time of the machine is shown.
pub fn write_result_docx(
    course_name: &str,
    output_path: &str,
    result: &SolveResult,
    percents: &Vec<String>,
) -> (r: Result<(Vec<u8>, DocxExportJob), zip::result::ZipError>)
    requires
        percents@.len() == result.items@.len(),
    ensures
        exists|times: Seq<Seq<char>>, docx: docx_rs::Docx|
            {
                &&& times.len() == result.items@.len()
                &&& forall|i: int|
                    0 <= i < times.len() ==> shows(result.created_at@, #[trigger] times[i])
                &&& #[trigger] docx_paragraphs(docx) == #[trigger] document_paragraphs(
                    course_name@,
                    text::views(result.items@),
                    text::views(percents@),
                    times,
                )
                &&& r is Ok <==> can_be_packed(docx)
                &&& r matches Ok((file, job)) ==> paragraphs_in(file@) == docx_paragraphs(docx)
            },
        r matches Ok((file, job)) ==> job.output_path@ == output_path@ && job.written_questions
            == result.items@.len() && stamp::is_rfc3339(job.created_at@),
{
    let times = shown_times(result.created_at.as_str(), result.items.len());
    let docx = result_document(course_name, &result.items, percents, &times);
    let ghost document = docx;
    let packed = pack(docx);
    let r = export_report(packed, output_path, result.items.len(), stamp::now_text());
    proof {
        let shown = text::views(times@);
        assert(shown.len() == result.items@.len());
        assert forall|i: int| 0 <= i < shown.len() implies shows(
            result.created_at@,
            #[trigger] shown[i],
        ) by {
            assert(shown[i] == times@[i]@);
        }
        assert(docx_paragraphs(document) == document_paragraphs(
            course_name@,
            text::views(result.items@),
            text::views(percents@),
            shown,
        ));
    }
    r
}

/// How many paragraphs come before those for the item at `i`, and how many a document
/// has: one for the title, ten for each item and one for each source.
pub open spec fn paragraph_count(items: Seq<SolvedQuestionView>) -> nat
    decreases items.len(),
{
    if items.len() == 0 {
        1
    } else {
        paragraph_count(items.drop_last()) + 10 + items.last().sources.len()
    }
}

/// A document holds all solved questions in their order: the paragraphs for each one
/// stand behind those for the ones before it.
pub proof fn documents_hold_every_answer(
    course_name: Seq<char>,
    items: Seq<SolvedQuestionView>,
    percents: Seq<Seq<char>>,
    times: Seq<Seq<char>>,
    i: int,
)
    requires
        0 <= i < items.len(),
    ensures
        document_paragraphs(course_name, items, percents, times).len() == paragraph_count(items),
        ({
            let from = paragraph_count(items.take(i)) as int;
            let to = paragraph_count(items.take(i + 1)) as int;
            0 < from < to <= paragraph_count(items) && document_paragraphs(
                course_name,
                items,
                percents,
                times,
            ).subrange(from, to) == item_paragraphs(items[i], percents[i], times[i])
        }),
    decreases items.len(),
{
    let title = seq![heading(course_name + " - 多题答案单"@, 36)];
    let body = items.drop_last();
    let n = items.len() - 1;
    let whole = document_paragraphs(course_name, items, percents, times);
    let part = item_paragraphs(items.last(), percents[n], times[n]);
    let before = document_paragraphs(course_name, body, percents, times);
    assert(whole =~= before + part);
    assert(part.len() == 10 + items.last().sources.len());
    assert(items.take(n) =~= body);
    assert(items.take(n + 1) =~= items);
    lemma_document_len(course_name, body, percents, times);
    if i == n {
        assert(whole.subrange(before.len() as int, whole.len() as int) =~= part);
    } else {
        documents_hold_every_answer(course_name, body, percents, times, i);
        assert(body.take(i) =~= items.take(i));
        assert(body.take(i + 1) =~= items.take(i + 1));
        let from = paragraph_count(items.take(i)) as int;
        let to = paragraph_count(items.take(i + 1)) as int;
        assert(whole.subrange(from, to) =~= before.subrange(from, to));
    }
}

/// The number of the paragraphs of a document.
proof fn lemma_document_len(
    course_name: Seq<char>,
    items: Seq<SolvedQuestionView>,
    percents: Seq<Seq<char>>,
    times: Seq<Seq<char>>,
)
    ensures
        document_paragraphs(course_name, items, percents, times).len() == paragraph_count(items),
        paragraph_count(items) > 0,
    decreases items.len(),
{
    if items.len() > 0 {
        lemma_document_len(course_name, items.drop_last(), percents, times);
    }
}

/// What is shown of a text goes part by part: line ends show nothing, and a character that
/// is none shows itself.
pub proof fn line_ends_are_not_shown(s: Seq<char>, c: char)
    ensures
        shown(Seq::empty()) == Seq::<char>::empty(),
        shown(s.push('\n')) == shown(s),
        shown(s.push('\r')) == shown(s),
        c != '\n' && c != '\r' ==> shown(s.push(c)) == shown(s).push(c),
{
    reveal(Seq::filter);
    assert(s.push('\n').drop_last() =~= s);
    assert(s.push('\r').drop_last() =~= s);
    assert(s.push(c).drop_last() =~= s);
}

/// The paragraph has two runs, a bold one that shows the first text and a plain one that
/// shows the second.
pub open spec fn shows_pair(paragraph: Seq<RunContent>, first: Seq<char>, second: Seq<char>) -> bool {
    &&& paragraph.len() == 2
    &&& paragraph[0].parts == seq![RunPart::Text(shown(first))] && paragraph[0].bold
        && paragraph[0].size is None
    &&& paragraph[1].parts == seq![RunPart::Text(shown(second))] && !paragraph[1].bold
        && paragraph[1].size is None
}

/// The paragraph has one run, which shows the text in bold letters of the size.
pub open spec fn shows_heading(paragraph: Seq<RunContent>, s: Seq<char>, size: usize) -> bool {
    &&& paragraph.len() == 1
    &&& paragraph[0].parts == seq![RunPart::Text(shown(s))] && paragraph[0].bold
        && paragraph[0].size == Some(size)
}

/// A solved question is written under its number, with each of its parts behind the label
/// that names it: the question, its translation, the answer, the short answer, the
/// explanation, the confidence, whether a review is needed, each source with its title and
/// its excerpt, and the time; a page break follows.
pub proof fn parts_of_an_answer_stand_behind_their_labels(
    item: SolvedQuestionView,
    percent: Seq<char>,
    time: Seq<char>,
    k: int,
)
    ensures
        ({
            let p = item_paragraphs(item, percent, time);
            let n = item.sources.len();
            &&& p.len() == 10 + n
            &&& shows_heading(p[0], "第 "@ + text::decimal(item.ordinal as nat) + " 题"@, 30)
            &&& shows_pair(p[1], "原题"@ + "："@, item.question)
            &&& shows_pair(p[2], "题目中文翻译"@ + "："@, item.question_zh)
            &&& shows_pair(p[3], "答案"@ + "："@, item.answer)
            &&& shows_pair(p[4], "简短答案"@ + "："@, item.answer_brief)
            &&& shows_pair(p[5], "解析"@ + "："@, item.explanation)
            &&& shows_pair(p[6], "置信度"@ + "："@, percent)
            &&& item.low_confidence ==> shows_pair(p[7], "人工复核"@ + "："@, "需要"@)
            &&& !item.low_confidence ==> shows_pair(p[7], "人工复核"@ + "："@, "暂不需要"@)
            &&& 0 <= k < n ==> shows_pair(
                p[8 + k],
                "依据来源"@ + "："@,
                item.sources[k].title + "："@ + item.sources[k].excerpt,
            )
            &&& shows_pair(p[8 + n as int], "生成时间"@ + "："@, time)
            &&& p[9 + n as int].len() == 1
            &&& p[9 + n as int][0].parts == seq![RunPart::PageBreak]
        }),
{
    let p = item_paragraphs(item, percent, time);
    let n = item.sources.len() as int;
    assert(source_paragraphs(item.sources).len() == n);
    assert(head_paragraphs(item, percent).len() == 8);
    if 0 <= k < n {
        assert(p[8 + k] == source_paragraphs(item.sources)[k]);
    }
}

/// A document starts with the name of its course, and a further question is written behind
/// the others, with the confidence and the time that are given for it.
pub proof fn questions_are_written_one_by_one(
    course_name: Seq<char>,
    items: Seq<SolvedQuestionView>,
    next: SolvedQuestionView,
    percents: Seq<Seq<char>>,
    times: Seq<Seq<char>>,
)
    ensures
        document_paragraphs(course_name, Seq::empty(), percents, times).len() == 1,
        shows_heading(
            document_paragraphs(course_name, Seq::empty(), percents, times)[0],
            course_name + " - 多题答案单"@,
            36,
        ),
        document_paragraphs(course_name, items.push(next), percents, times) == document_paragraphs(
            course_name,
            items,
            percents,
            times,
        ) + item_paragraphs(next, percents[items.len() as int], times[items.len() as int]),
{
    assert(items.push(next).drop_last() =~= items);
    let none = items_paragraphs(Seq::empty(), percents, times);
    assert(none.len() == 0);
    assert(document_paragraphs(course_name, items.push(next), percents, times)
        =~= document_paragraphs(course_name, items, percents, times) + item_paragraphs(
        next,
        percents[items.len() as int],
        times[items.len() as int],
    ));
}

} // verus!
