//! The data that the other modules work on.

use vstd::prelude::*;
use crate::text;

verus! {

/// A number in single precision, by the 32 bits of its IEEE 754 form.
#[derive(Debug, Clone, Copy, PartialEq, Eq, Structural)]
pub struct Score {
    pub bits: u32,
}

/// The bits of 1.
pub const ONE: u32 = 0x3f80_0000;

/// The bits of the sign.
pub const SIGN: u32 = 0x8000_0000;

/// The bits of infinity.
pub const INFINITY: u32 = 0x7f80_0000;

impl Score {
    /// The number has its sign bit set.
    pub open spec fn is_signed(self) -> bool {
        self.bits >= SIGN
    }

    /// The bits of the number without its sign.
    pub open spec fn magnitude(self) -> int {
        if self.is_signed() {
            self.bits - SIGN
        } else {
            self.bits as int
        }
    }

    /// The value is not a number.
    pub open spec fn is_nan(self) -> bool {
        self.magnitude() > INFINITY
    }

    /// An integer by which numbers are ordered: bit patterns of numbers of one
    /// sign are ordered as the numbers are, and the two zeros are equal.
    pub open spec fn key(self) -> int {
        if self.is_signed() {
            -self.magnitude()
        } else {
            self.magnitude()
        }
    }

    /// The number is less than the other one; not so where one of them is not a
    /// number.
    pub open spec fn less(self, other: Score) -> bool {
        !self.is_nan() && !other.is_nan() && self.key() < other.key()
    }

    /// Whether the number is less than the other one.
    pub fn is_less(self, other: Score) -> (r: bool)
        ensures
            r == self.less(other),
    {
        let a: i64 = self.signed_magnitude();
        let b: i64 = other.signed_magnitude();
        let top: i64 = INFINITY as i64;
        -top <= a && a <= top && -top <= b && b <= top && a < b
    }

    /// The integer by which the number is ordered.
    fn signed_magnitude(self) -> (r: i64)
        ensures
            r == self.key(),
            -(INFINITY as int) <= r <= INFINITY <==> !self.is_nan(),
    {
        if self.bits >= SIGN {
            -((self.bits - SIGN) as i64)
        } else {
            self.bits as i64
        }
    }

    /// The number, or the nearer of 0 and 1 where it does not lie between them;
    /// what is not a number stays as it is.
    pub open spec fn clamped(self) -> Score {
        if self.less(Score { bits: 0 }) {
            Score { bits: 0 }
        } else if (Score { bits: ONE }).less(self) {
            Score { bits: ONE }
        } else {
            self
        }
    }

    /// The number, or the nearer of 0 and 1 where it does not lie between them.
    pub fn clamp_to_unit(self) -> (r: Score)
        ensures
            r == self.clamped(),
            !self.is_nan() ==> !r.is_nan() && 0 <= r.key() <= ONE,
    {
        let zero = Score { bits: 0 };
        let one = Score { bits: ONE };
        if self.is_less(zero) {
            zero
        } else if one.is_less(self) {
            one
        } else {
            self
        }
    }
}

/// Clamping a second time changes nothing.
pub proof fn clamping_is_idempotent(score: Score)
    ensures
        score.clamped().clamped() == score.clamped(),
{
}

/// The settings of the application.
#[derive(Debug)]
pub struct AppSettings {
    pub api_base: String,
    pub api_key: String,
    pub vision_model: String,
    pub fast_answer_model: String,
    pub answer_model: String,
    pub embedding_model: String,
    pub output_dir: String,
    pub shortcut: String,
    pub text_shortcut: String,
    pub active_course_id: Option<String>,
}

/// The view of the settings, and of the input from which they are made.
pub struct SettingsView {
    pub api_base: Seq<char>,
    pub api_key: Seq<char>,
    pub vision_model: Seq<char>,
    pub fast_answer_model: Seq<char>,
    pub answer_model: Seq<char>,
    pub embedding_model: Seq<char>,
    pub output_dir: Seq<char>,
    pub shortcut: Seq<char>,
    pub text_shortcut: Seq<char>,
    pub active_course_id: Option<Seq<char>>,
}

impl View for AppSettings {
    type V = SettingsView;

    open spec fn view(&self) -> SettingsView {
        SettingsView {
            api_base: self.api_base@,
            api_key: self.api_key@,
            vision_model: self.vision_model@,
            fast_answer_model: self.fast_answer_model@,
            answer_model: self.answer_model@,
            embedding_model: self.embedding_model@,
            output_dir: self.output_dir@,
            shortcut: self.shortcut@,
            text_shortcut: self.text_shortcut@,
            active_course_id: text::view_opt(self.active_course_id),
        }
    }
}

/// The model that gives quick answers where no other was chosen.
pub fn default_fast_answer_model() -> (r: String)
    ensures
        r@ == "Qwen/Qwen3-32B"@,
{
    "Qwen/Qwen3-32B".to_owned()
}

/// The shortcut for solving copied text where no other was chosen.
pub fn default_text_shortcut() -> (r: String)
    ensures
        r@ == "CommandOrControl+Shift+2"@,
{
    "CommandOrControl+Shift+2".to_owned()
}

/// The settings where nothing was chosen.
pub open spec fn default_settings() -> SettingsView {
    SettingsView {
        api_base: "https://api.siliconflow.cn/v1"@,
        api_key: Seq::empty(),
        vision_model: "THUDM/GLM-4.1V-9B-Thinking"@,
        fast_answer_model: "Qwen/Qwen3-32B"@,
        answer_model: "Pro/zai-org/GLM-5.1"@,
        embedding_model: "BAAI/bge-m3"@,
        output_dir: Seq::empty(),
        shortcut: "CommandOrControl+Shift+1"@,
        text_shortcut: "CommandOrControl+Shift+2"@,
        active_course_id: None,
    }
}

impl AppSettings {
    /// The settings where nothing was chosen.
    pub fn defaults() -> (r: Self)
        ensures
            r@ == default_settings(),
    {
        AppSettings {
            api_base: "https://api.siliconflow.cn/v1".to_owned(),
            api_key: String::new(),
            vision_model: "THUDM/GLM-4.1V-9B-Thinking".to_owned(),
            fast_answer_model: default_fast_answer_model(),
            answer_model: "Pro/zai-org/GLM-5.1".to_owned(),
            embedding_model: "BAAI/bge-m3".to_owned(),
            output_dir: String::new(),
            shortcut: "CommandOrControl+Shift+1".to_owned(),
            text_shortcut: default_text_shortcut(),
            active_course_id: None,
        }
    }
}

/// A copy of an optional text.
pub(crate) fn clone_text(o: &Option<String>) -> (r: Option<String>)
    ensures
        text::view_opt(r) == text::view_opt(*o),
{
    match o {
        Some(s) => Some(s.clone()),
        None => None,
    }
}

impl Clone for AppSettings {
    fn clone(&self) -> (r: Self)
        ensures
            r@ == self@,
    {
        AppSettings {
            api_base: self.api_base.clone(),
            api_key: self.api_key.clone(),
            vision_model: self.vision_model.clone(),
            fast_answer_model: self.fast_answer_model.clone(),
            answer_model: self.answer_model.clone(),
            embedding_model: self.embedding_model.clone(),
            output_dir: self.output_dir.clone(),
            shortcut: self.shortcut.clone(),
            text_shortcut: self.text_shortcut.clone(),
            active_course_id: clone_text(&self.active_course_id),
        }
    }
}

/// The settings as they were entered.
#[derive(Debug, Clone)]
pub struct SaveSettingsInput {
    pub api_base: String,
    pub api_key: String,
    pub vision_model: String,
    pub fast_answer_model: String,
    pub answer_model: String,
    pub embedding_model: String,
    pub output_dir: String,
    pub shortcut: String,
    pub text_shortcut: String,
    pub active_course_id: Option<String>,
}

impl View for SaveSettingsInput {
    type V = SettingsView;

    open spec fn view(&self) -> SettingsView {
        SettingsView {
            api_base: self.api_base@,
            api_key: self.api_key@,
            vision_model: self.vision_model@,
            fast_answer_model: self.fast_answer_model@,
            answer_model: self.answer_model@,
            embedding_model: self.embedding_model@,
            output_dir: self.output_dir@,
            shortcut: self.shortcut@,
            text_shortcut: self.text_shortcut@,
            active_course_id: text::view_opt(self.active_course_id),
        }
    }
}

/// A course.
#[derive(Debug, Clone)]
pub struct Course {
    pub id: String,
    pub name: String,
    pub document_count: i64,
    pub chunk_count: i64,
    pub updated_at: String,
    pub is_active: bool,
}

/// The view of a course.
pub struct CourseView {
    pub id: Seq<char>,
    pub name: Seq<char>,
    pub document_count: i64,
    pub chunk_count: i64,
    pub updated_at: Seq<char>,
    pub is_active: bool,
}

impl View for Course {
    type V = CourseView;

    open spec fn view(&self) -> CourseView {
        CourseView {
            id: self.id@,
            name: self.name@,
            document_count: self.document_count,
            chunk_count: self.chunk_count,
            updated_at: self.updated_at@,
            is_active: self.is_active,
        }
    }
}

/// A document that was imported into a course.
#[derive(Debug, Clone)]
pub struct SourceDocument {
    pub id: String,
    pub course_id: String,
    pub file_name: String,
    pub path: String,
    pub kind: String,
    pub imported_at: String,
}

/// The view of an imported document.
pub struct SourceDocumentView {
    pub id: Seq<char>,
    pub course_id: Seq<char>,
    pub file_name: Seq<char>,
    pub path: Seq<char>,
    pub kind: Seq<char>,
    pub imported_at: Seq<char>,
}

impl View for SourceDocument {
    type V = SourceDocumentView;

    open spec fn view(&self) -> SourceDocumentView {
        SourceDocumentView {
            id: self.id@,
            course_id: self.course_id@,
            file_name: self.file_name@,
            path: self.path@,
            kind: self.kind@,
            imported_at: self.imported_at@,
        }
    }
}

/// A piece of a document, with its similarity to what was asked for.
#[derive(Debug, Clone)]
pub struct KnowledgeChunk {
    pub id: String,
    pub course_id: String,
    pub document_id: String,
    pub ordinal: i64,
    pub content: String,
    pub source_file: String,
    pub similarity: Option<Score>,
}

/// The view of a piece of a document.
pub struct KnowledgeChunkView {
    pub id: Seq<char>,
    pub course_id: Seq<char>,
    pub document_id: Seq<char>,
    pub ordinal: i64,
    pub content: Seq<char>,
    pub source_file: Seq<char>,
    pub similarity: Option<Score>,
}

impl View for KnowledgeChunk {
    type V = KnowledgeChunkView;

    open spec fn view(&self) -> KnowledgeChunkView {
        KnowledgeChunkView {
            id: self.id@,
            course_id: self.course_id@,
            document_id: self.document_id@,
            ordinal: self.ordinal,
            content: self.content@,
            source_file: self.source_file@,
            similarity: self.similarity,
        }
    }
}

/// The wish to have the questions on a screenshot solved.
#[derive(Debug, Clone)]
pub struct SolveRequest {
    pub course_id: String,
    pub screenshot_path: String,
}

/// The view of such a wish.
pub struct SolveRequestView {
    pub course_id: Seq<char>,
    pub screenshot_path: Seq<char>,
}

impl View for SolveRequest {
    type V = SolveRequestView;

    open spec fn view(&self) -> SolveRequestView {
        SolveRequestView {
            course_id: self.course_id@,
            screenshot_path: self.screenshot_path@,
        }
    }
}

/// A source of an answer.
#[derive(Debug)]
pub struct SolveSource {
    pub title: String,
    pub excerpt: String,
}

/// The view of a source.
pub struct SolveSourceView {
    pub title: Seq<char>,
    pub excerpt: Seq<char>,
}

impl View for SolveSource {
    type V = SolveSourceView;

    open spec fn view(&self) -> SolveSourceView {
        SolveSourceView {
            title: self.title@,
            excerpt: self.excerpt@,
        }
    }
}

impl Clone for SolveSource {
    fn clone(&self) -> (r: Self)
        ensures
            r@ == self@,
    {
        SolveSource {
            title: self.title.clone(),
            excerpt: self.excerpt.clone(),
        }
    }
}

/// A copy of some sources.
pub fn clone_sources(sources: &Vec<SolveSource>) -> (r: Vec<SolveSource>)
    ensures
        text::views(r@) == text::views(sources@),
{
    let mut r: Vec<SolveSource> = Vec::new();
    let mut i: usize = 0;
    while i < sources.len()
        invariant
            i <= sources@.len(),
            r@.len() == i,
            forall|j: int| 0 <= j < i ==> r@[j]@ == sources@[j]@,
        decreases sources@.len() - i,
    {
        r.push(sources[i].clone());
        i += 1;
    }
    assert(text::views(r@) =~= text::views(sources@));
    r
}

/// A question with its answer.
#[derive(Debug)]
pub struct SolvedQuestion {
    pub ordinal: usize,
    pub question: String,
    pub question_zh: String,
    pub answer: String,
    pub answer_brief: String,
    pub explanation: String,
    pub sources: Vec<SolveSource>,
    pub confidence: Score,
    pub low_confidence: bool,
}

/// The view of a solved question.
pub struct SolvedQuestionView {
    pub ordinal: usize,
    pub question: Seq<char>,
    pub question_zh: Seq<char>,
    pub answer: Seq<char>,
    pub answer_brief: Seq<char>,
    pub explanation: Seq<char>,
    pub sources: Seq<SolveSourceView>,
    pub confidence: Score,
    pub low_confidence: bool,
}

impl View for SolvedQuestion {
    type V = SolvedQuestionView;

    open spec fn view(&self) -> SolvedQuestionView {
        SolvedQuestionView {
            ordinal: self.ordinal,
            question: self.question@,
            question_zh: self.question_zh@,
            answer: self.answer@,
            answer_brief: self.answer_brief@,
            explanation: self.explanation@,
            sources: text::views(self.sources@),
            confidence: self.confidence,
            low_confidence: self.low_confidence,
        }
    }
}

impl Clone for SolvedQuestion {
    fn clone(&self) -> (r: Self)
        ensures
            r@ == self@,
    {
        SolvedQuestion {
            ordinal: self.ordinal,
            question: self.question.clone(),
            question_zh: self.question_zh.clone(),
            answer: self.answer.clone(),
            answer_brief: self.answer_brief.clone(),
            explanation: self.explanation.clone(),
            sources: clone_sources(&self.sources),
            confidence: self.confidence,
            low_confidence: self.low_confidence,
        }
    }
}

/// The solved questions of one text.
#[derive(Debug, Clone)]
pub struct SolveResult {
    pub id: String,
    pub course_id: String,
    pub item_count: usize,
    pub items: Vec<SolvedQuestion>,
    pub answer_preview: String,
    pub confidence: Score,
    pub low_confidence: bool,
    pub suggested_file_stem: String,
    pub output_path: String,
    pub created_at: String,
}

/// The view of a result.
pub struct SolveResultView {
    pub id: Seq<char>,
    pub course_id: Seq<char>,
    pub item_count: usize,
    pub items: Seq<SolvedQuestionView>,
    pub answer_preview: Seq<char>,
    pub confidence: Score,
    pub low_confidence: bool,
    pub suggested_file_stem: Seq<char>,
    pub output_path: Seq<char>,
    pub created_at: Seq<char>,
}

impl View for SolveResult {
    type V = SolveResultView;

    open spec fn view(&self) -> SolveResultView {
        SolveResultView {
            id: self.id@,
            course_id: self.course_id@,
            item_count: self.item_count,
            items: text::views(self.items@),
            answer_preview: self.answer_preview@,
            confidence: self.confidence,
            low_confidence: self.low_confidence,
            suggested_file_stem: self.suggested_file_stem@,
            output_path: self.output_path@,
            created_at: self.created_at@,
        }
    }
}

/// A document that was written.
#[derive(Debug, Clone)]
pub struct DocxExportJob {
    pub output_path: String,
    pub written_questions: usize,
    pub created_at: String,
}

/// The view of a written document.
pub struct DocxExportJobView {
    pub output_path: Seq<char>,
    pub written_questions: usize,
    pub created_at: Seq<char>,
}

impl View for DocxExportJob {
    type V = DocxExportJobView;

    open spec fn view(&self) -> DocxExportJobView {
        DocxExportJobView {
            output_path: self.output_path@,
            written_questions: self.written_questions,
            created_at: self.created_at@,
        }
    }
}

/// What the dashboard shows.
#[derive(Debug, Clone)]
pub struct DashboardData {
    pub settings: AppSettings,
    pub courses: Vec<Course>,
    pub recent_results: Vec<SolveResult>,
    pub status: String,
}

/// The wish to have documents imported into a course.
#[derive(Debug, Clone)]
pub struct ImportRequest {
    pub course_name: String,
    pub paths: Vec<String>,
}

/// What an import came to.
#[derive(Debug, Clone)]
pub struct ImportResponse {
    pub course_id: String,
    pub imported_documents: usize,
    pub imported_chunks: usize,
}

/// The view of what an import came to.
pub struct ImportResponseView {
    pub course_id: Seq<char>,
    pub imported_documents: usize,
    pub imported_chunks: usize,
}

impl View for ImportResponse {
    type V = ImportResponseView;

    open spec fn view(&self) -> ImportResponseView {
        ImportResponseView {
            course_id: self.course_id@,
            imported_documents: self.imported_documents,
            imported_chunks: self.imported_chunks,
        }
    }
}

/// How far a task has come. The time of the event is added where it is sent.
#[derive(Debug, Clone)]
pub struct StatusEvent {
    pub task_id: String,
    pub status: String,
    pub detail: String,
    pub current_step: u8,
    pub total_steps: u8,
    pub answer_preview: String,
    pub takeover_progress: bool,
    pub is_terminal: bool,
    pub is_error: bool,
}

/// The view of an event.
pub struct StatusEventView {
    pub task_id: Seq<char>,
    pub status: Seq<char>,
    pub detail: Seq<char>,
    pub current_step: u8,
    pub total_steps: u8,
    pub answer_preview: Seq<char>,
    pub takeover_progress: bool,
    pub is_terminal: bool,
    pub is_error: bool,
}

impl View for StatusEvent {
    type V = StatusEventView;

    open spec fn view(&self) -> StatusEventView {
        StatusEventView {
            task_id: self.task_id@,
            status: self.status@,
            detail: self.detail@,
            current_step: self.current_step,
            total_steps: self.total_steps,
            answer_preview: self.answer_preview@,
            takeover_progress: self.takeover_progress,
            is_terminal: self.is_terminal,
            is_error: self.is_error,
        }
    }
}

/// A question as a model solved it.
#[derive(Debug, Clone)]
pub struct AiSolvedQuestion {
    pub question: String,
    pub question_zh: String,
    pub answer: String,
    pub answer_brief: String,
    pub explanation: String,
    pub confidence: Score,
    pub low_confidence: bool,
    pub sources: Vec<SolveSource>,
}

/// The view of a question as a model solved it.
pub struct AiSolvedQuestionView {
    pub question: Seq<char>,
    pub question_zh: Seq<char>,
    pub answer: Seq<char>,
    pub answer_brief: Seq<char>,
    pub explanation: Seq<char>,
    pub confidence: Score,
    pub low_confidence: bool,
    pub sources: Seq<SolveSourceView>,
}

impl View for AiSolvedQuestion {
    type V = AiSolvedQuestionView;

    open spec fn view(&self) -> AiSolvedQuestionView {
        AiSolvedQuestionView {
            question: self.question@,
            question_zh: self.question_zh@,
            answer: self.answer@,
            answer_brief: self.answer_brief@,
            explanation: self.explanation@,
            confidence: self.confidence,
            low_confidence: self.low_confidence,
            sources: text::views(self.sources@),
        }
    }
}

/// The questions that a model solved.
#[derive(Debug, Clone)]
pub struct AiSolvePayload {
    pub questions: Vec<AiSolvedQuestion>,
}

/// Numbers are compared by their bits: of two without a sign the one with the greater bits is
/// the greater, of two with a sign the one with the smaller bits; one with a sign is less
/// than one without, but for the two zeros, which are equal.
pub proof fn numbers_are_compared_by_their_bits(x: Score, y: Score)
    requires
        x.bits <= 0x7f80_0000 || 0x8000_0000 <= x.bits <= 0xff80_0000,
        y.bits <= 0x7f80_0000 || 0x8000_0000 <= y.bits <= 0xff80_0000,
    ensures
        !x.is_nan() && !y.is_nan(),
        x.bits < 0x8000_0000 && y.bits < 0x8000_0000 ==> (x.less(y) <==> x.bits < y.bits),
        x.bits >= 0x8000_0000 && y.bits >= 0x8000_0000 ==> (x.less(y) <==> x.bits > y.bits),
        x.bits >= 0x8000_0000 && y.bits < 0x8000_0000 ==> (x.less(y) <==> !(x.bits == 0x8000_0000
            && y.bits == 0)),
        x.bits < 0x8000_0000 && y.bits >= 0x8000_0000 ==> !x.less(y),
        x.key() < y.key() <==> x.less(y),
{
}

/// What is not a number is neither less nor greater than anything.
pub proof fn what_is_no_number_is_not_compared(x: Score, y: Score)
    requires
        0x7f80_0000 < x.bits < 0x8000_0000 || x.bits > 0xff80_0000,
    ensures
        x.is_nan(),
        !x.less(y) && !y.less(x),
        x.clamped() == x,
{
}

/// A number above 1 is taken for 1, and one below 0 for 0; those between stay as they are.
pub proof fn numbers_are_clamped_to_the_unit(x: Score)
    ensures
        0x3f80_0000 < x.bits <= 0x7f80_0000 ==> x.clamped().bits == 0x3f80_0000,
        0x8000_0000 < x.bits <= 0xff80_0000 ==> x.clamped().bits == 0,
        x.bits <= 0x3f80_0000 || x.bits == 0x8000_0000 ==> x.clamped() == x,
{
}

/// What is shown of the data is what they hold, each field under its own name.
pub proof fn views_show_the_fields(
    piece: KnowledgeChunk,
    source: SolveSource,
    item: SolvedQuestion,
    given: AiSolvedQuestion,
    request: SolveRequest,
)
    ensures
        piece@.id == piece.id@ && piece@.course_id == piece.course_id@ && piece@.document_id
            == piece.document_id@ && piece@.ordinal == piece.ordinal && piece@.content
            == piece.content@ && piece@.source_file == piece.source_file@ && piece@.similarity
            == piece.similarity,
        source@.title == source.title@ && source@.excerpt == source.excerpt@,
        item@.ordinal == item.ordinal && item@.question == item.question@ && item@.question_zh
            == item.question_zh@ && item@.answer == item.answer@ && item@.answer_brief
            == item.answer_brief@ && item@.explanation == item.explanation@ && item@.confidence
            == item.confidence && item@.low_confidence == item.low_confidence,
        item@.sources.len() == item.sources@.len(),
        forall|i: int|
            0 <= i < item.sources@.len() ==> (#[trigger] item.sources@[i])@ == item@.sources[i],
        given@.question == given.question@ && given@.question_zh == given.question_zh@
            && given@.answer == given.answer@ && given@.answer_brief == given.answer_brief@
            && given@.explanation == given.explanation@ && given@.confidence == given.confidence
            && given@.low_confidence == given.low_confidence,
        given@.sources.len() == given.sources@.len(),
        forall|i: int|
            0 <= i < given.sources@.len() ==> (#[trigger] given.sources@[i])@ == given@.sources[i],
        request@.course_id == request.course_id@ && request@.screenshot_path
            == request.screenshot_path@,
{
}

/// What is shown of settings, entered or stored, is what they hold, each field under its own
/// name.
pub proof fn views_show_the_settings(stored: AppSettings, entered: SaveSettingsInput)
    ensures
        stored@.api_base == stored.api_base@ && stored@.api_key == stored.api_key@
            && stored@.vision_model == stored.vision_model@ && stored@.fast_answer_model
            == stored.fast_answer_model@ && stored@.answer_model == stored.answer_model@
            && stored@.embedding_model == stored.embedding_model@ && stored@.output_dir
            == stored.output_dir@ && stored@.shortcut == stored.shortcut@
            && stored@.text_shortcut == stored.text_shortcut@,
        entered@.api_base == entered.api_base@ && entered@.api_key == entered.api_key@
            && entered@.vision_model == entered.vision_model@ && entered@.fast_answer_model
            == entered.fast_answer_model@ && entered@.answer_model == entered.answer_model@
            && entered@.embedding_model == entered.embedding_model@ && entered@.output_dir
            == entered.output_dir@ && entered@.shortcut == entered.shortcut@
            && entered@.text_shortcut == entered.text_shortcut@,
        stored@.active_course_id is Some <==> stored.active_course_id is Some,
        stored.active_course_id matches Some(id) ==> stored@.active_course_id == Some(id@),
        entered@.active_course_id is Some <==> entered.active_course_id is Some,
        entered.active_course_id matches Some(id) ==> entered@.active_course_id == Some(id@),
{
}

/// What is shown of a result, a course, a document and an event is what they hold, each
/// field under its own name.
pub proof fn views_show_what_is_stored(
    result: SolveResult,
    course: Course,
    document: SourceDocument,
    event: StatusEvent,
)
    ensures
        result@.id == result.id@ && result@.course_id == result.course_id@ && result@.item_count
            == result.item_count && result@.answer_preview == result.answer_preview@
            && result@.confidence == result.confidence && result@.low_confidence
            == result.low_confidence && result@.suggested_file_stem == result.suggested_file_stem@
            && result@.output_path == result.output_path@ && result@.created_at
            == result.created_at@,
        result@.items.len() == result.items@.len(),
        forall|i: int|
            0 <= i < result.items@.len() ==> (#[trigger] result.items@[i])@ == result@.items[i],
        course@.id == course.id@ && course@.name == course.name@ && course@.document_count
            == course.document_count && course@.chunk_count == course.chunk_count
            && course@.updated_at == course.updated_at@ && course@.is_active == course.is_active,
        document@.id == document.id@ && document@.course_id == document.course_id@
            && document@.file_name == document.file_name@ && document@.path == document.path@
            && document@.kind == document.kind@ && document@.imported_at == document.imported_at@,
        event@.task_id == event.task_id@ && event@.status == event.status@ && event@.detail
            == event.detail@ && event@.current_step == event.current_step && event@.total_steps
            == event.total_steps && event@.answer_preview == event.answer_preview@
            && event@.takeover_progress == event.takeover_progress && event@.is_terminal
            == event.is_terminal && event@.is_error == event.is_error,
{
}

} // verus!
