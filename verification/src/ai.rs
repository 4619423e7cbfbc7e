//! Talking to the models: what is asked, and what is made of the replies.

use vstd::prelude::*;
use vstd::utf8::*;
use crate::error::StudyError;
use crate::models::{
    AiSolvePayload, AiSolvedQuestion, AiSolvedQuestionView, AppSettings, Score, SettingsView,
    SolveSource, SolveSourceView,
};
use crate::text;

verus! {

/// A quick answer to one question.
#[derive(Debug, Clone)]
pub struct QuickAnswer {
    pub question: String,
    pub answer_brief: String,
}

/// The view of a quick answer.
pub struct QuickAnswerView {
    pub question: Seq<char>,
    pub answer_brief: Seq<char>,
}

impl View for QuickAnswer {
    type V = QuickAnswerView;

    open spec fn view(&self) -> QuickAnswerView {
        QuickAnswerView { question: self.question@, answer_brief: self.answer_brief@ }
    }
}

/// What the user says in a request.
#[derive(Debug, Clone)]
pub enum UserContent {
    /// A text.
    Text(String),
    /// A text and an image, by its URL.
    Image { text: String, url: String },
}

/// The view of what the user says.
pub enum UserContentView {
    Text(Seq<char>),
    Image { text: Seq<char>, url: Seq<char> },
}

impl View for UserContent {
    type V = UserContentView;

    open spec fn view(&self) -> UserContentView {
        match *self {
            UserContent::Text(s) => UserContentView::Text(s@),
            UserContent::Image { text, url } => UserContentView::Image { text: text@, url: url@ },
        }
    }
}

/// A request to a model for a chat reply.
#[derive(Debug, Clone)]
pub struct ChatRequest {
    pub model: String,
    /// The temperature, in tenths.
    pub temperature_tenths: u8,
    pub max_tokens: Option<u32>,
    pub enable_thinking: Option<bool>,
    /// The reply is to be a JSON object.
    pub json_object: bool,
    pub system: String,
    pub user: UserContent,
}

/// The view of a request.
pub struct ChatRequestView {
    pub model: Seq<char>,
    pub temperature_tenths: u8,
    pub max_tokens: Option<u32>,
    pub enable_thinking: Option<bool>,
    pub json_object: bool,
    pub system: Seq<char>,
    pub user: UserContentView,
}

impl View for ChatRequest {
    type V = ChatRequestView;

    open spec fn view(&self) -> ChatRequestView {
        ChatRequestView {
            model: self.model@,
            temperature_tenths: self.temperature_tenths,
            max_tokens: self.max_tokens,
            enable_thinking: self.enable_thinking,
            json_object: self.json_object,
            system: self.system@,
            user: self.user@,
        }
    }
}

/// A request for the embedding of a text.
#[derive(Debug, Clone)]
pub struct EmbedRequest {
    pub model: String,
    pub input: String,
}

/// What a model is told that reads the questions in an image.
pub const READ_IMAGE: &'static str = "You are an OCR and study helper. Extract all visible problem statements from the image in top-to-bottom order. Preserve numbering, answer choices, formulas, and line breaks as much as possible. Do not solve the problems.";

/// What is asked of a model that reads the questions in an image.
pub const RETURN_TEXT: &'static str = "Return the question text exactly and cleanly, including multiple questions if present.";

/// What a model is told that gives quick answers.
pub const ANSWER_QUICKLY: &'static str = "You are a fast answer extractor. Return JSON with top-level key questions. Each item must contain: question, answer_brief. Keep the same order as the input questions. answer_brief must be extremely short for compact display, for example 'A', 'BC', '42', 'True', or a 1-5 word short answer.";

/// What a model is told that solves questions.
pub const ANSWER_FULLY: &'static str = "You are a course study assistant. Return JSON with top-level key questions. Each item must contain: question, question_zh, answer, answer_brief, explanation, confidence, low_confidence, sources. Keep the same order as the input questions. question must preserve the original language. question_zh must be a natural Simplified Chinese translation. answer_brief must be extremely short for compact display. Always prefer the supplied course material. If evidence is weak, set low_confidence=true and say the answer needs human review. sources must be an array of objects with keys title and excerpt. Never invent page numbers or section names.";

/// The questions, each with its place counted from 1.
pub open spec fn numbered(questions: Seq<Seq<char>>) -> Seq<Seq<char>> {
    Seq::new(questions.len(), |i: int| text::decimal((i + 1) as nat) + ". "@ + questions[i])
}

/// The questions as a model is asked them.
pub open spec fn rendered(questions: Seq<Seq<char>>) -> Seq<char> {
    text::join(numbered(questions), "\n\n"@)
}

/// The questions as a model is asked them: numbered from 1, with a blank line
/// between each two.
pub fn render_questions(questions: &Vec<String>) -> (r: String)
    ensures
        r@ == rendered(text::views(questions@)),
{
    let n: usize = questions.len();
    let ghost all = numbered(text::views(questions@));
    let mut lines: Vec<String> = Vec::new();
    let mut i: usize = 0;
    while i < n
        invariant
            i <= n,
            n == questions@.len(),
            all == numbered(text::views(questions@)),
            text::views(lines@) == all.take(i as int),
        decreases n - i,
    {
        let mut line = text::decimal_text((i + 1) as u64);
        line.append(". ");
        line.append(questions[i].as_str());
        let ghost before = lines@;
        lines.push(line);
        proof {
            assert(line@ == all[i as int]);
            assert(text::views(lines@) =~= text::views(before).push(line@));
            assert(all.take(i + 1) =~= all.take(i as int).push(all[i as int]));
        }
        i += 1;
    }
    assert(all.take(i as int) =~= all);
    text::join_strings(&lines, "\n\n")
}

/// What the user says when questions are asked.
pub open spec fn asked(rendered_questions: Seq<char>, context: Seq<char>) -> Seq<char> {
    "Questions:\n"@ + rendered_questions + "\n\nCourse context:\n"@ + context
}

/// What the user says when questions are asked.
fn ask(rendered_questions: &str, context: &str) -> (r: String)
    ensures
        r@ == asked(rendered_questions@, context@),
{
    let mut r = "Questions:\n".to_owned();
    r.append(rendered_questions);
    r.append("\n\nCourse context:\n");
    r.append(context);
    r
}

/// The request for quick answers.
pub open spec fn quick_request(
    model: Seq<char>,
    rendered_questions: Seq<char>,
    context: Seq<char>,
) -> ChatRequestView {
    ChatRequestView {
        model,
        temperature_tenths: 1,
        max_tokens: Some(256),
        enable_thinking: Some(false),
        json_object: true,
        system: ANSWER_QUICKLY@,
        user: UserContentView::Text(asked(rendered_questions, context)),
    }
}

/// The request for quick answers.
pub fn quick_answer_body(model: &str, rendered_questions: &str, context: &str) -> (r: ChatRequest)
    ensures
        r@ == quick_request(model@, rendered_questions@, context@),
{
    ChatRequest {
        model: model.to_owned(),
        temperature_tenths: 1,
        max_tokens: Some(256),
        enable_thinking: Some(false),
        json_object: true,
        system: ANSWER_QUICKLY.to_owned(),
        user: UserContent::Text(ask(rendered_questions, context)),
    }
}

/// The request for full answers.
pub open spec fn full_request(
    model: Seq<char>,
    rendered_questions: Seq<char>,
    context: Seq<char>,
) -> ChatRequestView {
    ChatRequestView {
        model,
        temperature_tenths: 2,
        max_tokens: Some(2048),
        enable_thinking: None,
        json_object: true,
        system: ANSWER_FULLY@,
        user: UserContentView::Text(asked(rendered_questions, context)),
    }
}

/// The digit of base 64 with the value `n`, from 0 to 63.
pub open spec fn base64_digit(n: int) -> char {
    if n < 26 {
        (65 + n) as char
    } else if n < 52 {
        (97 + n - 26) as char
    } else if n < 62 {
        (48 + n - 52) as char
    } else if n == 62 {
        '+'
    } else {
        '/'
    }
}

/// The byte at `i`; 0 behind the end.
pub open spec fn byte_at(bytes: Seq<u8>, i: int) -> int {
    if i < bytes.len() {
        bytes[i] as int
    } else {
        0
    }
}

/// The `i`-th character of the base 64 form of some bytes: each group of three bytes
/// gives four digits of six bits each; `=` stands for digits of which no bit comes
/// from a byte.
pub open spec fn base64_char(bytes: Seq<u8>, i: int) -> char {
    let at = i / 4 * 3;
    let a = byte_at(bytes, at);
    let b = byte_at(bytes, at + 1);
    let c = byte_at(bytes, at + 2);
    if i % 4 == 0 {
        base64_digit(a / 4)
    } else if i % 4 == 1 {
        base64_digit(a % 4 * 16 + b / 16)
    } else if i % 4 == 2 {
        if at + 1 < bytes.len() {
            base64_digit(b % 16 * 4 + c / 64)
        } else {
            '='
        }
    } else {
        if at + 2 < bytes.len() {
            base64_digit(c % 64)
        } else {
            '='
        }
    }
}

/// The base 64 form of some bytes, with the standard digits and with padding.
pub open spec fn base64_of(bytes: Seq<u8>) -> Seq<char> {
    Seq::new(((bytes.len() + 2) / 3 * 4) as nat, |i: int| base64_char(bytes, i))
}

/// `Engine::encode` of the engine `STANDARD` of the `base64` crate: the base 64 form
/// of the bytes of RFC 4648, with padding. The length is bounded so that the length
/// of the result fits in memory.
#[verifier::external_body]
fn encode_base64(bytes: &[u8]) -> (r: String)
    requires
        bytes@.len() <= usize::MAX / 4,
    ensures
        r@ == base64_of(bytes@),
{
    base64::Engine::encode(&base64::engine::general_purpose::STANDARD, bytes)
}

/// The URL that holds an image.
pub open spec fn image_url(bytes: Seq<u8>) -> Seq<char> {
    "data:image/png;base64,"@ + base64_of(bytes)
}

/// The text that a program gave out, byte for byte, with signs in place of what is
/// not UTF-8.
pub uninterp spec fn lossy_text(bytes: Seq<u8>) -> Seq<char>;

/// `String::from_utf8_lossy`: bytes that are UTF-8 give their text; in others what is
/// not UTF-8 is replaced.
#[verifier::external_body]
pub(crate) fn text_of_output(bytes: &[u8]) -> (r: String)
    ensures
        r@ == lossy_text(bytes@),
        valid_utf8(bytes@) ==> r@ == decode_utf8(bytes@),
{
    String::from_utf8_lossy(bytes).into_owned()
}

/// A client of the models.
#[derive(Debug)]
pub struct AiClient {
    pub settings: AppSettings,
}

impl AiClient {
    /// A client with the given settings.
    pub fn new(settings: AppSettings) -> (r: Self)
        ensures
            r.settings@ == settings@,
    {
        AiClient { settings }
    }

    /// The request for the embedding of a text.
    pub fn embed(&self, input: &str) -> (r: EmbedRequest)
        ensures
            r.model@ == self.settings.embedding_model@,
            r.input@ == input@,
    {
        EmbedRequest { model: self.settings.embedding_model.clone(), input: input.to_owned() }
    }

    /// The request for the text of the questions in an image.
    pub fn extract_question_from_image(&self, bytes: &[u8]) -> (r: ChatRequest)
        requires
            bytes@.len() <= usize::MAX / 4,
        ensures
            r@ == (ChatRequestView {
                model: self.settings.vision_model@,
                temperature_tenths: 1,
                max_tokens: None,
                enable_thinking: None,
                json_object: false,
                system: READ_IMAGE@,
                user: UserContentView::Image { text: RETURN_TEXT@, url: image_url(bytes@) },
            }),
    {
        let mut url = "data:image/png;base64,".to_owned();
        let data = encode_base64(bytes);
        url.append(data.as_str());
        ChatRequest {
            model: self.settings.vision_model.clone(),
            temperature_tenths: 1,
            max_tokens: None,
            enable_thinking: None,
            json_object: false,
            system: READ_IMAGE.to_owned(),
            user: UserContent::Image { text: RETURN_TEXT.to_owned(), url },
        }
    }
}

/// The text that a model read in an image; none where it is blank, so that the image
/// is to be read on this machine.
pub fn recognised_text(reply: &str) -> (r: Option<String>)
    ensures
        text::view_opt(r) == (if text::is_blank(reply@) {
            None
        } else {
            Some(text::trim(reply@))
        }),
{
    proof {
        text::lemma_blank(reply@);
    }
    let cleaned = text::trimmed(reply);
    if cleaned.as_str().is_empty() {
        None
    } else {
        Some(cleaned)
    }
}

/// The text that was read in an image on this machine.
pub open spec fn ocr_text(success: bool, output: Seq<char>) -> Result<Seq<char>, StudyError> {
    if success {
        Ok(text::trim(output))
    } else {
        Err(StudyError::OcrFailed)
    }
}

/// The text that was read in an image on this machine, given the text that the
/// program gave out.
pub fn ocr_text_from(success: bool, output: &str) -> (r: Result<String, StudyError>)
    ensures
        r matches Ok(s) ==> ocr_text(success, output@) == Ok::<Seq<char>, StudyError>(s@),
        r matches Err(e) ==> ocr_text(success, output@) == Err::<Seq<char>, StudyError>(e),
{
    if !success {
        return Err(StudyError::OcrFailed);
    }
    Ok(text::trimmed(output))
}

/// The text that was read in an image on this machine, given what the program gave
/// out.
pub fn local_ocr_fallback(success: bool, stdout: &[u8]) -> (r: Result<String, StudyError>)
    ensures
        r matches Ok(s) ==> ocr_text(success, lossy_text(stdout@)) == Ok::<Seq<char>, StudyError>(
            s@,
        ),
        r matches Err(e) ==> ocr_text(success, lossy_text(stdout@)) == Err::<
            Seq<char>,
            StudyError,
        >(e),
{
    let output = text_of_output(stdout);
    ocr_text_from(success, output.as_str())
}

/// Where in the order of requests one for quick answers stands.
#[derive(Debug, Clone, Copy, PartialEq, Eq, Structural)]
pub enum QuickStage {
    /// The first request, to the fast model.
    First,
    /// After a first request that failed: one to the model for full answers.
    Fallback,
    /// After a reply that could not be read: another one to the fast model.
    Retry,
}

/// What came of a request.
#[derive(Debug, Clone, Copy, PartialEq, Eq, Structural)]
pub enum Reply {
    /// There was no reply.
    Failed,
    /// The reply does not hold what was asked for.
    Unreadable,
    /// The reply holds what was asked for.
    Read,
}

/// What to do after a request for quick answers.
#[derive(Debug, Clone, Copy, PartialEq, Eq, Structural)]
pub enum QuickNext {
    /// Ask again.
    Ask(QuickStage),
    /// End with the error.
    GiveUp,
    /// End with the answers.
    Finish,
}

/// What to do after a request for quick answers: a first request that failed is
/// made to the other model, where that is another one; a reply that cannot be read
/// is asked for once more.
pub open spec fn quick_next(stage: QuickStage, reply: Reply, models_differ: bool) -> QuickNext {
    match reply {
        Reply::Read => QuickNext::Finish,
        Reply::Failed => if stage == QuickStage::First && models_differ {
            QuickNext::Ask(QuickStage::Fallback)
        } else {
            QuickNext::GiveUp
        },
        Reply::Unreadable => if stage == QuickStage::Retry {
            QuickNext::GiveUp
        } else {
            QuickNext::Ask(QuickStage::Retry)
        },
    }
}

/// The search for quick answers to some questions.
#[derive(Debug, Clone)]
pub struct QuickSolve {
    pub fast_model: String,
    pub answer_model: String,
    pub rendered_questions: String,
    pub context: String,
}

impl QuickSolve {
    /// The two models are not the same.
    pub open spec fn models_differ(self) -> bool {
        self.fast_model@ != self.answer_model@
    }

    /// The model that is asked.
    pub open spec fn model_at(self, stage: QuickStage) -> Seq<char> {
        if stage == QuickStage::Fallback {
            self.answer_model@
        } else {
            self.fast_model@
        }
    }

    /// The request to make.
    pub fn request(&self, stage: QuickStage) -> (r: ChatRequest)
        ensures
            r@ == quick_request(self.model_at(stage), self.rendered_questions@, self.context@),
    {
        let model = match stage {
            QuickStage::Fallback => self.answer_model.as_str(),
            _ => self.fast_model.as_str(),
        };
        quick_answer_body(model, self.rendered_questions.as_str(), self.context.as_str())
    }

    /// What to do after a request.
    pub fn next(&self, stage: QuickStage, reply: Reply) -> (r: QuickNext)
        ensures
            r == quick_next(stage, reply, self.models_differ()),
    {
        match reply {
            Reply::Read => QuickNext::Finish,
            Reply::Failed => {
                if stage == QuickStage::First && !text::same_text(
                    self.fast_model.as_str(),
                    self.answer_model.as_str(),
                ) {
                    QuickNext::Ask(QuickStage::Fallback)
                } else {
                    QuickNext::GiveUp
                }
            },
            Reply::Unreadable => {
                if stage == QuickStage::Retry {
                    QuickNext::GiveUp
                } else {
                    QuickNext::Ask(QuickStage::Retry)
                }
            },
        }
    }
}

/// The place of a stage in the order of requests.
pub open spec fn quick_rank(stage: QuickStage) -> int {
    match stage {
        QuickStage::First => 1,
        QuickStage::Fallback => 2,
        QuickStage::Retry => 3,
    }
}

/// At most three requests are made for quick answers: each one stands later in the
/// order than the one before. Answers that were read end the search, whichever
/// request they came with; nothing is given up at the first reply that cannot be
/// read.
pub proof fn quick_search_ends(stage: QuickStage, reply: Reply, models_differ: bool)
    ensures
        quick_next(stage, reply, models_differ) matches QuickNext::Ask(next) ==> quick_rank(stage)
            < quick_rank(next) <= 3,
        quick_next(stage, reply, models_differ) == QuickNext::Finish <==> reply == Reply::Read,
        quick_next(stage, Reply::Unreadable, models_differ) == QuickNext::GiveUp <==> stage
            == QuickStage::Retry,
{
}

/// Where in the order of requests one for full answers stands.
#[derive(Debug, Clone, Copy, PartialEq, Eq, Structural)]
pub enum FullStage {
    First,
    Retry,
}

/// What to do after a request for full answers.
#[derive(Debug, Clone, Copy, PartialEq, Eq, Structural)]
pub enum FullNext {
    /// Ask the same again.
    Ask(FullStage),
    /// End with the error.
    GiveUp,
    /// End with the answers.
    Finish,
}

/// What to do after a request for full answers: a first reply that cannot be read is
/// asked for once more.
pub open spec fn full_next(stage: FullStage, reply: Reply) -> FullNext {
    match reply {
        Reply::Read => FullNext::Finish,
        Reply::Failed => FullNext::GiveUp,
        Reply::Unreadable => if stage == FullStage::First {
            FullNext::Ask(FullStage::Retry)
        } else {
            FullNext::GiveUp
        },
    }
}

/// The search for full answers to some questions.
#[derive(Debug, Clone)]
pub struct FullSolve {
    pub model: String,
    pub rendered_questions: String,
    pub context: String,
}

impl FullSolve {
    /// The request to make, the same at every stage.
    pub fn request(&self) -> (r: ChatRequest)
        ensures
            r@ == full_request(self.model@, self.rendered_questions@, self.context@),
    {
        ChatRequest {
            model: self.model.clone(),
            temperature_tenths: 2,
            max_tokens: Some(2048),
            enable_thinking: None,
            json_object: true,
            system: ANSWER_FULLY.to_owned(),
            user: UserContent::Text(ask(self.rendered_questions.as_str(), self.context.as_str())),
        }
    }

    /// What to do after a request.
    pub fn next(&self, stage: FullStage, reply: Reply) -> (r: FullNext)
        ensures
            r == full_next(stage, reply),
    {
        match reply {
            Reply::Read => FullNext::Finish,
            Reply::Failed => FullNext::GiveUp,
            Reply::Unreadable => {
                if stage == FullStage::First {
                    FullNext::Ask(FullStage::Retry)
                } else {
                    FullNext::GiveUp
                }
            },
        }
    }
}

/// At most two requests are made for full answers, and those that were read end the
/// search.
pub proof fn full_search_ends(stage: FullStage, reply: Reply)
    ensures
        full_next(stage, reply) matches FullNext::Ask(next) ==> stage == FullStage::First && next
            == FullStage::Retry,
        full_next(stage, reply) == FullNext::Finish <==> reply == Reply::Read,
{
}

impl AiClient {
    /// The search for quick answers to the questions.
    pub fn solve_quick_answers(&self, questions: &Vec<String>, context: &str) -> (r: QuickSolve)
        ensures
            r.fast_model@ == self.settings.fast_answer_model@,
            r.answer_model@ == self.settings.answer_model@,
            r.rendered_questions@ == rendered(text::views(questions@)),
            r.context@ == context@,
    {
        QuickSolve {
            fast_model: self.settings.fast_answer_model.clone(),
            answer_model: self.settings.answer_model.clone(),
            rendered_questions: render_questions(questions),
            context: context.to_owned(),
        }
    }

    /// The search for full answers to the questions.
    pub fn solve_questions(&self, questions: &Vec<String>, context: &str) -> (r: FullSolve)
        ensures
            r.model@ == self.settings.answer_model@,
            r.rendered_questions@ == rendered(text::views(questions@)),
            r.context@ == context@,
    {
        FullSolve {
            model: self.settings.answer_model.clone(),
            rendered_questions: render_questions(questions),
            context: context.to_owned(),
        }
    }
}

/// What a chat reply holds.
#[derive(Debug, Clone)]
pub enum MessageContent {
    /// One text.
    Text(String),
    /// Parts, of which some are texts.
    Parts(Vec<Option<String>>),
    /// Something else, or nothing.
    Other,
}

/// Those of the texts that are there.
pub open spec fn present(parts: Seq<Option<String>>) -> Seq<Seq<char>>
    decreases parts.len(),
{
    if parts.len() == 0 {
        Seq::empty()
    } else {
        match parts.last() {
            Some(s) => present(parts.drop_last()).push(s@),
            None => present(parts.drop_last()),
        }
    }
}

/// The text of a chat reply: the one text it holds, or those of its parts on lines of
/// their own; an error where it holds no text, or parts without any character.
pub open spec fn reply_text(content: MessageContent) -> Result<Seq<char>, StudyError> {
    match content {
        MessageContent::Text(s) => Ok(s@),
        MessageContent::Parts(parts) => {
            let joined = text::join(present(parts@), "\n"@);
            if joined.len() > 0 {
                Ok(joined)
            } else {
                Err(StudyError::MissingContent)
            }
        },
        MessageContent::Other => Err(StudyError::MissingContent),
    }
}

/// The text of a chat reply.
pub fn chat_text(content: MessageContent) -> (r: Result<String, StudyError>)
    ensures
        r matches Ok(s) ==> reply_text(content) == Ok::<Seq<char>, StudyError>(s@),
        r matches Err(e) ==> reply_text(content) == Err::<Seq<char>, StudyError>(e),
{
    match content {
        MessageContent::Text(s) => Ok(s),
        MessageContent::Other => Err(StudyError::MissingContent),
        MessageContent::Parts(parts) => {
            let mut texts: Vec<String> = Vec::new();
            let mut i: usize = 0;
            assert(text::views(texts@) =~= present(parts@.take(0)));
            while i < parts.len()
                invariant
                    i <= parts@.len(),
                    text::views(texts@) == present(parts@.take(i as int)),
                decreases parts@.len() - i,
            {
                assert(parts@.take(i + 1).drop_last() =~= parts@.take(i as int));
                match &parts[i] {
                    Some(s) => {
                        let ghost before = texts@;
                        let copy = s.clone();
                        texts.push(copy);
                        assert(text::views(texts@) =~= text::views(before).push(copy@));
                    },
                    None => {},
                }
                i += 1;
            }
            assert(parts@.take(i as int) =~= parts@);
            let joined = text::join_strings(&texts, "\n");
            if joined.as_str().is_empty() {
                Err(StudyError::MissingContent)
            } else {
                Ok(joined)
            }
        },
    }
}

/// `s` without the slashes at its end.
pub open spec fn without_slashes(s: Seq<char>) -> Seq<char>
    decreases s.len(),
{
    if s.len() > 0 && s.last() == '/' {
        without_slashes(s.drop_last())
    } else {
        s
    }
}

/// The URL of an endpoint.
pub open spec fn endpoint_url(base: Seq<char>, endpoint: Seq<char>) -> Seq<char> {
    without_slashes(base) + "/"@ + endpoint
}

/// What to do after a response to a request.
#[derive(Debug, Clone, Copy, PartialEq, Eq, Structural)]
pub enum PostNext {
    /// Take the response.
    Accept,
    /// End with the error.
    Fail,
    /// Send the request again after so many milliseconds.
    RetryAfter(u64),
}

/// A status of the class of successful ones.
pub open spec fn is_success(status: u16) -> bool {
    200 <= status <= 299
}

/// A status after which a request is sent again.
pub open spec fn retryable(status: u16) -> bool {
    status == 500 || status == 502 || status == 503 || status == 504
}

/// Whether a request is sent again after a response with the status.
pub fn is_retryable_status(status: u16) -> (r: bool)
    ensures
        r == retryable(status),
{
    status == 500 || status == 502 || status == 503 || status == 504
}

/// What to do after a response to the request that was sent `attempt` times before.
pub open spec fn post_next(status: u16, attempt: nat) -> PostNext {
    if is_success(status) {
        PostNext::Accept
    } else if retryable(status) && attempt < 2 {
        PostNext::RetryAfter((400 * (attempt + 1)) as u64)
    } else {
        PostNext::Fail
    }
}

/// What to do after a response with the status to the request that was sent `attempt`
/// times before.
pub fn after_response(status: u16, attempt: u32) -> (r: PostNext)
    ensures
        r == post_next(status, attempt as nat),
{
    if 200 <= status && status <= 299 {
        PostNext::Accept
    } else if is_retryable_status(status) && attempt < 2 {
        PostNext::RetryAfter(400 * (attempt as u64 + 1))
    } else {
        PostNext::Fail
    }
}

/// A request is sent at most three times, whatever the responses are; it is not sent
/// again after one with success, nor after one that a repetition would not change.
pub proof fn requests_are_bounded(status: u16, attempt: nat)
    ensures
        post_next(status, attempt) is RetryAfter ==> attempt < 2 && retryable(status)
            && !is_success(status),
        post_next(status, 0) is RetryAfter ==> post_next(status, 0) == PostNext::RetryAfter(400),
        post_next(status, 1) is RetryAfter ==> post_next(status, 1) == PostNext::RetryAfter(800),
        is_success(status) ==> post_next(status, attempt) == PostNext::Accept,
{
}

impl AiClient {
    /// The URL to which a request for an endpoint is sent; an error where no key was
    /// entered.
    pub fn post(&self, endpoint: &str) -> (r: Result<String, StudyError>)
        ensures
            text::is_blank(self.settings.api_key@) ==> (r matches Err(e) && e
                == StudyError::MissingApiKey),
            !text::is_blank(self.settings.api_key@) ==> (r matches Ok(url) && url@ == endpoint_url(
                self.settings.api_base@,
                endpoint@,
            )),
    {
        proof {
            text::lemma_blank(self.settings.api_key@);
        }
        if text::trimmed(self.settings.api_key.as_str()).as_str().is_empty() {
            return Err(StudyError::MissingApiKey);
        }
        let base = text::chars_of(self.settings.api_base.as_str());
        let mut end: usize = base.len();
        assert(base@.take(end as int) =~= base@);
        while end > 0 && base[end - 1] == '/'
            invariant
                end <= base@.len(),
                without_slashes(base@) == without_slashes(base@.take(end as int)),
            decreases end,
        {
            assert(base@.take(end as int).drop_last() =~= base@.take(end - 1));
            end -= 1;
        }
        let mut url = text::string_from(&base, 0, end);
        assert(url@ =~= base@.take(end as int));
        url.append("/");
        url.append(endpoint);
        Ok(url)
    }
}

/// The words for a response without success.
pub open spec fn api_error(status: Seq<char>, body: Seq<char>) -> Seq<char> {
    "model API error "@ + status + ": "@ + body
}

/// The words for a response without success.
pub fn api_error_text(status: &str, body: &str) -> (r: String)
    ensures
        r@ == api_error(status@, body@),
{
    let mut r = "model API error ".to_owned();
    r.append(status);
    r.append(": ");
    r.append(body);
    r
}

/// Those of the numbers that are there.
pub open spec fn numbers_in(values: Seq<Option<Score>>) -> Seq<Score>
    decreases values.len(),
{
    if values.len() == 0 {
        Seq::empty()
    } else {
        match values.last() {
            Some(x) => numbers_in(values.drop_last()).push(x),
            None => numbers_in(values.drop_last()),
        }
    }
}

/// The embedding in a response: the numbers of its list; an error where there is no
/// list, and another one where there is no number in it.
pub fn embedding_of(values: Option<Vec<Option<Score>>>) -> (r: Result<Vec<Score>, StudyError>)
    ensures
        values is None ==> (r matches Err(e) && e == StudyError::MissingVector),
        values matches Some(list) ==> if numbers_in(list@).len() == 0 {
            r matches Err(e) && e == StudyError::EmptyVector
        } else {
            r matches Ok(vector) && vector@ == numbers_in(list@)
        },
{
    let list = match values {
        Some(list) => list,
        None => {
            return Err(StudyError::MissingVector);
        },
    };
    let mut vector: Vec<Score> = Vec::new();
    let mut i: usize = 0;
    assert(vector@ =~= numbers_in(list@.take(0)));
    while i < list.len()
        invariant
            i <= list@.len(),
            vector@ == numbers_in(list@.take(i as int)),
        decreases list@.len() - i,
    {
        assert(list@.take(i + 1).drop_last() =~= list@.take(i as int));
        match list[i] {
            Some(x) => vector.push(x),
            None => {},
        }
        i += 1;
    }
    assert(list@.take(i as int) =~= list@);
    if vector.len() == 0 {
        return Err(StudyError::EmptyVector);
    }
    Ok(vector)
}

/// A source as a model gives it.
#[derive(Debug, Clone)]
pub enum SourceItem {
    /// An object, with those of its texts that were looked for.
    Object { title: Option<String>, excerpt: Option<String>, text: Option<String> },
    /// A text.
    Text(String),
    /// Something else.
    Other,
}

/// A text where it is there, else the other one.
pub open spec fn or_text(o: Option<String>, other: Seq<char>) -> Seq<char> {
    match o {
        Some(s) => s@,
        None => other,
    }
}

/// The source that a model gave; none where it is neither an object nor a text.
pub open spec fn source_of(item: SourceItem) -> Option<SolveSourceView> {
    match item {
        SourceItem::Object { title, excerpt, text } => Some(
            SolveSourceView {
                title: or_text(title, "Course material"@),
                excerpt: or_text(excerpt, or_text(text, Seq::empty())),
            },
        ),
        SourceItem::Text(s) => Some(SolveSourceView { title: "Model note"@, excerpt: s@ }),
        SourceItem::Other => None,
    }
}

/// The sources among what a model gave, in their order.
pub open spec fn sources_of(items: Seq<SourceItem>) -> Seq<SolveSourceView>
    decreases items.len(),
{
    if items.len() == 0 {
        Seq::empty()
    } else {
        match source_of(items.last()) {
            Some(source) => sources_of(items.drop_last()).push(source),
            None => sources_of(items.drop_last()),
        }
    }
}

/// The text where it is there, else a copy of the other one.
fn text_or(o: &Option<String>, other: &str) -> (r: String)
    ensures
        r@ == or_text(*o, other@),
{
    match o {
        Some(s) => s.clone(),
        None => other.to_owned(),
    }
}

/// The sources among what a model gave.
pub fn deserialize_sources(items: &Vec<SourceItem>) -> (r: Vec<SolveSource>)
    ensures
        text::views(r@) == sources_of(items@),
{
    let mut sources: Vec<SolveSource> = Vec::new();
    let mut i: usize = 0;
    assert(text::views(sources@) =~= sources_of(items@.take(0)));
    while i < items.len()
        invariant
            i <= items@.len(),
            text::views(sources@) == sources_of(items@.take(i as int)),
        decreases items@.len() - i,
    {
        assert(items@.take(i + 1).drop_last() =~= items@.take(i as int));
        let ghost before = sources@;
        match &items[i] {
            SourceItem::Object { title, excerpt, text } => {
                proof {
                    reveal_strlit("");
                    assert(""@ =~= Seq::<char>::empty());
                }
                let fallback = text_or(text, "");
                let source = SolveSource {
                    title: text_or(title, "Course material"),
                    excerpt: text_or(excerpt, fallback.as_str()),
                };
                sources.push(source);
                assert(text::views(sources@) =~= text::views(before).push(source@));
            },
            SourceItem::Text(s) => {
                let source = SolveSource { title: "Model note".to_owned(), excerpt: s.clone() };
                sources.push(source);
                assert(text::views(sources@) =~= text::views(before).push(source@));
            },
            SourceItem::Other => {},
        }
        i += 1;
    }
    assert(items@.take(i as int) =~= items@);
    sources
}

/// A question as a model solved it, with its confidence between 0 and 1.
pub open spec fn with_clamped_confidence(item: AiSolvedQuestionView) -> AiSolvedQuestionView {
    AiSolvedQuestionView { confidence: item.confidence.clamped(), ..item }
}

/// The questions that were read in a reply, with their confidences between 0 and 1.
pub fn parse_solve_payload(questions: Vec<AiSolvedQuestion>) -> (r: AiSolvePayload)
    ensures
        text::views(r.questions@) == text::views(questions@).map_values(
            |item: AiSolvedQuestionView| with_clamped_confidence(item),
        ),
{
    let ghost all = text::views(questions@);
    let n: usize = questions.len();
    let mut questions = questions;
    let mut i: usize = 0;
    while i < n
        invariant
            i <= n,
            n == questions@.len(),
            all.len() == n,
            forall|k: int|
                0 <= k < i ==> (#[trigger] questions@[k])@ == with_clamped_confidence(all[k]),
            forall|k: int| i <= k < n ==> (#[trigger] questions@[k])@ == all[k],
        decreases n - i,
    {
        let clamped = questions[i].confidence.clamp_to_unit();
        questions[i].confidence = clamped;
        i += 1;
    }
    assert(text::views(questions@) =~= all.map_values(
        |item: AiSolvedQuestionView| with_clamped_confidence(item),
    ));
    AiSolvePayload { questions }
}

/// Different digits of base 64 have different values, and none is the padding.
proof fn lemma_base64_digit(a: int, b: int)
    requires
        0 <= a < 64,
        0 <= b < 64,
    ensures
        base64_digit(a) == base64_digit(b) ==> a == b,
        base64_digit(a) != '=',
{
}

/// The base 64 form of fewer bytes is shorter or has more padding at its end.
proof fn lemma_base64_len(a: Seq<u8>, b: Seq<u8>)
    requires
        base64_of(a) == base64_of(b),
    ensures
        a.len() == b.len(),
{
    let x = base64_of(a);
    let n = x.len() as int;
    assert((a.len() + 2) / 3 == (b.len() + 2) / 3);
    if n > 0 {
        let g = n / 4 - 1;
        assert(g * 4 + 2 < n);
        let k2 = g * 4 + 2;
        let k3 = g * 4 + 3;
        assert(k2 / 4 == g && k2 % 4 == 2 && k3 / 4 == g && k3 % 4 == 3);
        assert(x[k2] == base64_char(a, k2) && x[k2] == base64_of(b)[k2]);
        assert(x[k3] == base64_char(a, k3) && x[k3] == base64_of(b)[k3]);
        assert(base64_of(b)[k2] == base64_char(b, k2));
        assert(base64_of(b)[k3] == base64_char(b, k3));
        lemma_base64_padding(a, g);
        lemma_base64_padding(b, g);
    }
}

/// Where the padding stands in the group `g`.
proof fn lemma_base64_padding(bytes: Seq<u8>, g: int)
    requires
        0 <= g,
    ensures
        base64_char(bytes, g * 4 + 2) == '=' <==> g * 3 + 1 >= bytes.len(),
        base64_char(bytes, g * 4 + 3) == '=' <==> g * 3 + 2 >= bytes.len(),
{
    let k2 = g * 4 + 2;
    let k3 = g * 4 + 3;
    assert(k2 / 4 == g && k2 % 4 == 2 && k3 / 4 == g && k3 % 4 == 3);
    let at = g * 3;
    let b = byte_at(bytes, at + 1);
    let c = byte_at(bytes, at + 2);
    lemma_base64_digit(b % 16 * 4 + c / 64, 0);
    lemma_base64_digit(c % 64, 0);
}

/// An image can be read back from its URL: different images have different URLs.
pub proof fn image_urls_hold_the_image(a: Seq<u8>, b: Seq<u8>)
    requires
        image_url(a) == image_url(b),
    ensures
        a == b,
{
    let x = base64_of(a);
    let y = base64_of(b);
    let head = "data:image/png;base64,"@;
    assert(image_url(a).skip(head.len() as int) =~= x);
    assert(image_url(b).skip(head.len() as int) =~= y);
    lemma_base64_len(a, b);
    assert forall|j: int| 0 <= j < a.len() implies a[j] == b[j] by {
        let g = j / 3;
        lemma_base64_group(a, b, g);
        assert(j == g * 3 || j == g * 3 + 1 || j == g * 3 + 2);
    }
    assert(a =~= b);
}

/// Equal base 64 forms come from equal groups of bytes.
proof fn lemma_base64_group(a: Seq<u8>, b: Seq<u8>, g: int)
    requires
        a.len() == b.len(),
        base64_of(a) == base64_of(b),
        0 <= g,
        g * 3 < a.len(),
    ensures
        byte_at(a, g * 3) == byte_at(b, g * 3),
        byte_at(a, g * 3 + 1) == byte_at(b, g * 3 + 1),
        byte_at(a, g * 3 + 2) == byte_at(b, g * 3 + 2),
{
    let x = base64_of(a);
    let y = base64_of(b);
    let k = g * 4;
    assert(k + 3 < x.len());
    assert(k / 4 == g && k % 4 == 0);
    assert((k + 1) / 4 == g && (k + 1) % 4 == 1);
    assert((k + 2) / 4 == g && (k + 2) % 4 == 2);
    assert((k + 3) / 4 == g && (k + 3) % 4 == 3);
    assert(x[k] == base64_char(a, k) && y[k] == base64_char(b, k));
    assert(x[k + 1] == base64_char(a, k + 1) && y[k + 1] == base64_char(b, k + 1));
    assert(x[k + 2] == base64_char(a, k + 2) && y[k + 2] == base64_char(b, k + 2));
    assert(x[k + 3] == base64_char(a, k + 3) && y[k + 3] == base64_char(b, k + 3));
    let a0 = byte_at(a, g * 3);
    let a1 = byte_at(a, g * 3 + 1);
    let a2 = byte_at(a, g * 3 + 2);
    let b0 = byte_at(b, g * 3);
    let b1 = byte_at(b, g * 3 + 1);
    let b2 = byte_at(b, g * 3 + 2);
    lemma_base64_digit(a0 / 4, b0 / 4);
    lemma_base64_digit(a0 % 4 * 16 + a1 / 16, b0 % 4 * 16 + b1 / 16);
    lemma_base64_digit(a1 % 16 * 4 + a2 / 64, b1 % 16 * 4 + b2 / 64);
    lemma_base64_digit(a2 % 64, b2 % 64);
    assert(a0 == b0);
    assert(a1 / 16 == b1 / 16);
}

/// A further question is asked behind the others, with a blank line between, and under the
/// next number; the first one is asked under 1.
pub proof fn questions_are_numbered_in_order(questions: Seq<Seq<char>>, next: Seq<char>)
    ensures
        questions.len() == 0 ==> rendered(questions.push(next)) == "1. "@ + next,
        questions.len() > 0 ==> rendered(questions.push(next)) == rendered(questions) + "\n\n"@
            + text::decimal(questions.len() + 1) + ". "@ + next,
{
    let n = questions.len() as int;
    let line = text::decimal((n + 1) as nat) + ". "@ + next;
    assert(numbered(questions.push(next)) =~= numbered(questions) + seq![line]);
    text::joining_is_by_parts(numbered(questions), seq![line], "\n\n"@);
    text::joining_is_by_parts(seq![line], seq![line], "\n\n"@);
    if questions.len() == 0 {
        assert(numbered(questions) + seq![line] =~= seq![line]);
        reveal_strlit("1. ");
        reveal_strlit(". ");
        assert(line =~= "1. "@ + next);
    } else {
        assert(rendered(questions.push(next)) =~= rendered(questions) + "\n\n"@ + text::decimal(
            questions.len() + 1,
        ) + ". "@ + next);
    }
}

/// What is asked holds the questions first and the course material behind them, each whole
/// and under its heading, and nothing else; both requests ask the given model for a JSON
/// object.
pub proof fn requests_hold_questions_and_context(
    model: Seq<char>,
    questions: Seq<char>,
    context: Seq<char>,
)
    ensures
        ({
            let head = "Questions:\n"@;
            let middle = "\n\nCourse context:\n"@;
            let said = asked(questions, context);
            let quick = quick_request(model, questions, context);
            let full = full_request(model, questions, context);
            &&& said.len() == head.len() + questions.len() + middle.len() + context.len()
            &&& text::starts_with(said, head + questions + middle)
            &&& text::ends_with(said, context)
            &&& quick.user == UserContentView::Text(said)
            &&& full.user == UserContentView::Text(said)
            &&& quick.model == model && full.model == model
            &&& quick.json_object && full.json_object
            &&& quick.system != full.system
            &&& quick.max_tokens == Some(256u32) && full.max_tokens == Some(2048u32)
            &&& quick.enable_thinking == Some(false) && full.enable_thinking is None
            &&& quick.temperature_tenths == 1 && full.temperature_tenths == 2
        }),
{
    let head = "Questions:\n"@;
    let middle = "\n\nCourse context:\n"@;
    let said = asked(questions, context);
    let front = head + questions + middle;
    assert(said.take(front.len() as int) =~= front);
    assert(said.skip(said.len() - context.len()) =~= context);
    reveal_strlit("You are a fast answer extractor. Return JSON with top-level key questions. Each item must contain: question, answer_brief. Keep the same order as the input questions. answer_brief must be extremely short for compact display, for example 'A', 'BC', '42', 'True', or a 1-5 word short answer.");
    reveal_strlit("You are a course study assistant. Return JSON with top-level key questions. Each item must contain: question, question_zh, answer, answer_brief, explanation, confidence, low_confidence, sources. Keep the same order as the input questions. question must preserve the original language. question_zh must be a natural Simplified Chinese translation. answer_brief must be extremely short for compact display. Always prefer the supplied course material. If evidence is weak, set low_confidence=true and say the answer needs human review. sources must be an array of objects with keys title and excerpt. Never invent page numbers or section names.");
    assert(ANSWER_QUICKLY@[10] == 'f');
    assert(ANSWER_FULLY@[10] == 'c');
}

/// A first request for quick answers that fails goes to the model for full answers where
/// that is another one; any other request that fails ends the search. A reply that cannot
/// be read is asked for again from the fast model, once.
pub proof fn quick_search_goes_on(models_differ: bool)
    ensures
        quick_next(QuickStage::First, Reply::Failed, models_differ) == (if models_differ {
            QuickNext::Ask(QuickStage::Fallback)
        } else {
            QuickNext::GiveUp
        }),
        quick_next(QuickStage::Fallback, Reply::Failed, models_differ) == QuickNext::GiveUp,
        quick_next(QuickStage::Retry, Reply::Failed, models_differ) == QuickNext::GiveUp,
        quick_next(QuickStage::First, Reply::Unreadable, models_differ) == QuickNext::Ask(
            QuickStage::Retry,
        ),
        quick_next(QuickStage::Fallback, Reply::Unreadable, models_differ) == QuickNext::Ask(
            QuickStage::Retry,
        ),
        quick_next(QuickStage::Retry, Reply::Unreadable, models_differ) == QuickNext::GiveUp,
        forall|solve: QuickSolve|
            (#[trigger] solve.model_at(QuickStage::First)) == solve.fast_model@ && solve.model_at(
                QuickStage::Retry,
            ) == solve.fast_model@ && solve.model_at(QuickStage::Fallback) == solve.answer_model@,
        forall|solve: QuickSolve|
            (#[trigger] solve.models_differ()) <==> solve.fast_model@ != solve.answer_model@,
        full_next(FullStage::First, Reply::Unreadable) == FullNext::Ask(FullStage::Retry),
        full_next(FullStage::Retry, Reply::Unreadable) == FullNext::GiveUp,
        forall|stage: FullStage| #[trigger] full_next(stage, Reply::Failed) == FullNext::GiveUp,
{
}

/// A request is sent again after the four server errors that may pass, twice at the most,
/// the second time after twice the pause; every other status ends it.
pub proof fn passing_errors_are_retried(status: u16, attempt: nat)
    ensures
        200 <= status < 300 <==> post_next(status, attempt) is Accept,
        (status == 500 || 502 <= status <= 504) && attempt < 2 <==> post_next(
            status,
            attempt,
        ) is RetryAfter,
        post_next(status, attempt) matches PostNext::RetryAfter(pause) ==> pause == 400 * attempt
            + 400,
{
}

/// The parts of a reply that hold a text are put on lines of their own, in their order; those
/// that hold none add nothing.
pub proof fn parts_of_a_reply_stay_in_order(parts: Seq<Option<String>>, s: String)
    ensures
        present(parts.push(None)) == present(parts),
        present(parts.push(Some(s))) == present(parts).push(s@),
        present(Seq::empty()) == Seq::<Seq<char>>::empty(),
        present(parts).len() > 0 ==> text::join(present(parts.push(Some(s))), "\n"@) == text::join(
            present(parts),
            "\n"@,
        ) + "\n"@ + s@,
{
    assert(parts.push(None).drop_last() =~= parts);
    assert(parts.push(Some(s)).drop_last() =~= parts);
    assert(present(parts).push(s@) =~= present(parts) + seq![s@]);
    text::joining_is_by_parts(present(parts), seq![s@], "\n"@);
    text::joining_is_by_parts(seq![s@], seq![s@], "\n"@);
}

/// A reply with one text gives it, also an empty one; parts give the texts among them, and
/// an error where no character is in them; anything else gives an error.
pub proof fn replies_give_their_text(s: String, parts: Vec<Option<String>>)
    ensures
        reply_text(MessageContent::Text(s)) == Ok::<Seq<char>, StudyError>(s@),
        reply_text(MessageContent::Other) == Err::<Seq<char>, StudyError>(
            StudyError::MissingContent,
        ),
        (forall|i: int| 0 <= i < parts@.len() ==> (#[trigger] parts@[i]) is None) ==> reply_text(
            MessageContent::Parts(parts),
        ) == Err::<Seq<char>, StudyError>(StudyError::MissingContent),
        parts@.len() == 1 && parts@[0] == Some(s) && s@.len() > 0 ==> reply_text(
            MessageContent::Parts(parts),
        ) == Ok::<Seq<char>, StudyError>(s@),
        present(parts@).len() >= 2 ==> reply_text(MessageContent::Parts(parts)) == Ok::<
            Seq<char>,
            StudyError,
        >(text::join(present(parts@), "\n"@)),
{
    reveal_strlit("\n");
    let p = parts@;
    if forall|i: int| 0 <= i < p.len() ==> (#[trigger] p[i]) is None {
        lemma_none_present(p);
    }
    if p.len() == 1 && p[0] == Some(s) {
        assert(p.drop_last() =~= Seq::<Option<String>>::empty());
        assert(p.last() == p[0]);
        assert(present(p.drop_last()) =~= Seq::<Seq<char>>::empty());
        assert(present(p) =~= seq![s@]);
        text::joining_is_by_parts(present(p), present(p), "\n"@);
    }
}

/// Where no part holds a text, there are none.
proof fn lemma_none_present(parts: Seq<Option<String>>)
    requires
        forall|i: int| 0 <= i < parts.len() ==> (#[trigger] parts[i]) is None,
    ensures
        present(parts).len() == 0,
    decreases parts.len(),
{
    if parts.len() > 0 {
        let body = parts.drop_last();
        assert forall|i: int| 0 <= i < body.len() implies (#[trigger] body[i]) is None by {
            assert(body[i] == parts[i]);
        }
        assert(parts[parts.len() - 1] is None);
        lemma_none_present(body);
    }
}

/// However many slashes stand at the end of the base, one stands before the endpoint.
pub proof fn slashes_at_the_end_do_not_matter(base: Seq<char>, slashes: Seq<char>, endpoint: Seq<char>)
    requires
        base.len() > 0 ==> base.last() != '/',
        forall|i: int| 0 <= i < slashes.len() ==> #[trigger] slashes[i] == '/',
    ensures
        endpoint_url(base + slashes, endpoint) == base + "/"@ + endpoint,
    decreases slashes.len(),
{
    if slashes.len() == 0 {
        assert(base + slashes =~= base);
    } else {
        let fewer = slashes.drop_last();
        assert forall|i: int| 0 <= i < fewer.len() implies #[trigger] fewer[i] == '/' by {
            assert(fewer[i] == slashes[i]);
        }
        slashes_at_the_end_do_not_matter(base, fewer, endpoint);
        assert((base + slashes).drop_last() =~= base + fewer);
        assert((base + slashes).last() == slashes[slashes.len() - 1]);
    }
}

/// The numbers of a list are kept in their order, and what is no number is left out.
pub proof fn embeddings_keep_their_order(values: Seq<Option<Score>>, x: Score)
    ensures
        numbers_in(Seq::empty()) == Seq::<Score>::empty(),
        numbers_in(values.push(None)) == numbers_in(values),
        numbers_in(values.push(Some(x))) == numbers_in(values).push(x),
{
    assert(values.push(None).drop_last() =~= values);
    assert(values.push(Some(x)).drop_last() =~= values);
}

/// The sources that a model gave are kept in their order, with their titles and excerpts:
/// an object without a title is course material, and one without an excerpt has its text;
/// a text alone is a note of the model; anything else is left out.
pub proof fn sources_keep_their_texts(
    items: Seq<SourceItem>,
    title: String,
    excerpt: String,
    text: String,
    other_title: Option<String>,
    other_text: Option<String>,
)
    ensures
        sources_of(Seq::empty()) == Seq::<SolveSourceView>::empty(),
        sources_of(items.push(SourceItem::Other)) == sources_of(items),
        sources_of(items.push(SourceItem::Text(text))) == sources_of(items).push(
            (SolveSourceView { title: "Model note"@, excerpt: text@ }),
        ),
        sources_of(
            items.push(
                SourceItem::Object { title: Some(title), excerpt: Some(excerpt), text: other_text },
            ),
        ) == sources_of(items).push((SolveSourceView { title: title@, excerpt: excerpt@ })),
        sources_of(
            items.push(SourceItem::Object { title: None, excerpt: Some(excerpt), text: other_text }),
        ) == sources_of(items).push(
            (SolveSourceView { title: "Course material"@, excerpt: excerpt@ }),
        ),
        sources_of(
            items.push(SourceItem::Object { title: Some(title), excerpt: None, text: Some(text) }),
        ) == sources_of(items).push((SolveSourceView { title: title@, excerpt: text@ })),
        sources_of(items.push(SourceItem::Object { title: Some(title), excerpt: None, text: None }))
            == sources_of(items).push((SolveSourceView { title: title@, excerpt: Seq::empty() })),
        sources_of(
            items.push(SourceItem::Object { title: None, excerpt: None, text: Some(text) }),
        ) == sources_of(items).push((SolveSourceView { title: "Course material"@, excerpt: text@ })),
{
    assert(forall|x: SourceItem| (#[trigger] items.push(x)).drop_last() =~= items);
}

/// A question that a model solved keeps all it has but its confidence.
pub proof fn only_confidences_are_clamped(item: AiSolvedQuestionView)
    ensures
        ({
            let r = with_clamped_confidence(item);
            &&& r.question == item.question
            &&& r.question_zh == item.question_zh
            &&& r.answer == item.answer
            &&& r.answer_brief == item.answer_brief
            &&& r.explanation == item.explanation
            &&& r.sources == item.sources
            &&& r.low_confidence == item.low_confidence
        }),
{
}

/// The words for a response without success hold its status and its body, in this order.
pub proof fn api_errors_say_what_came(status: Seq<char>, body: Seq<char>)
    ensures
        text::starts_with(api_error(status, body), "model API error "@ + status + ": "@),
        text::ends_with(api_error(status, body), body),
        api_error(status, body).len() == 18 + status.len() + body.len(),
{
    reveal_strlit("model API error ");
    reveal_strlit(": ");
    let s = api_error(status, body);
    let front = "model API error "@ + status + ": "@;
    assert(s.take(front.len() as int) =~= front);
    assert(s.skip(s.len() - body.len()) =~= body);
}

/// What was read in an image on this machine is given without the white space around it; a
/// program that failed gives an error, whatever it gave out.
pub proof fn read_text_is_trimmed(before: Seq<char>, s: Seq<char>, behind: Seq<char>)
    requires
        text::is_blank(before),
        text::is_blank(behind),
    ensures
        text::is_trimmed(s) ==> ocr_text(true, before + s + behind) == Ok::<Seq<char>, StudyError>(
            s,
        ),
        ocr_text(false, s) == Err::<Seq<char>, StudyError>(StudyError::OcrFailed),
{
    text::white_space_around_is_trimmed(before, s, behind);
}

/// What is shown of an answer and of a request is what they hold, each field under its own
/// name.
pub proof fn views_show_answers_and_requests(answer: QuickAnswer, request: ChatRequest, s: String, url: String)
    ensures
        answer@.question == answer.question@ && answer@.answer_brief == answer.answer_brief@,
        request@.model == request.model@ && request@.temperature_tenths
            == request.temperature_tenths && request@.max_tokens == request.max_tokens
            && request@.enable_thinking == request.enable_thinking && request@.json_object
            == request.json_object && request@.system == request.system@ && request@.user
            == request.user@,
        UserContent::Text(s)@ == UserContentView::Text(s@),
        (UserContent::Image { text: s, url })@ == (UserContentView::Image {
            text: s@,
            url: url@,
        }),
{
}

/// The URL of an image says that it is one, and holds all its bytes.
pub proof fn image_urls_say_what_they_hold(bytes: Seq<u8>)
    ensures
        text::starts_with(image_url(bytes), "data:image/png;base64,"@),
        image_url(bytes).len() == 22 + (bytes.len() + 2) / 3 * 4,
{
    reveal_strlit("data:image/png;base64,");
    assert(image_url(bytes).take(22) =~= "data:image/png;base64,"@);
}

} // verus!
