//! Solving questions: from a text to quick answers, and from there to full ones.

use vstd::prelude::*;
use crate::ai::{AiClient, FullSolve, QuickAnswer, QuickAnswerView, QuickSolve};
use crate::ai;
use crate::answers::OutputSearch;
use crate::answers;
use crate::db;
use crate::error::StudyError;
use crate::models::{
    AiSolvedQuestion, AiSolvedQuestionView, AppSettings, KnowledgeChunk, KnowledgeChunkView, Score,
    SettingsView, SolveRequest, SolveRequestView, SolveResult, SolveResultView, SolvedQuestion,
    SolvedQuestionView, StatusEvent, StatusEventView,
};
use crate::models;
use crate::questions;
use crate::service::{OutputDir, OutputDirView, StudyService, StudyServiceView};
use crate::service;
use crate::stamp;
use crate::text;

verus! {

/// How many pieces of the course material go with the questions.
pub const CONTEXT_PIECES: usize = 6;

/// What is to be solved: a text, or what stands on a screenshot where there is none.
#[derive(Debug, Clone)]
pub struct Assignment {
    pub course_id: String,
    pub question_text: String,
    pub screenshot_path: String,
    pub initial_status: String,
    pub initial_detail: String,
    pub takeover_progress: bool,
}

/// The course that is solved for; the error where none is active.
pub fn active_course(settings: &AppSettings, error: StudyError) -> (r: Result<String, StudyError>)
    ensures
        r is Ok <==> settings.active_course_id is Some,
        r matches Ok(id) ==> id@ == settings.active_course_id->0@,
        r matches Err(e) ==> e == error,
{
    match &settings.active_course_id {
        Some(id) => Ok(id.clone()),
        None => Err(error),
    }
}

impl StudyService {
    /// What is to be solved is on the screenshot that was taken.
    pub fn capture_and_prepare(course_id: String, screenshot_path: String) -> (r: Assignment)
        ensures
            r.course_id@ == course_id@,
            r.question_text@ == Seq::<char>::empty(),
            r.screenshot_path@ == screenshot_path@,
            r.initial_status@ == "识题中"@,
            r.initial_detail@ == "正在从截图中提取题目内容"@,
            r.takeover_progress,
    {
        Assignment {
            course_id,
            question_text: String::new(),
            screenshot_path,
            initial_status: "识题中".to_owned(),
            initial_detail: "正在从截图中提取题目内容".to_owned(),
            takeover_progress: true,
        }
    }

    /// What is to be solved is the text that was copied.
    pub fn clipboard_and_prepare(course_id: String, clipboard_text: String) -> (r: Assignment)
        ensures
            r.course_id@ == course_id@,
            r.question_text@ == clipboard_text@,
            r.screenshot_path@ == Seq::<char>::empty(),
            r.initial_status@ == "读取文字中"@,
            r.initial_detail@ == "正在从剪贴板读取题目文字"@,
            r.takeover_progress,
    {
        Assignment {
            course_id,
            question_text: clipboard_text,
            screenshot_path: String::new(),
            initial_status: "读取文字中".to_owned(),
            initial_detail: "正在从剪贴板读取题目文字".to_owned(),
            takeover_progress: true,
        }
    }

    /// What is to be solved is on the screenshot that was named.
    pub fn prepare_solve_job(request: SolveRequest) -> (r: Assignment)
        ensures
            r.course_id@ == request.course_id@,
            r.question_text@ == Seq::<char>::empty(),
            r.screenshot_path@ == request.screenshot_path@,
            r.initial_status@ == "识题中"@,
            r.initial_detail@ == "正在从截图中提取题目内容"@,
            r.takeover_progress,
    {
        StudyService::capture_and_prepare(request.course_id, request.screenshot_path)
    }
}

/// What the pieces of the course material are given as: each with the name of its
/// document.
pub open spec fn context_of(pieces: Seq<KnowledgeChunkView>) -> Seq<char> {
    text::join(
        pieces.map_values(
            |p: KnowledgeChunkView| "["@ + p.source_file + "]\n"@ + p.content,
        ),
        "\n\n---\n\n"@,
    )
}

/// What the pieces of the course material are given as.
pub fn build_context(pieces: &Vec<KnowledgeChunk>) -> (r: String)
    ensures
        r@ == context_of(text::views(pieces@)),
{
    let ghost all = text::views(pieces@).map_values(
        |p: KnowledgeChunkView| "["@ + p.source_file + "]\n"@ + p.content,
    );
    let mut parts: Vec<String> = Vec::new();
    let mut i: usize = 0;
    while i < pieces.len()
        invariant
            i <= pieces@.len(),
            all == text::views(pieces@).map_values(
                |p: KnowledgeChunkView| "["@ + p.source_file + "]\n"@ + p.content,
            ),
            text::views(parts@) == all.take(i as int),
        decreases pieces@.len() - i,
    {
        let piece = &pieces[i];
        let mut part = "[".to_owned();
        part.append(piece.source_file.as_str());
        part.append("]\n");
        part.append(piece.content.as_str());
        let ghost before = parts@;
        parts.push(part);
        proof {
            assert(text::views(pieces@)[i as int] == piece@);
            assert(part@ == all[i as int]);
            assert(text::views(parts@) =~= text::views(before).push(part@));
            assert(all.take(i + 1) =~= all.take(i as int).push(all[i as int]));
        }
        i += 1;
    }
    assert(all.take(i as int) =~= all);
    text::join_strings(&parts, "\n\n---\n\n")
}

/// How far the preparation of quick answers has come.
#[derive(Debug)]
pub enum PrepareStage {
    /// The text of the questions is read.
    Reading,
    /// The course material is searched.
    Searching { question_text: String, split_questions: Vec<String> },
    /// Quick answers are asked for.
    Answering { split_questions: Vec<String>, context: String },
    /// The name of the course is looked up.
    Naming { split_questions: Vec<String>, context: String, quick_preview: String },
}

/// The view of a stage.
pub enum PrepareStageView {
    Reading,
    Searching { question_text: Seq<char>, split_questions: Seq<Seq<char>> },
    Answering { split_questions: Seq<Seq<char>>, context: Seq<char> },
    Naming {
        split_questions: Seq<Seq<char>>,
        context: Seq<char>,
        quick_preview: Seq<char>,
    },
}

impl View for PrepareStage {
    type V = PrepareStageView;

    open spec fn view(&self) -> PrepareStageView {
        match *self {
            PrepareStage::Reading => PrepareStageView::Reading,
            PrepareStage::Searching { question_text, split_questions } =>
                PrepareStageView::Searching {
                question_text: question_text@,
                split_questions: text::views(split_questions@),
            },
            PrepareStage::Answering { split_questions, context } => PrepareStageView::Answering {
                split_questions: text::views(split_questions@),
                context: context@,
            },
            PrepareStage::Naming { split_questions, context, quick_preview } =>
                PrepareStageView::Naming {
                split_questions: text::views(split_questions@),
                context: context@,
                quick_preview: quick_preview@,
            },
        }
    }
}

/// What came of the last action.
#[derive(Debug)]
pub enum PrepareEvent {
    /// The text of the questions.
    Recognised(String),
    /// All pieces of the course material, with their similarities.
    Retrieved(Vec<KnowledgeChunk>),
    /// The quick answers.
    Answered(Vec<QuickAnswer>),
    /// The name of the course, where there is one.
    Named(Option<String>),
}

/// The view of an event.
pub enum PrepareEventView {
    Recognised(Seq<char>),
    Retrieved(Seq<KnowledgeChunkView>),
    Answered(Seq<QuickAnswerView>),
    Named(Option<Seq<char>>),
}

impl View for PrepareEvent {
    type V = PrepareEventView;

    open spec fn view(&self) -> PrepareEventView {
        match *self {
            PrepareEvent::Recognised(s) => PrepareEventView::Recognised(s@),
            PrepareEvent::Retrieved(pieces) => PrepareEventView::Retrieved(text::views(pieces@)),
            PrepareEvent::Answered(answers) => PrepareEventView::Answered(text::views(answers@)),
            PrepareEvent::Named(name) => PrepareEventView::Named(text::view_opt(name)),
        }
    }
}

/// Questions with quick answers, ready to be solved in full.
#[derive(Debug)]
pub struct PreparedSolveJob {
    pub task_id: String,
    pub settings: AppSettings,
    pub output_dir: OutputDir,
    pub course_name: String,
    pub request: SolveRequest,
    pub split_questions: Vec<String>,
    pub context: String,
    pub quick_preview: String,
}

/// The view of a prepared job.
pub struct PreparedSolveJobView {
    pub task_id: Seq<char>,
    pub settings: SettingsView,
    pub output_dir: OutputDirView,
    pub course_name: Seq<char>,
    pub request: SolveRequestView,
    pub split_questions: Seq<Seq<char>>,
    pub context: Seq<char>,
    pub quick_preview: Seq<char>,
}

impl View for PreparedSolveJob {
    type V = PreparedSolveJobView;

    open spec fn view(&self) -> PreparedSolveJobView {
        PreparedSolveJobView {
            task_id: self.task_id@,
            settings: self.settings@,
            output_dir: self.output_dir@,
            course_name: self.course_name@,
            request: self.request@,
            split_questions: text::views(self.split_questions@),
            context: self.context@,
            quick_preview: self.quick_preview@,
        }
    }
}

/// What to do next.
#[derive(Debug)]
pub enum PrepareAction {
    /// Read the questions on the screenshot with this path.
    ReadImage(String),
    /// Embed this text and compare all pieces of the course material with it.
    Search(String),
    /// Ask for quick answers.
    AnswerQuickly(QuickSolve),
    /// Look up the name of the course with this identifier.
    NameCourse(String),
}

/// The view of an action.
pub enum PrepareActionView {
    ReadImage(Seq<char>),
    Search(Seq<char>),
    AnswerQuickly {
        fast_model: Seq<char>,
        answer_model: Seq<char>,
        rendered_questions: Seq<char>,
        context: Seq<char>,
    },
    NameCourse(Seq<char>),
}

impl View for PrepareAction {
    type V = PrepareActionView;

    open spec fn view(&self) -> PrepareActionView {
        match *self {
            PrepareAction::ReadImage(s) => PrepareActionView::ReadImage(s@),
            PrepareAction::Search(s) => PrepareActionView::Search(s@),
            PrepareAction::AnswerQuickly(solve) => PrepareActionView::AnswerQuickly {
                fast_model: solve.fast_model@,
                answer_model: solve.answer_model@,
                rendered_questions: solve.rendered_questions@,
                context: solve.context@,
            },
            PrepareAction::NameCourse(s) => PrepareActionView::NameCourse(s@),
        }
    }
}

/// The preparation of quick answers.
#[derive(Debug)]
pub struct Preparation {
    pub task_id: String,
    pub settings: AppSettings,
    pub request: SolveRequest,
    pub stage: PrepareStage,
}

/// The view of a preparation.
pub struct PreparationView {
    pub task_id: Seq<char>,
    pub settings: SettingsView,
    pub request: SolveRequestView,
    pub stage: PrepareStageView,
}

impl View for Preparation {
    type V = PreparationView;

    open spec fn view(&self) -> PreparationView {
        PreparationView {
            task_id: self.task_id@,
            settings: self.settings@,
            request: self.request@,
            stage: self.stage@,
        }
    }
}

/// What a step came to.
#[derive(Debug)]
pub enum PrepareStep {
    /// An action, and how the preparation goes on.
    Continue { preparation: Preparation, action: PrepareAction },
    /// The job is prepared.
    Finish(PreparedSolveJob),
    /// The error on which the preparation ends.
    Fail(StudyError),
}

/// The view of what a step came to.
pub enum PrepareStepView {
    Continue { preparation: PreparationView, action: PrepareActionView },
    Finish(PreparedSolveJobView),
    Fail(StudyError),
}

impl View for PrepareStep {
    type V = PrepareStepView;

    open spec fn view(&self) -> PrepareStepView {
        match *self {
            PrepareStep::Continue { preparation, action } => PrepareStepView::Continue {
                preparation: preparation@,
                action: action@,
            },
            PrepareStep::Finish(job) => PrepareStepView::Finish(job@),
            PrepareStep::Fail(error) => PrepareStepView::Fail(error),
        }
    }
}

/// The event is the one that the stage waits for.
pub open spec fn fits(stage: PrepareStageView, event: PrepareEventView) -> bool {
    match stage {
        PrepareStageView::Reading => event is Recognised,
        PrepareStageView::Searching { .. } => event is Retrieved,
        PrepareStageView::Answering { .. } => event is Answered,
        PrepareStageView::Naming { .. } => event is Named,
    }
}

/// An event of a preparation that goes on.
pub open spec fn progress(
    task_id: Seq<char>,
    status: Seq<char>,
    detail: Seq<char>,
    step: u8,
) -> StatusEventView {
    service::event(task_id, status, detail, step, Seq::empty(), true, false, false)
}

/// The event when the text is cut into questions.
pub open spec fn splitting(task_id: Seq<char>) -> StatusEventView {
    progress(task_id, "拆题中"@, "正在把截图内容拆成多道题目"@, 2)
}

/// The event when the course material is searched.
pub open spec fn searching(task_id: Seq<char>) -> StatusEventView {
    progress(task_id, "检索课件中"@, "正在召回相关课件知识片段"@, 3)
}

/// The event when quick answers are asked for.
pub open spec fn answering(task_id: Seq<char>) -> StatusEventView {
    progress(task_id, "快速求答中"@, "正在优先生成最终答案摘要"@, 4)
}

/// The event when there are quick answers.
pub open spec fn answered(task_id: Seq<char>, preview: Seq<char>) -> StatusEventView {
    service::event(
        task_id,
        "已拿到答案"@,
        "已得到答案摘要，可以继续截图；完整解析会在后台继续生成"@,
        4,
        preview,
        true,
        false,
        false,
    )
}

/// The pieces of the course material that go with the questions.
pub open spec fn best_pieces(pieces: Seq<KnowledgeChunkView>) -> Seq<KnowledgeChunkView> {
    db::first_of(db::ranked(pieces), CONTEXT_PIECES as nat)
}

/// The preview of the quick answers to the questions.
pub open spec fn quick_preview(answers: Seq<QuickAnswerView>, count: nat) -> Seq<char> {
    answers::preview_given(answers::quick_entries(answers), count)
}

/// What an event makes of a preparation whose stage waits for it, and the events that
/// are sent about it.
pub open spec fn prepare_step(p: PreparationView, event: PrepareEventView) -> (
    PrepareStepView,
    Seq<StatusEventView>,
) {
    match (p.stage, event) {
        (PrepareStageView::Reading, PrepareEventView::Recognised(question_text)) => {
            let split_questions = questions::questions_of(question_text);
            if split_questions.len() == 0 {
                (PrepareStepView::Fail(StudyError::NoQuestion), seq![splitting(p.task_id)])
            } else {
                (
                    PrepareStepView::Continue {
                        preparation: PreparationView {
                            stage: PrepareStageView::Searching { question_text, split_questions },
                            ..p
                        },
                        action: PrepareActionView::Search(question_text),
                    },
                    seq![splitting(p.task_id), searching(p.task_id)],
                )
            }
        },
        (
            PrepareStageView::Searching { question_text, split_questions },
            PrepareEventView::Retrieved(pieces),
        ) => {
            let context = context_of(best_pieces(pieces));
            (
                PrepareStepView::Continue {
                    preparation: PreparationView {
                        stage: PrepareStageView::Answering { split_questions, context },
                        ..p
                    },
                    action: PrepareActionView::AnswerQuickly {
                        fast_model: p.settings.fast_answer_model,
                        answer_model: p.settings.answer_model,
                        rendered_questions: ai::rendered(split_questions),
                        context,
                    },
                },
                seq![answering(p.task_id)],
            )
        },
        (
            PrepareStageView::Answering { split_questions, context },
            PrepareEventView::Answered(answers),
        ) => {
            let preview = quick_preview(answers, split_questions.len());
            (
                PrepareStepView::Continue {
                    preparation: PreparationView {
                        stage: PrepareStageView::Naming {
                            split_questions,
                            context,
                            quick_preview: preview,
                        },
                        ..p
                    },
                    action: PrepareActionView::NameCourse(p.request.course_id),
                },
                seq![answered(p.task_id, preview)],
            )
        },
        (
            PrepareStageView::Naming { split_questions, context, quick_preview },
            PrepareEventView::Named(Some(course_name)),
        ) => (
            PrepareStepView::Finish(
                PreparedSolveJobView {
                    task_id: p.task_id,
                    settings: p.settings,
                    output_dir: service::output_dir_of(p.settings.output_dir),
                    course_name,
                    request: p.request,
                    split_questions,
                    context,
                    quick_preview,
                },
            ),
            Seq::empty(),
        ),
        _ => (PrepareStepView::Fail(StudyError::CourseNotFound), Seq::empty()),
    }
}

/// The status of the service after some events: that of the last one.
pub open spec fn status_after(
    before: StudyServiceView,
    events: Seq<StatusEventView>,
) -> StudyServiceView {
    if events.len() == 0 {
        before
    } else {
        StudyServiceView { status: events.last().status, ..before }
    }
}

/// The event with which a preparation begins.
pub open spec fn beginning(task_id: Seq<char>, assignment: Assignment) -> StatusEventView {
    service::event(
        task_id,
        assignment.initial_status@,
        assignment.initial_detail@,
        1,
        Seq::empty(),
        assignment.takeover_progress,
        false,
        false,
    )
}

/// The preparation that waits for the text of the questions.
pub open spec fn waiting(
    task_id: Seq<char>,
    settings: SettingsView,
    assignment: Assignment,
) -> PreparationView {
    PreparationView {
        task_id,
        settings,
        request: SolveRequestView {
            course_id: assignment.course_id@,
            screenshot_path: assignment.screenshot_path@,
        },
        stage: PrepareStageView::Reading,
    }
}

/// What a preparation begins with: a text that is not blank is taken as it is, but for
/// the white space at its ends; else the screenshot is read.
pub open spec fn prepare_begin(
    task_id: Seq<char>,
    settings: SettingsView,
    assignment: Assignment,
) -> (PrepareStepView, Seq<StatusEventView>) {
    let p = waiting(task_id, settings, assignment);
    let first = seq![beginning(task_id, assignment)];
    if text::is_blank(assignment.question_text@) {
        (
            PrepareStepView::Continue {
                preparation: p,
                action: PrepareActionView::ReadImage(assignment.screenshot_path@),
            },
            first,
        )
    } else {
        let (step, events) = prepare_step(
            p,
            PrepareEventView::Recognised(text::trim(assignment.question_text@)),
        );
        (step, first + events)
    }
}

impl Preparation {
    /// Sends one event of a preparation that goes on.
    fn publish(
        &self,
        service: &mut StudyService,
        events: &mut Vec<StatusEvent>,
        status: &str,
        detail: &str,
        step: u8,
        preview: &str,
    )
        ensures
            text::views(final(events)@) == text::views(old(events)@).push(
                service::event(self.task_id@, status@, detail@, step, preview@, true, false, false),
            ),
            final(service)@ == (StudyServiceView { status: status@, ..old(service)@ }),
    {
        let sent = service.publish_status(
            self.task_id.as_str(),
            status,
            detail,
            step,
            preview,
            true,
            false,
            false,
        );
        let ghost before = text::views(events@);
        events.push(sent);
        assert(text::views(events@) =~= before.push(sent@));
    }

    /// What an event makes of the preparation, and the events to send about it.
    pub fn step(self, service: &mut StudyService, event: PrepareEvent) -> (r: (
        PrepareStep,
        Vec<StatusEvent>,
    ))
        requires
            fits(self.stage@, event@),
        ensures
            (r.0@, text::views(r.1@)) == prepare_step(self@, event@),
            final(service)@ == status_after(old(service)@, text::views(r.1@)),
    {
        match event {
            PrepareEvent::Recognised(question_text) => self.recognised(service, question_text),
            PrepareEvent::Retrieved(pieces) => self.retrieved(service, pieces),
            PrepareEvent::Answered(answers) => self.answered(service, answers),
            PrepareEvent::Named(name) => self.named(service, name),
        }
    }

    /// What the text of the questions makes of the preparation.
    fn recognised(self, service: &mut StudyService, question_text: String) -> (r: (
        PrepareStep,
        Vec<StatusEvent>,
    ))
        requires
            self.stage is Reading,
        ensures
            (r.0@, text::views(r.1@)) == prepare_step(
                self@,
                PrepareEventView::Recognised(question_text@),
            ),
            !(r.0 is Finish),
            final(service)@ == status_after(old(service)@, text::views(r.1@)),
    {
        proof {
            reveal_strlit("");
            assert(""@ =~= Seq::<char>::empty());
        }
        let mut events: Vec<StatusEvent> = Vec::new();
        assert(text::views(events@) =~= Seq::<StatusEventView>::empty());
        self.publish(service, &mut events, "拆题中", "正在把截图内容拆成多道题目", 2, "");
        assert(text::views(events@) =~= seq![splitting(self@.task_id)]);
        let split_questions = questions::split_questions(question_text.as_str());
        assert(split_questions@.len() == questions::questions_of(question_text@).len());
        if split_questions.len() == 0 {
            return (PrepareStep::Fail(StudyError::NoQuestion), events);
        }
        self.publish(service, &mut events, "检索课件中", "正在召回相关课件知识片段", 3, "");
        assert(text::views(events@) =~= seq![splitting(self@.task_id), searching(self@.task_id)]);
        let action = PrepareAction::Search(question_text.clone());
        let preparation = Preparation {
            task_id: self.task_id,
            settings: self.settings,
            request: self.request,
            stage: PrepareStage::Searching { question_text, split_questions },
        };
        (PrepareStep::Continue { preparation, action }, events)
    }

    /// What the pieces of the course material make of the preparation.
    fn retrieved(self, service: &mut StudyService, pieces: Vec<KnowledgeChunk>) -> (r: (
        PrepareStep,
        Vec<StatusEvent>,
    ))
        requires
            self.stage is Searching,
        ensures
            (r.0@, text::views(r.1@)) == prepare_step(
                self@,
                PrepareEventView::Retrieved(text::views(pieces@)),
            ),
            !(r.0 is Finish),
            final(service)@ == status_after(old(service)@, text::views(r.1@)),
    {
        proof {
            reveal_strlit("");
            assert(""@ =~= Seq::<char>::empty());
        }
        let best = db::query_similar_chunks(pieces, CONTEXT_PIECES);
        let context = build_context(&best);
        let mut events: Vec<StatusEvent> = Vec::new();
        assert(text::views(events@) =~= Seq::<StatusEventView>::empty());
        self.publish(service, &mut events, "快速求答中", "正在优先生成最终答案摘要", 4, "");
        assert(text::views(events@) =~= seq![answering(self@.task_id)]);
        match self.stage {
            PrepareStage::Searching { question_text, split_questions } => {
                let client = AiClient::new(self.settings);
                let solve = client.solve_quick_answers(&split_questions, context.as_str());
                let preparation = Preparation {
                    task_id: self.task_id,
                    settings: client.settings,
                    request: self.request,
                    stage: PrepareStage::Answering { split_questions, context },
                };
                (
                    PrepareStep::Continue {
                        preparation,
                        action: PrepareAction::AnswerQuickly(solve),
                    },
                    events,
                )
            },
            _ => (PrepareStep::Fail(StudyError::CourseNotFound), events),
        }
    }

    /// What the quick answers make of the preparation.
    fn answered(self, service: &mut StudyService, answers: Vec<QuickAnswer>) -> (r: (
        PrepareStep,
        Vec<StatusEvent>,
    ))
        requires
            self.stage is Answering,
        ensures
            (r.0@, text::views(r.1@)) == prepare_step(
                self@,
                PrepareEventView::Answered(text::views(answers@)),
            ),
            !(r.0 is Finish),
            final(service)@ == status_after(old(service)@, text::views(r.1@)),
    {
        let count: usize = match &self.stage {
            PrepareStage::Answering { split_questions, context } => split_questions.len(),
            _ => 0,
        };
        let preview = answers::build_quick_preview(&answers, count);
        let mut events: Vec<StatusEvent> = Vec::new();
        assert(text::views(events@) =~= Seq::<StatusEventView>::empty());
        self.publish(
            service,
            &mut events,
            "已拿到答案",
            "已得到答案摘要，可以继续截图；完整解析会在后台继续生成",
            4,
            preview.as_str(),
        );
        assert(text::views(events@) =~= seq![answered(self@.task_id, preview@)]);
        match self.stage {
            PrepareStage::Answering { split_questions, context } => {
                assert(text::views(split_questions@).len() == count);
                let action = PrepareAction::NameCourse(self.request.course_id.clone());
                let preparation = Preparation {
                    task_id: self.task_id,
                    settings: self.settings,
                    request: self.request,
                    stage: PrepareStage::Naming {
                        split_questions,
                        context,
                        quick_preview: preview,
                    },
                };
                (PrepareStep::Continue { preparation, action }, events)
            },
            _ => (PrepareStep::Fail(StudyError::CourseNotFound), events),
        }
    }

    /// What the name of the course makes of the preparation.
    fn named(self, service: &StudyService, name: Option<String>) -> (r: (
        PrepareStep,
        Vec<StatusEvent>,
    ))
        requires
            self.stage is Naming,
        ensures
            (r.0@, text::views(r.1@)) == prepare_step(
                self@,
                PrepareEventView::Named(text::view_opt(name)),
            ),
            r.1@.len() == 0,
    {
        let events: Vec<StatusEvent> = Vec::new();
        assert(text::views(events@) =~= Seq::<StatusEventView>::empty());
        let course_name = match db::course_name(name) {
            Ok(course_name) => course_name,
            Err(e) => {
                return (PrepareStep::Fail(e), events);
            },
        };
        let output_dir = service.output_dir(&self.settings);
        match self.stage {
            PrepareStage::Naming { split_questions, context, quick_preview } => (
                PrepareStep::Finish(
                    PreparedSolveJob {
                        task_id: self.task_id,
                        settings: self.settings,
                        output_dir,
                        course_name,
                        request: self.request,
                        split_questions,
                        context,
                        quick_preview,
                    },
                ),
                events,
            ),
            _ => (PrepareStep::Fail(StudyError::CourseNotFound), events),
        }
    }
}

impl StudyService {
    /// Begins a preparation under the given name of the task.
    pub fn begin_preparation(
        &mut self,
        task_id: String,
        settings: AppSettings,
        assignment: Assignment,
    ) -> (r: (PrepareStep, Vec<StatusEvent>))
        ensures
            (r.0@, text::views(r.1@)) == prepare_begin(task_id@, settings@, assignment),
            !(r.0 is Finish),
            final(self)@ == status_after(old(self)@, text::views(r.1@)),
    {
        proof {
            reveal_strlit("");
            assert(""@ =~= Seq::<char>::empty());
            text::lemma_blank(assignment.question_text@);
        }
        let first = self.publish_status(
            task_id.as_str(),
            assignment.initial_status.as_str(),
            assignment.initial_detail.as_str(),
            1,
            "",
            assignment.takeover_progress,
            false,
            false,
        );
        let ghost opening = first@;
        let mut events: Vec<StatusEvent> = Vec::new();
        events.push(first);
        assert(text::views(events@) =~= seq![opening]);
        let question_text = text::trimmed(assignment.question_text.as_str());
        let action = PrepareAction::ReadImage(assignment.screenshot_path.clone());
        let preparation = Preparation {
            task_id,
            settings,
            request: SolveRequest {
                course_id: assignment.course_id,
                screenshot_path: assignment.screenshot_path,
            },
            stage: PrepareStage::Reading,
        };
        assert(preparation@ == waiting(task_id@, settings@, assignment));
        if question_text.as_str().is_empty() {
            return (PrepareStep::Continue { preparation, action }, events);
        }
        let (step, mut later) = preparation.recognised(self, question_text);
        let ghost following = text::views(later@);
        assert(following.len() == later@.len());
        events.append(&mut later);
        assert(text::views(events@) =~= seq![opening] + following);
        (step, events)
    }

    /// Begins a preparation under a new name for the task.
    pub fn prepare_solve_job_from_text(&mut self, settings: AppSettings, assignment: Assignment)
        -> (r: (PrepareStep, Vec<StatusEvent>))
        ensures
            exists|task_id: Seq<char>|
                stamp::is_id(task_id) && (r.0@, text::views(r.1@)) == #[trigger] prepare_begin(
                    task_id,
                    settings@,
                    assignment,
                ),
            !(r.0 is Finish),
            final(self)@ == status_after(old(self)@, text::views(r.1@)),
    {
        let task_id = stamp::new_id();
        let ghost id = task_id@;
        let r = self.begin_preparation(task_id, settings, assignment);
        assert((r.0@, text::views(r.1@)) == prepare_begin(id, settings@, assignment));
        r
    }
}

/// The step of the last event that was sent before a stage.
pub open spec fn reached(stage: PrepareStageView) -> u8 {
    match stage {
        PrepareStageView::Reading => 1,
        PrepareStageView::Searching { .. } => 3,
        PrepareStageView::Answering { .. } => 4,
        PrepareStageView::Naming { .. } => 4,
    }
}

/// The place of a stage in the order of stages.
pub open spec fn stage_rank(stage: PrepareStageView) -> int {
    match stage {
        PrepareStageView::Reading => 0,
        PrepareStageView::Searching { .. } => 1,
        PrepareStageView::Answering { .. } => 2,
        PrepareStageView::Naming { .. } => 3,
    }
}

/// The progress that is shown never goes back: the events of a step come in the order of
/// their steps, from the one that was reached on, and end with the one that the next
/// stage has reached. No event of a preparation ends the task.
pub proof fn progress_never_goes_back(p: PreparationView, event: PrepareEventView, i: int, j: int)
    requires
        fits(p.stage, event),
        0 <= i <= j < prepare_step(p, event).1.len(),
    ensures
        ({
            let (step, events) = prepare_step(p, event);
            &&& reached(p.stage) <= events[i].current_step <= events[j].current_step
            &&& events[j].current_step <= events[j].total_steps
            &&& events[i].task_id == p.task_id
            &&& !events[i].is_terminal && !events[i].is_error
            &&& step matches PrepareStepView::Continue { preparation, action }
                ==> events.last().current_step == reached(preparation.stage)
        }),
{
}

/// A preparation ends after four steps at the most: each step leads to a later stage, and
/// keeps the task, the settings and the request.
pub proof fn preparations_end(p: PreparationView, event: PrepareEventView)
    requires
        fits(p.stage, event),
    ensures
        prepare_step(p, event).0 matches PrepareStepView::Continue { preparation, action }
            ==> stage_rank(preparation.stage) == stage_rank(p.stage) + 1 && preparation.task_id
            == p.task_id && preparation.settings == p.settings && preparation.request == p.request,
        stage_rank(p.stage) == 3 ==> !(prepare_step(p, event).0 is Continue),
{
}

/// The preparation that a step leads to.
pub open spec fn after(p: PreparationView, event: PrepareEventView) -> PreparationView {
    prepare_step(p, event).0->preparation
}

/// A whole preparation: from a text with questions, the pieces of the course material, the
/// quick answers and the name of the course comes the job with just these questions, the
/// best pieces as their context, and the preview of the answers.
pub proof fn preparation_prepares(
    p: PreparationView,
    question_text: Seq<char>,
    pieces: Seq<KnowledgeChunkView>,
    answers: Seq<QuickAnswerView>,
    course_name: Seq<char>,
)
    requires
        p.stage is Reading,
        questions::questions_of(question_text).len() > 0,
    ensures
        ({
            let searching = after(p, PrepareEventView::Recognised(question_text));
            let answering = after(searching, PrepareEventView::Retrieved(pieces));
            let naming = after(answering, PrepareEventView::Answered(answers));
            let split_questions = questions::questions_of(question_text);
            fits(searching.stage, PrepareEventView::Retrieved(pieces)) && fits(
                answering.stage,
                PrepareEventView::Answered(answers),
            ) && fits(naming.stage, PrepareEventView::Named(Some(course_name))) && prepare_step(
                naming,
                PrepareEventView::Named(Some(course_name)),
            ).0 == PrepareStepView::Finish(
                PreparedSolveJobView {
                    task_id: p.task_id,
                    settings: p.settings,
                    output_dir: service::output_dir_of(p.settings.output_dir),
                    course_name,
                    request: p.request,
                    split_questions,
                    context: context_of(best_pieces(pieces)),
                    quick_preview: quick_preview(answers, split_questions.len()),
                },
            )
        }),
{
}

/// How far the solving of a prepared job has come.
#[derive(Debug)]
pub enum FinalStage {
    /// Full answers are asked for.
    Solving,
    /// A name for the document is looked for.
    Placing { items: Vec<SolvedQuestion>, answer_preview: String, file_stem: String },
    /// The document and the result are written.
    Writing { answer_preview: String },
}

/// The view of a stage.
pub enum FinalStageView {
    Solving,
    Placing {
        items: Seq<SolvedQuestionView>,
        answer_preview: Seq<char>,
        file_stem: Seq<char>,
    },
    Writing { answer_preview: Seq<char> },
}

impl View for FinalStage {
    type V = FinalStageView;

    open spec fn view(&self) -> FinalStageView {
        match *self {
            FinalStage::Solving => FinalStageView::Solving,
            FinalStage::Placing { items, answer_preview, file_stem } => FinalStageView::Placing {
                items: text::views(items@),
                answer_preview: answer_preview@,
                file_stem: file_stem@,
            },
            FinalStage::Writing { answer_preview } => FinalStageView::Writing {
                answer_preview: answer_preview@,
            },
        }
    }
}

/// The solving of a prepared job.
#[derive(Debug)]
pub struct Finalization {
    pub job: PreparedSolveJob,
    pub stage: FinalStage,
}

/// The event when full answers are asked for.
pub open spec fn solving_fully(job: PreparedSolveJobView) -> StatusEventView {
    service::event(
        job.task_id,
        "完整求答中"@,
        "正在后台生成中文翻译、解析和完整答案；你现在可以继续截图下一题"@,
        5,
        job.quick_preview,
        false,
        false,
        false,
    )
}

/// The event when the document is written.
pub open spec fn writing(task_id: Seq<char>, preview: Seq<char>) -> StatusEventView {
    service::event(
        task_id,
        "写入文档中"@,
        "后台正在写入完整解析文档"@,
        6,
        preview,
        false,
        false,
        false,
    )
}

/// The event when all is done.
pub open spec fn completed(task_id: Seq<char>, preview: Seq<char>) -> StatusEventView {
    service::event(
        task_id,
        "已完成"@,
        "后台完整解析和文档已生成，你可以继续截图下一题"@,
        6,
        preview,
        false,
        true,
        false,
    )
}

/// The preview of a result.
pub open spec fn preview_of(quick_preview: Seq<char>, items: Seq<SolvedQuestionView>) -> Seq<char> {
    if text::is_blank(quick_preview) {
        text::join(answers::answer_entries(items), "  "@)
    } else {
        quick_preview
    }
}

/// The result of a job, but for its identifier and its time.
pub open spec fn result_of(
    job: PreparedSolveJobView,
    items: Seq<SolvedQuestionView>,
    answer_preview: Seq<char>,
    file_stem: Seq<char>,
    output_path: Seq<char>,
    confidence: Score,
    id: Seq<char>,
    created_at: Seq<char>,
) -> SolveResultView {
    SolveResultView {
        id,
        course_id: job.request.course_id,
        item_count: items.len() as usize,
        items,
        answer_preview,
        confidence,
        low_confidence: answers::any_low(items),
        suggested_file_stem: file_stem,
        output_path,
        created_at,
    }
}

impl Finalization {
    /// Begins to solve a prepared job in full: the request to make, and the event to send.
    pub fn finalize_solve_job(service: &mut StudyService, job: PreparedSolveJob) -> (r: (
        Finalization,
        FullSolve,
        StatusEvent,
    ))
        ensures
            r.0.job@ == job@,
            r.0.stage is Solving,
            r.1.model@ == job.settings.answer_model@,
            r.1.rendered_questions@ == ai::rendered(text::views(job.split_questions@)),
            r.1.context@ == job.context@,
            r.2@ == solving_fully(job@),
            final(service)@ == status_after(old(service)@, seq![solving_fully(job@)]),
    {
        let sent = service.publish_status(
            job.task_id.as_str(),
            "完整求答中",
            "正在后台生成中文翻译、解析和完整答案；你现在可以继续截图下一题",
            5,
            job.quick_preview.as_str(),
            false,
            false,
            false,
        );
        let client = AiClient::new(job.settings.clone());
        let solve = client.solve_questions(&job.split_questions, job.context.as_str());
        (Finalization { job, stage: FinalStage::Solving }, solve, sent)
    }

    /// What the full answers make of the job: the search for a name for its document; an
    /// error where there is no answer.
    pub fn solved(self, questions: Vec<AiSolvedQuestion>) -> (r: Result<
        (Finalization, OutputSearch),
        StudyError,
    >)
        requires
            self.stage is Solving,
        ensures
            r is Err <==> questions@.len() == 0,
            r matches Err(e) ==> e == StudyError::NoSolvedQuestion,
            r matches Ok((next, search)) ==> next.job@ == self.job@ && search.attempt == 1 && (
            next.stage@ matches FinalStageView::Placing { items, answer_preview, file_stem }
                && items == answers::solved_items(text::views(questions@)) && answer_preview
                == preview_of(self.job.quick_preview@, items) && answers::is_stem_for(
                answers::question_texts(items),
                file_stem,
            ) && answers::is_safe_stem(file_stem, search.stem@)),
    {
        if questions.len() == 0 {
            return Err(StudyError::NoSolvedQuestion);
        }
        let items = answers::number_answers(questions);
        let answer_preview = answers::result_preview(self.job.quick_preview.as_str(), &items);
        let file_stem = answers::suggest_file_stem(&items);
        let search = answers::ensure_unique_output_path(file_stem.as_str());
        Ok(
            (
                Finalization {
                    job: self.job,
                    stage: FinalStage::Placing { items, answer_preview, file_stem },
                },
                search,
            ),
        )
    }

    /// What the path of the document makes of the job, given the mean of the confidences:
    /// the result to write, and the event to send.
    pub fn placed(self, service: &mut StudyService, output_path: String, confidence: Score) -> (r: (
        Finalization,
        SolveResult,
        StatusEvent,
    ))
        requires
            self.stage is Placing,
        ensures
            self.stage@ matches FinalStageView::Placing { items, answer_preview, file_stem } ==> {
                &&& r.0.job@ == self.job@
                &&& r.0.stage@ == (FinalStageView::Writing { answer_preview })
                &&& stamp::is_id(r.1.id@)
                &&& stamp::is_rfc3339(r.1.created_at@)
                &&& r.1@ == result_of(
                    self.job@,
                    items,
                    answer_preview,
                    file_stem,
                    output_path@,
                    confidence,
                    r.1.id@,
                    r.1.created_at@,
                )
                &&& r.2@ == writing(self.job.task_id@, answer_preview)
                &&& final(service)@ == status_after(
                    old(service)@,
                    seq![writing(self.job.task_id@, answer_preview)],
                )
            },
    {
        let mut items: Vec<SolvedQuestion> = Vec::new();
        let mut answer_preview = String::new();
        let mut file_stem = String::new();
        match self.stage {
            FinalStage::Placing { items: found, answer_preview: preview, file_stem: stem } => {
                items = found;
                answer_preview = preview;
                file_stem = stem;
            },
            _ => {},
        }
        let low_confidence = answers::any_low_confidence(&items);
        let result = SolveResult {
            id: stamp::new_id(),
            course_id: self.job.request.course_id.clone(),
            item_count: items.len(),
            items,
            answer_preview: answer_preview.clone(),
            confidence,
            low_confidence,
            suggested_file_stem: file_stem,
            output_path,
            created_at: stamp::now_text(),
        };
        let sent = service.publish_status(
            self.job.task_id.as_str(),
            "写入文档中",
            "后台正在写入完整解析文档",
            6,
            answer_preview.as_str(),
            false,
            false,
            false,
        );
        (Finalization { job: self.job, stage: FinalStage::Writing { answer_preview } }, result, sent)
    }

    /// The event to send when the document and the result are written.
    pub fn written(self, service: &mut StudyService) -> (r: StatusEvent)
        requires
            self.stage is Writing,
        ensures
            self.stage@ matches FinalStageView::Writing { answer_preview } ==> r@ == completed(
                self.job.task_id@,
                answer_preview,
            ) && final(service)@ == status_after(
                old(service)@,
                seq![completed(self.job.task_id@, answer_preview)],
            ),
    {
        let answer_preview = match self.stage {
            FinalStage::Writing { answer_preview } => answer_preview,
            _ => String::new(),
        };
        service.publish_status(
            self.job.task_id.as_str(),
            "已完成",
            "后台完整解析和文档已生成，你可以继续截图下一题",
            6,
            answer_preview.as_str(),
            false,
            true,
            false,
        )
    }
}

/// The event for a preparation that failed. The status of the service stays as it is.
pub open spec fn preparation_failed(error: Seq<char>) -> StatusEventView {
    service::event(Seq::empty(), "失败"@, error, 6, Seq::empty(), true, true, true)
}

/// The event for a job that failed.
pub open spec fn finalization_failed(error: Seq<char>) -> StatusEventView {
    service::event(
        Seq::empty(),
        "失败"@,
        "后台完整解析失败："@ + error,
        6,
        Seq::empty(),
        false,
        true,
        true,
    )
}

/// The event to send for a preparation that failed.
pub fn preparation_failure(error: &str) -> (r: StatusEvent)
    ensures
        r@ == preparation_failed(error@),
{
    StatusEvent {
        task_id: String::new(),
        status: "失败".to_owned(),
        detail: error.to_owned(),
        current_step: 6,
        total_steps: service::TOTAL_CAPTURE_STEPS,
        answer_preview: String::new(),
        takeover_progress: true,
        is_terminal: true,
        is_error: true,
    }
}

/// The event to send for a job that failed.
pub fn finalization_failure(service: &mut StudyService, error: &str) -> (r: StatusEvent)
    ensures
        r@ == finalization_failed(error@),
        final(service)@ == status_after(old(service)@, seq![finalization_failed(error@)]),
{
    proof {
        reveal_strlit("");
        assert(""@ =~= Seq::<char>::empty());
    }
    let mut detail = "后台完整解析失败：".to_owned();
    detail.append(error);
    service.publish_status("", "失败", detail.as_str(), 6, "", false, true, true)
}

/// The events of a job come in the order of their steps behind those of its preparation,
/// and only the last one ends the task, as an event for a failure does too.
pub proof fn jobs_end_once(job: PreparedSolveJobView, preview: Seq<char>, error: Seq<char>)
    ensures
        reached(
            PrepareStageView::Naming {
                split_questions: job.split_questions,
                context: job.context,
                quick_preview: job.quick_preview,
            },
        ) < solving_fully(job).current_step < writing(job.task_id, preview).current_step
            <= completed(job.task_id, preview).current_step <= service::TOTAL_CAPTURE_STEPS,
        !solving_fully(job).is_terminal,
        !writing(job.task_id, preview).is_terminal,
        completed(job.task_id, preview).is_terminal && !completed(job.task_id, preview).is_error,
        preparation_failed(error).is_terminal && preparation_failed(error).is_error,
        finalization_failed(error).is_terminal && finalization_failed(error).is_error,
{
}

/// A result that was made of full answers can be written and read back unchanged: it has an
/// item for each answer, in their order.
pub proof fn results_survive_storing(
    job: PreparedSolveJobView,
    questions: Seq<AiSolvedQuestionView>,
    answer_preview: Seq<char>,
    file_stem: Seq<char>,
    output_path: Seq<char>,
    confidence: Score,
    id: Seq<char>,
    created_at: Seq<char>,
)
    requires
        0 < questions.len() <= usize::MAX,
    ensures
        ({
            let result = result_of(
                job,
                answers::solved_items(questions),
                answer_preview,
                file_stem,
                output_path,
                confidence,
                id,
                created_at,
            );
            db::result_of(db::row_of(result)) == result && result.item_count == questions.len()
        }),
{
    let result = result_of(
        job,
        answers::solved_items(questions),
        answer_preview,
        file_stem,
        output_path,
        confidence,
        id,
        created_at,
    );
    db::results_read_back(result);
}

/// Each piece of the course material is given by itself: one piece alone as the name of its
/// own document in brackets and its content behind it, and several ones as the first of them
/// and the others, with a line between.
pub proof fn pieces_keep_their_documents(
    first: Seq<KnowledgeChunkView>,
    others: Seq<KnowledgeChunkView>,
)
    ensures
        first.len() == 0 ==> context_of(first) == Seq::<char>::empty(),
        first.len() == 1 ==> context_of(first) == "["@ + first[0].source_file + "]\n"@
            + first[0].content,
        first.len() > 0 && others.len() > 0 ==> context_of(first + others) == context_of(first)
            + "\n\n---\n\n"@ + context_of(others),
{
    let shown = |p: KnowledgeChunkView| "["@ + p.source_file + "]\n"@ + p.content;
    let a = first.map_values(shown);
    let b = others.map_values(shown);
    assert((first + others).map_values(shown) =~= a + b);
    text::joining_is_by_parts(a, b, "\n\n---\n\n"@);
}

/// The six best pieces go with the questions, or all of them where there are fewer.
pub proof fn six_pieces_go_with_the_questions(pieces: Seq<KnowledgeChunkView>)
    requires
        forall|k: int| 0 <= k < pieces.len() ==> db::has_number(#[trigger] pieces[k]),
    ensures
        pieces.len() >= 6 ==> best_pieces(pieces).len() == 6,
        pieces.len() < 6 ==> best_pieces(pieces).len() == pieces.len(),
        forall|i: int|
            0 <= i < best_pieces(pieces).len() ==> #[trigger] best_pieces(pieces)[i] == db::ranked(
                pieces,
            )[i],
        db::ranked(pieces).to_multiset() == pieces.to_multiset(),
{
    assert forall|k: int| 0 <= k < pieces.len() implies ((
    #[trigger] pieces[k]).similarity matches Some(s) ==> !s.is_nan()) by {
        assert(db::has_number(pieces[k]));
    }
    db::ranking_ranks(pieces, 0);
}

/// A text that was copied is cut into questions without the white space around it, and the
/// screenshot is not read; without a text the screenshot is read.
pub proof fn copied_text_goes_before_the_screenshot(
    task_id: Seq<char>,
    settings: SettingsView,
    assignment: Assignment,
)
    ensures
        ({
            let (step, events) = prepare_begin(task_id, settings, assignment);
            let p = waiting(task_id, settings, assignment);
            &&& events.len() > 0
            &&& events[0].status == assignment.initial_status@
            &&& events[0].detail == assignment.initial_detail@
            &&& events[0].task_id == task_id && events[0].current_step == 1
            &&& events[0].takeover_progress == assignment.takeover_progress
            &&& p.task_id == task_id && p.settings == settings && p.stage is Reading
            &&& p.request.course_id == assignment.course_id@
            &&& p.request.screenshot_path == assignment.screenshot_path@
            &&& text::is_blank(assignment.question_text@) ==> step == (PrepareStepView::Continue {
                preparation: p,
                action: PrepareActionView::ReadImage(assignment.screenshot_path@),
            })
            &&& !text::is_blank(assignment.question_text@) ==> step == prepare_step(
                p,
                PrepareEventView::Recognised(text::trim(assignment.question_text@)),
            ).0
        }),
{
}

/// With the text of the questions the course material is searched; with its best pieces
/// quick answers are asked for, from the two models of the settings and with the questions
/// numbered; with the answers the name of the course is looked up. Each time what was found
/// before is kept.
pub proof fn preparations_hand_on_what_was_found(
    p: PreparationView,
    question_text: Seq<char>,
    split_questions: Seq<Seq<char>>,
    pieces: Seq<KnowledgeChunkView>,
    context: Seq<char>,
    answers: Seq<QuickAnswerView>,
)
    ensures
        p.stage is Reading && questions::questions_of(question_text).len() > 0 ==> prepare_step(
            p,
            PrepareEventView::Recognised(question_text),
        ).0 == (PrepareStepView::Continue {
            preparation: PreparationView {
                task_id: p.task_id,
                settings: p.settings,
                request: p.request,
                stage: PrepareStageView::Searching {
                    question_text,
                    split_questions: questions::questions_of(question_text),
                },
            },
            action: PrepareActionView::Search(question_text),
        }),
        p.stage == (PrepareStageView::Searching { question_text, split_questions })
            ==> prepare_step(p, PrepareEventView::Retrieved(pieces)).0 == (
        PrepareStepView::Continue {
            preparation: PreparationView {
                task_id: p.task_id,
                settings: p.settings,
                request: p.request,
                stage: PrepareStageView::Answering {
                    split_questions,
                    context: context_of(best_pieces(pieces)),
                },
            },
            action: PrepareActionView::AnswerQuickly {
                fast_model: p.settings.fast_answer_model,
                answer_model: p.settings.answer_model,
                rendered_questions: ai::rendered(split_questions),
                context: context_of(best_pieces(pieces)),
            },
        }),
        p.stage == (PrepareStageView::Answering { split_questions, context }) ==> {
            let (step, events) = prepare_step(p, PrepareEventView::Answered(answers));
            &&& step matches PrepareStepView::Continue { preparation, action }
            &&& action == PrepareActionView::NameCourse(p.request.course_id)
            &&& preparation.stage matches PrepareStageView::Naming {
                split_questions: kept,
                context: kept_context,
                quick_preview: preview,
            }
            &&& kept == split_questions && kept_context == context
            &&& preview == answers::preview_given(
                answers::quick_entries(answers),
                split_questions.len(),
            )
            &&& events.len() == 1 && events[0].answer_preview == preview
        },
        prepare_step(
            PreparationView {
                stage: PrepareStageView::Naming {
                    split_questions,
                    context,
                    quick_preview: question_text,
                },
                ..p
            },
            PrepareEventView::Named(None),
        ).0 == PrepareStepView::Fail(StudyError::CourseNotFound),
{
}

/// A result holds what its job came to, each under its own name: it counts its items, and it
/// needs a review where one of them does.
pub proof fn results_hold_what_was_solved(
    job: PreparedSolveJobView,
    items: Seq<SolvedQuestionView>,
    answer_preview: Seq<char>,
    file_stem: Seq<char>,
    output_path: Seq<char>,
    confidence: Score,
    id: Seq<char>,
    created_at: Seq<char>,
)
    requires
        items.len() <= usize::MAX,
    ensures
        ({
            let r = result_of(
                job,
                items,
                answer_preview,
                file_stem,
                output_path,
                confidence,
                id,
                created_at,
            );
            &&& r.id == id && r.created_at == created_at
            &&& r.course_id == job.request.course_id
            &&& r.items == items && r.item_count == items.len()
            &&& r.answer_preview == answer_preview && r.confidence == confidence
            &&& r.suggested_file_stem == file_stem && r.output_path == output_path
            &&& (exists|i: int| 0 <= i < items.len() && (#[trigger] items[i]).low_confidence)
                <==> r.low_confidence
        }),
{
}

/// A result shows the quick answers, and where there are none its own.
pub proof fn results_show_the_quick_answers(
    quick_preview: Seq<char>,
    items: Seq<SolvedQuestionView>,
)
    ensures
        !text::is_blank(quick_preview) ==> preview_of(quick_preview, items) == quick_preview,
        text::is_blank(quick_preview) ==> preview_of(quick_preview, items) == text::join(
            answers::answer_entries(items),
            "  "@,
        ),
{
}

/// The events of a job are those of its task and show its answers; the event for a failure
/// shows the error.
pub proof fn events_show_answers_and_errors(
    job: PreparedSolveJobView,
    task_id: Seq<char>,
    preview: Seq<char>,
    error: Seq<char>,
)
    ensures
        solving_fully(job).task_id == job.task_id,
        solving_fully(job).answer_preview == job.quick_preview,
        solving_fully(job).current_step == 5,
        writing(task_id, preview).task_id == task_id,
        writing(task_id, preview).answer_preview == preview,
        writing(task_id, preview).current_step == 6,
        completed(task_id, preview).task_id == task_id,
        completed(task_id, preview).answer_preview == preview,
        completed(task_id, preview).current_step == 6,
        answered(task_id, preview).task_id == task_id,
        answered(task_id, preview).answer_preview == preview,
        answered(task_id, preview).current_step == 4,
        splitting(task_id).current_step == 2,
        searching(task_id).current_step == 3,
        answering(task_id).current_step == 4,
        preparation_failed(error).detail == error,
        text::ends_with(finalization_failed(error).detail, error),
        preparation_failed(error).takeover_progress && !finalization_failed(error).takeover_progress,
{
    let d = finalization_failed(error).detail;
    assert(d.skip(d.len() - error.len()) =~= error);
}

/// The status of the service is that of the last event, and nothing else of it changes.
pub proof fn the_last_event_sets_the_status(
    before: StudyServiceView,
    events: Seq<StatusEventView>,
    last: StatusEventView,
)
    ensures
        status_after(before, Seq::empty()) == before,
        status_after(before, events.push(last)).status == last.status,
        status_after(before, events.push(last)).registered_capture_shortcut
            == before.registered_capture_shortcut,
        status_after(before, events.push(last)).registered_text_shortcut
            == before.registered_text_shortcut,
{
}

/// What is shown of a job is what it holds, each field under its own name.
pub proof fn views_show_the_job(job: PreparedSolveJob, preparation: Preparation)
    ensures
        job@.task_id == job.task_id@ && job@.settings == job.settings@ && job@.output_dir
            == job.output_dir@ && job@.course_name == job.course_name@ && job@.request
            == job.request@ && job@.context == job.context@ && job@.quick_preview
            == job.quick_preview@,
        job@.split_questions.len() == job.split_questions@.len(),
        forall|i: int|
            0 <= i < job.split_questions@.len() ==> (#[trigger] job.split_questions@[i])@
                == job@.split_questions[i],
        preparation@.task_id == preparation.task_id@ && preparation@.settings
            == preparation.settings@ && preparation@.request == preparation.request@
            && preparation@.stage == preparation.stage@,
{
}

/// Each step is announced by its own status, and takes over the progress that is shown until
/// the quick answers are there; what goes on behind them does not.
pub proof fn each_step_has_its_own_status(
    job: PreparedSolveJobView,
    task_id: Seq<char>,
    preview: Seq<char>,
    error: Seq<char>,
)
    ensures
        splitting(task_id).status == "拆题中"@ && splitting(task_id).takeover_progress,
        searching(task_id).status == "检索课件中"@ && searching(task_id).takeover_progress,
        answering(task_id).status == "快速求答中"@ && answering(task_id).takeover_progress,
        answered(task_id, preview).status == "已拿到答案"@,
        answered(task_id, preview).takeover_progress,
        solving_fully(job).status == "完整求答中"@ && !solving_fully(job).takeover_progress,
        writing(task_id, preview).status == "写入文档中"@,
        !writing(task_id, preview).takeover_progress,
        completed(task_id, preview).status == "已完成"@,
        !completed(task_id, preview).takeover_progress,
        preparation_failed(error).status == finalization_failed(error).status,
{
}

} // verus!
