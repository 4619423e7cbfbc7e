use flnder::ai::QuickAnswer;
use flnder::capture::{
    capture_file_name, capture_file_name_at, capture_to_temp, capture_to_temp_windows,
    clipboard_error_text, clipboard_script, clipboard_text, image_saved, menu_action,
    read_clipboard_text, save_windows_clipboard_image, tray_click, CaptureNext, CaptureStage,
    MenuAction, WindowAction,
};
use flnder::db::{row_to_result, save_result, upsert_course, CourseRow, CourseWrite, ResultRow};
use flnder::error::StudyError;
use flnder::models::{
    AiSolvedQuestion, AppSettings, ImportRequest, KnowledgeChunk, SaveSettingsInput, Score,
    SolveRequest,
};
use flnder::service::{
    chunk_rows, shortcut_trigger, Import, ImportAction, ImportEvent, OutputDir, ShortcutKind,
    StudyService, RECENT_RESULTS,
};
use flnder::settings::StoredSettings;
use flnder::solving::{
    active_course, build_context, finalization_failure, preparation_failure, Finalization,
    PrepareAction, PrepareEvent, PrepareStep, Preparation, PreparedSolveJob,
};

fn s(x: &str) -> String {
    x.to_string()
}

fn chunk(content: &str, similarity: f32) -> KnowledgeChunk {
    KnowledgeChunk {
        id: s("i"),
        course_id: s("c"),
        document_id: s("d"),
        ordinal: 0,
        content: s(content),
        source_file: s("f.txt"),
        similarity: Some(Score { bits: similarity.to_bits() }),
    }
}

fn ai_question(question: &str) -> AiSolvedQuestion {
    AiSolvedQuestion {
        question: s(question),
        question_zh: s("zh"),
        answer: s("b"),
        answer_brief: s(""),
        explanation: s("e"),
        confidence: Score { bits: 0 },
        low_confidence: true,
        sources: vec![],
    }
}

fn goes_on(step: PrepareStep) -> (Preparation, PrepareAction) {
    match step {
        PrepareStep::Continue { preparation, action } => (preparation, action),
        _ => panic!("ended"),
    }
}

fn prepared(service: &mut StudyService) -> PreparedSolveJob {
    let assignment = StudyService::clipboard_and_prepare(s("c"), s(" 1. a\n2. b "));
    let (step, events) = service.begin_preparation(s("task"), AppSettings::defaults(), assignment);
    assert_eq!(events.len(), 3);
    let (p, action) = goes_on(step);
    match action {
        PrepareAction::Search(text) => assert_eq!(text, "1. a\n2. b"),
        _ => panic!("no search"),
    }
    let pieces = vec![chunk("low", 0.1), chunk("high", 0.9)];
    let (step, events) = p.step(service, PrepareEvent::Retrieved(pieces));
    assert_eq!(events.len(), 1);
    assert_eq!(events[0].status, "快速求答中");
    assert_eq!(events[0].current_step, 4);
    let (p, action) = goes_on(step);
    match action {
        PrepareAction::AnswerQuickly(solve) => {
            assert_eq!(solve.rendered_questions, "1. 1. a\n\n2. 2. b");
            assert_eq!(solve.context, "[f.txt]\nhigh\n\n---\n\n[f.txt]\nlow");
            assert_eq!(solve.fast_model, "Qwen/Qwen3-32B");
        }
        _ => panic!("no question"),
    }
    let answers = vec![QuickAnswer { question: s("1. a"), answer_brief: s("A") }];
    let (step, events) = p.step(service, PrepareEvent::Answered(answers));
    assert_eq!(events.len(), 1);
    assert_eq!(events[0].status, "已拿到答案");
    assert_eq!(events[0].answer_preview, "1.A");
    assert!(events[0].takeover_progress && !events[0].is_terminal);
    let (p, action) = goes_on(step);
    match action {
        PrepareAction::NameCourse(id) => assert_eq!(id, "c"),
        _ => panic!("no name"),
    }
    let (step, events) = p.step(service, PrepareEvent::Named(Some(s("Maths"))));
    assert!(events.is_empty());
    match step {
        PrepareStep::Finish(job) => job,
        _ => panic!("not prepared"),
    }
}

#[test]
fn a_service_starts_idle() {
    let service = StudyService::new();
    assert_eq!(service.status, "Idle");
    assert!(service.registered_capture_shortcut.is_none());
    assert!(service.registered_text_shortcut.is_none());
}

#[test]
fn settings_are_loaded_and_saved() {
    let service = StudyService::new();
    assert!(service.load_settings(StoredSettings::Missing).1);
    let input = SaveSettingsInput {
        api_base: s("'b'"),
        api_key: s("k"),
        vision_model: s(""),
        fast_answer_model: s(""),
        answer_model: s(""),
        embedding_model: s(""),
        output_dir: s(""),
        shortcut: s(""),
        text_shortcut: s(""),
        active_course_id: None,
    };
    let mut stored = AppSettings::defaults();
    stored.active_course_id = Some(s("c"));
    let saved = service.save_settings(StoredSettings::Stored(stored), input);
    assert_eq!(saved.api_base, "b");
    assert_eq!(saved.active_course_id, Some(s("c")));
}

#[test]
fn documents_go_where_the_settings_say() {
    let service = StudyService::new();
    let mut settings = AppSettings::defaults();
    assert!(matches!(service.output_dir(&settings), OutputDir::Exports));
    settings.output_dir = s(" ");
    assert!(matches!(service.output_dir(&settings), OutputDir::Exports));
    settings.output_dir = s(" /x");
    match service.output_dir(&settings) {
        OutputDir::Chosen(dir) => assert_eq!(dir, " /x"),
        OutputDir::Exports => panic!("not chosen"),
    }
}

#[test]
fn the_dashboard_shows_courses_and_results() {
    let service = StudyService::new();
    let mut settings = AppSettings::defaults();
    settings.active_course_id = Some(s("a"));
    let course = CourseRow {
        id: s("a"),
        name: s("n"),
        updated_at: s("u"),
        document_count: 1,
        chunk_count: 1,
    };
    let row = |id: &str| ResultRow {
        id: s(id),
        course_id: s("a"),
        question: s("q"),
        question_zh: s("z"),
        answer: s("a"),
        explanation: s("e"),
        sources: None,
        items: None,
        answer_preview: s("p"),
        confidence: Score { bits: 0 },
        low_confidence: 0,
        suggested_file_stem: s("f"),
        output_path: s("o"),
        created_at: s("t"),
    };
    let d = service.load_dashboard(settings, vec![course], vec![row("1"), row("2")]);
    assert_eq!(d.status, "Idle");
    assert!(d.courses[0].is_active);
    assert_eq!(d.recent_results.len(), 2);
    assert_eq!(d.recent_results[0].id, "1");
    assert_eq!(d.recent_results[1].items[0].answer_brief, "a");
    assert_eq!(d.settings.active_course_id, Some(s("a")));
    assert_eq!(RECENT_RESULTS, 12);
}

#[test]
fn shortcuts_are_unregistered_once() {
    let mut service = StudyService::new();
    let plan = service.refresh_shortcuts(" Ctrl+1 ", "");
    assert!(plan.unregister.is_empty());
    assert_eq!(plan.capture, Some(s("Ctrl+1")));
    assert_eq!(plan.text, None);
    service.shortcut_registered(ShortcutKind::Capture, s("Ctrl+1"));
    service.shortcut_registered(ShortcutKind::Text, s("Ctrl+2"));
    let plan = service.refresh_shortcuts("a", "b");
    assert_eq!(plan.unregister, vec![s("Ctrl+1"), s("Ctrl+2")]);
    assert_eq!(plan.text, Some(s("b")));
    assert!(service.refresh_shortcuts("a", "b").unregister.is_empty());
    assert_eq!(shortcut_trigger(" \t"), None);
}

#[test]
fn imports_need_a_name_and_a_document() {
    let mut service = StudyService::new();
    let request = |name: &str, paths: &[&str]| ImportRequest {
        course_name: s(name),
        paths: paths.iter().map(|p| s(p)).collect(),
    };
    assert_eq!(
        service.import_materials(&request(" ", &["a"])),
        Err(StudyError::CourseNameRequired)
    );
    assert_eq!(service.import_materials(&request("n", &[])), Err(StudyError::NoDocument));
    assert_eq!(service.status, "Idle");
    assert_eq!(service.import_materials(&request(" n ", &["a", "b"])), Ok(s("n")));
    assert_eq!(service.status, "Importing 2 documents…");
}

#[test]
fn imports_are_counted() {
    let mut service = StudyService::new();
    let mut import = Import::starting(s("c"), vec![s("a"), s("b"), s("d")]);
    match import.action() {
        ImportAction::Read(path) => assert_eq!(path, "a"),
        _ => panic!("not read"),
    }
    let new = |text: &str| ImportEvent::New { document_id: s("i"), file_name: s("f"), text: s(text) };
    match import.step(new("x\n\ny")) {
        ImportAction::Write(rows) => {
            assert_eq!(rows.len(), 1);
            assert_eq!(rows[0].content, "x\n\ny");
            assert_eq!(rows[0].course_id, "c");
            assert_eq!(rows[0].document_id, "i");
        }
        _ => panic!("not written"),
    }
    match import.step(ImportEvent::Written) {
        ImportAction::Read(path) => assert_eq!(path, "b"),
        _ => panic!("not read"),
    }
    match import.step(ImportEvent::Known) {
        ImportAction::Read(path) => assert_eq!(path, "d"),
        _ => panic!("not read"),
    }
    match import.step(new("")) {
        ImportAction::Write(rows) => assert!(rows.is_empty()),
        _ => panic!("not written"),
    }
    assert!(matches!(import.step(ImportEvent::Written), ImportAction::Finish));
    let response = service.import_finished(import);
    assert_eq!(response.course_id, "c");
    assert_eq!(response.imported_documents, 2);
    assert_eq!(response.imported_chunks, 1);
    assert_eq!(service.status, "Imported 2 documents");
}

#[test]
fn an_import_of_known_documents_adds_nothing() {
    let (first, _) = upsert_course("Maths", None);
    let (again, write) = upsert_course("Maths", Some(first.clone()));
    assert_eq!(again, first);
    assert!(matches!(write, CourseWrite::Touch { .. }));
    let mut import = Import::starting(again, vec![s("a"), s("b")]);
    assert!(matches!(import.action(), ImportAction::Read(_)));
    match import.step(ImportEvent::Known) {
        ImportAction::Read(path) => assert_eq!(path, "b"),
        _ => panic!("not read"),
    }
    assert!(matches!(import.step(ImportEvent::Known), ImportAction::Finish));
    let mut service = StudyService::new();
    let response = service.import_finished(import);
    assert_eq!(response.course_id, first);
    assert_eq!(response.imported_documents, 0);
    assert_eq!(response.imported_chunks, 0);
    assert_eq!(service.status, "Imported 0 documents");
}

#[test]
fn the_pieces_of_a_document_become_rows() {
    let long = format!("{}\n\n{}", "a".repeat(1000), "b".repeat(1000));
    let rows = chunk_rows("c", "d", "f.txt", &long);
    assert_eq!(rows.len(), 2);
    assert_eq!(rows[0].content, "a".repeat(1000));
    assert_eq!(rows[1].content, format!("{}\n\n{}", "a".repeat(180), "b".repeat(1000)));
    assert_eq!(rows[0].ordinal, 0);
    assert_eq!(rows[1].ordinal, 1);
    assert_eq!(rows[1].source_file, "f.txt");
    assert_eq!(rows[1].document_id, "d");
    assert_ne!(rows[0].id, rows[1].id);
    assert!(chunk_rows("c", "d", "f", " ").is_empty());
}

#[test]
fn a_course_must_be_active() {
    let mut settings = AppSettings::defaults();
    assert_eq!(
        active_course(&settings, StudyError::NoCourseForCapture),
        Err(StudyError::NoCourseForCapture)
    );
    settings.active_course_id = Some(s("c"));
    assert_eq!(active_course(&settings, StudyError::NoCourseForText), Ok(s("c")));
}

#[test]
fn a_screenshot_is_read_first() {
    let mut service = StudyService::new();
    let assignment = StudyService::capture_and_prepare(s("c"), s("/p.png"));
    let (step, events) = service.prepare_solve_job_from_text(AppSettings::defaults(), assignment);
    assert_eq!(events.len(), 1);
    assert_eq!(events[0].status, "识题中");
    assert_eq!(events[0].detail, "正在从截图中提取题目内容");
    assert_eq!(events[0].current_step, 1);
    assert_eq!(events[0].total_steps, 6);
    assert_eq!(events[0].task_id.len(), 36);
    assert_eq!(service.status, "识题中");
    let (p, action) = goes_on(step);
    match action {
        PrepareAction::ReadImage(path) => assert_eq!(path, "/p.png"),
        _ => panic!("not read"),
    }
    assert_eq!(p.request.screenshot_path, "/p.png");
    let (step, events) = p.step(&mut service, PrepareEvent::Recognised(s("x")));
    assert_eq!(events.iter().map(|e| e.current_step).collect::<Vec<u8>>(), vec![2, 3]);
    assert_eq!(service.status, "检索课件中");
    goes_on(step);
    let named = StudyService::prepare_solve_job(SolveRequest {
        course_id: s("c"),
        screenshot_path: s("/q.png"),
    });
    assert_eq!(named.screenshot_path, "/q.png");
    assert_eq!(named.initial_status, "识题中");
}

#[test]
fn a_copied_text_is_prepared() {
    let mut service = StudyService::new();
    let job = prepared(&mut service);
    assert_eq!(service.status, "已拿到答案");
    assert_eq!(job.task_id, "task");
    assert_eq!(job.course_name, "Maths");
    assert_eq!(job.split_questions, vec![s("1. a"), s("2. b")]);
    assert_eq!(job.context, "[f.txt]\nhigh\n\n---\n\n[f.txt]\nlow");
    assert_eq!(job.quick_preview, "1.A");
    assert_eq!(job.request.course_id, "c");
    assert_eq!(job.request.screenshot_path, "");
    assert!(matches!(job.output_dir, OutputDir::Exports));
}

#[test]
fn an_unknown_course_ends_a_preparation() {
    let mut service = StudyService::new();
    let assignment = StudyService::clipboard_and_prepare(s("c"), s("x"));
    let (step, _) = service.begin_preparation(s("t"), AppSettings::defaults(), assignment);
    let (p, _) = goes_on(step);
    let (step, _) = p.step(&mut service, PrepareEvent::Retrieved(vec![]));
    let (p, action) = goes_on(step);
    match action {
        PrepareAction::AnswerQuickly(solve) => assert_eq!(solve.context, ""),
        _ => panic!("no question"),
    }
    let (step, events) = p.step(&mut service, PrepareEvent::Answered(vec![]));
    assert_eq!(events[0].answer_preview, "1.?");
    let (p, _) = goes_on(step);
    let (step, _) = p.step(&mut service, PrepareEvent::Named(None));
    assert!(matches!(step, PrepareStep::Fail(StudyError::CourseNotFound)));
}

#[test]
fn only_the_best_pieces_are_context() {
    let pieces: Vec<KnowledgeChunk> =
        (0..8).map(|i| chunk(&format!("p{}", i), i as f32)).collect();
    let mut service = StudyService::new();
    let assignment = StudyService::clipboard_and_prepare(s("c"), s("x"));
    let (step, _) = service.begin_preparation(s("t"), AppSettings::defaults(), assignment);
    let (p, _) = goes_on(step);
    let (step, _) = p.step(&mut service, PrepareEvent::Retrieved(pieces));
    match goes_on(step).1 {
        PrepareAction::AnswerQuickly(solve) => {
            assert_eq!(solve.context.matches("---").count(), 5);
            assert!(solve.context.starts_with("[f.txt]\np7"));
            assert!(!solve.context.contains("p1"));
        }
        _ => panic!("no question"),
    }
    assert_eq!(build_context(&vec![]), "");
}

#[test]
fn a_job_is_solved_in_full() {
    let mut service = StudyService::new();
    let job = prepared(&mut service);
    assert!(matches!(job.output_dir, OutputDir::Exports));
    let (f, solve, event) = Finalization::finalize_solve_job(&mut service, job);
    assert_eq!(event.status, "完整求答中");
    assert_eq!(event.current_step, 5);
    assert_eq!(event.answer_preview, "1.A");
    assert!(!event.takeover_progress);
    assert_eq!(service.status, "完整求答中");
    assert!(matches!(f.job.output_dir, OutputDir::Exports));
    assert_eq!(solve.model, "Pro/zai-org/GLM-5.1");
    assert_eq!(solve.rendered_questions, "1. 1. a\n\n2. 2. b");
    let (f, search) = f.solved(vec![ai_question("1. a"), ai_question("2. b")]).unwrap();
    assert_eq!(search.candidate(), "第1-2题.docx");
    let (f, result, event) = f.placed(&mut service, s("/o.docx"), Score { bits: 3 });
    assert_eq!(event.status, "写入文档中");
    assert_eq!(event.current_step, 6);
    assert!(!event.is_terminal);
    assert_eq!(result.id.len(), 36);
    assert_eq!(result.course_id, "c");
    assert_eq!(result.item_count, 2);
    assert_eq!(result.items[1].answer_brief, "B");
    assert_eq!(result.answer_preview, "1.A");
    assert_eq!(result.confidence.bits, 3);
    assert!(result.low_confidence);
    assert_eq!(result.suggested_file_stem, "第1-2题");
    assert_eq!(result.output_path, "/o.docx");
    let time = &result.created_at;
    assert!(time.len() >= 25 && &time[10..11] == "T" && &time[time.len() - 3..time.len() - 2] == ":");
    let event = f.written(&mut service);
    assert_eq!(event.status, "已完成");
    assert!(event.is_terminal && !event.is_error);
    assert_eq!(event.answer_preview, "1.A");
    assert_eq!(service.status, "已完成");
}

#[test]
fn a_job_without_answers_fails() {
    let mut service = StudyService::new();
    let job = prepared(&mut service);
    let (f, _, _) = Finalization::finalize_solve_job(&mut service, job);
    assert!(matches!(f.solved(vec![]), Err(StudyError::NoSolvedQuestion)));
}

#[test]
fn failures_are_shown() {
    let mut service = StudyService::new();
    let event = preparation_failure("bad");
    assert_eq!(event.status, "失败");
    assert_eq!(event.detail, "bad");
    assert_eq!(event.task_id, "");
    assert_eq!(event.current_step, 6);
    assert!(event.takeover_progress && event.is_terminal && event.is_error);
    assert_eq!(service.status, "Idle");
    let event = finalization_failure(&mut service, "bad");
    assert_eq!(event.detail, "后台完整解析失败：bad");
    assert!(!event.takeover_progress && event.is_terminal && event.is_error);
    assert_eq!(service.status, "失败");
}

#[test]
fn screenshots_have_their_names() {
    assert_eq!(capture_file_name_at(1700000000123), "capture-1700000000123.png");
    assert_eq!(capture_file_name_at(-1), "capture--1.png");
    let name = capture_file_name();
    let number = name.strip_prefix("capture-").unwrap().strip_suffix(".png").unwrap();
    assert!(number.parse::<i64>().unwrap() > 1_600_000_000_000);
    assert_eq!(capture_to_temp(true, true), Ok(()));
    assert_eq!(capture_to_temp(true, false), Err(StudyError::CaptureFailed));
    assert_eq!(capture_to_temp(false, true), Err(StudyError::CaptureFailed));
}

#[test]
fn waiting_for_a_screenshot_ends() {
    assert_eq!(
        capture_to_temp_windows(CaptureStage::Clear, false),
        CaptureNext::Fail(StudyError::ClipboardNotCleared, 0)
    );
    assert_eq!(
        capture_to_temp_windows(CaptureStage::Launch, false),
        CaptureNext::Fail(StudyError::SnippingNotLaunched, 0)
    );
    let mut stage = CaptureStage::Clear;
    let mut polls = 0;
    let mut waited = 0;
    loop {
        let success = !matches!(stage, CaptureStage::Poll(_));
        if !success {
            polls += 1;
        }
        match capture_to_temp_windows(stage, success) {
            CaptureNext::Go(next, pause) => {
                stage = next;
                waited += pause;
            }
            CaptureNext::Fail(error, pause) => {
                assert_eq!(error, StudyError::NothingCopied);
                waited += pause;
                break;
            }
            CaptureNext::Saved => panic!("saved"),
        }
    }
    assert_eq!(polls, 180);
    assert_eq!(waited, 90_000);
    assert_eq!(capture_to_temp_windows(CaptureStage::Poll(179), true), CaptureNext::Saved);
}

#[test]
fn paths_stay_in_their_quotation_marks() {
    let script = clipboard_script("C:\\it's\\x.png");
    assert!(script.contains("$img.Save('C:\\it''s\\x.png', [System.Drawing.Imaging.ImageFormat]::Png); Write-Output 'saved'; }"));
    assert!(script.starts_with("$ErrorActionPreference = 'Stop'; Add-Type"));
}

#[test]
fn saved_images_are_recognised() {
    assert!(save_windows_clipboard_image(b"saved\r\n", true));
    assert!(save_windows_clipboard_image(&[0xff, b's', b'a', b'v', b'e', b'd'], true));
    assert!(!save_windows_clipboard_image(b"saved", false));
    assert!(!save_windows_clipboard_image(b"save", true));
    assert!(image_saved("x saved", true));
    assert!(!image_saved("", true));
    assert_eq!(
        clipboard_error_text(" denied \n"),
        "failed to read screenshot from Windows clipboard: denied"
    );
}

#[test]
fn copied_text_is_read() {
    assert_eq!(read_clipboard_text(true, " 题 \n".as_bytes()), Ok(s("题")));
    assert_eq!(read_clipboard_text(true, b" "), Err(StudyError::ClipboardEmpty));
    assert_eq!(read_clipboard_text(false, b"x"), Err(StudyError::ClipboardUnreadable));
    assert_eq!(clipboard_text(true, " a "), Ok(s("a")));
}

#[test]
fn menu_and_icon_do_what_they_say() {
    assert_eq!(menu_action("open"), MenuAction::Open);
    assert_eq!(menu_action("capture"), MenuAction::Capture);
    assert_eq!(menu_action("quit"), MenuAction::Quit);
    assert_eq!(menu_action("Quit"), MenuAction::Nothing);
    assert_eq!(tray_click(true, true, true), WindowAction::Hide);
    assert_eq!(tray_click(true, true, false), WindowAction::Show);
    assert_eq!(tray_click(false, true, true), WindowAction::Nothing);
    assert_eq!(tray_click(true, false, true), WindowAction::Nothing);
}

#[test]
fn a_solved_job_survives_storing() {
    let mut service = StudyService::new();
    let job = prepared(&mut service);
    let (f, _, _) = Finalization::finalize_solve_job(&mut service, job);
    let (f, _) = f.solved(vec![ai_question("1. a")]).unwrap();
    let (_, result, _) = f.placed(&mut service, s("/o.docx"), Score { bits: 3 });
    let read = row_to_result(save_result(result.clone()));
    assert_eq!(format!("{:?}", read), format!("{:?}", result));
}
