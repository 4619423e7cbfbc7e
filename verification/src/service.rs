//! The service behind the windows: its status, its settings, its shortcuts, and the
//! import of documents.

use vstd::prelude::*;
use crate::db::{CourseRow, ResultRow};
use crate::db;
use crate::error::StudyError;
use crate::models::{
    AppSettings, DashboardData, ImportRequest, ImportResponse, ImportResponseView, KnowledgeChunk,
    KnowledgeChunkView, SaveSettingsInput, StatusEvent, StatusEventView,
};
use crate::parser;
use crate::settings;
use crate::settings::StoredSettings;
use crate::stamp;
use crate::text;

verus! {

/// The number of steps of a task.
pub const TOTAL_CAPTURE_STEPS: u8 = 6;

/// How many results the dashboard shows.
pub const RECENT_RESULTS: usize = 12;

/// The service behind the windows.
#[derive(Debug)]
pub struct StudyService {
    pub status: String,
    pub registered_capture_shortcut: Option<String>,
    pub registered_text_shortcut: Option<String>,
}

/// The view of the service.
pub struct StudyServiceView {
    pub status: Seq<char>,
    pub registered_capture_shortcut: Option<Seq<char>>,
    pub registered_text_shortcut: Option<Seq<char>>,
}

impl View for StudyService {
    type V = StudyServiceView;

    open spec fn view(&self) -> StudyServiceView {
        StudyServiceView {
            status: self.status@,
            registered_capture_shortcut: text::view_opt(self.registered_capture_shortcut),
            registered_text_shortcut: text::view_opt(self.registered_text_shortcut),
        }
    }
}

/// Where documents are written.
#[derive(Debug, Clone)]
pub enum OutputDir {
    /// In the directory `exports` in that of the data.
    Exports,
    /// In the directory that was chosen.
    Chosen(String),
}

/// The view of where documents are written.
pub enum OutputDirView {
    Exports,
    Chosen(Seq<char>),
}

impl View for OutputDir {
    type V = OutputDirView;

    open spec fn view(&self) -> OutputDirView {
        match *self {
            OutputDir::Exports => OutputDirView::Exports,
            OutputDir::Chosen(dir) => OutputDirView::Chosen(dir@),
        }
    }
}

/// Where documents are written: in the directory that was chosen, unless the choice is
/// blank.
pub open spec fn output_dir_of(chosen: Seq<char>) -> OutputDirView {
    if text::is_blank(chosen) {
        OutputDirView::Exports
    } else {
        OutputDirView::Chosen(chosen)
    }
}

/// The shortcuts to unregister, and those to register in their place.
#[derive(Debug, Clone)]
pub struct ShortcutPlan {
    pub unregister: Vec<String>,
    pub capture: Option<String>,
    pub text: Option<String>,
}

/// One of the two shortcuts.
#[derive(Debug, Clone, Copy, PartialEq, Eq, Structural)]
pub enum ShortcutKind {
    Capture,
    Text,
}

/// The shortcut that was entered; none where the entry is blank.
pub open spec fn trigger_of(entered: Seq<char>) -> Option<Seq<char>> {
    if text::is_blank(entered) {
        None
    } else {
        Some(text::trim(entered))
    }
}

/// The shortcut that was entered; none where the entry is blank.
pub fn shortcut_trigger(entered: &str) -> (r: Option<String>)
    ensures
        text::view_opt(r) == trigger_of(entered@),
{
    proof {
        text::lemma_blank(entered@);
    }
    let trigger = text::trimmed(entered);
    if trigger.as_str().is_empty() {
        None
    } else {
        Some(trigger)
    }
}

/// A list with the value, where there is one.
pub open spec fn listed(o: Option<Seq<char>>) -> Seq<Seq<char>> {
    match o {
        Some(s) => seq![s],
        None => Seq::empty(),
    }
}

/// The shortcuts that are registered.
pub open spec fn to_unregister(service: StudyServiceView) -> Seq<Seq<char>> {
    listed(service.registered_capture_shortcut) + listed(service.registered_text_shortcut)
}

/// The service without its shortcuts.
pub open spec fn forgetful(service: StudyServiceView) -> StudyServiceView {
    StudyServiceView {
        registered_capture_shortcut: None,
        registered_text_shortcut: None,
        ..service
    }
}

/// The service with another shortcut.
pub open spec fn with_shortcut(
    service: StudyServiceView,
    kind: ShortcutKind,
    trigger: Seq<char>,
) -> StudyServiceView {
    match kind {
        ShortcutKind::Capture => StudyServiceView {
            registered_capture_shortcut: Some(trigger),
            ..service
        },
        ShortcutKind::Text => StudyServiceView {
            registered_text_shortcut: Some(trigger),
            ..service
        },
    }
}

/// The status while documents are imported.
pub open spec fn importing(count: nat) -> Seq<char> {
    "Importing "@ + text::decimal(count) + " documents…"@
}

/// The status when documents were imported.
pub open spec fn imported(count: nat) -> Seq<char> {
    "Imported "@ + text::decimal(count) + " documents"@
}

/// The error on which an import is refused; none where it is not.
pub open spec fn import_error(request: ImportRequest) -> Option<StudyError> {
    if text::is_blank(request.course_name@) {
        Some(StudyError::CourseNameRequired)
    } else if request.paths@.len() == 0 {
        Some(StudyError::NoDocument)
    } else {
        None
    }
}

impl StudyService {
    /// A service that has done nothing yet.
    pub fn new() -> (r: Self)
        ensures
            r@ == (StudyServiceView {
                status: "Idle"@,
                registered_capture_shortcut: None,
                registered_text_shortcut: None,
            }),
    {
        StudyService {
            status: "Idle".to_owned(),
            registered_capture_shortcut: None,
            registered_text_shortcut: None,
        }
    }

    /// The settings to go on with, and whether they are still to be written.
    pub fn load_settings(&self, stored: StoredSettings) -> (r: (AppSettings, bool))
        ensures
            r.0@ == settings::loaded(stored),
            r.1 == (stored is Missing),
    {
        settings::load_settings(stored)
    }

    /// The settings that an input makes of the stored ones; they are to be written.
    pub fn save_settings(&self, stored: StoredSettings, input: SaveSettingsInput) -> (r:
        AppSettings)
        ensures
            r@ == settings::merged(settings::loaded(stored), input@),
    {
        let (current, _missing) = self.load_settings(stored);
        settings::merge_settings(&current, input)
    }

    /// Where documents are written: in the directory that was chosen, unless the choice
    /// is blank.
    pub fn output_dir(&self, settings: &AppSettings) -> (r: OutputDir)
        ensures
            r@ == output_dir_of(settings.output_dir@),
    {
        proof {
            text::lemma_blank(settings.output_dir@);
        }
        if text::trimmed(settings.output_dir.as_str()).as_str().is_empty() {
            OutputDir::Exports
        } else {
            OutputDir::Chosen(settings.output_dir.clone())
        }
    }

    /// What the dashboard shows, given the rows of the courses and of the results, of which
    /// the last ones are shown.
    pub fn load_dashboard(
        &self,
        settings: AppSettings,
        courses: Vec<CourseRow>,
        results: Vec<ResultRow>,
    ) -> (r: DashboardData)
        ensures
            r.settings@ == settings@,
            r.status@ == self.status@,
            r.courses@.len() == courses@.len(),
            forall|i: int|
                0 <= i < courses@.len() ==> (#[trigger] r.courses@[i])@ == db::course_of(
                    courses@[i],
                    settings@.active_course_id,
                ),
            text::views(r.recent_results@) == db::recent(
                text::views(results@),
                RECENT_RESULTS as nat,
            ),
    {
        let shown = db::list_courses(courses, &settings.active_course_id);
        let recent_results = db::recent_results(results, RECENT_RESULTS);
        DashboardData { settings, courses: shown, recent_results, status: self.status.clone() }
    }

    /// Forgets the registered shortcuts, and says which ones to unregister and which ones
    /// to register in their place.
    pub fn refresh_shortcuts(&mut self, shortcut: &str, text_shortcut: &str) -> (r: ShortcutPlan)
        ensures
            text::views(r.unregister@) == to_unregister(old(self)@),
            text::view_opt(r.capture) == trigger_of(shortcut@),
            text::view_opt(r.text) == trigger_of(text_shortcut@),
            final(self)@ == forgetful(old(self)@),
    {
        let mut unregister: Vec<String> = Vec::new();
        assert(text::views(unregister@) =~= Seq::<Seq<char>>::empty());
        let capture_before = self.registered_capture_shortcut.take();
        match capture_before {
            Some(previous) => {
                unregister.push(previous);
                assert(text::views(unregister@) =~= seq![previous@]);
            },
            None => {},
        }
        let ghost first = text::views(unregister@);
        let text_before = self.registered_text_shortcut.take();
        match text_before {
            Some(previous) => {
                unregister.push(previous);
                assert(text::views(unregister@) =~= first + seq![previous@]);
            },
            None => {},
        }
        assert(text::views(unregister@) =~= to_unregister(old(self)@));
        ShortcutPlan {
            unregister,
            capture: shortcut_trigger(shortcut),
            text: shortcut_trigger(text_shortcut),
        }
    }

    /// Takes note of a shortcut that was registered.
    pub fn shortcut_registered(&mut self, kind: ShortcutKind, trigger: String)
        ensures
            final(self)@ == with_shortcut(old(self)@, kind, trigger@),
    {
        match kind {
            ShortcutKind::Capture => {
                self.registered_capture_shortcut = Some(trigger);
            },
            ShortcutKind::Text => {
                self.registered_text_shortcut = Some(trigger);
            },
        }
    }

    /// Takes note of how far a task has come, and gives the event to send.
    pub fn publish_status(
        &mut self,
        task_id: &str,
        status: &str,
        detail: &str,
        current_step: u8,
        answer_preview: &str,
        takeover_progress: bool,
        is_terminal: bool,
        is_error: bool,
    ) -> (r: StatusEvent)
        ensures
            final(self)@ == (StudyServiceView { status: status@, ..old(self)@ }),
            r@ == event(
                task_id@,
                status@,
                detail@,
                current_step,
                answer_preview@,
                takeover_progress,
                is_terminal,
                is_error,
            ),
    {
        self.status = status.to_owned();
        StatusEvent {
            task_id: task_id.to_owned(),
            status: status.to_owned(),
            detail: detail.to_owned(),
            current_step,
            total_steps: TOTAL_CAPTURE_STEPS,
            answer_preview: answer_preview.to_owned(),
            takeover_progress,
            is_terminal,
            is_error,
        }
    }

    /// Begins an import: gives the name of the course without white space at its ends, or
    /// the error on which the import is refused.
    pub fn import_materials(&mut self, request: &ImportRequest) -> (r: Result<String, StudyError>)
        ensures
            import_error(*request) matches Some(e) ==> (r matches Err(f) && f == e) && final(self)@
                == old(self)@,
            import_error(*request) is None ==> (r matches Ok(name) && name@ == text::trim(
                request.course_name@,
            )) && final(self)@ == (StudyServiceView {
                status: importing(request.paths@.len()),
                ..old(self)@
            }),
    {
        proof {
            text::lemma_blank(request.course_name@);
        }
        let name = text::trimmed(request.course_name.as_str());
        if name.as_str().is_empty() {
            return Err(StudyError::CourseNameRequired);
        }
        if request.paths.len() == 0 {
            return Err(StudyError::NoDocument);
        }
        let mut status = "Importing ".to_owned();
        let count = text::decimal_text(request.paths.len() as u64);
        status.append(count.as_str());
        status.append(" documents…");
        self.status = status;
        Ok(name)
    }

    /// Ends an import.
    pub fn import_finished(&mut self, progress: Import) -> (r: ImportResponse)
        ensures
            r@ == (ImportResponseView {
                course_id: progress.course_id@,
                imported_documents: progress.imported_documents,
                imported_chunks: progress.imported_chunks,
            }),
            final(self)@ == (StudyServiceView {
                status: imported(progress.imported_documents as nat),
                ..old(self)@
            }),
    {
        let mut status = "Imported ".to_owned();
        let count = text::decimal_text(progress.imported_documents as u64);
        status.append(count.as_str());
        status.append(" documents");
        self.status = status;
        ImportResponse {
            course_id: progress.course_id,
            imported_documents: progress.imported_documents,
            imported_chunks: progress.imported_chunks,
        }
    }
}

/// An event with the given contents.
pub open spec fn event(
    task_id: Seq<char>,
    status: Seq<char>,
    detail: Seq<char>,
    current_step: u8,
    answer_preview: Seq<char>,
    takeover_progress: bool,
    is_terminal: bool,
    is_error: bool,
) -> StatusEventView {
    StatusEventView {
        task_id,
        status,
        detail,
        current_step,
        total_steps: TOTAL_CAPTURE_STEPS,
        answer_preview,
        takeover_progress,
        is_terminal,
        is_error,
    }
}

/// What a refresh of the shortcuts unregisters is what was registered after the one
/// before; and nothing, where nothing was.
pub proof fn shortcuts_are_unregistered_once(
    before: StudyServiceView,
    capture: Seq<char>,
    text_trigger: Seq<char>,
)
    ensures
        to_unregister(forgetful(before)) == Seq::<Seq<char>>::empty(),
        to_unregister(
            with_shortcut(
                with_shortcut(forgetful(before), ShortcutKind::Capture, capture),
                ShortcutKind::Text,
                text_trigger,
            ),
        ) == seq![capture, text_trigger],
        to_unregister(with_shortcut(forgetful(before), ShortcutKind::Capture, capture)) == seq![
            capture,
        ],
{
    assert(seq![capture] + seq![text_trigger] =~= seq![capture, text_trigger]);
}

/// The number of bytes that a piece of a document has at the most where its paragraphs
/// allow it.
pub const CHUNK_CHARS: usize = 1200;

/// How many characters a piece of a document shares with the one before.
pub const CHUNK_OVERLAP: usize = 180;

/// The pieces of the text of a document.
pub open spec fn pieces_of(document_text: Seq<char>) -> Seq<Seq<char>> {
    parser::chunks_of(document_text, CHUNK_CHARS as nat, CHUNK_OVERLAP as nat)
}

/// A row for the `i`-th piece of a document, under the given identifier.
pub open spec fn piece_row(
    id: Seq<char>,
    course_id: Seq<char>,
    document_id: Seq<char>,
    i: int,
    content: Seq<char>,
    file_name: Seq<char>,
) -> KnowledgeChunkView {
    KnowledgeChunkView {
        id,
        course_id,
        document_id,
        ordinal: (i as usize) as i64,
        content,
        source_file: file_name,
        similarity: None,
    }
}

/// The rows for the pieces of a document of a course, in their order. Their embeddings
/// are written beside them. Each paragraph of the text stands whole in one of them.
pub fn chunk_rows(course_id: &str, document_id: &str, file_name: &str, document_text: &str) -> (r:
    Vec<KnowledgeChunk>)
    ensures
        r@.len() == pieces_of(document_text@).len(),
        forall|i: int|
            0 <= i < r@.len() ==> stamp::is_id((#[trigger] r@[i]).id@) && r@[i]@ == piece_row(
                r@[i].id@,
                course_id@,
                document_id@,
                i,
                pieces_of(document_text@)[i],
                file_name@,
            ),
        forall|k: int|
            0 <= k < parser::paragraphs(document_text@).len() ==> exists|i: int|
                0 <= i < r@.len() && text::contains(
                    (#[trigger] r@[i]).content@,
                    #[trigger] parser::paragraphs(document_text@)[k],
                ),
{
    let chunks = parser::chunk_text(document_text, CHUNK_CHARS, CHUNK_OVERLAP);
    let ghost all = text::views(chunks@);
    let mut rows: Vec<KnowledgeChunk> = Vec::new();
    let mut i: usize = 0;
    while i < chunks.len()
        invariant
            i <= chunks@.len(),
            rows@.len() == i,
            all == text::views(chunks@),
            forall|k: int|
                0 <= k < i ==> stamp::is_id((#[trigger] rows@[k]).id@) && rows@[k]@ == piece_row(
                    rows@[k].id@,
                    course_id@,
                    document_id@,
                    k,
                    all[k],
                    file_name@,
                ),
        decreases chunks@.len() - i,
    {
        let row = db::insert_chunk(course_id, document_id, i as i64, chunks[i].as_str(), file_name);
        rows.push(row);
        i += 1;
    }
    proof {
        let pars = parser::paragraphs(document_text@);
        assert forall|k: int| 0 <= k < pars.len() implies exists|i: int|
            0 <= i < rows@.len() && text::contains(
                (#[trigger] rows@[i]).content@,
                #[trigger] pars[k],
            ) by {
            parser::every_paragraph_is_in_a_chunk(
                document_text@,
                CHUNK_CHARS as nat,
                CHUNK_OVERLAP as nat,
                k,
            );
            let m = choose|m: int|
                0 <= m < all.len() && text::contains(#[trigger] all[m], pars[k]);
            assert(rows@[m]@.content == all[m]);
            assert(text::contains(rows@[m].content@, pars[k]));
        }
    }
    rows
}

/// An import of documents into a course.
#[derive(Debug, Clone)]
pub struct Import {
    pub course_id: String,
    pub paths: Vec<String>,
    /// The place of the document that is being imported.
    pub next: usize,
    /// How many pieces of it are being written, once it is read.
    pub pending: Option<usize>,
    pub imported_documents: usize,
    pub imported_chunks: usize,
}

/// The view of an import.
pub struct ImportView {
    pub course_id: Seq<char>,
    pub paths: Seq<Seq<char>>,
    pub next: nat,
    pub pending: Option<nat>,
    pub imported_documents: nat,
    pub imported_chunks: nat,
}

impl View for Import {
    type V = ImportView;

    open spec fn view(&self) -> ImportView {
        ImportView {
            course_id: self.course_id@,
            paths: text::views(self.paths@),
            next: self.next as nat,
            pending: match self.pending {
                Some(n) => Some(n as nat),
                None => None,
            },
            imported_documents: self.imported_documents as nat,
            imported_chunks: self.imported_chunks as nat,
        }
    }
}

/// What came of the last action.
#[derive(Debug, Clone)]
pub enum ImportEvent {
    /// The document is in the course already.
    Known,
    /// The document is new in the course, under the identifier.
    New { document_id: String, file_name: String, text: String },
    /// The pieces of the document are written.
    Written,
}

/// What to do next.
#[derive(Debug, Clone)]
pub enum ImportAction {
    /// Read the document with this path, and look for it in the course.
    Read(String),
    /// Embed and write these pieces.
    Write(Vec<KnowledgeChunk>),
    /// End the import.
    Finish,
}

/// The event is one that the import waits for.
pub open spec fn import_fits(import: ImportView, event: ImportEvent) -> bool {
    &&& import.next < import.paths.len()
    &&& event is Written <==> import.pending is Some
}

/// An import that has imported nothing yet.
pub open spec fn import_start(course_id: Seq<char>, paths: Seq<Seq<char>>) -> ImportView {
    ImportView {
        course_id,
        paths,
        next: 0,
        pending: None,
        imported_documents: 0,
        imported_chunks: 0,
    }
}

/// The import when it is done with a document.
pub open spec fn import_done(import: ImportView) -> ImportView {
    match import.pending {
        Some(n) => ImportView {
            next: import.next + 1,
            pending: None,
            imported_documents: import.imported_documents + 1,
            imported_chunks: import.imported_chunks + n,
            ..import
        },
        None => ImportView { next: import.next + 1, ..import },
    }
}

/// What an event makes of an import that waits for it.
pub open spec fn import_next(import: ImportView, event: ImportEvent) -> ImportView {
    match event {
        ImportEvent::New { document_id, file_name, text } => ImportView {
            pending: Some(pieces_of(text@).len()),
            ..import
        },
        _ => import_done(import),
    }
}

/// The action reads the next document, or ends the import where there is none.
pub open spec fn goes_on(import: ImportView, action: ImportAction) -> bool {
    if import.next < import.paths.len() {
        action matches ImportAction::Read(path) && path@ == import.paths[import.next as int]
    } else {
        action is Finish
    }
}

impl Import {
    /// An import that has imported nothing yet.
    pub fn starting(course_id: String, paths: Vec<String>) -> (r: Import)
        ensures
            r@ == import_start(course_id@, text::views(paths@)),
    {
        Import {
            course_id,
            paths,
            next: 0,
            pending: None,
            imported_documents: 0,
            imported_chunks: 0,
        }
    }

    /// What to do when a document is to be read.
    pub fn action(&self) -> (r: ImportAction)
        ensures
            goes_on(self@, r),
    {
        assert(self@.paths.len() == self.paths@.len());
        if self.next < self.paths.len() {
            ImportAction::Read(self.paths[self.next].clone())
        } else {
            ImportAction::Finish
        }
    }

    /// What an event makes of the import, and what to do next: a known document is passed
    /// over; of a new one the pieces are written, and then it is counted.
    pub fn step(&mut self, event: ImportEvent) -> (r: ImportAction)
        requires
            import_fits(old(self)@, event),
            old(self)@.pending matches Some(n) ==> old(self)@.imported_documents < usize::MAX
                && old(self)@.imported_chunks + n <= usize::MAX,
        ensures
            final(self)@ == import_next(old(self)@, event),
            event matches ImportEvent::New { document_id, file_name, text } ==> (
            r matches ImportAction::Write(rows) && rows@.len() == pieces_of(text@).len() && forall|
                i: int,
            |
                0 <= i < rows@.len() ==> stamp::is_id((#[trigger] rows@[i]).id@) && rows@[i]@
                    == piece_row(
                    rows@[i].id@,
                    old(self)@.course_id,
                    document_id@,
                    i,
                    pieces_of(text@)[i],
                    file_name@,
                )),
            !(event is New) ==> goes_on(final(self)@, r),
    {
        assert(self@.paths.len() == self.paths@.len());
        match event {
            ImportEvent::New { document_id, file_name, text } => {
                let rows = chunk_rows(
                    self.course_id.as_str(),
                    document_id.as_str(),
                    file_name.as_str(),
                    text.as_str(),
                );
                self.pending = Some(rows.len());
                ImportAction::Write(rows)
            },
            _ => {
                match self.pending {
                    Some(n) => {
                        self.imported_documents = self.imported_documents + 1;
                        self.imported_chunks = self.imported_chunks + n;
                        self.pending = None;
                    },
                    None => {},
                }
                let count: usize = self.paths.len();
                assert(self.next < count);
                self.next = self.next + 1;
                self.action()
            },
        }
    }
}

/// The import after the first documents, of which some were known and the others new, in
/// so many pieces.
pub open spec fn after_documents(start: ImportView, documents: Seq<Option<nat>>) -> ImportView
    decreases documents.len(),
{
    if documents.len() == 0 {
        start
    } else {
        let before = after_documents(start, documents.drop_last());
        import_done(ImportView { pending: documents.last(), ..before })
    }
}

/// How many of the documents are new.
pub open spec fn new_documents(documents: Seq<Option<nat>>) -> nat
    decreases documents.len(),
{
    if documents.len() == 0 {
        0
    } else {
        new_documents(documents.drop_last()) + (if documents.last() is Some {
            1nat
        } else {
            0nat
        })
    }
}

/// How many pieces the new documents have.
pub open spec fn new_pieces(documents: Seq<Option<nat>>) -> nat
    decreases documents.len(),
{
    if documents.len() == 0 {
        0
    } else {
        new_pieces(documents.drop_last()) + (match documents.last() {
            Some(n) => n,
            None => 0,
        })
    }
}

/// An import goes through its documents in their order, and counts just the new ones and
/// their pieces.
pub proof fn imports_count_what_is_new(start: ImportView, documents: Seq<Option<nat>>)
    requires
        start.pending is None,
    ensures
        after_documents(start, documents) == (ImportView {
            next: start.next + documents.len(),
            imported_documents: start.imported_documents + new_documents(documents),
            imported_chunks: start.imported_chunks + new_pieces(documents),
            ..start
        }),
    decreases documents.len(),
{
    if documents.len() > 0 {
        imports_count_what_is_new(start, documents.drop_last());
    }
}

/// One document is dealt with in one step where it is known, and in two where it is new.
pub proof fn documents_are_imported_one_by_one(
    before: ImportView,
    document_id: String,
    file_name: String,
    text: String,
)
    requires
        before.pending is None,
    ensures
        import_next(before, ImportEvent::Known) == import_done(before),
        import_next(
            import_next(before, ImportEvent::New { document_id, file_name, text }),
            ImportEvent::Written,
        ) == import_done((ImportView { pending: Some(pieces_of(text@).len()), ..before })),
{
}

/// Documents that are all in the course already change nothing but how far the import is.
pub proof fn known_documents_add_nothing(start: ImportView, documents: Seq<Option<nat>>)
    requires
        start.pending is None,
        forall|i: int| 0 <= i < documents.len() ==> (#[trigger] documents[i]) is None,
    ensures
        after_documents(start, documents) == (ImportView {
            next: start.next + documents.len(),
            ..start
        }),
    decreases documents.len(),
{
    if documents.len() > 0 {
        known_documents_add_nothing(start, documents.drop_last());
    }
}

/// What is found of documents with these digests, in so many pieces each, in a course that
/// holds the stored digests: one is known where the course holds its digest, or where an
/// earlier one of them has it.
pub open spec fn found_documents(
    stored: Set<Seq<char>>,
    digests: Seq<Seq<char>>,
    pieces: Seq<nat>,
) -> Seq<Option<nat>> {
    Seq::new(
        digests.len(),
        |i: int|
            if stored.contains(digests[i]) || digests.take(i).contains(digests[i]) {
                None
            } else {
                Some(pieces[i])
            },
    )
}

/// To import the same documents into a course of the same name once more gives the course of
/// the first time, which is only marked as touched, and adds no document and no piece.
pub proof fn importing_again_adds_nothing(
    name: Seq<char>,
    existing: Option<Seq<char>>,
    new_ids: (Seq<char>, Seq<char>),
    times: (Seq<char>, Seq<char>),
    paths: Seq<Seq<char>>,
    stored: Set<Seq<char>>,
    digests: Seq<Seq<char>>,
    pieces: Seq<nat>,
)
    requires
        digests.len() == paths.len(),
        pieces.len() == paths.len(),
    ensures
        ({
            let first = db::course_write(name, existing, new_ids.0, times.0).0;
            let again = db::course_write(name, Some(first), new_ids.1, times.1);
            let held = stored.union(digests.to_set());
            let found = found_documents(held, digests, pieces);
            &&& again == (first, db::CourseWriteView::Touch { id: first, updated_at: times.1 })
            &&& forall|i: int| 0 <= i < found.len() ==> (#[trigger] found[i]) is None
            &&& after_documents(import_start(again.0, paths), found) == (ImportView {
                next: paths.len(),
                ..import_start(first, paths)
            })
            &&& held.union(digests.to_set()) == held
        }),
{
    let first = db::course_write(name, existing, new_ids.0, times.0).0;
    let held = stored.union(digests.to_set());
    let found = found_documents(held, digests, pieces);
    assert forall|i: int| 0 <= i < found.len() implies (#[trigger] found[i]) is None by {
        assert(digests.contains(digests[i]));
        assert(digests.to_set().contains(digests[i]));
    }
    known_documents_add_nothing(import_start(first, paths), found);
    assert(held.union(digests.to_set()) =~= held);
}

/// Documents go into the directory that was chosen, as it was entered, and into the one of
/// this application where the entry is blank.
pub proof fn the_chosen_directory_is_kept(chosen: Seq<char>)
    ensures
        !text::is_blank(chosen) ==> output_dir_of(chosen) == OutputDirView::Chosen(chosen),
        text::is_blank(chosen) ==> output_dir_of(chosen) == OutputDirView::Exports,
{
}

/// A shortcut is registered as it was entered but for the white space around it, and a blank
/// entry registers none.
pub proof fn shortcuts_are_taken_as_entered(before: Seq<char>, s: Seq<char>, behind: Seq<char>)
    requires
        text::is_blank(before),
        text::is_blank(behind),
    ensures
        trigger_of(before) is None,
        text::is_trimmed(s) && s.len() > 0 ==> trigger_of(before + s + behind) == Some(s),
{
    text::white_space_around_is_trimmed(before, s, behind);
    text::lemma_blank(before + s + behind);
}

/// A shortcut that is registered takes the place of the one of its kind alone, and changes
/// nothing else; both are forgotten together.
pub proof fn shortcuts_are_kept_apart(
    service: StudyServiceView,
    trigger: Seq<char>,
    capture: Seq<char>,
    text_trigger: Seq<char>,
)
    ensures
        with_shortcut(service, ShortcutKind::Capture, trigger).registered_capture_shortcut == Some(
            trigger,
        ),
        with_shortcut(service, ShortcutKind::Capture, trigger).registered_text_shortcut
            == service.registered_text_shortcut,
        with_shortcut(service, ShortcutKind::Text, trigger).registered_text_shortcut == Some(
            trigger,
        ),
        with_shortcut(service, ShortcutKind::Text, trigger).registered_capture_shortcut
            == service.registered_capture_shortcut,
        with_shortcut(service, ShortcutKind::Capture, trigger).status == service.status,
        with_shortcut(service, ShortcutKind::Text, trigger).status == service.status,
        forgetful(service).status == service.status,
        forgetful(service).registered_capture_shortcut is None,
        forgetful(service).registered_text_shortcut is None,
        to_unregister(
            (StudyServiceView {
                registered_capture_shortcut: Some(capture),
                registered_text_shortcut: Some(text_trigger),
                ..service
            }),
        ) == seq![capture, text_trigger],
        to_unregister(
            (StudyServiceView {
                registered_capture_shortcut: None,
                registered_text_shortcut: Some(text_trigger),
                ..service
            }),
        ) == seq![text_trigger],
{
    assert(seq![capture] + seq![text_trigger] =~= seq![capture, text_trigger]);
    assert(Seq::<Seq<char>>::empty() + seq![text_trigger] =~= seq![text_trigger]);
}

/// The status of an import says how many documents it has, and when it is done how many of
/// them were imported.
pub proof fn imports_say_how_many(count: nat)
    ensures
        importing(count) == "Importing "@ + text::decimal(count) + " documents…"@,
        imported(count) == "Imported "@ + text::decimal(count) + " documents"@,
        importing(count) != imported(count),
{
    reveal_strlit("Importing ");
    reveal_strlit("Imported ");
    assert(importing(count)[6] == 'i');
    assert(imported(count)[6] == 'e');
}

/// An import needs a name for its course, and then a document.
pub proof fn imports_need_a_name_and_a_document(request: ImportRequest)
    ensures
        text::is_blank(request.course_name@) <==> import_error(request) == Some(
            StudyError::CourseNameRequired,
        ),
        import_error(request) is None <==> !text::is_blank(request.course_name@)
            && request.paths@.len() > 0,
        import_error(request) is Some && !text::is_blank(request.course_name@) ==> import_error(
            request,
        ) == Some(StudyError::NoDocument),
{
}

/// An event holds what it is sent with, each under its own name, and always counts six
/// steps.
pub proof fn events_hold_what_is_sent(
    task_id: Seq<char>,
    status: Seq<char>,
    detail: Seq<char>,
    current_step: u8,
    answer_preview: Seq<char>,
    takeover_progress: bool,
    is_terminal: bool,
    is_error: bool,
)
    ensures
        ({
            let e = event(
                task_id,
                status,
                detail,
                current_step,
                answer_preview,
                takeover_progress,
                is_terminal,
                is_error,
            );
            &&& e.task_id == task_id && e.status == status && e.detail == detail
            &&& e.current_step == current_step && e.total_steps == 6
            &&& e.answer_preview == answer_preview
            &&& e.takeover_progress == takeover_progress
            &&& e.is_terminal == is_terminal && e.is_error == is_error
        }),
{
}

/// A document is cut into pieces of 1200 bytes with an overlap of 180 characters, and each
/// piece is written with its place, its text and the name of its document.
pub proof fn pieces_are_written_with_their_places(
    id: Seq<char>,
    course_id: Seq<char>,
    document_id: Seq<char>,
    document_text: Seq<char>,
    file_name: Seq<char>,
    i: int,
)
    requires
        0 <= i < pieces_of(document_text).len() <= i64::MAX,
        pieces_of(document_text).len() <= usize::MAX,
    ensures
        pieces_of(document_text) == parser::chunks_of(document_text, 1200, 180),
        ({
            let row = piece_row(
                id,
                course_id,
                document_id,
                i,
                pieces_of(document_text)[i],
                file_name,
            );
            &&& row.id == id && row.course_id == course_id && row.document_id == document_id
            &&& row.ordinal == i
            &&& row.content == parser::chunks_of(document_text, 1200, 180)[i]
            &&& row.source_file == file_name
            &&& row.similarity is None
        }),
{
}

/// The dashboard shows the last twelve results.
pub proof fn the_dashboard_shows_twelve_results(rows: Seq<db::ResultRowView>)
    requires
        rows.len() >= 12,
    ensures
        db::recent(rows, RECENT_RESULTS as nat).len() == 12,
{
    db::sorting_rows_keeps_them(rows);
}

/// What is shown of the service and of an import is what they hold, each field under its own
/// name.
pub proof fn views_show_service_and_import(service: StudyService, import: Import)
    ensures
        service@.status == service.status@,
        service.registered_capture_shortcut matches Some(s) ==> service@.registered_capture_shortcut
            == Some(s@),
        service.registered_capture_shortcut is None
            ==> service@.registered_capture_shortcut is None,
        service.registered_text_shortcut matches Some(s) ==> service@.registered_text_shortcut
            == Some(s@),
        service.registered_text_shortcut is None ==> service@.registered_text_shortcut is None,
        import@.course_id == import.course_id@ && import@.next == import.next
            && import@.imported_documents == import.imported_documents && import@.imported_chunks
            == import.imported_chunks,
        import@.paths.len() == import.paths@.len(),
        forall|i: int|
            0 <= i < import.paths@.len() ==> (#[trigger] import.paths@[i])@ == import@.paths[i],
{
}

/// An import reads its documents one after the other, each by its own path, and ends behind
/// the last one.
pub proof fn documents_are_read_in_order(import: ImportView, path: String, rows: Vec<KnowledgeChunk>)
    ensures
        import.next < import.paths.len() ==> (goes_on(import, ImportAction::Read(path)) <==> path@
            == import.paths[import.next as int]),
        import.next < import.paths.len() ==> !goes_on(import, ImportAction::Finish),
        import.next >= import.paths.len() ==> goes_on(import, ImportAction::Finish) && !goes_on(
            import,
            ImportAction::Read(path),
        ),
        !goes_on(import, ImportAction::Write(rows)),
{
}

/// An import starts before its first document, with nothing imported. A new document is
/// counted with all its pieces once they are written, and not before; a known one is not.
pub proof fn documents_count_once_they_are_written(
    import: ImportView,
    document_id: String,
    file_name: String,
    text: String,
)
    requires
        import.pending is None,
    ensures
        ({
            let pending = import_next(import, ImportEvent::New { document_id, file_name, text });
            let written = import_next(pending, ImportEvent::Written);
            let passed = import_next(import, ImportEvent::Known);
            let pieces = parser::chunks_of(text@, 1200, 180).len();
            &&& pending.imported_documents == import.imported_documents
            &&& pending.imported_chunks == import.imported_chunks
            &&& pending.next == import.next
            &&& written.imported_documents == import.imported_documents + 1
            &&& written.imported_chunks == import.imported_chunks + pieces
            &&& written.next == import.next + 1
            &&& written.pending is None
            &&& passed.imported_documents == import.imported_documents
            &&& passed.imported_chunks == import.imported_chunks
            &&& passed.next == import.next + 1
            &&& written.course_id == import.course_id && written.paths == import.paths
            &&& passed.course_id == import.course_id && passed.paths == import.paths
        }),
{
}

} // verus!
