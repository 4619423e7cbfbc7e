//! What is written to the database, and what is made of the rows that are read.

use vstd::prelude::*;
use crate::documents::{ParsedDocument, ParsedDocumentView};
use crate::documents;
use crate::error::StudyError;
use crate::models::{
    Course, CourseView, KnowledgeChunk, KnowledgeChunkView, Score, SolveResult, SolveResultView,
    SolveSource, SolveSourceView, SolvedQuestion, SolvedQuestionView, SourceDocument,
    SourceDocumentView,
};
use crate::models;
use crate::stamp;
use crate::text;

verus! {

/// The statement that adds a column to a table.
pub open spec fn column_statement(table: Seq<char>, column: Seq<char>, definition: Seq<char>) -> Seq<
    char,
> {
    "ALTER TABLE "@ + table + " ADD COLUMN "@ + column + " "@ + definition
}

/// The statement that adds a column to a table with the given columns, where it
/// is not among them.
pub fn ensure_column(columns: &Vec<String>, table: &str, column: &str, definition: &str) -> (r:
    Option<String>)
    ensures
        text::view_opt(r) == (if text::views(columns@).contains(column@) {
            None
        } else {
            Some(column_statement(table@, column@, definition@))
        }),
{
    let ghost all = text::views(columns@);
    let mut i: usize = 0;
    while i < columns.len()
        invariant
            i <= columns@.len(),
            all == text::views(columns@),
            forall|k: int| 0 <= k < i ==> #[trigger] all[k] != column@,
        decreases columns@.len() - i,
    {
        assert(all[i as int] == columns@[i as int]@);
        if text::same_text(columns[i].as_str(), column) {
            return None;
        }
        i += 1;
    }
    let mut statement = "ALTER TABLE ".to_owned();
    statement.append(table);
    statement.append(" ADD COLUMN ");
    statement.append(column);
    statement.append(" ");
    statement.append(definition);
    Some(statement)
}

/// How a course is written.
#[derive(Debug, Clone)]
pub enum CourseWrite {
    /// The course with this identifier was changed at this time.
    Touch { id: String, updated_at: String },
    /// A course is new, made at this time.
    Insert { id: String, name: String, created_at: String },
}

/// The view of how a course is written.
pub enum CourseWriteView {
    Touch { id: Seq<char>, updated_at: Seq<char> },
    Insert { id: Seq<char>, name: Seq<char>, created_at: Seq<char> },
}

impl View for CourseWrite {
    type V = CourseWriteView;

    open spec fn view(&self) -> CourseWriteView {
        match *self {
            CourseWrite::Touch { id, updated_at } => CourseWriteView::Touch {
                id: id@,
                updated_at: updated_at@,
            },
            CourseWrite::Insert { id, name, created_at } => CourseWriteView::Insert {
                id: id@,
                name: name@,
                created_at: created_at@,
            },
        }
    }
}

/// The identifier of a course, and how it is written: an existing one keeps its
/// identifier.
pub open spec fn course_write(
    name: Seq<char>,
    existing: Option<Seq<char>>,
    new_id: Seq<char>,
    now: Seq<char>,
) -> (Seq<char>, CourseWriteView) {
    match existing {
        Some(id) => (id, CourseWriteView::Touch { id, updated_at: now }),
        None => (new_id, CourseWriteView::Insert { id: new_id, name, created_at: now }),
    }
}

/// The identifier of the course with the given name, and how it is written, given
/// the time and an identifier for a new one.
pub fn upsert_course_at(name: &str, existing: Option<String>, new_id: String, now: String) -> (r: (
    String,
    CourseWrite,
))
    ensures
        (r.0@, r.1@) == course_write(name@, text::view_opt(existing), new_id@, now@),
{
    match existing {
        Some(id) => {
            let copy = id.clone();
            (copy, CourseWrite::Touch { id, updated_at: now })
        },
        None => {
            let copy = new_id.clone();
            (copy, CourseWrite::Insert { id: new_id, name: name.to_owned(), created_at: now })
        },
    }
}

/// The identifier of the course with the given name, and how it is written now;
/// `existing` is the identifier of the course that has the name.
pub fn upsert_course(name: &str, existing: Option<String>) -> (r: (String, CourseWrite))
    ensures
        existing matches Some(id) ==> r.0@ == id@,
        existing is None ==> stamp::is_id(r.0@),
        exists|id: Seq<char>, now: Seq<char>|
            stamp::is_rfc3339(now) && (r.0@, r.1@) == #[trigger] course_write(
                name@,
                text::view_opt(existing),
                id,
                now,
            ),
{
    let id = stamp::new_id();
    let now = stamp::now_text();
    let ghost (id_view, now_view) = (id@, now@);
    let r = upsert_course_at(name, existing, id, now);
    assert((r.0@, r.1@) == course_write(name@, text::view_opt(existing), id_view, now_view));
    r
}

/// A document as it is written: with the digest by which it is found again.
#[derive(Debug, Clone)]
pub struct DocumentRow {
    pub document: SourceDocument,
    pub sha256: String,
}

/// The row for a document of a course.
pub open spec fn document_row(
    course_id: Seq<char>,
    document: ParsedDocumentView,
    id: Seq<char>,
    now: Seq<char>,
) -> SourceDocumentView {
    SourceDocumentView {
        id,
        course_id,
        file_name: document.file_name,
        path: document.path,
        kind: document.kind,
        imported_at: now,
    }
}

/// The row for a document of a course, given its identifier and the time; none
/// where the course has a document with the same digest.
pub fn insert_document_at(
    course_id: &str,
    document: &ParsedDocument,
    exists: bool,
    id: String,
    now: String,
) -> (r: Option<DocumentRow>)
    ensures
        exists ==> r is None,
        !exists ==> (r matches Some(row) && row.document@ == document_row(
            course_id@,
            document@,
            id@,
            now@,
        ) && row.sha256@ == document.sha256@),
{
    if exists {
        return None;
    }
    Some(
        DocumentRow {
            document: SourceDocument {
                id,
                course_id: course_id.to_owned(),
                file_name: document.file_name.clone(),
                path: document.path.clone(),
                kind: document.kind.clone(),
                imported_at: now,
            },
            sha256: document.sha256.clone(),
        },
    )
}

/// The row for a document of a course; none where the course has a document with
/// the same digest, so that no document is imported twice.
pub fn insert_document(course_id: &str, document: &ParsedDocument, exists: bool) -> (r: Option<
    DocumentRow,
>)
    ensures
        exists <==> r is None,
        r matches Some(row) ==> stamp::is_id(row.document.id@) && stamp::is_rfc3339(
            row.document.imported_at@,
        ) && row.sha256@ == document.sha256@
            && row.document@ == document_row(
            course_id@,
            document@,
            row.document.id@,
            row.document.imported_at@,
        ),
{
    let id = stamp::new_id();
    let now = stamp::now_text();
    insert_document_at(course_id, document, exists, id, now)
}

/// A piece of a document as it is written, under a new identifier. Its embedding is
/// written beside it.
pub fn insert_chunk(
    course_id: &str,
    document_id: &str,
    ordinal: i64,
    content: &str,
    source_file: &str,
) -> (r: KnowledgeChunk)
    ensures
        stamp::is_id(r.id@),
        r@ == (KnowledgeChunkView {
            id: r.id@,
            course_id: course_id@,
            document_id: document_id@,
            ordinal,
            content: content@,
            source_file: source_file@,
            similarity: None,
        }),
{
    KnowledgeChunk {
        id: stamp::new_id(),
        course_id: course_id.to_owned(),
        document_id: document_id.to_owned(),
        ordinal,
        content: content.to_owned(),
        source_file: source_file.to_owned(),
        similarity: None,
    }
}

/// A course as it is read.
#[derive(Debug, Clone)]
pub struct CourseRow {
    pub id: String,
    pub name: String,
    pub updated_at: String,
    pub document_count: i64,
    pub chunk_count: i64,
}

/// The course that a row gives: active where its identifier is the active one.
pub open spec fn course_of(row: CourseRow, active: Option<Seq<char>>) -> CourseView {
    CourseView {
        id: row.id@,
        name: row.name@,
        document_count: row.document_count,
        chunk_count: row.chunk_count,
        updated_at: row.updated_at@,
        is_active: active == Some(row.id@),
    }
}

/// The courses that the rows give, in the order of the rows.
pub fn list_courses(rows: Vec<CourseRow>, active_course_id: &Option<String>) -> (r: Vec<Course>)
    ensures
        r@.len() == rows@.len(),
        forall|i: int|
            0 <= i < rows@.len() ==> (#[trigger] r@[i])@ == course_of(
                rows@[i],
                text::view_opt(*active_course_id),
            ),
{
    let mut courses: Vec<Course> = Vec::new();
    let mut i: usize = 0;
    while i < rows.len()
        invariant
            i <= rows@.len(),
            courses@.len() == i,
            forall|k: int|
                0 <= k < i ==> (#[trigger] courses@[k])@ == course_of(
                    rows@[k],
                    text::view_opt(*active_course_id),
                ),
        decreases rows@.len() - i,
    {
        let row = &rows[i];
        let is_active = match active_course_id {
            Some(active) => text::same_text(active.as_str(), row.id.as_str()),
            None => false,
        };
        courses.push(
            Course {
                id: row.id.clone(),
                name: row.name.clone(),
                document_count: row.document_count,
                chunk_count: row.chunk_count,
                updated_at: row.updated_at.clone(),
                is_active,
            },
        );
        i += 1;
    }
    courses
}

/// The name of a course; an error where there is none with the identifier.
pub fn course_name(found: Option<String>) -> (r: Result<String, StudyError>)
    ensures
        r is Ok <==> found is Some,
        r matches Ok(name) ==> name@ == found->0@,
        r matches Err(e) ==> e == StudyError::CourseNotFound,
{
    match found {
        Some(name) => Ok(name),
        None => Err(StudyError::CourseNotFound),
    }
}

/// No two courses are active, where no two have the same identifier.
pub proof fn at_most_one_course_is_active(
    rows: Seq<CourseRow>,
    active: Option<Seq<char>>,
    i: int,
    j: int,
)
    requires
        0 <= i < j < rows.len(),
        rows[i].id@ != rows[j].id@,
    ensures
        !(course_of(rows[i], active).is_active && course_of(rows[j], active).is_active),
{
}

/// A piece is less similar than another one; one without a similarity is the least
/// similar of all.
pub open spec fn less_similar(a: Option<Score>, b: Option<Score>) -> bool {
    match (a, b) {
        (None, Some(_)) => true,
        (Some(x), Some(y)) => x.less(y),
        _ => false,
    }
}

/// Whether a piece is less similar than another one.
fn is_less_similar(a: Option<Score>, b: Option<Score>) -> (r: bool)
    ensures
        r == less_similar(a, b),
{
    match (a, b) {
        (None, Some(_)) => true,
        (Some(x), Some(y)) => x.is_less(y),
        _ => false,
    }
}

/// How many of the ranked pieces stand before `piece`: those from the last one on
/// that are less similar than it follow it.
pub open spec fn rank(ranked: Seq<KnowledgeChunkView>, piece: KnowledgeChunkView) -> nat
    decreases ranked.len(),
{
    if ranked.len() > 0 && less_similar(ranked.last().similarity, piece.similarity) {
        rank(ranked.drop_last(), piece)
    } else {
        ranked.len()
    }
}

/// The pieces, the most similar first; pieces of the same similarity keep their
/// order.
pub open spec fn ranked(pieces: Seq<KnowledgeChunkView>) -> Seq<KnowledgeChunkView>
    decreases pieces.len(),
{
    if pieces.len() == 0 {
        pieces
    } else {
        let rest = ranked(pieces.drop_last());
        rest.insert(rank(rest, pieces.last()) as int, pieces.last())
    }
}

/// The first of the pieces, `limit` at the most.
pub open spec fn first_of(pieces: Seq<KnowledgeChunkView>, limit: nat) -> Seq<KnowledgeChunkView> {
    if pieces.len() <= limit {
        pieces
    } else {
        pieces.take(limit as int)
    }
}

/// The most similar pieces, `limit` at the most, the most similar first.
pub fn query_similar_chunks(pieces: Vec<KnowledgeChunk>, limit: usize) -> (r: Vec<KnowledgeChunk>)
    ensures
        text::views(r@) == first_of(ranked(text::views(pieces@)), limit as nat),
{
    let ghost all = text::views(pieces@);
    let n: usize = pieces.len();
    // The pieces are moved into a queue from which the first one is taken first.
    let mut rest = pieces;
    let mut queue: Vec<KnowledgeChunk> = Vec::new();
    while rest.len() > 0
        invariant
            all.len() == n,
            rest@.len() + queue@.len() == n,
            forall|k: int| 0 <= k < rest@.len() ==> (#[trigger] rest@[k])@ == all[k],
            forall|k: int| 0 <= k < queue@.len() ==> (#[trigger] queue@[k])@ == all[n - 1 - k],
        decreases rest@.len(),
    {
        let last = rest.pop();
        match last {
            Some(piece) => queue.push(piece),
            None => {},
        }
    }
    // Each piece is inserted behind those that are at least as similar.
    let mut sorted: Vec<KnowledgeChunk> = Vec::new();
    let mut i: usize = 0;
    while queue.len() > 0
        invariant
            all.len() == n,
            i + queue@.len() == n,
            forall|k: int| 0 <= k < queue@.len() ==> (#[trigger] queue@[k])@ == all[n - 1 - k],
            text::views(sorted@) == ranked(all.take(i as int)),
            sorted@.len() == i,
        decreases queue@.len(),
    {
        let next = queue.pop();
        match next {
            Some(piece) => {
                let ghost before = sorted@;
                let ghost prefix = ranked(all.take(i as int));
                let mut p: usize = sorted.len();
                assert(prefix.take(p as int) =~= prefix);
                while p > 0 && is_less_similar(sorted[p - 1].similarity, piece.similarity)
                    invariant
                        p <= sorted@.len(),
                        prefix == text::views(sorted@),
                        rank(prefix, piece@) == rank(prefix.take(p as int), piece@),
                    decreases p,
                {
                    assert(prefix.take(p as int).drop_last() =~= prefix.take(p - 1));
                    assert(prefix.take(p as int).last() == sorted@[p - 1]@);
                    p -= 1;
                }
                proof {
                    if p > 0 {
                        assert(prefix.take(p as int).last() == sorted@[p - 1]@);
                    }
                    assert(rank(prefix, piece@) == p);
                    assert(all.take(i + 1).drop_last() =~= all.take(i as int));
                    assert(all.take(i + 1).last() == piece@);
                }
                sorted.insert(p, piece);
                assert(text::views(sorted@) =~= prefix.insert(p as int, piece@));
                i += 1;
            },
            None => {},
        }
    }
    assert(all.take(i as int) =~= all);
    let ghost full = text::views(sorted@);
    while sorted.len() > limit
        invariant
            full.len() >= sorted@.len(),
            text::views(sorted@) == full.take(sorted@.len() as int),
            full.len() > limit ==> sorted@.len() >= limit,
            full.len() <= limit ==> sorted@.len() == full.len(),
        decreases sorted@.len(),
    {
        let ghost before = sorted@;
        let dropped = sorted.pop();
        assert(text::views(sorted@) =~= text::views(before).drop_last());
        assert(full.take(before.len() as int).drop_last() =~= full.take(sorted@.len() as int));
    }
    assert(full.take(full.len() as int) =~= full);
    sorted
}

/// No similarity is other than a number.
pub open spec fn all_numbers(pieces: Seq<KnowledgeChunkView>) -> bool {
    forall|i: int|
        0 <= i < pieces.len() ==> ((#[trigger] pieces[i]).similarity matches Some(s) ==> !s.is_nan())
}

/// An integer by which similarities are ordered.
pub open spec fn similarity_key(s: Option<Score>) -> int {
    match s {
        Some(x) => x.key(),
        None => -0x1_0000_0000,
    }
}

/// No piece is less similar than a later one.
pub open spec fn is_ranked(pieces: Seq<KnowledgeChunkView>) -> bool {
    forall|i: int, j: int|
        0 <= i < j < pieces.len() ==> similarity_key((#[trigger] pieces[i]).similarity)
            >= similarity_key((#[trigger] pieces[j]).similarity)
}

/// The pieces with one similarity, in their order.
pub open spec fn with_key(pieces: Seq<KnowledgeChunkView>, key: int) -> Seq<KnowledgeChunkView> {
    pieces.filter(|p: KnowledgeChunkView| similarity_key(p.similarity) == key)
}

/// The rank of a piece is between those that are at least as similar and those that
/// are less similar.
proof fn lemma_rank(sorted: Seq<KnowledgeChunkView>, piece: KnowledgeChunkView)
    requires
        is_ranked(sorted),
        all_numbers(sorted),
        piece.similarity matches Some(s) ==> !s.is_nan(),
    ensures
        rank(sorted, piece) <= sorted.len(),
        forall|i: int|
            0 <= i < rank(sorted, piece) ==> similarity_key((#[trigger] sorted[i]).similarity)
                >= similarity_key(piece.similarity),
        forall|i: int|
            rank(sorted, piece) <= i < sorted.len() ==> similarity_key(
                (#[trigger] sorted[i]).similarity,
            ) < similarity_key(piece.similarity),
    decreases sorted.len(),
{
    if sorted.len() > 0 {
        let body = sorted.drop_last();
        assert(sorted.last() == sorted[sorted.len() - 1]);
        if less_similar(sorted.last().similarity, piece.similarity) {
            assert forall|i: int| 0 <= i < body.len() implies ((
            #[trigger] body[i]).similarity matches Some(s) ==> !s.is_nan()) by {
                assert(body[i] == sorted[i]);
            }
            assert forall|i: int, j: int| 0 <= i < j < body.len() implies similarity_key(
                (#[trigger] body[i]).similarity,
            ) >= similarity_key((#[trigger] body[j]).similarity) by {
                assert(body[i] == sorted[i] && body[j] == sorted[j]);
            }
            lemma_rank(body, piece);
            assert forall|i: int| 0 <= i < rank(sorted, piece) implies similarity_key(
                (#[trigger] sorted[i]).similarity,
            ) >= similarity_key(piece.similarity) by {
                assert(sorted[i] == body[i]);
            }
            assert forall|i: int| rank(sorted, piece) <= i < sorted.len() implies similarity_key(
                (#[trigger] sorted[i]).similarity,
            ) < similarity_key(piece.similarity) by {
                if i < body.len() {
                    assert(sorted[i] == body[i]);
                }
            }
        } else {
            assert forall|i: int| 0 <= i < rank(sorted, piece) implies similarity_key(
                (#[trigger] sorted[i]).similarity,
            ) >= similarity_key(piece.similarity) by {
                if i < sorted.len() - 1 {
                    assert(similarity_key(sorted[i].similarity) >= similarity_key(
                        sorted[sorted.len() - 1].similarity,
                    ));
                }
            }
        }
    }
}

/// A piece that is inserted stands in the list once more, and all others stay.
proof fn lemma_insert_keeps(
    sorted: Seq<KnowledgeChunkView>,
    at: int,
    piece: KnowledgeChunkView,
    key: int,
)
    requires
        0 <= at <= sorted.len(),
        forall|i: int|
            at <= i < sorted.len() ==> similarity_key((#[trigger] sorted[i]).similarity)
                < similarity_key(piece.similarity),
    ensures
        sorted.insert(at, piece).to_multiset() == sorted.to_multiset().insert(piece),
        with_key(sorted.insert(at, piece), key) == (if similarity_key(piece.similarity) == key {
            with_key(sorted, key).push(piece)
        } else {
            with_key(sorted, key)
        }),
{
    let pred = |p: KnowledgeChunkView| similarity_key(p.similarity) == key;
    let head = sorted.take(at);
    let tail = sorted.skip(at);
    let one = seq![piece];
    sorted.to_multiset_ensures();
    vstd::seq_lib::to_multiset_insert(sorted, at, piece);
    assert(sorted =~= head + tail);
    assert(sorted.insert(at, piece) =~= head + one + tail);
    Seq::filter_distributes_over_add(head, tail, pred);
    Seq::filter_distributes_over_add(head + one, tail, pred);
    Seq::filter_distributes_over_add(head, one, pred);
    reveal_with_fuel(Seq::<KnowledgeChunkView>::filter, 2);
    assert(one.drop_last() =~= Seq::<KnowledgeChunkView>::empty());
    assert(one.filter(pred) =~= if similarity_key(piece.similarity) == key {
        one
    } else {
        Seq::empty()
    });
    if similarity_key(piece.similarity) == key {
        assert forall|i: int| 0 <= i < tail.len() implies !pred(#[trigger] tail[i]) by {
            assert(tail[i] == sorted[at + i]);
        }
        lemma_filter_none(tail, pred);
        assert(head.filter(pred) + one + Seq::empty() =~= (head.filter(pred)
            + Seq::empty()).push(piece));
    } else {
        assert(head.filter(pred) + Seq::empty() + tail.filter(pred) =~= head.filter(pred)
            + tail.filter(pred));
    }
}

/// Nothing is left by a filter that no piece passes.
proof fn lemma_filter_none(
    pieces: Seq<KnowledgeChunkView>,
    pred: spec_fn(KnowledgeChunkView) -> bool,
)
    requires
        forall|i: int| 0 <= i < pieces.len() ==> !pred(#[trigger] pieces[i]),
    ensures
        pieces.filter(pred) == Seq::<KnowledgeChunkView>::empty(),
    decreases pieces.len(),
{
    reveal(Seq::filter);
    if pieces.len() > 0 {
        let body = pieces.drop_last();
        assert(pieces.last() == pieces[pieces.len() - 1]);
        assert forall|i: int| 0 <= i < body.len() implies !pred(#[trigger] body[i]) by {
            assert(body[i] == pieces[i]);
        }
        lemma_filter_none(body, pred);
    }
}

/// Ranking puts the most similar pieces first, loses none and adds none, and keeps
/// the order of pieces of the same similarity.
pub proof fn ranking_ranks(pieces: Seq<KnowledgeChunkView>, key: int)
    requires
        all_numbers(pieces),
    ensures
        is_ranked(ranked(pieces)),
        all_numbers(ranked(pieces)),
        ranked(pieces).len() == pieces.len(),
        ranked(pieces).to_multiset() == pieces.to_multiset(),
        with_key(ranked(pieces), key) == with_key(pieces, key),
    decreases pieces.len(),
{
    if pieces.len() > 0 {
        let body = pieces.drop_last();
        let piece = pieces.last();
        let sorted = ranked(body);
        assert(piece == pieces[pieces.len() - 1]);
        assert forall|i: int| 0 <= i < body.len() implies ((
        #[trigger] body[i]).similarity matches Some(s) ==> !s.is_nan()) by {
            assert(body[i] == pieces[i]);
        }
        ranking_ranks(body, key);
        lemma_rank(sorted, piece);
        let at = rank(sorted, piece) as int;
        let r = ranked(pieces);
        lemma_insert_keeps(sorted, at, piece, key);
        assert forall|i: int| 0 <= i < r.len() implies ((
        #[trigger] r[i]).similarity matches Some(s) ==> !s.is_nan()) by {
            if i < at {
                assert(r[i] == sorted[i]);
            } else if i > at {
                assert(r[i] == sorted[i - 1]);
            }
        }
        assert forall|i: int, j: int| 0 <= i < j < r.len() implies similarity_key(
            (#[trigger] r[i]).similarity,
        ) >= similarity_key((#[trigger] r[j]).similarity) by {
            let a = if i < at {
                sorted[i]
            } else if i == at {
                piece
            } else {
                sorted[i - 1]
            };
            let b = if j < at {
                sorted[j]
            } else if j == at {
                piece
            } else {
                sorted[j - 1]
            };
            assert(r[i] == a && r[j] == b);
        }
        body.to_multiset_ensures();
        pieces.to_multiset_ensures();
        assert(pieces =~= body.push(piece));
        assert(body.push(piece).to_multiset() == body.to_multiset().insert(piece));
        let pred = |p: KnowledgeChunkView| similarity_key(p.similarity) == key;
        reveal(Seq::filter);
        assert(pieces.filter(pred) == if pred(piece) {
            body.filter(pred).push(piece)
        } else {
            body.filter(pred)
        });
    }
}

/// What is left out by the limit is no more similar than what is given back.
pub proof fn best_pieces_are_kept(pieces: Seq<KnowledgeChunkView>, limit: nat, i: int, j: int)
    requires
        all_numbers(pieces),
        0 <= i < limit <= j < pieces.len(),
    ensures
        first_of(ranked(pieces), limit).len() == limit,
        similarity_key(first_of(ranked(pieces), limit)[i].similarity) >= similarity_key(
            ranked(pieces)[j].similarity,
        ),
{
    ranking_ranks(pieces, 0);
}

/// A result as it is written and read: beside the list of its items it holds the
/// first one in columns of its own. The two lists are missing where what is
/// written of them cannot be read.
#[derive(Debug, Clone)]
pub struct ResultRow {
    pub id: String,
    pub course_id: String,
    pub question: String,
    pub question_zh: String,
    pub answer: String,
    pub explanation: String,
    pub sources: Option<Vec<SolveSource>>,
    pub items: Option<Vec<SolvedQuestion>>,
    pub answer_preview: String,
    pub confidence: Score,
    pub low_confidence: i64,
    pub suggested_file_stem: String,
    pub output_path: String,
    pub created_at: String,
}

/// The view of a row.
pub struct ResultRowView {
    pub id: Seq<char>,
    pub course_id: Seq<char>,
    pub question: Seq<char>,
    pub question_zh: Seq<char>,
    pub answer: Seq<char>,
    pub explanation: Seq<char>,
    pub sources: Option<Seq<SolveSourceView>>,
    pub items: Option<Seq<SolvedQuestionView>>,
    pub answer_preview: Seq<char>,
    pub confidence: Score,
    pub low_confidence: i64,
    pub suggested_file_stem: Seq<char>,
    pub output_path: Seq<char>,
    pub created_at: Seq<char>,
}

impl View for ResultRow {
    type V = ResultRowView;

    open spec fn view(&self) -> ResultRowView {
        ResultRowView {
            id: self.id@,
            course_id: self.course_id@,
            question: self.question@,
            question_zh: self.question_zh@,
            answer: self.answer@,
            explanation: self.explanation@,
            sources: match self.sources {
                Some(sources) => Some(text::views(sources@)),
                None => None,
            },
            items: match self.items {
                Some(items) => Some(text::views(items@)),
                None => None,
            },
            answer_preview: self.answer_preview@,
            confidence: self.confidence,
            low_confidence: self.low_confidence,
            suggested_file_stem: self.suggested_file_stem@,
            output_path: self.output_path@,
            created_at: self.created_at@,
        }
    }
}

/// The row of a result.
pub open spec fn row_of(result: SolveResultView) -> ResultRowView {
    let some = result.items.len() > 0;
    ResultRowView {
        id: result.id,
        course_id: result.course_id,
        question: if some {
            result.items[0].question
        } else {
            Seq::empty()
        },
        question_zh: if some {
            result.items[0].question_zh
        } else {
            Seq::empty()
        },
        answer: if some {
            result.items[0].answer
        } else {
            Seq::empty()
        },
        explanation: if some {
            result.items[0].explanation
        } else {
            Seq::empty()
        },
        sources: Some(
            if some {
                result.items[0].sources
            } else {
                Seq::empty()
            },
        ),
        items: Some(result.items),
        answer_preview: result.answer_preview,
        confidence: result.confidence,
        low_confidence: if result.low_confidence {
            1
        } else {
            0
        },
        suggested_file_stem: result.suggested_file_stem,
        output_path: result.output_path,
        created_at: result.created_at,
    }
}

/// The row of a result.
pub fn save_result(result: SolveResult) -> (r: ResultRow)
    ensures
        r@ == row_of(result@),
{
    let mut question = String::new();
    let mut question_zh = String::new();
    let mut answer = String::new();
    let mut explanation = String::new();
    let mut sources: Vec<SolveSource> = Vec::new();
    assert(text::views(sources@) =~= Seq::<SolveSourceView>::empty());
    if result.items.len() > 0 {
        let primary = &result.items[0];
        question = primary.question.clone();
        question_zh = primary.question_zh.clone();
        answer = primary.answer.clone();
        explanation = primary.explanation.clone();
        sources = models::clone_sources(&primary.sources);
        assert(result@.items[0] == primary@);
    }
    ResultRow {
        id: result.id,
        course_id: result.course_id,
        question,
        question_zh,
        answer,
        explanation,
        sources: Some(sources),
        items: Some(result.items),
        answer_preview: result.answer_preview,
        confidence: result.confidence,
        low_confidence: if result.low_confidence {
            1
        } else {
            0
        },
        suggested_file_stem: result.suggested_file_stem,
        output_path: result.output_path,
        created_at: result.created_at,
    }
}

/// The item that a row without a list of items gives.
pub open spec fn only_item(row: ResultRowView) -> SolvedQuestionView {
    SolvedQuestionView {
        ordinal: 1,
        question: row.question,
        question_zh: row.question_zh,
        answer: row.answer,
        answer_brief: row.answer,
        explanation: row.explanation,
        sources: match row.sources {
            Some(sources) => sources,
            None => Seq::empty(),
        },
        confidence: row.confidence,
        low_confidence: row.low_confidence == 1,
    }
}

/// The items that a row gives: never none.
pub open spec fn items_of(row: ResultRowView) -> Seq<SolvedQuestionView> {
    match row.items {
        Some(items) => if items.len() > 0 {
            items
        } else {
            seq![only_item(row)]
        },
        None => seq![only_item(row)],
    }
}

/// The result that a row gives.
pub open spec fn result_of(row: ResultRowView) -> SolveResultView {
    SolveResultView {
        id: row.id,
        course_id: row.course_id,
        item_count: items_of(row).len() as usize,
        items: items_of(row),
        answer_preview: row.answer_preview,
        confidence: row.confidence,
        low_confidence: row.low_confidence == 1,
        suggested_file_stem: row.suggested_file_stem,
        output_path: row.output_path,
        created_at: row.created_at,
    }
}

/// The result that a row gives.
pub fn row_to_result(row: ResultRow) -> (r: SolveResult)
    ensures
        r@ == result_of(row@),
{
    let mut items: Vec<SolvedQuestion> = match row.items {
        Some(items) => items,
        None => Vec::new(),
    };
    let ghost given = text::views(items@);
    if items.len() == 0 {
        let sources: Vec<SolveSource> = match row.sources {
            Some(sources) => sources,
            None => Vec::new(),
        };
        assert(row.sources is None ==> text::views(sources@) =~= Seq::<SolveSourceView>::empty());
        items.push(
            SolvedQuestion {
                ordinal: 1,
                question: row.question,
                question_zh: row.question_zh,
                answer_brief: row.answer.clone(),
                answer: row.answer,
                explanation: row.explanation,
                sources,
                confidence: row.confidence,
                low_confidence: row.low_confidence == 1,
            },
        );
        assert(text::views(items@) =~= seq![only_item(row@)]);
    }
    SolveResult {
        id: row.id,
        course_id: row.course_id,
        item_count: items.len(),
        items,
        answer_preview: row.answer_preview,
        confidence: row.confidence,
        low_confidence: row.low_confidence == 1,
        suggested_file_stem: row.suggested_file_stem,
        output_path: row.output_path,
        created_at: row.created_at,
    }
}

/// How many of the rows stand before `row`: those from the last one on that were made
/// before it follow it.
pub open spec fn newest_place(rows: Seq<ResultRowView>, row: ResultRowView) -> nat
    decreases rows.len(),
{
    if rows.len() > 0 && !documents::in_order(row.created_at, rows.last().created_at) {
        newest_place(rows.drop_last(), row)
    } else {
        rows.len()
    }
}

/// The rows by the time at which they were made, the last one first; rows of the same time
/// keep their order.
pub open spec fn newest_first(rows: Seq<ResultRowView>) -> Seq<ResultRowView>
    decreases rows.len(),
{
    if rows.len() == 0 {
        rows
    } else {
        let rest = newest_first(rows.drop_last());
        rest.insert(newest_place(rest, rows.last()) as int, rows.last())
    }
}

/// The results of the last rows, `limit` at the most, the last one first.
pub open spec fn recent(rows: Seq<ResultRowView>, limit: nat) -> Seq<SolveResultView> {
    let sorted = newest_first(rows);
    Seq::new(
        if sorted.len() <= limit {
            sorted.len()
        } else {
            limit
        },
        |i: int| result_of(sorted[i]),
    )
}

/// The rows by the time at which they were made, the last one first.
fn sort_rows(rows: Vec<ResultRow>) -> (r: Vec<ResultRow>)
    ensures
        text::views(r@) == newest_first(text::views(rows@)),
{
    let ghost all = text::views(rows@);
    // The rows are moved into a queue from which the first one is taken first.
    let mut queue = reversed(rows);
    let n: usize = queue.len();
    let mut sorted: Vec<ResultRow> = Vec::new();
    let mut i: usize = 0;
    assert(all.len() == n);
    assert(text::views(sorted@) =~= newest_first(all.take(0)));
    while queue.len() > 0
        invariant
            all.len() == n,
            i + queue@.len() == n,
            forall|k: int| 0 <= k < queue@.len() ==> (#[trigger] queue@[k])@ == all[n - 1 - k],
            text::views(sorted@) == newest_first(all.take(i as int)),
        decreases queue@.len(),
    {
        match queue.pop() {
            Some(row) => {
                let ghost prefix = text::views(sorted@);
                let mut p: usize = sorted.len();
                assert(prefix.take(p as int) =~= prefix);
                while p > 0 && !documents::comes_first(
                    row.created_at.as_str(),
                    sorted[p - 1].created_at.as_str(),
                )
                    invariant
                        p <= sorted@.len(),
                        prefix == text::views(sorted@),
                        newest_place(prefix, row@) == newest_place(prefix.take(p as int), row@),
                    decreases p,
                {
                    assert(prefix.take(p as int).drop_last() =~= prefix.take(p - 1));
                    assert(prefix.take(p as int).last() == sorted@[p - 1]@);
                    p -= 1;
                }
                proof {
                    if p > 0 {
                        assert(prefix.take(p as int).last() == sorted@[p - 1]@);
                    }
                    assert(newest_place(prefix, row@) == p);
                    assert(all.take(i + 1).drop_last() =~= all.take(i as int));
                    assert(all.take(i + 1).last() == row@);
                }
                sorted.insert(p, row);
                assert(text::views(sorted@) =~= prefix.insert(p as int, row@));
                i += 1;
            },
            None => {},
        }
    }
    assert(all.take(i as int) =~= all);
    sorted
}

/// The rows in the opposite order.
fn reversed(rows: Vec<ResultRow>) -> (r: Vec<ResultRow>)
    ensures
        r@ == rows@.reverse(),
{
    let ghost all = rows@;
    let n: usize = rows.len();
    let mut rest = rows;
    let mut queue: Vec<ResultRow> = Vec::new();
    while rest.len() > 0
        invariant
            all.len() == n,
            rest@.len() + queue@.len() == n,
            forall|k: int| 0 <= k < rest@.len() ==> #[trigger] rest@[k] == all[k],
            forall|k: int| 0 <= k < queue@.len() ==> #[trigger] queue@[k] == all[n - 1 - k],
        decreases rest@.len(),
    {
        match rest.pop() {
            Some(row) => queue.push(row),
            None => {},
        }
    }
    assert(queue@ =~= all.reverse());
    queue
}

/// The results of the last rows, `limit` at the most, the last one first.
pub fn recent_results(rows: Vec<ResultRow>, limit: usize) -> (r: Vec<SolveResult>)
    ensures
        text::views(r@) == recent(text::views(rows@), limit as nat),
{
    let sorted = sort_rows(rows);
    let ghost all = text::views(sorted@);
    let n: usize = sorted.len();
    let mut queue = reversed(sorted);
    let mut results: Vec<SolveResult> = Vec::new();
    assert(all.len() == n);
    while queue.len() > 0 && results.len() < limit
        invariant
            all.len() == n,
            queue@.len() + results@.len() == n,
            results@.len() <= limit,
            forall|k: int| 0 <= k < queue@.len() ==> (#[trigger] queue@[k])@ == all[n - 1 - k],
            forall|k: int|
                0 <= k < results@.len() ==> (#[trigger] results@[k])@ == result_of(all[k]),
        decreases queue@.len(),
    {
        match queue.pop() {
            Some(row) => results.push(row_to_result(row)),
            None => {},
        }
    }
    assert(text::views(results@) =~= recent(text::views(rows@), limit as nat));
    results
}

/// No row was made before a later one.
pub open spec fn is_newest_first(rows: Seq<ResultRowView>) -> bool {
    forall|i: int, j: int|
        0 <= i < j < rows.len() ==> documents::in_order(
            (#[trigger] rows[j]).created_at,
            (#[trigger] rows[i]).created_at,
        )
}

/// The place of a row is between those that were not made before it and those that were
/// not made after it.
proof fn lemma_newest_place(rows: Seq<ResultRowView>, row: ResultRowView)
    requires
        is_newest_first(rows),
    ensures
        newest_place(rows, row) <= rows.len(),
        forall|i: int|
            0 <= i < newest_place(rows, row) ==> documents::in_order(
                row.created_at,
                (#[trigger] rows[i]).created_at,
            ),
        forall|i: int|
            newest_place(rows, row) <= i < rows.len() ==> documents::in_order(
                (#[trigger] rows[i]).created_at,
                row.created_at,
            ),
    decreases rows.len(),
{
    if rows.len() > 0 {
        let body = rows.drop_last();
        let last = rows[rows.len() - 1];
        assert(rows.last() == last);
        if !documents::in_order(row.created_at, last.created_at) {
            documents::lemma_order_total(row.created_at, last.created_at);
            assert forall|i: int, j: int| 0 <= i < j < body.len() implies documents::in_order(
                (#[trigger] body[j]).created_at,
                (#[trigger] body[i]).created_at,
            ) by {
                assert(body[i] == rows[i] && body[j] == rows[j]);
            }
            lemma_newest_place(body, row);
            assert forall|i: int| 0 <= i < newest_place(rows, row) implies documents::in_order(
                row.created_at,
                (#[trigger] rows[i]).created_at,
            ) by {
                assert(rows[i] == body[i]);
            }
            assert forall|i: int|
                newest_place(rows, row) <= i < rows.len() implies documents::in_order(
                (#[trigger] rows[i]).created_at,
                row.created_at,
            ) by {
                if i < body.len() {
                    assert(rows[i] == body[i]);
                }
            }
        } else {
            assert forall|i: int| 0 <= i < rows.len() implies documents::in_order(
                row.created_at,
                (#[trigger] rows[i]).created_at,
            ) by {
                if i < rows.len() - 1 {
                    documents::lemma_order_transitive(
                        row.created_at,
                        last.created_at,
                        rows[i].created_at,
                    );
                }
            }
        }
    }
}

/// Sorting puts the last rows first, loses none and adds none.
proof fn lemma_newest_first(rows: Seq<ResultRowView>)
    ensures
        is_newest_first(newest_first(rows)),
        newest_first(rows).len() == rows.len(),
        newest_first(rows).to_multiset() == rows.to_multiset(),
    decreases rows.len(),
{
    if rows.len() > 0 {
        let body = rows.drop_last();
        let row = rows.last();
        let sorted = newest_first(body);
        lemma_newest_first(body);
        lemma_newest_place(sorted, row);
        let at = newest_place(sorted, row) as int;
        let r = newest_first(rows);
        assert forall|i: int, j: int| 0 <= i < j < r.len() implies documents::in_order(
            (#[trigger] r[j]).created_at,
            (#[trigger] r[i]).created_at,
        ) by {
            let a = if i < at {
                sorted[i]
            } else if i == at {
                row
            } else {
                sorted[i - 1]
            };
            let b = if j < at {
                sorted[j]
            } else if j == at {
                row
            } else {
                sorted[j - 1]
            };
            assert(r[i] == a && r[j] == b);
        }
        vstd::seq_lib::to_multiset_insert(sorted, at, row);
        body.to_multiset_ensures();
        assert(rows =~= body.push(row));
        assert(body.push(row).to_multiset() == body.to_multiset().insert(row));
    }
}

/// Results that can be stored: they have an item, and count their items.
pub open spec fn all_countable(results: Seq<SolveResultView>) -> bool {
    forall|i: int|
        0 <= i < results.len() ==> (#[trigger] results[i]).items.len() > 0
            && results[i].item_count == results[i].items.len()
}

/// Saved results come back as they were saved, the last ones first: as many as were saved,
/// but no more than the limit; and none that is left out was made after one that is given
/// back. Where no two have the same identifier, each comes back under its own.
pub proof fn saved_results_come_back_newest_first(saved: Seq<SolveResultView>, limit: nat)
    requires
        all_countable(saved),
    ensures
        ({
            let rows = saved.map_values(|result: SolveResultView| row_of(result));
            let given = recent(rows, limit);
            &&& given.len() == (if saved.len() <= limit {
                saved.len()
            } else {
                limit
            })
            &&& forall|i: int, j: int|
                0 <= i < j < given.len() ==> documents::in_order(
                    (#[trigger] given[j]).created_at,
                    (#[trigger] given[i]).created_at,
                )
            &&& forall|i: int| 0 <= i < given.len() ==> saved.contains(#[trigger] given[i])
            &&& forall|i: int, k: int|
                0 <= i < given.len() && 0 <= k < saved.len() && !given.contains(
                    #[trigger] saved[k],
                ) ==> documents::in_order(saved[k].created_at, (#[trigger] given[i]).created_at)
            &&& (forall|k: int, m: int|
                0 <= k < m < saved.len() ==> (#[trigger] saved[k]).id != (#[trigger] saved[m]).id)
                ==> forall|i: int, k: int|
                0 <= i < given.len() && 0 <= k < saved.len() && (#[trigger] given[i]).id == (
                #[trigger] saved[k]).id ==> given[i] == saved[k]
        }),
{
    let rows = saved.map_values(|result: SolveResultView| row_of(result));
    let sorted = newest_first(rows);
    let given = recent(rows, limit);
    lemma_newest_first(rows);
    rows.to_multiset_ensures();
    sorted.to_multiset_ensures();
    assert forall|i: int| 0 <= i < sorted.len() implies exists|k: int|
        0 <= k < saved.len() && #[trigger] sorted[i] == row_of(saved[k]) && result_of(sorted[i])
            == #[trigger] saved[k] by {
        assert(sorted.contains(sorted[i]));
        assert(sorted.to_multiset().count(sorted[i]) > 0);
        assert(rows.contains(sorted[i]));
        let k = choose|k: int| 0 <= k < rows.len() && rows[k] == sorted[i];
        assert(saved[k].items.len() > 0);
        results_read_back(saved[k]);
    }
    assert forall|i: int| 0 <= i < given.len() implies saved.contains(#[trigger] given[i]) by {
        let k = choose|k: int|
            0 <= k < saved.len() && sorted[i] == row_of(saved[k]) && result_of(sorted[i])
                == #[trigger] saved[k];
        assert(given[i] == saved[k]);
    }
    assert forall|i: int, k: int|
        0 <= i < given.len() && 0 <= k < saved.len() && !given.contains(
            #[trigger] saved[k],
        ) implies documents::in_order(saved[k].created_at, (#[trigger] given[i]).created_at) by {
        assert(rows[k] == row_of(saved[k]));
        assert(rows.contains(rows[k]));
        assert(rows.to_multiset().count(rows[k]) > 0);
        assert(sorted.contains(rows[k]));
        let j = choose|j: int| 0 <= j < sorted.len() && sorted[j] == rows[k];
        assert(saved[k].items.len() > 0);
        results_read_back(saved[k]);
        if j < given.len() {
            assert(given[j] == saved[k]);
        }
        assert(documents::in_order(sorted[j].created_at, sorted[i].created_at));
    }
    assert forall|i: int, j: int| 0 <= i < j < given.len() implies documents::in_order(
        (#[trigger] given[j]).created_at,
        (#[trigger] given[i]).created_at,
    ) by {
        assert(documents::in_order(sorted[j].created_at, sorted[i].created_at));
    }
}

/// What is read of a result with at least one item is what was written.
pub proof fn results_read_back(result: SolveResultView)
    requires
        result.items.len() > 0,
        result.item_count == result.items.len(),
    ensures
        result_of(row_of(result)) == result,
{
}

/// Every result that is read has an item.
pub proof fn read_results_have_items(row: ResultRowView)
    ensures
        result_of(row).items.len() > 0,
{
}

/// The first item of a result survives the loss of the list of its items, but for
/// its short answer, for which the whole answer stands then, and for its own
/// confidence and review mark, for which those of the result stand.
pub proof fn first_item_survives(result: SolveResultView)
    requires
        result.items.len() > 0,
    ensures
        result_of((ResultRowView { items: None, ..row_of(result) })).items == seq![
            (SolvedQuestionView {
                ordinal: 1,
                answer_brief: result.items[0].answer,
                confidence: result.confidence,
                low_confidence: result.low_confidence,
                ..result.items[0]
            }),
        ],
{
}

/// Sorting rows loses none and adds none.
pub proof fn sorting_rows_keeps_them(rows: Seq<ResultRowView>)
    ensures
        newest_first(rows).len() == rows.len(),
        newest_first(rows).to_multiset() == rows.to_multiset(),
{
    lemma_newest_first(rows);
}

/// The statement names the table, the column and its definition, in this order.
pub proof fn statements_name_table_and_column(
    table: Seq<char>,
    column: Seq<char>,
    definition: Seq<char>,
)
    ensures
        text::starts_with(
            column_statement(table, column, definition),
            "ALTER TABLE "@ + table + " ADD COLUMN "@ + column,
        ),
        text::ends_with(column_statement(table, column, definition), " "@ + definition),
        column_statement(table, column, definition).len() == 25 + table.len() + column.len()
            + definition.len(),
{
    reveal_strlit("ALTER TABLE ");
    reveal_strlit(" ADD COLUMN ");
    reveal_strlit(" ");
    let s = column_statement(table, column, definition);
    let front = "ALTER TABLE "@ + table + " ADD COLUMN "@ + column;
    let end = " "@ + definition;
    assert(s.take(front.len() as int) =~= front);
    assert(s.skip(s.len() - end.len()) =~= end);
}

/// A new course gets the new identifier and its name; one that exists keeps its identifier
/// and is only marked with the time.
pub proof fn courses_are_written_once(
    name: Seq<char>,
    id: Seq<char>,
    new_id: Seq<char>,
    now: Seq<char>,
)
    ensures
        course_write(name, None, new_id, now) == (
            new_id,
            CourseWriteView::Insert { id: new_id, name, created_at: now },
        ),
        course_write(name, Some(id), new_id, now) == (
            id,
            CourseWriteView::Touch { id, updated_at: now },
        ),
{
}

/// The row of a document holds what is known of it, each under its own name.
pub proof fn documents_are_written_whole(
    course_id: Seq<char>,
    document: ParsedDocumentView,
    id: Seq<char>,
    now: Seq<char>,
)
    ensures
        ({
            let row = document_row(course_id, document, id, now);
            &&& row.id == id && row.course_id == course_id
            &&& row.file_name == document.file_name && row.path == document.path
            &&& row.kind == document.kind && row.imported_at == now
        }),
{
}

/// A course is shown with what its row holds, each under its own name, and is active just
/// where its identifier is the active one.
pub proof fn courses_are_shown_whole(row: CourseRow, active: Option<Seq<char>>)
    ensures
        ({
            let course = course_of(row, active);
            &&& course.id == row.id@ && course.name == row.name@
            &&& course.updated_at == row.updated_at@
            &&& course.document_count == row.document_count
            &&& course.chunk_count == row.chunk_count
            &&& course.is_active <==> (active matches Some(id) && id == row.id@)
        }),
{
}

/// The similarity is a number, by its bits.
pub open spec fn has_number(piece: KnowledgeChunkView) -> bool {
    piece.similarity matches Some(s) ==> s.bits <= 0x7f80_0000 || 0x8000_0000 <= s.bits
        <= 0xff80_0000
}

/// Of two ranked pieces the first one has the greater similarity, by the bits of the
/// numbers; those without one stand behind all others.
pub proof fn greater_similarities_come_first(pieces: Seq<KnowledgeChunkView>, i: int, j: int)
    requires
        forall|k: int| 0 <= k < pieces.len() ==> has_number(#[trigger] pieces[k]),
        0 <= i < j < pieces.len(),
    ensures
        ranked(pieces).len() == pieces.len(),
        ({
            let a = ranked(pieces)[i].similarity;
            let b = ranked(pieces)[j].similarity;
            &&& a is None ==> b is None
            &&& a matches Some(x) ==> (b matches Some(y) ==> {
                &&& x.bits < 0x8000_0000 && y.bits < 0x8000_0000 ==> x.bits >= y.bits
                &&& x.bits >= 0x8000_0000 && y.bits >= 0x8000_0000 ==> x.bits <= y.bits
                &&& x.bits >= 0x8000_0000 && y.bits < 0x8000_0000 ==> x.bits == 0x8000_0000
                    && y.bits == 0
            })
        }),
{
    assert forall|k: int| 0 <= k < pieces.len() implies ((
    #[trigger] pieces[k]).similarity matches Some(s) ==> !s.is_nan()) by {
        assert(has_number(pieces[k]));
    }
    ranking_ranks(pieces, 0);
    let r = ranked(pieces);
    assert(similarity_key(r[i].similarity) >= similarity_key(r[j].similarity));
    assert(r[i].similarity matches Some(s) ==> !s.is_nan());
    assert(r[j].similarity matches Some(s) ==> !s.is_nan());
}

/// As many pieces are given back as the limit allows, and all of them where there are no
/// more; those that are given back stand first among the ranked ones.
pub proof fn no_more_pieces_than_the_limit(
    pieces: Seq<KnowledgeChunkView>,
    limit: nat,
    i: int,
)
    requires
        0 <= i < first_of(pieces, limit).len(),
    ensures
        first_of(pieces, limit).len() <= limit,
        first_of(pieces, limit).len() <= pieces.len(),
        first_of(pieces, limit).len() == limit || first_of(pieces, limit).len() == pieces.len(),
        first_of(pieces, limit)[i] == pieces[i],
{
}

/// A result is written with what it holds, each in the column of its own name, and with its
/// first item in columns of their own.
pub proof fn results_are_written_whole(result: SolveResultView)
    ensures
        ({
            let row = row_of(result);
            &&& row.id == result.id && row.course_id == result.course_id
            &&& row.items == Some(result.items)
            &&& row.answer_preview == result.answer_preview
            &&& row.confidence == result.confidence
            &&& row.low_confidence == 1 <==> result.low_confidence
            &&& row.low_confidence == 0 <==> !result.low_confidence
            &&& row.suggested_file_stem == result.suggested_file_stem
            &&& row.output_path == result.output_path && row.created_at == result.created_at
            &&& result.items.len() > 0 ==> {
                let first = result.items[0];
                &&& row.question == first.question && row.question_zh == first.question_zh
                &&& row.answer == first.answer && row.explanation == first.explanation
                &&& row.sources == Some(first.sources)
            }
        }),
{
}

/// A result is read with what its row holds, each from the column of its own name; a row
/// without a list of items gives the one of its columns.
pub proof fn results_are_read_whole(row: ResultRowView)
    ensures
        ({
            let result = result_of(row);
            &&& result.id == row.id && result.course_id == row.course_id
            &&& result.answer_preview == row.answer_preview
            &&& result.confidence == row.confidence
            &&& result.low_confidence <==> row.low_confidence == 1
            &&& result.suggested_file_stem == row.suggested_file_stem
            &&& result.output_path == row.output_path && result.created_at == row.created_at
            &&& row.items matches Some(items) ==> (items.len() > 0 ==> result.items == items)
            &&& (row.items is None || row.items->0.len() == 0) ==> {
                let only = result.items[0];
                &&& result.items.len() == 1 && only.ordinal == 1
                &&& only.question == row.question && only.question_zh == row.question_zh
                &&& only.answer == row.answer && only.answer_brief == row.answer
                &&& only.explanation == row.explanation
                &&& row.sources matches Some(sources) ==> only.sources == sources
                &&& row.sources is None ==> only.sources.len() == 0
            }
            &&& result.items.len() <= usize::MAX ==> result.item_count == result.items.len()
        }),
{
}

/// What is shown of a row is what it holds, each column under its own name.
pub proof fn views_show_the_row(row: ResultRow)
    ensures
        row@.id == row.id@ && row@.course_id == row.course_id@ && row@.question == row.question@
            && row@.question_zh == row.question_zh@ && row@.answer == row.answer@
            && row@.explanation == row.explanation@ && row@.answer_preview == row.answer_preview@
            && row@.confidence == row.confidence && row@.low_confidence == row.low_confidence
            && row@.suggested_file_stem == row.suggested_file_stem@ && row@.output_path
            == row.output_path@ && row@.created_at == row.created_at@,
        row.items matches Some(items) ==> row@.items == Some(text::views(items@)),
        row.items is None ==> row@.items is None,
        row.sources matches Some(sources) ==> row@.sources == Some(text::views(sources@)),
        row.sources is None ==> row@.sources is None,
{
}

} // verus!
