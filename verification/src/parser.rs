//! Course documents: their text, and the chunks in which it is stored.

use vstd::prelude::*;
use crate::patterns;
use crate::text;

verus! {

/// The paragraphs of a text: its pieces between blank lines, trimmed, without
/// the empty ones.
pub open spec fn paragraphs(s: Seq<char>) -> Seq<Seq<char>> {
    text::non_blank(text::split_on(s, "\n\n"@))
}

/// The chunks that are done and the one that is being filled.
pub struct Packing {
    pub chunks: Seq<Seq<char>>,
    pub current: Seq<char>,
}

/// The last `n` characters of `s`, or all of them.
pub open spec fn last_chars(s: Seq<char>, n: nat) -> Seq<char> {
    if s.len() <= n {
        s
    } else {
        s.skip(s.len() - n)
    }
}

/// Whether the current chunk is closed before a paragraph is added.
pub open spec fn closes(current: Seq<char>, paragraph: Seq<char>, max_chars: nat) -> bool {
    current.len() > 0 && text::utf8_len(current) + text::utf8_len(paragraph) + 2 > max_chars
}

/// The current chunk with a paragraph added.
pub open spec fn with_paragraph(current: Seq<char>, paragraph: Seq<char>) -> Seq<char> {
    if current.len() > 0 {
        current + "\n\n"@ + paragraph
    } else {
        paragraph
    }
}

/// One paragraph further: where it would make the current chunk longer than
/// `max_chars` bytes, that one is closed, and the next one starts with its last
/// `overlap` characters.
pub open spec fn pack_one(p: Packing, paragraph: Seq<char>, max_chars: nat, overlap: nat) -> Packing {
    if closes(p.current, paragraph, max_chars) {
        Packing {
            chunks: p.chunks.push(text::trim(p.current)),
            current: with_paragraph(last_chars(p.current, overlap), paragraph),
        }
    } else {
        Packing { chunks: p.chunks, current: with_paragraph(p.current, paragraph) }
    }
}

/// All paragraphs packed.
pub open spec fn packed(pars: Seq<Seq<char>>, max_chars: nat, overlap: nat) -> Packing
    decreases pars.len(),
{
    if pars.len() == 0 {
        Packing { chunks: Seq::empty(), current: Seq::empty() }
    } else {
        pack_one(packed(pars.drop_last(), max_chars, overlap), pars.last(), max_chars, overlap)
    }
}

/// The chunks of a text.
pub open spec fn chunks_of(s: Seq<char>, max_chars: nat, overlap: nat) -> Seq<Seq<char>> {
    let p = packed(paragraphs(s), max_chars, overlap);
    if text::trim(p.current).len() > 0 {
        p.chunks.push(text::trim(p.current))
    } else {
        p.chunks
    }
}

/// The last `n` characters of `s`, or all of them.
fn tail_of(s: &str, n: usize) -> (r: String)
    ensures
        r@ == last_chars(s@, n as nat),
{
    let c = text::chars_of(s);
    if c.len() <= n {
        assert(c@.subrange(0, c@.len() as int) =~= c@);
        text::string_of(&c)
    } else {
        assert(c@.subrange(c@.len() - n, c@.len() as int) =~= s@.skip(s@.len() - n));
        text::string_from(&c, c.len() - n, c.len())
    }
}

/// The chunks of a text: its paragraphs, as many to a chunk as fit into
/// `max_chars` bytes, where each chunk after the first starts with the last
/// `overlap` characters of the one before.
pub fn chunk_text(text: &str, max_chars: usize, overlap: usize) -> (r: Vec<String>)
    ensures
        text::views(r@) == chunks_of(text@, max_chars as nat, overlap as nat),
{
    proof {
        reveal_strlit("\n\n");
    }
    let pars = text::split_non_blank(text, "\n\n");
    let ghost all = text::views(pars@);
    let mut chunks: Vec<String> = Vec::new();
    let mut current = String::new();
    let mut i: usize = 0;
    assert(text::views(chunks@) =~= Seq::<Seq<char>>::empty());
    while i < pars.len()
        invariant
            i <= pars@.len(),
            all == text::views(pars@),
            text::views(chunks@) == packed(all.take(i as int), max_chars as nat, overlap as nat).chunks,
            current@ == packed(all.take(i as int), max_chars as nat, overlap as nat).current,
        decreases pars@.len() - i,
    {
        let paragraph = &pars[i];
        let ghost p = Packing { chunks: text::views(chunks@), current: current@ };
        proof {
            assert(all.take(i + 1).drop_last() =~= all.take(i as int));
            assert(all.take(i + 1).last() == paragraph@);
        }
        let total: u128 = text::byte_len(current.as_str()) as u128 + text::byte_len(
            paragraph.as_str(),
        ) as u128 + 2;
        if total > max_chars as u128 && !current.as_str().is_empty() {
            let ghost before = chunks@;
            let done = text::trimmed(current.as_str());
            chunks.push(done);
            assert(text::views(chunks@) =~= text::views(before).push(done@));
            current = tail_of(current.as_str(), overlap);
        }
        if !current.as_str().is_empty() {
            current.append("\n\n");
        }
        current.append(paragraph.as_str());
        proof {
            let q = pack_one(p, paragraph@, max_chars as nat, overlap as nat);
            assert(current@ =~= q.current);
        }
        i += 1;
    }
    assert(all.take(i as int) =~= all);
    let last = text::trimmed(current.as_str());
    if !last.as_str().is_empty() {
        let ghost before = chunks@;
        chunks.push(last);
        assert(text::views(chunks@) =~= text::views(before).push(last@));
    }
    chunks
}

/// A paragraph stands in one of the chunks that are done, or in the current one.
spec fn is_packed(p: Packing, paragraph: Seq<char>) -> bool {
    ||| exists|m: int| 0 <= m < p.chunks.len() && text::contains(#[trigger] p.chunks[m], paragraph)
    ||| text::contains(p.current, paragraph)
}

/// A chunk to which a paragraph is added holds that paragraph, and what it held
/// before.
proof fn lemma_with_paragraph(current: Seq<char>, paragraph: Seq<char>, other: Seq<char>)
    ensures
        text::contains(with_paragraph(current, paragraph), paragraph),
        text::contains(current, other) && current.len() > 0 ==> text::contains(
            with_paragraph(current, paragraph),
            other,
        ),
{
    let grown = with_paragraph(current, paragraph);
    let at = grown.len() - paragraph.len();
    assert(grown.subrange(at, grown.len() as int) =~= paragraph);
    assert(text::occurs_at(grown, paragraph, at));
    if text::contains(current, other) && current.len() > 0 {
        let j = choose|j: int| text::occurs_at(current, other, j);
        assert(grown.subrange(j, j + other.len()) =~= current.subrange(j, j + other.len()));
        assert(text::occurs_at(grown, other, j));
    }
}

/// Packing one more paragraph keeps all that were packed before.
proof fn lemma_pack_one_keeps(
    p: Packing,
    paragraph: Seq<char>,
    max_chars: nat,
    overlap: nat,
    other: Seq<char>,
)
    requires
        is_packed(p, other),
        other.len() > 0,
        text::is_trimmed(other),
    ensures
        is_packed(pack_one(p, paragraph, max_chars, overlap), other),
{
    let q = pack_one(p, paragraph, max_chars, overlap);
    if exists|m: int| 0 <= m < p.chunks.len() && text::contains(#[trigger] p.chunks[m], other) {
        let m = choose|m: int|
            0 <= m < p.chunks.len() && text::contains(#[trigger] p.chunks[m], other);
        assert(q.chunks[m] == p.chunks[m]);
    } else {
        let j = choose|j: int| text::occurs_at(p.current, other, j);
        assert(p.current.len() > 0);
        if closes(p.current, paragraph, max_chars) {
            text::lemma_trim_keeps_piece(p.current, other, j);
            assert(q.chunks[p.chunks.len() as int] == text::trim(p.current));
        } else {
            lemma_with_paragraph(p.current, paragraph, other);
        }
    }
}

/// The texts are trimmed and not empty.
pub open spec fn all_solid(parts: Seq<Seq<char>>) -> bool {
    forall|i: int|
        0 <= i < parts.len() ==> (#[trigger] parts[i]).len() > 0 && text::is_trimmed(parts[i])
}

/// Solid texts without the last one are solid.
proof fn lemma_solid_body(parts: Seq<Seq<char>>)
    requires
        all_solid(parts),
        parts.len() > 0,
    ensures
        all_solid(parts.drop_last()),
{
    let body = parts.drop_last();
    assert forall|k: int| 0 <= k < body.len() implies (#[trigger] body[k]).len() > 0
        && text::is_trimmed(body[k]) by {
        assert(body[k] == parts[k]);
    }
}

/// The last paragraph that was packed stands in the current chunk.
proof fn lemma_last_is_current(pars: Seq<Seq<char>>, max_chars: nat, overlap: nat)
    requires
        pars.len() > 0,
    ensures
        text::contains(packed(pars, max_chars, overlap).current, pars.last()),
{
    let p = packed(pars.drop_last(), max_chars, overlap);
    if closes(p.current, pars.last(), max_chars) {
        lemma_with_paragraph(last_chars(p.current, overlap), pars.last(), pars.last());
    } else {
        lemma_with_paragraph(p.current, pars.last(), pars.last());
    }
}

/// Every paragraph that was packed is there.
proof fn lemma_packed(pars: Seq<Seq<char>>, max_chars: nat, overlap: nat, i: int)
    requires
        all_solid(pars),
        0 <= i < pars.len(),
    ensures
        is_packed(packed(pars, max_chars, overlap), pars[i]),
    decreases pars.len(),
{
    let body = pars.drop_last();
    if i == body.len() {
        lemma_last_is_current(pars, max_chars, overlap);
    } else {
        lemma_solid_body(pars);
        lemma_packed(body, max_chars, overlap, i);
        assert(pars[i] == body[i]);
        lemma_pack_one_keeps(
            packed(body, max_chars, overlap),
            pars.last(),
            max_chars,
            overlap,
            pars[i],
        );
    }
}

/// Every chunk that is done is trimmed and not empty.
proof fn lemma_packed_solid(pars: Seq<Seq<char>>, max_chars: nat, overlap: nat)
    requires
        all_solid(pars),
    ensures
        all_solid(packed(pars, max_chars, overlap).chunks),
    decreases pars.len(),
{
    if pars.len() > 0 {
        let body = pars.drop_last();
        let p = packed(body, max_chars, overlap);
        let q = packed(pars, max_chars, overlap);
        lemma_solid_body(pars);
        lemma_packed_solid(body, max_chars, overlap);
        if closes(p.current, pars.last(), max_chars) {
            text::lemma_trim(p.current);
            assert(body.len() > 0);
            let last = body.last();
            assert(last == body[body.len() - 1]);
            lemma_last_is_current(body, max_chars, overlap);
            let j = choose|j: int| text::occurs_at(p.current, last, j);
            text::lemma_trim_keeps_piece(p.current, last, j);
            assert(q.chunks == p.chunks.push(text::trim(p.current)));
        }
    }
}

/// Nothing of a document is lost: every paragraph of the text stands whole in
/// one of its chunks.
pub proof fn every_paragraph_is_in_a_chunk(s: Seq<char>, max_chars: nat, overlap: nat, i: int)
    requires
        0 <= i < paragraphs(s).len(),
    ensures
        exists|m: int|
            0 <= m < chunks_of(s, max_chars, overlap).len() && text::contains(
                #[trigger] chunks_of(s, max_chars, overlap)[m],
                paragraphs(s)[i],
            ),
{
    let pars = paragraphs(s);
    let p = packed(pars, max_chars, overlap);
    let chunks = chunks_of(s, max_chars, overlap);
    text::lemma_non_blank(text::split_on(s, "\n\n"@));
    lemma_packed(pars, max_chars, overlap, i);
    if exists|m: int| 0 <= m < p.chunks.len() && text::contains(#[trigger] p.chunks[m], pars[i]) {
        let m = choose|m: int|
            0 <= m < p.chunks.len() && text::contains(#[trigger] p.chunks[m], pars[i]);
        assert(chunks[m] == p.chunks[m]);
    } else {
        let j = choose|j: int| text::occurs_at(p.current, pars[i], j);
        text::lemma_trim_keeps_piece(p.current, pars[i], j);
        assert(text::trim(p.current).len() > 0);
        assert(chunks[p.chunks.len() as int] == text::trim(p.current));
    }
}

/// No chunk is empty, and none has white space at its ends.
pub proof fn chunks_are_trimmed(s: Seq<char>, max_chars: nat, overlap: nat, m: int)
    requires
        0 <= m < chunks_of(s, max_chars, overlap).len(),
    ensures
        chunks_of(s, max_chars, overlap)[m].len() > 0,
        text::is_trimmed(chunks_of(s, max_chars, overlap)[m]),
{
    let pars = paragraphs(s);
    let p = packed(pars, max_chars, overlap);
    text::lemma_non_blank(text::split_on(s, "\n\n"@));
    lemma_packed_solid(pars, max_chars, overlap);
    text::lemma_trim(p.current);
    if m < p.chunks.len() {
        assert(chunks_of(s, max_chars, overlap)[m] == p.chunks[m]);
    }
}

/// The greater of two numbers.
pub open spec fn max(a: nat, b: nat) -> nat {
    if a >= b {
        a
    } else {
        b
    }
}

/// The current chunk and those that are done keep to the bound.
proof fn lemma_packed_bound(pars: Seq<Seq<char>>, max_chars: nat, overlap: nat, longest: nat)
    requires
        forall|i: int| 0 <= i < pars.len() ==> text::utf8_len(#[trigger] pars[i]) <= longest,
    ensures
        text::utf8_len(packed(pars, max_chars, overlap).current) <= max(
            max_chars,
            4 * overlap + 2 + longest,
        ),
        forall|m: int|
            0 <= m < packed(pars, max_chars, overlap).chunks.len() ==> text::utf8_len(
                #[trigger] packed(pars, max_chars, overlap).chunks[m],
            ) <= max(max_chars, 4 * overlap + 2 + longest),
    decreases pars.len(),
{
    reveal_strlit("\n\n");
    let bound = max(max_chars, 4 * overlap + 2 + longest);
    if pars.len() == 0 {
        text::lemma_utf8_len_bound(Seq::empty());
    } else {
        let body = pars.drop_last();
        assert forall|i: int| 0 <= i < body.len() implies text::utf8_len(#[trigger] body[i])
            <= longest by {
            assert(body[i] == pars[i]);
        }
        lemma_packed_bound(body, max_chars, overlap, longest);
        let p = packed(body, max_chars, overlap);
        let q = packed(pars, max_chars, overlap);
        let last = pars.last();
        assert(last == pars[pars.len() - 1]);
        text::lemma_utf8_len_bound("\n\n"@);
        assert(text::utf8_len("\n\n"@) == 2) by {
            assert("\n\n"@ =~= seq!['\n', '\n']);
            vstd::utf8::is_ascii_chars_encode_utf8("\n\n"@);
        }
        if closes(p.current, last, max_chars) {
            let carry = last_chars(p.current, overlap);
            text::lemma_utf8_len_bound(carry);
            text::lemma_utf8_len_concat(carry, "\n\n"@);
            text::lemma_utf8_len_concat(carry + "\n\n"@, last);
            text::lemma_trim(p.current);
            let (a, b) = choose|a: int, b: int|
                0 <= a <= b <= p.current.len() && text::trim(p.current)
                    == #[trigger] p.current.subrange(a, b) && (forall|k: int|
                    0 <= k < a || b <= k < p.current.len() ==> text::is_white(p.current[k]));
            text::lemma_utf8_len_piece(p.current, a, b);
            assert forall|m: int| 0 <= m < q.chunks.len() implies text::utf8_len(
                #[trigger] q.chunks[m],
            ) <= bound by {
                if m < p.chunks.len() {
                    assert(q.chunks[m] == p.chunks[m]);
                }
            }
        } else {
            text::lemma_utf8_len_concat(p.current, "\n\n"@);
            text::lemma_utf8_len_concat(p.current + "\n\n"@, last);
            assert(q.chunks == p.chunks);
        }
    }
}

/// A chunk has at most `max_chars` bytes, unless it is made of what was carried
/// over (at most `overlap` characters of up to four bytes), a blank line and one
/// paragraph.
pub proof fn chunks_are_bounded(s: Seq<char>, max_chars: nat, overlap: nat, longest: nat, m: int)
    requires
        forall|i: int|
            0 <= i < paragraphs(s).len() ==> text::utf8_len(#[trigger] paragraphs(s)[i]) <= longest,
        0 <= m < chunks_of(s, max_chars, overlap).len(),
    ensures
        text::utf8_len(chunks_of(s, max_chars, overlap)[m]) <= max(
            max_chars,
            4 * overlap + 2 + longest,
        ),
{
    let pars = paragraphs(s);
    let p = packed(pars, max_chars, overlap);
    lemma_packed_bound(pars, max_chars, overlap, longest);
    text::lemma_trim(p.current);
    let (a, b) = choose|a: int, b: int|
        0 <= a <= b <= p.current.len() && text::trim(p.current) == #[trigger] p.current.subrange(
            a,
            b,
        ) && (forall|k: int|
            0 <= k < a || b <= k < p.current.len() ==> text::is_white(p.current[k]));
    text::lemma_utf8_len_piece(p.current, a, b);
    if m < p.chunks.len() {
        assert(chunks_of(s, max_chars, overlap)[m] == p.chunks[m]);
    }
}

/// Paragraphs that fit together are packed into one chunk.
proof fn lemma_packed_fits(pars: Seq<Seq<char>>, max_chars: nat, overlap: nat)
    requires
        all_solid(pars),
        text::utf8_len(text::join(pars, "\n\n"@)) <= max_chars,
    ensures
        packed(pars, max_chars, overlap).chunks.len() == 0,
        packed(pars, max_chars, overlap).current == text::join(pars, "\n\n"@),
    decreases pars.len(),
{
    if pars.len() > 0 {
        let body = pars.drop_last();
        let last = pars.last();
        let sep = "\n\n"@;
        let joined = text::join(body, sep);
        lemma_solid_body(pars);
        assert(text::utf8_len(sep) == 2) by {
            reveal_strlit("\n\n");
            assert(sep =~= seq!['\n', '\n']);
            vstd::utf8::is_ascii_chars_encode_utf8(sep);
        }
        text::lemma_utf8_len_concat(joined, sep);
        text::lemma_utf8_len_concat(joined + sep, last);
        text::lemma_utf8_len_bound(last);
        if body.len() == 0 {
            assert(joined.len() == 0);
            text::lemma_utf8_len_bound(joined);
        } else if body.len() == 1 {
            assert(body[0].len() > 0);
        } else {
            assert(body.last() == body[body.len() - 1]);
        }
        lemma_packed_fits(body, max_chars, overlap);
        assert(pars.len() == 1 ==> pars[0] == last);
    }
}

/// A text whose paragraphs fit together into one chunk is one chunk.
pub proof fn text_that_fits_is_one_chunk(s: Seq<char>, max_chars: nat, overlap: nat)
    requires
        paragraphs(s).len() > 0,
        text::utf8_len(text::join(paragraphs(s), "\n\n"@)) <= max_chars,
    ensures
        chunks_of(s, max_chars, overlap) == seq![text::join(paragraphs(s), "\n\n"@)],
{
    let pars = paragraphs(s);
    let joined = text::join(pars, "\n\n"@);
    text::lemma_non_blank(text::split_on(s, "\n\n"@));
    lemma_packed_fits(pars, max_chars, overlap);
    assert(pars.last() == pars[pars.len() - 1]);
    assert(joined.len() > 0 && text::is_trimmed(joined)) by {
        if pars.len() == 1 {
        } else {
            text::lemma_join_front(pars, "\n\n"@);
            assert(pars[0].len() > 0);
            assert(joined[0] == pars[0][0]);
            assert(joined.last() == pars.last().last());
        }
    }
    text::lemma_trim_fixed(joined);
    assert(chunks_of(s, max_chars, overlap) =~= seq![joined]);
}

/// A text with nothing but white space has no chunks.
pub proof fn blank_text_has_no_chunks(s: Seq<char>, max_chars: nat, overlap: nat)
    requires
        text::is_blank(s),
    ensures
        chunks_of(s, max_chars, overlap).len() == 0,
{
    reveal_strlit("\n\n");
    text::lemma_blank_pieces(s, "\n\n"@);
}

/// A paragraph is followed by the blank line that is put behind it, and has none in it.
proof fn lemma_paragraph_ends_first(s: Seq<char>, k: int)
    requires
        0 <= k < paragraphs(s).len(),
    ensures
        text::ends_first(paragraphs(s)[k], "\n\n"@),
{
    reveal_strlit("\n\n");
    let sep = "\n\n"@;
    let parts = text::split_on(s, sep);
    let p = paragraphs(s)[k];
    text::lemma_non_blank(parts);
    text::lemma_non_blank_from(parts, k);
    let i = choose|i: int| 0 <= i < parts.len() && p == text::trim(#[trigger] parts[i]);
    text::lemma_split_free(s, sep, i);
    text::lemma_trim(parts[i]);
    let (a, b) = choose|a: int, b: int|
        0 <= a <= b <= parts[i].len() && p == #[trigger] parts[i].subrange(a, b) && (forall|m: int|
            0 <= m < a || b <= m < parts[i].len() ==> text::is_white(parts[i][m]));
    text::lemma_piece_free(parts[i], a, b, sep);
    assert forall|j: int| 0 <= j < p.len() implies !#[trigger] text::occurs_at(p + sep, sep, j) by {
        if text::occurs_at(p + sep, sep, j) {
            assert((p + sep).subrange(j, j + 2)[0] == p[j]);
            if j + 1 < p.len() {
                assert(p.subrange(j, j + 2) =~= (p + sep).subrange(j, j + 2));
                assert(text::occurs_at(p, sep, j));
            } else {
                assert(p.last() == '\n');
            }
        }
    }
}

/// Joining the paragraphs of a text again changes nothing of its chunks.
pub proof fn joined_paragraphs_have_the_same_chunks(s: Seq<char>, max_chars: nat, overlap: nat)
    ensures
        paragraphs(text::join(paragraphs(s), "\n\n"@)) == paragraphs(s),
        chunks_of(text::join(paragraphs(s), "\n\n"@), max_chars, overlap) == chunks_of(
            s,
            max_chars,
            overlap,
        ),
{
    reveal_strlit("\n\n");
    let sep = "\n\n"@;
    let pars = paragraphs(s);
    text::lemma_non_blank(text::split_on(s, sep));
    if pars.len() == 0 {
        let none = text::join(pars, sep);
        text::lemma_blank_pieces(none, sep);
        assert(paragraphs(none) =~= pars);
    } else {
        assert forall|k: int| 0 <= k < pars.len() implies text::ends_first(
            #[trigger] pars[k],
            sep,
        ) by {
            lemma_paragraph_ends_first(s, k);
        }
        text::lemma_split_join(pars, sep);
        text::lemma_non_blank_solid(pars);
    }
}

/// `s` with its line ends written as one character, one space for each run of
/// spaces and tabs, no white space at its ends, and at most one blank line
/// between two lines.
pub open spec fn normalized_text(s: Seq<char>) -> Seq<char> {
    patterns::line_ends_collapsed(
        text::trim(patterns::blanks_collapsed(text::replaced(s, "\r\n"@, "\n"@))),
    )
}

/// The text of a document as it is stored.
pub fn normalize_text(input: &str) -> (r: String)
    ensures
        r@ == normalized_text(input@),
{
    proof {
        reveal_strlit("\r\n");
    }
    let lines = text::replace_all(input, "\r\n", "\n");
    let spaced = patterns::replace_matches(patterns::BLANKS, lines.as_str(), " ");
    let inner = text::trimmed(spaced.as_str());
    patterns::replace_matches(patterns::LINE_ENDS, inner.as_str(), "\n\n")
}

/// No tab, and no two spaces side by side.
pub open spec fn has_single_spaces(s: Seq<char>) -> bool {
    forall|i: int|
        0 <= i < s.len() ==> (#[trigger] s[i]) != '\t' && (i > 0 && s[i] == ' ' ==> s[i - 1] != ' ')
}

/// No three line ends in a row.
pub open spec fn has_short_gaps(s: Seq<char>) -> bool {
    forall|i: int| 0 <= i < s.len() ==> !patterns::ends_with_three_line_ends(#[trigger] s.take(i + 1))
}

/// Collapsing blanks leaves single spaces, and keeps the end of a text that does
/// not end in a blank.
proof fn lemma_blanks_collapsed(s: Seq<char>)
    ensures
        has_single_spaces(patterns::blanks_collapsed(s)),
        patterns::blanks_collapsed(s).len() <= s.len(),
        s.len() > 0 ==> patterns::blanks_collapsed(s).len() > 0 && patterns::blanks_collapsed(
            s,
        ).last() == (if patterns::is_blank(s.last()) {
            ' '
        } else {
            s.last()
        }),
    decreases s.len(),
{
    if s.len() > 0 {
        let body = s.drop_last();
        lemma_blanks_collapsed(body);
        let c = patterns::blanks_collapsed(body);
        let d = patterns::blanks_collapsed(s);
        if body.len() > 0 {
            assert(body.last() == s[s.len() - 2]);
        }
        assert forall|i: int| 0 <= i < d.len() implies (#[trigger] d[i]) != '\t' && (i > 0 && d[i]
            == ' ' ==> d[i - 1] != ' ') by {
            if i < c.len() {
                assert(d[i] == c[i]);
                if i > 0 {
                    assert(d[i - 1] == c[i - 1]);
                }
            } else {
                if i > 0 {
                    assert(d[i - 1] == c.last());
                }
            }
        }
    }
}

/// A text with single spaces has no blanks to collapse.
proof fn lemma_single_spaces_fixed(s: Seq<char>)
    requires
        has_single_spaces(s),
    ensures
        patterns::blanks_collapsed(s) == s,
    decreases s.len(),
{
    if s.len() > 0 {
        let body = s.drop_last();
        assert forall|i: int| 0 <= i < body.len() implies (#[trigger] body[i]) != '\t' && (i > 0
            && body[i] == ' ' ==> body[i - 1] != ' ') by {
            assert(body[i] == s[i]);
        }
        lemma_single_spaces_fixed(body);
        assert(s.last() == s[s.len() - 1]);
        assert(s.len() >= 2 ==> s[s.len() - 2] != '\t');
        assert(body.push(s.last()) =~= s);
    }
}

/// How many line ends stand at the end of `s`, counted up to two.
spec fn gap(s: Seq<char>) -> nat {
    if s.len() >= 1 && s.last() == '\n' {
        if s.len() >= 2 && s[s.len() - 2] == '\n' {
            2
        } else {
            1
        }
    } else {
        0
    }
}

/// Collapsing line ends leaves short gaps, and keeps the ends and the single
/// spaces of the text.
proof fn lemma_line_ends_collapsed(s: Seq<char>)
    ensures
        has_short_gaps(patterns::line_ends_collapsed(s)),
        gap(patterns::line_ends_collapsed(s)) == gap(s),
        s.len() > 0 ==> patterns::line_ends_collapsed(s).len() > 0
            && patterns::line_ends_collapsed(s).last() == s.last()
            && patterns::line_ends_collapsed(s)[0] == s[0],
        has_single_spaces(s) ==> has_single_spaces(patterns::line_ends_collapsed(s)),
    decreases s.len(),
{
    if s.len() > 0 {
        let body = s.drop_last();
        lemma_line_ends_collapsed(body);
        let c = patterns::line_ends_collapsed(body);
        let d = patterns::line_ends_collapsed(s);
        if body.len() > 0 {
            assert(body.last() == s[s.len() - 2]);
            if body.len() > 1 {
                assert(body[body.len() - 2] == s[s.len() - 3]);
            }
        }
        if patterns::ends_with_three_line_ends(s) {
            assert(gap(body) == 2);
        } else {
            assert(d == c.push(s.last()));
            assert forall|i: int| 0 <= i < d.len() implies !patterns::ends_with_three_line_ends(
                #[trigger] d.take(i + 1),
            ) by {
                if i < c.len() {
                    assert(d.take(i + 1) =~= c.take(i + 1));
                } else {
                    assert(d.take(i + 1) =~= d);
                    if patterns::ends_with_three_line_ends(d) {
                        assert(c.last() == '\n' && c[c.len() - 2] == '\n');
                        assert(gap(c) == 2);
                        assert(gap(body) == 2);
                        assert(false);
                    }
                }
            }
            if d.len() >= 2 {
                assert(d[d.len() - 2] == c.last());
            }
        }
        if has_single_spaces(s) {
            assert(has_single_spaces(body)) by {
                assert forall|i: int| 0 <= i < body.len() implies (#[trigger] body[i]) != '\t' && (i
                    > 0 && body[i] == ' ' ==> body[i - 1] != ' ') by {
                    assert(body[i] == s[i]);
                }
            }
            assert(s.last() == s[s.len() - 1]);
            assert forall|i: int| 0 <= i < d.len() implies (#[trigger] d[i]) != '\t' && (i > 0
                && d[i] == ' ' ==> d[i - 1] != ' ') by {
                if i < c.len() {
                    assert(d[i] == c[i]);
                    if i > 0 {
                        assert(d[i - 1] == c[i - 1]);
                    }
                } else if i > 0 {
                    assert(d[i - 1] == c.last());
                }
            }
        }
    }
}

/// A text with short gaps has no line ends to collapse.
proof fn lemma_short_gaps_fixed(s: Seq<char>)
    requires
        has_short_gaps(s),
    ensures
        patterns::line_ends_collapsed(s) == s,
    decreases s.len(),
{
    if s.len() > 0 {
        let body = s.drop_last();
        assert(s.take(s.len() as int) =~= s);
        assert(!patterns::ends_with_three_line_ends(s.take((s.len() - 1) + 1)));
        assert forall|i: int| 0 <= i < body.len() implies !patterns::ends_with_three_line_ends(
            #[trigger] body.take(i + 1),
        ) by {
            assert(body.take(i + 1) =~= s.take(i + 1));
        }
        lemma_short_gaps_fixed(body);
        assert(body.push(s.last()) =~= s);
    }
}

/// A stored text is trimmed, has no tab and no two spaces side by side, and no
/// three line ends in a row.
pub proof fn stored_text_is_tidy(s: Seq<char>)
    ensures
        text::is_trimmed(normalized_text(s)),
        has_single_spaces(normalized_text(s)),
        has_short_gaps(normalized_text(s)),
{
    let spaced = patterns::blanks_collapsed(text::replaced(s, "\r\n"@, "\n"@));
    let inner = text::trim(spaced);
    lemma_blanks_collapsed(text::replaced(s, "\r\n"@, "\n"@));
    text::lemma_trim(spaced);
    let (a, b) = choose|a: int, b: int|
        0 <= a <= b <= spaced.len() && inner == #[trigger] spaced.subrange(a, b) && (forall|k: int|
            0 <= k < a || b <= k < spaced.len() ==> text::is_white(spaced[k]));
    assert forall|i: int| 0 <= i < inner.len() implies (#[trigger] inner[i]) != '\t' && (i > 0
        && inner[i] == ' ' ==> inner[i - 1] != ' ') by {
        assert(inner[i] == spaced[a + i]);
    }
    lemma_line_ends_collapsed(inner);
}

/// Normalizing a second time changes nothing. A text in which carriage returns
/// before a line end remain (two of them stood before it) is left out: the second
/// time takes the next one away.
pub proof fn normalizing_is_idempotent(s: Seq<char>)
    requires
        !text::contains(normalized_text(s), "\r\n"@),
    ensures
        normalized_text(normalized_text(s)) == normalized_text(s),
{
    let t = normalized_text(s);
    stored_text_is_tidy(s);
    text::lemma_index_from(t, "\r\n"@, 0);
    assert(text::index_of(t, "\r\n"@) is None);
    reveal_strlit("\r\n");
    assert(text::split_on(t, "\r\n"@) == seq![t]);
    assert(text::replaced(t, "\r\n"@, "\n"@) == t);
    lemma_single_spaces_fixed(t);
    text::lemma_trim_fixed(t);
    lemma_short_gaps_fixed(t);
}

/// Lines that end with a carriage return and a line feed are stored as lines that end with
/// a line feed alone. A text that has such line ends already is left out: ending its lines
/// with a second carriage return leaves one in it.
pub proof fn line_ends_are_stored_alike(s: Seq<char>)
    requires
        !text::contains(s, "\r\n"@),
    ensures
        normalized_text(text::replaced(s, "\n"@, "\r\n"@)) == normalized_text(s),
{
    reveal_strlit("\n");
    reveal_strlit("\r\n");
    let one = "\n"@;
    let two = "\r\n"@;
    let parts = text::split_on(s, one);
    text::lemma_join_split(s, one);
    assert forall|k: int| 0 <= k < parts.len() implies text::ends_first(
        #[trigger] parts[k],
        two,
    ) by {
        let p = parts[k];
        text::lemma_split_free(s, one, k);
        assert forall|j: int| 0 <= j < p.len() implies !#[trigger] text::occurs_at(
            p + two,
            two,
            j,
        ) by {
            if text::occurs_at(p + two, two, j) {
                assert((p + two).subrange(j, j + 2)[1] == (p + two)[j + 1]);
                if j + 1 < p.len() {
                    assert(p.subrange(j + 1, j + 2) =~= one);
                    assert(text::occurs_at(p, one, j + 1));
                }
            }
        }
    }
    text::lemma_split_join(parts, two);
    text::lemma_replaced_none(s, two, one);
}

/// A paragraph: a text that is not blank, without white space at its ends and without a
/// blank line in it.
pub open spec fn is_paragraph(p: Seq<char>) -> bool {
    p.len() > 0 && text::is_trimmed(p) && !text::contains(p, "\n\n"@)
}

/// What parts two paragraphs: white space with a blank line in it.
pub open spec fn is_parting(gap: Seq<char>) -> bool {
    text::is_blank(gap) && text::contains(gap, "\n\n"@)
}

/// Paragraphs with what parts them: each behind the gap that stands before it.
pub open spec fn laid_out(gaps: Seq<Seq<char>>, pars: Seq<Seq<char>>) -> Seq<char>
    decreases pars.len(),
{
    if pars.len() == 0 || gaps.len() == 0 {
        Seq::empty()
    } else {
        gaps[0] + pars[0] + laid_out(gaps.drop_first(), pars.drop_first())
    }
}

/// The gaps are those around paragraphs: white space before the first, and what parts
/// paragraphs before each other one.
pub open spec fn gaps_fit(gaps: Seq<Seq<char>>, pars: Seq<Seq<char>>) -> bool {
    &&& gaps.len() == pars.len()
    &&& gaps.len() > 0 ==> text::is_blank(gaps[0])
    &&& forall|i: int| 0 < i < gaps.len() ==> is_parting(#[trigger] gaps[i])
}

/// Where a blank line stands in a text with a paragraph in it, it stands before the
/// paragraph or behind it.
proof fn lemma_blank_line_outside(a: Seq<char>, p: Seq<char>, b: Seq<char>, j: int)
    requires
        is_paragraph(p),
        text::occurs_at(a + p + b, "\n\n"@, j),
    ensures
        j + 2 <= a.len() || j >= a.len() + p.len(),
        j + 2 <= a.len() ==> text::occurs_at(a, "\n\n"@, j),
        j >= a.len() + p.len() ==> text::occurs_at(b, "\n\n"@, j - a.len() - p.len()),
{
    reveal_strlit("\n\n");
    let s = a + p + b;
    let n = a.len() as int;
    assert(s.subrange(j, j + 2)[0] == s[j]);
    assert(s.subrange(j, j + 2)[1] == s[j + 1]);
    assert(s[j] == '\n' && s[j + 1] == '\n');
    assert(p[0] == s[n]);
    assert(p.last() == s[n + p.len() - 1]);
    if j + 2 <= n {
        assert(a.subrange(j, j + 2) =~= s.subrange(j, j + 2));
    } else if j >= n + p.len() {
        let k = j - n - p.len();
        assert(b.subrange(k, k + 2) =~= s.subrange(j, j + 2));
    } else {
        assert(j >= n) by {
            if j == n - 1 {
                assert(s[j + 1] == p[0]);
            }
        }
        assert(j + 1 < n + p.len()) by {
            if j + 1 == n + p.len() {
                assert(s[j] == p.last());
            }
        }
        assert(p.subrange(j - n, j - n + 2) =~= s.subrange(j, j + 2));
        assert(text::occurs_at(p, "\n\n"@, j - n));
    }
}

/// The pieces of a text around its first blank line.
proof fn lemma_paragraphs_step(s: Seq<char>, j: int)
    requires
        text::index_of(s, "\n\n"@) == Some(j),
    ensures
        0 <= j <= s.len() - 2,
        text::is_blank(s.take(j)) ==> paragraphs(s) == paragraphs(s.skip(j + 2)),
        !text::is_blank(s.take(j)) ==> paragraphs(s) == seq![text::trim(s.take(j))] + paragraphs(
            s.skip(j + 2),
        ),
{
    reveal_strlit("\n\n");
    text::lemma_index_from(s, "\n\n"@, 0);
    let rest = text::split_on(s.skip(j + 2), "\n\n"@);
    assert(text::split_on(s, "\n\n"@) == seq![s.take(j)] + rest);
    lemma_non_blank_front(s.take(j), rest);
    text::lemma_blank(s.take(j));
}

/// The first part, where it is not blank, is kept in front of the others.
proof fn lemma_non_blank_front(first: Seq<char>, rest: Seq<Seq<char>>)
    ensures
        text::trim(first).len() == 0 ==> text::non_blank(seq![first] + rest) == text::non_blank(
            rest,
        ),
        text::trim(first).len() > 0 ==> text::non_blank(seq![first] + rest) == seq![
            text::trim(first),
        ] + text::non_blank(rest),
    decreases rest.len(),
{
    let all = seq![first] + rest;
    if rest.len() == 0 {
        assert(all.drop_last() =~= Seq::<Seq<char>>::empty());
        assert(all.last() == first);
        assert(rest =~= Seq::<Seq<char>>::empty());
        assert(text::non_blank(all.drop_last()) =~= Seq::<Seq<char>>::empty());
        if text::trim(first).len() > 0 {
            assert(text::non_blank(all) =~= seq![text::trim(first)] + text::non_blank(rest));
        }
    } else {
        lemma_non_blank_front(first, rest.drop_last());
        assert(all.drop_last() =~= seq![first] + rest.drop_last());
        assert(all.last() == rest.last());
        if text::trim(first).len() > 0 && text::trim(rest.last()).len() > 0 {
            assert(text::non_blank(all) =~= seq![text::trim(first)] + text::non_blank(rest));
        }
    }
}

/// Paragraphs are found again in a text, whatever white space with a blank line stands
/// between them, and whatever white space around them.
#[verifier::rlimit(60)]
pub proof fn laid_out_paragraphs_are_found(
    gaps: Seq<Seq<char>>,
    pars: Seq<Seq<char>>,
    end: Seq<char>,
)
    requires
        forall|i: int| 0 <= i < pars.len() ==> is_paragraph(#[trigger] pars[i]),
        gaps_fit(gaps, pars),
        text::is_blank(end),
    ensures
        paragraphs(laid_out(gaps, pars) + end) == pars,
    decreases (laid_out(gaps, pars) + end).len(),
{
    reveal_strlit("\n\n");
    let sep = "\n\n"@;
    let s = laid_out(gaps, pars) + end;
    if pars.len() == 0 {
        assert(s =~= end);
        text::lemma_blank_pieces(s, sep);
        assert(paragraphs(s) =~= pars);
    } else {
        let lead = gaps[0];
        let p = pars[0];
        let gaps2 = gaps.drop_first();
        let pars2 = pars.drop_first();
        let tail = laid_out(gaps2, pars2) + end;
        assert(s =~= lead + p + tail);
        assert(is_paragraph(p));
        text::lemma_index_from(s, sep, 0);
        if text::index_of(s, sep) is None {
            if pars.len() > 1 {
                let g = gaps[1];
                assert(is_parting(g));
                assert(gaps2[0] == g);
                let m = choose|m: int| text::occurs_at(g, sep, m);
                let at = lead.len() + p.len() + m;
                assert(s.subrange(at, at + 2) =~= g.subrange(m, m + 2));
                assert(text::occurs_at(s, sep, at));
            }
            assert(pars2.len() == 0);
            assert(tail =~= end);
            text::white_space_around_is_trimmed(lead, p, end);
            assert(text::split_on(s, sep) =~= seq![s]);
            lemma_non_blank_front(s, Seq::empty());
            assert(seq![s] + Seq::<Seq<char>>::empty() =~= seq![s]);
            assert(text::non_blank(Seq::<Seq<char>>::empty()) =~= Seq::<Seq<char>>::empty());
            assert(paragraphs(s) =~= pars);
        } else {
            let j = text::index_of(s, sep)->0;
            lemma_paragraphs_step(s, j);
            lemma_blank_line_outside(lead, p, tail, j);
            if j + 2 <= lead.len() {
                let rest_lead = lead.skip(j + 2);
                let gaps3 = gaps.update(0, rest_lead);
                assert(gaps3.drop_first() =~= gaps2);
                assert(laid_out(gaps3, pars) =~= rest_lead + p + laid_out(gaps2, pars2));
                assert(s.skip(j + 2) =~= laid_out(gaps3, pars) + end);
                assert(lead =~= lead.take(j + 2) + rest_lead);
                text::lemma_blank_concat(lead.take(j + 2), rest_lead);
                assert(lead =~= lead.take(j) + lead.skip(j));
                text::lemma_blank_concat(lead.take(j), lead.skip(j));
                assert(s.take(j) =~= lead.take(j));
                assert forall|i: int| 0 < i < gaps3.len() implies is_parting(#[trigger] gaps3[i]) by {
                    assert(gaps3[i] == gaps[i]);
                }
                laid_out_paragraphs_are_found(gaps3, pars, end);
            } else {
                let k = j - lead.len() - p.len();
                assert(text::occurs_at(tail, sep, k));
                if pars.len() == 1 {
                    assert(laid_out(gaps2, pars2) =~= Seq::<char>::empty());
                    assert(tail =~= end);
                    assert(end =~= end.take(k) + end.skip(k));
                    text::lemma_blank_concat(end.take(k), end.skip(k));
                    assert(end =~= end.take(k + 2) + end.skip(k + 2));
                    text::lemma_blank_concat(end.take(k + 2), end.skip(k + 2));
                    assert(s.take(j) =~= lead + p + end.take(k));
                    text::white_space_around_is_trimmed(lead, p, end.take(k));
                    assert(s.skip(j + 2) =~= end.skip(k + 2));
                    text::lemma_blank_pieces(end.skip(k + 2), sep);
                    text::lemma_blank(s.take(j));
                    assert(paragraphs(s) =~= pars);
                } else {
                    let g = gaps[1];
                    assert(is_parting(g));
                    assert(gaps2[0] == g);
                    let q = pars2[0];
                    assert(q == pars[1]);
                    let tail3 = laid_out(gaps2.drop_first(), pars2.drop_first()) + end;
                    assert(tail =~= g + q + tail3);
                    let m = choose|m: int| text::occurs_at(g, sep, m);
                    let at = lead.len() + p.len() + m;
                    assert(s.subrange(at, at + 2) =~= g.subrange(m, m + 2));
                    assert(text::occurs_at(s, sep, at));
                    assert(j <= at);
                    assert(k + 2 <= g.len());
                    assert(g =~= g.take(k) + g.skip(k));
                    text::lemma_blank_concat(g.take(k), g.skip(k));
                    assert(g =~= g.take(k + 2) + g.skip(k + 2));
                    text::lemma_blank_concat(g.take(k + 2), g.skip(k + 2));
                    let gaps3 = gaps2.update(0, g.skip(k + 2));
                    assert(gaps3.drop_first() =~= gaps2.drop_first());
                    assert(laid_out(gaps3, pars2) =~= g.skip(k + 2) + q + laid_out(
                        gaps2.drop_first(),
                        pars2.drop_first(),
                    ));
                    assert(s.skip(j + 2) =~= laid_out(gaps3, pars2) + end);
                    assert(s.take(j) =~= lead + p + g.take(k));
                    text::white_space_around_is_trimmed(lead, p, g.take(k));
                    assert forall|i: int| 0 < i < gaps3.len() implies is_parting(
                        #[trigger] gaps3[i],
                    ) by {
                        assert(gaps3[i] == gaps[i + 1]);
                    }
                    assert forall|i: int| 0 <= i < pars2.len() implies is_paragraph(
                        #[trigger] pars2[i],
                    ) by {
                        assert(pars2[i] == pars[i + 1]);
                    }
                    laid_out_paragraphs_are_found(gaps3, pars2, end);
                    text::lemma_blank(s.take(j));
                    assert(paragraphs(s) =~= pars);
                }
            }
        }
    }
}

/// The paragraphs from `a` to before `b`, behind what is carried over to them.
pub open spec fn grown(carry: Seq<char>, pars: Seq<Seq<char>>, a: int, b: int) -> Seq<char> {
    if carry.len() > 0 {
        carry + "\n\n"@ + text::join(pars.subrange(a, b), "\n\n"@)
    } else {
        text::join(pars.subrange(a, b), "\n\n"@)
    }
}

/// The `i`-th of the texts has the paragraphs from `cuts[i]` to before `cuts[i + 1]`, behind
/// `carries[i]`.
pub open spec fn text_holds(
    pars: Seq<Seq<char>>,
    cuts: Seq<int>,
    carries: Seq<Seq<char>>,
    raws: Seq<Seq<char>>,
    i: int,
) -> bool {
    &&& 0 <= cuts[i] < cuts[i + 1] <= pars.len()
    &&& raws[i] == grown(carries[i], pars, cuts[i], cuts[i + 1])
}

/// All paragraphs stand in the texts, in their order.
pub open spec fn holds_paragraphs(
    pars: Seq<Seq<char>>,
    cuts: Seq<int>,
    carries: Seq<Seq<char>>,
    raws: Seq<Seq<char>>,
) -> bool {
    &&& raws.len() > 0
    &&& cuts.len() == raws.len() + 1
    &&& carries.len() == raws.len()
    &&& cuts[0] == 0
    &&& cuts[raws.len() as int] == pars.len()
    &&& forall|i: int| 0 <= i < raws.len() ==> #[trigger] text_holds(pars, cuts, carries, raws, i)
}

/// The `i`-th text is carried over to with the last characters of the text before it, as
/// many as `overlap` says or as there are; nothing is carried over to the first.
pub open spec fn text_carries(
    overlap: nat,
    carries: Seq<Seq<char>>,
    raws: Seq<Seq<char>>,
    i: int,
) -> bool {
    if i == 0 {
        carries[i].len() == 0
    } else {
        &&& carries[i].len() == (if overlap <= raws[i - 1].len() {
            overlap
        } else {
            raws[i - 1].len()
        })
        &&& raws[i - 1] == raws[i - 1].take(raws[i - 1].len() - carries[i].len()) + carries[i]
    }
}

/// The `j`-th paragraph fits into the `i`-th text, behind those that stand there before it.
pub open spec fn paragraph_fits(
    pars: Seq<Seq<char>>,
    max_chars: nat,
    cuts: Seq<int>,
    carries: Seq<Seq<char>>,
    i: int,
    j: int,
) -> bool {
    text::utf8_len(grown(carries[i], pars, cuts[i], j)) + text::utf8_len(pars[j]) + 2 <= max_chars
}

/// The paragraph that starts the next text does not fit into the `i`-th.
pub open spec fn next_does_not_fit(
    pars: Seq<Seq<char>>,
    max_chars: nat,
    cuts: Seq<int>,
    raws: Seq<Seq<char>>,
    i: int,
) -> bool {
    text::utf8_len(raws[i]) + text::utf8_len(pars[cuts[i + 1]]) + 2 > max_chars
}

/// The texts `raws` are those of the chunks of some paragraphs, before they are trimmed.
pub open spec fn is_packing(
    pars: Seq<Seq<char>>,
    max_chars: nat,
    overlap: nat,
    cuts: Seq<int>,
    carries: Seq<Seq<char>>,
    raws: Seq<Seq<char>>,
) -> bool {
    &&& holds_paragraphs(pars, cuts, carries, raws)
    &&& forall|i: int| 0 <= i < raws.len() ==> #[trigger] text_carries(overlap, carries, raws, i)
    &&& forall|i: int, j: int|
        0 <= i < raws.len() && cuts[i] < j < cuts[i + 1] ==> #[trigger] paragraph_fits(
            pars,
            max_chars,
            cuts,
            carries,
            i,
            j,
        )
    &&& forall|i: int|
        0 <= i < raws.len() - 1 ==> #[trigger] next_does_not_fit(pars, max_chars, cuts, raws, i)
}

/// The paragraphs from a place on with one more.
proof fn lemma_grown_push(carry: Seq<char>, body: Seq<Seq<char>>, last: Seq<char>, a: int)
    requires
        0 <= a < body.len(),
    ensures
        grown(carry, body.push(last), a, (body.len() + 1) as int) == grown(
            carry,
            body,
            a,
            body.len() as int,
        ) + "\n\n"@ + last,
{
    let some = body.subrange(a, body.len() as int);
    let more = body.push(last).subrange(a, (body.len() + 1) as int);
    assert(more.drop_last() =~= some);
    assert(more.last() == last);
    assert(grown(carry, body.push(last), a, (body.len() + 1) as int) =~= grown(
        carry,
        body,
        a,
        body.len() as int,
    ) + "\n\n"@ + last);
}

/// Paragraphs behind a place do not change what stands before it.
proof fn lemma_grown_same(carry: Seq<char>, body: Seq<Seq<char>>, last: Seq<char>, a: int, b: int)
    requires
        0 <= a <= b <= body.len(),
    ensures
        grown(carry, body.push(last), a, b) == grown(carry, body, a, b),
{
    assert(body.push(last).subrange(a, b) =~= body.subrange(a, b));
}

/// A packing to which a paragraph is added that does not fit into its last chunk.
proof fn lemma_packing_closed(
    body: Seq<Seq<char>>,
    last: Seq<char>,
    max_chars: nat,
    overlap: nat,
    cuts: Seq<int>,
    carries: Seq<Seq<char>>,
    raws: Seq<Seq<char>>,
    carry: Seq<char>,
)
    requires
        is_packing(body, max_chars, overlap, cuts, carries, raws),
        text::utf8_len(raws.last()) + text::utf8_len(last) + 2 > max_chars,
        carry == last_chars(raws.last(), overlap),
    ensures
        is_packing(
            body.push(last),
            max_chars,
            overlap,
            cuts.push((body.len() + 1) as int),
            carries.push(carry),
            raws.push(with_paragraph(carry, last)),
        ),
{
    let pars = body.push(last);
    let n = raws.len() as int;
    let raw = with_paragraph(carry, last);
    let cuts2 = cuts.push((body.len() + 1) as int);
    let carries2 = carries.push(carry);
    let raws2 = raws.push(raw);
    assert(cuts2[n + 1] == pars.len());
    assert forall|i: int| 0 <= i < n + 1 implies #[trigger] text_holds(
        pars,
        cuts2,
        carries2,
        raws2,
        i,
    ) by {
        if i < n {
            assert(text_holds(body, cuts, carries, raws, i));
            lemma_grown_same(carries[i], body, last, cuts[i], cuts[i + 1]);
        } else {
            assert(pars.subrange(body.len() as int, pars.len() as int) =~= seq![last]);
        }
    }
    assert forall|i: int| 0 <= i < n + 1 implies #[trigger] text_carries(
        overlap,
        carries2,
        raws2,
        i,
    ) by {
        if i < n {
            assert(text_carries(overlap, carries, raws, i));
        } else {
            let end = raws.last();
            assert(end =~= end.take(end.len() - carry.len()) + carry);
        }
    }
    assert forall|i: int, j: int|
        0 <= i < n + 1 && cuts2[i] < j < cuts2[i + 1] implies #[trigger] paragraph_fits(
        pars,
        max_chars,
        cuts2,
        carries2,
        i,
        j,
    ) by {
        if i < n {
            assert(text_holds(body, cuts, carries, raws, i));
            assert(paragraph_fits(body, max_chars, cuts, carries, i, j));
            lemma_grown_same(carries[i], body, last, cuts[i], j);
        }
    }
    assert forall|i: int| 0 <= i < n implies #[trigger] next_does_not_fit(
        pars,
        max_chars,
        cuts2,
        raws2,
        i,
    ) by {
        if i < n - 1 {
            assert(text_holds(body, cuts, carries, raws, i + 1));
            assert(next_does_not_fit(body, max_chars, cuts, raws, i));
        }
    }
}

/// A packing to which a paragraph is added that fits into its last chunk.
proof fn lemma_packing_grown(
    body: Seq<Seq<char>>,
    last: Seq<char>,
    max_chars: nat,
    overlap: nat,
    cuts: Seq<int>,
    carries: Seq<Seq<char>>,
    raws: Seq<Seq<char>>,
)
    requires
        is_packing(body, max_chars, overlap, cuts, carries, raws),
        text::utf8_len(raws.last()) + text::utf8_len(last) + 2 <= max_chars,
    ensures
        is_packing(
            body.push(last),
            max_chars,
            overlap,
            cuts.update(raws.len() as int, (body.len() + 1) as int),
            carries,
            raws.update(raws.len() - 1, raws.last() + "\n\n"@ + last),
        ),
{
    let pars = body.push(last);
    let n = raws.len() as int;
    let raw = raws.last() + "\n\n"@ + last;
    let cuts2 = cuts.update(n, (body.len() + 1) as int);
    let raws2 = raws.update(n - 1, raw);
    assert(cuts2[n] == pars.len());
    assert forall|i: int| 0 <= i < n implies #[trigger] text_holds(
        pars,
        cuts2,
        carries,
        raws2,
        i,
    ) by {
        assert(text_holds(body, cuts, carries, raws, i));
        if i < n - 1 {
            lemma_grown_same(carries[i], body, last, cuts[i], cuts[i + 1]);
        } else {
            lemma_grown_push(carries[i], body, last, cuts[i]);
        }
    }
    assert forall|i: int| 0 <= i < n implies #[trigger] text_carries(overlap, carries, raws2, i) by {
        assert(text_carries(overlap, carries, raws, i));
    }
    assert forall|i: int, j: int|
        0 <= i < n && cuts2[i] < j < cuts2[i + 1] implies #[trigger] paragraph_fits(
        pars,
        max_chars,
        cuts2,
        carries,
        i,
        j,
    ) by {
        assert(text_holds(body, cuts, carries, raws, i));
        lemma_grown_same(carries[i], body, last, cuts[i], j);
        if j < cuts[i + 1] {
            assert(paragraph_fits(body, max_chars, cuts, carries, i, j));
        }
    }
    assert forall|i: int| 0 <= i < n - 1 implies #[trigger] next_does_not_fit(
        pars,
        max_chars,
        cuts2,
        raws2,
        i,
    ) by {
        assert(text_holds(body, cuts, carries, raws, i + 1));
        assert(next_does_not_fit(body, max_chars, cuts, raws, i));
    }
}

/// One paragraph is a packing with one chunk.
proof fn lemma_packing_one(last: Seq<char>, max_chars: nat, overlap: nat)
    ensures
        is_packing(
            seq![last],
            max_chars,
            overlap,
            seq![0int, 1int],
            seq![Seq::<char>::empty()],
            seq![last],
        ),
        packed(seq![last], max_chars, overlap).current == last,
        packed(seq![last], max_chars, overlap).chunks.len() == 0,
{
    let pars = seq![last];
    let carries = seq![Seq::<char>::empty()];
    assert(pars.subrange(0, 1) =~= seq![last]);
    assert(pars[0] == grown(carries[0], pars, 0, 1));
    let z = packed(pars.drop_last(), max_chars, overlap);
    assert(z.current.len() == 0 && z.chunks.len() == 0);
    assert(packed(pars, max_chars, overlap) == pack_one(z, last, max_chars, overlap));
}

/// Packed paragraphs are a packing.
#[verifier::rlimit(60)]
proof fn lemma_packed_is_packing(pars: Seq<Seq<char>>, max_chars: nat, overlap: nat) -> (r: (
    Seq<int>,
    Seq<Seq<char>>,
    Seq<Seq<char>>,
))
    requires
        pars.len() > 0,
        all_solid(pars),
    ensures
        is_packing(pars, max_chars, overlap, r.0, r.1, r.2),
        packed(pars, max_chars, overlap).current == r.2.last(),
        packed(pars, max_chars, overlap).chunks == r.2.drop_last().map_values(
            |t: Seq<char>| text::trim(t),
        ),
    decreases pars.len(),
{
    let body = pars.drop_last();
    let last = pars.last();
    if body.len() == 0 {
        assert(pars =~= seq![last]);
        lemma_packing_one(last, max_chars, overlap);
        assert(packed(pars, max_chars, overlap).chunks =~= seq![last].drop_last().map_values(
            |t: Seq<char>| text::trim(t),
        ));
        (seq![0int, 1int], seq![Seq::<char>::empty()], seq![last])
    } else {
        assert(pars =~= body.push(last));
        lemma_solid_body(pars);
        let (cuts, carries, raws) = lemma_packed_is_packing(body, max_chars, overlap);
        let n = raws.len() as int;
        let p = packed(body, max_chars, overlap);
        let q = packed(pars, max_chars, overlap);
        lemma_last_is_current(body, max_chars, overlap);
        assert(body.last() == body[body.len() - 1]);
        assert(p.current.len() > 0);
        if closes(p.current, last, max_chars) {
            let carry = last_chars(p.current, overlap);
            let raws2 = raws.push(with_paragraph(carry, last));
            lemma_packing_closed(body, last, max_chars, overlap, cuts, carries, raws, carry);
            assert(raws2.drop_last() =~= raws);
            assert(q.chunks == p.chunks.push(text::trim(p.current)));
            assert(raws =~= raws.drop_last().push(p.current));
            assert(q.chunks =~= raws.map_values(|t: Seq<char>| text::trim(t)));
            (cuts.push((body.len() + 1) as int), carries.push(carry), raws2)
        } else {
            let raws2 = raws.update(n - 1, p.current + "\n\n"@ + last);
            lemma_packing_grown(body, last, max_chars, overlap, cuts, carries, raws);
            assert(raws2.drop_last() =~= raws.drop_last());
            assert(q.current == raws2.last());
            (cuts.update(n, (body.len() + 1) as int), carries, raws2)
        }
    }
}

/// The chunks of a text with paragraphs: its paragraphs in their order, as many to a chunk
/// as fit, where each chunk behind the first starts with the end of the one before, as it
/// stands there.
pub proof fn chunks_pack_the_paragraphs(
    gaps: Seq<Seq<char>>,
    pars: Seq<Seq<char>>,
    end: Seq<char>,
    max_chars: nat,
    overlap: nat,
)
    requires
        pars.len() > 0,
        forall|i: int| 0 <= i < pars.len() ==> is_paragraph(#[trigger] pars[i]),
        gaps_fit(gaps, pars),
        text::is_blank(end),
    ensures
        exists|cuts: Seq<int>, carries: Seq<Seq<char>>, raws: Seq<Seq<char>>| #[trigger]
            is_packing(pars, max_chars, overlap, cuts, carries, raws) && chunks_of(
                laid_out(gaps, pars) + end,
                max_chars,
                overlap,
            ) == raws.map_values(|t: Seq<char>| text::trim(t)),
{
    let s = laid_out(gaps, pars) + end;
    laid_out_paragraphs_are_found(gaps, pars, end);
    assert(all_solid(pars)) by {
        assert forall|i: int| 0 <= i < pars.len() implies (#[trigger] pars[i]).len() > 0
            && text::is_trimmed(pars[i]) by {
            assert(is_paragraph(pars[i]));
        }
    }
    let (cuts, carries, raws) = lemma_packed_is_packing(pars, max_chars, overlap);
    let p = packed(pars, max_chars, overlap);
    lemma_last_is_current(pars, max_chars, overlap);
    let last = pars.last();
    assert(last == pars[pars.len() - 1]);
    let j = choose|j: int| text::occurs_at(p.current, last, j);
    text::lemma_trim_keeps_piece(p.current, last, j);
    assert(text::trim(p.current).len() > 0);
    assert(chunks_of(s, max_chars, overlap) =~= raws.map_values(|t: Seq<char>| text::trim(t)));
}

/// Two paragraphs with a blank line between them.
proof fn lemma_two_paragraphs(first: Seq<char>, next: Seq<char>)
    requires
        is_paragraph(first),
        is_paragraph(next),
    ensures
        paragraphs(first + "\n\n"@ + next) == seq![first, next],
{
    reveal_strlit("\n\n");
    let sep = "\n\n"@;
    let none = Seq::<char>::empty();
    let pars = seq![first, next];
    let gaps = seq![none, sep];
    assert(sep.subrange(0, 2) =~= sep);
    assert(text::occurs_at(sep, sep, 0));
    assert(text::is_blank(sep));
    assert(is_parting(gaps[1]));
    let gaps2 = gaps.drop_first();
    let pars2 = pars.drop_first();
    assert(gaps2[0] == sep && pars2[0] == next && gaps2.len() == 1 && pars2.len() == 1);
    assert(laid_out(gaps2.drop_first(), pars2.drop_first()) =~= none);
    assert(laid_out(gaps2, pars2) =~= sep + next);
    assert(laid_out(gaps, pars) + none =~= first + sep + next);
    laid_out_paragraphs_are_found(gaps, pars, none);
}

/// Two paragraphs that do not fit together, packed.
proof fn lemma_two_packed(first: Seq<char>, next: Seq<char>, max_chars: nat, overlap: nat)
    requires
        first.len() > 0,
        text::utf8_len(first) + text::utf8_len(next) + 2 > max_chars,
    ensures
        packed(seq![first, next], max_chars, overlap).chunks == seq![text::trim(first)],
        packed(seq![first, next], max_chars, overlap).current == with_paragraph(
            last_chars(first, overlap),
            next,
        ),
{
    let pars = seq![first, next];
    assert(pars.drop_last() =~= seq![first]);
    lemma_packing_one(first, max_chars, overlap);
    let p = packed(seq![first], max_chars, overlap);
    assert(packed(pars, max_chars, overlap) == pack_one(p, next, max_chars, overlap));
    assert(p.chunks.push(text::trim(first)) =~= seq![text::trim(first)]);
}

/// Two paragraphs that do not fit together make two chunks: the first paragraph, and the
/// second one behind the end of the first, the last `overlap` characters of it as they
/// stand there.
pub proof fn the_end_of_a_chunk_is_carried_over(
    before: Seq<char>,
    carried: Seq<char>,
    next: Seq<char>,
    max_chars: nat,
)
    requires
        is_paragraph(before + carried),
        is_paragraph(next),
        text::utf8_len(before + carried) + text::utf8_len(next) + 2 > max_chars,
    ensures
        ({
            let chunks = chunks_of(
                before + carried + "\n\n"@ + next,
                max_chars,
                carried.len(),
            );
            &&& chunks.len() == 2
            &&& chunks[0] == before + carried
            &&& carried.len() > 0 ==> chunks[1] == text::trim(carried + "\n\n"@ + next)
            &&& carried.len() == 0 ==> chunks[1] == next
        }),
{
    let first = before + carried;
    lemma_two_paragraphs(first, next);
    lemma_two_packed(first, next, max_chars, carried.len());
    assert(last_chars(first, carried.len()) =~= carried);
    text::lemma_trim_fixed(first);
    text::lemma_trim_fixed(next);
    let raw = with_paragraph(carried, next);
    let at = raw.len() - next.len();
    assert(raw.subrange(at, raw.len() as int) =~= next);
    assert(text::occurs_at(raw, next, at));
    text::lemma_trim_keeps_piece(raw, next, at);
    assert(text::trim(raw).len() > 0);
}

/// Collapsing blanks takes no word away.
proof fn lemma_words_blanks(s: Seq<char>)
    ensures
        text::words(patterns::blanks_collapsed(s)) == text::words(s),
    decreases s.len(),
{
    if s.len() > 0 {
        let body = s.drop_last();
        let c = s.last();
        lemma_words_blanks(body);
        lemma_blanks_collapsed(body);
        assert(s =~= body.push(c));
        let done = patterns::blanks_collapsed(body);
        text::lemma_words_push(body, c);
        if !patterns::is_blank(c) {
            if body.len() > 0 {
                assert(done.last() == (if patterns::is_blank(body.last()) {
                    ' '
                } else {
                    body.last()
                }));
            } else {
                assert(done =~= body);
            }
            text::lemma_words_push(done, c);
        } else {
            text::lemma_words_push(done, ' ');
        }
    }
}

/// Collapsing line ends takes no word away.
proof fn lemma_words_line_ends(s: Seq<char>)
    ensures
        text::words(patterns::line_ends_collapsed(s)) == text::words(s),
    decreases s.len(),
{
    if s.len() > 0 {
        let body = s.drop_last();
        let c = s.last();
        lemma_words_line_ends(body);
        lemma_line_ends_collapsed(body);
        assert(s =~= body.push(c));
        let done = patterns::line_ends_collapsed(body);
        text::lemma_words_push(body, c);
        text::lemma_words_push(done, c);
        if body.len() == 0 {
            assert(done =~= body);
        }
    }
}

/// The text of a document is stored with all its words, in their order: only white space is
/// changed.
pub proof fn stored_text_keeps_the_words(s: Seq<char>)
    ensures
        text::words(normalized_text(s)) == text::words(s),
{
    reveal_strlit("\r\n");
    reveal_strlit("\n");
    let lines = text::replaced(s, "\r\n"@, "\n"@);
    text::lemma_words_replaced(s, "\r\n"@, "\n"@);
    lemma_words_blanks(lines);
    text::lemma_words_trim(patterns::blanks_collapsed(lines));
    lemma_words_line_ends(text::trim(patterns::blanks_collapsed(lines)));
}

/// A text that is tidy already is stored as it is: without white space at its ends, without
/// tabs and without carriage returns at its line ends, with single spaces, and with at most
/// one blank line in a row.
pub proof fn tidy_text_is_stored_as_it_is(s: Seq<char>)
    requires
        text::is_trimmed(s),
        !text::contains(s, "\r\n"@),
        forall|i: int| 0 <= i < s.len() ==> #[trigger] s[i] != '\t',
        !text::contains(s, "  "@),
        !text::contains(s, "\n\n\n"@),
    ensures
        normalized_text(s) == s,
{
    reveal_strlit("\r\n");
    reveal_strlit("  ");
    reveal_strlit("\n\n\n");
    text::lemma_replaced_none(s, "\r\n"@, "\n"@);
    assert(has_single_spaces(s)) by {
        assert forall|i: int| 0 <= i < s.len() implies (#[trigger] s[i]) != '\t' && (i > 0 && s[i]
            == ' ' ==> s[i - 1] != ' ') by {
            if i > 0 && s[i] == ' ' && s[i - 1] == ' ' {
                assert(s.subrange(i - 1, i + 1) =~= "  "@);
                assert(text::occurs_at(s, "  "@, i - 1));
            }
        }
    }
    lemma_single_spaces_fixed(s);
    text::lemma_trim_fixed(s);
    assert(has_short_gaps(s)) by {
        assert forall|i: int| 0 <= i < s.len() implies !patterns::ends_with_three_line_ends(
            #[trigger] s.take(i + 1),
        ) by {
            let t = s.take(i + 1);
            if patterns::ends_with_three_line_ends(t) {
                assert(t[i] == s[i] && t[i - 1] == s[i - 1] && t[i - 2] == s[i - 2]);
                assert(s.subrange(i - 2, i + 1) =~= "\n\n\n"@);
                assert(text::occurs_at(s, "\n\n\n"@, i - 2));
            }
        }
    }
    lemma_short_gaps_fixed(s);
}

} // verus!
