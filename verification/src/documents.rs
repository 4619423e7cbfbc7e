//! Reading the text out of course documents.

use std::io::Read;
use vstd::prelude::*;
use vstd::utf8::*;
use crate::parser;
use crate::text;

verus! {

/// An error of the `zip` crate.
#[verifier::external_type_specification]
#[verifier::external_body]
pub struct ExZipError(zip::result::ZipError);

/// An error of the `quick_xml` crate.
#[verifier::external_type_specification]
#[verifier::external_body]
pub struct ExXmlError(quick_xml::Error);

/// A reader of the `quick_xml` crate.
#[verifier::external_type_specification]
#[verifier::external_body]
#[verifier::reject_recursive_types(R)]
pub struct ExReader<R>(quick_xml::Reader<R>);

/// An error of reading.
#[verifier::external_type_specification]
#[verifier::external_body]
pub struct ExIoError(std::io::Error);

/// Bytes that are no text.
#[verifier::external_type_specification]
#[verifier::external_body]
pub struct ExFromUtf8Error(std::string::FromUtf8Error);

/// `String::from_utf8` gives the text with the given bytes, if they are UTF-8.
pub assume_specification[ String::from_utf8 ](vec: Vec<u8>) -> (r: Result<
    String,
    std::string::FromUtf8Error,
>)
    ensures
        r is Ok <==> valid_utf8(vec@),
        r matches Ok(s) ==> s@ == decode_utf8(vec@),
;

/// The SHA-256 digest of some bytes.
pub uninterp spec fn sha256_of(bytes: Seq<u8>) -> Seq<u8>;

/// `Sha256::digest`: the digest of the bytes, 32 bytes long.
#[verifier::external_body]
fn sha256(bytes: &[u8]) -> (r: Vec<u8>)
    ensures
        r@ == sha256_of(bytes@),
        r@.len() == 32,
{
    <sha2::Sha256 as sha2::Digest>::digest(bytes).to_vec()
}

/// The hexadecimal digit with the value `d`, from 0 to 15, in lower case.
pub open spec fn hex_digit(d: int) -> char {
    if d < 10 {
        (48 + d) as char
    } else {
        (87 + d) as char
    }
}

/// Two hexadecimal digits for each byte.
pub open spec fn hex_of(bytes: Seq<u8>) -> Seq<char> {
    Seq::new(
        2 * bytes.len(),
        |i: int|
            hex_digit(
                if i % 2 == 0 {
                    bytes[i / 2] as int / 16
                } else {
                    bytes[i / 2] as int % 16
                },
            ),
    )
}

/// 64 hexadecimal digits in lower case.
pub open spec fn is_digest_text(s: Seq<char>) -> bool {
    s.len() == 64 && forall|i: int|
        0 <= i < s.len() ==> '0' <= #[trigger] s[i] <= '9' || 'a' <= s[i] <= 'f'
}

/// The hexadecimal digit with the value `d`.
fn hex_char(d: u8) -> (r: char)
    requires
        d < 16,
    ensures
        r == hex_digit(d as int),
{
    if d < 10 {
        (48 + d) as char
    } else {
        (87 + d) as char
    }
}

/// The bytes in hexadecimal, in lower case.
pub fn hex_text(bytes: &[u8]) -> (r: String)
    ensures
        r@ == hex_of(bytes@),
{
    let mut r = String::new();
    let mut i: usize = 0;
    while i < bytes.len()
        invariant
            i <= bytes@.len(),
            r@ == hex_of(bytes@.take(i as int)),
        decreases bytes@.len() - i,
    {
        let b = bytes[i];
        r.push(hex_char(b / 16));
        r.push(hex_char(b % 16));
        assert(r@ =~= hex_of(bytes@.take(i + 1))) by {
            let before = hex_of(bytes@.take(i as int));
            let after = hex_of(bytes@.take(i + 1));
            assert forall|k: int| 0 <= k < before.len() implies before[k] == after[k] by {
                assert(bytes@.take(i as int)[k / 2] == bytes@.take(i + 1)[k / 2]);
            }
            assert((2 * i) / 2 == i && (2 * i + 1) / 2 == i);
        }
        i += 1;
    }
    assert(bytes@.take(i as int) =~= bytes@);
    r
}

/// The names of the entries of a zip archive, in the order of its directory;
/// nothing where the bytes are no such archive.
pub uninterp spec fn archive_names(bytes: Seq<u8>) -> Option<Seq<Seq<char>>>;

/// `ZipArchive::new` and `ZipArchive::file_names`: the names of the entries.
#[verifier::external_body]
fn entry_names(bytes: &[u8]) -> (r: Result<Vec<String>, zip::result::ZipError>)
    ensures
        r is Ok <==> archive_names(bytes@) is Some,
        r matches Ok(v) ==> archive_names(bytes@) == Some(text::views(v@)),
{
    let archive = zip::ZipArchive::new(std::io::Cursor::new(bytes))?;
    Ok(archive.file_names().map(|n| n.to_string()).collect())
}

/// The text of the entry with the given name: nothing where the bytes are no
/// archive with such an entry, and no text where the entry cannot be unpacked to
/// text.
pub uninterp spec fn archive_entry(bytes: Seq<u8>, name: Seq<char>) -> Option<Option<Seq<char>>>;

/// `ZipArchive::new`, `ZipArchive::by_name` and reading the entry: its text, or the
/// error of the archive, or that of reading.
#[verifier::external_body]
fn entry_text(bytes: &[u8], name: &str) -> (r: Result<
    Result<String, std::io::Error>,
    zip::result::ZipError,
>)
    ensures
        r is Err <==> archive_entry(bytes@, name@) is None,
        r matches Ok(t) ==> archive_entry(bytes@, name@) == Some(
            match t {
                Ok(s) => Some(s@),
                Err(e) => None,
            },
        ),
{
    let mut archive = zip::ZipArchive::new(std::io::Cursor::new(bytes))?;
    let mut xml = String::new();
    let read = archive.by_name(name)?.read_to_string(&mut xml);
    Ok(read.map(|_| xml))
}

/// What a reader of XML meets.
#[derive(Debug, Clone)]
pub enum XmlEvent {
    /// Character data, plain or in a CDATA section.
    Text(String),
    /// Markup.
    Markup,
    /// The end.
    End,
}

/// One thing that a reader of XML meets; `Broken` stands for an error.
pub enum XmlItem {
    Text(Seq<char>),
    Markup,
    End,
    Broken,
}

/// What a reader of the given text meets, to its end or to the first error.
pub uninterp spec fn xml_items(xml: Seq<char>) -> Seq<XmlItem>;

/// What a reader has still to meet.
pub uninterp spec fn pending_items(reader: quick_xml::Reader<&[u8]>) -> Seq<XmlItem>;

/// The items end with an end or an error, and hold none before.
pub open spec fn is_complete(items: Seq<XmlItem>) -> bool {
    &&& items.len() > 0
    &&& forall|i: int|
        0 <= i < items.len() ==> ((#[trigger] items[i] is End || items[i] is Broken) <==> i
            == items.len() - 1)
}

/// `Reader::from_str`, told by `Config::trim_text` to leave out the white space
/// around character data. Reading a text comes to its end or to an error.
#[verifier::external_body]
fn xml_reader<'a>(xml: &'a str) -> (r: quick_xml::Reader<&'a [u8]>)
    ensures
        pending_items(r) == xml_items(xml@),
        is_complete(pending_items(r)),
{
    let mut reader = quick_xml::Reader::from_str(xml);
    reader.config_mut().trim_text(true);
    reader
}

/// `Reader::read_event_into`, with `BytesText::decode` and `BytesCData::decode`: the
/// next thing that the reader meets.
#[verifier::external_body]
fn next_event(reader: &mut quick_xml::Reader<&[u8]>) -> (r: Result<XmlEvent, quick_xml::Error>)
    requires
        pending_items(*old(reader)).len() > 0,
    ensures
        pending_items(*final(reader)) == pending_items(*old(reader)).drop_first(),
        match pending_items(*old(reader))[0] {
            XmlItem::Text(t) => r matches Ok(XmlEvent::Text(s)) && s@ == t,
            XmlItem::Markup => r matches Ok(XmlEvent::Markup),
            XmlItem::End => r matches Ok(XmlEvent::End),
            XmlItem::Broken => r is Err,
        },
{
    let mut buffer = Vec::new();
    Ok(
        match reader.read_event_into(&mut buffer)? {
            quick_xml::events::Event::Text(t) => XmlEvent::Text(t.decode()?.into_owned()),
            quick_xml::events::Event::CData(t) => XmlEvent::Text(t.decode()?.into_owned()),
            quick_xml::events::Event::Eof => XmlEvent::End,
            _ => XmlEvent::Markup,
        },
    )
}

impl View for XmlEvent {
    type V = XmlItem;

    open spec fn view(&self) -> XmlItem {
        match *self {
            XmlEvent::Text(s) => XmlItem::Text(s@),
            XmlEvent::Markup => XmlItem::Markup,
            XmlEvent::End => XmlItem::End,
        }
    }
}

/// The character data among the items.
pub open spec fn fragments(items: Seq<XmlItem>) -> Seq<Seq<char>>
    decreases items.len(),
{
    if items.len() == 0 {
        Seq::empty()
    } else {
        match items.last() {
            XmlItem::Text(t) => fragments(items.drop_last()).push(t),
            _ => fragments(items.drop_last()),
        }
    }
}

/// The text of an XML document: its character data, one piece to a line; nothing
/// where the document is broken.
pub open spec fn xml_text(items: Seq<XmlItem>) -> Option<Seq<char>> {
    if items.last() is Broken {
        None
    } else {
        Some(text::join(fragments(items), "\n"@))
    }
}

/// The character data among the events, one piece to a line.
pub fn join_fragments(events: &Vec<XmlEvent>) -> (r: String)
    ensures
        r@ == text::join(fragments(text::views(events@)), "\n"@),
{
    let mut parts: Vec<String> = Vec::new();
    let ghost all = text::views(events@);
    let mut i: usize = 0;
    assert(text::views(parts@) =~= Seq::<Seq<char>>::empty());
    while i < events.len()
        invariant
            i <= events@.len(),
            all == text::views(events@),
            text::views(parts@) == fragments(all.take(i as int)),
        decreases events@.len() - i,
    {
        proof {
            assert(all.take(i + 1).drop_last() =~= all.take(i as int));
            assert(all.take(i + 1).last() == events@[i as int]@);
        }
        match &events[i] {
            XmlEvent::Text(s) => {
                let ghost before = parts@;
                let part = s.clone();
                parts.push(part);
                assert(text::views(parts@) =~= text::views(before).push(part@));
            },
            _ => {},
        }
        i += 1;
    }
    assert(all.take(i as int) =~= all);
    text::join_strings(&parts, "\n")
}

/// The text of an XML document, or the error at which it breaks off.
pub fn extract_xml_text(xml: &str) -> (r: Result<String, quick_xml::Error>)
    ensures
        r is Ok <==> xml_text(xml_items(xml@)) is Some,
        r matches Ok(t) ==> xml_text(xml_items(xml@)) == Some(t@),
{
    let mut reader = xml_reader(xml);
    let mut events: Vec<XmlEvent> = Vec::new();
    let ghost items = pending_items(reader);
    assert(items.skip(0) =~= items);
    loop
        invariant
            is_complete(items),
            items == xml_items(xml@),
            events@.len() < items.len(),
            text::views(events@) == items.take(events@.len() as int),
            pending_items(reader) == items.skip(events@.len() as int),
        decreases items.len() - events@.len(),
    {
        let ghost k = events@.len() as int;
        assert(pending_items(reader)[0] == items[k]);
        assert(items.skip(k).drop_first() =~= items.skip(k + 1));
        match next_event(&mut reader) {
            Err(e) => {
                return Err(e);
            },
            Ok(XmlEvent::End) => {
                proof {
                    assert(items.drop_last() =~= items.take(k));
                    assert(fragments(items) == fragments(items.take(k)));
                }
                return Ok(join_fragments(&events));
            },
            Ok(event) => {
                let ghost before = events@;
                events.push(event);
                proof {
                    assert(event@ == items[k]);
                    assert(text::views(events@) =~= text::views(before).push(event@));
                    assert(items.take(k + 1) =~= items.take(k).push(items[k]));
                }
            },
        }
    }
}

/// `a` comes before `b` or is `b`, in the order of their first characters that
/// differ.
pub open spec fn in_order(a: Seq<char>, b: Seq<char>) -> bool
    decreases a.len(),
{
    if a.len() == 0 {
        true
    } else if b.len() == 0 {
        false
    } else if a[0] == b[0] {
        in_order(a.drop_first(), b.drop_first())
    } else {
        a[0] < b[0]
    }
}

/// Of two texts one comes first.
pub proof fn lemma_order_total(a: Seq<char>, b: Seq<char>)
    ensures
        in_order(a, b) || in_order(b, a),
    decreases a.len(),
{
    if a.len() > 0 && b.len() > 0 && a[0] == b[0] {
        lemma_order_total(a.drop_first(), b.drop_first());
    }
}

/// The order is transitive.
pub proof fn lemma_order_transitive(a: Seq<char>, b: Seq<char>, c: Seq<char>)
    requires
        in_order(a, b),
        in_order(b, c),
    ensures
        in_order(a, c),
    decreases a.len(),
{
    if a.len() > 0 && b.len() > 0 && c.len() > 0 && a[0] == b[0] && b[0] == c[0] {
        lemma_order_transitive(a.drop_first(), b.drop_first(), c.drop_first());
    }
}

/// How many of the first names of `sorted` come before `name`.
pub open spec fn place(sorted: Seq<Seq<char>>, name: Seq<char>) -> nat
    decreases sorted.len(),
{
    if sorted.len() == 0 {
        0
    } else if in_order(name, sorted.last()) {
        place(sorted.drop_last(), name)
    } else {
        sorted.len()
    }
}

/// The names in their order.
pub open spec fn sorted_names(names: Seq<Seq<char>>) -> Seq<Seq<char>>
    decreases names.len(),
{
    if names.len() == 0 {
        names
    } else {
        let rest = sorted_names(names.drop_last());
        rest.insert(place(rest, names.last()) as int, names.last())
    }
}

/// Each name comes before the later ones.
pub open spec fn is_sorted(names: Seq<Seq<char>>) -> bool {
    forall|i: int, j: int| 0 <= i < j < names.len() ==> in_order(#[trigger] names[i], #[trigger] names[j])
}

/// The place of a name in a sorted list is between those that come before it
/// and those that do not.
proof fn lemma_place(sorted: Seq<Seq<char>>, name: Seq<char>)
    requires
        is_sorted(sorted),
    ensures
        place(sorted, name) <= sorted.len(),
        forall|i: int| 0 <= i < place(sorted, name) ==> in_order(#[trigger] sorted[i], name),
        forall|i: int| place(sorted, name) <= i < sorted.len() ==> in_order(name, #[trigger] sorted[i]),
    decreases sorted.len(),
{
    if sorted.len() > 0 {
        let body = sorted.drop_last();
        assert(is_sorted(body)) by {
            assert forall|i: int, j: int| 0 <= i < j < body.len() implies in_order(
                #[trigger] body[i],
                #[trigger] body[j],
            ) by {
                assert(body[i] == sorted[i] && body[j] == sorted[j]);
            }
        }
        if in_order(name, sorted.last()) {
            lemma_place(body, name);
            assert forall|i: int| 0 <= i < place(sorted, name) implies in_order(
                #[trigger] sorted[i],
                name,
            ) by {
                assert(sorted[i] == body[i]);
            }
            assert forall|i: int| place(sorted, name) <= i < sorted.len() implies in_order(
                name,
                #[trigger] sorted[i],
            ) by {
                if i < body.len() {
                    assert(sorted[i] == body[i]);
                }
            }
        } else {
            lemma_order_total(name, sorted.last());
            assert forall|i: int| 0 <= i < sorted.len() implies in_order(
                #[trigger] sorted[i],
                name,
            ) by {
                if i < body.len() {
                    assert(in_order(sorted[i], sorted[sorted.len() - 1]));
                    lemma_order_transitive(sorted[i], sorted.last(), name);
                }
            }
        }
    }
}

/// Sorting gives the same names, in their order.
pub proof fn sorting_sorts(names: Seq<Seq<char>>)
    ensures
        is_sorted(sorted_names(names)),
        sorted_names(names).to_multiset() == names.to_multiset(),
        sorted_names(names).len() == names.len(),
    decreases names.len(),
{
    if names.len() > 0 {
        let body = names.drop_last();
        let name = names.last();
        sorting_sorts(body);
        let rest = sorted_names(body);
        lemma_place(rest, name);
        let at = place(rest, name) as int;
        let all = rest.insert(at, name);
        assert forall|i: int, j: int| 0 <= i < j < all.len() implies in_order(
            #[trigger] all[i],
            #[trigger] all[j],
        ) by {
            let p = if i < at {
                i
            } else {
                i - 1
            };
            let q = if j < at {
                j
            } else {
                j - 1
            };
            if i == at {
                assert(all[j] == rest[q]);
            } else if j == at {
                assert(all[i] == rest[p]);
            } else {
                assert(all[i] == rest[p] && all[j] == rest[q]);
            }
        }
        rest.insert_ensures(at, name);
        broadcast use vstd::seq_lib::group_to_multiset_ensures;

        assert(all.to_multiset() == rest.to_multiset().insert(name));
        assert(names =~= body.push(name));
        assert(names.to_multiset() == body.to_multiset().insert(name));
    }
}

/// The name of a slide of a presentation.
pub open spec fn is_slide(name: Seq<char>) -> bool {
    text::starts_with(name, "ppt/slides/slide"@) && text::ends_with(name, ".xml"@)
}

/// The names of the slides, in the order of the given names.
pub open spec fn slides_among(names: Seq<Seq<char>>) -> Seq<Seq<char>>
    decreases names.len(),
{
    if names.len() == 0 {
        names
    } else if is_slide(names.last()) {
        slides_among(names.drop_last()).push(names.last())
    } else {
        slides_among(names.drop_last())
    }
}

/// Whether `a` comes before `b` or is `b`.
pub(crate) fn comes_first(a: &str, b: &str) -> (r: bool)
    ensures
        r == in_order(a@, b@),
{
    let c = text::chars_of(a);
    let d = text::chars_of(b);
    let mut i: usize = 0;
    assert(c@.skip(0) =~= a@);
    assert(d@.skip(0) =~= b@);
    while i < c.len() && i < d.len()
        invariant
            i <= c@.len(),
            i <= d@.len(),
            in_order(a@, b@) == in_order(c@.skip(i as int), d@.skip(i as int)),
        decreases c@.len() - i,
    {
        if c[i] != d[i] {
            return c[i] < d[i];
        }
        assert(c@.skip(i as int).drop_first() =~= c@.skip(i + 1));
        assert(d@.skip(i as int).drop_first() =~= d@.skip(i + 1));
        i += 1;
    }
    i == c.len()
}

/// The names in their order.
pub fn sort_names(names: Vec<String>) -> (r: Vec<String>)
    ensures
        text::views(r@) == sorted_names(text::views(names@)),
{
    let mut r: Vec<String> = Vec::new();
    let ghost all = text::views(names@);
    let mut i: usize = 0;
    assert(text::views(r@) =~= sorted_names(all.take(0)));
    while i < names.len()
        invariant
            i <= names@.len(),
            all == text::views(names@),
            text::views(r@) == sorted_names(all.take(i as int)),
        decreases names@.len() - i,
    {
        let name = &names[i];
        let ghost sorted = text::views(r@);
        let mut k: usize = r.len();
        assert(sorted.take(k as int) =~= sorted);
        while k > 0 && comes_first(name.as_str(), r[k - 1].as_str())
            invariant
                k <= r@.len(),
                sorted == text::views(r@),
                place(sorted, name@) == place(sorted.take(k as int), name@),
            decreases k,
        {
            assert(sorted.take(k as int).drop_last() =~= sorted.take(k - 1));
            assert(sorted.take(k as int).last() == r@[k - 1]@);
            k -= 1;
        }
        proof {
            if k > 0 {
                assert(sorted.take(k as int).last() == r@[k - 1]@);
            }
            assert(place(sorted, name@) == k);
            assert(all.take(i + 1).drop_last() =~= all.take(i as int));
            assert(all.take(i + 1).last() == name@);
        }
        let ghost before = r@;
        let copy = name.clone();
        r.insert(k, copy);
        assert(text::views(r@) =~= text::views(before).insert(k as int, copy@));
        i += 1;
    }
    assert(all.take(i as int) =~= all);
    r
}

/// The names of the slides of a presentation, in their order.
pub fn slide_names(names: Vec<String>) -> (r: Vec<String>)
    ensures
        text::views(r@) == slides_among(sorted_names(text::views(names@))),
{
    let sorted = sort_names(names);
    let head = text::chars_of("ppt/slides/slide");
    let tail = text::chars_of(".xml");
    let mut r: Vec<String> = Vec::new();
    let ghost all = text::views(sorted@);
    let mut i: usize = 0;
    assert(text::views(r@) =~= slides_among(all.take(0)));
    while i < sorted.len()
        invariant
            i <= sorted@.len(),
            all == text::views(sorted@),
            head@ == "ppt/slides/slide"@,
            tail@ == ".xml"@,
            text::views(r@) == slides_among(all.take(i as int)),
        decreases sorted@.len() - i,
    {
        let name = &sorted[i];
        let c = text::chars_of(name.as_str());
        proof {
            assert(all.take(i + 1).drop_last() =~= all.take(i as int));
            assert(all.take(i + 1).last() == name@);
            if c@.len() >= head@.len() {
                assert(c@.subrange(0, head@.len() as int) =~= c@.take(head@.len() as int));
            }
            if c@.len() >= tail@.len() {
                assert(c@.subrange(c@.len() - tail@.len(), c@.len() as int) =~= c@.skip(
                    c@.len() - tail@.len(),
                ));
            }
        }
        if text::stands_at(&c, &head, 0) && c.len() >= tail.len() && text::stands_at(
            &c,
            &tail,
            c.len() - tail.len(),
        ) {
            let ghost before = r@;
            let copy = name.clone();
            r.push(copy);
            assert(text::views(r@) =~= text::views(before).push(copy@));
        }
        i += 1;
    }
    assert(all.take(i as int) =~= all);
    r
}

/// Why a document has no text.
#[derive(Debug)]
pub enum DocumentError {
    /// The path has no file name that is text.
    InvalidFileName,
    /// A plain document is not UTF-8.
    NotUtf8(std::string::FromUtf8Error),
    /// The document is no archive, or one without the entry that is needed.
    Archive(zip::result::ZipError),
    /// An entry cannot be unpacked to text.
    Entry(std::io::Error),
    /// An entry is no XML document.
    Xml(quick_xml::Error),
    /// The type of the file, by its extension, is not known.
    UnsupportedType(String),
}

/// What reading a document comes to.
pub enum Outcome {
    Text(Seq<char>),
    InvalidFileName,
    NotUtf8,
    Archive,
    Entry,
    Xml,
    UnsupportedType(Seq<char>),
}

impl View for DocumentError {
    type V = Outcome;

    open spec fn view(&self) -> Outcome {
        match *self {
            DocumentError::InvalidFileName => Outcome::InvalidFileName,
            DocumentError::NotUtf8(e) => Outcome::NotUtf8,
            DocumentError::Archive(e) => Outcome::Archive,
            DocumentError::Entry(e) => Outcome::Entry,
            DocumentError::Xml(e) => Outcome::Xml,
            DocumentError::UnsupportedType(kind) => Outcome::UnsupportedType(kind@),
        }
    }
}

/// What a result comes to.
pub open spec fn outcome_of(r: Result<String, DocumentError>) -> Outcome {
    match r {
        Ok(s) => Outcome::Text(s@),
        Err(e) => e@,
    }
}

/// What reading one XML entry of an archive comes to.
pub open spec fn entry_outcome(bytes: Seq<u8>, name: Seq<char>) -> Outcome {
    match archive_entry(bytes, name) {
        None => Outcome::Archive,
        Some(None) => Outcome::Entry,
        Some(Some(xml)) => match xml_text(xml_items(xml)) {
            None => Outcome::Xml,
            Some(t) => Outcome::Text(t),
        },
    }
}

/// The text of one XML entry of an archive.
fn extract_entry(bytes: &[u8], name: &str) -> (r: Result<String, DocumentError>)
    ensures
        outcome_of(r) == entry_outcome(bytes@, name@),
{
    match entry_text(bytes, name) {
        Err(e) => Err(DocumentError::Archive(e)),
        Ok(Err(e)) => Err(DocumentError::Entry(e)),
        Ok(Ok(xml)) => match extract_xml_text(xml.as_str()) {
            Err(e) => Err(DocumentError::Xml(e)),
            Ok(t) => Ok(t),
        },
    }
}

/// The text of a word processor document.
pub fn extract_docx_text(bytes: &[u8]) -> (r: Result<String, DocumentError>)
    ensures
        outcome_of(r) == entry_outcome(bytes@, "word/document.xml"@),
{
    extract_entry(bytes, "word/document.xml")
}

/// What reading the entries with the given names comes to: their texts, or the
/// first error.
pub open spec fn entries_outcome(bytes: Seq<u8>, names: Seq<Seq<char>>) -> Result<
    Seq<Seq<char>>,
    Outcome,
>
    decreases names.len(),
{
    if names.len() == 0 {
        Ok(Seq::empty())
    } else {
        match entries_outcome(bytes, names.drop_last()) {
            Err(e) => Err(e),
            Ok(texts) => match entry_outcome(bytes, names.last()) {
                Outcome::Text(t) => Ok(texts.push(t)),
                other => Err(other),
            },
        }
    }
}

/// An error among the first entries is the error of all.
proof fn lemma_entries_error(bytes: Seq<u8>, names: Seq<Seq<char>>, k: int)
    requires
        0 <= k <= names.len(),
        entries_outcome(bytes, names.take(k)) is Err,
    ensures
        entries_outcome(bytes, names) == entries_outcome(bytes, names.take(k)),
    decreases names.len() - k,
{
    if k == names.len() {
        assert(names.take(k) =~= names);
    } else {
        assert(names.take(k + 1).drop_last() =~= names.take(k));
        lemma_entries_error(bytes, names, k + 1);
    }
}

/// What reading a presentation comes to.
pub open spec fn pptx_outcome(bytes: Seq<u8>) -> Outcome {
    match archive_names(bytes) {
        None => Outcome::Archive,
        Some(names) => match entries_outcome(bytes, slides_among(sorted_names(names))) {
            Ok(texts) => Outcome::Text(text::join(texts, "\n\n"@)),
            Err(e) => e,
        },
    }
}

/// The text of a presentation: that of its slides, in the order of their names,
/// with a blank line between each two.
pub fn extract_pptx_text(bytes: &[u8]) -> (r: Result<String, DocumentError>)
    ensures
        outcome_of(r) == pptx_outcome(bytes@),
{
    let names = match entry_names(bytes) {
        Err(e) => {
            return Err(DocumentError::Archive(e));
        },
        Ok(names) => names,
    };
    let slides = slide_names(names);
    let ghost all = text::views(slides@);
    let mut output: Vec<String> = Vec::new();
    let mut i: usize = 0;
    assert(text::views(output@) =~= Seq::<Seq<char>>::empty());
    while i < slides.len()
        invariant
            i <= slides@.len(),
            all == text::views(slides@),
            all == slides_among(sorted_names(archive_names(bytes@).unwrap())),
            archive_names(bytes@) is Some,
            entries_outcome(bytes@, all.take(i as int)) == Ok::<Seq<Seq<char>>, Outcome>(
                text::views(output@),
            ),
        decreases slides@.len() - i,
    {
        proof {
            assert(all.take(i + 1).drop_last() =~= all.take(i as int));
            assert(all.take(i + 1).last() == slides@[i as int]@);
        }
        match extract_entry(bytes, slides[i].as_str()) {
            Err(e) => {
                proof {
                    lemma_entries_error(bytes@, all, i + 1);
                }
                return Err(e);
            },
            Ok(t) => {
                let ghost before = output@;
                output.push(t);
                assert(text::views(output@) =~= text::views(before).push(t@));
            },
        }
        i += 1;
    }
    assert(all.take(i as int) =~= all);
    Ok(text::join_strings(&output, "\n\n"))
}

/// A document of a course, with its text.
#[derive(Debug, Clone)]
pub struct ParsedDocument {
    pub path: String,
    pub file_name: String,
    pub kind: String,
    pub sha256: String,
    pub text: String,
}

/// The view of a document.
pub struct ParsedDocumentView {
    pub path: Seq<char>,
    pub file_name: Seq<char>,
    pub kind: Seq<char>,
    pub sha256: Seq<char>,
    pub text: Seq<char>,
}

impl View for ParsedDocument {
    type V = ParsedDocumentView;

    open spec fn view(&self) -> ParsedDocumentView {
        ParsedDocumentView {
            path: self.path@,
            file_name: self.file_name@,
            kind: self.kind@,
            sha256: self.sha256@,
            text: self.text@,
        }
    }
}

/// A document of which all but the text is known.
#[derive(Debug, Clone)]
pub struct PendingDocument {
    pub path: String,
    pub file_name: String,
    pub kind: String,
    pub sha256: String,
}

/// What a document comes to at first.
#[derive(Debug, Clone)]
pub enum DocumentStep {
    /// The document with its text.
    Done(ParsedDocument),
    /// A PDF document, whose text is still to be extracted. The `pdf_extract` crate
    /// panics on some malformed files, so the call of it is left to the caller.
    ExtractPdf(PendingDocument),
}

impl PendingDocument {
    /// The document with the given raw text.
    pub open spec fn with_text(self, raw: Seq<char>) -> ParsedDocumentView {
        ParsedDocumentView {
            path: self.path@,
            file_name: self.file_name@,
            kind: self.kind@,
            sha256: self.sha256@,
            text: parser::normalized_text(raw),
        }
    }

    /// The document with the text that was extracted for it.
    pub fn finish(self, raw: &str) -> (r: ParsedDocument)
        ensures
            r@ == self.with_text(raw@),
    {
        ParsedDocument {
            path: self.path,
            file_name: self.file_name,
            kind: self.kind,
            sha256: self.sha256,
            text: parser::normalize_text(raw),
        }
    }
}

/// The type of a document: its extension in lower case; empty where it has none.
pub open spec fn document_kind(extension: Option<Seq<char>>) -> Seq<char> {
    match extension {
        Some(e) => e.map_values(|c: char| text::lower_char(c)),
        None => Seq::empty(),
    }
}

/// What reading the text of a document of the given type comes to; PDF documents
/// are left out.
pub open spec fn text_outcome(kind: Seq<char>, bytes: Seq<u8>) -> Outcome {
    if kind == "txt"@ || kind == "md"@ {
        if valid_utf8(bytes) {
            Outcome::Text(decode_utf8(bytes))
        } else {
            Outcome::NotUtf8
        }
    } else if kind == "docx"@ {
        entry_outcome(bytes, "word/document.xml"@)
    } else if kind == "pptx"@ {
        pptx_outcome(bytes)
    } else {
        Outcome::UnsupportedType(kind)
    }
}

/// The document with the given path and bytes. `file_name` and `extension` are
/// those of the path, where it has one that is text. A PDF document is handed
/// back without its text.
pub fn parse_document(
    path: String,
    file_name: Option<String>,
    extension: Option<String>,
    bytes: Vec<u8>,
) -> (r: Result<DocumentStep, DocumentError>)
    ensures
        file_name is None ==> (r matches Err(e) && e@ == Outcome::InvalidFileName),
        file_name matches Some(name) ==> ({
            let kind = document_kind(text::view_opt(extension));
            let sha = hex_of(sha256_of(bytes@));
            if kind == "pdf"@ {
                r matches Ok(DocumentStep::ExtractPdf(p)) && p.path@ == path@ && p.file_name@
                    == name@ && p.kind@ == kind && p.sha256@ == sha
            } else {
                match text_outcome(kind, bytes@) {
                    Outcome::Text(raw) => r matches Ok(DocumentStep::Done(d)) && d@ == (
                    ParsedDocumentView {
                        path: path@,
                        file_name: name@,
                        kind,
                        sha256: sha,
                        text: parser::normalized_text(raw),
                    }),
                    other => r matches Err(e) && e@ == other,
                }
            }
        }),
        r matches Ok(DocumentStep::Done(d)) ==> is_digest_text(d.sha256@),
        r matches Ok(DocumentStep::ExtractPdf(p)) ==> is_digest_text(p.sha256@),
{
    let sha256 = hex_text(&sha256(&bytes));
    let file_name = match file_name {
        Some(name) => name,
        None => {
            return Err(DocumentError::InvalidFileName);
        },
    };
    let kind = match extension {
        Some(e) => text::ascii_lower(e.as_str()),
        None => String::new(),
    };
    let plain = text::same_text(kind.as_str(), "txt") || text::same_text(kind.as_str(), "md");
    let pdf = text::same_text(kind.as_str(), "pdf");
    let docx = text::same_text(kind.as_str(), "docx");
    let pptx = text::same_text(kind.as_str(), "pptx");
    proof {
        reveal_strlit("txt");
        reveal_strlit("md");
        reveal_strlit("pdf");
        reveal_strlit("docx");
        reveal_strlit("pptx");
        assert("txt"@[0] != "pdf"@[0]);
    }
    if pdf {
        return Ok(DocumentStep::ExtractPdf(PendingDocument { path, file_name, kind, sha256 }));
    }
    let raw = if plain {
        match String::from_utf8(bytes) {
            Ok(s) => s,
            Err(e) => {
                return Err(DocumentError::NotUtf8(e));
            },
        }
    } else if docx {
        match extract_docx_text(&bytes) {
            Ok(s) => s,
            Err(e) => {
                return Err(e);
            },
        }
    } else if pptx {
        match extract_pptx_text(&bytes) {
            Ok(s) => s,
            Err(e) => {
                return Err(e);
            },
        }
    } else {
        return Err(DocumentError::UnsupportedType(kind));
    };
    let pending = PendingDocument { path, file_name, kind, sha256 };
    Ok(DocumentStep::Done(pending.finish(raw.as_str())))
}

/// Each byte is written as its two hexadecimal digits, the higher one first.
pub proof fn bytes_are_written_in_hexadecimal(bytes: Seq<u8>, i: int)
    requires
        0 <= i < bytes.len(),
    ensures
        hex_of(bytes).len() == 2 * bytes.len(),
        hex_of(bytes)[2 * i] == "0123456789abcdef"@[bytes[i] as int / 16],
        hex_of(bytes)[2 * i + 1] == "0123456789abcdef"@[bytes[i] as int % 16],
{
    reveal_strlit("0123456789abcdef");
    let digits = "0123456789abcdef"@;
    assert((2 * i) / 2 == i && (2 * i) % 2 == 0);
    assert((2 * i + 1) / 2 == i && (2 * i + 1) % 2 == 1);
    assert forall|d: int| 0 <= d < 16 implies #[trigger] digits[d] == hex_digit(d) by {}
    assert(digits[bytes[i] as int / 16] == hex_digit(bytes[i] as int / 16));
    assert(digits[bytes[i] as int % 16] == hex_digit(bytes[i] as int % 16));
}

/// Different bytes are written differently.
pub proof fn hexadecimal_holds_the_bytes(a: Seq<u8>, b: Seq<u8>)
    requires
        hex_of(a) == hex_of(b),
    ensures
        a == b,
{
    assert(hex_of(a).len() == 2 * a.len() && hex_of(b).len() == 2 * b.len());
    assert forall|i: int| 0 <= i < a.len() implies a[i] == b[i] by {
        assert((2 * i) / 2 == i && (2 * i) % 2 == 0);
        assert((2 * i + 1) / 2 == i && (2 * i + 1) % 2 == 1);
        assert(hex_of(a)[2 * i] == hex_digit(a[i] as int / 16));
        assert(hex_of(b)[2 * i] == hex_digit(b[i] as int / 16));
        assert(hex_of(a)[2 * i + 1] == hex_digit(a[i] as int % 16));
        assert(hex_of(b)[2 * i + 1] == hex_digit(b[i] as int % 16));
        assert(hex_digit(a[i] as int / 16) == hex_digit(b[i] as int / 16));
        assert(hex_digit(a[i] as int % 16) == hex_digit(b[i] as int % 16));
        assert(a[i] as int / 16 == b[i] as int / 16);
        assert(a[i] as int % 16 == b[i] as int % 16);
    }
    assert(a =~= b);
}

/// The character data of an XML document are put on lines of their own, in their order, and
/// markup adds nothing; a document that breaks off gives no text.
pub proof fn character_data_are_kept_in_order(items: Seq<XmlItem>, t: Seq<char>)
    ensures
        fragments(Seq::empty()) == Seq::<Seq<char>>::empty(),
        fragments(items.push(XmlItem::Text(t))) == fragments(items).push(t),
        fragments(items.push(XmlItem::Markup)) == fragments(items),
        fragments(items.push(XmlItem::End)) == fragments(items),
        xml_text(items.push(XmlItem::Broken)) is None,
        fragments(items).len() == 0 ==> xml_text(items.push(XmlItem::End)) == Some(
            Seq::<char>::empty(),
        ),
        fragments(items).len() == 0 ==> xml_text(
            items.push(XmlItem::Text(t)).push(XmlItem::End),
        ) == Some(t),
        fragments(items).len() > 0 ==> xml_text(items.push(XmlItem::Text(t)).push(XmlItem::End))
            == Some(xml_text(items.push(XmlItem::End))->0 + "\n"@ + t),
{
    let more = items.push(XmlItem::Text(t));
    assert(more.drop_last() =~= items);
    assert(more.push(XmlItem::End).drop_last() =~= more);
    assert(items.push(XmlItem::Markup).drop_last() =~= items);
    assert(items.push(XmlItem::End).drop_last() =~= items);
    assert(fragments(items).push(t) =~= fragments(items) + seq![t]);
    text::joining_is_by_parts(fragments(items), seq![t], "\n"@);
    text::joining_is_by_parts(seq![t], seq![t], "\n"@);
    if fragments(items).len() == 0 {
        assert(fragments(items) + seq![t] =~= seq![t]);
    }
}

/// Names are ordered by the first character in which they differ, and a name comes before
/// each longer one that starts with it.
pub proof fn names_are_ordered_by_their_characters(
    start: Seq<char>,
    x: char,
    y: char,
    a: Seq<char>,
    b: Seq<char>,
)
    requires
        x < y,
    ensures
        in_order(start + seq![x] + a, start + seq![y] + b),
        !in_order(start + seq![y] + b, start + seq![x] + a),
        in_order(start, start + a),
        a.len() > 0 ==> !in_order(start + a, start),
    decreases start.len(),
{
    let p = start + seq![x] + a;
    let q = start + seq![y] + b;
    if start.len() == 0 {
        assert(p[0] == x);
        assert(q[0] == y);
        assert(start + a =~= a);
    } else {
        let rest = start.drop_first();
        assert(p[0] == start[0] && q[0] == start[0]);
        assert(p.drop_first() =~= rest + seq![x] + a);
        assert(q.drop_first() =~= rest + seq![y] + b);
        assert((start + a)[0] == start[0]);
        assert((start + a).drop_first() =~= rest + a);
        names_are_ordered_by_their_characters(rest, x, y, a, b);
    }
}

/// The slides of a presentation are the entries whose names start and end as those of slides
/// do; they are kept in the order in which they are given.
pub proof fn slides_are_known_by_their_names(
    names: Seq<Seq<char>>,
    number: Seq<char>,
    other: Seq<char>,
)
    requires
        !text::starts_with(other, "ppt/slides/slide"@) || !text::ends_with(other, ".xml"@),
    ensures
        slides_among(Seq::empty()) == Seq::<Seq<char>>::empty(),
        slides_among(names.push("ppt/slides/slide"@ + number + ".xml"@)) == slides_among(
            names,
        ).push("ppt/slides/slide"@ + number + ".xml"@),
        slides_among(names.push(other)) == slides_among(names),
{
    let slide = "ppt/slides/slide"@ + number + ".xml"@;
    assert(slide.take("ppt/slides/slide"@.len() as int) =~= "ppt/slides/slide"@);
    assert(slide.skip(slide.len() - ".xml"@.len()) =~= ".xml"@);
    assert(names.push(slide).drop_last() =~= names);
    assert(names.push(other).drop_last() =~= names);
}

/// The texts of the entries are read in the order of their names; an entry that cannot be
/// read ends it with its own error, unless one before it did.
pub proof fn entries_are_read_in_order(bytes: Seq<u8>, names: Seq<Seq<char>>, next: Seq<char>)
    ensures
        entries_outcome(bytes, Seq::empty()) == Ok::<Seq<Seq<char>>, Outcome>(Seq::empty()),
        entries_outcome(bytes, names) is Err ==> entries_outcome(bytes, names.push(next))
            == entries_outcome(bytes, names),
        entries_outcome(bytes, names) matches Ok(texts) ==> {
            &&& entry_outcome(bytes, next) matches Outcome::Text(t) ==> entries_outcome(
                bytes,
                names.push(next),
            ) == Ok::<Seq<Seq<char>>, Outcome>(texts.push(t))
            &&& !(entry_outcome(bytes, next) is Text) ==> entries_outcome(bytes, names.push(next))
                == Err::<Seq<Seq<char>>, Outcome>(entry_outcome(bytes, next))
        },
{
    assert(names.push(next).drop_last() =~= names);
}

/// An entry gives the text of its XML document; where the archive has no such entry, where
/// it cannot be unpacked, and where it is no such document, the error says which it is.
pub proof fn entries_give_their_text(bytes: Seq<u8>, name: Seq<char>)
    ensures
        archive_entry(bytes, name) is None <==> entry_outcome(bytes, name) is Archive,
        archive_entry(bytes, name) == Some(None::<Seq<char>>) <==> entry_outcome(
            bytes,
            name,
        ) is Entry,
        archive_entry(bytes, name) matches Some(Some(xml)) ==> {
            &&& xml_text(xml_items(xml)) is None ==> entry_outcome(bytes, name) is Xml
            &&& xml_text(xml_items(xml)) matches Some(t) ==> entry_outcome(bytes, name)
                == Outcome::Text(t)
        },
{
}

/// A presentation gives the texts of its slides, in the order of their names and with a blank
/// line between each two.
pub proof fn presentations_give_their_slides(bytes: Seq<u8>, names: Seq<Seq<char>>)
    requires
        archive_names(bytes) == Some(names),
    ensures
        ({
            let slides = slides_among(sorted_names(names));
            &&& entries_outcome(bytes, slides) matches Ok(texts) ==> pptx_outcome(bytes)
                == Outcome::Text(text::join(texts, "\n\n"@))
            &&& entries_outcome(bytes, slides) matches Err(e) ==> pptx_outcome(bytes) == e
            &&& is_sorted(sorted_names(names))
            &&& sorted_names(names).to_multiset() == names.to_multiset()
        }),
{
    sorting_sorts(names);
}

/// What is no archive is no presentation.
pub proof fn presentations_are_archives(bytes: Seq<u8>)
    requires
        archive_names(bytes) is None,
    ensures
        pptx_outcome(bytes) is Archive,
{
}

/// A document is of the type that its extension names, in whatever case: plain text is taken
/// as it is, a document of a word processor gives its main part, a presentation its slides,
/// and anything else is refused under its own name.
pub proof fn documents_are_read_by_their_type(kind: Seq<char>, bytes: Seq<u8>)
    ensures
        valid_utf8(bytes) ==> text_outcome("txt"@, bytes) == Outcome::Text(decode_utf8(bytes)),
        valid_utf8(bytes) ==> text_outcome("md"@, bytes) == Outcome::Text(decode_utf8(bytes)),
        !valid_utf8(bytes) ==> text_outcome("txt"@, bytes) is NotUtf8 && text_outcome(
            "md"@,
            bytes,
        ) is NotUtf8,
        text_outcome("docx"@, bytes) == entry_outcome(bytes, "word/document.xml"@),
        text_outcome("pptx"@, bytes) == pptx_outcome(bytes),
        kind != "txt"@ && kind != "md"@ && kind != "docx"@ && kind != "pptx"@ ==> text_outcome(
            kind,
            bytes,
        ) == Outcome::UnsupportedType(kind),
        document_kind(None) == Seq::<char>::empty(),
{
    reveal_strlit("txt");
    reveal_strlit("md");
    reveal_strlit("docx");
    reveal_strlit("pptx");
    assert("docx"@[0] != "txt"@[0]);
    assert("docx"@.len() != "md"@.len());
    assert("pptx"@[0] != "docx"@[0]);
    assert("pptx"@.len() != "md"@.len());
    assert("pptx"@.len() != "txt"@.len());
}

/// An extension names the same type in capital letters.
pub proof fn capital_letters_name_the_same_type(extension: Seq<char>, i: int, k: int)
    requires
        0 <= i < extension.len(),
        0 <= k < 26,
    ensures
        document_kind(Some(extension)).len() == extension.len(),
        extension[i] == "ABCDEFGHIJKLMNOPQRSTUVWXYZ"@[k] ==> document_kind(Some(extension))[i]
            == "abcdefghijklmnopqrstuvwxyz"@[k],
        !"ABCDEFGHIJKLMNOPQRSTUVWXYZ"@.contains(extension[i]) ==> document_kind(
            Some(extension),
        )[i] == extension[i],
{
    reveal_strlit("ABCDEFGHIJKLMNOPQRSTUVWXYZ");
    if "ABCDEFGHIJKLMNOPQRSTUVWXYZ"@.contains(extension[i]) {
        text::letters_keep_their_place(k, ' ');
    } else {
        text::letters_keep_their_place(k, extension[i]);
    }
}

/// A document whose text came later is the one that it was before, with the text as it is
/// stored.
pub proof fn pending_documents_are_completed(pending: PendingDocument, raw: Seq<char>)
    ensures
        ({
            let d = pending.with_text(raw);
            &&& d.path == pending.path@ && d.file_name == pending.file_name@
            &&& d.kind == pending.kind@ && d.sha256 == pending.sha256@
            &&& d.text == parser::normalized_text(raw)
        }),
{
}

/// What is shown of a document is what it holds, each field under its own name.
pub proof fn views_show_the_document(d: ParsedDocument)
    ensures
        d@.path == d.path@ && d@.file_name == d.file_name@ && d@.kind == d.kind@ && d@.sha256
            == d.sha256@ && d@.text == d.text@,
{
}

} // verus!
