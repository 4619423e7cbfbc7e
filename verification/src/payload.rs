//! The JSON text in a model's reply: cutting it out, closing it where the reply
//! was cut off, and salvaging the complete objects of its `questions` array.

use vstd::prelude::*;
use crate::text;

verus! {

/// How far a reader of JSON text has come: whether it is inside a string,
/// whether the next character is escaped, and how many objects and arrays are
/// open.
pub struct Nesting {
    pub in_string: bool,
    pub escaped: bool,
    pub objects: nat,
    pub arrays: nat,
}

/// Before the first character.
pub open spec fn outside() -> Nesting {
    Nesting { in_string: false, escaped: false, objects: 0, arrays: 0 }
}

/// One character further.
pub open spec fn advance(n: Nesting, c: char) -> Nesting {
    if n.escaped {
        Nesting { escaped: false, ..n }
    } else if n.in_string {
        if c == '\\' {
            Nesting { escaped: true, ..n }
        } else if c == '"' {
            Nesting { in_string: false, ..n }
        } else {
            n
        }
    } else if c == '"' {
        Nesting { in_string: true, ..n }
    } else if c == '{' {
        Nesting { objects: n.objects + 1, ..n }
    } else if c == '}' && n.objects > 0 {
        Nesting { objects: (n.objects - 1) as nat, ..n }
    } else if c == '[' {
        Nesting { arrays: n.arrays + 1, ..n }
    } else if c == ']' && n.arrays > 0 {
        Nesting { arrays: (n.arrays - 1) as nat, ..n }
    } else {
        n
    }
}

/// What is open at the end of `s`.
pub open spec fn nesting(s: Seq<char>) -> Nesting
    decreases s.len(),
{
    if s.len() == 0 {
        outside()
    } else {
        advance(nesting(s.drop_last()), s.last())
    }
}

/// `n` times the character `c`.
pub open spec fn repeat(c: char, n: nat) -> Seq<char> {
    Seq::new(n, |i: int| c)
}

/// What closes a text at whose end `n` is open: the string, then the arrays,
/// then the objects.
pub open spec fn closing(n: Nesting) -> Seq<char> {
    (if n.in_string {
        seq!['"']
    } else {
        Seq::empty()
    }) + repeat(']', n.arrays) + repeat('}', n.objects)
}

/// `raw` with what is open at its end closed.
pub open spec fn repaired(raw: Seq<char>) -> Seq<char> {
    raw + closing(nesting(raw))
}

/// `raw` with what is open at its end closed.
pub fn repair_truncated_json(raw: &str) -> (r: String)
    ensures
        r@ == repaired(raw@),
{
    let c = text::chars_of(raw);
    let mut result = String::new();
    let mut in_string: bool = false;
    let mut escaped: bool = false;
    let mut object_depth: usize = 0;
    let mut array_depth: usize = 0;
    let mut i: usize = 0;
    while i < c.len()
        invariant
            i <= c@.len(),
            c@ == raw@,
            result@ == raw@.take(i as int),
            nesting(raw@.take(i as int)) == (Nesting {
                in_string,
                escaped,
                objects: object_depth as nat,
                arrays: array_depth as nat,
            }),
            object_depth <= i,
            array_depth <= i,
        decreases c@.len() - i,
    {
        let ch = c[i];
        result.push(ch);
        assert(raw@.take(i + 1).drop_last() =~= raw@.take(i as int));
        assert(result@ =~= raw@.take(i + 1));
        if escaped {
            escaped = false;
        } else if in_string {
            if ch == '\\' {
                escaped = true;
            } else if ch == '"' {
                in_string = false;
            }
        } else if ch == '"' {
            in_string = true;
        } else if ch == '{' {
            object_depth += 1;
        } else if ch == '}' && object_depth > 0 {
            object_depth -= 1;
        } else if ch == '[' {
            array_depth += 1;
        } else if ch == ']' && array_depth > 0 {
            array_depth -= 1;
        }
        i += 1;
    }
    assert(raw@.take(i as int) =~= raw@);
    if in_string {
        result.push('"');
    }
    let ghost quoted = result@;
    proof {
        let quote = if in_string {
            seq!['"']
        } else {
            Seq::empty()
        };
        assert(quoted =~= raw@ + quote);
        assert(repeat(']', 0) =~= Seq::empty());
        assert(quoted + repeat(']', 0) =~= quoted);
    }
    let mut k: usize = 0;
    while k < array_depth
        invariant
            k <= array_depth,
            result@ == quoted + repeat(']', k as nat),
        decreases array_depth - k,
    {
        result.push(']');
        k += 1;
        assert(result@ =~= quoted + repeat(']', k as nat));
    }
    let ghost bracketed = result@;
    assert(bracketed + repeat('}', 0) =~= bracketed);
    let mut k: usize = 0;
    while k < object_depth
        invariant
            k <= object_depth,
            result@ == bracketed + repeat('}', k as nat),
        decreases object_depth - k,
    {
        result.push('}');
        k += 1;
        assert(result@ =~= bracketed + repeat('}', k as nat));
    }
    proof {
        assert(result@ =~= repaired(raw@));
    }
    result
}

/// One more character carries the nesting on by one step.
proof fn lemma_nesting_push(s: Seq<char>, c: char)
    ensures
        nesting(s.push(c)) == advance(nesting(s), c),
{
    assert(s.push(c).drop_last() =~= s);
}

/// Closing brackets close what they stand for.
proof fn lemma_nesting_repeat(s: Seq<char>, c: char, n: nat)
    requires
        !nesting(s).in_string,
        !nesting(s).escaped,
        c == ']' || c == '}',
        c == ']' ==> n <= nesting(s).arrays,
        c == '}' ==> n <= nesting(s).objects,
    ensures
        c == ']' ==> nesting(s + repeat(c, n)) == (Nesting {
            arrays: (nesting(s).arrays - n) as nat,
            ..nesting(s)
        }),
        c == '}' ==> nesting(s + repeat(c, n)) == (Nesting {
            objects: (nesting(s).objects - n) as nat,
            ..nesting(s)
        }),
    decreases n,
{
    if n == 0 {
        assert(s + repeat(c, 0) =~= s);
    } else {
        let m = (n - 1) as nat;
        lemma_nesting_repeat(s, c, m);
        assert(s + repeat(c, n) =~= (s + repeat(c, m)).push(c));
        lemma_nesting_push(s + repeat(c, m), c);
    }
}

/// A repaired text is closed: it ends outside every string, array and object.
/// A text that ends in the middle of an escape (after a backslash in a string)
/// is left out: the quote that is to close its string completes the escape.
pub proof fn repair_closes(raw: Seq<char>)
    requires
        !nesting(raw).escaped,
    ensures
        nesting(repaired(raw)) == outside(),
{
    let n = nesting(raw);
    let a = if n.in_string {
        raw.push('"')
    } else {
        raw
    };
    lemma_nesting_push(raw, '"');
    let b = a + repeat(']', n.arrays);
    lemma_nesting_repeat(a, ']', n.arrays);
    lemma_nesting_repeat(b, '}', n.objects);
    assert(repaired(raw) =~= b + repeat('}', n.objects));
}

/// A text that is closed is not changed by repairing it.
pub proof fn repair_keeps_closed_text(raw: Seq<char>)
    requires
        nesting(raw) == outside(),
    ensures
        repaired(raw) == raw,
{
    assert(repaired(raw) =~= raw);
}

/// Repairing a second time changes nothing, under the condition of
/// `repair_closes`.
pub proof fn repair_is_idempotent(raw: Seq<char>)
    requires
        !nesting(raw).escaped,
    ensures
        repaired(repaired(raw)) == repaired(raw),
{
    repair_closes(raw);
    repair_keeps_closed_text(repaired(raw));
}

/// Repairing only adds characters, at the end.
pub proof fn repair_extends(raw: Seq<char>)
    ensures
        raw.is_prefix_of(repaired(raw)),
{
    assert(repaired(raw).take(raw.len() as int) =~= raw);
}

/// How far a reader of a list of objects has come: whether it is inside a
/// string, whether the next character is escaped, and how many braces are open.
pub struct Braces {
    pub in_string: bool,
    pub escaped: bool,
    pub depth: nat,
}

/// Before the first character, and between two objects.
pub open spec fn between() -> Braces {
    Braces { in_string: false, escaped: false, depth: 0 }
}

/// One character further.
pub open spec fn brace_step(b: Braces, c: char) -> Braces {
    if b.escaped {
        Braces { escaped: false, ..b }
    } else if b.in_string {
        if c == '\\' {
            Braces { escaped: true, ..b }
        } else if c == '"' {
            Braces { in_string: false, ..b }
        } else {
            b
        }
    } else if c == '"' {
        Braces { in_string: true, ..b }
    } else if c == '{' {
        Braces { depth: b.depth + 1, ..b }
    } else if c == '}' && b.depth > 0 {
        Braces { depth: (b.depth - 1) as nat, ..b }
    } else {
        b
    }
}

/// What is open at the end of `s`.
pub open spec fn braces(s: Seq<char>) -> Braces
    decreases s.len(),
{
    if s.len() == 0 {
        between()
    } else {
        brace_step(braces(s.drop_last()), s.last())
    }
}

/// `o` is one complete object: it starts with a brace, and that brace is closed
/// by the last character of `o` and not before.
pub open spec fn is_object(o: Seq<char>) -> bool {
    &&& o.len() > 0
    &&& o[0] == '{'
    &&& braces(o).depth == 0
    &&& forall|k: int| 0 < k < o.len() ==> #[trigger] braces(o.take(k)).depth > 0
}

/// The complete objects of `raw` that a reader meets from position `i` on, when
/// `b` is open there and the outermost open brace stands at `start`. A bracket
/// between two objects ends the list.
pub open spec fn objects_from(raw: Seq<char>, i: int, b: Braces, start: int) -> Seq<Seq<char>>
    decreases raw.len() - i,
{
    if i < 0 || i >= raw.len() || (b == between() && raw[i] == ']') {
        Seq::empty()
    } else {
        let next = brace_step(b, raw[i]);
        let begin = if b.depth == 0 && next.depth > 0 {
            i
        } else {
            start
        };
        if b.depth > 0 && next.depth == 0 {
            seq![raw.subrange(begin, i + 1)] + objects_from(raw, i + 1, next, begin)
        } else {
            objects_from(raw, i + 1, next, begin)
        }
    }
}

/// The complete objects of the list that `raw` starts with.
pub open spec fn top_level_objects(raw: Seq<char>) -> Seq<Seq<char>> {
    objects_from(raw, 0, between(), 0)
}

/// The complete objects of the list that `raw` starts with.
pub fn extract_complete_top_level_objects(raw: &str) -> (r: Vec<String>)
    ensures
        text::views(r@) == top_level_objects(raw@),
{
    let c = text::chars_of(raw);
    let mut results: Vec<String> = Vec::new();
    let mut in_string: bool = false;
    let mut escaped: bool = false;
    let mut depth: usize = 0;
    let mut start: usize = 0;
    let mut i: usize = 0;
    assert(text::views(results@) + top_level_objects(raw@) =~= top_level_objects(raw@));
    while i < c.len()
        invariant
            i <= c@.len(),
            c@ == raw@,
            depth <= i,
            start <= i,
            text::views(results@) + objects_from(
                raw@,
                i as int,
                Braces { in_string, escaped, depth: depth as nat },
                start as int,
            ) == top_level_objects(raw@),
        decreases c@.len() - i,
    {
        let ch = c[i];
        let ghost b = Braces { in_string, escaped, depth: depth as nat };
        let ghost before = results@;
        if escaped {
            escaped = false;
        } else if in_string {
            if ch == '\\' {
                escaped = true;
            } else if ch == '"' {
                in_string = false;
            }
        } else if ch == '"' {
            in_string = true;
        } else if ch == '{' {
            if depth == 0 {
                start = i;
            }
            depth += 1;
        } else if ch == '}' && depth > 0 {
            depth -= 1;
            if depth == 0 {
                let found = text::string_from(&c, start, i + 1);
                results.push(found);
                proof {
                    let rest = objects_from(raw@, i + 1, brace_step(b, ch), start as int);
                    assert(text::views(results@) =~= text::views(before).push(found@));
                    assert(text::views(results@) + rest =~= text::views(before) + (seq![found@]
                        + rest));
                }
            }
        } else if ch == ']' && depth == 0 {
            assert(text::views(results@) =~= top_level_objects(raw@));
            return results;
        }
        i += 1;
    }
    assert(text::views(results@) =~= top_level_objects(raw@));
    results
}

/// What a reader finds from position `i` on is made of complete objects, when
/// the object that is open there has been read from its first brace on.
proof fn lemma_objects_complete(raw: Seq<char>, i: int, b: Braces, start: int)
    requires
        0 <= i <= raw.len(),
        b.depth > 0 ==> 0 <= start < i && braces(raw.subrange(start, i)) == b && raw[start] == '{'
            && (forall|k: int|
            start < k < i ==> braces(#[trigger] raw.subrange(start, k)).depth > 0),
    ensures
        forall|n: int|
            0 <= n < objects_from(raw, i, b, start).len() ==> is_object(
                #[trigger] objects_from(raw, i, b, start)[n],
            ),
    decreases raw.len() - i,
{
    if i >= raw.len() || (b == between() && raw[i] == ']') {
    } else {
        let next = brace_step(b, raw[i]);
        let begin = if b.depth == 0 && next.depth > 0 {
            i
        } else {
            start
        };
        if b.depth == 0 {
            if next.depth > 0 {
                let one = raw.subrange(i, i + 1);
                assert(one.drop_last().len() == 0);
                assert(braces(one.drop_last()) == between());
                assert(one.last() == raw[i]);
                if b.in_string || b.escaped {
                    assert(false);
                }
                assert(b == between());
                assert(braces(one) == next);
            }
            lemma_objects_complete(raw, i + 1, next, begin);
            assert(objects_from(raw, i, b, start) == objects_from(raw, i + 1, next, begin));
        } else {
            let whole = raw.subrange(start, i + 1);
            assert(whole.drop_last() =~= raw.subrange(start, i));
            assert(whole.last() == raw[i]);
            assert(braces(whole) == next);
            if next.depth == 0 {
                assert forall|k: int| 0 < k < whole.len() implies #[trigger] braces(
                    whole.take(k),
                ).depth > 0 by {
                    assert(whole.take(k) =~= raw.subrange(start, start + k));
                    if start + k == i {
                        assert(braces(raw.subrange(start, i)).depth > 0);
                    }
                }
                assert(whole[0] == raw[start]);
                assert(is_object(whole));
                lemma_objects_complete(raw, i + 1, next, begin);
                let tail = objects_from(raw, i + 1, next, begin);
                let all = objects_from(raw, i, b, start);
                assert(all == seq![whole] + tail);
                assert forall|n: int| 0 <= n < all.len() implies is_object(#[trigger] all[n]) by {
                    if n > 0 {
                        assert(all[n] == tail[n - 1]);
                    }
                }
            } else {
                assert forall|k: int| start < k < i + 1 implies braces(
                    #[trigger] raw.subrange(start, k),
                ).depth > 0 by {
                    if k == i {
                        assert(braces(raw.subrange(start, i)) == b);
                    }
                }
                lemma_objects_complete(raw, i + 1, next, begin);
                assert(objects_from(raw, i, b, start) == objects_from(raw, i + 1, next, begin));
            }
        }
    }
}

/// What a reader finds in a text, it finds in a longer one, too.
proof fn lemma_objects_extend(raw: Seq<char>, more: Seq<char>, i: int, b: Braces, start: int)
    requires
        0 <= start <= i,
    ensures
        objects_from(raw, i, b, start).is_prefix_of(objects_from(raw + more, i, b, start)),
    decreases raw.len() - i,
{
    let long = raw + more;
    if i >= raw.len() || (b == between() && raw[i] == ']') {
    } else {
        assert(long[i] == raw[i]);
        let next = brace_step(b, raw[i]);
        let begin = if b.depth == 0 && next.depth > 0 {
            i
        } else {
            start
        };
        lemma_objects_extend(raw, more, i + 1, next, begin);
        if b.depth > 0 && next.depth == 0 {
            let short_rest = objects_from(raw, i + 1, next, begin);
            let long_rest = objects_from(long, i + 1, next, begin);
            let found = raw.subrange(begin, i + 1);
            assert(long.subrange(begin, i + 1) =~= found);
            assert((seq![found] + long_rest).take((seq![found] + short_rest).len() as int)
                =~= seq![found] + long_rest.take(short_rest.len() as int));
        }
    }
}

/// A reply that goes on loses no object: those that were found in its first part are found
/// first in the whole.
pub proof fn longer_replies_keep_their_objects(raw: Seq<char>, more: Seq<char>)
    ensures
        top_level_objects(raw).is_prefix_of(top_level_objects(raw + more)),
{
    lemma_objects_extend(raw, more, 0, between(), 0);
}

/// Everything that is extracted is one complete object.
pub proof fn extracted_objects_are_complete(raw: Seq<char>)
    ensures
        forall|n: int|
            0 <= n < top_level_objects(raw).len() ==> is_object(
                #[trigger] top_level_objects(raw)[n],
            ),
{
    lemma_objects_complete(raw, 0, between(), 0);
}

/// Between two objects it does not matter where the last one started.
proof fn lemma_start_is_free(raw: Seq<char>, i: int, b: Braces, s1: int, s2: int)
    requires
        b.depth == 0,
    ensures
        objects_from(raw, i, b, s1) == objects_from(raw, i, b, s2),
    decreases raw.len() - i,
{
    if i < 0 || i >= raw.len() || (b == between() && raw[i] == ']') {
    } else {
        let next = brace_step(b, raw[i]);
        if next.depth == 0 {
            lemma_start_is_free(raw, i + 1, next, s1, s2);
        }
    }
}

/// A reader that has read `k` characters of the complete object `o` finds `o`
/// next.
proof fn lemma_reads_rest_of_object(raw: Seq<char>, i: int, o: Seq<char>, k: int)
    requires
        text::occurs_at(raw, o, i),
        is_object(o),
        0 < k < o.len(),
    ensures
        objects_from(raw, i + k, braces(o.take(k)), i) == seq![o] + objects_from(
            raw,
            i + o.len(),
            between(),
            i,
        ),
    decreases o.len() - k,
{
    let b = braces(o.take(k));
    assert(raw.subrange(i, i + o.len())[k] == raw[i + k]);
    let c = raw[i + k];
    assert(o.take(k + 1).drop_last() =~= o.take(k));
    assert(o.take(k + 1).last() == c);
    assert(brace_step(b, c) == braces(o.take(k + 1)));
    if k + 1 == o.len() {
        assert(o.take(k + 1) =~= o);
        assert(brace_step(b, c) == between());
        assert(raw.subrange(i, i + k + 1) =~= o);
    } else {
        lemma_reads_rest_of_object(raw, i, o, k + 1);
    }
}

/// A reader that stands before a complete object finds it next.
proof fn lemma_reads_object(raw: Seq<char>, i: int, o: Seq<char>, start: int)
    requires
        text::occurs_at(raw, o, i),
        is_object(o),
    ensures
        objects_from(raw, i, between(), start) == seq![o] + objects_from(
            raw,
            i + o.len(),
            between(),
            i,
        ),
{
    assert(raw.subrange(i, i + o.len())[0] == raw[i]);
    let one = o.take(1);
    assert(one.drop_last().len() == 0);
    assert(braces(one.drop_last()) == between());
    assert(one.last() == '{');
    assert(braces(one) == brace_step(between(), '{'));
    if o.len() == 1 {
        assert(o =~= one);
    }
    lemma_reads_rest_of_object(raw, i, o, 1);
}

/// A reader finds in the tail of a text what it finds in the tail alone.
proof fn lemma_reads_tail(before: Seq<char>, s: Seq<char>, i: int, b: Braces, start: int)
    requires
        0 <= i,
        0 <= start <= i,
    ensures
        objects_from(before + s, before.len() + i, b, before.len() + start) == objects_from(
            s,
            i,
            b,
            start,
        ),
    decreases s.len() - i,
{
    let raw = before + s;
    if i >= s.len() || (b == between() && s[i] == ']') {
    } else {
        let next = brace_step(b, s[i]);
        let begin = if b.depth == 0 && next.depth > 0 {
            i
        } else {
            start
        };
        assert(raw[before.len() + i] == s[i]);
        assert(raw.subrange(before.len() + begin, before.len() + i + 1) =~= s.subrange(
            begin,
            i + 1,
        ));
        lemma_reads_tail(before, s, i + 1, next, begin);
    }
}

/// A reader that stands before a list of complete objects finds them all, and
/// then what follows the list.
proof fn lemma_reads_list(
    before: Seq<char>,
    objects: Seq<Seq<char>>,
    after: Seq<char>,
    start: int,
)
    requires
        forall|n: int| 0 <= n < objects.len() ==> is_object(#[trigger] objects[n]),
    ensures
        objects_from(
            before + text::join(objects, seq![',']) + after,
            before.len() as int,
            between(),
            start,
        ) == objects + top_level_objects(after),
    decreases objects.len(),
{
    let list = text::join(objects, seq![',']);
    let raw = before + list + after;
    let i = before.len() as int;
    if objects.len() == 0 {
        lemma_start_is_free(raw, i, between(), start, i);
        assert(raw =~= before + after);
        lemma_reads_tail(before, after, 0, between(), 0);
        assert(objects + top_level_objects(after) =~= top_level_objects(after));
    } else {
        let o = objects[0];
        assert(is_object(o));
        let j = i + o.len();
        if objects.len() == 1 {
            assert(raw.subrange(i, i + o.len()) =~= o);
            lemma_reads_object(raw, i, o, start);
            lemma_start_is_free(raw, j, between(), i, j);
            assert(raw =~= (before + o) + after);
            lemma_reads_tail(before + o, after, 0, between(), 0);
            assert(objects =~= seq![o]);
        } else {
            let rest = objects.drop_first();
            text::lemma_join_front(objects, seq![',']);
            assert(raw.subrange(i, i + o.len()) =~= o);
            lemma_reads_object(raw, i, o, start);
            assert(raw[j] == ',');
            assert(objects_from(raw, j, between(), i) == objects_from(raw, j + 1, between(), i));
            let before2 = before + o + seq![','];
            assert(before2 + text::join(rest, seq![',']) + after =~= raw);
            lemma_reads_list(before2, rest, after, i);
            assert(objects + top_level_objects(after) =~= seq![o] + (rest + top_level_objects(
                after,
            )));
        }
    }
}

/// Extraction gives back the objects of a list, all of them and in their order,
/// and goes on with what follows the list.
pub proof fn extraction_gives_back_a_list(objects: Seq<Seq<char>>, after: Seq<char>)
    requires
        forall|n: int| 0 <= n < objects.len() ==> is_object(#[trigger] objects[n]),
    ensures
        top_level_objects(text::join(objects, seq![',']) + after) == objects + top_level_objects(
            after,
        ),
{
    let raw = text::join(objects, seq![',']) + after;
    lemma_reads_list(Seq::empty(), objects, after, 0);
    assert(Seq::<char>::empty() + text::join(objects, seq![',']) + after =~= raw);
}

/// What stands between the mark `open` at the start of `s` and the three
/// backquotes at its end, where both are there.
pub open spec fn fenced(s: Seq<char>, open: Seq<char>) -> Option<Seq<char>> {
    let inner = s.skip(open.len() as int);
    if text::starts_with(s, open) && text::ends_with(inner, "```"@) {
        Some(inner.take(inner.len() - 3))
    } else {
        None
    }
}

/// `raw` without the white space and the code fence around it.
pub open spec fn normalized(raw: Seq<char>) -> Seq<char> {
    let s = text::trim(raw);
    match fenced(s, "```json"@) {
        Some(inner) => text::trim(inner),
        None => match fenced(s, "```"@) {
            Some(inner) => text::trim(inner),
            None => s,
        },
    }
}

/// The inside of the fence with the opening mark `open` around the characters
/// of `c` from `from` to before `to`.
fn fence_bounds(c: &Vec<char>, open: &str, from: usize, to: usize) -> (r: Option<(usize, usize)>)
    requires
        from <= to <= c@.len(),
        open@.len() <= 7,
    ensures
        r matches Some(b) ==> from <= b.0 <= b.1 <= to && fenced(
            c@.subrange(from as int, to as int),
            open@,
        ) == Some(c@.subrange(b.0 as int, b.1 as int)),
        r is None ==> fenced(c@.subrange(from as int, to as int), open@) is None,
{
    let mark = text::chars_of(open);
    let tail = text::chars_of("```");
    let ghost s = c@.subrange(from as int, to as int);
    proof {
        reveal_strlit("```");
    }
    if to - from < mark.len() {
        return None;
    }
    let inner_from: usize = from + mark.len();
    proof {
        assert(s.take(open@.len() as int) =~= c@.subrange(from as int, inner_from as int));
        assert(s.skip(open@.len() as int) =~= c@.subrange(inner_from as int, to as int));
    }
    if !text::stands_at(c, &mark, from) {
        return None;
    }
    if to - inner_from < 3 {
        return None;
    }
    let ghost inner = s.skip(open@.len() as int);
    proof {
        assert(inner.skip(inner.len() - 3) =~= c@.subrange(to - 3, to as int));
        assert(inner.take(inner.len() - 3) =~= c@.subrange(inner_from as int, to - 3));
    }
    if text::stands_at(c, &tail, to - 3) {
        Some((inner_from, to - 3))
    } else {
        None
    }
}

/// `raw` without the white space and the code fence around it.
pub fn normalize_model_json(raw: &str) -> (r: String)
    ensures
        r@ == normalized(raw@),
{
    let c = text::chars_of(raw);
    let (from, to) = text::trim_bounds(&c, 0, c.len());
    proof {
        assert(c@.subrange(0, c@.len() as int) =~= raw@);
        reveal_strlit("```json");
        reveal_strlit("```");
    }
    let mut inner = fence_bounds(&c, "```json", from, to);
    if inner.is_none() {
        inner = fence_bounds(&c, "```", from, to);
    }
    match inner {
        Some((a, b)) => {
            let (a, b) = text::trim_bounds(&c, a, b);
            text::string_from(&c, a, b)
        },
        None => text::string_from(&c, from, to),
    }
}

/// Why no list of questions could be salvaged from a reply.
#[derive(Debug, Clone, Copy, PartialEq, Eq, Structural)]
pub enum SalvageError {
    /// The reply does not hold the key `questions`.
    MissingPayload,
    /// No array follows the key.
    MissingArray,
    /// The array holds no complete object.
    NoCompleteObject,
}

/// The payload with the given objects as its questions.
pub open spec fn payload_of(objects: Seq<Seq<char>>) -> Seq<char> {
    "{\"questions\":["@ + text::join(objects, ","@) + "]}"@
}

/// The payload that can be salvaged from the reply `raw`.
pub open spec fn salvaged(raw: Seq<char>) -> Result<Seq<char>, SalvageError> {
    let s = normalized(raw);
    match text::index_of(s, "\"questions\""@) {
        None => Err(SalvageError::MissingPayload),
        Some(key) => match text::index_from(s, "["@, key) {
            None => Err(SalvageError::MissingArray),
            Some(bracket) => {
                let objects = top_level_objects(s.skip(bracket + 1));
                if objects.len() == 0 {
                    Err(SalvageError::NoCompleteObject)
                } else {
                    Ok(payload_of(objects))
                }
            },
        },
    }
}

/// The payload made of the complete question objects of the reply `raw`.
pub fn salvage_questions_payload(raw: &str) -> (r: Result<String, SalvageError>)
    ensures
        r matches Ok(t) ==> salvaged(raw@) == Ok::<Seq<char>, SalvageError>(t@),
        r matches Err(e) ==> salvaged(raw@) == Err::<Seq<char>, SalvageError>(e),
{
    let s = normalize_model_json(raw);
    let c = text::chars_of(s.as_str());
    let key_text = text::chars_of("\"questions\"");
    let bracket_text = text::chars_of("[");
    proof {
        reveal_strlit("[");
        text::lemma_index_from(c@, "\"questions\""@, 0);
    }
    let n: usize = c.len();
    let key: usize = match text::find_from(&c, &key_text, 0) {
        Some(i) => i,
        None => {
            return Err(SalvageError::MissingPayload);
        },
    };
    proof {
        text::lemma_index_from(c@, "["@, key as int);
    }
    let bracket: usize = match text::find_from(&c, &bracket_text, key) {
        Some(i) => i,
        None => {
            return Err(SalvageError::MissingArray);
        },
    };
    let rest = text::string_from(&c, bracket + 1, n);
    assert(rest@ =~= s@.skip(bracket + 1));
    let objects = extract_complete_top_level_objects(rest.as_str());
    if objects.len() == 0 {
        assert(text::views(objects@).len() == 0);
        return Err(SalvageError::NoCompleteObject);
    }
    let mut rebuilt = String::new();
    rebuilt.append("{\"questions\":[");
    rebuilt.append(text::join_strings(&objects, ",").as_str());
    rebuilt.append("]}");
    assert(text::views(objects@).len() > 0);
    assert(rebuilt@ =~= payload_of(text::views(objects@)));
    Ok(rebuilt)
}

/// A complete object ends with a brace.
proof fn lemma_object_ends(o: Seq<char>)
    requires
        is_object(o),
    ensures
        o.len() > 0,
        o.last() == '}',
{
    let k = o.len() - 1;
    assert(o.drop_last() =~= o.take(k));
    if k == 0 {
        assert(braces(o.drop_last()) == between());
    } else {
        assert(braces(o.take(k)).depth > 0);
    }
}

/// From a payload that breaks off, or is followed by anything, all the complete
/// objects at its start are salvaged: `after` stands for what follows them, in
/// which no complete object stands.
pub proof fn salvage_recovers_complete_objects(objects: Seq<Seq<char>>, after: Seq<char>)
    requires
        objects.len() > 0,
        forall|n: int| 0 <= n < objects.len() ==> is_object(#[trigger] objects[n]),
        top_level_objects(after).len() == 0,
        after.len() > 0 ==> !text::is_white(after.last()),
    ensures
        salvaged("{\"questions\":["@ + text::join(objects, ","@) + after) == Ok::<
            Seq<char>,
            SalvageError,
        >(payload_of(objects)),
{
    reveal_strlit("{\"questions\":[");
    reveal_strlit(",");
    reveal_strlit("\"questions\"");
    reveal_strlit("[");
    reveal_strlit("```");
    reveal_strlit("```json");
    let list = text::join(objects, ","@);
    let s = "{\"questions\":["@ + list + after;
    assert(","@ =~= seq![',']);
    assert(s[0] == '{');
    if after.len() == 0 {
        lemma_object_ends(objects.last());
        assert(list.last() == '}');
        assert(s.last() == list.last());
    } else {
        assert(s.last() == after.last());
    }
    text::lemma_trim_fixed(s);
    assert(s.take(3)[0] == '{');
    assert(s.take(7)[0] == '{');
    assert(normalized(s) == s);
    let key = "\"questions\""@;
    assert(s.subrange(1, 12) =~= key);
    assert(s.subrange(0, 11)[0] == '{');
    text::lemma_index_from(s, key, 0);
    assert(text::occurs_at(s, key, 1));
    assert(!text::occurs_at(s, key, 0));
    assert(text::index_of(s, key) == Some(1int));
    text::lemma_index_from(s, "["@, 1);
    assert(s.subrange(13, 14) =~= "["@);
    assert(text::occurs_at(s, "["@, 13));
    assert forall|j: int| 1 <= j < 13 implies !text::occurs_at(s, "["@, j) by {
        assert(s.subrange(j, j + 1)[0] == s[j]);
        assert(s[j] == "{\"questions\":["@[j]);
    }
    assert(text::index_from(s, "["@, 1) == Some(13int));
    assert(s.skip(14) =~= text::join(objects, seq![',']) + after);
    extraction_gives_back_a_list(objects, after);
    assert(objects + top_level_objects(after) =~= objects);
}

/// Salvaging a complete payload gives it back unchanged.
pub proof fn salvage_keeps_complete_payload(objects: Seq<Seq<char>>)
    requires
        objects.len() > 0,
        forall|n: int| 0 <= n < objects.len() ==> is_object(#[trigger] objects[n]),
    ensures
        salvaged(payload_of(objects)) == Ok::<Seq<char>, SalvageError>(payload_of(objects)),
{
    reveal_strlit("]}");
    salvage_recovers_complete_objects(objects, "]}"@);
}

/// The four texts that are read as a payload, in the order in which they are
/// tried.
#[derive(Debug, Clone, Copy, PartialEq, Eq, Structural)]
pub enum JsonAttempt {
    /// The reply without its code fence.
    Direct,
    /// The reply from its first brace on, closed at its end.
    Repaired,
    /// The reply from its first brace to its last closing brace.
    Sliced,
    /// The payload made of the complete question objects.
    Salvaged,
}

/// Why there is no further text to read as a payload.
#[derive(Debug, Clone, Copy, PartialEq, Eq, Structural)]
pub enum PayloadError {
    /// Nothing could be salvaged.
    Salvage(SalvageError),
    /// What was salvaged could not be read.
    Unreadable,
}

/// The last position of `c` in `s`.
pub open spec fn last_position(s: Seq<char>, c: char) -> Option<int>
    decreases s.len(),
{
    if s.len() == 0 {
        None
    } else if s.last() == c {
        Some(s.len() - 1)
    } else {
        last_position(s.drop_last(), c)
    }
}

/// The last position is one of the text, and holds the character.
proof fn lemma_last_position(s: Seq<char>, c: char)
    ensures
        last_position(s, c) matches Some(i) ==> 0 <= i < s.len() && s[i] == c,
    decreases s.len(),
{
    if s.len() > 0 && s.last() != c {
        lemma_last_position(s.drop_last(), c);
    }
}

/// The last closing brace of the reply stands before its first brace, and not
/// directly before it.
pub open spec fn braces_reversed(raw: Seq<char>) -> bool {
    let s = normalized(raw);
    match (text::index_of(s, "{"@), last_position(s, '}')) {
        (Some(a), Some(b)) => b + 1 < a,
        _ => false,
    }
}

/// The salvaged payload as the text to try.
pub open spec fn salvage_attempt(raw: Seq<char>) -> Result<
    (JsonAttempt, Seq<char>),
    PayloadError,
> {
    match salvaged(raw) {
        Ok(t) => Ok((JsonAttempt::Salvaged, t)),
        Err(e) => Err(PayloadError::Salvage(e)),
    }
}

/// The text to try when `failed` was tried last and could not be read.
pub open spec fn attempt_after(raw: Seq<char>, failed: Option<JsonAttempt>) -> Result<
    (JsonAttempt, Seq<char>),
    PayloadError,
> {
    let s = normalized(raw);
    match failed {
        None => Ok((JsonAttempt::Direct, s)),
        Some(JsonAttempt::Direct) => match text::index_of(s, "{"@) {
            Some(a) => Ok((JsonAttempt::Repaired, repaired(s.skip(a)))),
            None => salvage_attempt(raw),
        },
        Some(JsonAttempt::Repaired) => match (text::index_of(s, "{"@), last_position(s, '}')) {
            (Some(a), Some(b)) => Ok((JsonAttempt::Sliced, s.subrange(a, b + 1))),
            _ => salvage_attempt(raw),
        },
        Some(JsonAttempt::Sliced) => salvage_attempt(raw),
        Some(JsonAttempt::Salvaged) => Err(PayloadError::Unreadable),
    }
}

/// The text to salvage from `raw`, as the next one to try.
fn salvage_next(raw: &str) -> (r: Result<(JsonAttempt, String), PayloadError>)
    ensures
        r matches Ok((a, t)) ==> salvage_attempt(raw@) == Ok::<
            (JsonAttempt, Seq<char>),
            PayloadError,
        >((a, t@)),
        r matches Err(e) ==> salvage_attempt(raw@) == Err::<(JsonAttempt, Seq<char>), PayloadError>(
            e,
        ),
{
    match salvage_questions_payload(raw) {
        Ok(t) => Ok((JsonAttempt::Salvaged, t)),
        Err(e) => Err(PayloadError::Salvage(e)),
    }
}

/// The last position of `ch` in `c`.
fn find_last(c: &Vec<char>, ch: char) -> (r: Option<usize>)
    ensures
        r matches Some(i) ==> last_position(c@, ch) == Some(i as int),
        r is None ==> last_position(c@, ch) is None,
{
    let mut i: usize = c.len();
    assert(c@.take(i as int) =~= c@);
    while i > 0
        invariant
            i <= c@.len(),
            last_position(c@, ch) == last_position(c@.take(i as int), ch),
        decreases i,
    {
        assert(c@.take(i as int).drop_last() =~= c@.take(i - 1));
        if c[i - 1] == ch {
            return Some(i - 1);
        }
        i -= 1;
    }
    None
}

/// Whether the last closing brace of the reply stands before its first brace,
/// and not directly before it.
pub fn has_reversed_braces(raw: &str) -> (r: bool)
    ensures
        r == braces_reversed(raw@),
{
    let s = normalize_model_json(raw);
    let c = text::chars_of(s.as_str());
    let open = text::chars_of("{");
    match (text::find_from(&c, &open, 0), find_last(&c, '}')) {
        (Some(a), Some(b)) => a > 0 && b < a - 1,
        _ => false,
    }
}

/// The next text of the reply `raw` to read as a payload, when `failed` was
/// tried last and could not be read: the reply itself, then the reply closed at
/// its end, then what stands between its outermost braces, then what can be
/// salvaged of it.
pub fn parse_json(raw: &str, failed: Option<JsonAttempt>) -> (r: Result<
    (JsonAttempt, String),
    PayloadError,
>)
    requires
        failed == Some(JsonAttempt::Repaired) ==> !braces_reversed(raw@),
    ensures
        r matches Ok((a, t)) ==> attempt_after(raw@, failed) == Ok::<
            (JsonAttempt, Seq<char>),
            PayloadError,
        >((a, t@)),
        r matches Err(e) ==> attempt_after(raw@, failed) == Err::<
            (JsonAttempt, Seq<char>),
            PayloadError,
        >(e),
{
    let s = normalize_model_json(raw);
    match failed {
        None => Ok((JsonAttempt::Direct, s)),
        Some(JsonAttempt::Direct) => {
            let c = text::chars_of(s.as_str());
            let open = text::chars_of("{");
            proof {
                text::lemma_index_from(c@, "{"@, 0);
            }
            match text::find_from(&c, &open, 0) {
                Some(a) => {
                    let tail = text::string_from(&c, a, c.len());
                    assert(tail@ =~= s@.skip(a as int));
                    Ok((JsonAttempt::Repaired, repair_truncated_json(tail.as_str())))
                },
                None => salvage_next(raw),
            }
        },
        Some(JsonAttempt::Repaired) => {
            let c = text::chars_of(s.as_str());
            let open = text::chars_of("{");
            proof {
                text::lemma_index_from(c@, "{"@, 0);
                lemma_last_position(c@, '}');
            }
            match (text::find_from(&c, &open, 0), find_last(&c, '}')) {
                (Some(a), Some(b)) => Ok((JsonAttempt::Sliced, text::string_from(&c, a, b + 1))),
                _ => salvage_next(raw),
            }
        },
        Some(JsonAttempt::Sliced) => salvage_next(raw),
        Some(JsonAttempt::Salvaged) => Err(PayloadError::Unreadable),
    }
}

/// The place of an attempt in the order of attempts; 0 is before the first one.
pub open spec fn attempt_rank(a: Option<JsonAttempt>) -> int {
    match a {
        None => 0,
        Some(JsonAttempt::Direct) => 1,
        Some(JsonAttempt::Repaired) => 2,
        Some(JsonAttempt::Sliced) => 3,
        Some(JsonAttempt::Salvaged) => 4,
    }
}

/// No text is tried twice: each attempt comes later in the order than the one
/// that failed, so that at most four are made. And no reply is given up before
/// salvaging has been tried: an end comes only after the salvaged payload, or
/// because nothing can be salvaged.
pub proof fn attempts_end_with_salvage(raw: Seq<char>, failed: Option<JsonAttempt>)
    ensures
        attempt_after(raw, failed) matches Ok((a, t)) ==> attempt_rank(failed) < attempt_rank(
            Some(a),
        ) <= 4,
        attempt_after(raw, failed) is Err ==> failed == Some(JsonAttempt::Salvaged) || salvaged(
            raw,
        ) is Err,
{
}

/// A reply that is closed JSON text from its first character on is tried as it
/// is, and closing it does not change it.
pub proof fn closed_reply_is_tried_unchanged(raw: Seq<char>)
    requires
        text::is_trimmed(raw),
        raw.len() > 0,
        raw[0] == '{',
        nesting(raw) == outside(),
    ensures
        attempt_after(raw, None) == Ok::<(JsonAttempt, Seq<char>), PayloadError>(
            (JsonAttempt::Direct, raw),
        ),
        attempt_after(raw, Some(JsonAttempt::Direct)) == Ok::<
            (JsonAttempt, Seq<char>),
            PayloadError,
        >((JsonAttempt::Repaired, raw)),
{
    reveal_strlit("{");
    reveal_strlit("```");
    reveal_strlit("```json");
    text::lemma_trim_fixed(raw);
    assert(raw.len() >= 3 ==> raw.take(3)[0] == '{');
    assert(raw.len() >= 7 ==> raw.take(7)[0] == '{');
    assert(normalized(raw) == raw);
    assert(raw.subrange(0, 1) =~= "{"@);
    assert(text::occurs_at(raw, "{"@, 0));
    assert(raw.skip(0) =~= raw);
    repair_keeps_closed_text(raw);
}

/// One unit of what stands in a JSON string: a character that stands for itself, or a
/// backslash with the one character that it escapes.
pub enum StringUnit {
    Plain(char),
    Escaped(char),
}

/// A part of a JSON text that is complete in itself.
pub enum Piece {
    /// A character outside of strings, no quote and no bracket.
    Sign(char),
    /// A string.
    Quoted(Seq<StringUnit>),
    /// An object, with the pieces between its braces.
    Object(Seq<Piece>),
    /// An array, with the pieces between its brackets.
    Array(Seq<Piece>),
}

/// A quote, a brace or a bracket.
pub open spec fn is_mark(c: char) -> bool {
    c == '"' || c == '{' || c == '}' || c == '[' || c == ']'
}

/// What stands for itself in a string is neither a quote nor a backslash.
pub open spec fn units_fit(units: Seq<StringUnit>) -> bool {
    forall|i: int|
        0 <= i < units.len() ==> ((#[trigger] units[i]) matches StringUnit::Plain(c) ==> c != '"' && c
            != '\\')
}

/// The characters of a unit.
pub open spec fn unit_text(u: StringUnit) -> Seq<char> {
    match u {
        StringUnit::Plain(c) => seq![c],
        StringUnit::Escaped(c) => seq!['\\', c],
    }
}

/// The characters of some units.
pub open spec fn units_text(units: Seq<StringUnit>) -> Seq<char>
    decreases units.len(),
{
    if units.len() == 0 {
        Seq::empty()
    } else {
        units_text(units.drop_last()) + unit_text(units.last())
    }
}

/// The pieces are those of a JSON text.
pub open spec fn pieces_fit(pieces: Seq<Piece>) -> bool
    decreases pieces,
{
    pieces.len() == 0 || (pieces_fit(pieces.drop_last()) && piece_fits(pieces.last()))
}

/// The piece is one of a JSON text.
pub open spec fn piece_fits(piece: Piece) -> bool
    decreases piece,
{
    match piece {
        Piece::Sign(c) => !is_mark(c),
        Piece::Quoted(units) => units_fit(units),
        Piece::Object(pieces) => pieces_fit(pieces),
        Piece::Array(pieces) => pieces_fit(pieces),
    }
}

/// The characters of some pieces.
pub open spec fn pieces_text(pieces: Seq<Piece>) -> Seq<char>
    decreases pieces,
{
    if pieces.len() == 0 {
        Seq::empty()
    } else {
        pieces_text(pieces.drop_last()) + piece_text(pieces.last())
    }
}

/// The characters of a piece.
pub open spec fn piece_text(piece: Piece) -> Seq<char>
    decreases piece,
{
    match piece {
        Piece::Sign(c) => seq![c],
        Piece::Quoted(units) => seq!['"'] + units_text(units) + seq!['"'],
        Piece::Object(pieces) => seq!['{'] + pieces_text(pieces) + seq!['}'],
        Piece::Array(pieces) => seq!['['] + pieces_text(pieces) + seq![']'],
    }
}

/// What is open behind `s` when `b` is open before it.
spec fn brace_run(b: Braces, s: Seq<char>) -> Braces
    decreases s.len(),
{
    if s.len() == 0 {
        b
    } else {
        brace_step(brace_run(b, s.drop_last()), s.last())
    }
}

/// No fewer than `d` braces are open anywhere in `s` when `b` is open before it.
spec fn stays(b: Braces, s: Seq<char>, d: nat) -> bool {
    forall|k: int| 0 <= k <= s.len() ==> brace_run(b, #[trigger] s.take(k)).depth >= d
}

/// Reading a text is reading on from its start.
proof fn lemma_brace_run(s: Seq<char>)
    ensures
        braces(s) == brace_run(between(), s),
    decreases s.len(),
{
    if s.len() > 0 {
        lemma_brace_run(s.drop_last());
    }
}

/// Two texts are read one after the other.
proof fn lemma_run_concat(b: Braces, s: Seq<char>, t: Seq<char>)
    ensures
        brace_run(b, s + t) == brace_run(brace_run(b, s), t),
    decreases t.len(),
{
    if t.len() == 0 {
        assert(s + t =~= s);
    } else {
        assert((s + t).drop_last() =~= s + t.drop_last());
        lemma_run_concat(b, s, t.drop_last());
    }
}

/// What holds in two texts holds in the one made of them.
proof fn lemma_stays_concat(b: Braces, s: Seq<char>, t: Seq<char>, d: nat)
    requires
        stays(b, s, d),
        stays(brace_run(b, s), t, d),
    ensures
        stays(b, s + t, d),
        brace_run(b, s + t) == brace_run(brace_run(b, s), t),
{
    lemma_run_concat(b, s, t);
    assert forall|k: int| 0 <= k <= (s + t).len() implies brace_run(
        b,
        #[trigger] (s + t).take(k),
    ).depth >= d by {
        if k <= s.len() {
            assert((s + t).take(k) =~= s.take(k));
        } else {
            assert((s + t).take(k) =~= s + t.take(k - s.len()));
            lemma_run_concat(b, s, t.take(k - s.len()));
        }
    }
}

/// One character.
proof fn lemma_run_one(b: Braces, c: char, d: nat)
    requires
        b.depth >= d,
        brace_step(b, c).depth >= d,
    ensures
        brace_run(b, seq![c]) == brace_step(b, c),
        stays(b, seq![c], d),
{
    let one = seq![c];
    assert(one.drop_last() =~= Seq::<char>::empty());
    assert(brace_run(b, one.drop_last()) == b);
    assert forall|k: int| 0 <= k <= one.len() implies brace_run(b, #[trigger] one.take(k)).depth
        >= d by {
        if k == 0 {
            assert(one.take(k) =~= Seq::<char>::empty());
        } else {
            assert(one.take(k) =~= one);
        }
    }
}

/// Nothing was read yet.
proof fn lemma_run_none(b: Braces, d: nat)
    requires
        b.depth >= d,
    ensures
        brace_run(b, Seq::empty()) == b,
        stays(b, Seq::empty(), d),
{
    let none = Seq::<char>::empty();
    assert forall|k: int| 0 <= k <= none.len() implies brace_run(b, #[trigger] none.take(k)).depth
        >= d by {
        assert(none.take(k) =~= none);
    }
}

/// The inside of a string opens and closes nothing.
proof fn lemma_units_run(b: Braces, units: Seq<StringUnit>, d: nat)
    requires
        units_fit(units),
        b.in_string,
        !b.escaped,
        b.depth >= d,
    ensures
        brace_run(b, units_text(units)) == b,
        stays(b, units_text(units), d),
    decreases units.len(),
{
    if units.len() == 0 {
        lemma_run_none(b, d);
    } else {
        let body = units.drop_last();
        assert forall|i: int| 0 <= i < body.len() implies ((#[trigger] body[i]) matches StringUnit::Plain(
            c,
        ) ==> c != '"' && c != '\\') by {
            assert(body[i] == units[i]);
        }
        lemma_units_run(b, body, d);
        assert(units.last() == units[units.len() - 1]);
        match units.last() {
            StringUnit::Plain(c) => {
                lemma_run_one(b, c, d);
            },
            StringUnit::Escaped(c) => {
                let half = brace_step(b, '\\');
                lemma_run_one(b, '\\', d);
                lemma_run_one(half, c, d);
                lemma_stays_concat(b, seq!['\\'], seq![c], d);
                assert(seq!['\\'] + seq![c] =~= seq!['\\', c]);
            },
        }
        lemma_stays_concat(b, units_text(body), unit_text(units.last()), d);
    }
}

/// A text between two marks.
proof fn lemma_run_between(b: Braces, open: char, inner: Seq<char>, close: char, d: nat)
    requires
        b.depth >= d,
        stays(brace_step(b, open), inner, d),
        brace_run(brace_step(b, open), inner) == brace_step(b, open),
        brace_step(brace_step(b, open), close).depth >= d,
    ensures
        brace_run(b, seq![open] + inner + seq![close]) == brace_step(brace_step(b, open), close),
        stays(b, seq![open] + inner + seq![close], d),
{
    let mid = brace_step(b, open);
    assert(inner.take(0) =~= Seq::<char>::empty());
    assert(brace_run(mid, inner.take(0)).depth >= d);
    lemma_run_one(b, open, d);
    lemma_stays_concat(b, seq![open], inner, d);
    lemma_run_one(mid, close, d);
    lemma_stays_concat(b, seq![open] + inner, seq![close], d);
}

/// Complete pieces leave open what was open before them, and close nothing of it.
proof fn lemma_pieces_run(b: Braces, pieces: Seq<Piece>)
    requires
        pieces_fit(pieces),
        !b.in_string,
        !b.escaped,
    ensures
        brace_run(b, pieces_text(pieces)) == b,
        stays(b, pieces_text(pieces), b.depth),
    decreases pieces,
{
    if pieces.len() == 0 {
        lemma_run_none(b, b.depth);
    } else {
        lemma_pieces_run(b, pieces.drop_last());
        lemma_piece_run(b, pieces.last());
        lemma_stays_concat(b, pieces_text(pieces.drop_last()), piece_text(pieces.last()), b.depth);
    }
}

/// A complete piece leaves open what was open before it, and closes nothing of it.
proof fn lemma_piece_run(b: Braces, piece: Piece)
    requires
        piece_fits(piece),
        !b.in_string,
        !b.escaped,
    ensures
        brace_run(b, piece_text(piece)) == b,
        stays(b, piece_text(piece), b.depth),
    decreases piece,
{
    match piece {
        Piece::Sign(c) => {
            lemma_run_one(b, c, b.depth);
        },
        Piece::Quoted(units) => {
            lemma_units_run(brace_step(b, '"'), units, b.depth);
            lemma_run_between(b, '"', units_text(units), '"', b.depth);
        },
        Piece::Object(pieces) => {
            let mid = brace_step(b, '{');
            lemma_pieces_run(mid, pieces);
            assert forall|k: int| 0 <= k <= pieces_text(pieces).len() implies brace_run(
                mid,
                #[trigger] pieces_text(pieces).take(k),
            ).depth >= b.depth by {
                assert(brace_run(mid, pieces_text(pieces).take(k)).depth >= mid.depth);
            }
            lemma_run_between(b, '{', pieces_text(pieces), '}', b.depth);
        },
        Piece::Array(pieces) => {
            lemma_pieces_run(brace_step(b, '['), pieces);
            lemma_run_between(b, '[', pieces_text(pieces), ']', b.depth);
        },
    }
}

/// A JSON object is one complete object, whatever stands in its strings: an escape covers
/// the one character behind the backslash, and a brace in a string opens and closes nothing.
pub proof fn json_objects_are_complete(pieces: Seq<Piece>)
    requires
        pieces_fit(pieces),
    ensures
        is_object(seq!['{'] + pieces_text(pieces) + seq!['}']),
{
    let inner = pieces_text(pieces);
    let o = seq!['{'] + inner + seq!['}'];
    let mid = brace_step(between(), '{');
    lemma_pieces_run(mid, pieces);
    lemma_run_one(between(), '{', 0);
    lemma_run_concat(between(), seq!['{'], inner);
    lemma_run_concat(between(), seq!['{'] + inner, seq!['}']);
    lemma_run_one(mid, '}', 0);
    lemma_brace_run(o);
    assert forall|k: int| 0 < k < o.len() implies #[trigger] braces(o.take(k)).depth > 0 by {
        assert(o.take(k) =~= seq!['{'] + inner.take(k - 1));
        lemma_run_concat(between(), seq!['{'], inner.take(k - 1));
        lemma_brace_run(o.take(k));
        assert(brace_run(mid, inner.take(k - 1)).depth >= mid.depth);
    }
}

/// What stands before an object of a list: signs, none of which starts a string or an object,
/// or ends the list.
pub open spec fn gap_fits(gap: Seq<char>) -> bool {
    forall|i: int|
        0 <= i < gap.len() ==> (#[trigger] gap[i]) != '"' && gap[i] != '{' && gap[i] != ']'
}

/// An object of a list, and what stands before it.
pub struct Listed {
    pub gap: Seq<char>,
    pub pieces: Seq<Piece>,
}

/// The characters of a listed object, without what stands before it.
pub open spec fn object_text(pieces: Seq<Piece>) -> Seq<char> {
    seq!['{'] + pieces_text(pieces) + seq!['}']
}

/// The characters of a list of objects.
pub open spec fn list_text(list: Seq<Listed>) -> Seq<char>
    decreases list.len(),
{
    if list.len() == 0 {
        Seq::empty()
    } else {
        list_text(list.drop_last()) + list.last().gap + object_text(list.last().pieces)
    }
}

/// The list is one of JSON objects.
pub open spec fn list_fits(list: Seq<Listed>) -> bool {
    forall|i: int|
        0 <= i < list.len() ==> gap_fits((#[trigger] list[i]).gap) && pieces_fit(list[i].pieces)
}

/// A brace or a bracket that is open, and the complete pieces behind it.
pub struct Opened {
    pub bracket: char,
    pub pieces: Seq<Piece>,
}

/// The characters from the first open bracket on.
pub open spec fn opened_text(opens: Seq<Opened>) -> Seq<char>
    decreases opens.len(),
{
    if opens.len() == 0 {
        Seq::empty()
    } else {
        opened_text(opens.drop_last()) + seq![opens.last().bracket] + pieces_text(
            opens.last().pieces,
        )
    }
}

/// What is open are objects and arrays of a JSON text.
pub open spec fn opens_fit(opens: Seq<Opened>) -> bool {
    forall|i: int|
        0 <= i < opens.len() ==> ((#[trigger] opens[i]).bracket == '{' || opens[i].bracket == '[')
            && pieces_fit(opens[i].pieces)
}

/// A string that breaks off, maybe in the middle of an escape.
pub struct CutString {
    pub units: Seq<StringUnit>,
    pub in_escape: bool,
}

/// The characters of a string that breaks off.
pub open spec fn cut_text(cut: Option<CutString>) -> Seq<char> {
    match cut {
        None => Seq::empty(),
        Some(c) => seq!['"'] + units_text(c.units) + (if c.in_escape {
            seq!['\\']
        } else {
            Seq::empty()
        }),
    }
}

/// What follows the complete objects of a list.
pub enum Rest {
    /// The list breaks off: in an object, or before one.
    Broken { gap: Seq<char>, opens: Seq<Opened>, cut: Option<CutString> },
    /// The list ends, and anything follows it.
    Ended { gap: Seq<char>, more: Seq<char> },
}

/// What follows is a rest of a list of objects.
pub open spec fn rest_fits(rest: Rest) -> bool {
    match rest {
        Rest::Broken { gap, opens, cut } => {
            &&& gap_fits(gap)
            &&& opens_fit(opens)
            &&& opens.len() > 0 ==> opens[0].bracket == '{'
            &&& cut matches Some(c) ==> opens.len() > 0 && units_fit(c.units)
        },
        Rest::Ended { gap, more } => gap_fits(gap),
    }
}

/// The characters of what follows a list.
pub open spec fn rest_text(rest: Rest) -> Seq<char> {
    match rest {
        Rest::Broken { gap, opens, cut } => gap + opened_text(opens) + cut_text(cut),
        Rest::Ended { gap, more } => gap + seq![']'] + more,
    }
}

/// A reader passes over what stands before an object.
proof fn lemma_reads_gap(raw: Seq<char>, i: int, gap: Seq<char>, start: int)
    requires
        text::occurs_at(raw, gap, i),
        gap_fits(gap),
    ensures
        objects_from(raw, i, between(), start) == objects_from(
            raw,
            i + gap.len(),
            between(),
            start,
        ),
    decreases gap.len(),
{
    if gap.len() > 0 {
        let tail = gap.drop_first();
        assert(raw.subrange(i, i + gap.len())[0] == raw[i]);
        assert(raw[i] == gap[0]);
        assert(brace_step(between(), raw[i]) == between());
        assert(raw.subrange(i + 1, i + 1 + tail.len()) =~= tail) by {
            assert forall|k: int| 0 <= k < tail.len() implies raw[i + 1 + k] == tail[k] by {
                assert(raw.subrange(i, i + gap.len())[k + 1] == gap[k + 1]);
            }
        }
        assert forall|k: int| 0 <= k < tail.len() implies (#[trigger] tail[k]) != '"' && tail[k]
            != '{' && tail[k] != ']' by {
            assert(tail[k] == gap[k + 1]);
        }
        lemma_reads_gap(raw, i + 1, tail, start);
    }
}

/// A reader that stands in an object which is not closed finds nothing.
proof fn lemma_reads_unclosed(raw: Seq<char>, i: int, b: Braces, start: int)
    requires
        0 <= i <= raw.len(),
        b.depth > 0,
        stays(b, raw.skip(i), 1),
    ensures
        objects_from(raw, i, b, start) == Seq::<Seq<char>>::empty(),
    decreases raw.len() - i,
{
    if i < raw.len() {
        let s = raw.skip(i);
        let next = brace_step(b, raw[i]);
        let one = s.take(1);
        assert(one =~= seq![raw[i]]);
        lemma_run_one(b, raw[i], 0);
        assert(next.depth >= 1);
        let t = raw.skip(i + 1);
        assert forall|k: int| 0 <= k <= t.len() implies brace_run(next, #[trigger] t.take(k)).depth
            >= 1 by {
            assert(s.take(k + 1) =~= one + t.take(k));
            lemma_run_concat(b, one, t.take(k));
        }
        lemma_reads_unclosed(raw, i + 1, next, start);
    }
}

/// What is open stays open behind it.
proof fn lemma_opens_run(b: Braces, opens: Seq<Opened>)
    requires
        opens_fit(opens),
        !b.in_string,
        !b.escaped,
    ensures
        stays(b, opened_text(opens), b.depth),
        !brace_run(b, opened_text(opens)).in_string,
        !brace_run(b, opened_text(opens)).escaped,
        brace_run(b, opened_text(opens)).depth >= b.depth,
    decreases opens.len(),
{
    if opens.len() == 0 {
        lemma_run_none(b, b.depth);
    } else {
        let body = opens.drop_last();
        let last = opens.last();
        assert(last == opens[opens.len() - 1]);
        assert forall|i: int| 0 <= i < body.len() implies ((#[trigger] body[i]).bracket == '{'
            || body[i].bracket == '[') && pieces_fit(body[i].pieces) by {
            assert(body[i] == opens[i]);
        }
        lemma_opens_run(b, body);
        let c = brace_run(b, opened_text(body));
        let e = brace_step(c, last.bracket);
        lemma_run_one(c, last.bracket, b.depth);
        lemma_stays_concat(b, opened_text(body), seq![last.bracket], b.depth);
        lemma_pieces_run(e, last.pieces);
        assert forall|k: int| 0 <= k <= pieces_text(last.pieces).len() implies brace_run(
            e,
            #[trigger] pieces_text(last.pieces).take(k),
        ).depth >= b.depth by {
            assert(brace_run(e, pieces_text(last.pieces).take(k)).depth >= e.depth);
        }
        lemma_stays_concat(
            b,
            opened_text(body) + seq![last.bracket],
            pieces_text(last.pieces),
            b.depth,
        );
    }
}

/// A string that breaks off closes nothing.
proof fn lemma_cut_run(b: Braces, cut: Option<CutString>)
    requires
        cut matches Some(c) ==> units_fit(c.units),
        !b.in_string,
        !b.escaped,
    ensures
        stays(b, cut_text(cut), b.depth),
{
    match cut {
        None => {
            lemma_run_none(b, b.depth);
        },
        Some(c) => {
            let mid = brace_step(b, '"');
            let end = if c.in_escape {
                seq!['\\']
            } else {
                Seq::empty()
            };
            lemma_run_one(b, '"', b.depth);
            lemma_units_run(mid, c.units, b.depth);
            lemma_stays_concat(b, seq!['"'], units_text(c.units), b.depth);
            if c.in_escape {
                lemma_run_one(mid, '\\', b.depth);
            } else {
                lemma_run_none(mid, b.depth);
            }
            lemma_stays_concat(b, seq!['"'] + units_text(c.units), end, b.depth);
        },
    }
}

/// What stands behind the first bracket of what is open.
proof fn lemma_opened_front(opens: Seq<Opened>)
    requires
        opens.len() > 0,
    ensures
        opened_text(opens) == seq![opens[0].bracket] + pieces_text(opens[0].pieces) + opened_text(
            opens.drop_first(),
        ),
    decreases opens.len(),
{
    let body = opens.drop_last();
    if body.len() == 0 {
        assert(opened_text(body) =~= Seq::<char>::empty());
        assert(opened_text(opens.drop_first()) =~= Seq::<char>::empty());
        assert(opens.last() == opens[0]);
        assert(opened_text(opens) =~= seq![opens[0].bracket] + pieces_text(opens[0].pieces)
            + opened_text(opens.drop_first()));
    } else {
        lemma_opened_front(body);
        let tail = opens.drop_first();
        assert(tail.drop_last() =~= body.drop_first());
        assert(tail.last() == opens.last());
        assert(opened_text(opens) =~= seq![opens[0].bracket] + pieces_text(opens[0].pieces)
            + opened_text(tail));
    }
}

/// No complete object stands in what follows a list.
proof fn lemma_rest_has_none(rest: Rest)
    requires
        rest_fits(rest),
    ensures
        top_level_objects(rest_text(rest)) == Seq::<Seq<char>>::empty(),
{
    let raw = rest_text(rest);
    match rest {
        Rest::Broken { gap, opens, cut } => {
            assert(raw.subrange(0, gap.len() as int) =~= gap);
            lemma_reads_gap(raw, 0, gap, 0);
            let n = gap.len() as int;
            if opens.len() > 0 {
                let first = opens[0];
                let tail = opens.drop_first();
                let b = brace_step(between(), '{');
                lemma_opened_front(opens);
                let inner = pieces_text(first.pieces);
                let s = inner + opened_text(tail) + cut_text(cut);
                assert(raw =~= gap + seq!['{'] + s);
                assert(raw[n] == '{');
                assert(raw.skip(n + 1) =~= s);
                assert forall|i: int| 0 <= i < tail.len() implies ((#[trigger] tail[i]).bracket
                    == '{' || tail[i].bracket == '[') && pieces_fit(tail[i].pieces) by {
                    assert(tail[i] == opens[i + 1]);
                }
                lemma_pieces_run(b, first.pieces);
                lemma_opens_run(b, tail);
                lemma_stays_concat(b, inner, opened_text(tail), 1);
                let c = brace_run(b, opened_text(tail));
                lemma_cut_run(c, cut);
                assert forall|k: int| 0 <= k <= cut_text(cut).len() implies brace_run(
                    c,
                    #[trigger] cut_text(cut).take(k),
                ).depth >= 1 by {
                    assert(brace_run(c, cut_text(cut).take(k)).depth >= c.depth);
                }
                lemma_stays_concat(b, inner + opened_text(tail), cut_text(cut), 1);
                lemma_reads_unclosed(raw, n + 1, b, n);
            } else {
                assert(raw.len() == n);
            }
        },
        Rest::Ended { gap, more } => {
            assert(raw.subrange(0, gap.len() as int) =~= gap);
            lemma_reads_gap(raw, 0, gap, 0);
            assert(raw[gap.len() as int] == ']');
        },
    }
}

/// An object at the start of a text is found first.
proof fn lemma_reads_listed(gap: Seq<char>, pieces: Seq<Piece>, after: Seq<char>)
    requires
        gap_fits(gap),
        pieces_fit(pieces),
    ensures
        top_level_objects(gap + object_text(pieces) + after) == seq![object_text(pieces)]
            + top_level_objects(after),
{
    let o = object_text(pieces);
    let raw = gap + o + after;
    let n = gap.len() as int;
    assert(raw.subrange(0, n) =~= gap);
    lemma_reads_gap(raw, 0, gap, 0);
    json_objects_are_complete(pieces);
    assert(raw.subrange(n, n + o.len()) =~= o);
    lemma_reads_object(raw, n, o, 0);
    let m = n + o.len();
    lemma_start_is_free(raw, m, between(), n, m);
    assert(raw =~= (gap + o) + after);
    lemma_reads_tail(gap + o, after, 0, between(), 0);
}

/// The texts of the listed objects.
pub open spec fn object_texts(list: Seq<Listed>) -> Seq<Seq<char>> {
    Seq::new(list.len(), |i: int| object_text(list[i].pieces))
}

/// The objects of a list are found, and then what is found in what follows it.
proof fn lemma_list_is_read(list: Seq<Listed>, after: Seq<char>)
    requires
        list_fits(list),
    ensures
        top_level_objects(list_text(list) + after) == object_texts(list) + top_level_objects(after),
    decreases list.len(),
{
    if list.len() == 0 {
        assert(list_text(list) + after =~= after);
        assert(object_texts(list) + top_level_objects(after) =~= top_level_objects(after));
    } else {
        let body = list.drop_last();
        let last = list.last();
        assert(last == list[list.len() - 1]);
        assert forall|i: int| 0 <= i < body.len() implies gap_fits((#[trigger] body[i]).gap)
            && pieces_fit(body[i].pieces) by {
            assert(body[i] == list[i]);
        }
        let more = last.gap + object_text(last.pieces) + after;
        lemma_list_is_read(body, more);
        lemma_reads_listed(last.gap, last.pieces, after);
        assert(list_text(list) + after =~= list_text(body) + more);
        assert(object_texts(list) + top_level_objects(after) =~= object_texts(body) + (seq![
            object_text(last.pieces),
        ] + top_level_objects(after)));
    }
}

/// From a list of JSON objects whose strings may hold escapes, quotes and braces, all
/// objects come back as they stand there and in their order, however they are spaced, and
/// whether the list ends or breaks off within the next object.
pub proof fn written_objects_are_extracted(list: Seq<Listed>, rest: Rest)
    requires
        list_fits(list),
        rest_fits(rest),
    ensures
        top_level_objects(list_text(list) + rest_text(rest)).len() == list.len(),
        forall|i: int|
            0 <= i < list.len() ==> #[trigger] top_level_objects(
                list_text(list) + rest_text(rest),
            )[i] == seq!['{'] + pieces_text(list[i].pieces) + seq!['}'],
{
    lemma_list_is_read(list, rest_text(rest));
    lemma_rest_has_none(rest);
    assert(object_texts(list) + Seq::<Seq<char>>::empty() =~= object_texts(list));
}

/// The key is found where it stands behind a text without quotes.
proof fn lemma_key_found(before: Seq<char>, rest: Seq<char>)
    requires
        !before.contains('"'),
    ensures
        text::index_of(before + "\"questions\""@ + rest, "\"questions\""@) == Some(
            before.len() as int,
        ),
{
    reveal_strlit("\"questions\"");
    let key = "\"questions\""@;
    let s = before + key + rest;
    let k = before.len() as int;
    assert(s.subrange(k, k + 11) =~= key);
    text::lemma_index_from(s, key, 0);
    assert(text::occurs_at(s, key, k));
    assert forall|j: int| 0 <= j < k implies !text::occurs_at(s, key, j) by {
        if text::occurs_at(s, key, j) {
            assert(s.subrange(j, j + 11)[0] == s[j]);
            assert(s[j] == before[j]);
            assert(before.contains('"'));
        }
    }
}

/// The first bracket behind a place, where no other one stands between them.
proof fn lemma_bracket_found(s: Seq<char>, from: int, at: int)
    requires
        0 <= from <= at < s.len(),
        s[at] == '[',
        forall|j: int| from <= j < at ==> s[j] != '[',
    ensures
        text::index_from(s, "["@, from) == Some(at),
{
    reveal_strlit("[");
    text::lemma_index_from(s, "["@, from);
    assert(s.subrange(at, at + 1) =~= "["@);
    assert(text::occurs_at(s, "["@, at));
    assert forall|j: int| from <= j < at implies !text::occurs_at(s, "["@, j) by {
        assert(s.subrange(j, j + 1)[0] == s[j]);
    }
}

/// No bracket is found where none stands.
proof fn lemma_bracket_missing(s: Seq<char>, from: int)
    requires
        0 <= from,
        forall|j: int| from <= j < s.len() ==> s[j] != '[',
    ensures
        text::index_from(s, "["@, from) is None,
{
    reveal_strlit("[");
    text::lemma_index_from(s, "["@, from);
    if text::index_from(s, "["@, from) is Some {
        let j = text::index_from(s, "["@, from)->0;
        assert(s.subrange(j, j + 1)[0] == s[j]);
    }
}

/// A reply that does not start with a fence, or does not end with one, loses the white space
/// around it alone.
proof fn lemma_no_fence(raw: Seq<char>)
    requires
        raw.len() > 0,
        !text::is_white(raw[0]),
        raw[0] != '`' || !text::ends_with(text::trim(raw), "```"@),
    ensures
        normalized(raw) == text::trim(raw),
{
    let none = Seq::<char>::empty();
    assert(none + raw + none =~= raw);
    fences_are_taken_off(none, raw, none);
    if raw[0] != '`' {
        reveal_strlit("```");
        let t = text::trim(raw);
        assert(text::trim_start(raw) == raw);
        text::lemma_trim_end(raw);
        if text::starts_with(t, "```"@) {
            assert(t.take(3)[0] == t[0]);
            assert(t[0] == raw[0]);
        }
    }
}

/// What is salvaged from a reply whose list of questions starts with its first bracket
/// behind the key.
proof fn lemma_salvage_head(before: Seq<char>, between_them: Seq<char>, t: Seq<char>)
    requires
        before.len() > 0,
        !text::is_white(before[0]),
        before[0] != '`' || !text::ends_with(
            text::trim(before + "\"questions\""@ + between_them + "["@ + t),
            "```"@,
        ),
        !before.contains('"'),
        !between_them.contains('['),
    ensures
        ({
            let objects = top_level_objects(text::trim_end(t));
            salvaged(before + "\"questions\""@ + between_them + "["@ + t) == if objects.len() == 0 {
                Err::<Seq<char>, SalvageError>(SalvageError::NoCompleteObject)
            } else {
                Ok::<Seq<char>, SalvageError>(payload_of(objects))
            }
        }),
{
    reveal_strlit("\"questions\"");
    reveal_strlit("[");
    let key = "\"questions\""@;
    let head = before + key + between_them + "["@;
    let raw = head + t;
    let u = text::trim_end(t);
    let s = head + u;
    assert(raw[0] == before[0]);
    assert(text::trim_start(raw) == raw);
    assert(head.last() == '[');
    text::lemma_trim_end_behind(head, t);
    assert(text::trim(raw) == s);
    lemma_no_fence(raw);
    let k = before.len() as int;
    let n = k + 11 + between_them.len();
    assert(s =~= before + key + (between_them + "["@ + u));
    lemma_key_found(before, between_them + "["@ + u);
    assert(s[n] == '[');
    assert forall|j: int| k <= j < n implies s[j] != '[' by {
        if j < k + 11 {
            assert(s[j] == key[j - k]);
        } else {
            assert(s[j] == between_them[j - k - 11]);
        }
    }
    lemma_bracket_found(s, k, n);
    assert(s.skip(n + 1) =~= u);
}

/// From a reply that breaks off in a question, or whose list ends, the questions that are
/// complete are salvaged: the payload holds them as they stand in the reply, in their order
/// and with a comma between each two. A reply without a complete one gives the error.
pub proof fn complete_questions_are_salvaged(
    before: Seq<char>,
    between_them: Seq<char>,
    list: Seq<Listed>,
    rest: Rest,
)
    requires
        before.len() > 0,
        !text::is_white(before[0]),
        before[0] != '`' || !text::ends_with(
            text::trim(
                before + "\"questions\""@ + between_them + "["@ + list_text(list) + rest_text(rest),
            ),
            "```"@,
        ),
        !before.contains('"'),
        !between_them.contains('['),
        list_fits(list),
        rest_fits(rest),
    ensures
        ({
            let raw = before + "\"questions\""@ + between_them + "["@ + list_text(list) + rest_text(
                rest,
            );
            if list.len() == 0 {
                salvaged(raw) == Err::<Seq<char>, SalvageError>(SalvageError::NoCompleteObject)
            } else {
                salvaged(raw) == Ok::<Seq<char>, SalvageError>(
                    "{\"questions\":["@ + text::join(
                        list.map_values(
                            |l: Listed| seq!['{'] + pieces_text(l.pieces) + seq!['}'],
                        ),
                        ","@,
                    ) + "]}"@,
                )
            }
        }),
{
    let r = rest_text(rest);
    let t = list_text(list) + r;
    let head = before + "\"questions\""@ + between_them + "["@;
    assert(head + t =~= head + list_text(list) + r);
    lemma_salvage_head(before, between_them, t);
    let u = text::trim_end(r);
    if list.len() > 0 {
        assert(list_text(list).last() == '}');
        text::lemma_trim_end_behind(list_text(list), r);
    } else {
        assert(list_text(list) + r =~= r);
        assert(list_text(list) + u =~= u);
    }
    assert(text::trim_end(t) == list_text(list) + u);
    lemma_list_is_read(list, u);
    lemma_rest_has_none(rest);
    text::lemma_trim_end(r);
    assert(u + r.skip(u.len() as int) =~= r);
    longer_replies_keep_their_objects(u, r.skip(u.len() as int));
    assert(top_level_objects(u) =~= Seq::<Seq<char>>::empty());
    assert(object_texts(list) + top_level_objects(u) =~= object_texts(list));
    assert(object_texts(list) =~= list.map_values(
        |l: Listed| seq!['{'] + pieces_text(l.pieces) + seq!['}'],
    ));
}

/// The fence around a reply goes, with the white space within it and around it; a reply
/// without a fence only loses the white space around it.
pub proof fn fences_are_taken_off(before: Seq<char>, s: Seq<char>, behind: Seq<char>)
    requires
        text::is_blank(before),
        text::is_blank(behind),
    ensures
        normalized(before + ("```json"@ + s + "```"@) + behind) == text::trim(s),
        !text::starts_with(s, "json"@) ==> normalized(before + ("```"@ + s + "```"@) + behind)
            == text::trim(s),
        !text::starts_with(text::trim(s), "```"@) ==> normalized(before + s + behind) == text::trim(
            s,
        ),
        !text::ends_with(text::trim(s), "```"@) ==> normalized(before + s + behind) == text::trim(
            s,
        ),
{
    reveal_strlit("```json");
    reveal_strlit("```");
    reveal_strlit("json");
    let a = "```json"@ + s + "```"@;
    let b = "```"@ + s + "```"@;
    text::white_space_around_is_trimmed(before, a, behind);
    text::white_space_around_is_trimmed(before, b, behind);
    text::white_space_around_is_trimmed(before, s, behind);
    assert(text::is_trimmed(a));
    assert(text::is_trimmed(b));
    assert(a.take(7) =~= "```json"@);
    let inner = a.skip(7);
    assert(inner.skip(inner.len() - 3) =~= "```"@);
    assert(inner.take(inner.len() - 3) =~= s);
    assert(fenced(a, "```json"@) == Some(s));
    if !text::starts_with(s, "json"@) {
        if text::starts_with(b, "```json"@) && fenced(b, "```json"@) is Some {
            assert(b.len() >= 10);
            assert(s.take(4) =~= "json"@) by {
                assert forall|k: int| 0 <= k < 4 implies s[k] == "json"@[k] by {
                    assert(b.take(7)[k + 3] == "```json"@[k + 3]);
                    assert(b[k + 3] == s[k]);
                }
            }
        }
        assert(fenced(b, "```json"@) is None);
        assert(b.take(3) =~= "```"@);
        let inner = b.skip(3);
        assert(inner.skip(inner.len() - 3) =~= "```"@);
        assert(inner.take(inner.len() - 3) =~= s);
    }
    let t = text::trim(s);
    if text::starts_with(t, "```json"@) {
        assert(t.take(3) =~= t.take(7).take(3));
        assert("```json"@.take(3) =~= "```"@);
    }
    if !text::ends_with(t, "```"@) {
        if fenced(t, "```json"@) is Some {
            assert(t.skip(7).skip(t.skip(7).len() - 3) =~= t.skip(t.len() - 3));
        }
        if fenced(t, "```"@) is Some {
            assert(t.skip(3).skip(t.skip(3).len() - 3) =~= t.skip(t.len() - 3));
        }
    }
}

/// What is open behind `s` when `n` is open before it.
spec fn nest_run(n: Nesting, s: Seq<char>) -> Nesting
    decreases s.len(),
{
    if s.len() == 0 {
        n
    } else {
        advance(nest_run(n, s.drop_last()), s.last())
    }
}

/// Two texts are read one after the other.
proof fn lemma_nest_concat(n: Nesting, s: Seq<char>, t: Seq<char>)
    ensures
        nest_run(n, s + t) == nest_run(nest_run(n, s), t),
    decreases t.len(),
{
    if t.len() == 0 {
        assert(s + t =~= s);
    } else {
        assert((s + t).drop_last() =~= s + t.drop_last());
        lemma_nest_concat(n, s, t.drop_last());
    }
}

/// Reading a text is reading on from its start.
proof fn lemma_nest_run(s: Seq<char>)
    ensures
        nesting(s) == nest_run(outside(), s),
    decreases s.len(),
{
    if s.len() > 0 {
        lemma_nest_run(s.drop_last());
    }
}

/// One character.
proof fn lemma_nest_one(n: Nesting, c: char)
    ensures
        nest_run(n, seq![c]) == advance(n, c),
        nest_run(n, Seq::empty()) == n,
{
    assert(seq![c].drop_last() =~= Seq::<char>::empty());
    assert(nest_run(n, seq![c].drop_last()) == n);
}

/// The inside of a string opens and closes nothing.
proof fn lemma_nest_units(n: Nesting, units: Seq<StringUnit>)
    requires
        units_fit(units),
        n.in_string,
        !n.escaped,
    ensures
        nest_run(n, units_text(units)) == n,
    decreases units.len(),
{
    if units.len() > 0 {
        let body = units.drop_last();
        assert forall|i: int| 0 <= i < body.len() implies ((#[trigger] body[i]) matches StringUnit::Plain(
            c,
        ) ==> c != '"' && c != '\\') by {
            assert(body[i] == units[i]);
        }
        lemma_nest_units(n, body);
        assert(units.last() == units[units.len() - 1]);
        match units.last() {
            StringUnit::Plain(c) => {
                lemma_nest_one(n, c);
            },
            StringUnit::Escaped(c) => {
                lemma_nest_one(n, '\\');
                lemma_nest_one(advance(n, '\\'), c);
                lemma_nest_concat(n, seq!['\\'], seq![c]);
                assert(seq!['\\'] + seq![c] =~= seq!['\\', c]);
            },
        }
        lemma_nest_concat(n, units_text(body), unit_text(units.last()));
    }
}

/// A text between two marks.
proof fn lemma_nest_between(n: Nesting, open: char, inner: Seq<char>, close: char)
    requires
        nest_run(advance(n, open), inner) == advance(n, open),
    ensures
        nest_run(n, seq![open] + inner + seq![close]) == advance(advance(n, open), close),
{
    lemma_nest_one(n, open);
    lemma_nest_concat(n, seq![open], inner);
    lemma_nest_one(advance(n, open), close);
    lemma_nest_concat(n, seq![open] + inner, seq![close]);
}

/// Complete pieces leave open what was open before them.
proof fn lemma_nest_pieces(n: Nesting, pieces: Seq<Piece>)
    requires
        pieces_fit(pieces),
        !n.in_string,
        !n.escaped,
    ensures
        nest_run(n, pieces_text(pieces)) == n,
    decreases pieces,
{
    if pieces.len() > 0 {
        lemma_nest_pieces(n, pieces.drop_last());
        lemma_nest_piece(n, pieces.last());
        lemma_nest_concat(n, pieces_text(pieces.drop_last()), piece_text(pieces.last()));
    }
}

/// A complete piece leaves open what was open before it.
proof fn lemma_nest_piece(n: Nesting, piece: Piece)
    requires
        piece_fits(piece),
        !n.in_string,
        !n.escaped,
    ensures
        nest_run(n, piece_text(piece)) == n,
    decreases piece,
{
    match piece {
        Piece::Sign(c) => {
            lemma_nest_one(n, c);
        },
        Piece::Quoted(units) => {
            lemma_nest_units(advance(n, '"'), units);
            lemma_nest_between(n, '"', units_text(units), '"');
        },
        Piece::Object(pieces) => {
            lemma_nest_pieces(advance(n, '{'), pieces);
            lemma_nest_between(n, '{', pieces_text(pieces), '}');
        },
        Piece::Array(pieces) => {
            lemma_nest_pieces(advance(n, '['), pieces);
            lemma_nest_between(n, '[', pieces_text(pieces), ']');
        },
    }
}

/// How many of the open brackets are the given one.
pub open spec fn open_count(opens: Seq<Opened>, bracket: char) -> nat {
    opens.filter(|o: Opened| o.bracket == bracket).len()
}

/// What is open behind some open brackets.
proof fn lemma_nest_opens(opens: Seq<Opened>)
    requires
        opens_fit(opens),
    ensures
        nest_run(outside(), opened_text(opens)) == (Nesting {
            objects: open_count(opens, '{'),
            arrays: open_count(opens, '['),
            ..outside()
        }),
    decreases opens.len(),
{
    reveal(Seq::filter);
    if opens.len() > 0 {
        let body = opens.drop_last();
        let last = opens.last();
        assert(last == opens[opens.len() - 1]);
        assert forall|i: int| 0 <= i < body.len() implies ((#[trigger] body[i]).bracket == '{'
            || body[i].bracket == '[') && pieces_fit(body[i].pieces) by {
            assert(body[i] == opens[i]);
        }
        lemma_nest_opens(body);
        let n = nest_run(outside(), opened_text(body));
        lemma_nest_one(n, last.bracket);
        lemma_nest_concat(outside(), opened_text(body), seq![last.bracket]);
        lemma_nest_pieces(advance(n, last.bracket), last.pieces);
        lemma_nest_concat(
            outside(),
            opened_text(body) + seq![last.bracket],
            pieces_text(last.pieces),
        );
    }
}

/// A JSON text that breaks off is closed by what it lacks: the quote of the string in which
/// it breaks off, a bracket for each array that is open, then a brace for each object that
/// is open. What stands in its strings, and what is closed in it, adds nothing.
pub proof fn broken_text_is_closed(
    complete: Seq<Piece>,
    opens: Seq<Opened>,
    cut: Option<CutString>,
)
    requires
        pieces_fit(complete),
        opens_fit(opens),
        cut matches Some(c) ==> units_fit(c.units),
    ensures
        ({
            let raw = pieces_text(complete) + opened_text(opens) + cut_text(cut);
            let quote = if cut is Some {
                seq!['"']
            } else {
                Seq::empty()
            };
            let arrays = opens.filter(|o: Opened| o.bracket == '[').len();
            let objects = opens.filter(|o: Opened| o.bracket == '{').len();
            repaired(raw) == raw + quote + Seq::new(arrays, |i: int| ']') + Seq::new(
                objects,
                |i: int| '}',
            )
        }),
{
    let a = pieces_text(complete);
    let b = opened_text(opens);
    let raw = a + b + cut_text(cut);
    lemma_nest_run(raw);
    lemma_nest_pieces(outside(), complete);
    lemma_nest_opens(opens);
    lemma_nest_concat(outside(), a, b);
    lemma_nest_concat(outside(), a + b, cut_text(cut));
    let n = nest_run(outside(), a + b);
    match cut {
        None => {
            lemma_nest_one(n, ' ');
        },
        Some(c) => {
            let mid = advance(n, '"');
            let end = if c.in_escape {
                seq!['\\']
            } else {
                Seq::empty()
            };
            lemma_nest_one(n, '"');
            lemma_nest_units(mid, c.units);
            lemma_nest_concat(n, seq!['"'], units_text(c.units));
            lemma_nest_one(mid, '\\');
            lemma_nest_concat(n, seq!['"'] + units_text(c.units), end);
        },
    }
    let quote = if cut is Some {
        seq!['"']
    } else {
        Seq::empty()
    };
    let arrays = open_count(opens, '[');
    let objects = open_count(opens, '{');
    assert(repaired(raw) =~= raw + quote + Seq::new(arrays, |i: int| ']') + Seq::new(
        objects,
        |i: int| '}',
    ));
}

/// A reply that holds no key for questions gives that error.
pub proof fn replies_need_the_key(raw: Seq<char>)
    requires
        !text::contains(raw, "\"questions\""@),
    ensures
        salvaged(raw) == Err::<Seq<char>, SalvageError>(SalvageError::MissingPayload),
{
    let key = "\"questions\""@;
    let s = text::trim(raw);
    lemma_trim_holds_no_more(raw, key);
    let a = s.skip("```json"@.len() as int);
    let b = s.skip("```"@.len() as int);
    reveal_strlit("```json");
    reveal_strlit("```");
    if fenced(s, "```json"@) is Some {
        assert(a.take(a.len() - 3) =~= s.subrange(7, s.len() - 3));
        text::lemma_piece_free(s, 7, s.len() - 3, key);
        lemma_trim_holds_no_more(s.subrange(7, s.len() - 3), key);
    } else if fenced(s, "```"@) is Some {
        assert(b.take(b.len() - 3) =~= s.subrange(3, s.len() - 3));
        text::lemma_piece_free(s, 3, s.len() - 3, key);
        lemma_trim_holds_no_more(s.subrange(3, s.len() - 3), key);
    }
    text::lemma_index_from(normalized(raw), key, 0);
    if text::index_of(normalized(raw), key) is Some {
        let k = text::index_of(normalized(raw), key)->0;
        assert(text::occurs_at(normalized(raw), key, k));
    }
}

/// A trimmed text holds nothing that the text does not hold.
proof fn lemma_trim_holds_no_more(s: Seq<char>, pat: Seq<char>)
    requires
        !text::contains(s, pat),
    ensures
        !text::contains(text::trim(s), pat),
{
    text::lemma_trim(s);
    let (a, b) = choose|a: int, b: int|
        0 <= a <= b <= s.len() && text::trim(s) == #[trigger] s.subrange(a, b) && (forall|k: int|
            0 <= k < a || b <= k < s.len() ==> text::is_white(s[k]));
    text::lemma_piece_free(s, a, b, pat);
}

/// A reply in which no bracket stands behind the key for questions gives that error.
pub proof fn replies_need_the_list(before: Seq<char>, behind: Seq<char>)
    requires
        before.len() > 0,
        before[0] == '{',
        !before.contains('"'),
        !behind.contains('['),
    ensures
        salvaged(before + "\"questions\""@ + behind) == Err::<Seq<char>, SalvageError>(
            SalvageError::MissingArray,
        ),
{
    reveal_strlit("\"questions\"");
    let key = "\"questions\""@;
    let head = before + key;
    let raw = head + behind;
    let u = text::trim_end(behind);
    let s = head + u;
    assert(raw[0] == '{');
    assert(text::trim_start(raw) == raw);
    assert(head.last() == '"');
    text::lemma_trim_end_behind(head, behind);
    text::lemma_trim_end(behind);
    lemma_no_fence(raw);
    lemma_key_found(before, u);
    let k = before.len() as int;
    assert forall|j: int| k <= j < s.len() implies s[j] != '[' by {
        if j < k + 11 {
            assert(s[j] == key[j - k]);
        } else {
            assert(s[j] == behind[j - k - 11]);
        }
    }
    lemma_bracket_missing(s, k);
}

/// The last position is behind all others.
proof fn lemma_last_position_last(s: Seq<char>, c: char, i: int)
    requires
        0 <= i < s.len(),
        s[i] == c,
        forall|j: int| i < j < s.len() ==> s[j] != c,
    ensures
        last_position(s, c) == Some(i),
    decreases s.len(),
{
    if i < s.len() - 1 {
        assert(s.last() == s[s.len() - 1]);
        lemma_last_position_last(s.drop_last(), c, i);
    }
}

/// Of a reply with words around its JSON text, what stands from the first brace on is
/// closed and tried, and then what stands between the outermost braces.
pub proof fn words_around_the_text_are_left_out(
    before: Seq<char>,
    inner: Seq<char>,
    behind: Seq<char>,
)
    requires
        !before.contains('{'),
        !behind.contains('}'),
        text::is_trimmed(before + seq!['{'] + inner + seq!['}'] + behind),
        !text::starts_with(before + seq!['{'] + inner + seq!['}'] + behind, "```"@),
    ensures
        ({
            let raw = before + seq!['{'] + inner + seq!['}'] + behind;
            &&& attempt_after(raw, Some(JsonAttempt::Direct)) == Ok::<
                (JsonAttempt, Seq<char>),
                PayloadError,
            >((JsonAttempt::Repaired, repaired(seq!['{'] + inner + seq!['}'] + behind)))
            &&& attempt_after(raw, Some(JsonAttempt::Repaired)) == Ok::<
                (JsonAttempt, Seq<char>),
                PayloadError,
            >((JsonAttempt::Sliced, seq!['{'] + inner + seq!['}']))
            &&& !braces_reversed(raw)
        }),
{
    let raw = before + seq!['{'] + inner + seq!['}'] + behind;
    let none = Seq::<char>::empty();
    reveal_strlit("{");
    text::lemma_trim_fixed(raw);
    assert(none + raw + none =~= raw);
    fences_are_taken_off(none, raw, none);
    assert(normalized(raw) == raw);
    let a = before.len() as int;
    let b = a + 1 + inner.len();
    text::lemma_index_from(raw, "{"@, 0);
    assert(raw.subrange(a, a + 1) =~= "{"@);
    assert(text::occurs_at(raw, "{"@, a));
    assert forall|j: int| 0 <= j < a implies !text::occurs_at(raw, "{"@, j) by {
        assert(raw.subrange(j, j + 1)[0] == raw[j]);
        assert(raw[j] == before[j]);
    }
    assert(text::index_of(raw, "{"@) == Some(a));
    assert forall|j: int| b < j < raw.len() implies raw[j] != '}' by {
        assert(raw[j] == behind[j - b - 1]);
    }
    lemma_last_position_last(raw, '}', b);
    assert(raw.skip(a) =~= seq!['{'] + inner + seq!['}'] + behind);
    assert(raw.subrange(a, b + 1) =~= seq!['{'] + inner + seq!['}']);
}

/// The reply without its fence is tried first. A reply without a brace is salvaged next,
/// and so is one whose other attempts failed.
pub proof fn attempts_are_made_in_order(raw: Seq<char>)
    ensures
        attempt_after(raw, None) == Ok::<(JsonAttempt, Seq<char>), PayloadError>(
            (JsonAttempt::Direct, normalized(raw)),
        ),
        !normalized(raw).contains('{') ==> attempt_after(raw, Some(JsonAttempt::Direct))
            == attempt_after(raw, Some(JsonAttempt::Sliced)),
        salvaged(raw) matches Ok(t) ==> attempt_after(raw, Some(JsonAttempt::Sliced)) == Ok::<
            (JsonAttempt, Seq<char>),
            PayloadError,
        >((JsonAttempt::Salvaged, t)),
        salvaged(raw) matches Err(e) ==> attempt_after(raw, Some(JsonAttempt::Sliced)) == Err::<
            (JsonAttempt, Seq<char>),
            PayloadError,
        >(PayloadError::Salvage(e)),
        attempt_after(raw, Some(JsonAttempt::Salvaged)) == Err::<
            (JsonAttempt, Seq<char>),
            PayloadError,
        >(PayloadError::Unreadable),
{
    let s = normalized(raw);
    reveal_strlit("{");
    text::lemma_index_from(s, "{"@, 0);
    if text::index_of(s, "{"@) is Some {
        let k = text::index_of(s, "{"@)->0;
        assert(s.subrange(k, k + 1)[0] == s[k]);
        assert(s.contains('{'));
    }
}

/// A closing brace before the first brace stands in the wrong order, unless it stands
/// directly before it; one behind it does not.
pub proof fn braces_in_the_wrong_order_are_known(
    before: Seq<char>,
    inner: Seq<char>,
    behind: Seq<char>,
)
    requires
        !before.contains('{'),
        !inner.contains('{'),
        !inner.contains('}'),
        !behind.contains('}'),
        text::is_trimmed(before + seq!['}'] + inner + seq!['{'] + behind),
        !text::starts_with(before + seq!['}'] + inner + seq!['{'] + behind, "```"@),
    ensures
        braces_reversed(before + seq!['}'] + inner + seq!['{'] + behind) <==> inner.len() > 0,
{
    let raw = before + seq!['}'] + inner + seq!['{'] + behind;
    let none = Seq::<char>::empty();
    reveal_strlit("{");
    text::lemma_trim_fixed(raw);
    assert(none + raw + none =~= raw);
    fences_are_taken_off(none, raw, none);
    assert(normalized(raw) == raw);
    let b = before.len() as int;
    let a = b + 1 + inner.len();
    text::lemma_index_from(raw, "{"@, 0);
    assert(raw.subrange(a, a + 1) =~= "{"@);
    assert(text::occurs_at(raw, "{"@, a));
    assert forall|j: int| 0 <= j < a implies !text::occurs_at(raw, "{"@, j) by {
        assert(raw.subrange(j, j + 1)[0] == raw[j]);
        if j < b {
            assert(raw[j] == before[j]);
        } else if j > b {
            assert(raw[j] == inner[j - b - 1]);
        }
    }
    assert(text::index_of(raw, "{"@) == Some(a));
    assert forall|j: int| b < j < raw.len() implies raw[j] != '}' by {
        if j < a {
            assert(raw[j] == inner[j - b - 1]);
        } else if j > a {
            assert(raw[j] == behind[j - a - 1]);
        }
    }
    lemma_last_position_last(raw, '}', b);
}

/// White space around a reply does not matter when it is salvaged; from a reply in a fence
/// what stands in it is salvaged.
pub proof fn fences_do_not_hinder_salvaging(
    before: Seq<char>,
    s: Seq<char>,
    behind: Seq<char>,
)
    requires
        text::is_blank(before),
        text::is_blank(behind),
    ensures
        salvaged(before + s + behind) == salvaged(s),
        !text::starts_with(text::trim(s), "```"@) ==> salvaged(
            before + ("```json"@ + s + "```"@) + behind,
        ) == salvaged(s),
        !text::starts_with(text::trim(s), "```"@) && !text::starts_with(s, "json"@) ==> salvaged(
            before + ("```"@ + s + "```"@) + behind,
        ) == salvaged(s),
{
    let none = Seq::<char>::empty();
    text::white_space_around_is_trimmed(before, s, behind);
    fences_are_taken_off(before, s, behind);
    fences_are_taken_off(none, s, none);
    assert(none + s + none =~= s);
    assert(normalized(before + s + behind) == normalized(s));
}

} // verus!
