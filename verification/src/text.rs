//! Text as sequences of characters: trimming, splitting, joining, searching.

use vstd::prelude::*;
use vstd::utf8::*;

verus! {

/// `String::push` appends one character.
pub assume_specification[ String::push ](s: &mut String, c: char)
    ensures
        final(s)@ == old(s)@.push(c),
;

/// The characters with the Unicode property `White_Space`.
pub open spec fn is_white(c: char) -> bool {
    ||| '\u{9}' <= c <= '\u{d}'
    ||| c == ' '
    ||| c == '\u{85}'
    ||| c == '\u{a0}'
    ||| c == '\u{1680}'
    ||| '\u{2000}' <= c <= '\u{200a}'
    ||| c == '\u{2028}'
    ||| c == '\u{2029}'
    ||| c == '\u{202f}'
    ||| c == '\u{205f}'
    ||| c == '\u{3000}'
}

/// Whether `c` is white space.
pub fn is_whitespace(c: char) -> (r: bool)
    ensures
        r == is_white(c),
{
    ('\u{9}' <= c && c <= '\u{d}') || c == ' ' || c == '\u{85}' || c == '\u{a0}' || c == '\u{1680}'
        || ('\u{2000}' <= c && c <= '\u{200a}') || c == '\u{2028}' || c == '\u{2029}'
        || c == '\u{202f}' || c == '\u{205f}' || c == '\u{3000}'
}

/// The views of the values of a sequence.
pub open spec fn views<T: View>(s: Seq<T>) -> Seq<T::V> {
    s.map_values(|x: T| x@)
}

/// The view of an optional value.
pub open spec fn view_opt<T: View>(o: Option<T>) -> Option<T::V> {
    match o {
        Some(x) => Some(x@),
        None => None,
    }
}

/// `s` without the white space at its start.
pub open spec fn trim_start(s: Seq<char>) -> Seq<char>
    decreases s.len(),
{
    if s.len() > 0 && is_white(s[0]) {
        trim_start(s.drop_first())
    } else {
        s
    }
}

/// `s` without the white space at its end.
pub open spec fn trim_end(s: Seq<char>) -> Seq<char>
    decreases s.len(),
{
    if s.len() > 0 && is_white(s.last()) {
        trim_end(s.drop_last())
    } else {
        s
    }
}

/// `s` without the white space at its two ends.
pub open spec fn trim(s: Seq<char>) -> Seq<char> {
    trim_end(trim_start(s))
}

/// A text has no white space at its two ends.
pub open spec fn is_trimmed(s: Seq<char>) -> bool {
    s.len() > 0 ==> !is_white(s[0]) && !is_white(s.last())
}

/// Trimming at the start keeps a tail of the text that does not start with
/// white space.
pub proof fn lemma_trim_start(s: Seq<char>)
    ensures
        trim_start(s).len() <= s.len(),
        trim_start(s) == s.skip(s.len() - trim_start(s).len()),
        trim_start(s).len() > 0 ==> !is_white(trim_start(s)[0]),
        forall|i: int| 0 <= i < s.len() - trim_start(s).len() ==> is_white(s[i]),
    decreases s.len(),
{
    if s.len() > 0 && is_white(s[0]) {
        let t = s.drop_first();
        lemma_trim_start(t);
        assert(t.skip(t.len() - trim_start(t).len()) =~= s.skip(s.len() - trim_start(s).len()));
        assert forall|i: int| 0 <= i < s.len() - trim_start(s).len() implies is_white(s[i]) by {
            if i > 0 {
                assert(s[i] == t[i - 1]);
            }
        }
    } else {
        assert(s.skip(0) =~= s);
    }
}

/// Trimming at the end keeps a head of the text that does not end with white
/// space.
pub proof fn lemma_trim_end(s: Seq<char>)
    ensures
        trim_end(s).len() <= s.len(),
        trim_end(s) == s.take(trim_end(s).len() as int),
        trim_end(s).len() > 0 ==> !is_white(trim_end(s).last()),
        forall|i: int| trim_end(s).len() <= i < s.len() ==> is_white(s[i]),
    decreases s.len(),
{
    if s.len() > 0 && is_white(s.last()) {
        let t = s.drop_last();
        lemma_trim_end(t);
        assert(t.take(trim_end(t).len() as int) =~= s.take(trim_end(s).len() as int));
        assert forall|i: int| trim_end(s).len() <= i < s.len() implies is_white(s[i]) by {
            if i < s.len() - 1 {
                assert(s[i] == t[i]);
            }
        }
    } else {
        assert(s.take(s.len() as int) =~= s);
    }
}

/// Trimming gives a piece of the text without white space at its ends, and the
/// rest of the text is white space.
pub proof fn lemma_trim(s: Seq<char>)
    ensures
        is_trimmed(trim(s)),
        exists|a: int, b: int|
            0 <= a <= b <= s.len() && trim(s) == #[trigger] s.subrange(a, b) && (forall|i: int|
                0 <= i < a || b <= i < s.len() ==> is_white(s[i])),
{
    let t = trim_start(s);
    lemma_trim_start(s);
    lemma_trim_end(t);
    let a = s.len() - t.len();
    let b = a + trim_end(t).len();
    assert(trim(s) =~= s.subrange(a, b));
    assert forall|i: int| 0 <= i < a || b <= i < s.len() implies is_white(s[i]) by {
        if i >= b {
            assert(s[i] == t[i - a]);
        }
    }
}

/// Trimming leaves a text without white space at its ends as it is.
pub proof fn lemma_trim_fixed(s: Seq<char>)
    requires
        is_trimmed(s),
    ensures
        trim(s) == s,
{
}

/// Trimming a second time changes nothing.
pub proof fn trim_is_idempotent(s: Seq<char>)
    ensures
        trim(trim(s)) == trim(s),
{
    lemma_trim(s);
    lemma_trim_fixed(trim(s));
}

/// `pat` stands in `s` at position `i`.
pub open spec fn occurs_at(s: Seq<char>, pat: Seq<char>, i: int) -> bool {
    &&& 0 <= i
    &&& i + pat.len() <= s.len()
    &&& s.subrange(i, i + pat.len()) == pat
}

/// `pat` stands somewhere in `s`.
pub open spec fn contains(s: Seq<char>, pat: Seq<char>) -> bool {
    exists|i: int| occurs_at(s, pat, i)
}

/// The first position from `i` on at which `pat` stands in `s`.
pub open spec fn index_from(s: Seq<char>, pat: Seq<char>, i: int) -> Option<int>
    decreases s.len() - i + 1,
{
    if i < 0 || i + pat.len() > s.len() {
        None
    } else if occurs_at(s, pat, i) {
        Some(i)
    } else {
        index_from(s, pat, i + 1)
    }
}

/// The first position at which `pat` stands in `s`.
pub open spec fn index_of(s: Seq<char>, pat: Seq<char>) -> Option<int> {
    index_from(s, pat, 0)
}

/// What `index_from` finds is an occurrence, and the first one; it finds one
/// where there is one.
pub proof fn lemma_index_from(s: Seq<char>, pat: Seq<char>, i: int)
    requires
        0 <= i,
    ensures
        index_from(s, pat, i) matches Some(k) ==> i <= k && occurs_at(s, pat, k) && forall|j: int|
            i <= j < k ==> !occurs_at(s, pat, j),
        index_from(s, pat, i) is None ==> forall|j: int| i <= j ==> !occurs_at(s, pat, j),
    decreases s.len() - i + 1,
{
    if i + pat.len() > s.len() {
    } else if occurs_at(s, pat, i) {
    } else {
        lemma_index_from(s, pat, i + 1);
    }
}

/// The pieces of `s` between the successive occurrences of `sep`, taken from
/// the left without overlap.
pub open spec fn split_on(s: Seq<char>, sep: Seq<char>) -> Seq<Seq<char>>
    decreases s.len(),
{
    if sep.len() == 0 {
        seq![s]
    } else {
        match index_of(s, sep) {
            Some(i) => {
                proof {
                    lemma_index_from(s, sep, 0);
                }
                seq![s.take(i)] + split_on(s.skip(i + sep.len()), sep)
            },
            None => seq![s],
        }
    }
}

/// The parts in order, with `sep` between each two.
pub open spec fn join(parts: Seq<Seq<char>>, sep: Seq<char>) -> Seq<char>
    decreases parts.len(),
{
    if parts.len() == 0 {
        Seq::empty()
    } else if parts.len() == 1 {
        parts[0]
    } else {
        join(parts.drop_last(), sep) + sep + parts.last()
    }
}

/// A joined text starts with its first part.
pub proof fn lemma_join_front(parts: Seq<Seq<char>>, sep: Seq<char>)
    requires
        parts.len() >= 2,
    ensures
        join(parts, sep) == parts[0] + sep + join(parts.drop_first(), sep),
    decreases parts.len(),
{
    let body = parts.drop_last();
    if parts.len() == 2 {
        assert(join(body, sep) == parts[0]);
        assert(parts.drop_first()[0] == parts[1]);
    } else {
        lemma_join_front(body, sep);
        let rest = parts.drop_first();
        assert(rest.drop_last() =~= body.drop_first());
        assert(rest.last() == parts.last());
        assert(join(parts, sep) =~= parts[0] + sep + join(rest, sep));
    }
}

/// `s` starts with `pat`.
pub open spec fn starts_with(s: Seq<char>, pat: Seq<char>) -> bool {
    s.len() >= pat.len() && s.take(pat.len() as int) == pat
}

/// `s` ends with `pat`.
pub open spec fn ends_with(s: Seq<char>, pat: Seq<char>) -> bool {
    s.len() >= pat.len() && s.skip(s.len() - pat.len()) == pat
}

/// `s` with each occurrence of `from` replaced by `to`.
pub open spec fn replaced(s: Seq<char>, from: Seq<char>, to: Seq<char>) -> Seq<char> {
    join(split_on(s, from), to)
}

/// The digit `d`, from 0 to 9.
pub open spec fn digit(d: nat) -> char {
    (48 + d) as char
}

/// `n` in decimal.
pub open spec fn decimal(n: nat) -> Seq<char>
    decreases n,
{
    if n < 10 {
        seq![digit(n)]
    } else {
        decimal(n / 10).push(digit(n % 10))
    }
}

/// The number of characters before the first white space of `s`.
pub open spec fn word_len(s: Seq<char>) -> nat
    decreases s.len(),
{
    if s.len() == 0 || is_white(s[0]) {
        0
    } else {
        1 + word_len(s.drop_first())
    }
}

/// The first word of `s` lies in `s`, and ends at the end of `s` or before white
/// space.
pub proof fn lemma_word_len(s: Seq<char>)
    ensures
        word_len(s) <= s.len(),
        s.len() > 0 && !is_white(s[0]) ==> word_len(s) > 0,
        forall|i: int| 0 <= i < word_len(s) ==> !is_white(s[i]),
        word_len(s) < s.len() ==> is_white(s[word_len(s) as int]),
    decreases s.len(),
{
    if s.len() == 0 || is_white(s[0]) {
    } else {
        let t = s.drop_first();
        lemma_word_len(t);
        assert forall|i: int| 0 <= i < word_len(s) implies !is_white(s[i]) by {
            if i > 0 {
                assert(s[i] == t[i - 1]);
            }
        }
    }
}

/// The words of `s`: its longest pieces without white space.
pub open spec fn words(s: Seq<char>) -> Seq<Seq<char>>
    decreases s.len(),
{
    if s.len() == 0 {
        Seq::empty()
    } else if is_white(s[0]) {
        words(s.drop_first())
    } else {
        proof {
            lemma_word_len(s);
        }
        seq![s.take(word_len(s) as int)] + words(s.skip(word_len(s) as int))
    }
}

/// `c`, in lower case where it is an ASCII letter.
pub open spec fn lower_char(c: char) -> char {
    if 'A' <= c <= 'Z' {
        (c as u32 + 32) as char
    } else {
        c
    }
}

/// `c`, in upper case where it is an ASCII letter.
pub open spec fn upper_char(c: char) -> char {
    if 'a' <= c <= 'z' {
        (c as u32 - 32) as char
    } else {
        c
    }
}

/// The number of bytes of the UTF-8 form of `s`.
pub open spec fn utf8_len(s: Seq<char>) -> nat {
    encode_utf8(s).len()
}

/// The characters of `s`.
pub fn chars_of(s: &str) -> (r: Vec<char>)
    ensures
        r@ == s@,
{
    let mut r: Vec<char> = Vec::new();
    for c in iter: s.chars()
        invariant
            r@ == iter.seq().take(iter.index()),
            iter.seq() == s@,
    {
        r.push(c);
    }
    r
}

/// The text with the given characters.
pub fn string_of(c: &[char]) -> (r: String)
    ensures
        r@ == c@,
{
    string_from(c, 0, c.len())
}

/// The text with the characters of `c` from position `from` to before `to`.
pub fn string_from(c: &[char], from: usize, to: usize) -> (r: String)
    requires
        from <= to <= c@.len(),
    ensures
        r@ == c@.subrange(from as int, to as int),
{
    let mut r = String::new();
    let mut i: usize = from;
    while i < to
        invariant
            from <= i <= to <= c@.len(),
            r@ == c@.subrange(from as int, i as int),
        decreases to - i,
    {
        r.push(c[i]);
        i += 1;
    }
    r
}

/// The position of the first character of `c` that is not white space, from
/// `from` on, and the end of the last one.
pub fn trim_bounds(c: &[char], from: usize, to: usize) -> (r: (usize, usize))
    requires
        from <= to <= c@.len(),
    ensures
        from <= r.0 <= r.1 <= to,
        c@.subrange(r.0 as int, r.1 as int) == trim(c@.subrange(from as int, to as int)),
{
    let mut i: usize = from;
    while i < to && is_whitespace(c[i])
        invariant
            from <= i <= to <= c@.len(),
            trim_start(c@.subrange(from as int, to as int)) == trim_start(
                c@.subrange(i as int, to as int),
            ),
        decreases to - i,
    {
        proof {
            let s = c@.subrange(i as int, to as int);
            assert(s.drop_first() =~= c@.subrange(i + 1, to as int));
        }
        i += 1;
    }
    let ghost start = c@.subrange(i as int, to as int);
    assert(trim_start(start) == start);
    let mut j: usize = to;
    while i < j && is_whitespace(c[j - 1])
        invariant
            from <= i <= j <= to <= c@.len(),
            trim_end(start) == trim_end(c@.subrange(i as int, j as int)),
        decreases j - i,
    {
        proof {
            let s = c@.subrange(i as int, j as int);
            assert(s.drop_last() =~= c@.subrange(i as int, j - 1));
        }
        j -= 1;
    }
    (i, j)
}

/// `s` without the white space at its two ends.
pub fn trimmed(s: &str) -> (r: String)
    ensures
        r@ == trim(s@),
{
    let c = chars_of(s);
    let (from, to) = trim_bounds(&c, 0, c.len());
    proof {
        assert(c@.subrange(0, c@.len() as int) =~= s@);
    }
    string_from(&c, from, to)
}

/// Whether `pat` stands in `c` at position `i`.
pub fn stands_at(c: &[char], pat: &[char], i: usize) -> (r: bool)
    ensures
        r == occurs_at(c@, pat@, i as int),
{
    let n: usize = c.len();
    if pat.len() > n || i > n - pat.len() {
        return false;
    }
    let mut k: usize = 0;
    while k < pat.len()
        invariant
            k <= pat@.len(),
            n == c@.len(),
            i + pat@.len() <= n,
            forall|j: int| 0 <= j < k ==> c@[i + j] == pat@[j],
        decreases pat@.len() - k,
    {
        if c[i + k] != pat[k] {
            proof {
                assert(c@.subrange(i as int, i + pat@.len())[k as int] == c@[i + k]);
            }
            return false;
        }
        k += 1;
    }
    assert(c@.subrange(i as int, i + pat@.len()) =~= pat@);
    true
}

/// The first position from `from` on at which `pat` stands in `c`.
pub fn find_from(c: &[char], pat: &[char], from: usize) -> (r: Option<usize>)
    ensures
        r matches Some(i) ==> index_from(c@, pat@, from as int) == Some(i as int),
        r is None ==> index_from(c@, pat@, from as int) is None,
{
    let mut i: usize = from;
    while pat.len() <= c.len() && i <= c.len() - pat.len()
        invariant
            from <= i,
            index_from(c@, pat@, from as int) == index_from(c@, pat@, i as int),
        decreases c@.len() + 1 - i,
    {
        if stands_at(c, pat, i) {
            return Some(i);
        }
        if i == c.len() {
            assert(index_from(c@, pat@, i + 1) is None);
            return None;
        }
        i += 1;
    }
    None
}

/// The pieces of `c` between the successive occurrences of `sep`.
pub fn split_chars(c: &[char], sep: &[char]) -> (r: Vec<Vec<char>>)
    requires
        sep@.len() > 0,
    ensures
        views(r@) == split_on(c@, sep@),
{
    let mut parts: Vec<Vec<char>> = Vec::new();
    let mut start: usize = 0;
    let n: usize = c.len();
    assert(c@.skip(0) =~= c@);
    assert(views(parts@) + split_on(c@, sep@) =~= split_on(c@, sep@));
    loop
        invariant
            start <= n,
            n == c@.len(),
            sep@.len() > 0,
            views(parts@) + split_on(c@.skip(start as int), sep@) == split_on(c@, sep@),
        decreases c@.len() - start,
    {
        let ghost rest = c@.skip(start as int);
        let ghost before = parts@;
        proof {
            lemma_index_from(c@, sep@, start as int);
            lemma_index_skip(c@, sep@, start as int);
        }
        match find_from(c, sep, start) {
            Some(i) => {
                let piece = slice_chars(c, start, i);
                parts.push(piece);
                proof {
                    let next = i + sep@.len();
                    assert(index_of(rest, sep@) == Some(i - start));
                    assert(rest.take(i - start) =~= piece@);
                    assert(rest.skip(i - start + sep@.len()) =~= c@.skip(next));
                    assert(views(parts@) =~= views(before).push(piece@));
                    assert(views(parts@) + split_on(c@.skip(next), sep@) =~= views(before) + (
                    seq![piece@] + split_on(c@.skip(next), sep@)));
                }
                start = i + sep.len();
            },
            None => {
                let piece = slice_chars(c, start, c.len());
                parts.push(piece);
                proof {
                    assert(piece@ =~= rest);
                    assert(index_of(rest, sep@) is None);
                    assert(views(parts@) =~= views(before) + seq![rest]);
                }
                return parts;
            },
        }
    }
}

/// A search in the tail of `s` finds what a search of `s` from there on finds.
pub proof fn lemma_index_skip(s: Seq<char>, pat: Seq<char>, from: int)
    requires
        0 <= from <= s.len(),
    ensures
        index_from(s, pat, from) == (match index_of(s.skip(from), pat) {
            Some(i) => Some(i + from),
            None => None,
        }),
{
    let t = s.skip(from);
    lemma_index_from(s, pat, from);
    lemma_index_from(t, pat, 0);
    assert forall|j: int| from <= j implies occurs_at(s, pat, j) == occurs_at(t, pat, j - from) by {
        if j + pat.len() <= s.len() {
            assert(s.subrange(j, j + pat.len()) =~= t.subrange(j - from, j - from + pat.len()));
        }
    }
    if index_from(s, pat, from) is Some && index_of(t, pat) is Some {
        let a = index_from(s, pat, from)->0;
        let b = index_of(t, pat)->0;
        assert(occurs_at(s, pat, a) == occurs_at(t, pat, a - from));
        assert(occurs_at(s, pat, b + from) == occurs_at(t, pat, b));
    } else if index_from(s, pat, from) is Some {
        let a = index_from(s, pat, from)->0;
        assert(occurs_at(t, pat, a - from));
    } else if index_of(t, pat) is Some {
        let b = index_of(t, pat)->0;
        assert(occurs_at(s, pat, b + from) == occurs_at(t, pat, b));
    }
}

/// The characters of `c` from position `from` to before `to`.
pub fn slice_chars(c: &[char], from: usize, to: usize) -> (r: Vec<char>)
    requires
        from <= to <= c@.len(),
    ensures
        r@ == c@.subrange(from as int, to as int),
{
    let mut r: Vec<char> = Vec::new();
    let mut i: usize = from;
    while i < to
        invariant
            from <= i <= to <= c@.len(),
            r@ == c@.subrange(from as int, i as int),
        decreases to - i,
    {
        r.push(c[i]);
        i += 1;
    }
    r
}

/// The parts in order, with `sep` between each two.
pub fn join_strings(parts: &Vec<String>, sep: &str) -> (r: String)
    ensures
        r@ == join(views(parts@), sep@),
{
    let mut r = String::new();
    let mut i: usize = 0;
    let ghost v = views(parts@);
    while i < parts.len()
        invariant
            i <= parts@.len(),
            v == views(parts@),
            r@ == join(v.take(i as int), sep@),
        decreases parts@.len() - i,
    {
        if i > 0 {
            r.append(sep);
        }
        r.append(parts[i].as_str());
        proof {
            assert(v.take(i + 1).drop_last() =~= v.take(i as int));
        }
        i += 1;
    }
    assert(v.take(i as int) =~= v);
    r
}

/// `s` with each occurrence of `from` replaced by `to`.
pub fn replace_all(s: &str, from: &str, to: &str) -> (r: String)
    requires
        from@.len() > 0,
    ensures
        r@ == replaced(s@, from@, to@),
{
    let c = chars_of(s);
    let sep = chars_of(from);
    let pieces = split_chars(&c, &sep);
    let parts = strings_of(&pieces);
    join_strings(&parts, to)
}

/// The texts with the given characters.
pub fn strings_of(pieces: &Vec<Vec<char>>) -> (r: Vec<String>)
    ensures
        views(r@) == views(pieces@),
{
    let mut r: Vec<String> = Vec::new();
    let mut i: usize = 0;
    while i < pieces.len()
        invariant
            i <= pieces@.len(),
            r@.len() == i,
            forall|j: int| 0 <= j < i ==> r@[j]@ == pieces@[j]@,
        decreases pieces@.len() - i,
    {
        r.push(string_of(&pieces[i]));
        i += 1;
    }
    assert(views(r@) =~= views(pieces@));
    r
}

/// `n` in decimal.
pub fn decimal_text(n: u64) -> (r: String)
    ensures
        r@ == decimal(n as nat),
    decreases n,
{
    let d: u8 = (n % 10) as u8;
    let mut r = if n < 10 {
        String::new()
    } else {
        decimal_text(n / 10)
    };
    r.push((48u8 + d) as char);
    proof {
        if n < 10 {
            assert(r@ =~= seq![digit(n as nat)]);
        }
    }
    r
}

/// The first `limit` words of `s`, with one space between each two.
pub fn first_words(s: &str, limit: usize) -> (r: String)
    ensures
        r@ == join(
            if words(s@).len() <= limit {
                words(s@)
            } else {
                words(s@).take(limit as int)
            },
            seq![' '],
        ),
{
    let c = chars_of(s);
    let mut parts: Vec<String> = Vec::new();
    let mut i: usize = 0;
    assert(c@.skip(0) =~= s@);
    assert(views(parts@) + words(s@) =~= words(s@));
    while i < c.len() && parts.len() < limit
        invariant
            i <= c@.len(),
            c@ == s@,
            parts@.len() <= limit,
            views(parts@) + words(c@.skip(i as int)) == words(s@),
        decreases c@.len() - i,
    {
        let ghost rest = c@.skip(i as int);
        if is_whitespace(c[i]) {
            assert(rest.drop_first() =~= c@.skip(i + 1));
            i += 1;
        } else {
            let mut j: usize = i;
            assert(c@.skip(i as int) =~= rest);
            while j < c.len() && !is_whitespace(c[j])
                invariant
                    i <= j <= c@.len(),
                    word_len(rest) == (j - i) + word_len(c@.skip(j as int)),
                decreases c@.len() - j,
            {
                assert(c@.skip(j as int).drop_first() =~= c@.skip(j + 1));
                j += 1;
            }
            let ghost before = parts@;
            let part = string_from(&c, i, j);
            parts.push(part);
            proof {
                assert(word_len(rest) == j - i);
                lemma_word_len(rest);
                assert(rest.take(j - i) =~= part@);
                assert(rest.skip(j - i) =~= c@.skip(j as int));
                assert(views(parts@) =~= views(before).push(part@));
                assert(views(parts@) + words(c@.skip(j as int)) =~= views(before) + (seq![part@]
                    + words(c@.skip(j as int))));
            }
            i = j;
        }
    }
    proof {
        reveal_strlit(" ");
        assert(" "@ =~= seq![' ']);
        let all = words(s@);
        if i == c@.len() {
            assert(words(c@.skip(i as int)) =~= Seq::<Seq<char>>::empty());
            assert(views(parts@) =~= all);
            assert(all.take(limit as int) =~= all || parts@.len() < limit);
        } else {
            assert(views(parts@) =~= all.take(limit as int));
            if all.len() <= limit {
                assert(all.take(limit as int) =~= all);
            }
        }
    }
    join_strings(&parts, " ")
}

/// `s` with its ASCII letters in lower case.
pub fn ascii_lower(s: &str) -> (r: String)
    ensures
        r@ == s@.map_values(|c: char| lower_char(c)),
{
    let c = chars_of(s);
    let mut r = String::new();
    let mut i: usize = 0;
    while i < c.len()
        invariant
            i <= c@.len(),
            c@ == s@,
            r@ == s@.take(i as int).map_values(|c: char| lower_char(c)),
        decreases c@.len() - i,
    {
        let ch = c[i];
        if 'A' <= ch && ch <= 'Z' {
            r.push((ch as u8 + 32) as char);
        } else {
            r.push(ch);
        }
        i += 1;
        assert(r@ =~= s@.take(i as int).map_values(|c: char| lower_char(c)));
    }
    assert(s@.take(i as int) =~= s@);
    r
}

/// `s` with its ASCII letters in upper case.
pub fn ascii_upper(s: &str) -> (r: String)
    ensures
        r@ == s@.map_values(|c: char| upper_char(c)),
{
    let c = chars_of(s);
    let mut r = String::new();
    let mut i: usize = 0;
    while i < c.len()
        invariant
            i <= c@.len(),
            c@ == s@,
            r@ == s@.take(i as int).map_values(|c: char| upper_char(c)),
        decreases c@.len() - i,
    {
        let ch = c[i];
        if 'a' <= ch && ch <= 'z' {
            r.push((ch as u8 - 32) as char);
        } else {
            r.push(ch);
        }
        i += 1;
        assert(r@ =~= s@.take(i as int).map_values(|c: char| upper_char(c)));
    }
    assert(s@.take(i as int) =~= s@);
    r
}

/// The parts without the white space at their ends; those with nothing else in
/// them are left out.
pub open spec fn non_blank(parts: Seq<Seq<char>>) -> Seq<Seq<char>>
    decreases parts.len(),
{
    if parts.len() == 0 {
        parts
    } else if trim(parts.last()).len() == 0 {
        non_blank(parts.drop_last())
    } else {
        non_blank(parts.drop_last()).push(trim(parts.last()))
    }
}

/// Each part that is kept is trimmed and not empty.
pub proof fn lemma_non_blank(parts: Seq<Seq<char>>)
    ensures
        forall|i: int|
            0 <= i < non_blank(parts).len() ==> (#[trigger] non_blank(parts)[i]).len() > 0
                && is_trimmed(non_blank(parts)[i]),
    decreases parts.len(),
{
    if parts.len() > 0 {
        let kept = non_blank(parts.drop_last());
        lemma_non_blank(parts.drop_last());
        lemma_trim(parts.last());
        assert forall|i: int| 0 <= i < non_blank(parts).len() implies (
        #[trigger] non_blank(parts)[i]).len() > 0 && is_trimmed(non_blank(parts)[i]) by {
            if i < kept.len() {
                assert(non_blank(parts)[i] == kept[i]);
            }
        }
    }
}

/// The pieces of `s` between the occurrences of `sep`, trimmed, without the blank
/// ones.
pub fn split_non_blank(s: &str, sep: &str) -> (r: Vec<String>)
    requires
        sep@.len() > 0,
    ensures
        views(r@) == non_blank(split_on(s@, sep@)),
{
    let c = chars_of(s);
    let mark = chars_of(sep);
    let pieces = split_chars(&c, &mark);
    let mut r: Vec<String> = Vec::new();
    let mut i: usize = 0;
    let ghost all = views(pieces@);
    while i < pieces.len()
        invariant
            i <= pieces@.len(),
            all == views(pieces@),
            views(r@) == non_blank(all.take(i as int)),
        decreases pieces@.len() - i,
    {
        let piece = &pieces[i];
        let (from, to) = trim_bounds(piece, 0, piece.len());
        proof {
            assert(piece@.subrange(0, piece@.len() as int) =~= piece@);
            assert(all.take(i + 1).drop_last() =~= all.take(i as int));
            assert(all.take(i + 1).last() == piece@);
        }
        if from < to {
            let ghost before = r@;
            let kept = string_from(piece, from, to);
            r.push(kept);
            assert(views(r@) =~= views(before).push(kept@));
        }
        i += 1;
    }
    assert(all.take(i as int) =~= all);
    r
}

/// The number of bytes of the UTF-8 form of `s`.
pub fn byte_len(s: &str) -> (r: usize)
    ensures
        r == utf8_len(s@),
{
    s.as_bytes().len()
}

/// The bytes of a text in two parts are those of the parts.
pub proof fn lemma_utf8_len_concat(a: Seq<char>, b: Seq<char>)
    ensures
        utf8_len(a + b) == utf8_len(a) + utf8_len(b),
    decreases a.len(),
{
    if a.len() == 0 {
        assert(a + b =~= b);
    } else {
        assert((a + b).drop_first() =~= a.drop_first() + b);
        lemma_utf8_len_concat(a.drop_first(), b);
    }
}

/// No character has more than four bytes.
pub proof fn lemma_utf8_len_bound(s: Seq<char>)
    ensures
        s.len() <= utf8_len(s) <= 4 * s.len(),
    decreases s.len(),
{
    if s.len() > 0 {
        lemma_utf8_len_bound(s.drop_first());
    }
}

/// A piece of a text has no more bytes than the text.
pub proof fn lemma_utf8_len_piece(s: Seq<char>, a: int, b: int)
    requires
        0 <= a <= b <= s.len(),
    ensures
        utf8_len(s.subrange(a, b)) <= utf8_len(s),
{
    assert(s =~= s.take(a) + (s.subrange(a, b) + s.skip(b)));
    lemma_utf8_len_concat(s.take(a), s.subrange(a, b) + s.skip(b));
    lemma_utf8_len_concat(s.subrange(a, b), s.skip(b));
}

/// A piece of `s` that is trimmed and not empty stands in `s` trimmed, too.
pub proof fn lemma_trim_keeps_piece(s: Seq<char>, piece: Seq<char>, i: int)
    requires
        occurs_at(s, piece, i),
        piece.len() > 0,
        is_trimmed(piece),
    ensures
        contains(trim(s), piece),
{
    lemma_trim(s);
    let (a, b) = choose|a: int, b: int|
        0 <= a <= b <= s.len() && trim(s) == #[trigger] s.subrange(a, b) && (forall|k: int|
            0 <= k < a || b <= k < s.len() ==> is_white(s[k]));
    assert(piece[0] == s.subrange(i, i + piece.len())[0]);
    assert(piece.last() == s.subrange(i, i + piece.len())[piece.len() - 1]);
    assert(!is_white(s[i]));
    assert(!is_white(s[i + piece.len() - 1]));
    assert(a <= i && i + piece.len() <= b);
    assert(trim(s).subrange(i - a, i - a + piece.len()) =~= s.subrange(i, i + piece.len()));
    assert(occurs_at(trim(s), piece, i - a));
}

/// Whether `s` is `t`.
pub fn same_text(s: &str, t: &str) -> (r: bool)
    ensures
        r == (s@ == t@),
{
    let c = chars_of(s);
    let d = chars_of(t);
    let r = c.len() == d.len() && stands_at(&c, &d, 0);
    proof {
        if c@.len() == d@.len() {
            assert(c@.subrange(0, d@.len() as int) =~= c@);
        }
    }
    r
}

/// All characters of `s` are white space.
pub open spec fn is_blank(s: Seq<char>) -> bool {
    forall|i: int| 0 <= i < s.len() ==> is_white(#[trigger] s[i])
}

/// What is left of a text by trimming is empty just where the text is blank.
pub proof fn lemma_blank(s: Seq<char>)
    ensures
        is_blank(s) <==> trim(s).len() == 0,
{
    lemma_trim(s);
    let (a, b) = choose|a: int, b: int|
        0 <= a <= b <= s.len() && trim(s) == #[trigger] s.subrange(a, b) && (forall|k: int|
            0 <= k < a || b <= k < s.len() ==> is_white(s[k]));
    if is_blank(s) && trim(s).len() > 0 {
        assert(trim(s)[0] == s[a]);
    }
}

/// A text in two parts is blank just where both are.
pub proof fn lemma_blank_concat(a: Seq<char>, b: Seq<char>)
    ensures
        is_blank(a + b) <==> is_blank(a) && is_blank(b),
{
    let s = a + b;
    if is_blank(s) {
        assert forall|i: int| 0 <= i < a.len() implies is_white(#[trigger] a[i]) by {
            assert(s[i] == a[i]);
        }
        assert forall|i: int| 0 <= i < b.len() implies is_white(#[trigger] b[i]) by {
            assert(s[a.len() + i] == b[i]);
        }
    }
}

/// Replacing white space by white space keeps whether a text is blank.
pub proof fn lemma_blank_replaced(s: Seq<char>, from: Seq<char>, to: Seq<char>)
    requires
        from.len() > 0,
        is_blank(from),
        is_blank(to),
    ensures
        is_blank(replaced(s, from, to)) <==> is_blank(s),
    decreases s.len(),
{
    lemma_index_from(s, from, 0);
    match index_of(s, from) {
        None => {
            assert(split_on(s, from) =~= seq![s]);
        },
        Some(i) => {
            let head = s.take(i);
            let tail = s.skip(i + from.len());
            let rest = split_on(tail, from);
            lemma_blank_replaced(tail, from, to);
            assert(rest.len() > 0);
            assert(split_on(s, from) == seq![head] + rest);
            assert((seq![head] + rest).drop_first() =~= rest);
            lemma_join_front(seq![head] + rest, to);
            lemma_blank_concat(head + to, join(rest, to));
            lemma_blank_concat(head, to);
            assert(s.subrange(i, i + from.len()) == from);
            assert(s =~= head + from + tail);
            lemma_blank_concat(head + from, tail);
            lemma_blank_concat(head, from);
        },
    }
}

/// `sep` first stands in `p` followed by `sep` right behind `p`.
pub open spec fn ends_first(p: Seq<char>, sep: Seq<char>) -> bool {
    forall|j: int| 0 <= j < p.len() ==> !#[trigger] occurs_at(p + sep, sep, j)
}

/// Joining the pieces of a text again gives the text.
pub proof fn lemma_join_split(s: Seq<char>, sep: Seq<char>)
    requires
        sep.len() > 0,
    ensures
        split_on(s, sep).len() > 0,
        join(split_on(s, sep), sep) == s,
    decreases s.len(),
{
    lemma_index_from(s, sep, 0);
    match index_of(s, sep) {
        None => {},
        Some(i) => {
            let head = s.take(i);
            let tail = s.skip(i + sep.len());
            let rest = split_on(tail, sep);
            lemma_join_split(tail, sep);
            assert((seq![head] + rest).drop_first() =~= rest);
            lemma_join_front(seq![head] + rest, sep);
            assert(s.subrange(i, i + sep.len()) == sep);
            assert(s =~= head + sep + tail);
        },
    }
}

/// No piece of a text holds what it was split at.
pub proof fn lemma_split_free(s: Seq<char>, sep: Seq<char>, k: int)
    requires
        sep.len() > 0,
        0 <= k < split_on(s, sep).len(),
    ensures
        !contains(split_on(s, sep)[k], sep),
    decreases s.len(),
{
    lemma_index_from(s, sep, 0);
    match index_of(s, sep) {
        None => {
            assert(split_on(s, sep)[k] == s);
        },
        Some(i) => {
            let head = s.take(i);
            let tail = s.skip(i + sep.len());
            if k == 0 {
                if contains(head, sep) {
                    let j = choose|j: int| occurs_at(head, sep, j);
                    assert(s.subrange(j, j + sep.len()) =~= head.subrange(j, j + sep.len()));
                    assert(occurs_at(s, sep, j));
                }
            } else {
                lemma_split_free(tail, sep, k - 1);
                assert(split_on(s, sep)[k] == split_on(tail, sep)[k - 1]);
            }
        },
    }
}

/// Splitting a text that was joined gives its parts again, where the separator does not
/// show up earlier than it was put in.
pub proof fn lemma_split_join(parts: Seq<Seq<char>>, sep: Seq<char>)
    requires
        parts.len() > 0,
        sep.len() > 0,
        forall|i: int| 0 <= i < parts.len() ==> ends_first(#[trigger] parts[i], sep),
    ensures
        split_on(join(parts, sep), sep) == parts,
    decreases parts.len(),
{
    let p = parts[0];
    let s = join(parts, sep);
    assert(ends_first(p, sep));
    lemma_index_from(s, sep, 0);
    if parts.len() == 1 {
        if index_of(s, sep) is Some {
            let j = index_of(s, sep)->0;
            assert((p + sep).subrange(j, j + sep.len()) =~= s.subrange(j, j + sep.len()));
            assert(occurs_at(p + sep, sep, j));
        }
        assert(split_on(s, sep) =~= parts);
    } else {
        let rest = parts.drop_first();
        let tail = join(rest, sep);
        lemma_join_front(parts, sep);
        assert forall|i: int| 0 <= i < rest.len() implies ends_first(#[trigger] rest[i], sep) by {
            assert(rest[i] == parts[i + 1]);
        }
        lemma_split_join(rest, sep);
        let n = p.len() as int;
        assert(s.subrange(n, n + sep.len()) =~= sep);
        assert(occurs_at(s, sep, n));
        let j = index_of(s, sep)->0;
        if j < n {
            assert((p + sep).subrange(j, j + sep.len()) =~= s.subrange(j, j + sep.len()));
            assert(occurs_at(p + sep, sep, j));
        }
        assert(s.take(n) =~= p);
        assert(s.skip(n + sep.len()) =~= tail);
        assert(split_on(s, sep) =~= seq![p] + rest);
        assert(seq![p] + rest =~= parts);
    }
}

/// A text in which `from` does not stand is not changed by replacing it.
pub proof fn lemma_replaced_none(s: Seq<char>, from: Seq<char>, to: Seq<char>)
    requires
        from.len() > 0,
        !contains(s, from),
    ensures
        replaced(s, from, to) == s,
{
    lemma_index_from(s, from, 0);
    assert(index_of(s, from) is None);
    assert(split_on(s, from) =~= seq![s]);
}

/// The parts that are kept are the trimmed parts.
pub proof fn lemma_non_blank_from(parts: Seq<Seq<char>>, k: int)
    requires
        0 <= k < non_blank(parts).len(),
    ensures
        exists|i: int|
            0 <= i < parts.len() && non_blank(parts)[k] == trim(#[trigger] parts[i]),
    decreases parts.len(),
{
    let body = parts.drop_last();
    if k < non_blank(body).len() {
        lemma_non_blank_from(body, k);
        let i = choose|i: int| 0 <= i < body.len() && non_blank(body)[k] == trim(#[trigger] body[i]);
        assert(parts[i] == body[i]);
    } else {
        assert(non_blank(parts)[k] == trim(parts[parts.len() - 1]));
    }
}

/// Parts that are trimmed and not empty are all kept as they are.
pub proof fn lemma_non_blank_solid(parts: Seq<Seq<char>>)
    requires
        forall|i: int|
            0 <= i < parts.len() ==> (#[trigger] parts[i]).len() > 0 && is_trimmed(parts[i]),
    ensures
        non_blank(parts) == parts,
    decreases parts.len(),
{
    if parts.len() > 0 {
        let body = parts.drop_last();
        assert forall|i: int| 0 <= i < body.len() implies (#[trigger] body[i]).len() > 0
            && is_trimmed(body[i]) by {
            assert(body[i] == parts[i]);
        }
        lemma_non_blank_solid(body);
        assert(parts.last() == parts[parts.len() - 1]);
        lemma_trim_fixed(parts.last());
        assert(body.push(parts.last()) =~= parts);
    }
}

/// A piece of a text holds nothing that the text does not hold.
pub proof fn lemma_piece_free(s: Seq<char>, a: int, b: int, pat: Seq<char>)
    requires
        0 <= a <= b <= s.len(),
        !contains(s, pat),
    ensures
        !contains(s.subrange(a, b), pat),
{
    let piece = s.subrange(a, b);
    if contains(piece, pat) {
        let j = choose|j: int| occurs_at(piece, pat, j);
        assert(s.subrange(a + j, a + j + pat.len()) =~= piece.subrange(j, j + pat.len()));
        assert(occurs_at(s, pat, a + j));
    }
}

/// The pieces of a blank text are blank, so none of them is kept.
pub proof fn lemma_blank_pieces(s: Seq<char>, sep: Seq<char>)
    requires
        sep.len() > 0,
        is_blank(s),
    ensures
        non_blank(split_on(s, sep)).len() == 0,
{
    let parts = split_on(s, sep);
    assert forall|i: int| 0 <= i < parts.len() implies is_blank(#[trigger] parts[i]) by {
        lemma_blank_piece(s, sep, i);
    }
    lemma_non_blank_none(parts);
}

/// A piece of a blank text is blank.
proof fn lemma_blank_piece(s: Seq<char>, sep: Seq<char>, k: int)
    requires
        sep.len() > 0,
        is_blank(s),
        0 <= k < split_on(s, sep).len(),
    ensures
        is_blank(split_on(s, sep)[k]),
    decreases s.len(),
{
    lemma_index_from(s, sep, 0);
    match index_of(s, sep) {
        None => {},
        Some(i) => {
            let tail = s.skip(i + sep.len());
            assert(s =~= s.take(i) + s.skip(i));
            lemma_blank_concat(s.take(i), s.skip(i));
            assert(s =~= s.take(i + sep.len()) + tail);
            lemma_blank_concat(s.take(i + sep.len()), tail);
            if k > 0 {
                lemma_blank_piece(tail, sep, k - 1);
                assert(split_on(s, sep)[k] == split_on(tail, sep)[k - 1]);
            }
        },
    }
}

/// None of some blank parts is kept.
proof fn lemma_non_blank_none(parts: Seq<Seq<char>>)
    requires
        forall|i: int| 0 <= i < parts.len() ==> is_blank(#[trigger] parts[i]),
    ensures
        non_blank(parts).len() == 0,
    decreases parts.len(),
{
    if parts.len() > 0 {
        let body = parts.drop_last();
        assert forall|i: int| 0 <= i < body.len() implies is_blank(#[trigger] body[i]) by {
            assert(body[i] == parts[i]);
        }
        assert(is_blank(parts[parts.len() - 1]));
        lemma_blank(parts.last());
        lemma_non_blank_none(body);
    }
}

/// White space at the start of a text goes when it is trimmed there.
proof fn lemma_trim_start_blank(a: Seq<char>, s: Seq<char>)
    requires
        is_blank(a),
    ensures
        trim_start(a + s) == trim_start(s),
    decreases a.len(),
{
    if a.len() == 0 {
        assert(a + s =~= s);
    } else {
        let t = a.drop_first();
        assert forall|i: int| 0 <= i < t.len() implies is_white(#[trigger] t[i]) by {
            assert(t[i] == a[i + 1]);
        }
        assert((a + s)[0] == a[0]);
        assert((a + s).drop_first() =~= t + s);
        lemma_trim_start_blank(t, s);
    }
}

/// White space at the end of a text goes when it is trimmed there.
proof fn lemma_trim_end_blank(s: Seq<char>, b: Seq<char>)
    requires
        is_blank(b),
    ensures
        trim_end(s + b) == trim_end(s),
    decreases b.len(),
{
    if b.len() == 0 {
        assert(s + b =~= s);
    } else {
        let t = b.drop_last();
        assert forall|i: int| 0 <= i < t.len() implies is_white(#[trigger] t[i]) by {
            assert(t[i] == b[i]);
        }
        assert((s + b).last() == b[b.len() - 1]);
        assert((s + b).drop_last() =~= s + t);
        lemma_trim_end_blank(s, t);
    }
}

/// Trimming at the end stops at a character that is not white space.
pub proof fn lemma_trim_end_behind(head: Seq<char>, t: Seq<char>)
    requires
        head.len() > 0,
        !is_white(head.last()),
    ensures
        trim_end(head + t) == head + trim_end(t),
    decreases t.len(),
{
    if t.len() == 0 {
        assert(head + t =~= head);
        assert(head + trim_end(t) =~= head);
    } else if is_white(t.last()) {
        assert((head + t).drop_last() =~= head + t.drop_last());
        lemma_trim_end_behind(head, t.drop_last());
    }
}

/// Whatever white space stands around a text, trimming gives the same, and the text itself
/// where it has none at its ends.
pub proof fn white_space_around_is_trimmed(before: Seq<char>, s: Seq<char>, behind: Seq<char>)
    requires
        is_blank(before),
        is_blank(behind),
    ensures
        trim(before + s + behind) == trim(s),
        is_trimmed(s) ==> trim(before + s + behind) == s,
{
    assert(before + s + behind =~= before + (s + behind));
    lemma_trim_start_blank(before, s + behind);
    if is_blank(s) {
        lemma_blank_concat(s, behind);
        lemma_blank_concat(before, s + behind);
        lemma_blank(s);
        lemma_blank(before + s + behind);
        assert(trim(s) =~= Seq::<char>::empty());
        assert(trim(before + s + behind) =~= Seq::<char>::empty());
    } else {
        lemma_trim_start_keeps_end(s, behind);
        lemma_trim_end_blank(trim_start(s), behind);
    }
    if is_trimmed(s) {
        lemma_trim_fixed(s);
    }
}

/// Trimming at the start does not touch what follows a text that is not blank.
proof fn lemma_trim_start_keeps_end(s: Seq<char>, b: Seq<char>)
    requires
        !is_blank(s),
    ensures
        trim_start(s + b) == trim_start(s) + b,
    decreases s.len(),
{
    assert(s.len() > 0);
    assert((s + b)[0] == s[0]);
    if is_white(s[0]) {
        let t = s.drop_first();
        assert((s + b).drop_first() =~= t + b);
        if is_blank(t) {
            assert forall|i: int| 0 <= i < s.len() implies is_white(#[trigger] s[i]) by {
                if i > 0 {
                    assert(s[i] == t[i - 1]);
                }
            }
        }
        lemma_trim_start_keeps_end(t, b);
    }
}

/// Among the ASCII characters, white space are the space and the five control characters
/// from the tab to the carriage return.
pub proof fn ascii_white_space(c: char)
    requires
        (c as u32) < 128,
    ensures
        is_white(c) <==> c == ' ' || c == '\t' || c == '\n' || c == '\u{b}' || c == '\u{c}' || c
            == '\r',
{
}

/// Two lists are joined by joining each, with the separator between them; one part alone
/// is itself.
pub proof fn joining_is_by_parts(a: Seq<Seq<char>>, b: Seq<Seq<char>>, sep: Seq<char>)
    ensures
        a.len() > 0 && b.len() > 0 ==> join(a + b, sep) == join(a, sep) + sep + join(b, sep),
        a.len() == 1 ==> join(a, sep) == a[0],
        a.len() == 0 ==> join(a, sep) == Seq::<char>::empty(),
    decreases b.len(),
{
    if a.len() > 0 && b.len() > 0 {
        let body = b.drop_last();
        assert((a + b).drop_last() =~= a + body);
        assert((a + b).last() == b.last());
        joining_is_by_parts(a, body, sep);
        if body.len() == 0 {
            assert(a + body =~= a);
            assert(b.last() == b[0]);
        }
        assert(join(a + b, sep) =~= join(a, sep) + sep + join(b, sep));
    }
}

/// Of parts that are not blank all are kept, trimmed and at their places.
pub proof fn lemma_non_blank_all(parts: Seq<Seq<char>>)
    requires
        forall|i: int| 0 <= i < parts.len() ==> !is_blank(#[trigger] parts[i]),
    ensures
        non_blank(parts).len() == parts.len(),
        forall|i: int|
            0 <= i < parts.len() ==> #[trigger] non_blank(parts)[i] == trim(parts[i]),
    decreases parts.len(),
{
    if parts.len() > 0 {
        let body = parts.drop_last();
        assert forall|i: int| 0 <= i < body.len() implies !is_blank(#[trigger] body[i]) by {
            assert(body[i] == parts[i]);
        }
        lemma_non_blank_all(body);
        assert(!is_blank(parts[parts.len() - 1]));
        lemma_blank(parts.last());
        assert forall|i: int| 0 <= i < parts.len() implies #[trigger] non_blank(parts)[i] == trim(
            parts[i],
        ) by {
            if i < body.len() {
                assert(non_blank(parts)[i] == non_blank(body)[i]);
                assert(body[i] == parts[i]);
            }
        }
    }
}

/// A part that is not blank is kept.
pub proof fn lemma_non_blank_holds(parts: Seq<Seq<char>>, i: int)
    requires
        0 <= i < parts.len(),
        !is_blank(parts[i]),
    ensures
        exists|k: int|
            0 <= k < non_blank(parts).len() && #[trigger] non_blank(parts)[k] == trim(parts[i]),
    decreases parts.len(),
{
    let body = parts.drop_last();
    if i < body.len() {
        assert(body[i] == parts[i]);
        lemma_non_blank_holds(body, i);
        let k = choose|k: int|
            0 <= k < non_blank(body).len() && #[trigger] non_blank(body)[k] == trim(body[i]);
        assert(non_blank(parts)[k] == trim(parts[i]));
    } else {
        lemma_blank(parts.last());
        assert(non_blank(parts)[non_blank(body).len() as int] == trim(parts[i]));
    }
}

/// Lines in which no line end stands are those of the text in which each two have one
/// between them.
pub proof fn lemma_split_lines(lines: Seq<Seq<char>>)
    requires
        lines.len() > 0,
        forall|i: int| 0 <= i < lines.len() ==> !(#[trigger] lines[i]).contains('\n'),
    ensures
        split_on(join(lines, "\n"@), "\n"@) == lines,
{
    reveal_strlit("\n");
    assert forall|i: int| 0 <= i < lines.len() implies ends_first(#[trigger] lines[i], "\n"@) by {
        let p = lines[i];
        assert forall|j: int| 0 <= j < p.len() implies !#[trigger] occurs_at(
            p + "\n"@,
            "\n"@,
            j,
        ) by {
            assert((p + "\n"@).subrange(j, j + 1)[0] == p[j]);
            assert(p.contains(p[j]));
        }
    }
    lemma_split_join(lines, "\n"@);
}

/// The bytes of two texts in one are those of the first and then those of the second.
pub proof fn lemma_encode_concat(a: Seq<char>, b: Seq<char>)
    ensures
        encode_utf8(a + b) == encode_utf8(a) + encode_utf8(b),
    decreases a.len(),
{
    if a.len() == 0 {
        assert(a + b =~= b);
        assert(encode_utf8(a) + encode_utf8(b) =~= encode_utf8(b));
    } else {
        assert((a + b).drop_first() =~= a.drop_first() + b);
        assert((a + b)[0] == a[0]);
        lemma_encode_concat(a.drop_first(), b);
        assert(encode_utf8(a + b) =~= encode_utf8(a) + encode_utf8(b));
    }
}

/// The number that some digits stand for.
pub open spec fn digits_value(s: Seq<char>) -> nat
    decreases s.len(),
{
    if s.len() == 0 {
        0
    } else {
        digits_value(s.drop_last()) * 10 + (s.last() as u32 - '0' as u32) as nat
    }
}

/// A number in decimal is made of the digits from 0 to 9, reads as the number again, and
/// starts with 0 only where it is 0.
pub proof fn decimals_read_back(n: nat)
    ensures
        digits_value(decimal(n)) == n,
        decimal(n).len() > 0,
        forall|i: int| 0 <= i < decimal(n).len() ==> '0' <= #[trigger] decimal(n)[i] <= '9',
        decimal(n)[0] == '0' ==> n == 0,
    decreases n,
{
    let s = decimal(n);
    if n < 10 {
        assert(s.drop_last() =~= Seq::<char>::empty());
        assert(digits_value(s.drop_last()) == 0);
        assert(s.last() as u32 == 48 + n);
    } else {
        decimals_read_back(n / 10);
        assert(s.drop_last() =~= decimal(n / 10));
        assert(s.last() as u32 == 48 + n % 10);
        assert(s[0] == decimal(n / 10)[0]);
        assert forall|i: int| 0 <= i < s.len() implies '0' <= #[trigger] s[i] <= '9' by {
            if i < s.len() - 1 {
                assert(s[i] == decimal(n / 10)[i]);
            }
        }
    }
}

/// A word: a text without white space that is not empty.
pub open spec fn is_word(w: Seq<char>) -> bool {
    w.len() > 0 && forall|i: int| 0 <= i < w.len() ==> !is_white(#[trigger] w[i])
}

/// Words, each behind the white space that stands before it.
pub open spec fn spaced_out(gaps: Seq<Seq<char>>, list: Seq<Seq<char>>) -> Seq<char>
    decreases list.len(),
{
    if list.len() == 0 || gaps.len() == 0 {
        Seq::empty()
    } else {
        gaps[0] + list[0] + spaced_out(gaps.drop_first(), list.drop_first())
    }
}

/// White space before a text has no words.
proof fn lemma_words_blank(a: Seq<char>, s: Seq<char>)
    requires
        is_blank(a),
    ensures
        words(a + s) == words(s),
    decreases a.len(),
{
    if a.len() == 0 {
        assert(a + s =~= s);
    } else {
        let t = a.drop_first();
        assert forall|i: int| 0 <= i < t.len() implies is_white(#[trigger] t[i]) by {
            assert(t[i] == a[i + 1]);
        }
        assert((a + s)[0] == a[0]);
        assert((a + s).drop_first() =~= t + s);
        lemma_words_blank(t, s);
    }
}

/// A word ends before white space, or with the text.
proof fn lemma_word_len_is(w: Seq<char>, s: Seq<char>)
    requires
        forall|i: int| 0 <= i < w.len() ==> !is_white(#[trigger] w[i]),
        s.len() > 0 ==> is_white(s[0]),
    ensures
        word_len(w + s) == w.len(),
    decreases w.len(),
{
    if w.len() == 0 {
        assert(w + s =~= s);
    } else {
        let t = w.drop_first();
        assert((w + s)[0] == w[0]);
        assert((w + s).drop_first() =~= t + s);
        assert forall|i: int| 0 <= i < t.len() implies !is_white(#[trigger] t[i]) by {
            assert(t[i] == w[i + 1]);
        }
        lemma_word_len_is(t, s);
    }
}

/// Words are found again in a text, whatever white space stands between them and around
/// them.
pub proof fn spaced_out_words_are_found(
    gaps: Seq<Seq<char>>,
    list: Seq<Seq<char>>,
    end: Seq<char>,
)
    requires
        gaps.len() == list.len(),
        forall|i: int| 0 <= i < list.len() ==> is_word(#[trigger] list[i]),
        forall|i: int| 0 <= i < gaps.len() ==> is_blank(#[trigger] gaps[i]),
        forall|i: int| 1 <= i < gaps.len() ==> (#[trigger] gaps[i]).len() > 0,
        is_blank(end),
    ensures
        words(spaced_out(gaps, list) + end) == list,
    decreases list.len(),
{
    let s = spaced_out(gaps, list) + end;
    if list.len() == 0 {
        assert(s =~= end);
        assert(end + Seq::<char>::empty() =~= end);
        lemma_words_blank(end, Seq::empty());
        assert(words(s) =~= list);
    } else {
        let g = gaps[0];
        let w = list[0];
        let gaps2 = gaps.drop_first();
        let list2 = list.drop_first();
        let tail = spaced_out(gaps2, list2) + end;
        assert(is_word(w));
        assert(s =~= g + (w + tail));
        lemma_words_blank(g, w + tail);
        if tail.len() > 0 {
            if list2.len() > 0 {
                assert(gaps2[0] == gaps[1]);
                assert(tail[0] == gaps[1][0]);
            } else {
                assert(tail =~= end);
            }
        }
        lemma_word_len_is(w, tail);
        assert((w + tail)[0] == w[0]);
        assert((w + tail).take(w.len() as int) =~= w);
        assert((w + tail).skip(w.len() as int) =~= tail);
        assert forall|i: int| 0 <= i < list2.len() implies is_word(#[trigger] list2[i]) by {
            assert(list2[i] == list[i + 1]);
        }
        assert forall|i: int| 0 <= i < gaps2.len() implies is_blank(#[trigger] gaps2[i]) by {
            assert(gaps2[i] == gaps[i + 1]);
        }
        assert forall|i: int| 1 <= i < gaps2.len() implies (#[trigger] gaps2[i]).len() > 0 by {
            assert(gaps2[i] == gaps[i + 1]);
        }
        spaced_out_words_are_found(gaps2, list2, end);
        assert(words(s) =~= list);
    }
}

/// Replacing goes from the left to the right: what stands before the first occurrence is
/// kept, the occurrence is replaced, and the rest is gone through in the same way.
pub proof fn replacing_goes_on(head: Seq<char>, from: Seq<char>, tail: Seq<char>, to: Seq<char>)
    requires
        from.len() > 0,
        ends_first(head, from),
    ensures
        replaced(head + from + tail, from, to) == head + to + replaced(tail, from, to),
        replaced(head, from, to) == head,
{
    let s = head + from + tail;
    let n = head.len() as int;
    lemma_index_from(s, from, 0);
    assert(s.subrange(n, n + from.len()) =~= from);
    assert(occurs_at(s, from, n));
    assert forall|j: int| 0 <= j < n implies !occurs_at(s, from, j) by {
        if occurs_at(s, from, j) {
            assert((head + from).subrange(j, j + from.len()) =~= s.subrange(j, j + from.len()));
            assert(occurs_at(head + from, from, j));
        }
    }
    assert(index_of(s, from) == Some(n));
    assert(s.take(n) =~= head);
    assert(s.skip(n + from.len()) =~= tail);
    let rest = split_on(tail, from);
    lemma_join_split(tail, from);
    assert(split_on(s, from) == seq![head] + rest);
    joining_is_by_parts(seq![head], rest, to);
    if contains(head, from) {
        let j = choose|j: int| occurs_at(head, from, j);
        assert((head + from).subrange(j, j + from.len()) =~= head.subrange(j, j + from.len()));
        assert(occurs_at(head + from, from, j));
    }
    lemma_replaced_none(head, from, to);
}

/// A capital letter is put in lower case as the letter of the same place in the alphabet, and
/// the other way round; every other character is kept.
pub proof fn letters_keep_their_place(k: int, c: char)
    requires
        0 <= k < 26,
        !"ABCDEFGHIJKLMNOPQRSTUVWXYZ"@.contains(c),
    ensures
        lower_char("ABCDEFGHIJKLMNOPQRSTUVWXYZ"@[k]) == "abcdefghijklmnopqrstuvwxyz"@[k],
        upper_char("abcdefghijklmnopqrstuvwxyz"@[k]) == "ABCDEFGHIJKLMNOPQRSTUVWXYZ"@[k],
        lower_char(c) == c,
        !"abcdefghijklmnopqrstuvwxyz"@.contains(c) ==> upper_char(c) == c,
        upper_char("ABCDEFGHIJKLMNOPQRSTUVWXYZ"@[k]) == "ABCDEFGHIJKLMNOPQRSTUVWXYZ"@[k],
{
    reveal_strlit("ABCDEFGHIJKLMNOPQRSTUVWXYZ");
    reveal_strlit("abcdefghijklmnopqrstuvwxyz");
    let upper = "ABCDEFGHIJKLMNOPQRSTUVWXYZ"@;
    let lower = "abcdefghijklmnopqrstuvwxyz"@;
    assert forall|j: int| 0 <= j < 26 implies (#[trigger] upper[j]) as u32 == 65 + j by {}
    assert forall|j: int| 0 <= j < 26 implies (#[trigger] lower[j]) as u32 == 97 + j by {}
    if 'A' <= c <= 'Z' {
        let j = c as u32 - 65;
        assert(upper[j] as u32 == c as u32);
        assert(upper[j] == c);
        assert(upper.contains(c));
    }
    if 'a' <= c <= 'z' {
        let j = c as u32 - 97;
        assert(lower[j] as u32 == c as u32);
        assert(lower[j] == c);
        assert(lower.contains(c));
    }
    assert((upper[k] as u32 + 32) as char == lower[k]);
    assert((lower[k] as u32 - 32) as char == upper[k]);
}

/// How the words of a text change with one more character.
pub proof fn lemma_words_push(s: Seq<char>, c: char)
    ensures
        is_white(c) ==> words(s.push(c)) == words(s),
        !is_white(c) && (s.len() == 0 || is_white(s.last())) ==> words(s.push(c)) == words(s).push(
            seq![c],
        ),
        !is_white(c) && s.len() > 0 && !is_white(s.last()) ==> words(s).len() > 0 && words(
            s.push(c),
        ) == words(s).drop_last().push(words(s).last().push(c)),
    decreases s.len(),
{
    let t = s.push(c);
    if s.len() == 0 {
        assert(t.drop_first() =~= s);
        if !is_white(c) {
            assert(t =~= seq![c] + Seq::<char>::empty());
            lemma_word_len_is(seq![c], Seq::empty());
            assert(t.take(1) =~= seq![c]);
            assert(t.skip(1) =~= Seq::<char>::empty());
            assert(words(t) =~= words(s).push(seq![c]));
        }
    } else if is_white(s[0]) {
        let u = s.drop_first();
        assert(t[0] == s[0]);
        assert(t.drop_first() =~= u.push(c));
        lemma_words_push(u, c);
        if u.len() > 0 {
            assert(u.last() == s.last());
        }
    } else {
        lemma_word_len(s);
        let n = word_len(s) as int;
        let w = s.take(n);
        let rest = s.skip(n);
        assert(s =~= w + rest);
        assert(t[0] == s[0]);
        if rest.len() == 0 {
            assert(w =~= s);
            assert(words(rest) =~= Seq::<Seq<char>>::empty());
            assert(words(s) =~= seq![s]);
            if is_white(c) {
                assert(t =~= s + seq![c]);
                lemma_word_len_is(s, seq![c]);
                assert(t.take(n) =~= s);
                assert(t.skip(n) =~= seq![c]);
                assert(seq![c].drop_first() =~= Seq::<char>::empty());
                assert(words(seq![c].drop_first()) =~= Seq::<Seq<char>>::empty());
                assert(words(seq![c]) =~= Seq::<Seq<char>>::empty());
                assert(words(t) =~= seq![s]);
            } else {
                assert(s.last() == w[n - 1]);
                assert(t =~= t + Seq::<char>::empty());
                assert forall|i: int| 0 <= i < t.len() implies !is_white(#[trigger] t[i]) by {
                    if i < n {
                        assert(t[i] == s[i]);
                    }
                }
                lemma_word_len_is(t, Seq::empty());
                assert(t.take(t.len() as int) =~= t);
                assert(t.skip(t.len() as int) =~= Seq::<char>::empty());
                assert(words(t.skip(t.len() as int)) =~= Seq::<Seq<char>>::empty());
                assert(word_len(t) == t.len());
                assert(words(t) == seq![t.take(t.len() as int)] + words(t.skip(t.len() as int)));
                assert(words(t) =~= seq![t]);
                assert(words(s).drop_last().push(words(s).last().push(c)) =~= seq![t]);
            }
        } else {
            let more = rest.push(c);
            assert(t =~= w + more);
            assert(more[0] == rest[0]);
            assert(rest[0] == s[n]);
            lemma_word_len_is(w, more);
            assert(t.take(n) =~= w);
            assert(t.skip(n) =~= more);
            lemma_words_push(rest, c);
            assert(rest.last() == s.last());
            assert(words(t) == seq![w] + words(more));
            assert(words(s) == seq![w] + words(rest));
            if is_white(c) {
            } else if is_white(s.last()) {
                assert(words(t) =~= words(s).push(seq![c]));
            } else {
                assert(words(t) =~= words(s).drop_last().push(words(s).last().push(c)));
            }
        }
    }
}

/// The words of a text depend on those of its start and on whether that ends in a word.
proof fn lemma_words_push_same(s: Seq<char>, t: Seq<char>, c: char)
    requires
        words(s) == words(t),
        (s.len() == 0 || is_white(s.last())) == (t.len() == 0 || is_white(t.last())),
    ensures
        words(s.push(c)) == words(t.push(c)),
{
    lemma_words_push(s, c);
    lemma_words_push(t, c);
}

/// White space between two texts parts their words.
pub proof fn lemma_words_parted(a: Seq<char>, gap: Seq<char>, b: Seq<char>)
    requires
        is_blank(gap),
        gap.len() > 0,
    ensures
        words(a + gap + b) == words(a) + words(b),
    decreases b.len(),
{
    if b.len() == 0 {
        assert(a + gap + b =~= a + gap);
        lemma_words_gap(a, gap);
        assert(words(b) =~= Seq::<Seq<char>>::empty());
        assert(words(a) + words(b) =~= words(a));
    } else {
        let body = b.drop_last();
        let c = b.last();
        let s = a + gap + body;
        assert(a + gap + b =~= s.push(c));
        assert(b =~= body.push(c));
        lemma_words_parted(a, gap, body);
        lemma_words_push(s, c);
        lemma_words_push(body, c);
        if body.len() == 0 {
            assert(s.last() == gap[gap.len() - 1]);
        } else {
            assert(s.last() == body.last());
        }
        if is_white(c) {
        } else if body.len() == 0 || is_white(body.last()) {
            assert(words(s.push(c)) =~= words(a) + words(b));
        } else {
            assert(words(s.push(c)) =~= words(a) + words(b));
        }
    }
}

/// White space behind a text has no words.
proof fn lemma_words_gap(a: Seq<char>, gap: Seq<char>)
    requires
        is_blank(gap),
    ensures
        words(a + gap) == words(a),
    decreases gap.len(),
{
    if gap.len() == 0 {
        assert(a + gap =~= a);
    } else {
        let body = gap.drop_last();
        assert forall|i: int| 0 <= i < body.len() implies is_white(#[trigger] body[i]) by {
            assert(body[i] == gap[i]);
        }
        lemma_words_gap(a, body);
        assert(a + gap =~= (a + body).push(gap[gap.len() - 1]));
        lemma_words_push(a + body, gap[gap.len() - 1]);
    }
}

/// Trimming takes no word away.
pub proof fn lemma_words_trim(s: Seq<char>)
    ensures
        words(trim(s)) == words(s),
{
    lemma_trim(s);
    let (a, b) = choose|a: int, b: int|
        0 <= a <= b <= s.len() && trim(s) == #[trigger] s.subrange(a, b) && (forall|i: int|
            0 <= i < a || b <= i < s.len() ==> is_white(s[i]));
    let t = s.subrange(a, b);
    assert(s =~= s.take(a) + (t + s.skip(b)));
    lemma_words_blank(s.take(a), t + s.skip(b));
    lemma_words_gap(t, s.skip(b));
}

/// Replacing white space by white space takes no word away and adds none.
pub proof fn lemma_words_replaced(s: Seq<char>, from: Seq<char>, to: Seq<char>)
    requires
        from.len() > 0,
        to.len() > 0,
        is_blank(from),
        is_blank(to),
    ensures
        words(replaced(s, from, to)) == words(s),
    decreases s.len(),
{
    lemma_index_from(s, from, 0);
    match index_of(s, from) {
        None => {
            assert(split_on(s, from) =~= seq![s]);
        },
        Some(i) => {
            let head = s.take(i);
            let tail = s.skip(i + from.len());
            let rest = split_on(tail, from);
            lemma_words_replaced(tail, from, to);
            lemma_join_split(tail, from);
            assert(split_on(s, from) == seq![head] + rest);
            joining_is_by_parts(seq![head], rest, to);
            assert(s.subrange(i, i + from.len()) == from);
            assert(s =~= head + from + tail);
            lemma_words_parted(head, from, tail);
            lemma_words_parted(head, to, join(rest, to));
        },
    }
}

/// Beyond ASCII, white space are the next line, the no-break space and the spaces and
/// separators of Unicode.
pub proof fn other_white_space(c: char)
    requires
        (c as u32) >= 128,
    ensures
        is_white(c) <==> "\u{85}\u{a0}\u{1680}\u{2000}\u{2001}\u{2002}\u{2003}\u{2004}\u{2005}\u{2006}\u{2007}\u{2008}\u{2009}\u{200a}\u{2028}\u{2029}\u{202f}\u{205f}\u{3000}"@.contains(
            c,
        ),
{
    reveal_strlit("\u{85}\u{a0}\u{1680}\u{2000}\u{2001}\u{2002}\u{2003}\u{2004}\u{2005}\u{2006}\u{2007}\u{2008}\u{2009}\u{200a}\u{2028}\u{2029}\u{202f}\u{205f}\u{3000}");
    let list = "\u{85}\u{a0}\u{1680}\u{2000}\u{2001}\u{2002}\u{2003}\u{2004}\u{2005}\u{2006}\u{2007}\u{2008}\u{2009}\u{200a}\u{2028}\u{2029}\u{202f}\u{205f}\u{3000}"@;
    assert(list[0] == '\u{85}' && list[1] == '\u{a0}' && list[2] == '\u{1680}');
    assert(list[3] == '\u{2000}' && list[4] == '\u{2001}' && list[5] == '\u{2002}');
    assert(list[6] == '\u{2003}' && list[7] == '\u{2004}' && list[8] == '\u{2005}');
    assert(list[9] == '\u{2006}' && list[10] == '\u{2007}' && list[11] == '\u{2008}');
    assert(list[12] == '\u{2009}' && list[13] == '\u{200a}' && list[14] == '\u{2028}');
    assert(list[15] == '\u{2029}' && list[16] == '\u{202f}' && list[17] == '\u{205f}');
    assert(list[18] == '\u{3000}');
}

} // verus!
