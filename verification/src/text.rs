//! Character-level text primitives: conversion between strings and character
//! vectors, literal search, whitespace, trimming and line counting.
//!
//! Every specification in this crate speaks of a text as a `Seq<char>`, the
//! view of a `str` or `String`.
use vstd::prelude::*;
use vstd::string::StringSliceAdditionalSpecFns;

verus! {

/// The characters with the Unicode `White_Space` property.
pub open spec fn is_space(c: char) -> bool {
    let u = c as u32;
    ||| 0x09 <= u <= 0x0D
    ||| u == 0x20
    ||| u == 0x85
    ||| u == 0xA0
    ||| u == 0x1680
    ||| 0x2000 <= u <= 0x200A
    ||| u == 0x2028
    ||| u == 0x2029
    ||| u == 0x202F
    ||| u == 0x205F
    ||| u == 0x3000
}

/// Whether `c` is a whitespace character.
pub fn is_space_char(c: char) -> (r: bool)
    ensures
        r == is_space(c),
{
    let u: u32 = c as u32;
    (0x09 <= u && u <= 0x0D) || u == 0x20 || u == 0x85 || u == 0xA0 || u == 0x1680 || (0x2000 <= u
        && u <= 0x200A) || u == 0x2028 || u == 0x2029 || u == 0x202F || u == 0x205F || u == 0x3000
}

/// The views of a sequence of strings.
pub open spec fn views(v: Seq<String>) -> Seq<Seq<char>> {
    Seq::new(v.len(), |i: int| v[i]@)
}

/// The views of an optional list of strings.
pub open spec fn opt_views(o: Option<Vec<String>>) -> Option<Seq<Seq<char>>> {
    match o {
        Some(v) => Some(views(v@)),
        None => None,
    }
}

/// The view of an optional string.
pub open spec fn opt_view(o: Option<String>) -> Option<Seq<char>> {
    match o {
        Some(s) => Some(s@),
        None => None,
    }
}

/// A copy of a list of strings.
pub fn clone_strings(v: &Vec<String>) -> (r: Vec<String>)
    ensures
        views(r@) == views(v@),
{
    let mut r: Vec<String> = Vec::new();
    let mut i: usize = 0;
    while i < v.len()
        invariant
            i <= v.len(),
            r.len() == i,
            views(r@) == views(v@).take(i as int),
        decreases v.len() - i,
    {
        let ghost before = r@;
        r.push(v[i].clone());
        assert forall|j: int| 0 <= j < i + 1 implies views(r@)[j] == views(v@).take(i + 1)[j] by {
            if j < i {
                assert(views(before)[j] == views(v@).take(i as int)[j]);
            }
        }
        assert(views(r@) =~= views(v@).take(i + 1));
        i = i + 1;
    }
    assert(views(v@).take(v.len() as int) =~= views(v@));
    r
}

/// A copy of an optional list of strings.
pub fn clone_opt_strings(o: &Option<Vec<String>>) -> (r: Option<Vec<String>>)
    ensures
        opt_views(r) == opt_views(*o),
{
    match o {
        Some(v) => Some(clone_strings(v)),
        None => None,
    }
}

/// A copy of an optional string.
pub fn clone_opt_string(o: &Option<String>) -> (r: Option<String>)
    ensures
        opt_view(r) == opt_view(*o),
{
    match o {
        Some(s) => Some(s.clone()),
        None => None,
    }
}

/// `a` followed by `b`.
pub fn concat(a: &str, b: &str) -> (r: String)
    ensures
        r@ == a@ + b@,
{
    let mut r = a.to_owned();
    r.append(b);
    r
}

/// The characters of `s`, in order.
pub fn to_chars(s: &str) -> (v: Vec<char>)
    ensures
        v@ == s@,
{
    let mut v: Vec<char> = Vec::new();
    for c in it: s.chars()
        invariant
            v@ == it.seq().take(it.index() as int),
            it.seq() == s@,
    {
        v.push(c);
    }
    v
}

/// `String::push` of std, which vstd gives no specification: afterwards the
/// string holds what it held before, followed by `c`.
#[verifier::external_body]
pub(crate) fn push_char(s: &mut String, c: char)
    ensures
        final(s)@ == old(s)@.push(c),
{
    s.push(c);
}

/// The string made of `text[from..to]`.
pub fn substring(text: &Vec<char>, from: usize, to: usize) -> (s: String)
    requires
        from <= to <= text.len(),
    ensures
        s@ == text@.subrange(from as int, to as int),
{
    let mut s = String::new();
    let mut i: usize = from;
    while i < to
        invariant
            from <= i <= to <= text.len(),
            s@ == text@.subrange(from as int, i as int),
        decreases to - i,
    {
        push_char(&mut s, text[i]);
        i = i + 1;
    }
    s
}

/// The string made of all of `text`.
pub fn to_string(text: &Vec<char>) -> (s: String)
    ensures
        s@ == text@,
{
    let s = substring(text, 0, text.len());
    assert(text@.subrange(0, text.len() as int) =~= text@);
    s
}

/// A copy of `text[from..to]`.
pub fn subvec(text: &Vec<char>, from: usize, to: usize) -> (v: Vec<char>)
    requires
        from <= to <= text.len(),
    ensures
        v@ == text@.subrange(from as int, to as int),
{
    let mut v: Vec<char> = Vec::new();
    let mut i: usize = from;
    while i < to
        invariant
            from <= i <= to <= text.len(),
            v@ == text@.subrange(from as int, i as int),
        decreases to - i,
    {
        v.push(text[i]);
        i = i + 1;
    }
    v
}

/// `pat` stands in `text` at index `i`.
pub open spec fn occurs_at(text: Seq<char>, pat: Seq<char>, i: int) -> bool {
    &&& 0 <= i
    &&& i + pat.len() <= text.len()
    &&& forall|k: int| 0 <= k < pat.len() ==> #[trigger] pat[k] == text[i + k]
}

/// The least index at or after `from` at which `pat` stands in `text`.
pub open spec fn first_occurrence(text: Seq<char>, pat: Seq<char>, from: int) -> Option<int>
    decreases text.len() - from,
{
    if from < 0 || from + pat.len() > text.len() {
        None
    } else if occurs_at(text, pat, from) {
        Some(from)
    } else {
        first_occurrence(text, pat, from + 1)
    }
}

/// `pat` stands somewhere in `text`.
pub open spec fn contains(text: Seq<char>, pat: Seq<char>) -> bool {
    exists|i: int| occurs_at(text, pat, i)
}

/// `first_occurrence` finds the leftmost occurrence at or after `from`, and
/// finds one whenever there is one.
pub proof fn lemma_first_occurrence(text: Seq<char>, pat: Seq<char>, from: int)
    requires
        0 <= from,
    ensures
        match first_occurrence(text, pat, from) {
            Some(i) => {
                &&& from <= i
                &&& occurs_at(text, pat, i)
                &&& forall|j: int| from <= j < i ==> !occurs_at(text, pat, j)
            },
            None => forall|j: int| from <= j ==> !occurs_at(text, pat, j),
        },
    decreases text.len() - from,
{
    if from + pat.len() > text.len() {
    } else if occurs_at(text, pat, from) {
    } else {
        lemma_first_occurrence(text, pat, from + 1);
    }
}

/// Whether `pat` stands in `text` at index `i`.
pub fn matches_at(text: &Vec<char>, pat: &Vec<char>, i: usize) -> (r: bool)
    ensures
        r == occurs_at(text@, pat@, i as int),
{
    if pat.len() > text.len() || i > text.len() - pat.len() {
        return false;
    }
    let mut k: usize = 0;
    while k < pat.len()
        invariant
            k <= pat.len(),
            i + pat.len() <= text.len(),
            forall|j: int| 0 <= j < k ==> #[trigger] pat@[j] == text@[i + j],
        decreases pat.len() - k,
    {
        if pat[k] != text[i + k] {
            return false;
        }
        k = k + 1;
    }
    true
}

/// The leftmost occurrence of `pat` in `text` at or after `from`.
pub fn find(text: &Vec<char>, pat: &Vec<char>, from: usize) -> (r: Option<usize>)
    ensures
        match r {
            Some(i) => first_occurrence(text@, pat@, from as int) == Some(i as int),
            None => first_occurrence(text@, pat@, from as int) is None,
        },
{
    if pat.len() > text.len() {
        return None;
    }
    let last: usize = text.len() - pat.len();
    let mut i: usize = from;
    while i <= last
        invariant
            from <= i,
            last == text.len() - pat.len(),
            first_occurrence(text@, pat@, from as int) == first_occurrence(text@, pat@, i as int),
        decreases last + 1 - i,
    {
        if matches_at(text, pat, i) {
            return Some(i);
        }
        i = i + 1;
    }
    None
}

/// The index of the first `c` at or after `from`, or `text.len()` when there
/// is none.
pub open spec fn next_char(text: Seq<char>, c: char, from: int) -> int
    decreases text.len() - from,
{
    if from < 0 || from >= text.len() {
        text.len() as int
    } else if text[from] == c {
        from
    } else {
        next_char(text, c, from + 1)
    }
}

/// `next_char` lies in `from..=text.len()`, no `c` lies before it, and a `c`
/// stands at it unless it is `text.len()`.
pub proof fn lemma_next_char(text: Seq<char>, c: char, from: int)
    requires
        0 <= from <= text.len(),
    ensures
        from <= next_char(text, c, from) <= text.len(),
        next_char(text, c, from) < text.len() ==> text[next_char(text, c, from)] == c,
        forall|j: int| from <= j < next_char(text, c, from) ==> text[j] != c,
    decreases text.len() - from,
{
    if from < text.len() && text[from] != c {
        lemma_next_char(text, c, from + 1);
    }
}

/// The first `c` at or after `from` is where `next_char` points.
pub proof fn lemma_next_char_is(text: Seq<char>, c: char, from: int, at: int)
    requires
        0 <= from <= at <= text.len(),
        at < text.len() ==> text[at] == c,
        forall|j: int| from <= j < at ==> text[j] != c,
    ensures
        next_char(text, c, from) == at,
    decreases at - from,
{
    if from < at {
        lemma_next_char_is(text, c, from + 1, at);
    }
}

/// The index of the first `c` at or after `from`, or `text.len()`.
pub fn find_char(text: &Vec<char>, c: char, from: usize) -> (r: usize)
    requires
        from <= text.len(),
    ensures
        r == next_char(text@, c, from as int),
        from <= r <= text.len(),
{
    let mut i: usize = from;
    while i < text.len()
        invariant
            from <= i <= text.len(),
            next_char(text@, c, from as int) == next_char(text@, c, i as int),
        decreases text.len() - i,
    {
        if text[i] == c {
            return i;
        }
        i = i + 1;
    }
    i
}

/// The index of the first character at or after `from` that is no
/// whitespace, or `text.len()` when there is none.
pub open spec fn skip_spaces(text: Seq<char>, from: int) -> int
    decreases text.len() - from,
{
    if from < 0 || from >= text.len() {
        text.len() as int
    } else if !is_space(text[from]) {
        from
    } else {
        skip_spaces(text, from + 1)
    }
}

/// `skip_spaces` lies in `from..=text.len()`, only whitespace lies before it,
/// and what stands at it is no whitespace.
pub proof fn lemma_skip_spaces(text: Seq<char>, from: int)
    requires
        0 <= from <= text.len(),
    ensures
        from <= skip_spaces(text, from) <= text.len(),
        skip_spaces(text, from) < text.len() ==> !is_space(text[skip_spaces(text, from)]),
        forall|j: int| from <= j < skip_spaces(text, from) ==> is_space(#[trigger] text[j]),
    decreases text.len() - from,
{
    if from < text.len() && is_space(text[from]) {
        lemma_skip_spaces(text, from + 1);
    }
}

/// The index of the first character at or after `from` that is no whitespace.
pub fn skip_whitespace(text: &Vec<char>, from: usize) -> (r: usize)
    requires
        from <= text.len(),
    ensures
        r == skip_spaces(text@, from as int),
        from <= r <= text.len(),
{
    let mut i: usize = from;
    while i < text.len()
        invariant
            from <= i <= text.len(),
            skip_spaces(text@, from as int) == skip_spaces(text@, i as int),
        decreases text.len() - i,
    {
        if !is_space_char(text[i]) {
            return i;
        }
        i = i + 1;
    }
    i
}

/// The length of `text` without its trailing whitespace.
pub open spec fn trimmed_end(text: Seq<char>) -> int
    decreases text.len(),
{
    if text.len() == 0 {
        0
    } else if is_space(text.last()) {
        trimmed_end(text.drop_last())
    } else {
        text.len() as int
    }
}

/// `text` without its leading and trailing whitespace.
pub open spec fn trim(text: Seq<char>) -> Seq<char> {
    let a = skip_spaces(text, 0);
    let b = trimmed_end(text);
    if a < b {
        text.subrange(a, b)
    } else {
        Seq::empty()
    }
}

/// `trimmed_end` is at most the length, and what stands before it is no
/// whitespace.
pub proof fn lemma_trimmed_end(text: Seq<char>)
    ensures
        0 <= trimmed_end(text) <= text.len(),
        trimmed_end(text) > 0 ==> !is_space(text[trimmed_end(text) - 1]),
        forall|j: int| trimmed_end(text) <= j < text.len() ==> is_space(#[trigger] text[j]),
    decreases text.len(),
{
    if text.len() > 0 && is_space(text.last()) {
        lemma_trimmed_end(text.drop_last());
        assert forall|j: int| trimmed_end(text) <= j < text.len() implies is_space(
            #[trigger] text[j],
        ) by {
            if j < text.len() - 1 {
                assert(text[j] == text.drop_last()[j]);
            }
        }
    }
}

/// A trimmed text neither begins nor ends with whitespace, and it is the
/// text itself where that neither begins nor ends with whitespace.
pub proof fn lemma_trim(text: Seq<char>)
    ensures
        trim(text).len() > 0 ==> !is_space(trim(text).first()) && !is_space(trim(text).last()),
        text.len() > 0 && !is_space(text.first()) && !is_space(text.last()) ==> trim(text) == text,
{
    lemma_skip_spaces(text, 0);
    lemma_trimmed_end(text);
    if text.len() > 0 && !is_space(text.first()) && !is_space(text.last()) {
        assert(trim(text) =~= text);
    }
}

/// The bounds of `text` without its leading and trailing whitespace.
pub fn trim_bounds(text: &Vec<char>) -> (r: (usize, usize))
    ensures
        r.0 <= r.1 <= text.len(),
        text@.subrange(r.0 as int, r.1 as int) == trim(text@),
{
    let a = skip_whitespace(text, 0);
    let mut b: usize = text.len();
    assert(text@.take(b as int) =~= text@);
    while b > 0 && is_space_char(text[b - 1])
        invariant
            b <= text.len(),
            trimmed_end(text@) == trimmed_end(text@.take(b as int)),
        decreases b,
    {
        assert(text@.take(b as int).drop_last() =~= text@.take(b - 1));
        b = b - 1;
    }
    proof {
        if b > 0 {
            assert(text@.take(b as int).last() == text@[b - 1]);
        }
        assert(trimmed_end(text@) == b);
    }
    if a < b {
        (a, b)
    } else {
        assert(text@.subrange(a as int, a as int) =~= Seq::<char>::empty());
        (a, a)
    }
}

/// `text` without its leading and trailing whitespace, as a string.
pub fn trim_to_string(text: &Vec<char>) -> (s: String)
    ensures
        s@ == trim(text@),
{
    let (a, b) = trim_bounds(text);
    substring(text, a, b)
}

/// Number of newline characters in a text.
pub open spec fn count_newlines(text: Seq<char>) -> nat
    decreases text.len(),
{
    if text.len() == 0 {
        0
    } else {
        count_newlines(text.drop_last()) + if text.last() == '\n' {
            1nat
        } else {
            0nat
        }
    }
}

/// The newlines of a concatenation are those of its two parts.
pub proof fn lemma_count_newlines_concat(a: Seq<char>, b: Seq<char>)
    ensures
        count_newlines(a + b) == count_newlines(a) + count_newlines(b),
    decreases b.len(),
{
    if b.len() == 0 {
        assert(a + b =~= a);
    } else {
        assert((a + b).drop_last() =~= a + b.drop_last());
        assert((a + b).last() == b.last());
        lemma_count_newlines_concat(a, b.drop_last());
    }
}

/// The 1-indexed line on which the character at index `pos` stands: one more
/// than the number of newlines before it.
pub open spec fn line_at(text: Seq<char>, pos: int) -> nat {
    count_newlines(text.take(pos)) + 1
}

/// The 1-indexed line of the character at index `pos`.
pub fn line_of(text: &Vec<char>, pos: usize) -> (line: usize)
    requires
        pos < text.len(),
    ensures
        line == line_at(text@, pos as int),
{
    let mut n: usize = 0;
    let mut i: usize = 0;
    while i < pos
        invariant
            i <= pos < text.len(),
            n == count_newlines(text@.take(i as int)),
            n <= i,
        decreases pos - i,
    {
        proof {
            assert(text@.take(i + 1).drop_last() =~= text@.take(i as int));
            assert(text@.take(i + 1).last() == text@[i as int]);
        }
        if text[i] == '\n' {
            n = n + 1;
        }
        i = i + 1;
    }
    n + 1
}

/// Number of newline bytes in a byte string.
pub open spec fn count_newline_bytes(bytes: Seq<u8>) -> nat
    decreases bytes.len(),
{
    if bytes.len() == 0 {
        0
    } else {
        count_newline_bytes(bytes.drop_last()) + if bytes.last() == 10u8 {
            1nat
        } else {
            0nat
        }
    }
}

/// The 1-indexed line on which byte offset `pos` of `content` lies: one more
/// than the number of newlines among the `pos` bytes before it.
pub fn byte_pos_to_line(content: &str, pos: usize) -> (line: usize)
    requires
        pos <= content.spec_bytes().len(),
        pos < usize::MAX,
    ensures
        line == count_newline_bytes(content.spec_bytes().take(pos as int)) + 1,
{
    let bytes = content.as_bytes();
    let mut n: usize = 0;
    let mut i: usize = 0;
    while i < pos
        invariant
            i <= pos <= bytes@.len(),
            n == count_newline_bytes(bytes@.take(i as int)),
            n <= i,
        decreases pos - i,
    {
        proof {
            assert(bytes@.take(i + 1).drop_last() =~= bytes@.take(i as int));
            assert(bytes@.take(i + 1).last() == bytes@[i as int]);
        }
        if bytes[i] == 10u8 {
            n = n + 1;
        }
        i = i + 1;
    }
    n + 1
}

} // verus!
