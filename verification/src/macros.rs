//! The annotation macros of a block: flags, braced arguments and
//! comma-separated lists.
use crate::text::{
    contains, find, find_char, first_occurrence, lemma_first_occurrence, lemma_next_char,
    matches_at, next_char, subvec, substring, to_chars, trim, trim_bounds, trim_to_string, views,
};
use vstd::prelude::*;

verus! {

/// The argument that follows the opening `open` at index `i`, as the indices
/// where it starts and ends. `open` is a macro's name with its backslash and
/// opening brace. The argument runs to the next closing brace; there is
/// none where `open` does not stand at `i`, where the argument would be
/// empty, or where no closing brace follows.
pub open spec fn arg_at(text: Seq<char>, open: Seq<char>, i: int) -> Option<(int, int)> {
    let start = i + open.len();
    let end = next_char(text, '}', start);
    if crate::text::occurs_at(text, open, i) && start < end && end < text.len() {
        Some((start, end))
    } else {
        None
    }
}

/// The argument of the first `open` at or after `from` that has one.
pub open spec fn first_arg(text: Seq<char>, open: Seq<char>, from: int) -> Option<Seq<char>>
    decreases text.len() - from,
{
    if from < 0 || from >= text.len() {
        None
    } else {
        match arg_at(text, open, from) {
            Some((start, end)) => Some(text.subrange(start, end)),
            None => first_arg(text, open, from + 1),
        }
    }
}

/// The text of the argument that follows `open` at index `i`, empty where
/// there is none.
pub open spec fn arg_text(text: Seq<char>, open: Seq<char>, i: int) -> Seq<char> {
    match arg_at(text, open, i) {
        Some((start, end)) => text.subrange(start, end),
        None => Seq::empty(),
    }
}

/// `first_arg` is the argument of the leftmost `open` at or after `from`
/// that has one, and there is one whenever some `open` has an argument.
pub proof fn lemma_first_arg(text: Seq<char>, open: Seq<char>, from: int)
    requires
        0 <= from,
    ensures
        match first_arg(text, open, from) {
            Some(arg) => exists|i: int|
                from <= i < text.len() && #[trigger] arg_at(text, open, i) is Some && arg
                    == arg_text(text, open, i) && (forall|j: int|
                    from <= j < i ==> arg_at(text, open, j) is None),
            None => forall|j: int| from <= j < text.len() ==> arg_at(text, open, j) is None,
        },
    decreases text.len() - from,
{
    if from < text.len() {
        if arg_at(text, open, from) is None {
            lemma_first_arg(text, open, from + 1);
            if first_arg(text, open, from) is Some {
                let i = choose|i: int|
                    from + 1 <= i < text.len() && #[trigger] arg_at(text, open, i) is Some
                        && first_arg(text, open, from + 1)->0 == arg_text(text, open, i) && (
                    forall|j: int| from + 1 <= j < i ==> arg_at(text, open, j) is None);
                assert(from <= i < text.len() && arg_at(text, open, i) is Some);
            }
        } else {
            assert(from <= from < text.len() && arg_at(text, open, from) is Some);
        }
    }
}

/// The arguments of every `open` at or after `from`, in order. The search
/// goes on behind the closing brace of each.
pub open spec fn all_args(text: Seq<char>, open: Seq<char>, from: int) -> Seq<Seq<char>>
    decreases text.len() - from,
{
    if from < 0 || from >= text.len() {
        Seq::empty()
    } else {
        match arg_at(text, open, from) {
            Some((start, end)) => seq![text.subrange(start, end)] + all_args(text, open, end + 1),
            None => all_args(text, open, from + 1),
        }
    }
}

/// Each text of `items` without its leading and trailing whitespace.
pub open spec fn trim_each(items: Seq<Seq<char>>) -> Seq<Seq<char>> {
    Seq::new(items.len(), |i: int| trim(items[i]))
}

/// The entries of the comma-separated list `s[from..]`: each without its
/// leading and trailing whitespace, the empty ones left out.
pub open spec fn list_items(s: Seq<char>, from: int) -> Seq<Seq<char>>
    decreases s.len() - from,
{
    if from < 0 || from > s.len() {
        Seq::empty()
    } else {
        let comma = next_char(s, ',', from);
        let item = trim(s.subrange(from, comma));
        let rest = if comma >= s.len() {
            Seq::empty()
        } else {
            proof {
                lemma_next_char(s, ',', from);
            }
            list_items(s, comma + 1)
        };
        if item.len() > 0 {
            seq![item] + rest
        } else {
            rest
        }
    }
}

/// The entries of the list that an optional argument holds; none without it.
pub open spec fn list_of(arg: Option<Seq<char>>) -> Seq<Seq<char>> {
    match arg {
        Some(s) => list_items(s, 0),
        None => Seq::empty(),
    }
}

/// An optional argument without its leading and trailing whitespace.
pub open spec fn trimmed(arg: Option<Seq<char>>) -> Option<Seq<char>> {
    match arg {
        Some(s) => Some(trim(s)),
        None => None,
    }
}

/// The argument that follows `open` at index `i`: see `arg_at`.
pub fn match_arg(text: &Vec<char>, open: &Vec<char>, i: usize) -> (r: Option<(usize, usize)>)
    ensures
        match r {
            Some((start, end)) => arg_at(text@, open@, i as int) == Some(
                (start as int, end as int),
            ) && i <= start < end < text.len(),
            None => arg_at(text@, open@, i as int) is None,
        },
{
    if !matches_at(text, open, i) {
        return None;
    }
    assert(i + open.len() <= text.len());
    let start = i + open.len();
    let end = find_char(text, '}', start);
    if start < end && end < text.len() {
        Some((start, end))
    } else {
        None
    }
}

/// The argument of the first `open` in `text` that has one.
pub fn find_first_arg(text: &Vec<char>, open: &Vec<char>) -> (r: Option<Vec<char>>)
    ensures
        match r {
            Some(arg) => first_arg(text@, open@, 0) == Some(arg@),
            None => first_arg(text@, open@, 0) is None,
        },
{
    let mut i: usize = 0;
    while i < text.len()
        invariant
            i <= text.len(),
            first_arg(text@, open@, 0) == first_arg(text@, open@, i as int),
        decreases text.len() - i,
    {
        match match_arg(text, open, i) {
            Some((start, end)) => {
                return Some(subvec(text, start, end));
            },
            None => {},
        }
        i = i + 1;
    }
    None
}

/// The arguments of every `open` in `text`, in order.
pub fn find_all_args(text: &Vec<char>, open: &Vec<char>) -> (r: Vec<Vec<char>>)
    ensures
        r@.len() == all_args(text@, open@, 0).len(),
        forall|k: int| 0 <= k < r@.len() ==> (#[trigger] r@[k])@ == all_args(text@, open@, 0)[k],
{
    let mut out: Vec<Vec<char>> = Vec::new();
    let ghost mut found: Seq<Seq<char>> = Seq::empty();
    let mut i: usize = 0;
    while i < text.len()
        invariant
            i <= text.len(),
            out@.len() == found.len(),
            forall|k: int| 0 <= k < out@.len() ==> (#[trigger] out@[k])@ == found[k],
            found + all_args(text@, open@, i as int) == all_args(text@, open@, 0),
        decreases text.len() - i,
    {
        match match_arg(text, open, i) {
            Some((start, end)) => {
                let arg = subvec(text, start, end);
                proof {
                    let rest = all_args(text@, open@, end + 1);
                    assert(found.push(arg@) + rest =~= found + (seq![arg@] + rest));
                    found = found.push(arg@);
                }
                out.push(arg);
                i = end + 1;
            },
            None => {
                i = i + 1;
            },
        }
    }
    proof {
        assert(found + Seq::<Seq<char>>::empty() =~= found);
    }
    out
}

/// The entries of a comma-separated list: see `list_items`.
pub fn split_list(s: &Vec<char>) -> (r: Vec<String>)
    ensures
        views(r@) == list_items(s@, 0),
{
    let mut out: Vec<String> = Vec::new();
    let mut from: usize = 0;
    assert(views(out@) =~= Seq::empty());
    loop
        invariant_except_break
            from <= s.len(),
            views(out@) + list_items(s@, from as int) == list_items(s@, 0),
        ensures
            views(out@) == list_items(s@, 0),
        decreases s.len() - from,
    {
        let comma = find_char(s, ',', from);
        let piece = subvec(s, from, comma);
        let (a, b) = trim_bounds(&piece);
        let ghost before = views(out@);
        let ghost item = trim(s@.subrange(from as int, comma as int));
        let ghost rest = if comma >= s.len() {
            Seq::<Seq<char>>::empty()
        } else {
            list_items(s@, comma + 1)
        };
        if a < b {
            out.push(substring(&piece, a, b));
            assert(views(out@) =~= before.push(item));
            assert(before.push(item) + rest =~= before + (seq![item] + rest));
        }
        assert(views(out@) + rest == list_items(s@, 0));
        if comma >= s.len() {
            assert(views(out@) + rest =~= views(out@));
            break ;
        }
        from = comma + 1;
    }
    out
}

/// The strings for a list of texts, each without its leading and trailing
/// whitespace.
pub fn trim_all(items: &Vec<Vec<char>>) -> (r: Vec<String>)
    ensures
        r@.len() == items@.len(),
        forall|k: int| 0 <= k < r@.len() ==> (#[trigger] r@[k])@ == trim(items@[k]@),
{
    let mut out: Vec<String> = Vec::new();
    let mut i: usize = 0;
    while i < items.len()
        invariant
            i <= items.len(),
            out@.len() == i,
            forall|k: int| 0 <= k < i ==> (#[trigger] out@[k])@ == trim(items@[k]@),
        decreases items.len() - i,
    {
        out.push(trim_to_string(&items[i]));
        i = i + 1;
    }
    out
}

/// The strings for a list of texts.
pub fn to_strings(items: &Vec<Vec<char>>) -> (r: Vec<String>)
    ensures
        r@.len() == items@.len(),
        forall|k: int| 0 <= k < r@.len() ==> (#[trigger] r@[k])@ == items@[k]@,
{
    let mut out: Vec<String> = Vec::new();
    let mut i: usize = 0;
    while i < items.len()
        invariant
            i <= items.len(),
            out@.len() == i,
            forall|k: int| 0 <= k < i ==> (#[trigger] out@[k])@ == items@[k]@,
        decreases items.len() - i,
    {
        out.push(crate::text::to_string(&items[i]));
        i = i + 1;
    }
    out
}

/// `pat` stands somewhere in `text` exactly if it has a first occurrence.
pub proof fn lemma_contains(text: Seq<char>, pat: Seq<char>)
    ensures
        contains(text, pat) <==> first_occurrence(text, pat, 0) is Some,
{
    lemma_first_occurrence(text, pat, 0);
    if contains(text, pat) {
        let i = choose|i: int| crate::text::occurs_at(text, pat, i);
        assert(0 <= i);
    }
}

/// Whether `marker` stands somewhere in `text`.
pub fn has_marker(text: &Vec<char>, marker: &str) -> (r: bool)
    ensures
        r == contains(text@, marker@),
{
    let pat = to_chars(marker);
    proof {
        lemma_contains(text@, marker@);
    }
    find(text, &pat, 0).is_some()
}

/// The entries of the list in the argument of the first `open` in `text`.
pub fn list_after(text: &Vec<char>, open: &str) -> (r: Vec<String>)
    ensures
        views(r@) == list_of(first_arg(text@, open@, 0)),
{
    let pat = to_chars(open);
    match find_first_arg(text, &pat) {
        Some(arg) => split_list(&arg),
        None => {
            let r: Vec<String> = Vec::new();
            assert(views(r@) =~= Seq::empty());
            r
        },
    }
}

/// The arguments of every `open` in `text`, each without its leading and
/// trailing whitespace.
pub fn trimmed_args(text: &Vec<char>, open: &str) -> (r: Vec<String>)
    ensures
        views(r@) == trim_each(all_args(text@, open@, 0)),
{
    let pat = to_chars(open);
    let args = find_all_args(text, &pat);
    let r = trim_all(&args);
    assert(views(r@) =~= trim_each(all_args(text@, open@, 0)));
    r
}

/// The argument of the first `open` in `text`, without its leading and
/// trailing whitespace.
pub fn first_trimmed(text: &Vec<char>, open: &str) -> (r: Option<String>)
    ensures
        crate::text::opt_view(r) == trimmed(first_arg(text@, open@, 0)),
{
    let pat = to_chars(open);
    match find_first_arg(text, &pat) {
        Some(arg) => Some(trim_to_string(&arg)),
        None => None,
    }
}

/// Whether the block holds the macro `\mathlibok`.
pub fn extract_mathlibok(content: &str) -> (r: bool)
    ensures
        r == contains(content@, "\\mathlibok"@),
{
    has_marker(&to_chars(content), "\\mathlibok")
}

/// Whether the block holds the macro `\notready`.
pub fn extract_notready(content: &str) -> (r: bool)
    ensures
        r == contains(content@, "\\notready"@),
{
    has_marker(&to_chars(content), "\\notready")
}

/// Whether the block holds the macro `\leanok`.
pub fn extract_leanok(content: &str) -> (r: bool)
    ensures
        r == contains(content@, "\\leanok"@),
{
    has_marker(&to_chars(content), "\\leanok")
}

/// The declaration names of the first `\lean{..}` of the block: the entries
/// of its comma-separated argument.
pub fn extract_lean(content: &str) -> (names: Vec<String>)
    ensures
        views(names@) == list_of(first_arg(content@, "\\lean{"@, 0)),
{
    list_after(&to_chars(content), "\\lean{")
}

/// The labels that the first `\uses{..}` of the block lists.
pub fn extract_uses(content: &str) -> (labels: Vec<String>)
    ensures
        views(labels@) == list_of(first_arg(content@, "\\uses{"@, 0)),
{
    list_after(&to_chars(content), "\\uses{")
}

/// The labels that the first `\proves{..}` of the block lists.
pub fn extract_proves(content: &str) -> (labels: Vec<String>)
    ensures
        views(labels@) == list_of(first_arg(content@, "\\proves{"@, 0)),
{
    list_after(&to_chars(content), "\\proves{")
}

/// The argument of every `\discussion{..}` of the block, in order, each
/// without its leading and trailing whitespace.
pub fn extract_discussion(content: &str) -> (tags: Vec<String>)
    ensures
        views(tags@) == trim_each(all_args(content@, "\\discussion{"@, 0)),
{
    trimmed_args(&to_chars(content), "\\discussion{")
}

} // verus!
