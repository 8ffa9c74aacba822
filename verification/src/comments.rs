//! Removal of `%` line comments, keeping every newline in place.
use crate::text::{
    count_newlines, find_char, lemma_count_newlines_concat, lemma_next_char, next_char, to_chars,
    to_string,
};
use vstd::prelude::*;

verus! {

/// What is left of `text[i..]` once its comments are gone.
///
/// A backslash and the character after it are kept as they stand. An
/// unescaped `%` is dropped together with everything up to, but not
/// including, the next newline.
pub open spec fn strip_comments_from(text: Seq<char>, i: int) -> Seq<char>
    decreases text.len() - i,
{
    if i < 0 || i >= text.len() {
        Seq::empty()
    } else if text[i] == '\\' {
        if i + 1 < text.len() {
            seq![text[i], text[i + 1]] + strip_comments_from(text, i + 2)
        } else {
            seq![text[i]]
        }
    } else if text[i] == '%' {
        proof {
            lemma_next_char(text, '\n', i + 1);
        }
        strip_comments_from(text, next_char(text, '\n', i + 1))
    } else {
        seq![text[i]] + strip_comments_from(text, i + 1)
    }
}

/// `text` without its comments.
pub open spec fn strip_comments(text: Seq<char>) -> Seq<char> {
    strip_comments_from(text, 0)
}

/// A text without a newline character counts no newline.
pub proof fn lemma_no_newlines(text: Seq<char>)
    requires
        forall|j: int| 0 <= j < text.len() ==> text[j] != '\n',
    ensures
        count_newlines(text) == 0,
    decreases text.len(),
{
    if text.len() > 0 {
        lemma_no_newlines(text.drop_last());
    }
}

/// Stripping the comments of `text[i..]` keeps the number of its newlines.
pub proof fn lemma_strip_keeps_newlines_from(text: Seq<char>, i: int)
    requires
        0 <= i <= text.len(),
    ensures
        count_newlines(strip_comments_from(text, i)) == count_newlines(
            text.subrange(i, text.len() as int),
        ),
    decreases text.len() - i,
{
    let n = text.len() as int;
    let rest = text.subrange(i, n);
    if i >= n {
        assert(rest =~= Seq::<char>::empty());
    } else if text[i] == '\\' {
        if i + 1 < n {
            let head = seq![text[i], text[i + 1]];
            lemma_strip_keeps_newlines_from(text, i + 2);
            assert(rest =~= head + text.subrange(i + 2, n));
            lemma_count_newlines_concat(head, text.subrange(i + 2, n));
            lemma_count_newlines_concat(head, strip_comments_from(text, i + 2));
        } else {
            assert(rest =~= seq![text[i]]);
        }
    } else if text[i] == '%' {
        lemma_next_char(text, '\n', i + 1);
        let j = next_char(text, '\n', i + 1);
        lemma_strip_keeps_newlines_from(text, j);
        let skipped = text.subrange(i, j);
        assert(rest =~= skipped + text.subrange(j, n));
        lemma_count_newlines_concat(skipped, text.subrange(j, n));
        lemma_no_newlines(skipped);
    } else {
        let head = seq![text[i]];
        lemma_strip_keeps_newlines_from(text, i + 1);
        assert(rest =~= head + text.subrange(i + 1, n));
        lemma_count_newlines_concat(head, text.subrange(i + 1, n));
        lemma_count_newlines_concat(head, strip_comments_from(text, i + 1));
    }
}

/// Comment stripping preserves the number of newlines of a document, so the
/// line on which anything stands is the same before and after.
pub proof fn lemma_strip_keeps_newlines(text: Seq<char>)
    ensures
        count_newlines(strip_comments(text)) == count_newlines(text),
{
    lemma_strip_keeps_newlines_from(text, 0);
    assert(text.subrange(0, text.len() as int) =~= text);
}

/// The characters of `text` without its comments.
pub fn strip_comment_chars(text: &Vec<char>) -> (out: Vec<char>)
    ensures
        out@ == strip_comments(text@),
        count_newlines(out@) == count_newlines(text@),
{
    let mut out: Vec<char> = Vec::new();
    let mut i: usize = 0;
    while i < text.len()
        invariant
            i <= text.len(),
            out@ + strip_comments_from(text@, i as int) == strip_comments(text@),
        decreases text.len() - i,
    {
        let c = text[i];
        let ghost before = out@;
        if c == '\\' {
            out.push(c);
            if i + 1 < text.len() {
                out.push(text[i + 1]);
                assert(out@ + strip_comments_from(text@, i + 2) =~= before + (seq![
                    text@[i as int],
                    text@[i + 1],
                ] + strip_comments_from(text@, i + 2)));
                i = i + 2;
            } else {
                assert(out@ + strip_comments_from(text@, i + 1) =~= before + seq![text@[i as int]]);
                i = i + 1;
            }
        } else if c == '%' {
            i = find_char(text, '\n', i + 1);
        } else {
            out.push(c);
            assert(out@ + strip_comments_from(text@, i + 1) =~= before + (seq![text@[i as int]]
                + strip_comments_from(text@, i + 1)));
            i = i + 1;
        }
    }
    proof {
        assert(out@ + Seq::<char>::empty() =~= out@);
        lemma_strip_keeps_newlines(text@);
    }
    out
}

/// Strips the `%` comments of a document.
///
/// `\%` and every other backslash pair is kept; a comment runs from an
/// unescaped `%` to the end of its line, and the newline itself stays, so the
/// result has as many lines as the input.
pub fn strip_latex_comments(content: &str) -> (result: String)
    ensures
        result@ == strip_comments(content@),
        count_newlines(result@) == count_newlines(content@),
{
    let text = to_chars(content);
    let out = strip_comment_chars(&text);
    to_string(&out)
}

} // verus!
