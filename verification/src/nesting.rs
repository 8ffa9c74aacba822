//! Masking of nested environments, and the labels that a block declares at
//! its top level.
use crate::macros::{all_args, arg_at, find_all_args, match_arg, to_strings};
use crate::text::{
    lemma_next_char, lemma_next_char_is, matches_at, next_char, occurs_at, to_chars, to_string,
    views,
};
use vstd::prelude::*;

verus! {

/// The opening marker of the environment `name`.
pub open spec fn begin_marker(name: Seq<char>) -> Seq<char> {
    "\\begin{"@ + name + "}"@
}

/// The closing marker of the environment `name`.
pub open spec fn end_marker(name: Seq<char>) -> Seq<char> {
    "\\end{"@ + name + "}"@
}

/// The closing marker that balances an opening of `name`: the first closing
/// marker at or after `from` before which as many openings as closings of
/// `name` stand, `depth` openings being open at `from` besides the one to
/// balance.
pub open spec fn balancing_close(text: Seq<char>, name: Seq<char>, from: int, depth: nat)
    -> Option<int>
    decreases text.len() - from,
{
    if from < 0 || from >= text.len() {
        None
    } else if occurs_at(text, end_marker(name), from) {
        if depth == 0 {
            Some(from)
        } else {
            balancing_close(text, name, from + 1, (depth - 1) as nat)
        }
    } else if occurs_at(text, begin_marker(name), from) {
        balancing_close(text, name, from + 1, depth + 1)
    } else {
        balancing_close(text, name, from + 1, depth)
    }
}

/// The balancing closing marker stands at or after `from`, within the text.
pub proof fn lemma_balancing_close(text: Seq<char>, name: Seq<char>, from: int, depth: nat)
    requires
        0 <= from,
        balancing_close(text, name, from, depth) is Some,
    ensures
        from <= balancing_close(text, name, from, depth)->0,
        occurs_at(text, end_marker(name), balancing_close(text, name, from, depth)->0),
    decreases text.len() - from,
{
    if occurs_at(text, end_marker(name), from) {
        if depth > 0 {
            lemma_balancing_close(text, name, from + 1, (depth - 1) as nat);
        }
    } else if occurs_at(text, begin_marker(name), from) {
        lemma_balancing_close(text, name, from + 1, depth + 1);
    } else {
        lemma_balancing_close(text, name, from + 1, depth);
    }
}

/// What is left of `text[pos..]` once every nested environment is cut out.
///
/// An environment opens with `\begin{name}`, the name being what stands up
/// to the next closing brace, and not empty. It reaches to the end of the
/// `\end{name}` that balances the opening: the first behind it at which the
/// openings and closings of this name, counted from the opening on, are as
/// many. An opening that no such marker follows stays as it stands, and the
/// scan goes on behind it.
pub open spec fn strip_nested_from(text: Seq<char>, pos: int) -> Seq<char>
    decreases text.len() - pos,
{
    if pos < 0 || pos >= text.len() {
        Seq::empty()
    } else {
        match arg_at(text, "\\begin{"@, pos) {
            None => seq![text[pos]] + strip_nested_from(text, pos + 1),
            Some((start, end)) => {
                let name = text.subrange(start, end);
                match balancing_close(text, name, end + 1, 0) {
                    Some(close) => {
                        proof {
                            lemma_balancing_close(text, name, end + 1, 0);
                        }
                        strip_nested_from(text, close + end_marker(name).len())
                    },
                    None => text.subrange(pos, end + 1) + strip_nested_from(text, end + 1),
                }
            },
        }
    }
}

/// `text` without its nested environments.
pub open spec fn strip_nested(text: Seq<char>) -> Seq<char> {
    strip_nested_from(text, 0)
}

/// The labels that `text` declares at its top level: the arguments of the
/// `\label` macros that are left once the nested environments are cut out.
pub open spec fn top_level_labels(text: Seq<char>) -> Seq<Seq<char>> {
    all_args(strip_nested(text), "\\label{"@, 0)
}

/// The two markers of the environment named `text[start..end]`.
fn region_markers(text: &Vec<char>, start: usize, end: usize) -> (r: (Vec<char>, Vec<char>))
    requires
        start <= end <= text.len(),
    ensures
        r.0@ == begin_marker(text@.subrange(start as int, end as int)),
        r.1@ == end_marker(text@.subrange(start as int, end as int)),
{
    let mut open = to_chars("\\begin{");
    let mut close = to_chars("\\end{");
    let mut i: usize = start;
    while i < end
        invariant
            start <= i <= end <= text.len(),
            open@ == "\\begin{"@ + text@.subrange(start as int, i as int),
            close@ == "\\end{"@ + text@.subrange(start as int, i as int),
        decreases end - i,
    {
        open.push(text[i]);
        close.push(text[i]);
        i = i + 1;
    }
    open.push('}');
    close.push('}');
    proof {
        reveal_strlit("}");
        assert("}"@ =~= seq!['}']);
        assert(open@ =~= begin_marker(text@.subrange(start as int, end as int)));
        assert(close@ =~= end_marker(text@.subrange(start as int, end as int)));
    }
    (open, close)
}

/// The closing marker that balances an opening of `name`, searched from
/// `from` on: see `balancing_close`.
fn find_balancing_close(
    text: &Vec<char>,
    open: &Vec<char>,
    close: &Vec<char>,
    from: usize,
    Ghost(name): Ghost<Seq<char>>,
) -> (r: Option<usize>)
    requires
        open@ == begin_marker(name),
        close@ == end_marker(name),
    ensures
        match r {
            Some(at) => balancing_close(text@, name, from as int, 0) == Some(at as int) && from
                <= at && at + close.len() <= text.len(),
            None => balancing_close(text@, name, from as int, 0) is None,
        },
{
    let mut depth: usize = 0;
    let mut j: usize = from;
    while j < text.len()
        invariant
            from <= j,
            depth <= j - from,
            open@ == begin_marker(name),
            close@ == end_marker(name),
            balancing_close(text@, name, from as int, 0) == balancing_close(
                text@,
                name,
                j as int,
                depth as nat,
            ),
        decreases text.len() - j,
    {
        if matches_at(text, close, j) {
            if depth == 0 {
                return Some(j);
            }
            depth = depth - 1;
        } else if matches_at(text, open, j) {
            depth = depth + 1;
        }
        j = j + 1;
    }
    None
}

/// The characters of `text` without its nested environments.
pub fn strip_nested_chars(text: &Vec<char>) -> (out: Vec<char>)
    ensures
        out@ == strip_nested(text@),
{
    let opening = to_chars("\\begin{");
    let mut out: Vec<char> = Vec::new();
    let mut pos: usize = 0;
    while pos < text.len()
        invariant
            pos <= text.len(),
            opening@ == "\\begin{"@,
            out@ + strip_nested_from(text@, pos as int) == strip_nested(text@),
        decreases text.len() - pos,
    {
        let ghost before = out@;
        match match_arg(text, &opening, pos) {
            None => {
                out.push(text[pos]);
                assert(out@ + strip_nested_from(text@, pos + 1) =~= before + (seq![text@[pos as int]]
                    + strip_nested_from(text@, pos + 1)));
                pos = pos + 1;
            },
            Some((start, end)) => {
                let ghost name = text@.subrange(start as int, end as int);
                let (open, close) = region_markers(text, start, end);
                match find_balancing_close(text, &open, &close, end + 1, Ghost(name)) {
                    Some(at) => {
                        pos = at + close.len();
                    },
                    None => {
                        let mut i: usize = pos;
                        while i <= end
                            invariant
                                pos <= i <= end + 1 <= text.len(),
                                out@ == before + text@.subrange(pos as int, i as int),
                            decreases end + 1 - i,
                        {
                            out.push(text[i]);
                            i = i + 1;
                        }
                        assert(out@ + strip_nested_from(text@, end + 1) =~= before + (
                        text@.subrange(pos as int, end + 1) + strip_nested_from(text@, end + 1)));
                        pos = end + 1;
                    },
                }
            },
        }
    }
    proof {
        assert(out@ + Seq::<char>::empty() =~= out@);
    }
    out
}

/// Cuts the nested environments out of a block: see `strip_nested_from`.
pub fn strip_nested_environments(content: &str) -> (result: String)
    ensures
        result@ == strip_nested(content@),
{
    let text = to_chars(content);
    let out = strip_nested_chars(&text);
    to_string(&out)
}

/// The labels that the characters of a block declare at its top level.
pub fn labels_in(text: &Vec<char>) -> (labels: Vec<String>)
    ensures
        views(labels@) == top_level_labels(text@),
{
    let masked = strip_nested_chars(text);
    let open = to_chars("\\label{");
    let args = find_all_args(&masked, &open);
    let labels = to_strings(&args);
    assert(views(labels@) =~= top_level_labels(text@));
    labels
}

/// The labels that a block declares, in the order in which they stand.
/// Labels inside nested environments are not among them.
pub fn extract_all_labels(content: &str) -> (labels: Vec<String>)
    ensures
        views(labels@) == top_level_labels(content@),
{
    let text = to_chars(content);
    labels_in(&text)
}

/// What stands in `b` at an index stands in `a + b` behind `a`.
proof fn lemma_occurs_at_shift(a: Seq<char>, b: Seq<char>, pat: Seq<char>, i: int)
    requires
        0 <= i,
    ensures
        occurs_at(a + b, pat, a.len() + i) == occurs_at(b, pat, i),
{
    let t = a + b;
    if occurs_at(b, pat, i) {
        assert forall|k: int| 0 <= k < pat.len() implies #[trigger] pat[k] == t[a.len() + i + k] by {
            assert(t[a.len() + i + k] == b[i + k]);
        }
    }
    if occurs_at(t, pat, a.len() + i) {
        assert forall|k: int| 0 <= k < pat.len() implies #[trigger] pat[k] == b[i + k] by {
            assert(t[a.len() + i + k] == b[i + k]);
        }
    }
}

/// The next `c` of `b` is the next `c` of `a + b` behind `a`.
proof fn lemma_next_char_shift(a: Seq<char>, b: Seq<char>, c: char, i: int)
    requires
        0 <= i <= b.len(),
    ensures
        next_char(a + b, c, a.len() + i) == a.len() + next_char(b, c, i),
    decreases b.len() - i,
{
    let t = a + b;
    if i < b.len() {
        assert(t[a.len() + i] == b[i]);
        if b[i] != c {
            lemma_next_char_shift(a, b, c, i + 1);
        }
    }
}

/// The balancing closing marker in `b` is the one in `a + b` behind `a`.
proof fn lemma_balancing_close_shift(
    a: Seq<char>,
    b: Seq<char>,
    name: Seq<char>,
    i: int,
    depth: nat,
)
    requires
        0 <= i,
    ensures
        balancing_close(a + b, name, a.len() + i, depth) == match balancing_close(
            b,
            name,
            i,
            depth,
        ) {
            Some(j) => Some(a.len() + j),
            None => None,
        },
    decreases b.len() - i,
{
    lemma_occurs_at_shift(a, b, end_marker(name), i);
    lemma_occurs_at_shift(a, b, begin_marker(name), i);
    if i < b.len() {
        if occurs_at(b, end_marker(name), i) {
            if depth > 0 {
                lemma_balancing_close_shift(a, b, name, i + 1, (depth - 1) as nat);
            }
        } else if occurs_at(b, begin_marker(name), i) {
            lemma_balancing_close_shift(a, b, name, i + 1, depth + 1);
        } else {
            lemma_balancing_close_shift(a, b, name, i + 1, depth);
        }
    }
}

/// What is left of `b` is what is left of `a + b` behind `a`: the scan looks
/// only forward.
#[verifier::rlimit(60)]
pub proof fn lemma_strip_nested_shift(a: Seq<char>, b: Seq<char>, i: int)
    requires
        0 <= i <= b.len(),
    ensures
        strip_nested_from(a + b, a.len() + i) == strip_nested_from(b, i),
    decreases b.len() - i,
{
    let t = a + b;
    let n = a.len() as int;
    let open = "\\begin{"@;
    if i < b.len() {
        lemma_occurs_at_shift(a, b, open, i);
        if occurs_at(b, open, i) {
            lemma_next_char_shift(a, b, '}', i + open.len());
            lemma_next_char(b, '}', i + open.len());
        }
        assert(t[n + i] == b[i]);
        match arg_at(b, open, i) {
            None => {
                assert(arg_at(t, open, n + i) is None);
                lemma_strip_nested_shift(a, b, i + 1);
            },
            Some((start, end)) => {
                assert(arg_at(t, open, n + i) == Some((n + start, n + end)));
                assert(t.subrange(n + start, n + end) =~= b.subrange(start, end));
                let name = b.subrange(start, end);
                lemma_balancing_close_shift(a, b, name, end + 1, 0);
                match balancing_close(b, name, end + 1, 0) {
                    Some(close) => {
                        lemma_balancing_close(b, name, end + 1, 0);
                        lemma_strip_nested_shift(a, b, close + end_marker(name).len());
                    },
                    None => {
                        assert(t.subrange(n + i, n + end + 1) =~= b.subrange(i, end + 1));
                        lemma_strip_nested_shift(a, b, end + 1);
                    },
                }
            },
        }
    }
}

/// Where no environment opens in `text[from..to]`, all of it is kept.
pub proof fn lemma_strip_nested_keeps_plain(text: Seq<char>, from: int, to: int)
    requires
        0 <= from <= to <= text.len(),
        forall|i: int| from <= i < to ==> arg_at(text, "\\begin{"@, i) is None,
    ensures
        strip_nested_from(text, from) == text.subrange(from, to) + strip_nested_from(text, to),
    decreases to - from,
{
    if from < to {
        lemma_strip_nested_keeps_plain(text, from + 1, to);
        assert(text.subrange(from, to) =~= seq![text[from]] + text.subrange(from + 1, to));
        assert(seq![text[from]] + (text.subrange(from + 1, to) + strip_nested_from(text, to))
            =~= text.subrange(from, to) + strip_nested_from(text, to));
    } else {
        assert(text.subrange(from, to) + strip_nested_from(text, to) =~= strip_nested_from(
            text,
            to,
        ));
    }
}

/// Behind `pre`, the opening marker of `name` opens an environment of that
/// name.
#[verifier::rlimit(60)]
proof fn lemma_opening(pre: Seq<char>, name: Seq<char>, rest: Seq<char>)
    requires
        name.len() > 0,
        forall|k: int| 0 <= k < name.len() ==> name[k] != '}',
    ensures
        arg_at(pre + begin_marker(name) + rest, "\\begin{"@, pre.len() as int) == Some(
            (
                (pre.len() + "\\begin{"@.len()) as int,
                (pre.len() + "\\begin{"@.len() + name.len()) as int,
            ),
        ),
        (pre + begin_marker(name) + rest).subrange(
            (pre.len() + "\\begin{"@.len()) as int,
            (pre.len() + "\\begin{"@.len() + name.len()) as int,
        ) == name,
        begin_marker(name).len() == "\\begin{"@.len() + name.len() + 1,
{
    reveal_strlit("}");
    let open = "\\begin{"@;
    let begin = begin_marker(name);
    let text = pre + begin + rest;
    let p = pre.len() as int;
    let start = p + open.len();
    let end = start + name.len();
    assert("}"@.len() == 1 && "}"@[0] == '}');
    assert(begin.len() == open.len() + name.len() + 1);
    assert forall|k: int| 0 <= k < begin.len() implies text[p + k] == begin[k] by {
        assert(text[p + k] == (pre + begin)[p + k]);
    }
    assert(occurs_at(text, open, p)) by {
        assert forall|k: int| 0 <= k < open.len() implies #[trigger] open[k] == text[p + k] by {
            assert(text[p + k] == begin[k]);
            assert(begin[k] == open[k]);
        }
    }
    assert(text[end] == '}') by {
        assert(text[p + (end - p)] == begin[end - p]);
    }
    assert forall|j: int| start <= j < end implies text[j] != '}' by {
        assert(text[p + (j - p)] == begin[j - p]);
        assert(begin[j - p] == name[j - start]);
    }
    lemma_next_char_is(text, '}', start, end);
    assert forall|k: int| 0 <= k < name.len() implies text.subrange(start, end)[k] == name[k] by {
        assert(text[p + (start + k - p)] == begin[start + k - p]);
        assert(begin[start + k - p] == name[k]);
    }
    assert(text.subrange(start, end) =~= name);
}

/// `body` is balanced in `name`: of the closing markers of `name` in `body`
/// followed by one more and by `post`, the one behind `body` is the first
/// before which as many openings as closings stand.
pub open spec fn balanced_body(body: Seq<char>, name: Seq<char>, post: Seq<char>) -> bool {
    balancing_close(body + end_marker(name) + post, name, 0, 0) == Some(body.len() as int)
}

/// No environment opens in `text` before index `p`.
#[verifier::opaque]
pub open spec fn plain_before(text: Seq<char>, p: int) -> bool {
    forall|i: int| 0 <= i < p ==> arg_at(text, "\\begin{"@, i) is None
}

/// Where an environment opens at `p` behind plain text and `close` is its
/// balancing closing marker, what is left of the text is what stands before
/// `p` and what is left behind the closing marker.
proof fn lemma_region_is_cut(text: Seq<char>, p: int, start: int, end: int, close: int)
    requires
        0 <= p < text.len(),
        plain_before(text, p),
        arg_at(text, "\\begin{"@, p) == Some((start, end)),
        balancing_close(text, text.subrange(start, end), end + 1, 0) == Some(close),
    ensures
        strip_nested(text) == text.subrange(0, p) + strip_nested_from(
            text,
            close + end_marker(text.subrange(start, end)).len(),
        ),
{
    reveal(plain_before);
    lemma_strip_nested_keeps_plain(text, 0, p);
}

/// The ways to take a block of five parts apart.
proof fn lemma_block_parts(
    pre: Seq<char>,
    begin: Seq<char>,
    body: Seq<char>,
    close: Seq<char>,
    post: Seq<char>,
)
    ensures
        pre + begin + body + close + post == pre + begin + (body + close + post),
        pre + begin + body + close + post == (pre + begin + body + close) + post,
        (pre + begin + body + close + post).subrange(0, pre.len() as int) == pre,
        (pre + begin + body + close).len() == pre.len() + begin.len() + body.len() + close.len(),
{
    let text = pre + begin + body + close + post;
    assert(text =~= pre + begin + (body + close + post));
    assert(text.subrange(0, pre.len() as int) =~= pre);
}

/// In the block, the closing marker behind a balanced `body` balances the
/// opening before it.
#[verifier::rlimit(60)]
proof fn lemma_block_close(pre: Seq<char>, name: Seq<char>, body: Seq<char>, post: Seq<char>)
    requires
        balanced_body(body, name, post),
    ensures
        balancing_close(
            pre + begin_marker(name) + body + end_marker(name) + post,
            name,
            (pre.len() + begin_marker(name).len()) as int,
            0,
        ) == Some((pre.len() + begin_marker(name).len() + body.len()) as int),
{
    let head = pre + begin_marker(name);
    let inner = body + end_marker(name) + post;
    lemma_block_parts(pre, begin_marker(name), body, end_marker(name), post);
    lemma_balancing_close_shift(head, inner, name, 0, 0);
}

/// In the block, what is left behind the closing marker is what is left of
/// `post`.
#[verifier::rlimit(60)]
proof fn lemma_block_rest(pre: Seq<char>, name: Seq<char>, body: Seq<char>, post: Seq<char>)
    ensures
        strip_nested_from(
            pre + begin_marker(name) + body + end_marker(name) + post,
            (pre.len() + begin_marker(name).len() + body.len() + end_marker(name).len()) as int,
        ) == strip_nested(post),
{
    let front = pre + begin_marker(name) + body + end_marker(name);
    lemma_block_parts(pre, begin_marker(name), body, end_marker(name), post);
    lemma_strip_nested_shift(front, post, 0);
}

/// In the block, the environment opens behind `pre`.
#[verifier::rlimit(60)]
proof fn lemma_block_opening(pre: Seq<char>, name: Seq<char>, body: Seq<char>, post: Seq<char>)
    requires
        name.len() > 0,
        forall|k: int| 0 <= k < name.len() ==> name[k] != '}',
    ensures
        arg_at(
            pre + begin_marker(name) + body + end_marker(name) + post,
            "\\begin{"@,
            pre.len() as int,
        ) == Some(
            (
                (pre.len() + "\\begin{"@.len()) as int,
                (pre.len() + "\\begin{"@.len() + name.len()) as int,
            ),
        ),
        (pre + begin_marker(name) + body + end_marker(name) + post).subrange(
            (pre.len() + "\\begin{"@.len()) as int,
            (pre.len() + "\\begin{"@.len() + name.len()) as int,
        ) == name,
        begin_marker(name).len() == "\\begin{"@.len() + name.len() + 1,
        (pre + begin_marker(name) + body + end_marker(name) + post).subrange(0, pre.len() as int)
            == pre,
        pre.len() < (pre + begin_marker(name) + body + end_marker(name) + post).len(),
{
    lemma_block_parts(pre, begin_marker(name), body, end_marker(name), post);
    lemma_opening(pre, name, body + end_marker(name) + post);
}

/// The block of `lemma_nested_labels_are_cut`, put together.
#[verifier::rlimit(60)]
proof fn lemma_cut_block(
    text: Seq<char>,
    pre: Seq<char>,
    name: Seq<char>,
    post: Seq<char>,
    start: int,
    end: int,
    close: int,
)
    requires
        0 <= pre.len() < text.len(),
        plain_before(text, pre.len() as int),
        text.subrange(0, pre.len() as int) == pre,
        arg_at(text, "\\begin{"@, pre.len() as int) == Some((start, end)),
        text.subrange(start, end) == name,
        balancing_close(text, name, end + 1, 0) == Some(close),
        strip_nested_from(text, close + end_marker(name).len()) == strip_nested(post),
    ensures
        strip_nested(text) == pre + strip_nested(post),
{
    lemma_region_is_cut(text, pre.len() as int, start, end, close);
}

/// A nested environment leaves nothing behind, and so no label that it
/// declares is among the top-level labels of the block.
///
/// The block is `pre`, then the environment `name` with `body` between its
/// markers, then `post`. No environment opens within `pre`, the name is not
/// empty and holds no closing brace, and the closing marker behind `body` is
/// the one that balances the opening: `body` is balanced in the name. Then
/// what is left of the block is `pre` followed by what is left of `post`,
/// and the labels of the block are those of that text: whatever `body`
/// declares is gone, also where `body` holds environments of the same name.
#[verifier::rlimit(60)]
pub proof fn lemma_nested_labels_are_cut(
    pre: Seq<char>,
    name: Seq<char>,
    body: Seq<char>,
    post: Seq<char>,
)
    requires
        name.len() > 0,
        forall|k: int| 0 <= k < name.len() ==> name[k] != '}',
        forall|i: int|
            0 <= i < pre.len() ==> arg_at(
                pre + begin_marker(name) + body + end_marker(name) + post,
                "\\begin{"@,
                i,
            ) is None,
        balanced_body(body, name, post),
    ensures
        strip_nested(pre + begin_marker(name) + body + end_marker(name) + post) == pre
            + strip_nested(post),
        top_level_labels(pre + begin_marker(name) + body + end_marker(name) + post) == all_args(
            pre + strip_nested(post),
            "\\label{"@,
            0,
        ),
{
    let text = pre + begin_marker(name) + body + end_marker(name) + post;
    let start = (pre.len() + "\\begin{"@.len()) as int;
    let end = start + name.len();
    let close = (pre.len() + begin_marker(name).len() + body.len()) as int;
    assert(plain_before(text, pre.len() as int)) by {
        reveal(plain_before);
    }
    lemma_block_opening(pre, name, body, post);
    lemma_block_close(pre, name, body, post);
    lemma_block_rest(pre, name, body, post);
    lemma_cut_block(text, pre, name, post, start, end, close);
}

} // verus!
