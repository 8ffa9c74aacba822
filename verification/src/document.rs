//! The statements and proofs of one document: where the environments stand,
//! which proof belongs to which statement, and what each block declares.
use crate::comments::{strip_comment_chars, strip_comments};
use crate::macros::{
    all_args, first_arg, has_marker, list_after, list_of, trim_each, trimmed_args,
};
use crate::model::{EnvView, LineRange, ParsedEnv, ProofView, StandaloneProof};
use crate::nesting::{begin_marker, end_marker, labels_in, top_level_labels};
use crate::text::{
    concat, contains, find, first_occurrence, lemma_first_occurrence, lemma_skip_spaces, line_at,
    line_of, matches_at, occurs_at, skip_spaces, skip_whitespace, subvec, to_chars, views,
};
use vstd::prelude::*;

verus! {

/// Where one environment stands in a text, as character indices: the whole
/// of it is `text[start..end]`, what stands between its two markers is
/// `text[content_start..content_end]`.
pub struct SpanView {
    pub start: int,
    pub content_start: int,
    pub content_end: int,
    pub end: int,
}

/// The environment `name` that opens at index `i`: its opening marker stands
/// there, and it reaches to the end of the first closing marker behind it.
/// An environment that declares a statement or a proof does not nest in one
/// of its own type: the first closing marker ends it, whatever opens in
/// between.
pub open spec fn env_at(text: Seq<char>, name: Seq<char>, i: int) -> Option<SpanView> {
    let open = begin_marker(name);
    let close = end_marker(name);
    if occurs_at(text, open, i) {
        match first_occurrence(text, close, i + open.len()) {
            Some(j) => Some(
                SpanView {
                    start: i,
                    content_start: i + open.len(),
                    content_end: j,
                    end: j + close.len(),
                },
            ),
            None => None,
        }
    } else {
        None
    }
}

/// The spans of `env_at` are in order and within the text, and not empty.
pub proof fn lemma_env_at(text: Seq<char>, name: Seq<char>, i: int)
    requires
        env_at(text, name, i) is Some,
    ensures
        env_at(text, name, i)->0.start == i,
        0 <= i < env_at(text, name, i)->0.content_start <= env_at(text, name, i)->0.content_end,
        env_at(text, name, i)->0.content_end < env_at(text, name, i)->0.end <= text.len(),
        occurs_at(text, begin_marker(name), i),
        occurs_at(text, end_marker(name), env_at(text, name, i)->0.content_end),
{
    reveal_strlit("\\begin{");
    reveal_strlit("\\end{");
    reveal_strlit("}");
    lemma_first_occurrence(text, end_marker(name), i + begin_marker(name).len());
}

/// The occurrences of the environment `name` in `text[from..]`, none
/// overlapping another: each is the leftmost that opens at or after the end
/// of the one before.
pub open spec fn env_spans(text: Seq<char>, name: Seq<char>, from: int) -> Seq<SpanView>
    decreases text.len() - from,
{
    if from < 0 || from >= text.len() {
        Seq::empty()
    } else {
        match env_at(text, name, from) {
            Some(span) => {
                proof {
                    lemma_env_at(text, name, from);
                }
                seq![span] + env_spans(text, name, span.end)
            },
            None => env_spans(text, name, from + 1),
        }
    }
}

/// The proof environment that follows index `after` with nothing but
/// whitespace in between.
pub open spec fn following_proof(text: Seq<char>, after: int) -> Option<SpanView> {
    env_at(text, "proof"@, skip_spaces(text, after))
}

/// What stands between the two markers of an environment.
pub open spec fn content_of(text: Seq<char>, span: SpanView) -> Seq<char> {
    text.subrange(span.content_start, span.content_end)
}

/// The labels that a block names as proved by it.
pub open spec fn proved_labels(content: Seq<char>) -> Seq<Seq<char>> {
    list_of(first_arg(content, "\\proves{"@, 0))
}

/// The proof that belongs to the statement ending at `after`: the proof
/// environment that follows it with nothing but whitespace in between,
/// unless that proof names what it proves by a back-reference.
pub open spec fn attached_proof(text: Seq<char>, after: int) -> Option<SpanView> {
    match following_proof(text, after) {
        Some(span) => if proved_labels(content_of(text, span)).len() == 0 {
            Some(span)
        } else {
            None
        },
        None => None,
    }
}

/// A proof is attached to a statement only if nothing but whitespace stands
/// between the end of the statement and the opening marker of the proof.
pub proof fn lemma_attached_proof_is_adjacent(text: Seq<char>, after: int)
    requires
        0 <= after <= text.len(),
        attached_proof(text, after) is Some,
    ensures
        after <= attached_proof(text, after)->0.start,
        occurs_at(text, begin_marker("proof"@), attached_proof(text, after)->0.start),
        forall|j: int| after <= j < attached_proof(text, after)->0.start ==> crate::text::is_space(
            #[trigger] text[j],
        ),
{
    lemma_skip_spaces(text, after);
    lemma_env_at(text, "proof"@, skip_spaces(text, after));
}

/// A proof environment that opens behind anything but whitespace is not
/// attached: where `text[gap]` is no whitespace and stands at or after the
/// end of the statement, no proof that opens behind it is the attached one.
pub proof fn lemma_separated_proof_is_not_attached(text: Seq<char>, after: int, gap: int)
    requires
        0 <= after <= gap < text.len(),
        !crate::text::is_space(text[gap]),
    ensures
        attached_proof(text, after) is Some ==> attached_proof(text, after)->0.start <= gap,
{
    lemma_skip_spaces(text, after);
    if attached_proof(text, after) is Some {
        lemma_env_at(text, "proof"@, skip_spaces(text, after));
    }
}

/// A proof that names what it proves by a back-reference is attached to no
/// statement, wherever it stands.
pub proof fn lemma_back_reference_is_not_attached(text: Seq<char>, after: int)
    requires
        following_proof(text, after) is Some,
        proved_labels(content_of(text, following_proof(text, after)->0)).len() > 0,
    ensures
        attached_proof(text, after) is None,
{
}

/// The lines on which an environment begins and ends.
pub open spec fn lines_of(text: Seq<char>, span: SpanView) -> LineRange {
    LineRange {
        lines_start: line_at(text, span.start) as usize,
        lines_end: line_at(text, span.end - 1) as usize,
    }
}

/// Each name with `probe:` before it.
pub open spec fn prefixed(names: Seq<Seq<char>>) -> Seq<Seq<char>> {
    Seq::new(names.len(), |i: int| "probe:"@ + names[i])
}

/// `Some(true)` for a flag that is set, nothing for one that is not.
pub open spec fn set_flag(flag: bool) -> Option<bool> {
    if flag {
        Some(true)
    } else {
        None
    }
}

/// A list, unless it is empty.
pub open spec fn non_empty(list: Seq<Seq<char>>) -> Option<Seq<Seq<char>>> {
    if list.len() > 0 {
        Some(list)
    } else {
        None
    }
}

/// The statement that the environment at `span` declares.
///
/// Its labels are those at its own top level, followed by those at the top
/// level of the attached proof. Its code name is the first name of its
/// `\lean` macro, with `probe:` before it, and the names are kept as a list
/// only if there is more than one. The fields of the proof side are present
/// only where the attached proof sets them.
pub open spec fn parsed_env(text: Seq<char>, path: Seq<char>, env_type: Seq<char>, span: SpanView)
    -> EnvView {
    let content = content_of(text, span);
    let names = list_of(first_arg(content, "\\lean{"@, 0));
    let attached = attached_proof(text, span.end);
    EnvView {
        env_type: env_type,
        relative_path: path,
        spec_lines: lines_of(text, span),
        proof_lines: match attached {
            Some(p) => Some(lines_of(text, p)),
            None => None,
        },
        labels: match attached {
            Some(p) => top_level_labels(content) + top_level_labels(content_of(text, p)),
            None => top_level_labels(content),
        },
        code_name: if names.len() > 0 {
            Some("probe:"@ + names[0])
        } else {
            None
        },
        lean_names: if names.len() > 1 {
            Some(prefixed(names))
        } else {
            None
        },
        spec_ok: contains(content, "\\leanok"@),
        mathlib_ok: contains(content, "\\mathlibok"@),
        not_ready: contains(content, "\\notready"@),
        discussion: trim_each(all_args(content, "\\discussion{"@, 0)),
        spec_dependencies: list_of(first_arg(content, "\\uses{"@, 0)),
        proof_ok: match attached {
            Some(p) => set_flag(contains(content_of(text, p), "\\leanok"@)),
            None => None,
        },
        proof_mathlib_ok: match attached {
            Some(p) => set_flag(contains(content_of(text, p), "\\mathlibok"@)),
            None => None,
        },
        proof_not_ready: match attached {
            Some(p) => set_flag(contains(content_of(text, p), "\\notready"@)),
            None => None,
        },
        proof_discussion: match attached {
            Some(p) => non_empty(trim_each(all_args(content_of(text, p), "\\discussion{"@, 0))),
            None => None,
        },
        proof_dependencies: match attached {
            Some(p) => non_empty(list_of(first_arg(content_of(text, p), "\\uses{"@, 0))),
            None => None,
        },
        proof_lean_names: match attached {
            Some(p) => non_empty(list_of(first_arg(content_of(text, p), "\\lean{"@, 0))),
            None => None,
        },
    }
}

/// The back-referenced proof that the proof environment at `span` declares.
pub open spec fn standalone_proof(text: Seq<char>, span: SpanView) -> ProofView {
    let content = content_of(text, span);
    ProofView {
        proves_labels: proved_labels(content),
        lines: lines_of(text, span),
        proof_ok: contains(content, "\\leanok"@),
        mathlib_ok: contains(content, "\\mathlibok"@),
        not_ready: contains(content, "\\notready"@),
        discussion: trim_each(all_args(content, "\\discussion{"@, 0)),
        dependencies: list_of(first_arg(content, "\\uses{"@, 0)),
        lean_names: list_of(first_arg(content, "\\lean{"@, 0)),
    }
}

/// Where one environment stands in a text, as character indices.
#[derive(Debug, Clone, Copy, PartialEq, Eq, Structural)]
pub struct Span {
    pub start: usize,
    pub content_start: usize,
    pub content_end: usize,
    pub end: usize,
}

impl View for Span {
    type V = SpanView;

    open spec fn view(&self) -> SpanView {
        SpanView {
            start: self.start as int,
            content_start: self.content_start as int,
            content_end: self.content_end as int,
            end: self.end as int,
        }
    }
}

/// The views of a list of spans.
pub open spec fn span_views(spans: Seq<Span>) -> Seq<SpanView> {
    Seq::new(spans.len(), |i: int| spans[i]@)
}

/// The opening and the closing marker of the environment `name`.
fn markers(name: &str) -> (r: (Vec<char>, Vec<char>))
    ensures
        r.0@ == begin_marker(name@),
        r.1@ == end_marker(name@),
{
    let mut open = to_chars("\\begin{");
    let mut close = to_chars("\\end{");
    let chars = to_chars(name);
    let mut i: usize = 0;
    while i < chars.len()
        invariant
            i <= chars.len(),
            open@ == "\\begin{"@ + chars@.take(i as int),
            close@ == "\\end{"@ + chars@.take(i as int),
        decreases chars.len() - i,
    {
        open.push(chars[i]);
        close.push(chars[i]);
        assert(chars@.take(i + 1) =~= chars@.take(i as int).push(chars@[i as int]));
        i = i + 1;
    }
    open.push('}');
    close.push('}');
    proof {
        reveal_strlit("}");
        assert("}"@ =~= seq!['}']);
        assert(chars@.take(chars.len() as int) =~= chars@);
        assert(open@ =~= begin_marker(name@));
        assert(close@ =~= end_marker(name@));
    }
    (open, close)
}

/// The environment that opens at index `i`, given its two markers.
fn match_env(text: &Vec<char>, open: &Vec<char>, close: &Vec<char>, i: usize, Ghost(name): Ghost<
    Seq<char>,
>) -> (r: Option<Span>)
    requires
        open@ == begin_marker(name),
        close@ == end_marker(name),
    ensures
        match r {
            Some(span) => env_at(text@, name, i as int) == Some(span@) && i == span.start
                < span.content_start <= span.content_end < span.end <= text.len(),
            None => env_at(text@, name, i as int) is None,
        },
{
    if !matches_at(text, open, i) {
        return None;
    }
    assert(i + open.len() <= text.len());
    let content_start = i + open.len();
    match find(text, close, content_start) {
        Some(j) => {
            proof {
                lemma_env_at(text@, name, i as int);
            }
            Some(
                Span {
                    start: i,
                    content_start: content_start,
                    content_end: j,
                    end: j + close.len(),
                },
            )
        },
        None => None,
    }
}

/// The occurrences of the environment `name` in `text`: see `env_spans`.
pub fn find_envs(text: &Vec<char>, name: &str) -> (spans: Vec<Span>)
    ensures
        span_views(spans@) == env_spans(text@, name@, 0),
        forall|k: int|
            0 <= k < spans.len() ==> (#[trigger] spans[k]).start < spans[k].content_start
                <= spans[k].content_end < spans[k].end <= text.len(),
{
    let (open, close) = markers(name);
    let mut spans: Vec<Span> = Vec::new();
    let mut i: usize = 0;
    assert(span_views(spans@) =~= Seq::empty());
    while i < text.len()
        invariant
            i <= text.len(),
            open@ == begin_marker(name@),
            close@ == end_marker(name@),
            span_views(spans@) + env_spans(text@, name@, i as int) == env_spans(text@, name@, 0),
            forall|k: int|
                0 <= k < spans.len() ==> (#[trigger] spans[k]).start < spans[k].content_start
                    <= spans[k].content_end < spans[k].end <= text.len(),
        decreases text.len() - i,
    {
        let ghost before = span_views(spans@);
        match match_env(text, &open, &close, i, Ghost(name@)) {
            Some(span) => {
                spans.push(span);
                proof {
                    let rest = env_spans(text@, name@, span.end as int);
                    assert(span_views(spans@) =~= before.push(span@));
                    assert(before.push(span@) + rest =~= before + (seq![span@] + rest));
                }
                i = span.end;
            },
            None => {
                i = i + 1;
            },
        }
    }
    proof {
        assert(span_views(spans@) + Seq::<SpanView>::empty() =~= span_views(spans@));
    }
    spans
}

/// The proof environment that follows index `after` with nothing but
/// whitespace in between.
pub fn find_following_proof(text: &Vec<char>, after: usize) -> (r: Option<Span>)
    requires
        after <= text.len(),
    ensures
        match r {
            Some(span) => following_proof(text@, after as int) == Some(span@) && after
                <= span.start < span.content_start <= span.content_end < span.end <= text.len(),
            None => following_proof(text@, after as int) is None,
        },
{
    let (open, close) = markers("proof");
    let i = skip_whitespace(text, after);
    match_env(text, &open, &close, i, Ghost("proof"@))
}

/// The lines on which an environment begins and ends.
fn span_lines(text: &Vec<char>, span: Span) -> (lines: LineRange)
    requires
        span.start < span.end <= text.len(),
    ensures
        lines == lines_of(text@, span@),
{
    LineRange { lines_start: line_of(text, span.start), lines_end: line_of(text, span.end - 1) }
}

/// An environment with the index of its type in the list of types.
pub struct PlacedView {
    pub kind: int,
    pub span: SpanView,
}

/// An environment with the index of its type in the list of types.
#[derive(Debug, Clone, Copy, PartialEq, Eq, Structural)]
pub struct Placed {
    pub kind: usize,
    pub span: Span,
}

impl View for Placed {
    type V = PlacedView;

    open spec fn view(&self) -> PlacedView {
        PlacedView { kind: self.kind as int, span: self.span@ }
    }
}

/// The views of a list of placed environments.
pub open spec fn placed_views(list: Seq<Placed>) -> Seq<PlacedView> {
    Seq::new(list.len(), |i: int| list[i]@)
}

/// The spans of one type, each with the index of the type.
pub open spec fn placed(spans: Seq<SpanView>, kind: int) -> Seq<PlacedView> {
    Seq::new(spans.len(), |i: int| PlacedView { kind: kind, span: spans[i] })
}

/// Two lists in one, by the index at which each environment starts. Where
/// two start at the same index, the one of `a` comes first.
pub open spec fn merge_spans(a: Seq<PlacedView>, b: Seq<PlacedView>) -> Seq<PlacedView>
    decreases a.len() + b.len(),
{
    if a.len() == 0 {
        b
    } else if b.len() == 0 {
        a
    } else if a[0].span.start <= b[0].span.start {
        seq![a[0]] + merge_spans(a.drop_first(), b)
    } else {
        seq![b[0]] + merge_spans(a, b.drop_first())
    }
}

/// The environments of all `types` in `text`, by the index at which each
/// starts. The occurrences of each type are found on their own, whatever
/// the other types are; where two start at the same index, the one whose
/// type comes first in `types` comes first.
pub open spec fn all_spans(text: Seq<char>, types: Seq<Seq<char>>) -> Seq<PlacedView>
    decreases types.len(),
{
    if types.len() == 0 {
        Seq::empty()
    } else {
        merge_spans(
            all_spans(text, types.drop_last()),
            placed(env_spans(text, types.last(), 0), types.len() - 1),
        )
    }
}

/// The statements of a document, in the order in which they start: the
/// comments are stripped, the environments of all `types` are found, and
/// each is read as `parsed_env` says.
pub open spec fn parse_document(content: Seq<char>, path: Seq<char>, types: Seq<Seq<char>>) -> Seq<
    EnvView,
> {
    let text = strip_comments(content);
    let spans = all_spans(text, types);
    Seq::new(
        spans.len(),
        |k: int| parsed_env(text, path, types[spans[k].kind], spans[k].span),
    )
}

/// Those of `spans` that hold a back-reference, each read as a proof.
pub open spec fn proofs_of(text: Seq<char>, spans: Seq<SpanView>) -> Seq<ProofView>
    decreases spans.len(),
{
    if spans.len() == 0 {
        Seq::empty()
    } else {
        let rest = proofs_of(text, spans.drop_last());
        if proved_labels(content_of(text, spans.last())).len() > 0 {
            rest.push(standalone_proof(text, spans.last()))
        } else {
            rest
        }
    }
}

/// The back-referenced proofs of a document, in the order in which they
/// start: the comments are stripped, and every proof environment that names
/// at least one label as proved by it is read as `standalone_proof` says.
pub open spec fn standalone_proofs(content: Seq<char>) -> Seq<ProofView> {
    let text = strip_comments(content);
    proofs_of(text, env_spans(text, "proof"@, 0))
}

/// The views of a list of statements.
pub open spec fn env_views(envs: Seq<ParsedEnv>) -> Seq<EnvView> {
    Seq::new(envs.len(), |i: int| envs[i]@)
}

/// The views of a list of proofs.
pub open spec fn proof_list_views(proofs: Seq<StandaloneProof>) -> Seq<ProofView> {
    Seq::new(proofs.len(), |i: int| proofs[i]@)
}

/// Every environment of `list` lies within a text of `len` characters, and
/// its type is one of the first `kinds`.
pub open spec fn placed_within(list: Seq<Placed>, len: int, kinds: int) -> bool {
    forall|k: int|
        0 <= k < list.len() ==> (#[trigger] list[k]).kind < kinds && list[k].span.start
            < list[k].span.content_start <= list[k].span.content_end < list[k].span.end <= len
}

/// Merges the environments of one more type into the list: see
/// `merge_spans`.
fn merge_in(a: &Vec<Placed>, b: &Vec<Span>, kind: usize) -> (out: Vec<Placed>)
    ensures
        placed_views(out@) == merge_spans(placed_views(a@), placed(span_views(b@), kind as int)),
        forall|len: int, kinds: int|
            placed_within(a@, len, kinds) && kind < kinds && (forall|k: int|
                0 <= k < b.len() ==> (#[trigger] b[k]).start < b[k].content_start
                    <= b[k].content_end < b[k].end <= len) ==> placed_within(out@, len, kinds),
{
    let ghost av = placed_views(a@);
    let ghost bv = placed(span_views(b@), kind as int);
    let mut out: Vec<Placed> = Vec::new();
    let mut i: usize = 0;
    let mut j: usize = 0;
    proof {
        assert(av.skip(0) =~= av);
        assert(bv.skip(0) =~= bv);
        assert(placed_views(out@) =~= Seq::empty());
        assert(Seq::<PlacedView>::empty() + merge_spans(av, bv) =~= merge_spans(av, bv));
    }
    while i < a.len() || j < b.len()
        invariant
            i <= a.len(),
            j <= b.len(),
            av == placed_views(a@),
            bv == placed(span_views(b@), kind as int),
            placed_views(out@) + merge_spans(av.skip(i as int), bv.skip(j as int)) == merge_spans(
                av,
                bv,
            ),
            forall|k: int|
                0 <= k < out.len() ==> (exists|m: int| 0 <= m < a.len() && out[k] == a[m]) || (
                exists|m: int|
                    0 <= m < b.len() && (#[trigger] out[k]) == (Placed { kind: kind, span: b[m] })),
        decreases (a.len() - i) + (b.len() - j),
    {
        let ghost before = placed_views(out@);
        let ghost ra = av.skip(i as int);
        let ghost rb = bv.skip(j as int);
        let take_a = if i == a.len() {
            false
        } else if j == b.len() {
            true
        } else {
            a[i].span.start <= b[j].start
        };
        proof {
            if i < a.len() {
                assert(ra[0] == av[i as int]);
                assert(ra.drop_first() =~= av.skip(i + 1));
            }
            if j < b.len() {
                assert(rb[0] == bv[j as int]);
                assert(rb.drop_first() =~= bv.skip(j + 1));
            }
        }
        if take_a {
            out.push(a[i]);
            proof {
                let rest = merge_spans(av.skip(i + 1), rb);
                if rb.len() == 0 {
                    assert(merge_spans(ra, rb) == ra);
                    assert(merge_spans(av.skip(i + 1), rb) =~= av.skip(i + 1)) by {
                        if av.skip(i + 1).len() == 0 {
                            assert(av.skip(i + 1) =~= rb);
                        }
                    }
                    assert(ra =~= seq![ra[0]] + av.skip(i + 1));
                }
                assert(merge_spans(ra, rb) =~= seq![ra[0]] + rest);
                assert(placed_views(out@) =~= before.push(ra[0]));
                assert(before.push(ra[0]) + rest =~= before + (seq![ra[0]] + rest));
                assert(out[out.len() - 1] == a[i as int]);
            }
            i = i + 1;
        } else {
            out.push(Placed { kind: kind, span: b[j] });
            proof {
                let rest = merge_spans(ra, bv.skip(j + 1));
                if ra.len() == 0 {
                    assert(merge_spans(ra, rb) == rb);
                    assert(merge_spans(ra, bv.skip(j + 1)) == bv.skip(j + 1));
                    assert(rb =~= seq![rb[0]] + bv.skip(j + 1));
                }
                assert(merge_spans(ra, rb) =~= seq![rb[0]] + rest);
                assert(placed_views(out@) =~= before.push(rb[0]));
                assert(before.push(rb[0]) + rest =~= before + (seq![rb[0]] + rest));
                assert(out[out.len() - 1] == (Placed { kind: kind, span: b[j as int] }));
            }
            j = j + 1;
        }
    }
    proof {
        assert(av.skip(i as int) =~= Seq::empty());
        assert(placed_views(out@) + Seq::<PlacedView>::empty() =~= placed_views(out@));
    }
    out
}

/// Each name with `probe:` before it.
fn prefix_all(names: &Vec<String>) -> (r: Vec<String>)
    ensures
        views(r@) == prefixed(views(names@)),
{
    let mut out: Vec<String> = Vec::new();
    let mut i: usize = 0;
    while i < names.len()
        invariant
            i <= names.len(),
            out.len() == i,
            forall|k: int| 0 <= k < i ==> (#[trigger] out[k])@ == "probe:"@ + names[k]@,
        decreases names.len() - i,
    {
        out.push(concat("probe:", names[i].as_str()));
        i = i + 1;
    }
    assert(views(out@) =~= prefixed(views(names@)));
    out
}

/// A list, unless it is empty.
fn keep_non_empty(list: Vec<String>) -> (r: Option<Vec<String>>)
    ensures
        crate::text::opt_views(r) == non_empty(views(list@)),
{
    if list.len() > 0 {
        Some(list)
    } else {
        None
    }
}

/// `Some(true)` for a flag that is set, nothing for one that is not.
fn keep_flag(flag: bool) -> (r: Option<bool>)
    ensures
        r == set_flag(flag),
{
    if flag {
        Some(true)
    } else {
        None
    }
}

/// The proof that belongs to the statement ending at `after`, with what
/// stands between its markers: see `attached_proof`.
fn find_attached_proof(text: &Vec<char>, after: usize) -> (r: Option<(Span, Vec<char>)>)
    requires
        after <= text.len(),
    ensures
        match r {
            Some((span, content)) => attached_proof(text@, after as int) == Some(span@) && content@
                == content_of(text@, span@) && span.start < span.end <= text.len(),
            None => attached_proof(text@, after as int) is None,
        },
{
    match find_following_proof(text, after) {
        Some(span) => {
            let content = subvec(text, span.content_start, span.content_end);
            let proves = list_after(&content, "\\proves{");
            if proves.len() == 0 {
                Some((span, content))
            } else {
                None
            }
        },
        None => None,
    }
}

/// The statement that the environment at `span` declares: see `parsed_env`.
fn parse_env(text: &Vec<char>, path: &str, env_type: &str, span: Span) -> (env: ParsedEnv)
    requires
        span.start < span.content_start <= span.content_end < span.end <= text.len(),
    ensures
        env@ == parsed_env(text@, path@, env_type@, span@),
{
    let content = subvec(text, span.content_start, span.content_end);
    let mut labels = labels_in(&content);
    let names = list_after(&content, "\\lean{");
    let code_name = if names.len() > 0 {
        Some(concat("probe:", names[0].as_str()))
    } else {
        None
    };
    let lean_names = if names.len() > 1 {
        Some(prefix_all(&names))
    } else {
        None
    };
    let spec_lines = span_lines(text, span);
    let spec_ok = has_marker(&content, "\\leanok");
    let mathlib_ok = has_marker(&content, "\\mathlibok");
    let not_ready = has_marker(&content, "\\notready");
    let discussion = trimmed_args(&content, "\\discussion{");
    let spec_dependencies = list_after(&content, "\\uses{");
    match find_attached_proof(text, span.end) {
        Some((p, body)) => {
            let ghost own = views(labels@);
            let mut more = labels_in(&body);
            let ghost added = views(more@);
            labels.append(&mut more);
            assert(views(labels@) =~= own + added);
            ParsedEnv {
                env_type: env_type.to_owned(),
                relative_path: path.to_owned(),
                spec_lines: spec_lines,
                proof_lines: Some(span_lines(text, p)),
                labels: labels,
                code_name: code_name,
                lean_names: lean_names,
                spec_ok: spec_ok,
                mathlib_ok: mathlib_ok,
                not_ready: not_ready,
                discussion: discussion,
                spec_dependencies: spec_dependencies,
                proof_ok: keep_flag(has_marker(&body, "\\leanok")),
                proof_mathlib_ok: keep_flag(has_marker(&body, "\\mathlibok")),
                proof_not_ready: keep_flag(has_marker(&body, "\\notready")),
                proof_discussion: keep_non_empty(trimmed_args(&body, "\\discussion{")),
                proof_dependencies: keep_non_empty(list_after(&body, "\\uses{")),
                proof_lean_names: keep_non_empty(list_after(&body, "\\lean{")),
            }
        },
        None => ParsedEnv {
            env_type: env_type.to_owned(),
            relative_path: path.to_owned(),
            spec_lines: spec_lines,
            proof_lines: None,
            labels: labels,
            code_name: code_name,
            lean_names: lean_names,
            spec_ok: spec_ok,
            mathlib_ok: mathlib_ok,
            not_ready: not_ready,
            discussion: discussion,
            spec_dependencies: spec_dependencies,
            proof_ok: None,
            proof_mathlib_ok: None,
            proof_not_ready: None,
            proof_discussion: None,
            proof_dependencies: None,
            proof_lean_names: None,
        },
    }
}

/// The statements of a document, in the order in which they start.
///
/// `env_types` names the environments that declare a statement. The
/// occurrences of each type are found on their own, then all are put in
/// order of their start. Comments count for nothing, but lines are counted
/// as in the document as it stands.
pub fn parse_tex_file(content: &str, relative_path: &str, env_types: &[String]) -> (envs: Vec<
    ParsedEnv,
>)
    ensures
        env_views(envs@) == parse_document(content@, relative_path@, views(env_types@)),
{
    let raw = to_chars(content);
    let text = strip_comment_chars(&raw);
    let ghost types = views(env_types@);
    let mut all: Vec<Placed> = Vec::new();
    let mut k: usize = 0;
    proof {
        assert(types.take(0) =~= Seq::empty());
        assert(placed_views(all@) =~= Seq::empty());
    }
    while k < env_types.len()
        invariant
            k <= env_types.len(),
            types == views(env_types@),
            placed_views(all@) == all_spans(text@, types.take(k as int)),
            placed_within(all@, text.len() as int, k as int),
        decreases env_types.len() - k,
    {
        let spans = find_envs(&text, env_types[k].as_str());
        proof {
            assert(types.take(k + 1).drop_last() =~= types.take(k as int));
            assert(types.take(k + 1).last() == env_types@[k as int]@);
            assert(placed_within(all@, text.len() as int, k + 1));
        }
        all = merge_in(&all, &spans, k);
        k = k + 1;
    }
    proof {
        assert(types.take(k as int) =~= types);
    }
    let mut envs: Vec<ParsedEnv> = Vec::new();
    let mut i: usize = 0;
    while i < all.len()
        invariant
            i <= all.len(),
            envs.len() == i,
            types == views(env_types@),
            placed_within(all@, text.len() as int, env_types.len() as int),
            forall|m: int|
                0 <= m < i ==> (#[trigger] envs[m])@ == parsed_env(
                    text@,
                    relative_path@,
                    types[all[m].kind as int],
                    all[m].span@,
                ),
        decreases all.len() - i,
    {
        let p = all[i];
        envs.push(parse_env(&text, relative_path, env_types[p.kind].as_str(), p.span));
        i = i + 1;
    }
    proof {
        assert(env_views(envs@) =~= parse_document(content@, relative_path@, types));
    }
    envs
}

/// The back-referenced proofs of a document, in the order in which they
/// start: see `standalone_proofs`.
pub fn find_standalone_proofs(content: &str, relative_path: &str) -> (proofs: Vec<StandaloneProof>)
    ensures
        proof_list_views(proofs@) == standalone_proofs(content@),
{
    let raw = to_chars(content);
    let text = strip_comment_chars(&raw);
    let spans = find_envs(&text, "proof");
    let ghost all = span_views(spans@);
    let mut proofs: Vec<StandaloneProof> = Vec::new();
    let mut i: usize = 0;
    proof {
        assert(all.take(0) =~= Seq::empty());
        assert(proof_list_views(proofs@) =~= Seq::empty());
    }
    while i < spans.len()
        invariant
            i <= spans.len(),
            all == span_views(spans@),
            proof_list_views(proofs@) == proofs_of(text@, all.take(i as int)),
            forall|k: int|
                0 <= k < spans.len() ==> (#[trigger] spans[k]).start < spans[k].content_start
                    <= spans[k].content_end < spans[k].end <= text.len(),
        decreases spans.len() - i,
    {
        let span = spans[i];
        let content = subvec(&text, span.content_start, span.content_end);
        let proves = list_after(&content, "\\proves{");
        let ghost before = proof_list_views(proofs@);
        proof {
            assert(all.take(i + 1).drop_last() =~= all.take(i as int));
            assert(all.take(i + 1).last() == span@);
        }
        if proves.len() > 0 {
            let found = StandaloneProof {
                proves_labels: proves,
                lines: span_lines(&text, span),
                proof_ok: has_marker(&content, "\\leanok"),
                mathlib_ok: has_marker(&content, "\\mathlibok"),
                not_ready: has_marker(&content, "\\notready"),
                discussion: trimmed_args(&content, "\\discussion{"),
                dependencies: list_after(&content, "\\uses{"),
                lean_names: list_after(&content, "\\lean{"),
            };
            proofs.push(found);
            assert(proof_list_views(proofs@) =~= before.push(standalone_proof(text@, span@)));
        }
        i = i + 1;
    }
    proof {
        assert(all.take(i as int) =~= all);
    }
    proofs
}

/// Each environment of the list ends before the next begins.
pub open spec fn disjoint_in_order(spans: Seq<SpanView>) -> bool {
    forall|i: int, j: int|
        0 <= i < j < spans.len() ==> (#[trigger] spans[i]).end <= (#[trigger] spans[j]).start
}

/// The environments of the list stand in the order of their starts.
pub open spec fn ordered_by_start(list: Seq<PlacedView>) -> bool {
    forall|i: int, j: int|
        0 <= i < j < list.len() ==> (#[trigger] list[i]).span.start <= (#[trigger] list[j]).span.start
}

/// No environment of the list starts before `bound`.
pub open spec fn starts_from(list: Seq<PlacedView>, bound: int) -> bool {
    forall|i: int| 0 <= i < list.len() ==> bound <= (#[trigger] list[i]).span.start
}

/// The occurrences of one type do not overlap and stand in order, none
/// starts before `from`, and each is the environment that opens where it
/// starts.
pub proof fn lemma_env_spans(text: Seq<char>, name: Seq<char>, from: int)
    requires
        0 <= from,
    ensures
        disjoint_in_order(env_spans(text, name, from)),
        forall|i: int|
            0 <= i < env_spans(text, name, from).len() ==> {
                let span = #[trigger] env_spans(text, name, from)[i];
                from <= span.start < span.end <= text.len() && env_at(text, name, span.start)
                    == Some(span)
            },
    decreases text.len() - from,
{
    if from < text.len() {
        match env_at(text, name, from) {
            Some(span) => {
                lemma_env_at(text, name, from);
                lemma_env_spans(text, name, span.end);
                let rest = env_spans(text, name, span.end);
                let all = env_spans(text, name, from);
                assert(all == seq![span] + rest);
                assert forall|i: int| 0 <= i < all.len() implies {
                    let sp = #[trigger] all[i];
                    from <= sp.start < sp.end <= text.len() && env_at(text, name, sp.start) == Some(
                        sp,
                    )
                } by {
                    if i > 0 {
                        assert(all[i] == rest[i - 1]);
                    }
                }
                assert forall|i: int, j: int| 0 <= i < j < all.len() implies (#[trigger] all[i]).end
                    <= (#[trigger] all[j]).start by {
                    assert(all[j] == rest[j - 1]);
                    if i > 0 {
                        assert(all[i] == rest[i - 1]);
                    }
                }
            },
            None => {
                lemma_env_spans(text, name, from + 1);
            },
        }
    }
}

/// Two lists in order give a merged list in order, which holds as many
/// environments as both together and starts where they start.
pub proof fn lemma_merge_spans(a: Seq<PlacedView>, b: Seq<PlacedView>, bound: int)
    requires
        ordered_by_start(a),
        ordered_by_start(b),
        starts_from(a, bound),
        starts_from(b, bound),
    ensures
        ordered_by_start(merge_spans(a, b)),
        starts_from(merge_spans(a, b), bound),
        merge_spans(a, b).len() == a.len() + b.len(),
    decreases a.len() + b.len(),
{
    if a.len() > 0 && b.len() > 0 {
        let take_a = a[0].span.start <= b[0].span.start;
        let head = if take_a {
            a[0]
        } else {
            b[0]
        };
        let a1 = if take_a {
            a.drop_first()
        } else {
            a
        };
        let b1 = if take_a {
            b
        } else {
            b.drop_first()
        };
        assert forall|i: int| 0 <= i < a1.len() implies head.span.start <= (#[trigger] a1[i]).span.start by {
            if take_a {
                assert(a1[i] == a[i + 1]);
            } else {
                assert(a1[i] == a[i]);
                if i > 0 {
                    assert(a[0].span.start <= a[i].span.start);
                }
            }
        }
        assert forall|i: int| 0 <= i < b1.len() implies head.span.start <= (#[trigger] b1[i]).span.start by {
            if take_a {
                assert(b1[i] == b[i]);
                if i > 0 {
                    assert(b[0].span.start <= b[i].span.start);
                }
            } else {
                assert(b1[i] == b[i + 1]);
            }
        }
        assert(ordered_by_start(a1)) by {
            if take_a {
                assert forall|i: int, j: int| 0 <= i < j < a1.len() implies (#[trigger] a1[i]).span.start
                    <= (#[trigger] a1[j]).span.start by {
                    assert(a1[i] == a[i + 1] && a1[j] == a[j + 1]);
                }
            }
        }
        assert(ordered_by_start(b1)) by {
            if !take_a {
                assert forall|i: int, j: int| 0 <= i < j < b1.len() implies (#[trigger] b1[i]).span.start
                    <= (#[trigger] b1[j]).span.start by {
                    assert(b1[i] == b[i + 1] && b1[j] == b[j + 1]);
                }
            }
        }
        lemma_merge_spans(a1, b1, head.span.start);
        let rest = merge_spans(a1, b1);
        let all = merge_spans(a, b);
        assert(all == seq![head] + rest);
        assert forall|i: int, j: int| 0 <= i < j < all.len() implies (#[trigger] all[i]).span.start
            <= (#[trigger] all[j]).span.start by {
            assert(all[j] == rest[j - 1]);
            if i > 0 {
                assert(all[i] == rest[i - 1]);
            }
        }
        assert forall|i: int| 0 <= i < all.len() implies bound <= (#[trigger] all[i]).span.start by {
            if i > 0 {
                assert(all[i] == rest[i - 1]);
            } else {
                assert(head == a[0] || head == b[0]);
            }
        }
    }
}

/// The environments of all types stand in the order of their starts.
pub proof fn lemma_all_spans_ordered(text: Seq<char>, types: Seq<Seq<char>>)
    ensures
        ordered_by_start(all_spans(text, types)),
        starts_from(all_spans(text, types), 0),
    decreases types.len(),
{
    if types.len() > 0 {
        lemma_all_spans_ordered(text, types.drop_last());
        lemma_env_spans(text, types.last(), 0);
        let spans = env_spans(text, types.last(), 0);
        let own = placed(spans, types.len() - 1);
        assert forall|i: int, j: int| 0 <= i < j < own.len() implies (#[trigger] own[i]).span.start
            <= (#[trigger] own[j]).span.start by {
            assert(spans[i].end <= spans[j].start);
        }
        assert forall|i: int| 0 <= i < own.len() implies 0 <= (#[trigger] own[i]).span.start by {
            assert(0 <= spans[i].start);
        }
        lemma_merge_spans(all_spans(text, types.drop_last()), own, 0);
    }
}

} // verus!
