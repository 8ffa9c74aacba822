//! What a project declares about itself: its three addresses, and the
//! environments that count as statements.
use crate::macros::{first_arg, first_trimmed, trimmed};
use crate::text::{
    find_char, lemma_next_char, matches_at, next_char, occurs_at, opt_view, skip_spaces,
    skip_whitespace, subvec, to_chars, trim, trim_to_string, views,
};
use vstd::prelude::*;

verus! {

/// The addresses that a project declares, each present only if declared.
#[derive(Debug, Clone)]
pub struct Config {
    pub home: Option<String>,
    pub github: Option<String>,
    pub dochome: Option<String>,
}

/// The view of a `Config`.
pub struct ConfigView {
    pub home: Option<Seq<char>>,
    pub github: Option<Seq<char>>,
    pub dochome: Option<Seq<char>>,
}

impl View for Config {
    type V = ConfigView;

    open spec fn view(&self) -> ConfigView {
        ConfigView {
            home: opt_view(self.home),
            github: opt_view(self.github),
            dochome: opt_view(self.dochome),
        }
    }
}

impl Default for Config {
    /// A configuration that declares nothing.
    fn default() -> (c: Config)
        ensures
            c@ == (ConfigView { home: None, github: None, dochome: None }),
    {
        Config { home: None, github: None, dochome: None }
    }
}

/// What a document declares: for each address the argument of the first of
/// its macros, without leading and trailing whitespace.
pub open spec fn config_of(content: Seq<char>) -> ConfigView {
    ConfigView {
        home: trimmed(first_arg(content, "\\home{"@, 0)),
        github: trimmed(first_arg(content, "\\github{"@, 0)),
        dochome: trimmed(first_arg(content, "\\dochome{"@, 0)),
    }
}

/// `other` where it declares something, else `base`.
pub open spec fn or_else(other: Option<Seq<char>>, base: Option<Seq<char>>) -> Option<Seq<char>> {
    if other is Some {
        other
    } else {
        base
    }
}

/// Two configurations in one: what `other` declares wins over `base`.
pub open spec fn merged_config(base: ConfigView, other: ConfigView) -> ConfigView {
    ConfigView {
        home: or_else(other.home, base.home),
        github: or_else(other.github, base.github),
        dochome: or_else(other.dochome, base.dochome),
    }
}

/// The address that the first `\home{..}` of a document declares.
pub fn extract_home(content: &str) -> (r: Option<String>)
    ensures
        opt_view(r) == trimmed(first_arg(content@, "\\home{"@, 0)),
{
    first_trimmed(&to_chars(content), "\\home{")
}

/// The address that the first `\github{..}` of a document declares.
pub fn extract_github(content: &str) -> (r: Option<String>)
    ensures
        opt_view(r) == trimmed(first_arg(content@, "\\github{"@, 0)),
{
    first_trimmed(&to_chars(content), "\\github{")
}

/// The address that the first `\dochome{..}` of a document declares.
pub fn extract_dochome(content: &str) -> (r: Option<String>)
    ensures
        opt_view(r) == trimmed(first_arg(content@, "\\dochome{"@, 0)),
{
    first_trimmed(&to_chars(content), "\\dochome{")
}

/// What a document declares about the project.
pub fn extract_config(content: &str) -> (config: Config)
    ensures
        config@ == config_of(content@),
{
    let text = to_chars(content);
    Config {
        home: first_trimmed(&text, "\\home{"),
        github: first_trimmed(&text, "\\github{"),
        dochome: first_trimmed(&text, "\\dochome{"),
    }
}

/// `other` where it declares something, else `base`.
fn pick(other: Option<String>, base: Option<String>) -> (r: Option<String>)
    ensures
        opt_view(r) == or_else(opt_view(other), opt_view(base)),
{
    match other {
        Some(s) => Some(s),
        None => base,
    }
}

/// Merges two configurations: what `other` declares wins over `base`.
pub fn merge_config(base: Config, other: Config) -> (merged: Config)
    ensures
        merged@ == merged_config(base@, other@),
{
    Config {
        home: pick(other.home, base.home),
        github: pick(other.github, base.github),
        dochome: pick(other.dochome, base.dochome),
    }
}

/// The environments that count as statements where a project names none.
pub open spec fn default_envs() -> Seq<Seq<char>> {
    seq!["definition"@, "lemma"@, "proposition"@, "theorem"@, "corollary"@]
}

/// The environments that count as statements where a project names none.
pub fn default_env_types() -> (types: Vec<String>)
    ensures
        views(types@) == default_envs(),
{
    let mut types: Vec<String> = Vec::new();
    types.push("definition".to_owned());
    types.push("lemma".to_owned());
    types.push("proposition".to_owned());
    types.push("theorem".to_owned());
    types.push("corollary".to_owned());
    assert(views(types@) =~= default_envs());
    types
}

/// The options of a `\usepackage[..]{blueprint}` that starts at index `i`,
/// as the indices where they start and end. Whitespace may stand before the
/// opening bracket and behind the closing one; the options run to the first
/// closing bracket.
pub open spec fn package_options_at(text: Seq<char>, i: int) -> Option<(int, int)> {
    let bracket = skip_spaces(text, i + "\\usepackage"@.len());
    let close = next_char(text, ']', bracket + 1);
    let brace = skip_spaces(text, close + 1);
    if occurs_at(text, "\\usepackage"@, i) && bracket < text.len() && text[bracket] == '[' && close
        < text.len() && occurs_at(text, "{blueprint}"@, brace) {
        Some((bracket + 1, close))
    } else {
        None
    }
}

/// The options of the first `\usepackage[..]{blueprint}` at or after `from`.
pub open spec fn package_options(text: Seq<char>, from: int) -> Option<Seq<char>>
    decreases text.len() - from,
{
    if from < 0 || from >= text.len() {
        None
    } else {
        match package_options_at(text, from) {
            Some((start, end)) => Some(text.subrange(start, end)),
            None => package_options(text, from + 1),
        }
    }
}

/// The characters that a `thms` option may hold: letters, `+` and `_`.
pub open spec fn is_thm_char(c: char) -> bool {
    ('a' <= c <= 'z') || ('A' <= c <= 'Z') || c == '+' || c == '_'
}

/// The index of the first character at or after `from` that a `thms` option
/// may not hold, or `text.len()` when there is none.
pub open spec fn thm_run_end(text: Seq<char>, from: int) -> int
    decreases text.len() - from,
{
    if from < 0 || from >= text.len() {
        text.len() as int
    } else if !is_thm_char(text[from]) {
        from
    } else {
        thm_run_end(text, from + 1)
    }
}

/// The value of a `thms = ..` option that starts at index `i`: whitespace
/// may stand on both sides of the equals sign, and the value is the longest
/// run of letters, `+` and `_` behind it, which is not empty.
pub open spec fn thms_value_at(options: Seq<char>, i: int) -> Option<(int, int)> {
    let equals = skip_spaces(options, i + "thms"@.len());
    let start = skip_spaces(options, equals + 1);
    let end = thm_run_end(options, start);
    if occurs_at(options, "thms"@, i) && equals < options.len() && options[equals] == '='
        && start < end {
        Some((start, end))
    } else {
        None
    }
}

/// The value of the first `thms = ..` option at or after `from`.
pub open spec fn thms_value(options: Seq<char>, from: int) -> Option<Seq<char>>
    decreases options.len() - from,
{
    if from < 0 || from >= options.len() {
        None
    } else {
        match thms_value_at(options, from) {
            Some((start, end)) => Some(options.subrange(start, end)),
            None => thms_value(options, from + 1),
        }
    }
}

/// The parts of `s[from..]` between its `+` signs, each without its leading
/// and trailing whitespace. An empty part is a part.
pub open spec fn plus_parts(s: Seq<char>, from: int) -> Seq<Seq<char>>
    decreases s.len() - from,
{
    if from < 0 || from > s.len() {
        Seq::empty()
    } else {
        let plus = next_char(s, '+', from);
        let part = trim(s.subrange(from, plus));
        if plus >= s.len() {
            seq![part]
        } else {
            proof {
                lemma_next_char(s, '+', from);
            }
            seq![part] + plus_parts(s, plus + 1)
        }
    }
}

/// The environments that count as statements, as the project's `web.tex`
/// names them: the parts of the `thms` option of its
/// `\usepackage[..]{blueprint}`, or the default where it has none.
pub open spec fn thms_option(content: Seq<char>) -> Seq<Seq<char>> {
    match package_options(content, 0) {
        Some(options) => match thms_value(options, 0) {
            Some(value) => plus_parts(value, 0),
            None => default_envs(),
        },
        None => default_envs(),
    }
}

/// The options of a `\usepackage[..]{blueprint}` at index `i`.
fn match_package_options(text: &Vec<char>, lit: &Vec<char>, tail: &Vec<char>, i: usize) -> (r:
    Option<(usize, usize)>)
    requires
        lit@ == "\\usepackage"@,
        tail@ == "{blueprint}"@,
    ensures
        match r {
            Some((start, end)) => package_options_at(text@, i as int) == Some(
                (start as int, end as int),
            ) && start <= end <= text.len(),
            None => package_options_at(text@, i as int) is None,
        },
{
    if !matches_at(text, lit, i) {
        return None;
    }
    assert(i + lit.len() <= text.len());
    let bracket = skip_whitespace(text, i + lit.len());
    if bracket >= text.len() || text[bracket] != '[' {
        return None;
    }
    let close = find_char(text, ']', bracket + 1);
    if close >= text.len() {
        return None;
    }
    let brace = skip_whitespace(text, close + 1);
    if matches_at(text, tail, brace) {
        Some((bracket + 1, close))
    } else {
        None
    }
}

/// The index of the first character at or after `from` that a `thms` option
/// may not hold.
fn skip_thm_chars(text: &Vec<char>, from: usize) -> (r: usize)
    requires
        from <= text.len(),
    ensures
        r == thm_run_end(text@, from as int),
        from <= r <= text.len(),
{
    let mut i: usize = from;
    while i < text.len()
        invariant
            from <= i <= text.len(),
            thm_run_end(text@, from as int) == thm_run_end(text@, i as int),
        decreases text.len() - i,
    {
        let c = text[i];
        if !(('a' <= c && c <= 'z') || ('A' <= c && c <= 'Z') || c == '+' || c == '_') {
            return i;
        }
        i = i + 1;
    }
    i
}

/// The value of a `thms = ..` option at index `i`.
fn match_thms_value(options: &Vec<char>, lit: &Vec<char>, i: usize) -> (r: Option<(usize, usize)>)
    requires
        lit@ == "thms"@,
    ensures
        match r {
            Some((start, end)) => thms_value_at(options@, i as int) == Some(
                (start as int, end as int),
            ) && start <= end <= options.len(),
            None => thms_value_at(options@, i as int) is None,
        },
{
    if !matches_at(options, lit, i) {
        return None;
    }
    assert(i + lit.len() <= options.len());
    let equals = skip_whitespace(options, i + lit.len());
    if equals >= options.len() || options[equals] != '=' {
        return None;
    }
    let start = skip_whitespace(options, equals + 1);
    let end = skip_thm_chars(options, start);
    if start < end {
        Some((start, end))
    } else {
        None
    }
}

/// The parts of `s` between its `+` signs: see `plus_parts`.
fn split_plus(s: &Vec<char>) -> (r: Vec<String>)
    ensures
        views(r@) == plus_parts(s@, 0),
{
    let mut out: Vec<String> = Vec::new();
    let mut from: usize = 0;
    assert(views(out@) =~= Seq::empty());
    loop
        invariant_except_break
            from <= s.len(),
            views(out@) + plus_parts(s@, from as int) == plus_parts(s@, 0),
        ensures
            views(out@) == plus_parts(s@, 0),
        decreases s.len() - from,
    {
        let plus = find_char(s, '+', from);
        let piece = subvec(s, from, plus);
        let ghost before = views(out@);
        let ghost part = trim(s@.subrange(from as int, plus as int));
        out.push(trim_to_string(&piece));
        assert(views(out@) =~= before.push(part));
        if plus >= s.len() {
            assert(before.push(part) =~= before + seq![part]);
            break ;
        }
        assert(before.push(part) + plus_parts(s@, plus + 1) =~= before + (seq![part] + plus_parts(
            s@,
            plus + 1,
        )));
        from = plus + 1;
    }
    out
}

/// The environments that count as statements, as the project's `web.tex`
/// names them in the `thms` option of its `\usepackage[..]{blueprint}`: the
/// parts of the option's value between its `+` signs. Without such an option
/// they are the default ones.
pub fn parse_thms_option(web_tex_content: &str) -> (types: Vec<String>)
    ensures
        views(types@) == thms_option(web_tex_content@),
{
    let text = to_chars(web_tex_content);
    let lit = to_chars("\\usepackage");
    let tail = to_chars("{blueprint}");
    let mut i: usize = 0;
    let mut options: Option<Vec<char>> = None;
    while i < text.len()
        invariant_except_break
            i <= text.len(),
            options is None,
            package_options(text@, 0) == package_options(text@, i as int),
        invariant
            lit@ == "\\usepackage"@,
            tail@ == "{blueprint}"@,
        ensures
            match options {
                Some(o) => package_options(text@, 0) == Some(o@),
                None => package_options(text@, 0) is None,
            },
        decreases text.len() - i,
    {
        match match_package_options(&text, &lit, &tail, i) {
            Some((start, end)) => {
                options = Some(subvec(&text, start, end));
                break ;
            },
            None => {},
        }
        i = i + 1;
    }
    match options {
        None => default_env_types(),
        Some(o) => {
            let thms = to_chars("thms");
            let mut k: usize = 0;
            while k < o.len()
                invariant
                    k <= o.len(),
                    thms@ == "thms"@,
                    text@ == web_tex_content@,
                    package_options(text@, 0) == Some(o@),
                    thms_value(o@, 0) == thms_value(o@, k as int),
                decreases o.len() - k,
            {
                match match_thms_value(&o, &thms, k) {
                    Some((start, end)) => {
                        let value = subvec(&o, start, end);
                        return split_plus(&value);
                    },
                    None => {},
                }
                k = k + 1;
            }
            default_env_types()
        },
    }
}

} // verus!
