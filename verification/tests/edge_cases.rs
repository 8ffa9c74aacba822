use probe_blueprint::comments::strip_latex_comments;
use probe_blueprint::config::parse_thms_option;
use probe_blueprint::document::{find_envs, find_following_proof, parse_tex_file, Span};
use probe_blueprint::macros::{extract_discussion, extract_leanok, extract_uses, split_list};
use probe_blueprint::nesting::{extract_all_labels, strip_nested_environments};
use probe_blueprint::text::{
    byte_pos_to_line, find, is_space_char, line_of, to_chars, trim_to_string,
};

fn types() -> Vec<String> {
    vec!["theorem".to_string(), "lemma".to_string()]
}

#[test]
fn empty_document_strips_to_nothing() {
    assert_eq!(strip_latex_comments(""), "");
    assert!(parse_tex_file("", "a.tex", &types()).is_empty());
    assert!(extract_all_labels("").is_empty());
}

#[test]
fn comment_without_newline_runs_to_the_end() {
    assert_eq!(strip_latex_comments("a % b"), "a ");
    assert_eq!(strip_latex_comments("%"), "");
}

#[test]
fn backslash_pairs_are_kept_as_they_stand() {
    assert_eq!(strip_latex_comments("a\\\\% b\nc"), "a\\\\\nc");
    assert_eq!(strip_latex_comments("x\\"), "x\\");
    assert_eq!(strip_latex_comments("\\\n% c\n"), "\\\n\n");
    assert_eq!(strip_latex_comments("% a \\\nb"), "\nb");
    assert_eq!(strip_latex_comments("\\\u{e9}%x"), "\\\u{e9}");
}

#[test]
fn lines_are_those_of_the_document_with_its_comments() {
    let content = "% one\n% two\n\\begin{theorem}% open\n\\label{t}\n\\end{theorem}";
    let envs = parse_tex_file(content, "a.tex", &types());
    assert_eq!(envs.len(), 1);
    assert_eq!(envs[0].spec_lines.lines_start, 3);
    assert_eq!(envs[0].spec_lines.lines_end, 5);
}

#[test]
fn opening_without_closing_marker_stays() {
    assert_eq!(strip_nested_environments("a\\begin{x}b"), "a\\begin{x}b");
    assert_eq!(strip_nested_environments("\\begin{x}\\begin{y}c\\end{y}d"), "\\begin{x}d");
    assert_eq!(strip_nested_environments("\\begin{}a\\end{}"), "\\begin{}a\\end{}");
    assert_eq!(strip_nested_environments("\\begin{x}a\\end{x}b\\end{x}"), "b\\end{x}");
}

#[test]
fn environments_of_one_name_are_balanced() {
    let block = "\\begin{a}\\begin{a}\\label{x}\\end{a}\\label{y}\\end{a}";
    assert_eq!(strip_nested_environments(block), "");
    assert!(extract_all_labels(block).is_empty());
    let block = "\\label{p}\\begin{a}\\begin{a}\\end{a}\\begin{a}\\label{x}\\end{a}\\label{y}\\end{a}\\label{q}";
    assert_eq!(extract_all_labels(block), vec!["p", "q"]);
    // an inner opening that is never closed leaves the outer one open too
    let block = "\\begin{a}\\begin{a}\\label{x}\\end{a}\\label{y}";
    assert_eq!(strip_nested_environments(block), "\\begin{a}\\label{y}");
    assert_eq!(extract_all_labels(block), vec!["y"]);
    // other names do not count
    let block = "\\begin{a}\\begin{b}\\end{a}\\label{z}\\end{b}";
    assert_eq!(extract_all_labels(block), vec!["z"]);
}

#[test]
fn label_of_a_nested_environment_is_cut() {
    let block = "x\\begin{e}\\label{l}\\end{e}\\label{m}";
    assert_eq!(strip_nested_environments(block), "x\\label{m}");
    assert_eq!(extract_all_labels(block), vec!["m"]);
}

#[test]
fn labels_need_an_argument_and_a_closing_brace() {
    assert!(extract_all_labels("\\label{}").is_empty());
    assert!(extract_all_labels("\\label{open").is_empty());
    assert_eq!(extract_all_labels("\\label{a\nb}"), vec!["a\nb"]);
    assert_eq!(extract_all_labels("\\label{\\label{x}"), vec!["\\label{x"]);
    assert_eq!(extract_all_labels("\\label{}\\label{y}"), vec!["y"]);
}

#[test]
fn lists_drop_empty_entries_and_discussions_do_not() {
    assert_eq!(extract_uses("\\uses{ a ,, b , }"), vec!["a", "b"]);
    assert!(extract_uses("\\uses{ , }").is_empty());
    assert_eq!(extract_uses("\\uses{first}\\uses{second}"), vec!["first"]);
    assert_eq!(extract_discussion("\\discussion{ }\\discussion{ 7 }"), vec!["", "7"]);
    assert_eq!(split_list(&to_chars("\u{a0}a\u{2003},b")), vec!["a", "b"]);
    assert!(split_list(&to_chars("")).is_empty());
}

#[test]
fn flags_are_found_anywhere() {
    assert!(extract_leanok("x\\leanokay"));
    assert!(!extract_leanok("\\lean ok"));
    assert!(extract_leanok("\\begin{equation}\\leanok\\end{equation}"));
}

#[test]
fn whitespace_is_unicode_whitespace() {
    for c in ['\t', '\n', '\u{b}', '\u{c}', '\r', ' ', '\u{85}', '\u{a0}', '\u{1680}', '\u{2000}',
        '\u{200a}', '\u{2028}', '\u{2029}', '\u{202f}', '\u{205f}', '\u{3000}']
    {
        assert!(is_space_char(c), "{:?}", c);
        assert!(c.is_whitespace());
    }
    for c in ['a', '\u{200b}', '\u{feff}', '\u{1c}', '\u{0}', '\u{180e}', '\u{2060}'] {
        assert!(!is_space_char(c), "{:?}", c);
        assert!(!c.is_whitespace());
    }
    assert_eq!(trim_to_string(&to_chars(" \u{3000}a b\u{a0}\n")), "a b");
    assert_eq!(trim_to_string(&to_chars(" \t ")), "");
}

#[test]
fn proof_behind_unicode_whitespace_is_attached() {
    let content = "\\begin{theorem}\\end{theorem}\u{a0}\n\u{2003}\\begin{proof}\\leanok\\end{proof}";
    let envs = parse_tex_file(content, "a.tex", &types());
    assert_eq!(envs[0].proof_ok, Some(true));
    assert_eq!(envs[0].proof_lines.map(|l| (l.lines_start, l.lines_end)), Some((2, 2)));
}

#[test]
fn proof_behind_anything_else_is_not_attached() {
    for gap in [".", "\u{200b}", "\\", "x \n"] {
        let content = format!("\\begin{{theorem}}\\end{{theorem}}{}\\begin{{proof}}\\end{{proof}}", gap);
        let envs = parse_tex_file(&content, "a.tex", &types());
        assert_eq!(envs.len(), 1);
        assert!(envs[0].proof_lines.is_none(), "{:?}", gap);
    }
}

#[test]
fn adjacent_proof_with_back_reference_is_not_attached() {
    let content = "\\begin{theorem}\\label{t}\\end{theorem}\\begin{proof}\\proves{t}\\label{p}\\end{proof}";
    let envs = parse_tex_file(content, "a.tex", &types());
    assert!(envs[0].proof_lines.is_none());
    assert_eq!(envs[0].labels, vec!["t"]);
    // an empty list is no back-reference
    let content = "\\begin{theorem}\\label{t}\\end{theorem}\\begin{proof}\\proves{ , }\\label{p}\\end{proof}";
    let envs = parse_tex_file(content, "a.tex", &types());
    assert!(envs[0].proof_lines.is_some());
    assert_eq!(envs[0].labels, vec!["t", "p"]);
}

#[test]
fn unclosed_proof_is_no_proof() {
    let text = to_chars("\\end{theorem} \\begin{proof} never closed");
    assert_eq!(find_following_proof(&text, 13), None);
    let text = to_chars("x \\begin{proof}a\\end{proof}");
    assert_eq!(
        find_following_proof(&text, 1),
        Some(Span { start: 2, content_start: 15, content_end: 16, end: 27 })
    );
    assert_eq!(find_following_proof(&text, 0), None);
    assert_eq!(find_following_proof(&text, 27), None);
}

#[test]
fn statements_come_in_order_of_their_start() {
    let content = "\\begin{lemma}\\label{a}\\end{lemma}\\begin{theorem}\\label{b}\\end{theorem}\\begin{lemma}\\label{c}\\end{lemma}";
    let envs = parse_tex_file(content, "a.tex", &types());
    let labels: Vec<&str> = envs.iter().map(|e| e.labels[0].as_str()).collect();
    assert_eq!(labels, vec!["a", "b", "c"]);
    // a type that is named twice yields each of its statements twice
    let twice = vec!["lemma".to_string(), "lemma".to_string()];
    let envs = parse_tex_file(content, "a.tex", &twice);
    let labels: Vec<&str> = envs.iter().map(|e| e.labels[0].as_str()).collect();
    assert_eq!(labels, vec!["a", "a", "c", "c"]);
}

#[test]
fn a_type_inside_another_is_found_on_its_own() {
    let content = "\\begin{theorem}\\label{t}\n\\begin{lemma}\\label{l}\\end{lemma}\n\\end{theorem}";
    let envs = parse_tex_file(content, "a.tex", &types());
    assert_eq!(envs.len(), 2);
    assert_eq!(envs[0].env_type, "theorem");
    assert_eq!(envs[0].labels, vec!["t"]);
    assert_eq!(envs[1].env_type, "lemma");
    assert_eq!(envs[1].labels, vec!["l"]);
    assert_eq!(envs[1].spec_lines.lines_start, 2);
}

#[test]
fn environments_do_not_overlap_within_a_type() {
    let text = to_chars("\\begin{t}\\begin{t}x\\end{t}y\\end{t}");
    let spans = find_envs(&text, "t");
    assert_eq!(spans, vec![Span { start: 0, content_start: 9, content_end: 19, end: 26 }]);
    assert!(find_envs(&to_chars("\\begin{t} \\begin{t}"), "t").is_empty());
}

#[test]
fn search_and_lines_on_characters() {
    let text = to_chars("a\u{e9}b\nab\n");
    assert_eq!(find(&text, &to_chars("ab"), 0), Some(4));
    assert_eq!(find(&text, &to_chars("ab"), 5), None);
    assert_eq!(find(&text, &to_chars(""), 7), Some(7));
    assert_eq!(find(&text, &to_chars(""), 8), None);
    assert_eq!(line_of(&text, 0), 1);
    assert_eq!(line_of(&text, 3), 1);
    assert_eq!(line_of(&text, 4), 2);
    assert_eq!(line_of(&text, 6), 2);
}

#[test]
fn byte_offsets_count_bytes() {
    let content = "\u{e9}\n\u{e9}\nx";
    assert_eq!(byte_pos_to_line(content, 2), 1);
    assert_eq!(byte_pos_to_line(content, 3), 2);
    assert_eq!(byte_pos_to_line(content, 6), 3);
    assert_eq!(byte_pos_to_line(content, content.len()), 3);
    assert_eq!(byte_pos_to_line("", 0), 1);
}

#[test]
fn thms_option_keeps_empty_parts() {
    assert_eq!(parse_thms_option("\\usepackage[thms=a++b+]{blueprint}"), vec!["a", "", "b", ""]);
    assert_eq!(parse_thms_option("\\usepackage [ x , thms = my_thm ] {blueprint}"), vec!["my_thm"]);
    assert_eq!(parse_thms_option("\\usepackage[thms=a1]{blueprint}"), vec!["a"]);
    assert_eq!(
        parse_thms_option("\\usepackage[thms=x]{other}\\usepackage[thms=y]{blueprint}"),
        vec!["y"]
    );
    assert_eq!(
        parse_thms_option("\\usepackage[a]{blueprint}\\usepackage[thms=y]{blueprint}"),
        vec!["definition", "lemma", "proposition", "theorem", "corollary"]
    );
    assert_eq!(parse_thms_option("\\usepackage[thms thms=q]{blueprint}"), vec!["q"]);
}
