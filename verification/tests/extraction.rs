use probe_blueprint::comments::strip_latex_comments;
use probe_blueprint::config::{
    default_env_types, extract_config, extract_dochome, extract_github, extract_home,
    merge_config, parse_thms_option, Config,
};
use probe_blueprint::labels::generate_label;
use probe_blueprint::macros::{
    extract_discussion, extract_lean, extract_mathlibok, extract_notready, extract_proves,
    extract_uses,
};
use probe_blueprint::nesting::{extract_all_labels, strip_nested_environments};
use probe_blueprint::text::byte_pos_to_line;

#[test]
fn test_parse_thms_option_default() {
    let content = r"\usepackage[showmore, dep_graph]{blueprint}";
    let envs = parse_thms_option(content);
    assert_eq!(envs, default_env_types());
    assert_eq!(
        envs,
        vec!["definition", "lemma", "proposition", "theorem", "corollary"]
    );
}

#[test]
fn test_parse_thms_option_custom() {
    let content = r"\usepackage[thms=dfn+lem+prop+thm+cor]{blueprint}";
    let envs = parse_thms_option(content);
    assert_eq!(envs, vec!["dfn", "lem", "prop", "thm", "cor"]);
}

#[test]
fn test_extract_all_labels_single() {
    let labels = extract_all_labels(r"\label{foo}");
    assert_eq!(labels, vec!["foo"]);
}

#[test]
fn test_extract_all_labels_multiple() {
    let labels = extract_all_labels(r"\label{first}\label{second}\label{third}");
    assert_eq!(labels, vec!["first", "second", "third"]);
}

#[test]
fn test_extract_all_labels_none() {
    let labels = extract_all_labels(r"no labels here");
    assert!(labels.is_empty());
}

#[test]
fn test_extract_lean() {
    assert_eq!(
        extract_lean(r"\lean{Subgraph.Equation387_implies_Equation43}"),
        vec!["Subgraph.Equation387_implies_Equation43"]
    );
    assert_eq!(extract_lean(r"no lean here"), Vec::<String>::new());
}

#[test]
fn test_extract_lean_multiple() {
    assert_eq!(
        extract_lean(r"\lean{Decl1, Decl2, Decl3}"),
        vec!["Decl1", "Decl2", "Decl3"]
    );
}

#[test]
fn test_extract_mathlibok() {
    assert!(extract_mathlibok(r"\mathlibok"));
    assert!(extract_mathlibok(r"some text \mathlibok more text"));
    assert!(!extract_mathlibok(r"no mathlib here"));
}

#[test]
fn test_extract_notready() {
    assert!(extract_notready(r"\notready"));
    assert!(extract_notready(r"some text \notready more text"));
    assert!(!extract_notready(r"ready for formalization"));
}

#[test]
fn test_extract_discussion() {
    assert_eq!(extract_discussion(r"\discussion{123}"), vec!["123"]);
    assert_eq!(
        extract_discussion(r"\discussion{123}\discussion{456}"),
        vec!["123", "456"]
    );
    assert_eq!(extract_discussion(r"no discussion"), Vec::<String>::new());
}

#[test]
fn test_extract_proves() {
    assert_eq!(extract_proves(r"\proves{thm1}"), vec!["thm1"]);
    assert_eq!(extract_proves(r"\proves{thm1, thm2}"), vec!["thm1", "thm2"]);
    assert_eq!(extract_proves(r"no proves"), Vec::<String>::new());
}

#[test]
fn test_extract_uses() {
    assert_eq!(extract_uses(r"\uses{eq387,eq43}"), vec!["eq387", "eq43"]);
    assert_eq!(extract_uses(r"\uses{r, s, t}"), vec!["r", "s", "t"]);
    assert_eq!(extract_uses(r"no uses"), Vec::<String>::new());
}

#[test]
fn test_generate_label() {
    assert_eq!(generate_label(0), "a0000000000");
    assert_eq!(generate_label(1), "a0000000001");
    assert_eq!(generate_label(123), "a0000000123");
    assert_eq!(generate_label(9999999999), "a9999999999");
}

#[test]
fn test_byte_pos_to_line() {
    let content = "line1\nline2\nline3";
    assert_eq!(byte_pos_to_line(content, 0), 1); // Start of line1
    assert_eq!(byte_pos_to_line(content, 5), 1); // End of line1 (before \n)
    assert_eq!(byte_pos_to_line(content, 6), 2); // Start of line2
    assert_eq!(byte_pos_to_line(content, 12), 3); // Start of line3
}

#[test]
fn test_strip_latex_comments_simple() {
    let content = "hello % this is a comment\nworld";
    let stripped = strip_latex_comments(content);
    assert_eq!(stripped, "hello \nworld");
}

#[test]
fn test_strip_latex_comments_escaped_percent() {
    let content = r"50\% discount";
    let stripped = strip_latex_comments(content);
    assert_eq!(stripped, r"50\% discount");
}

#[test]
fn test_strip_latex_comments_full_line() {
    let content = "% full line comment\nactual content";
    let stripped = strip_latex_comments(content);
    assert_eq!(stripped, "\nactual content");
}

#[test]
fn test_strip_latex_comments_no_comments() {
    let content = r"\begin{theorem}\label{foo}\end{theorem}";
    let stripped = strip_latex_comments(content);
    assert_eq!(stripped, content);
}

#[test]
fn test_strip_nested_environments() {
    let content =
        r#"Top level content \begin{equation}\label{nested}\end{equation} more content"#;
    let stripped = strip_nested_environments(content);
    assert_eq!(stripped, "Top level content  more content");
}

#[test]
fn test_strip_nested_environments_multiple() {
    let content =
        r#"\begin{align}\label{a1}\end{align} text \begin{equation}\label{a2}\end{equation}"#;
    let stripped = strip_nested_environments(content);
    assert_eq!(stripped, " text ");
}

#[test]
fn test_extract_labels_ignores_nested() {
    // Labels inside nested environments should be ignored
    let content = r#"\label{top_level}
Some text here.
\begin{equation}\label{nested_eq}
  x = y
\end{equation}
More text.
\begin{align}\label{nested_align}
  a = b
\end{align}"#;
    let labels = extract_all_labels(content);
    assert_eq!(labels, vec!["top_level"]);
}

#[test]
fn test_extract_home() {
    assert_eq!(
        extract_home(r"\home{https://example.com/project}"),
        Some("https://example.com/project".to_string())
    );
    assert_eq!(extract_home(r"no home here"), None);
}

#[test]
fn test_extract_github() {
    assert_eq!(
        extract_github(r"\github{https://github.com/user/repo}"),
        Some("https://github.com/user/repo".to_string())
    );
    assert_eq!(extract_github(r"no github here"), None);
}

#[test]
fn test_extract_dochome() {
    assert_eq!(
        extract_dochome(r"\dochome{https://docs.example.com/}"),
        Some("https://docs.example.com/".to_string())
    );
    assert_eq!(extract_dochome(r"no dochome here"), None);
}

#[test]
fn test_extract_config() {
    let content = r#"
\home{https://example.com}
\github{https://github.com/user/repo}
\dochome{https://docs.example.com}
"#;
    let config = extract_config(content);
    assert_eq!(config.home, Some("https://example.com".to_string()));
    assert_eq!(
        config.github,
        Some("https://github.com/user/repo".to_string())
    );
    assert_eq!(config.dochome, Some("https://docs.example.com".to_string()));
}

#[test]
fn test_extract_config_partial() {
    let content = r#"\github{https://github.com/user/repo}"#;
    let config = extract_config(content);
    assert_eq!(config.home, None);
    assert_eq!(
        config.github,
        Some("https://github.com/user/repo".to_string())
    );
    assert_eq!(config.dochome, None);
}

#[test]
fn test_merge_config() {
    let base = Config {
        home: Some("base_home".to_string()),
        github: Some("base_github".to_string()),
        dochome: None,
    };
    let other = Config {
        home: None,
        github: Some("other_github".to_string()),
        dochome: Some("other_dochome".to_string()),
    };
    let merged = merge_config(base, other);
    assert_eq!(merged.home, Some("base_home".to_string())); // kept from base
    assert_eq!(merged.github, Some("other_github".to_string())); // overridden by other
    assert_eq!(merged.dochome, Some("other_dochome".to_string())); // added from other
}
