use probe_blueprint::document::{find_standalone_proofs, parse_tex_file};

#[test]
fn test_parse_tex_file_theorem_with_labels() {
    let content = r#"
\begin{theorem}[387 implies 43]\label{387_implies_43}\uses{eq387,eq43}\lean{Subgraph.Equation387_implies_Equation43}\leanok
  Some content here.
\end{theorem}
"#;
    let env_types: Vec<String> = vec!["theorem".to_string()];
    let envs = parse_tex_file(content, "chapter/implications.tex", &env_types);

    assert_eq!(envs.len(), 1);
    assert_eq!(envs[0].env_type, "theorem");
    assert_eq!(envs[0].labels, vec!["387_implies_43"]);
    assert_eq!(
        envs[0].code_name,
        Some("probe:Subgraph.Equation387_implies_Equation43".to_string())
    );
    assert!(envs[0].spec_ok);
    assert_eq!(envs[0].spec_dependencies, vec!["eq387", "eq43"]);
    assert_eq!(envs[0].proof_ok, None);
    assert_eq!(envs[0].proof_dependencies, None);
    // Line numbers: starts on line 2, ends on line 4
    assert_eq!(envs[0].spec_lines.lines_start, 2);
    assert_eq!(envs[0].spec_lines.lines_end, 4);
}

#[test]
fn test_parse_tex_file_different_env_types() {
    let content = r#"
\begin{definition}\label{def1}
  A definition.
\end{definition}

\begin{lemma}\label{lem1}
  A lemma.
\end{lemma}

\begin{theorem}\label{thm1}
  A theorem.
\end{theorem}

\begin{dfn}\label{dfn1}
  A dfn (short form).
\end{dfn}
"#;
    let env_types: Vec<String> = vec![
        "definition".to_string(),
        "lemma".to_string(),
        "theorem".to_string(),
        "dfn".to_string(),
    ];
    let envs = parse_tex_file(content, "file.tex", &env_types);

    assert_eq!(envs.len(), 4);
    assert_eq!(envs[0].env_type, "definition");
    assert_eq!(envs[0].labels, vec!["def1"]);
    assert_eq!(envs[1].env_type, "lemma");
    assert_eq!(envs[1].labels, vec!["lem1"]);
    assert_eq!(envs[2].env_type, "theorem");
    assert_eq!(envs[2].labels, vec!["thm1"]);
    assert_eq!(envs[3].env_type, "dfn");
    assert_eq!(envs[3].labels, vec!["dfn1"]);
}

#[test]
fn test_parse_tex_file_multiple_labels() {
    let content = r#"
\begin{theorem}\label{first_label}\label{second_label}\label{primary_label}
  Content with multiple labels.
\end{theorem}
"#;
    let env_types: Vec<String> = vec!["theorem".to_string()];
    let envs = parse_tex_file(content, "file.tex", &env_types);

    assert_eq!(envs.len(), 1);
    assert_eq!(
        envs[0].labels,
        vec!["first_label", "second_label", "primary_label"]
    );
}

#[test]
fn test_parse_tex_file_no_label() {
    let content = r#"
\begin{lemma}
  A lemma without any label.
\end{lemma}
"#;
    let env_types: Vec<String> = vec!["lemma".to_string()];
    let envs = parse_tex_file(content, "file.tex", &env_types);

    assert_eq!(envs.len(), 1);
    assert!(envs[0].labels.is_empty());
}

#[test]
fn test_parse_tex_file_commented_out_env() {
    let content = r#"
% \begin{theorem}\label{commented_out}
%   This theorem is commented out.
% \end{theorem}

\begin{theorem}\label{active_theorem}
  This theorem is active.
\end{theorem}
"#;
    let env_types: Vec<String> = vec!["theorem".to_string()];
    let envs = parse_tex_file(content, "file.tex", &env_types);

    // Only the active theorem should be found
    assert_eq!(envs.len(), 1);
    assert_eq!(envs[0].labels, vec!["active_theorem"]);
}

#[test]
fn test_parse_tex_file_partially_commented() {
    let content = r#"
\begin{theorem}\label{my_theorem}
  % \label{commented_label}
  Active content here.
\end{theorem}
"#;
    let env_types: Vec<String> = vec!["theorem".to_string()];
    let envs = parse_tex_file(content, "file.tex", &env_types);

    assert_eq!(envs.len(), 1);
    // Only the non-commented label should be found
    assert_eq!(envs[0].labels, vec!["my_theorem"]);
}

#[test]
fn test_parse_tex_file_with_proof() {
    let content = r#"
\begin{theorem}\label{my_theorem}\lean{MyTheorem}\leanok
  Statement of the theorem.
\end{theorem}

\begin{proof}\leanok\uses{lemma1,lemma2}
  The proof goes here.
\end{proof}
"#;
    let env_types: Vec<String> = vec!["theorem".to_string()];
    let envs = parse_tex_file(content, "file.tex", &env_types);

    assert_eq!(envs.len(), 1);
    assert_eq!(envs[0].labels, vec!["my_theorem"]);
    assert!(envs[0].spec_ok);
    assert_eq!(envs[0].proof_ok, Some(true));
    assert_eq!(
        envs[0].proof_dependencies,
        Some(vec!["lemma1".to_string(), "lemma2".to_string()])
    );
    // Check proof lines are captured
    assert!(envs[0].proof_lines.is_some());
    let proof_lines = envs[0].proof_lines.as_ref().unwrap();
    assert_eq!(proof_lines.lines_start, 6);
    assert_eq!(proof_lines.lines_end, 8);
}

#[test]
fn test_parse_tex_file_proof_with_label() {
    let content = r#"
\begin{theorem}\label{thm_label}\leanok
  Statement.
\end{theorem}

\begin{proof}\label{proof_label}\leanok
  Proof content.
\end{proof}
"#;
    let env_types: Vec<String> = vec!["theorem".to_string()];
    let envs = parse_tex_file(content, "file.tex", &env_types);

    assert_eq!(envs.len(), 1);
    // Proof label should be added to the end
    assert_eq!(envs[0].labels, vec!["thm_label", "proof_label"]);
    // The stub name should use the last label (proof_label)
}

#[test]
fn test_parse_tex_file_proof_without_leanok() {
    let content = r#"
\begin{theorem}\label{my_theorem}\leanok
  Statement.
\end{theorem}

\begin{proof}\uses{dep1}
  Proof without leanok.
\end{proof}
"#;
    let env_types: Vec<String> = vec!["theorem".to_string()];
    let envs = parse_tex_file(content, "file.tex", &env_types);

    assert_eq!(envs.len(), 1);
    assert!(envs[0].spec_ok);
    // proof_ok should be None (not present) when \leanok is not in proof
    assert_eq!(envs[0].proof_ok, None);
    assert_eq!(envs[0].proof_dependencies, Some(vec!["dep1".to_string()]));
}

#[test]
fn test_parse_tex_file_no_proof() {
    let content = r#"
\begin{definition}\label{my_def}\lean{MyDef}\leanok
  A definition without proof.
\end{definition}
"#;
    let env_types: Vec<String> = vec!["definition".to_string()];
    let envs = parse_tex_file(content, "file.tex", &env_types);

    assert_eq!(envs.len(), 1);
    assert_eq!(envs[0].labels, vec!["my_def"]);
    assert_eq!(envs[0].proof_ok, None);
    assert_eq!(envs[0].proof_dependencies, None);
    assert!(envs[0].proof_lines.is_none());
}

#[test]
fn test_parse_tex_file_theorem_then_other_content_then_proof() {
    // Proof should only be found if it immediately follows (with whitespace only)
    let content = r#"
\begin{theorem}\label{thm1}\leanok
  First theorem.
\end{theorem}

Some intervening text here.

\begin{proof}\leanok
  This proof should NOT be associated with thm1.
\end{proof}
"#;
    let env_types: Vec<String> = vec!["theorem".to_string()];
    let envs = parse_tex_file(content, "file.tex", &env_types);

    assert_eq!(envs.len(), 1);
    // The proof should not be associated because there's intervening text
    assert_eq!(envs[0].proof_ok, None);
    assert!(envs[0].proof_lines.is_none());
}

#[test]
fn test_parse_tex_file_proof_with_nested_equation() {
    let content = r#"
\begin{theorem}\label{my_thm}\leanok
  Statement of theorem.
\end{theorem}

\begin{proof}\label{my_proof}\leanok
  We have
  \begin{equation}\label{eq1}
    x = y
  \end{equation}
  and therefore the result follows.
\end{proof}
"#;
    let env_types: Vec<String> = vec!["theorem".to_string()];
    let envs = parse_tex_file(content, "file.tex", &env_types);

    assert_eq!(envs.len(), 1);
    // Only top-level labels: my_thm from theorem, my_proof from proof
    // eq1 from nested equation should be ignored
    assert_eq!(envs[0].labels, vec!["my_thm", "my_proof"]);
    assert_eq!(envs[0].proof_ok, Some(true));
}

#[test]
fn test_parse_tex_file_theorem_with_nested_env() {
    let content = r#"
\begin{theorem}\label{main_thm}
  For all $x$, we have
  \begin{equation}\label{internal_eq}
    f(x) = g(x)
  \end{equation}
\end{theorem}
"#;
    let env_types: Vec<String> = vec!["theorem".to_string()];
    let envs = parse_tex_file(content, "file.tex", &env_types);

    assert_eq!(envs.len(), 1);
    // Only main_thm should be captured, not internal_eq
    assert_eq!(envs[0].labels, vec!["main_thm"]);
}

#[test]
fn test_parse_tex_file_line_numbers() {
    let content = r#"\begin{theorem}\label{thm1}
Line 2 content.
Line 3 content.
\end{theorem}
"#;
    let env_types: Vec<String> = vec!["theorem".to_string()];
    let envs = parse_tex_file(content, "file.tex", &env_types);

    assert_eq!(envs.len(), 1);
    assert_eq!(envs[0].spec_lines.lines_start, 1);
    assert_eq!(envs[0].spec_lines.lines_end, 4);
}

#[test]
fn test_parse_tex_file_with_mathlibok() {
    let content = r#"
\begin{theorem}\label{my_thm}\lean{MyThm}\mathlibok
  A theorem in mathlib.
\end{theorem}
"#;
    let env_types: Vec<String> = vec!["theorem".to_string()];
    let envs = parse_tex_file(content, "file.tex", &env_types);

    assert_eq!(envs.len(), 1);
    assert!(envs[0].mathlib_ok);
    // mathlibok should imply leanok for the spec
    assert!(!envs[0].spec_ok); // leanok was not explicitly present
}

#[test]
fn test_parse_tex_file_with_notready() {
    let content = r#"
\begin{theorem}\label{my_thm}\notready
  A theorem not ready for formalization.
\end{theorem}
"#;
    let env_types: Vec<String> = vec!["theorem".to_string()];
    let envs = parse_tex_file(content, "file.tex", &env_types);

    assert_eq!(envs.len(), 1);
    assert!(envs[0].not_ready);
    assert!(!envs[0].spec_ok);
}

#[test]
fn test_parse_tex_file_with_discussion() {
    let content = r#"
\begin{theorem}\label{my_thm}\discussion{123}\discussion{456}
  A theorem with discussions.
\end{theorem}
"#;
    let env_types: Vec<String> = vec!["theorem".to_string()];
    let envs = parse_tex_file(content, "file.tex", &env_types);

    assert_eq!(envs.len(), 1);
    assert_eq!(envs[0].discussion, vec!["123", "456"]);
}

#[test]
fn test_parse_tex_file_with_multiple_lean_names() {
    let content = r#"
\begin{theorem}\label{my_thm}\lean{Thm1, Thm2, Thm3}\leanok
  A theorem with multiple lean names.
\end{theorem}
"#;
    let env_types: Vec<String> = vec!["theorem".to_string()];
    let envs = parse_tex_file(content, "file.tex", &env_types);

    assert_eq!(envs.len(), 1);
    assert_eq!(envs[0].code_name, Some("probe:Thm1".to_string()));
    assert_eq!(
        envs[0].lean_names,
        Some(vec![
            "probe:Thm1".to_string(),
            "probe:Thm2".to_string(),
            "probe:Thm3".to_string()
        ])
    );
}

#[test]
fn test_parse_tex_file_proof_with_proves_not_associated() {
    // When a proof has \proves, it should NOT be associated with the preceding theorem
    let content = r#"
\begin{theorem}\label{thm1}\leanok
  First theorem.
\end{theorem}

\begin{proof}\proves{some_other_thm}\leanok
  This proof is for a different theorem.
\end{proof}
"#;
    let env_types: Vec<String> = vec!["theorem".to_string()];
    let envs = parse_tex_file(content, "file.tex", &env_types);

    assert_eq!(envs.len(), 1);
    // The proof should NOT be associated since it has \proves
    assert!(envs[0].proof_lines.is_none());
    assert_eq!(envs[0].proof_ok, None);
}

#[test]
fn test_find_standalone_proofs() {
    let content = r#"
\begin{theorem}\label{thm1}
  A theorem.
\end{theorem}

\begin{proof}\proves{thm1}\leanok\uses{lemma1}\lean{TheoremProof}
  The proof.
\end{proof}
"#;
    let proofs = find_standalone_proofs(content, "file.tex");

    assert_eq!(proofs.len(), 1);
    assert_eq!(proofs[0].proves_labels, vec!["thm1"]);
    assert!(proofs[0].proof_ok);
    assert_eq!(proofs[0].dependencies, vec!["lemma1"]);
    assert_eq!(proofs[0].lean_names, vec!["TheoremProof"]);
}

#[test]
fn test_find_standalone_proofs_with_mathlibok() {
    let content = r#"
\begin{proof}\proves{thm1}\mathlibok
  A mathlib proof.
\end{proof}
"#;
    let proofs = find_standalone_proofs(content, "file.tex");

    assert_eq!(proofs.len(), 1);
    assert!(proofs[0].mathlib_ok);
}

#[test]
fn test_find_standalone_proofs_with_notready() {
    let content = r#"
\begin{proof}\proves{thm1}\notready
  A proof not ready.
\end{proof}
"#;
    let proofs = find_standalone_proofs(content, "file.tex");

    assert_eq!(proofs.len(), 1);
    assert!(proofs[0].not_ready);
}

#[test]
fn test_find_standalone_proofs_with_discussion() {
    let content = r#"
\begin{proof}\proves{thm1}\discussion{789}
  A proof with discussion.
\end{proof}
"#;
    let proofs = find_standalone_proofs(content, "file.tex");

    assert_eq!(proofs.len(), 1);
    assert_eq!(proofs[0].discussion, vec!["789"]);
}

#[test]
fn test_proof_with_all_macros() {
    let content = r#"
\begin{theorem}\label{my_thm}\lean{MyTheorem}\leanok\mathlibok\discussion{100}
  Statement.
\end{theorem}

\begin{proof}\leanok\mathlibok\uses{dep1}\lean{MyProof}\discussion{200}
  Proof.
\end{proof}
"#;
    let env_types: Vec<String> = vec!["theorem".to_string()];
    let envs = parse_tex_file(content, "file.tex", &env_types);

    assert_eq!(envs.len(), 1);
    // Spec fields
    assert!(envs[0].spec_ok);
    assert!(envs[0].mathlib_ok);
    assert_eq!(envs[0].discussion, vec!["100"]);
    assert_eq!(envs[0].code_name, Some("probe:MyTheorem".to_string()));

    // Proof fields
    assert_eq!(envs[0].proof_ok, Some(true));
    assert_eq!(envs[0].proof_mathlib_ok, Some(true));
    assert_eq!(envs[0].proof_discussion, Some(vec!["200".to_string()]));
    assert_eq!(envs[0].proof_dependencies, Some(vec!["dep1".to_string()]));
    assert_eq!(envs[0].proof_lean_names, Some(vec!["MyProof".to_string()]));
}
