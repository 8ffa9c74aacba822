use probe_blueprint::document::parse_tex_file;
use probe_blueprint::graph::build_stubs;
use probe_blueprint::labels::generate_label;
use probe_blueprint::model::{LineRange, ParsedEnv, StandaloneProof, StubError};
use probe_blueprint::project::{parse_project, project_config, stubify, Document};
use probe_blueprint::config::Config;
use probe_blueprint::registry::LabelRegistry;
use probe_blueprint::reports::{atom_of, proof_status, stub_label};

fn statement(path: &str, labels: &[&str], uses: &[&str]) -> ParsedEnv {
    ParsedEnv {
        env_type: "theorem".to_string(),
        relative_path: path.to_string(),
        spec_lines: LineRange { lines_start: 1, lines_end: 3 },
        proof_lines: None,
        labels: labels.iter().map(|s| s.to_string()).collect(),
        code_name: None,
        lean_names: None,
        spec_ok: false,
        mathlib_ok: false,
        not_ready: false,
        discussion: Vec::new(),
        spec_dependencies: uses.iter().map(|s| s.to_string()).collect(),
        proof_ok: None,
        proof_mathlib_ok: None,
        proof_not_ready: None,
        proof_discussion: None,
        proof_dependencies: None,
        proof_lean_names: None,
    }
}

fn back_reference(proves: &[&str], first_line: usize) -> StandaloneProof {
    StandaloneProof {
        proves_labels: proves.iter().map(|s| s.to_string()).collect(),
        lines: LineRange { lines_start: first_line, lines_end: first_line + 2 },
        proof_ok: false,
        mathlib_ok: false,
        not_ready: false,
        discussion: Vec::new(),
        dependencies: Vec::new(),
        lean_names: Vec::new(),
    }
}

fn document(path: &str, content: &str) -> Document {
    Document { relative_path: path.to_string(), content: content.to_string() }
}

fn theorem_types() -> Vec<String> {
    vec!["theorem".to_string(), "lemma".to_string()]
}

#[test]
fn test_stub_uses_last_label() {
    let envs = vec![statement("file.tex", &["first", "second", "primary"], &[])];
    let graph = build_stubs(&envs, &Vec::new()).unwrap();
    assert_eq!(graph.stubs.len(), 1);
    let stub_name = graph.stubs[0].0.clone();
    assert_eq!(stub_name, format!("{}/{}", "file.tex", "primary"));
    assert_eq!(stub_name, "file.tex/primary");
    assert_eq!(graph.stubs[0].1.label, "primary");
    assert_eq!(graph.stubs[0].1.labels, vec!["first", "second", "primary"]);
}

#[test]
fn three_labels_give_the_name_of_the_third() {
    let envs = vec![statement("ch/a.tex", &["first", "second", "third"], &[])];
    let graph = build_stubs(&envs, &Vec::new()).unwrap();
    assert_eq!(graph.stubs[0].0, "ch/a.tex/third");
}

#[test]
fn two_documents_resolve_across_files() {
    let docs = vec![
        document("a.tex", "\\begin{theorem}\\label{t1}\\uses{x}\\leanok body \\end{theorem}"),
        document("b.tex", "\\begin{lemma}\\label{x}\\end{lemma}"),
    ];
    let graph = stubify(&docs, &theorem_types()).unwrap();
    assert_eq!(graph.stubs.len(), 2);
    assert_eq!(graph.stubs[0].0, "a.tex/t1");
    assert_eq!(graph.stubs[1].0, "b.tex/x");
    assert_eq!(graph.stubs[0].1.spec_dependencies, vec!["b.tex/x"]);
    assert!(graph.stubs[0].1.spec_ok);
    assert!(graph.stubs[0].1.stub_proof.is_none());
    assert!(graph.unresolved.is_empty());
}

#[test]
fn forward_reference_is_no_error() {
    let envs = vec![statement("a.tex", &["one"], &["two"]), statement("a.tex", &["two"], &[])];
    let graph = build_stubs(&envs, &Vec::new()).unwrap();
    assert_eq!(graph.stubs[0].1.spec_dependencies, vec!["a.tex/two"]);
}

#[test]
fn reference_to_a_secondary_label_resolves_to_the_primary_name() {
    let envs = vec![statement("a.tex", &["alias", "main"], &[]), statement("b.tex", &["u"], &["alias"])];
    let graph = build_stubs(&envs, &Vec::new()).unwrap();
    assert_eq!(graph.stubs[1].1.spec_dependencies, vec!["a.tex/main"]);
}

#[test]
fn unlabeled_statements_get_tokens_in_sequence() {
    let envs = vec![
        statement("a.tex", &[], &[]),
        statement("a.tex", &["a0000000001"], &[]),
        statement("a.tex", &[], &[]),
    ];
    let graph = build_stubs(&envs, &Vec::new()).unwrap();
    assert_eq!(graph.stubs.len(), 3);
    assert_eq!(graph.stubs[0].1.labels, vec!["a0000000000"]);
    assert_eq!(graph.stubs[0].0, "a.tex/a0000000000");
    // the token of 1 is taken by an explicit label, so the next one is that of 2
    assert_eq!(graph.stubs[2].1.labels, vec!["a0000000002"]);
}

#[test]
fn registry_synthesizes_first_and_next_token() {
    let mut registry = LabelRegistry::new();
    assert_eq!(registry.synthesize(), "a0000000000");
    assert_eq!(registry.synthesize(), "a0000000001");
    assert!(registry.reserve("a0000000002").is_ok());
    assert_eq!(registry.synthesize(), "a0000000003");
    assert!(registry.is_reserved("a0000000001"));
    assert!(!registry.is_reserved("a0000000004"));
}

#[test]
fn registry_refuses_a_repeat_and_resolves_owners() {
    let mut registry = LabelRegistry::new();
    assert!(registry.reserve("x").is_ok());
    match registry.reserve("x") {
        Err(StubError::DuplicateLabel { label }) => assert_eq!(label, "x"),
        _ => panic!("a repeated label must be refused"),
    }
    assert_eq!(registry.resolve("x"), None);
    registry.record_owner("x", "a.tex/x");
    assert_eq!(registry.resolve("x"), Some("a.tex/x".to_string()));
    registry.record_owner("x", "b.tex/x");
    assert_eq!(registry.resolve("x"), Some("b.tex/x".to_string()));
    assert_eq!(registry.resolve("y"), None);
}

#[test]
fn duplicate_label_across_statements_is_an_error() {
    let envs = vec![statement("a.tex", &["same"], &[]), statement("b.tex", &["same"], &[])];
    match build_stubs(&envs, &Vec::new()) {
        Err(e) => {
            assert!(matches!(e, StubError::DuplicateLabel { .. }));
            assert_eq!(e.message(), "Duplicate label found: same");
        }
        Ok(_) => panic!("a duplicate label must abort the run"),
    }
}

#[test]
fn duplicate_label_within_one_statement_is_an_error() {
    let envs = vec![statement("a.tex", &["twice", "twice"], &[])];
    assert!(matches!(
        build_stubs(&envs, &Vec::new()),
        Err(StubError::DuplicateLabel { .. })
    ));
}

#[test]
fn explicit_label_equal_to_an_earlier_token_is_a_duplicate() {
    let envs = vec![statement("a.tex", &[], &[]), statement("a.tex", &["a0000000000"], &[])];
    assert!(matches!(
        build_stubs(&envs, &Vec::new()),
        Err(StubError::DuplicateLabel { .. })
    ));
}

#[test]
fn unknown_spec_dependency_is_an_error() {
    let envs = vec![statement("a.tex", &["t"], &["nowhere"])];
    match build_stubs(&envs, &Vec::new()) {
        Err(e) => {
            assert_eq!(
                e.message(),
                "Unknown label 'nowhere' in spec-dependencies of stub 'a.tex/t'"
            );
            match e {
                StubError::UnknownLabel { label, stub, proof_side } => {
                    assert_eq!(label, "nowhere");
                    assert_eq!(stub, "a.tex/t");
                    assert!(!proof_side);
                }
                _ => panic!("wrong error"),
            }
        }
        Ok(_) => panic!("a dangling dependency must abort the run"),
    }
}

#[test]
fn unknown_proof_dependency_is_an_error() {
    let mut env = statement("a.tex", &["t"], &[]);
    env.proof_dependencies = Some(vec!["gone".to_string()]);
    match build_stubs(&vec![env], &Vec::new()) {
        Err(e) => assert_eq!(
            e.message(),
            "Unknown label 'gone' in proof-dependencies of stub 'a.tex/t'"
        ),
        Ok(_) => panic!("a dangling dependency must abort the run"),
    }
}

#[test]
fn back_referenced_proof_is_merged_into_its_statement() {
    let envs = vec![statement("a.tex", &["t"], &[]), statement("a.tex", &["d"], &[])];
    let mut proof = back_reference(&["t"], 10);
    proof.proof_ok = true;
    proof.dependencies = vec!["d".to_string()];
    proof.lean_names = vec!["Proof.t".to_string()];
    let graph = build_stubs(&envs, &vec![("a.tex".to_string(), proof)]).unwrap();
    let stub = &graph.stubs[0].1;
    assert_eq!(stub.stub_proof, Some(LineRange { lines_start: 10, lines_end: 12 }));
    assert_eq!(stub.proof_ok, Some(true));
    assert_eq!(stub.proof_mathlib_ok, None);
    assert_eq!(stub.proof_dependencies, Some(vec!["a.tex/d".to_string()]));
    assert_eq!(stub.proof_lean_names, Some(vec!["Proof.t".to_string()]));
    assert_eq!(stub.proof_discussion, None);
    assert!(graph.stubs[1].1.stub_proof.is_none());
}

#[test]
fn later_proof_overwrites_lists_but_flags_stay_set() {
    let envs = vec![statement("a.tex", &["t"], &[]), statement("a.tex", &["d"], &[])];
    let mut first = back_reference(&["t"], 10);
    first.proof_ok = true;
    first.discussion = vec!["1".to_string()];
    first.dependencies = vec!["d".to_string()];
    let mut second = back_reference(&["t"], 20);
    second.discussion = vec!["2".to_string()];
    let proofs = vec![("a.tex".to_string(), first), ("a.tex".to_string(), second)];
    let graph = build_stubs(&envs, &proofs).unwrap();
    let stub = &graph.stubs[0].1;
    assert_eq!(stub.stub_proof, Some(LineRange { lines_start: 20, lines_end: 22 }));
    assert_eq!(stub.proof_ok, Some(true));
    assert_eq!(stub.proof_discussion, Some(vec!["2".to_string()]));
    assert_eq!(stub.proof_dependencies, Some(vec!["a.tex/d".to_string()]));
}

#[test]
fn unresolved_back_reference_is_reported_and_skipped() {
    let envs = vec![statement("a.tex", &["t"], &[])];
    let proofs = vec![("b.tex".to_string(), back_reference(&["missing", "t"], 5))];
    let graph = build_stubs(&envs, &proofs).unwrap();
    assert_eq!(graph.unresolved, vec![("b.tex".to_string(), "missing".to_string())]);
    assert_eq!(graph.stubs[0].1.stub_proof, Some(LineRange { lines_start: 5, lines_end: 7 }));
}

#[test]
fn round_trip_of_uniquely_labelled_statements() {
    let names = ["p", "q", "r", "s"];
    let envs: Vec<ParsedEnv> = names.iter().map(|l| statement("doc.tex", &[l], &[])).collect();
    let graph = build_stubs(&envs, &Vec::new()).unwrap();
    assert_eq!(graph.stubs.len(), names.len());
    for (i, l) in names.iter().enumerate() {
        assert_eq!(graph.stubs[i].0, format!("doc.tex/{}", l));
    }
}

#[test]
fn colliding_names_leave_one_entity() {
    let envs = vec![statement("a", &["b/c"], &[]), statement("a/b", &["c"], &[])];
    let graph = build_stubs(&envs, &Vec::new()).unwrap();
    assert_eq!(graph.stubs.len(), 1);
    assert_eq!(graph.stubs[0].0, "a/b/c");
    assert_eq!(graph.stubs[0].1.stub_path, "a/b");
}

#[test]
fn every_dependency_is_a_name_of_the_graph() {
    let docs = vec![
        document(
            "one.tex",
            "\\begin{theorem}\\label{a}\\uses{b, c}\\end{theorem}\n\\begin{proof}\\uses{c}\\end{proof}\n",
        ),
        document(
            "two.tex",
            "\\begin{lemma}\\label{b}\\end{lemma}\\begin{lemma}\\label{c}\\uses{b}\\end{lemma}",
        ),
    ];
    let graph = stubify(&docs, &theorem_types()).unwrap();
    let names: Vec<String> = graph.stubs.iter().map(|(n, _)| n.clone()).collect();
    for (_, stub) in &graph.stubs {
        assert!(!stub.labels.is_empty());
        for dep in &stub.spec_dependencies {
            assert!(names.contains(dep));
        }
        if let Some(deps) = &stub.proof_dependencies {
            for dep in deps {
                assert!(names.contains(dep));
            }
        }
    }
    assert_eq!(graph.stubs[0].1.spec_dependencies, vec!["two.tex/b", "two.tex/c"]);
    assert_eq!(graph.stubs[0].1.proof_dependencies, Some(vec!["two.tex/c".to_string()]));
}

#[test]
fn project_collects_statements_and_proofs_in_document_order() {
    let docs = vec![
        document("a.tex", "\\begin{theorem}\\label{t}\\end{theorem}\n\\begin{proof}\\proves{u}\\leanok\\end{proof}"),
        document("b.tex", "\\begin{theorem}\\label{u}\\end{theorem}"),
    ];
    let (envs, proofs) = parse_project(&docs, &theorem_types());
    assert_eq!(envs.len(), 2);
    assert_eq!(envs[0].relative_path, "a.tex");
    assert_eq!(envs[1].relative_path, "b.tex");
    assert!(envs[0].proof_lines.is_none());
    assert_eq!(proofs.len(), 1);
    assert_eq!(proofs[0].0, "a.tex");
    assert_eq!(proofs[0].1.proves_labels, vec!["u"]);
    let graph = stubify(&docs, &theorem_types()).unwrap();
    assert_eq!(graph.stubs[1].1.proof_ok, Some(true));
    assert_eq!(graph.stubs[1].1.stub_proof, Some(LineRange { lines_start: 2, lines_end: 2 }));
    assert_eq!(graph.stubs[0].1.proof_ok, None);
}

#[test]
fn project_config_lets_later_documents_win() {
    let docs = vec![
        document("a.tex", "\\home{ first }\\github{g1}"),
        document("b.tex", "\\home{second}"),
    ];
    let base = Config { home: None, github: None, dochome: Some("base".to_string()) };
    let config = project_config(base, &docs);
    assert_eq!(config.home, Some("second".to_string()));
    assert_eq!(config.github, Some("g1".to_string()));
    assert_eq!(config.dochome, Some("base".to_string()));
    let nothing = Config::default();
    assert!(nothing.home.is_none() && nothing.github.is_none() && nothing.dochome.is_none());
}

#[test]
fn parsed_statement_feeds_the_graph() {
    let content = "\\begin{theorem}\\label{one}\\lean{A.b}\\end{theorem}\n\n\\begin{proof}\\label{pf}\\end{proof}\n";
    let envs = parse_tex_file(content, "x.tex", &theorem_types());
    let graph = build_stubs(&envs, &Vec::new()).unwrap();
    assert_eq!(graph.stubs[0].0, "x.tex/pf");
    assert_eq!(graph.stubs[0].1.code_name, Some("probe:A.b".to_string()));
}

#[test]
fn generated_labels_beyond_ten_digits() {
    assert_eq!(generate_label(10000000000), "a10000000000");
    assert_eq!(generate_label(u64::MAX), "a18446744073709551615");
    assert_eq!(generate_label(42), "a0000000042");
}

#[test]
fn label_of_a_canonical_name() {
    assert_eq!(stub_label("chapter/file.tex/thm"), "thm");
    assert_eq!(stub_label("plain"), "plain");
    assert_eq!(stub_label("ends/"), "");
    assert_eq!(stub_label(""), "");
}

#[test]
fn atom_joins_both_dependency_lists() {
    let spec = vec!["p/a".to_string()];
    let proof = Some(vec!["p/b".to_string(), "p/c".to_string()]);
    let lines = LineRange { lines_start: 10, lines_end: 20 };
    let atom = atom_of("chapter/theorems.tex/my_theorem", "chapter/theorems.tex", lines, &spec, &proof);
    assert_eq!(atom.display_name, "my_theorem");
    assert_eq!(atom.dependencies, vec!["p/a", "p/b", "p/c"]);
    assert_eq!(atom.stub_path, "chapter/theorems.tex");
    assert_eq!(atom.stub_text, lines);
    let alone = atom_of("x/y", "x", lines, &spec, &None);
    assert_eq!(alone.dependencies, vec!["p/a"]);
}

#[test]
fn status_of_a_proof() {
    let ok = proof_status(Some(true));
    assert!(ok.verified);
    assert_eq!(ok.status, "success");
    let open = proof_status(Some(false));
    assert!(!open.verified);
    assert_eq!(open.status, "sorries");
    let none = proof_status(None);
    assert!(!none.verified);
    assert_eq!(none.status, "sorries");
}
