//! The scanners of the library, held against the same grammar written as
//! regular expressions, on a fixed set of generated documents. Closing
//! markers are balanced by counting, which no regular expression does.
use probe_blueprint::comments::strip_latex_comments;
use probe_blueprint::config::{extract_dochome, extract_github, extract_home, parse_thms_option};
use probe_blueprint::document::{find_standalone_proofs, parse_tex_file};
use probe_blueprint::macros::{
    extract_discussion, extract_lean, extract_mathlibok, extract_notready, extract_proves,
    extract_uses,
};
use probe_blueprint::nesting::{extract_all_labels, strip_nested_environments};
use probe_blueprint::text::byte_pos_to_line;
use regex::Regex;

const TOKENS: &[&str] = &[
    "\\begin{theorem}", "\\end{theorem}", "\\begin{proof}", "\\end{proof}", "\\begin{equation}",
    "\\end{equation}", "\\begin{lemma}", "\\end{lemma}", "\\label{a}", "\\label{}", "\\label{b c}",
    "\\label{x", "\\uses{x, y}", "\\uses{ , }", "\\uses{z}", "\\proves{t}", "\\proves{}",
    "\\proves{ ,}", "\\lean{A,B}", "\\lean{ C }", "\\leanok", "\\mathlibok", "\\notready",
    "\\discussion{ 1 }", "\\discussion{2}", " ", "\n", "\t", "text", "%", "\\%", "\\\\", "}", "{",
    "\\begin{", "\\end{", "\u{e9}", "\u{a0}", "\u{2003}", ",", "\\home{ h }", "\\github{g}",
    "\\dochome{d}", "\\usepackage", "[", "]", "thms", "=", "dfn+lem", "+", "{blueprint}", "_",
    "\\begin{a.b}", "\\end{a.b}", "\\begin{equation}\\label{n}", "\\end{equation}\\label{m}", "\\begin{theorem}\\label{t}", "\\end{theorem}\n\\begin{proof}",
    "\\end{theorem} \u{a0}\\begin{proof}", "\u{85}", "\u{1680}", "\r",
];

struct Source(u64);

impl Source {
    fn next(&mut self, bound: usize) -> usize {
        self.0 = self.0.wrapping_mul(6364136223846793005).wrapping_add(1442695040888963407);
        ((self.0 >> 33) as usize) % bound
    }

    fn document(&mut self) -> String {
        let n = self.next(28);
        let mut s = String::new();
        for _ in 0..n {
            s.push_str(TOKENS[self.next(TOKENS.len())]);
        }
        s
    }
}

fn documents(seed: u64, count: usize) -> Vec<String> {
    let mut source = Source(seed);
    let mut docs: Vec<String> = (0..count).map(|_| source.document()).collect();
    docs.push(String::new());
    docs.push("\\begin{theorem}\\label{a}\\end{theorem}\n\n\\begin{proof}\\end{proof}".to_string());
    docs.push("\\usepackage  [a, thms = dfn+lem_ma+, b] \n {blueprint}".to_string());
    docs.push("\\usepackage[thms=]{blueprint}\\usepackage[x thms\u{a0}=\tq+]{blueprint}".to_string());
    docs
}

fn list(arg: Option<&str>) -> Vec<String> {
    match arg {
        Some(s) => s.split(',').map(|p| p.trim().to_string()).filter(|p| !p.is_empty()).collect(),
        None => Vec::new(),
    }
}

fn pattern(name: &str) -> Regex {
    Regex::new(&format!(r"\\{}\{{([^}}]+)\}}", name)).unwrap()
}

fn first(content: &str, name: &str) -> Option<String> {
    pattern(name).captures(content).map(|c| c[1].to_string())
}

fn first_of(re: &Regex, content: &str) -> Option<String> {
    re.captures(content).map(|c| c[1].to_string())
}

fn every(content: &str, name: &str) -> Vec<String> {
    pattern(name).captures_iter(content).map(|c| c[1].to_string()).collect()
}

fn balancing(content: &str, open: &str, close: &str, from: usize) -> Option<usize> {
    let mut depth = 0;
    for (i, _) in content.char_indices() {
        if i < from {
            continue;
        }
        if content[i..].starts_with(close) {
            if depth == 0 {
                return Some(i);
            }
            depth -= 1;
        } else if content[i..].starts_with(open) {
            depth += 1;
        }
    }
    None
}

fn masked(content: &str) -> String {
    let begin = Regex::new(r"\\begin\{([^}]+)\}").unwrap();
    let mut result = String::new();
    let mut pos = 0;
    while pos < content.len() {
        if let Some(caps) = begin.captures(&content[pos..]) {
            let whole = caps.get(0).unwrap();
            result.push_str(&content[pos..pos + whole.start()]);
            let open = format!("\\begin{{{}}}", &caps[1]);
            let close = format!("\\end{{{}}}", &caps[1]);
            let from = pos + whole.end();
            if let Some(at) = balancing(content, &open, &close, from) {
                pos = at + close.len();
            } else {
                result.push_str(whole.as_str());
                pos += whole.end();
            }
        } else {
            result.push_str(&content[pos..]);
            break;
        }
    }
    result
}

fn line(content: &str, pos: usize) -> usize {
    content[..pos].chars().filter(|&c| c == '\n').count() + 1
}

#[test]
fn macros_agree_with_their_patterns() {
    let lean = pattern("lean");
    let uses = pattern("uses");
    let proves = pattern("proves");
    let discussion = pattern("discussion");
    let home = pattern("home");
    let github = pattern("github");
    let dochome = pattern("dochome");
    for doc in documents(1, 3000) {
        assert_eq!(extract_lean(&doc), list(first_of(&lean, &doc).as_deref()), "{:?}", doc);
        assert_eq!(extract_uses(&doc), list(first_of(&uses, &doc).as_deref()), "{:?}", doc);
        assert_eq!(extract_proves(&doc), list(first_of(&proves, &doc).as_deref()), "{:?}", doc);
        let tags: Vec<String> =
            discussion.captures_iter(&doc).map(|c| c[1].trim().to_string()).collect();
        assert_eq!(extract_discussion(&doc), tags, "{:?}", doc);
        assert_eq!(extract_home(&doc), first_of(&home, &doc).map(|s| s.trim().to_string()));
        assert_eq!(extract_github(&doc), first_of(&github, &doc).map(|s| s.trim().to_string()));
        assert_eq!(extract_dochome(&doc), first_of(&dochome, &doc).map(|s| s.trim().to_string()));
        assert_eq!(extract_mathlibok(&doc), doc.contains("\\mathlibok"));
        assert_eq!(extract_notready(&doc), doc.contains("\\notready"));
    }
}

#[test]
fn masking_and_labels_agree_with_their_patterns() {
    for doc in documents(2, 600) {
        let expected = masked(&doc);
        assert_eq!(strip_nested_environments(&doc), expected, "{:?}", doc);
        assert_eq!(extract_all_labels(&doc), every(&expected, "label"), "{:?}", doc);
    }
}

#[test]
fn thms_option_agrees_with_its_patterns() {
    let package = Regex::new(r"\\usepackage\s*\[([^\]]*)\]\s*\{blueprint\}").unwrap();
    let thms = Regex::new(r"thms\s*=\s*([a-zA-Z+_]+)").unwrap();
    let default: Vec<String> = ["definition", "lemma", "proposition", "theorem", "corollary"]
        .iter()
        .map(|s| s.to_string())
        .collect();
    for doc in documents(3, 6000) {
        let mut expected = default.clone();
        if let Some(caps) = package.captures(&doc) {
            if let Some(value) = thms.captures(&caps[1]) {
                expected = value[1].split('+').map(|s| s.trim().to_string()).collect();
            }
        }
        assert_eq!(parse_thms_option(&doc), expected, "{:?}", doc);
    }
}

#[test]
fn statements_agree_with_their_patterns() {
    let types = vec!["theorem".to_string(), "lemma".to_string(), "a.b".to_string()];
    let proof = Regex::new(r"(?s)^\s*(\\begin\{proof\})(.*?)\\end\{proof\}").unwrap();
    for raw in documents(4, 400) {
        let doc = strip_latex_comments(&raw);
        let mut found: Vec<(usize, usize, String, String)> = Vec::new();
        for t in &types {
            let re = Regex::new(&format!(
                r"(?s)\\begin\{{{}\}}(.*?)\\end\{{{}\}}",
                regex::escape(t),
                regex::escape(t)
            ))
            .unwrap();
            for caps in re.captures_iter(&doc) {
                let whole = caps.get(0).unwrap();
                found.push((whole.start(), whole.end(), t.clone(), caps[1].to_string()));
            }
        }
        found.sort_by_key(|m| m.0);
        let envs = parse_tex_file(&raw, "p.tex", &types);
        assert_eq!(envs.len(), found.len(), "{:?}", raw);
        for (env, (start, end, kind, content)) in envs.iter().zip(found.iter()) {
            assert_eq!(&env.env_type, kind, "{:?}", raw);
            assert_eq!(env.relative_path, "p.tex");
            assert_eq!(env.spec_lines.lines_start, line(&doc, *start), "{:?}", raw);
            assert_eq!(env.spec_lines.lines_end, line(&doc, *end - 1), "{:?}", raw);
            let mut labels = every(&masked(content), "label");
            let names = list(first(content, "lean").as_deref());
            assert_eq!(env.code_name, names.first().map(|n| format!("probe:{}", n)));
            assert_eq!(env.lean_names.is_some(), names.len() > 1);
            assert_eq!(env.spec_ok, content.contains("\\leanok"));
            assert_eq!(env.spec_dependencies, list(first(content, "uses").as_deref()));
            let attached = proof.captures(&doc[*end..]).and_then(|caps| {
                let body = caps[2].to_string();
                if list(first(&body, "proves").as_deref()).is_empty() {
                    let begin = *end + caps.get(1).unwrap().start();
                    let stop = *end + caps.get(0).unwrap().end();
                    Some((body, line(&doc, begin), line(&doc, stop - 1)))
                } else {
                    None
                }
            });
            match attached {
                Some((body, first_line, last_line)) => {
                    labels.extend(every(&masked(&body), "label"));
                    let lines = env.proof_lines.expect("a proof is attached");
                    assert_eq!(lines.lines_start, first_line, "{:?}", raw);
                    assert_eq!(lines.lines_end, last_line, "{:?}", raw);
                    assert_eq!(env.proof_ok == Some(true), body.contains("\\leanok"));
                    let deps = list(first(&body, "uses").as_deref());
                    assert_eq!(env.proof_dependencies.clone().unwrap_or_default(), deps);
                    assert_eq!(env.proof_dependencies.is_some(), !deps.is_empty());
                }
                None => {
                    assert!(env.proof_lines.is_none(), "{:?}", raw);
                    assert!(env.proof_ok.is_none() && env.proof_dependencies.is_none());
                }
            }
            assert_eq!(env.labels, labels, "{:?}", raw);
        }
    }
}

#[test]
fn back_referenced_proofs_agree_with_their_pattern() {
    let proof = Regex::new(r"(?s)\\begin\{proof\}(.*?)\\end\{proof\}").unwrap();
    for raw in documents(5, 600) {
        let doc = strip_latex_comments(&raw);
        let mut expected: Vec<(Vec<String>, usize, usize, bool)> = Vec::new();
        for caps in proof.captures_iter(&doc) {
            let proves = list(first(&caps[1], "proves").as_deref());
            if proves.is_empty() {
                continue;
            }
            let whole = caps.get(0).unwrap();
            expected.push((
                proves,
                line(&doc, whole.start()),
                line(&doc, whole.end() - 1),
                caps[1].contains("\\leanok"),
            ));
        }
        let proofs = find_standalone_proofs(&raw, "p.tex");
        assert_eq!(proofs.len(), expected.len(), "{:?}", raw);
        for (p, (proves, first_line, last_line, ok)) in proofs.iter().zip(expected.iter()) {
            assert_eq!(&p.proves_labels, proves);
            assert_eq!(p.lines.lines_start, *first_line);
            assert_eq!(p.lines.lines_end, *last_line);
            assert_eq!(p.proof_ok, *ok);
        }
    }
}

#[test]
fn comment_stripping_keeps_every_newline() {
    for doc in documents(6, 4000) {
        let stripped = strip_latex_comments(&doc);
        let before = doc.chars().filter(|&c| c == '\n').count();
        let after = stripped.chars().filter(|&c| c == '\n').count();
        assert_eq!(before, after, "{:?}", doc);
        assert_eq!(byte_pos_to_line(&doc, doc.len()), before + 1);
    }
}
