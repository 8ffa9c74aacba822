//! A whole project: the documents are read one by one, what they declare is
//! put together in traversal order, and the graph is built from all of it.
use crate::config::{config_of, extract_config, merge_config, merged_config, Config, ConfigView};
use crate::document::{
    env_views, find_standalone_proofs, parse_document, parse_tex_file, proof_list_views,
    standalone_proofs,
};
use crate::graph::{
    assemble, build_stubs, pair_views, proof_views, table_view, unresolved_proofs, LocatedProof,
    StubGraph,
};
use crate::graph_success::{labels_distinct, references_declared, tokens_free};
use crate::graph_laws::{
    all_labelled, closed_under_dependencies, distinct_names, labels_unique, well_named,
};
use crate::model::{EnvView, ParsedEnv, ProofView, StandaloneProof, StubError};
use crate::text::{clone_strings, views};
use vstd::prelude::*;

verus! {

/// One document of a project: its path relative to the project's sources,
/// and its text.
#[derive(Debug, Clone)]
pub struct Document {
    pub relative_path: String,
    pub content: String,
}

/// The view of a `Document`: its path and its text.
pub type DocumentView = (Seq<char>, Seq<char>);

/// The views of a list of documents.
pub open spec fn document_views(documents: Seq<Document>) -> Seq<DocumentView> {
    Seq::new(documents.len(), |i: int| (documents[i].relative_path@, documents[i].content@))
}

/// The statements of all documents, in the order of the documents.
pub open spec fn project_envs(documents: Seq<DocumentView>, types: Seq<Seq<char>>) -> Seq<EnvView>
    decreases documents.len(),
{
    if documents.len() == 0 {
        Seq::empty()
    } else {
        project_envs(documents.drop_last(), types) + parse_document(
            documents.last().1,
            documents.last().0,
            types,
        )
    }
}

/// Each proof with the path of its document.
pub open spec fn located(path: Seq<char>, proofs: Seq<ProofView>) -> Seq<LocatedProof> {
    Seq::new(proofs.len(), |i: int| (path, proofs[i]))
}

/// The back-referenced proofs of all documents, in the order of the
/// documents, each with the path of its document.
pub open spec fn project_proofs(documents: Seq<DocumentView>) -> Seq<LocatedProof>
    decreases documents.len(),
{
    if documents.len() == 0 {
        Seq::empty()
    } else {
        project_proofs(documents.drop_last()) + located(
            documents.last().0,
            standalone_proofs(documents.last().1),
        )
    }
}

/// What the documents declare about the project, on top of `base`: a later
/// document wins over an earlier one, and each over `base`.
pub open spec fn project_config_of(base: ConfigView, documents: Seq<DocumentView>) -> ConfigView
    decreases documents.len(),
{
    if documents.len() == 0 {
        base
    } else {
        merged_config(
            project_config_of(base, documents.drop_last()),
            config_of(documents.last().1),
        )
    }
}

/// A copy of a back-referenced proof.
fn clone_proof(proof: &StandaloneProof) -> (r: StandaloneProof)
    ensures
        r@ == proof@,
{
    StandaloneProof {
        proves_labels: clone_strings(&proof.proves_labels),
        lines: proof.lines,
        proof_ok: proof.proof_ok,
        mathlib_ok: proof.mathlib_ok,
        not_ready: proof.not_ready,
        discussion: clone_strings(&proof.discussion),
        dependencies: clone_strings(&proof.dependencies),
        lean_names: clone_strings(&proof.lean_names),
    }
}

/// Reads all documents: their statements, and their back-referenced proofs
/// with the path of each.
pub fn parse_project(documents: &Vec<Document>, env_types: &[String]) -> (r: (
    Vec<ParsedEnv>,
    Vec<(String, StandaloneProof)>,
))
    ensures
        env_views(r.0@) == project_envs(document_views(documents@), views(env_types@)),
        proof_views(r.1@) == project_proofs(document_views(documents@)),
{
    let ghost docs = document_views(documents@);
    let ghost types = views(env_types@);
    let mut envs: Vec<ParsedEnv> = Vec::new();
    let mut proofs: Vec<(String, StandaloneProof)> = Vec::new();
    let mut i: usize = 0;
    proof {
        assert(docs.take(0) =~= Seq::empty());
        assert(env_views(envs@) =~= Seq::empty());
        assert(proof_views(proofs@) =~= Seq::empty());
    }
    while i < documents.len()
        invariant
            i <= documents.len(),
            docs == document_views(documents@),
            types == views(env_types@),
            env_views(envs@) == project_envs(docs.take(i as int), types),
            proof_views(proofs@) == project_proofs(docs.take(i as int)),
        decreases documents.len() - i,
    {
        let doc = &documents[i];
        proof {
            assert(docs.take(i + 1).drop_last() =~= docs.take(i as int));
            assert(docs.take(i + 1).last() == (doc.relative_path@, doc.content@));
        }
        let ghost envs_before = env_views(envs@);
        let mut found = parse_tex_file(doc.content.as_str(), doc.relative_path.as_str(), env_types);
        let ghost added = env_views(found@);
        envs.append(&mut found);
        assert(env_views(envs@) =~= envs_before + added);
        let own = find_standalone_proofs(doc.content.as_str(), doc.relative_path.as_str());
        let ghost proofs_before = proof_views(proofs@);
        let ghost wanted = located(doc.relative_path@, proof_list_views(own@));
        let mut k: usize = 0;
        assert(wanted.take(0) =~= Seq::empty());
        assert(proofs_before + wanted.take(0) =~= proofs_before);
        while k < own.len()
            invariant
                k <= own.len(),
                i < documents.len(),
                doc == &documents[i as int],
                wanted == located(doc.relative_path@, proof_list_views(own@)),
                proof_views(proofs@) == proofs_before + wanted.take(k as int),
                env_views(envs@) == envs_before + added,
            decreases own.len() - k,
        {
            let ghost before = proof_views(proofs@);
            proofs.push((doc.relative_path.clone(), clone_proof(&own[k])));
            assert(proof_views(proofs@) =~= before.push(wanted[k as int]));
            assert(proofs_before + wanted.take(k + 1) =~= (proofs_before + wanted.take(
                k as int,
            )).push(wanted[k as int]));
            k = k + 1;
        }
        assert(wanted.take(k as int) =~= wanted);
        i = i + 1;
    }
    proof {
        assert(docs.take(i as int) =~= docs);
    }
    (envs, proofs)
}

/// Builds the graph of a project from its documents, in traversal order.
/// `env_types` names the environments that declare a statement.
///
/// A label that is declared twice and a dependency on a label that no
/// statement owns are errors; nothing is produced then.
pub fn stubify(documents: &Vec<Document>, env_types: &[String]) -> (r: Result<StubGraph, StubError>)
    ensures
        match assemble(
            project_envs(document_views(documents@), views(env_types@)),
            project_proofs(document_views(documents@)),
        ) {
            Ok(table) => r is Ok && table_view(r->Ok_0.stubs@) == table && pair_views(
                r->Ok_0.unresolved@,
            ) == unresolved_proofs(
                project_envs(document_views(documents@), views(env_types@)),
                project_proofs(document_views(documents@)),
            ),
            Err(e) => r is Err && r->Err_0@ == e,
        },
        r is Ok ==> all_labelled(table_view(r->Ok_0.stubs@)),
        r is Ok ==> labels_unique(table_view(r->Ok_0.stubs@)),
        r is Ok ==> well_named(table_view(r->Ok_0.stubs@)),
        r is Ok ==> distinct_names(table_view(r->Ok_0.stubs@)),
        r is Ok ==> closed_under_dependencies(table_view(r->Ok_0.stubs@)),
        labels_distinct(project_envs(document_views(documents@), views(env_types@)))
            && tokens_free(project_envs(document_views(documents@), views(env_types@)))
            && references_declared(
            project_envs(document_views(documents@), views(env_types@)),
            project_proofs(document_views(documents@)),
        ) ==> r is Ok,
{
    let (envs, proofs) = parse_project(documents, env_types);
    build_stubs(&envs, &proofs)
}

/// What the documents declare about the project, on top of `base`.
pub fn project_config(base: Config, documents: &Vec<Document>) -> (config: Config)
    ensures
        config@ == project_config_of(base@, document_views(documents@)),
{
    let ghost docs = document_views(documents@);
    let ghost start = base@;
    let mut config = base;
    let mut i: usize = 0;
    assert(docs.take(0) =~= Seq::empty());
    while i < documents.len()
        invariant
            i <= documents.len(),
            docs == document_views(documents@),
            config@ == project_config_of(start, docs.take(i as int)),
        decreases documents.len() - i,
    {
        proof {
            assert(docs.take(i + 1).drop_last() =~= docs.take(i as int));
            assert(docs.take(i + 1).last() == (
                documents[i as int].relative_path@,
                documents[i as int].content@,
            ));
        }
        config = merge_config(config, extract_config(documents[i].content.as_str()));
        i = i + 1;
    }
    proof {
        assert(docs.take(i as int) =~= docs);
    }
    config
}

} // verus!
