//! From the statements and proofs of all documents to the graph of stubs:
//! labels are reserved or synthesized, each statement becomes an entity
//! under its canonical name, back-referenced proofs are merged into the
//! entities they prove, and every dependency is resolved to a canonical name.
use crate::document::env_views;
use crate::graph_laws::{
    all_labelled, closed_under_dependencies, distinct_names, labels_unique,
    lemma_assemble_closed, well_named,
};
use crate::graph_success::{
    labels_distinct, lemma_assemble_succeeds, references_declared, tokens_free,
};
use crate::labels::label_token;
use crate::model::{
    EnvView, ErrorView, ParsedEnv, ProofView, StandaloneProof, Stub, StubError, StubView,
};
use crate::registry::{
    next_free, with_label, with_owner, with_synthesized, LabelRegistry, RegistryView,
    empty_registry,
};
use crate::text::{clone_opt_string, clone_opt_strings, clone_strings, concat, views};
use vstd::prelude::*;

verus! {

/// The entities of a graph in the order in which their names first came up,
/// each with its canonical name.
pub type StubTable = Seq<(Seq<char>, StubView)>;

/// The canonical name of an entity: the path of its document, a slash, and
/// its primary label.
pub open spec fn stub_name(path: Seq<char>, label: Seq<char>) -> Seq<char> {
    path + seq!['/'] + label
}

/// The entity that a statement becomes, `labels` being its labels once the
/// registry has seen them. Its primary label is the last of them.
pub open spec fn stub_of(env: EnvView, labels: Seq<Seq<char>>) -> StubView {
    StubView {
        label: labels.last(),
        stub_type: env.env_type,
        stub_path: env.relative_path,
        stub_spec: env.spec_lines,
        stub_proof: env.proof_lines,
        labels: labels,
        code_name: env.code_name,
        lean_names: env.lean_names,
        spec_ok: env.spec_ok,
        mathlib_ok: env.mathlib_ok,
        not_ready: env.not_ready,
        discussion: env.discussion,
        spec_dependencies: env.spec_dependencies,
        proof_ok: env.proof_ok,
        proof_mathlib_ok: env.proof_mathlib_ok,
        proof_not_ready: env.proof_not_ready,
        proof_discussion: env.proof_discussion,
        proof_dependencies: env.proof_dependencies,
        proof_lean_names: env.proof_lean_names,
    }
}

/// The index of the first entity at or after `from` whose name is `name`, or
/// `table.len()` when there is none.
pub open spec fn find_name(table: StubTable, name: Seq<char>, from: int) -> int
    decreases table.len() - from,
{
    if from < 0 || from >= table.len() {
        table.len() as int
    } else if table[from].0 == name {
        from
    } else {
        find_name(table, name, from + 1)
    }
}

/// Some entity of `table` has the name `name`.
pub open spec fn has_name(table: StubTable, name: Seq<char>) -> bool {
    exists|i: int| 0 <= i < table.len() && (#[trigger] table[i]).0 == name
}

/// `table` with `stub` under `name`: in the place of the entity that had
/// this name, or at the end when none had it.
pub open spec fn upsert(table: StubTable, name: Seq<char>, stub: StubView) -> StubTable {
    let i = find_name(table, name, 0);
    if i < table.len() {
        table.update(i, (name, stub))
    } else {
        table.push((name, stub))
    }
}

/// The label registry and the entities of a run.
pub struct GraphView {
    pub registry: RegistryView,
    pub table: StubTable,
}

/// The graph with which a run starts.
pub open spec fn empty_graph() -> GraphView {
    GraphView { registry: empty_registry(), table: Seq::empty() }
}

/// The registry after `labels` were reserved one after the other, or the
/// error for the first of them that was reserved already.
pub open spec fn reserve_all(r: RegistryView, labels: Seq<Seq<char>>) -> Result<
    RegistryView,
    ErrorView,
>
    decreases labels.len(),
{
    if labels.len() == 0 {
        Ok(r)
    } else {
        match reserve_all(r, labels.drop_last()) {
            Ok(r1) => if r1.reserved.contains(labels.last()) {
                Err(ErrorView::DuplicateLabel { label: labels.last() })
            } else {
                Ok(with_label(r1, labels.last()))
            },
            Err(e) => Err(e),
        }
    }
}

/// The registry after `entity` was recorded as the owner of each of `labels`.
pub open spec fn record_all(r: RegistryView, labels: Seq<Seq<char>>, entity: Seq<char>)
    -> RegistryView
    decreases labels.len(),
{
    if labels.len() == 0 {
        r
    } else {
        with_owner(record_all(r, labels.drop_last(), entity), labels.last(), entity)
    }
}

/// The labels of a statement once the registry has seen them: its own, or
/// the one synthesized label when it has none. `r` is the registry after its
/// own labels were reserved.
pub open spec fn final_labels(r: RegistryView, env: EnvView) -> Seq<Seq<char>> {
    if env.labels.len() == 0 {
        seq![label_token(next_free(r))]
    } else {
        env.labels
    }
}

/// The graph after one more statement: its labels are reserved (a repeat is
/// an error), one is synthesized when it has none, the entity is entered
/// under its canonical name, and owns all of its labels.
pub open spec fn register(g: GraphView, env: EnvView) -> Result<GraphView, ErrorView> {
    match reserve_all(g.registry, env.labels) {
        Err(e) => Err(e),
        Ok(r1) => {
            let r2 = if env.labels.len() == 0 {
                with_synthesized(r1, next_free(r1))
            } else {
                r1
            };
            let labels = final_labels(r1, env);
            let name = stub_name(env.relative_path, labels.last());
            Ok(
                GraphView {
                    registry: record_all(r2, labels, name),
                    table: upsert(g.table, name, stub_of(env, labels)),
                },
            )
        },
    }
}

/// The graph after all statements were registered in order, or the error of
/// the first that was refused.
pub open spec fn register_all(envs: Seq<EnvView>) -> Result<GraphView, ErrorView>
    decreases envs.len(),
{
    if envs.len() == 0 {
        Ok(empty_graph())
    } else {
        match register_all(envs.drop_last()) {
            Ok(g) => register(g, envs.last()),
            Err(e) => Err(e),
        }
    }
}

/// The view of a list of named entities.
pub open spec fn table_view(stubs: Seq<(String, Stub)>) -> StubTable {
    Seq::new(stubs.len(), |i: int| (stubs[i].0@, stubs[i].1@))
}

/// Once reserving a prefix of `labels` has failed, reserving all of them
/// fails in the same way.
proof fn lemma_reserve_all_fails(r: RegistryView, labels: Seq<Seq<char>>, k: int)
    requires
        0 <= k <= labels.len(),
        reserve_all(r, labels.take(k)) is Err,
    ensures
        reserve_all(r, labels) == reserve_all(r, labels.take(k)),
    decreases labels.len() - k,
{
    if k == labels.len() {
        assert(labels.take(k) =~= labels);
    } else {
        assert(labels.take(k + 1).drop_last() =~= labels.take(k));
        lemma_reserve_all_fails(r, labels, k + 1);
    }
}

/// Once registering a prefix of `envs` has failed, registering all of them
/// fails in the same way.
proof fn lemma_register_all_fails(envs: Seq<EnvView>, k: int)
    requires
        0 <= k <= envs.len(),
        register_all(envs.take(k)) is Err,
    ensures
        register_all(envs) == register_all(envs.take(k)),
    decreases envs.len() - k,
{
    if k == envs.len() {
        assert(envs.take(k) =~= envs);
    } else {
        assert(envs.take(k + 1).drop_last() =~= envs.take(k));
        lemma_register_all_fails(envs, k + 1);
    }
}

/// The entity for `env` with the labels `labels`.
fn make_stub(env: &ParsedEnv, labels: Vec<String>) -> (stub: Stub)
    requires
        labels.len() > 0,
    ensures
        stub@ == stub_of(env@, views(labels@)),
{
    let label = labels[labels.len() - 1].clone();
    Stub {
        label: label,
        stub_type: env.env_type.clone(),
        stub_path: env.relative_path.clone(),
        stub_spec: env.spec_lines,
        stub_proof: env.proof_lines,
        labels: labels,
        code_name: clone_opt_string(&env.code_name),
        lean_names: clone_opt_strings(&env.lean_names),
        spec_ok: env.spec_ok,
        mathlib_ok: env.mathlib_ok,
        not_ready: env.not_ready,
        discussion: clone_strings(&env.discussion),
        spec_dependencies: clone_strings(&env.spec_dependencies),
        proof_ok: env.proof_ok,
        proof_mathlib_ok: env.proof_mathlib_ok,
        proof_not_ready: env.proof_not_ready,
        proof_discussion: clone_opt_strings(&env.proof_discussion),
        proof_dependencies: clone_opt_strings(&env.proof_dependencies),
        proof_lean_names: clone_opt_strings(&env.proof_lean_names),
    }
}

/// The index of the first entity named `name`, or the number of entities.
fn find_stub(stubs: &Vec<(String, Stub)>, name: &String) -> (i: usize)
    ensures
        i == find_name(table_view(stubs@), name@, 0),
        i <= stubs.len(),
{
    let mut i: usize = 0;
    while i < stubs.len()
        invariant
            i <= stubs.len(),
            find_name(table_view(stubs@), name@, 0) == find_name(
                table_view(stubs@),
                name@,
                i as int,
            ),
        decreases stubs.len() - i,
    {
        if stubs[i].0 == *name {
            return i;
        }
        i = i + 1;
    }
    i
}

/// Enters `stub` under `name`.
fn upsert_stub(stubs: &mut Vec<(String, Stub)>, name: String, stub: Stub)
    ensures
        table_view(final(stubs)@) == upsert(table_view(old(stubs)@), name@, stub@),
{
    let i = find_stub(stubs, &name);
    if i < stubs.len() {
        stubs[i] = (name, stub);
        assert(table_view(stubs@) =~= upsert(table_view(old(stubs)@), name@, stub@));
    } else {
        stubs.push((name, stub));
        assert(table_view(stubs@) =~= upsert(table_view(old(stubs)@), name@, stub@));
    }
}

/// Registers one statement: see `register`.
fn register_env(registry: &mut LabelRegistry, stubs: &mut Vec<(String, Stub)>, env: &ParsedEnv) -> (r:
    Result<(), StubError>)
    requires
        old(registry).wf(),
    ensures
        final(registry).wf(),
        match register(
            GraphView { registry: old(registry)@, table: table_view(old(stubs)@) },
            env@,
        ) {
            Ok(g) => r is Ok && final(registry)@ == g.registry && table_view(final(stubs)@)
                == g.table,
            Err(e) => r is Err && r->Err_0@ == e,
        },
{
    let ghost r0 = registry@;
    let ghost wanted = views(env.labels@);
    let mut i: usize = 0;
    while i < env.labels.len()
        invariant
            i <= env.labels.len(),
            registry.wf(),
            wanted == views(env.labels@),
            r0 == old(registry)@,
            reserve_all(r0, wanted.take(i as int)) == Ok::<RegistryView, ErrorView>(registry@),
            *stubs == *old(stubs),
        decreases env.labels.len() - i,
    {
        proof {
            assert(wanted.take(i + 1).drop_last() =~= wanted.take(i as int));
            assert(wanted.take(i + 1).last() == env.labels@[i as int]@);
        }
        match registry.reserve(env.labels[i].as_str()) {
            Ok(_) => {},
            Err(e) => {
                proof {
                    assert(reserve_all(r0, wanted.take(i + 1)) == Err::<RegistryView, ErrorView>(
                        e@,
                    ));
                    lemma_reserve_all_fails(r0, wanted, i + 1);
                    assert(reserve_all(r0, wanted) == Err::<RegistryView, ErrorView>(e@));
                }
                return Err(e);
            },
        }
        i = i + 1;
    }
    proof {
        assert(wanted.take(i as int) =~= wanted);
    }
    let ghost r1 = registry@;
    let labels = if env.labels.len() == 0 {
        let mut one: Vec<String> = Vec::new();
        one.push(registry.synthesize());
        assert(views(one@) =~= final_labels(r1, env@));
        one
    } else {
        clone_strings(&env.labels)
    };
    let ghost r2 = registry@;
    let ghost labels_view = views(labels@);
    assert(labels_view == final_labels(r1, env@));
    let mut name = concat(env.relative_path.as_str(), "/");
    name.append(labels[labels.len() - 1].as_str());
    proof {
        reveal_strlit("/");
        assert("/"@ =~= seq!['/']);
        assert(name@ == stub_name(env@.relative_path, labels_view.last()));
    }
    let mut k: usize = 0;
    while k < labels.len()
        invariant
            k <= labels.len(),
            registry.wf(),
            labels_view == views(labels@),
            registry@ == record_all(r2, labels_view.take(k as int), name@),
            *stubs == *old(stubs),
        decreases labels.len() - k,
    {
        proof {
            assert(labels_view.take(k + 1).drop_last() =~= labels_view.take(k as int));
            assert(labels_view.take(k + 1).last() == labels@[k as int]@);
        }
        registry.record_owner(labels[k].as_str(), name.as_str());
        k = k + 1;
    }
    proof {
        assert(labels_view.take(k as int) =~= labels_view);
    }
    let stub = make_stub(env, labels);
    upsert_stub(stubs, name, stub);
    Ok(())
}

/// A back-referenced proof with the path of its document.
pub type LocatedProof = (Seq<char>, ProofView);

/// The views of a list of back-referenced proofs.
pub open spec fn proof_views(proofs: Seq<(String, StandaloneProof)>) -> Seq<LocatedProof> {
    Seq::new(proofs.len(), |i: int| (proofs[i].0@, proofs[i].1@))
}

/// The views of a list of pairs of strings.
pub open spec fn pair_views(pairs: Seq<(String, String)>) -> Seq<(Seq<char>, Seq<char>)> {
    Seq::new(pairs.len(), |i: int| (pairs[i].0@, pairs[i].1@))
}

/// An entity after a back-referenced proof was merged into it. The span of
/// the proof is replaced. A flag that the proof sets becomes true, and one
/// that it does not set stays as it was. A list that the proof gives
/// replaces the entity's, and one that it leaves empty leaves the entity's
/// as it was.
pub open spec fn merged(stub: StubView, proof: ProofView) -> StubView {
    StubView {
        stub_proof: Some(proof.lines),
        proof_ok: if proof.proof_ok {
            Some(true)
        } else {
            stub.proof_ok
        },
        proof_mathlib_ok: if proof.mathlib_ok {
            Some(true)
        } else {
            stub.proof_mathlib_ok
        },
        proof_not_ready: if proof.not_ready {
            Some(true)
        } else {
            stub.proof_not_ready
        },
        proof_discussion: if proof.discussion.len() > 0 {
            Some(proof.discussion)
        } else {
            stub.proof_discussion
        },
        proof_dependencies: if proof.dependencies.len() > 0 {
            Some(proof.dependencies)
        } else {
            stub.proof_dependencies
        },
        proof_lean_names: if proof.lean_names.len() > 0 {
            Some(proof.lean_names)
        } else {
            stub.proof_lean_names
        },
        ..stub
    }
}

/// The entities after `proof` was merged into the owner of `label`; they
/// stay as they are when the label has no owner.
pub open spec fn attach(
    table: StubTable,
    owners: Map<Seq<char>, Seq<char>>,
    proof: ProofView,
    label: Seq<char>,
) -> StubTable {
    if owners.contains_key(label) {
        let i = find_name(table, owners[label], 0);
        if i < table.len() {
            table.update(i, (table[i].0, merged(table[i].1, proof)))
        } else {
            table
        }
    } else {
        table
    }
}

/// The entities after `proof` was merged into the owner of each of `labels`.
pub open spec fn attach_labels(
    table: StubTable,
    owners: Map<Seq<char>, Seq<char>>,
    proof: ProofView,
    labels: Seq<Seq<char>>,
) -> StubTable
    decreases labels.len(),
{
    if labels.len() == 0 {
        table
    } else {
        attach(attach_labels(table, owners, proof, labels.drop_last()), owners, proof, labels.last())
    }
}

/// The entities after every back-referenced proof was merged, in order, into
/// the owners of the labels that it proves.
pub open spec fn attach_all(
    table: StubTable,
    owners: Map<Seq<char>, Seq<char>>,
    proofs: Seq<LocatedProof>,
) -> StubTable
    decreases proofs.len(),
{
    if proofs.len() == 0 {
        table
    } else {
        attach_labels(
            attach_all(table, owners, proofs.drop_last()),
            owners,
            proofs.last().1,
            proofs.last().1.proves_labels,
        )
    }
}

/// Those of `labels` that have no owner, each with `path`.
pub open spec fn dangling(
    owners: Map<Seq<char>, Seq<char>>,
    path: Seq<char>,
    labels: Seq<Seq<char>>,
) -> Seq<(Seq<char>, Seq<char>)>
    decreases labels.len(),
{
    if labels.len() == 0 {
        Seq::empty()
    } else {
        let rest = dangling(owners, path, labels.drop_last());
        if owners.contains_key(labels.last()) {
            rest
        } else {
            rest.push((path, labels.last()))
        }
    }
}

/// The back-references that name no owned label, each as the path of the
/// proof's document and the label, in the order of the proofs.
pub open spec fn all_dangling(owners: Map<Seq<char>, Seq<char>>, proofs: Seq<LocatedProof>) -> Seq<
    (Seq<char>, Seq<char>),
>
    decreases proofs.len(),
{
    if proofs.len() == 0 {
        Seq::empty()
    } else {
        all_dangling(owners, proofs.drop_last()) + dangling(
            owners,
            proofs.last().0,
            proofs.last().1.proves_labels,
        )
    }
}

/// The canonical names that own `labels`, or the first label without owner.
pub open spec fn resolve_list(owners: Map<Seq<char>, Seq<char>>, labels: Seq<Seq<char>>) -> Result<
    Seq<Seq<char>>,
    Seq<char>,
>
    decreases labels.len(),
{
    if labels.len() == 0 {
        Ok(Seq::empty())
    } else {
        match resolve_list(owners, labels.drop_last()) {
            Ok(names) => if owners.contains_key(labels.last()) {
                Ok(names.push(owners[labels.last()]))
            } else {
                Err(labels.last())
            },
            Err(label) => Err(label),
        }
    }
}

/// An entity with both of its dependency lists resolved, the statement's
/// first; or the error for its first dependency without owner.
pub open spec fn resolve_stub(owners: Map<Seq<char>, Seq<char>>, name: Seq<char>, stub: StubView)
    -> Result<StubView, ErrorView> {
    match resolve_list(owners, stub.spec_dependencies) {
        Err(label) => Err(ErrorView::UnknownLabel { label: label, stub: name, proof_side: false }),
        Ok(deps) => match stub.proof_dependencies {
            None => Ok(StubView { spec_dependencies: deps, ..stub }),
            Some(raw) => match resolve_list(owners, raw) {
                Err(label) => Err(
                    ErrorView::UnknownLabel { label: label, stub: name, proof_side: true },
                ),
                Ok(proof_deps) => Ok(
                    StubView {
                        spec_dependencies: deps,
                        proof_dependencies: Some(proof_deps),
                        ..stub
                    },
                ),
            },
        },
    }
}

/// The entities with all dependencies resolved, or the error of the first
/// entity that holds a dependency without owner.
pub open spec fn resolve_table(owners: Map<Seq<char>, Seq<char>>, table: StubTable) -> Result<
    StubTable,
    ErrorView,
>
    decreases table.len(),
{
    if table.len() == 0 {
        Ok(Seq::empty())
    } else {
        match resolve_table(owners, table.drop_last()) {
            Err(e) => Err(e),
            Ok(done) => match resolve_stub(owners, table.last().0, table.last().1) {
                Err(e) => Err(e),
                Ok(stub) => Ok(done.push((table.last().0, stub))),
            },
        }
    }
}

/// The graph of a project: all statements are registered, then all
/// back-referenced proofs merged, then all dependencies resolved.
pub open spec fn assemble(envs: Seq<EnvView>, proofs: Seq<LocatedProof>) -> Result<
    StubTable,
    ErrorView,
> {
    match register_all(envs) {
        Err(e) => Err(e),
        Ok(g) => resolve_table(g.registry.owners, attach_all(g.table, g.registry.owners, proofs)),
    }
}

/// The back-references of a project that name no owned label.
pub open spec fn unresolved_proofs(envs: Seq<EnvView>, proofs: Seq<LocatedProof>) -> Seq<
    (Seq<char>, Seq<char>),
> {
    match register_all(envs) {
        Err(e) => Seq::empty(),
        Ok(g) => all_dangling(g.registry.owners, proofs),
    }
}

/// Once resolving a prefix of `labels` has failed, resolving all of them
/// fails in the same way.
proof fn lemma_resolve_list_fails(owners: Map<Seq<char>, Seq<char>>, labels: Seq<Seq<char>>, k: int)
    requires
        0 <= k <= labels.len(),
        resolve_list(owners, labels.take(k)) is Err,
    ensures
        resolve_list(owners, labels) == resolve_list(owners, labels.take(k)),
    decreases labels.len() - k,
{
    if k == labels.len() {
        assert(labels.take(k) =~= labels);
    } else {
        assert(labels.take(k + 1).drop_last() =~= labels.take(k));
        lemma_resolve_list_fails(owners, labels, k + 1);
    }
}

/// Once resolving a prefix of `table` has failed, resolving all of it fails
/// in the same way.
proof fn lemma_resolve_table_fails(owners: Map<Seq<char>, Seq<char>>, table: StubTable, k: int)
    requires
        0 <= k <= table.len(),
        resolve_table(owners, table.take(k)) is Err,
    ensures
        resolve_table(owners, table) == resolve_table(owners, table.take(k)),
    decreases table.len() - k,
{
    if k == table.len() {
        assert(table.take(k) =~= table);
    } else {
        assert(table.take(k + 1).drop_last() =~= table.take(k));
        lemma_resolve_table_fails(owners, table, k + 1);
    }
}

/// Merges a back-referenced proof into an entity: see `merged`.
fn merge_proof(stub: &mut Stub, proof: &StandaloneProof)
    ensures
        final(stub)@ == merged(old(stub)@, proof@),
{
    stub.stub_proof = Some(proof.lines);
    if proof.proof_ok {
        stub.proof_ok = Some(true);
    }
    if proof.mathlib_ok {
        stub.proof_mathlib_ok = Some(true);
    }
    if proof.not_ready {
        stub.proof_not_ready = Some(true);
    }
    if proof.discussion.len() > 0 {
        stub.proof_discussion = Some(clone_strings(&proof.discussion));
    }
    if proof.dependencies.len() > 0 {
        stub.proof_dependencies = Some(clone_strings(&proof.dependencies));
    }
    if proof.lean_names.len() > 0 {
        stub.proof_lean_names = Some(clone_strings(&proof.lean_names));
    }
}

/// Merges every back-referenced proof into the entities that it proves, and
/// returns the back-references that name no owned label.
fn attach_proofs(
    registry: &LabelRegistry,
    stubs: &mut Vec<(String, Stub)>,
    proofs: &Vec<(String, StandaloneProof)>,
) -> (unresolved: Vec<(String, String)>)
    ensures
        table_view(final(stubs)@) == attach_all(
            table_view(old(stubs)@),
            registry@.owners,
            proof_views(proofs@),
        ),
        pair_views(unresolved@) == all_dangling(registry@.owners, proof_views(proofs@)),
{
    let ghost owners = registry@.owners;
    let ghost all = proof_views(proofs@);
    let ghost table0 = table_view(stubs@);
    let mut unresolved: Vec<(String, String)> = Vec::new();
    let mut p: usize = 0;
    while p < proofs.len()
        invariant
            p <= proofs.len(),
            owners == registry@.owners,
            all == proof_views(proofs@),
            table0 == table_view(old(stubs)@),
            table_view(stubs@) == attach_all(table0, owners, all.take(p as int)),
            pair_views(unresolved@) == all_dangling(owners, all.take(p as int)),
        decreases proofs.len() - p,
    {
        let proof = &proofs[p].1;
        let ghost labels = views(proof.proves_labels@);
        let ghost table1 = table_view(stubs@);
        let ghost pairs1 = pair_views(unresolved@);
        proof {
            assert(all.take(p + 1).drop_last() =~= all.take(p as int));
            assert(all.take(p + 1).last() == (proofs@[p as int].0@, proofs@[p as int].1@));
        }
        let mut k: usize = 0;
        while k < proof.proves_labels.len()
            invariant
                k <= proof.proves_labels.len(),
                p < proofs.len(),
                proof == &proofs[p as int].1,
                owners == registry@.owners,
                labels == views(proof.proves_labels@),
                table_view(stubs@) == attach_labels(table1, owners, proof@, labels.take(k as int)),
                pair_views(unresolved@) == pairs1 + dangling(
                    owners,
                    proofs[p as int].0@,
                    labels.take(k as int),
                ),
            decreases proof.proves_labels.len() - k,
        {
            proof {
                assert(labels.take(k + 1).drop_last() =~= labels.take(k as int));
                assert(labels.take(k + 1).last() == proof.proves_labels@[k as int]@);
            }
            let ghost table2 = table_view(stubs@);
            let ghost pairs2 = pair_views(unresolved@);
            match registry.resolve(proof.proves_labels[k].as_str()) {
                Some(name) => {
                    let i = find_stub(stubs, &name);
                    if i < stubs.len() {
                        merge_proof(&mut stubs[i].1, proof);
                        assert(table_view(stubs@) =~= attach(
                            table2,
                            owners,
                            proof@,
                            labels.take(k + 1).last(),
                        ));
                    }
                    assert(pair_views(unresolved@) =~= pairs1 + dangling(
                        owners,
                        proofs[p as int].0@,
                        labels.take(k + 1),
                    ));
                },
                None => {
                    unresolved.push((proofs[p].0.clone(), proof.proves_labels[k].clone()));
                    assert(pair_views(unresolved@) =~= pairs2.push(
                        (proofs[p as int].0@, labels.take(k + 1).last()),
                    ));
                    assert(pair_views(unresolved@) =~= pairs1 + dangling(
                        owners,
                        proofs[p as int].0@,
                        labels.take(k + 1),
                    ));
                },
            }
            k = k + 1;
        }
        proof {
            assert(labels.take(k as int) =~= labels);
        }
        p = p + 1;
    }
    proof {
        assert(all.take(p as int) =~= all);
    }
    unresolved
}

/// The canonical names that own `labels`, or the first label without owner.
fn resolve_names(registry: &LabelRegistry, labels: &Vec<String>) -> (r: Result<Vec<String>, String>)
    ensures
        match resolve_list(registry@.owners, views(labels@)) {
            Ok(names) => r is Ok && views(r->Ok_0@) == names,
            Err(label) => r is Err && r->Err_0@ == label,
        },
{
    let ghost owners = registry@.owners;
    let ghost wanted = views(labels@);
    let mut names: Vec<String> = Vec::new();
    let mut i: usize = 0;
    assert(views(names@) =~= Seq::empty());
    while i < labels.len()
        invariant
            i <= labels.len(),
            owners == registry@.owners,
            wanted == views(labels@),
            resolve_list(owners, wanted.take(i as int)) == Ok::<Seq<Seq<char>>, Seq<char>>(
                views(names@),
            ),
        decreases labels.len() - i,
    {
        proof {
            assert(wanted.take(i + 1).drop_last() =~= wanted.take(i as int));
            assert(wanted.take(i + 1).last() == labels@[i as int]@);
        }
        let ghost before = views(names@);
        match registry.resolve(labels[i].as_str()) {
            Some(name) => {
                names.push(name);
                assert(views(names@) =~= before.push(owners[wanted.take(i + 1).last()]));
            },
            None => {
                proof {
                    assert(resolve_list(owners, wanted.take(i + 1)) == Err::<
                        Seq<Seq<char>>,
                        Seq<char>,
                    >(labels@[i as int]@));
                    lemma_resolve_list_fails(owners, wanted, i + 1);
                }
                return Err(labels[i].clone());
            },
        }
        i = i + 1;
    }
    proof {
        assert(wanted.take(i as int) =~= wanted);
    }
    Ok(names)
}

/// Resolves both dependency lists of an entity: see `resolve_stub`.
fn resolve_one(registry: &LabelRegistry, name: &String, stub: &mut Stub) -> (r: Result<
    (),
    StubError,
>)
    ensures
        match resolve_stub(registry@.owners, name@, old(stub)@) {
            Ok(resolved) => r is Ok && final(stub)@ == resolved,
            Err(e) => r is Err && r->Err_0@ == e,
        },
{
    match resolve_names(registry, &stub.spec_dependencies) {
        Err(label) => {
            return Err(StubError::UnknownLabel { label: label, stub: name.clone(), proof_side: false });
        },
        Ok(deps) => {
            let proof_deps = match &stub.proof_dependencies {
                None => None,
                Some(raw) => match resolve_names(registry, raw) {
                    Err(label) => {
                        return Err(
                            StubError::UnknownLabel {
                                label: label,
                                stub: name.clone(),
                                proof_side: true,
                            },
                        );
                    },
                    Ok(resolved) => Some(resolved),
                },
            };
            stub.spec_dependencies = deps;
            stub.proof_dependencies = proof_deps;
            Ok(())
        },
    }
}

/// Resolves the dependencies of every entity: see `resolve_table`.
fn resolve_all(registry: &LabelRegistry, stubs: &mut Vec<(String, Stub)>) -> (r: Result<
    (),
    StubError,
>)
    ensures
        match resolve_table(registry@.owners, table_view(old(stubs)@)) {
            Ok(table) => r is Ok && table_view(final(stubs)@) == table,
            Err(e) => r is Err && r->Err_0@ == e,
        },
{
    let ghost owners = registry@.owners;
    let ghost raw = table_view(stubs@);
    let mut i: usize = 0;
    assert(table_view(stubs@).take(0) =~= Seq::empty());
    while i < stubs.len()
        invariant
            i <= stubs.len(),
            owners == registry@.owners,
            raw == table_view(old(stubs)@),
            stubs.len() == raw.len(),
            resolve_table(owners, raw.take(i as int)) == Ok::<StubTable, ErrorView>(
                table_view(stubs@).take(i as int),
            ),
            forall|j: int| i <= j < stubs.len() ==> table_view(stubs@)[j] == raw[j],
        decreases stubs.len() - i,
    {
        proof {
            assert(raw.take(i + 1).drop_last() =~= raw.take(i as int));
            assert(raw.take(i + 1).last() == raw[i as int]);
            assert(table_view(stubs@)[i as int] == raw[i as int]);
        }
        let ghost before = table_view(stubs@);
        let name = stubs[i].0.clone();
        match resolve_one(registry, &name, &mut stubs[i].1) {
            Ok(_) => {
                proof {
                    let after = table_view(stubs@);
                    assert(after.take(i + 1) =~= before.take(i as int).push(after[i as int]));
                    assert forall|j: int| i + 1 <= j < stubs.len() implies after[j] == raw[j] by {
                        assert(before[j] == raw[j]);
                    }
                }
            },
            Err(e) => {
                proof {
                    assert(resolve_table(owners, raw.take(i + 1)) == Err::<StubTable, ErrorView>(
                        e@,
                    ));
                    lemma_resolve_table_fails(owners, raw, i + 1);
                }
                return Err(e);
            },
        }
        i = i + 1;
    }
    proof {
        assert(raw.take(i as int) =~= raw);
        assert(table_view(stubs@).take(i as int) =~= table_view(stubs@));
    }
    Ok(())
}

/// The graph of a project.
pub struct StubGraph {
    /// The entities, each with its canonical name, in the order in which
    /// the names first came up. No name occurs twice.
    pub stubs: Vec<(String, Stub)>,
    /// The back-references that name no owned label: the path of the
    /// proof's document and the label. Their proofs were merged nowhere.
    pub unresolved: Vec<(String, String)>,
}

/// Builds the graph of a project from the statements of all its documents,
/// in traversal order, and from its back-referenced proofs, each with the
/// path of its document.
///
/// A label that is declared twice and a dependency on a label that no
/// statement owns are errors; a back-reference to such a label is not.
/// Where no label repeats and every dependency is declared, there is a
/// graph.
pub fn build_stubs(envs: &Vec<ParsedEnv>, proofs: &Vec<(String, StandaloneProof)>) -> (r: Result<
    StubGraph,
    StubError,
>)
    ensures
        match assemble(env_views(envs@), proof_views(proofs@)) {
            Ok(table) => r is Ok && table_view(r->Ok_0.stubs@) == table && pair_views(
                r->Ok_0.unresolved@,
            ) == unresolved_proofs(env_views(envs@), proof_views(proofs@)),
            Err(e) => r is Err && r->Err_0@ == e,
        },
        r is Ok ==> all_labelled(table_view(r->Ok_0.stubs@)),
        r is Ok ==> labels_unique(table_view(r->Ok_0.stubs@)),
        r is Ok ==> well_named(table_view(r->Ok_0.stubs@)),
        r is Ok ==> distinct_names(table_view(r->Ok_0.stubs@)),
        r is Ok ==> closed_under_dependencies(table_view(r->Ok_0.stubs@)),
        labels_distinct(env_views(envs@)) && tokens_free(env_views(envs@)) && references_declared(
            env_views(envs@),
            proof_views(proofs@),
        ) ==> r is Ok,
{
    proof {
        if labels_distinct(env_views(envs@)) && tokens_free(env_views(envs@))
            && references_declared(env_views(envs@), proof_views(proofs@)) {
            lemma_assemble_succeeds(env_views(envs@), proof_views(proofs@));
        }
        if assemble(env_views(envs@), proof_views(proofs@)) is Ok {
            lemma_assemble_closed(env_views(envs@), proof_views(proofs@));
        }
    }
    let ghost all = env_views(envs@);
    let mut registry = LabelRegistry::new();
    let mut stubs: Vec<(String, Stub)> = Vec::new();
    assert(table_view(stubs@) =~= Seq::empty());
    let mut i: usize = 0;
    while i < envs.len()
        invariant
            i <= envs.len(),
            all == env_views(envs@),
            registry.wf(),
            labels_distinct(all) && tokens_free(all) && references_declared(
                all,
                proof_views(proofs@),
            ) ==> assemble(all, proof_views(proofs@)) is Ok,
            register_all(all.take(i as int)) == Ok::<GraphView, ErrorView>(
                GraphView { registry: registry@, table: table_view(stubs@) },
            ),
        decreases envs.len() - i,
    {
        proof {
            assert(all.take(i + 1).drop_last() =~= all.take(i as int));
            assert(all.take(i + 1).last() == envs@[i as int]@);
        }
        match register_env(&mut registry, &mut stubs, &envs[i]) {
            Ok(_) => {},
            Err(e) => {
                proof {
                    assert(register_all(all.take(i + 1)) == Err::<GraphView, ErrorView>(e@));
                    lemma_register_all_fails(all, i + 1);
                }
                return Err(e);
            },
        }
        i = i + 1;
    }
    proof {
        assert(all.take(i as int) =~= all);
    }
    let unresolved = attach_proofs(&registry, &mut stubs, proofs);
    match resolve_all(&registry, &mut stubs) {
        Ok(_) => Ok(StubGraph { stubs: stubs, unresolved: unresolved }),
        Err(e) => Err(e),
    }
}

} // verus!
