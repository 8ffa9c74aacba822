//! When a graph is owed: a project whose labels do not repeat and whose
//! references are all declared has a graph.
use crate::graph::{
    assemble, attach, attach_all, attach_labels, final_labels, find_name, register, register_all,
    reserve_all, resolve_list, resolve_stub, resolve_table, stub_name, stub_of, GraphView,
    LocatedProof, StubTable,
};
use crate::graph_laws::{lemma_find_name, lemma_record_all, lemma_reserve_all};
use crate::labels::label_token;
use crate::model::{EnvView, ProofView};
use crate::registry::{next_free, with_synthesized, RegistryView};
use vstd::prelude::*;

verus! {

/// One of the first `n` statements declares the label `l`.
pub open spec fn declared_before(envs: Seq<EnvView>, n: int, l: Seq<char>) -> bool {
    exists|i: int, a: int|
        0 <= i < n && i < envs.len() && 0 <= a < envs[i].labels.len() && #[trigger] envs[i].labels[a]
            == l
}

/// Some statement declares the label `l`.
pub open spec fn declared(envs: Seq<EnvView>, l: Seq<char>) -> bool {
    declared_before(envs, envs.len() as int, l)
}

/// `l` is the synthesized label of some counter value.
pub open spec fn is_token(l: Seq<char>) -> bool {
    exists|k: nat| l == #[trigger] label_token(k)
}

/// One of the first `n` statements declares no label.
pub open spec fn unlabeled_before(envs: Seq<EnvView>, n: int) -> bool {
    exists|j: int| 0 <= j < n && j < envs.len() && (#[trigger] envs[j]).labels.len() == 0
}

/// No label is declared twice, in one statement or in two.
pub open spec fn labels_distinct(envs: Seq<EnvView>) -> bool {
    forall|i: int, a: int, j: int, b: int|
        #![trigger envs[i].labels[a], envs[j].labels[b]]
        0 <= i < envs.len() && 0 <= a < envs[i].labels.len() && 0 <= j < envs.len() && 0 <= b
            < envs[j].labels.len() && (i != j || a != b) ==> envs[i].labels[a] != envs[j].labels[b]
}

/// No label that is declared behind a statement without labels has the form
/// of a synthesized label. (Such a label may be the one that was synthesized
/// for that statement, and would then be a repeat.)
pub open spec fn tokens_free(envs: Seq<EnvView>) -> bool {
    forall|i: int, a: int|
        0 <= i < envs.len() && 0 <= a < envs[i].labels.len() && unlabeled_before(envs, i)
            ==> !is_token(#[trigger] envs[i].labels[a])
}

/// Every label of `names` is declared by some statement.
pub open spec fn all_declared(envs: Seq<EnvView>, names: Seq<Seq<char>>) -> bool {
    forall|k: int| 0 <= k < names.len() ==> declared(envs, #[trigger] names[k])
}

/// Every label that a statement, its proof or a back-referenced proof
/// depends on is declared by some statement.
pub open spec fn references_declared(envs: Seq<EnvView>, proofs: Seq<LocatedProof>) -> bool {
    &&& forall|i: int|
        0 <= i < envs.len() ==> {
            &&& all_declared(envs, (#[trigger] envs[i]).spec_dependencies)
            &&& envs[i].proof_dependencies is Some ==> all_declared(
                envs,
                envs[i].proof_dependencies->0,
            )
        }
    &&& forall|p: int| 0 <= p < proofs.len() ==> all_declared(envs, (#[trigger] proofs[p]).1.dependencies)
}

/// Every dependency of every entity is declared by some statement.
pub open spec fn table_declared(envs: Seq<EnvView>, table: StubTable) -> bool {
    forall|t: int|
        0 <= t < table.len() ==> {
            &&& all_declared(envs, (#[trigger] table[t]).1.spec_dependencies)
            &&& table[t].1.proof_dependencies is Some ==> all_declared(
                envs,
                table[t].1.proof_dependencies->0,
            )
        }
}

/// What holds of the graph after the first `n` statements were registered:
/// what is reserved was declared or synthesized, what was declared is owned,
/// and what the entities depend on is declared.
pub open spec fn registered(envs: Seq<EnvView>, n: int, g: GraphView) -> bool {
    &&& forall|l: Seq<char>| #[trigger]
        g.registry.reserved.contains(l) ==> declared_before(envs, n, l) || (is_token(l)
            && unlabeled_before(envs, n))
    &&& forall|i: int, a: int|
        0 <= i < n && i < envs.len() && 0 <= a < envs[i].labels.len()
            ==> g.registry.owners.contains_key(#[trigger] envs[i].labels[a])
    &&& table_declared(envs, g.table)
}

/// Labels of which none is reserved and no two are equal are all reserved
/// without error.
pub proof fn lemma_reserve_all_succeeds(r: RegistryView, labels: Seq<Seq<char>>)
    requires
        forall|k: int| 0 <= k < labels.len() ==> !r.reserved.contains(#[trigger] labels[k]),
        forall|a: int, b: int|
            0 <= a < b < labels.len() ==> (#[trigger] labels[a]) != (#[trigger] labels[b]),
    ensures
        reserve_all(r, labels) is Ok,
    decreases labels.len(),
{
    if labels.len() > 0 {
        let front = labels.drop_last();
        assert forall|k: int| 0 <= k < front.len() implies !r.reserved.contains(
            #[trigger] front[k],
        ) by {
            assert(front[k] == labels[k]);
        }
        assert forall|a: int, b: int| 0 <= a < b < front.len() implies (#[trigger] front[a]) != (
        #[trigger] front[b]) by {
            assert(front[a] == labels[a] && front[b] == labels[b]);
        }
        lemma_reserve_all_succeeds(r, front);
        lemma_reserve_all(r, front);
        let r1 = reserve_all(r, front)->Ok_0;
        let last = labels.last();
        assert(last == labels[labels.len() - 1]);
        if r1.reserved.contains(last) {
            assert(!r.reserved.contains(last));
            assert(front.contains(last));
            let i = choose|i: int| 0 <= i < front.len() && front[i] == last;
            assert(labels[i] != labels[labels.len() - 1]);
            assert(front[i] == labels[i]);
        }
    }
}

/// Registering one more statement of a project whose labels do not repeat
/// succeeds, and keeps `registered`.
proof fn lemma_register_succeeds(envs: Seq<EnvView>, n: int, g: GraphView)
    requires
        0 <= n < envs.len(),
        labels_distinct(envs),
        tokens_free(envs),
        references_declared(envs, Seq::empty()),
        registered(envs, n, g),
    ensures
        register(g, envs[n]) is Ok,
        registered(envs, n + 1, register(g, envs[n])->Ok_0),
{
    let env = envs[n];
    assert forall|k: int| 0 <= k < env.labels.len() implies !g.registry.reserved.contains(
        #[trigger] env.labels[k],
    ) by {
        let l = env.labels[k];
        if g.registry.reserved.contains(l) {
            if declared_before(envs, n, l) {
                let (i, a) = choose|i: int, a: int|
                    0 <= i < n && i < envs.len() && 0 <= a < envs[i].labels.len()
                        && #[trigger] envs[i].labels[a] == l;
                assert(envs[i].labels[a] != envs[n].labels[k]);
            } else {
                assert(is_token(l) && unlabeled_before(envs, n));
                assert(!is_token(envs[n].labels[k]));
            }
        }
    }
    assert forall|a: int, b: int| 0 <= a < b < env.labels.len() implies (#[trigger] env.labels[a])
        != (#[trigger] env.labels[b]) by {
        assert(envs[n].labels[a] != envs[n].labels[b]);
    }
    lemma_reserve_all_succeeds(g.registry, env.labels);
    lemma_reserve_all(g.registry, env.labels);
    let r1 = reserve_all(g.registry, env.labels)->Ok_0;
    let r2 = if env.labels.len() == 0 {
        with_synthesized(r1, next_free(r1))
    } else {
        r1
    };
    let labels = final_labels(r1, env);
    let name = stub_name(env.relative_path, labels.last());
    let stub = stub_of(env, labels);
    let after = register(g, env)->Ok_0;
    lemma_record_all(r2, labels, name);
    assert(after.registry.reserved == r2.reserved);
    assert forall|l: Seq<char>| #[trigger] after.registry.reserved.contains(l) implies declared_before(
        envs,
        n + 1,
        l,
    ) || (is_token(l) && unlabeled_before(envs, n + 1)) by {
        if g.registry.reserved.contains(l) {
            if declared_before(envs, n, l) {
                let (i, a) = choose|i: int, a: int|
                    0 <= i < n && i < envs.len() && 0 <= a < envs[i].labels.len()
                        && #[trigger] envs[i].labels[a] == l;
                assert(0 <= i < n + 1 && envs[i].labels[a] == l);
            } else {
                let j = choose|j: int|
                    0 <= j < n && j < envs.len() && (#[trigger] envs[j]).labels.len() == 0;
                assert(0 <= j < n + 1 && envs[j].labels.len() == 0);
            }
        } else if r1.reserved.contains(l) {
            assert(env.labels.contains(l));
            let a = choose|a: int| 0 <= a < env.labels.len() && env.labels[a] == l;
            assert(0 <= n < n + 1 && envs[n].labels[a] == l);
        } else {
            assert(env.labels.len() == 0);
            assert(l == label_token(next_free(r1)));
            assert(is_token(l));
            assert(0 <= n < n + 1 && envs[n].labels.len() == 0);
        }
    }
    assert forall|i: int, a: int|
        0 <= i < n + 1 && i < envs.len() && 0 <= a < envs[i].labels.len() implies after.registry.owners.contains_key(
        #[trigger] envs[i].labels[a],
    ) by {
        if i < n {
            assert(g.registry.owners.contains_key(envs[i].labels[a]));
            assert(r2.owners.contains_key(envs[i].labels[a]));
        } else {
            assert(labels == env.labels);
            assert(after.registry.owners.contains_key(labels[a]));
        }
    }
    lemma_find_name(g.table, name, 0);
    let at = find_name(g.table, name, 0);
    assert forall|t: int| 0 <= t < after.table.len() implies {
        &&& all_declared(envs, (#[trigger] after.table[t]).1.spec_dependencies)
        &&& after.table[t].1.proof_dependencies is Some ==> all_declared(
            envs,
            after.table[t].1.proof_dependencies->0,
        )
    } by {
        if t != at {
            assert(after.table[t] == g.table[t]);
        } else {
            assert(after.table[t] == (name, stub));
            assert(stub.spec_dependencies == envs[n].spec_dependencies);
            assert(stub.proof_dependencies == envs[n].proof_dependencies);
        }
    }
}

/// All statements of a project whose labels do not repeat are registered.
proof fn lemma_register_all_succeeds(envs: Seq<EnvView>, n: int)
    requires
        0 <= n <= envs.len(),
        labels_distinct(envs),
        tokens_free(envs),
        references_declared(envs, Seq::empty()),
    ensures
        register_all(envs.take(n)) is Ok,
        registered(envs, n, register_all(envs.take(n))->Ok_0),
    decreases n,
{
    if n > 0 {
        lemma_register_all_succeeds(envs, n - 1);
        assert(envs.take(n).drop_last() =~= envs.take(n - 1));
        assert(envs.take(n).last() == envs[n - 1]);
        lemma_register_succeeds(envs, n - 1, register_all(envs.take(n - 1))->Ok_0);
    } else {
        assert(envs.take(0).len() == 0);
    }
}

/// Merging a proof whose dependencies are declared keeps `table_declared`.
proof fn lemma_attach_labels_declared(
    envs: Seq<EnvView>,
    table: StubTable,
    owners: Map<Seq<char>, Seq<char>>,
    proof: ProofView,
    labels: Seq<Seq<char>>,
)
    requires
        table_declared(envs, table),
        all_declared(envs, proof.dependencies),
    ensures
        table_declared(envs, attach_labels(table, owners, proof, labels)),
    decreases labels.len(),
{
    if labels.len() > 0 {
        lemma_attach_labels_declared(envs, table, owners, proof, labels.drop_last());
        let before = attach_labels(table, owners, proof, labels.drop_last());
        let after = attach(before, owners, proof, labels.last());
        if owners.contains_key(labels.last()) {
            lemma_find_name(before, owners[labels.last()], 0);
        }
        assert forall|t: int| 0 <= t < after.len() implies {
            &&& all_declared(envs, (#[trigger] after[t]).1.spec_dependencies)
            &&& after[t].1.proof_dependencies is Some ==> all_declared(
                envs,
                after[t].1.proof_dependencies->0,
            )
        } by {
            assert(all_declared(envs, before[t].1.spec_dependencies));
            assert(after[t].1.spec_dependencies == before[t].1.spec_dependencies);
            assert(after[t].1.proof_dependencies == before[t].1.proof_dependencies
                || after[t].1.proof_dependencies == Some(proof.dependencies));
        }
    }
}

/// Merging proofs whose dependencies are declared keeps `table_declared`.
proof fn lemma_attach_all_declared(
    envs: Seq<EnvView>,
    table: StubTable,
    owners: Map<Seq<char>, Seq<char>>,
    proofs: Seq<LocatedProof>,
)
    requires
        table_declared(envs, table),
        forall|p: int| 0 <= p < proofs.len() ==> all_declared(envs, (#[trigger] proofs[p]).1.dependencies),
    ensures
        table_declared(envs, attach_all(table, owners, proofs)),
    decreases proofs.len(),
{
    if proofs.len() > 0 {
        let front = proofs.drop_last();
        assert forall|p: int| 0 <= p < front.len() implies all_declared(
            envs,
            (#[trigger] front[p]).1.dependencies,
        ) by {
            assert(front[p] == proofs[p]);
        }
        lemma_attach_all_declared(envs, table, owners, front);
        assert(proofs.last() == proofs[proofs.len() - 1]);
        lemma_attach_labels_declared(
            envs,
            attach_all(table, owners, front),
            owners,
            proofs.last().1,
            proofs.last().1.proves_labels,
        );
    }
}

/// Labels that all have an owner are all resolved.
pub proof fn lemma_resolve_list_succeeds(owners: Map<Seq<char>, Seq<char>>, labels: Seq<Seq<char>>)
    requires
        forall|k: int| 0 <= k < labels.len() ==> owners.contains_key(#[trigger] labels[k]),
    ensures
        resolve_list(owners, labels) is Ok,
    decreases labels.len(),
{
    if labels.len() > 0 {
        let front = labels.drop_last();
        assert forall|k: int| 0 <= k < front.len() implies owners.contains_key(#[trigger] front[k]) by {
            assert(front[k] == labels[k]);
        }
        lemma_resolve_list_succeeds(owners, front);
        assert(labels.last() == labels[labels.len() - 1]);
    }
}

/// Entities whose dependencies all have an owner are all resolved.
pub proof fn lemma_resolve_table_succeeds(owners: Map<Seq<char>, Seq<char>>, table: StubTable)
    requires
        forall|t: int, k: int|
            0 <= t < table.len() && 0 <= k < table[t].1.spec_dependencies.len()
                ==> owners.contains_key(#[trigger] table[t].1.spec_dependencies[k]),
        forall|t: int, k: int|
            0 <= t < table.len() && table[t].1.proof_dependencies is Some && 0 <= k
                < table[t].1.proof_dependencies->0.len() ==> owners.contains_key(
                #[trigger] table[t].1.proof_dependencies->0[k],
            ),
    ensures
        resolve_table(owners, table) is Ok,
    decreases table.len(),
{
    if table.len() > 0 {
        let front = table.drop_last();
        assert forall|t: int| 0 <= t < front.len() implies #[trigger] front[t] == table[t] by {}
        assert forall|t: int, k: int|
            0 <= t < front.len() && 0 <= k < front[t].1.spec_dependencies.len() implies owners.contains_key(
            #[trigger] front[t].1.spec_dependencies[k],
        ) by {
            assert(front[t] == table[t]);
            assert(owners.contains_key(table[t].1.spec_dependencies[k]));
        }
        assert forall|t: int, k: int|
            0 <= t < front.len() && front[t].1.proof_dependencies is Some && 0 <= k
                < front[t].1.proof_dependencies->0.len() implies owners.contains_key(
            #[trigger] front[t].1.proof_dependencies->0[k],
        ) by {
            assert(front[t] == table[t]);
            assert(owners.contains_key(table[t].1.proof_dependencies->0[k]));
        }
        lemma_resolve_table_succeeds(owners, front);
        let last = table.last();
        let at = table.len() - 1;
        assert(last == table[at]);
        assert forall|k: int| 0 <= k < last.1.spec_dependencies.len() implies owners.contains_key(
            #[trigger] last.1.spec_dependencies[k],
        ) by {
            assert(owners.contains_key(table[at].1.spec_dependencies[k]));
        }
        lemma_resolve_list_succeeds(owners, last.1.spec_dependencies);
        if last.1.proof_dependencies is Some {
            let raw = last.1.proof_dependencies->0;
            assert forall|k: int| 0 <= k < raw.len() implies owners.contains_key(#[trigger] raw[k]) by {
                assert(owners.contains_key(table[at].1.proof_dependencies->0[k]));
            }
            lemma_resolve_list_succeeds(owners, raw);
        }
        assert(resolve_stub(owners, last.0, last.1) is Ok);
    }
}

/// A project has a graph whenever no label is declared twice, no label
/// declared behind a statement without labels has the form of a synthesized
/// label, and every label that a statement or a proof depends on is declared
/// by some statement. A back-reference to an unknown label does not matter.
pub proof fn lemma_assemble_succeeds(envs: Seq<EnvView>, proofs: Seq<LocatedProof>)
    requires
        labels_distinct(envs),
        tokens_free(envs),
        references_declared(envs, proofs),
    ensures
        assemble(envs, proofs) is Ok,
{
    let n = envs.len() as int;
    assert(references_declared(envs, Seq::empty()));
    lemma_register_all_succeeds(envs, n);
    assert(envs.take(n) =~= envs);
    let g = register_all(envs)->Ok_0;
    let owners = g.registry.owners;
    lemma_attach_all_declared(envs, g.table, owners, proofs);
    let table = attach_all(g.table, owners, proofs);
    assert forall|l: Seq<char>| declared(envs, l) implies owners.contains_key(l) by {
        let (i, a) = choose|i: int, a: int|
            0 <= i < n && i < envs.len() && 0 <= a < envs[i].labels.len() && #[trigger] envs[i].labels[a]
                == l;
        assert(owners.contains_key(envs[i].labels[a]));
    }
    assert forall|t: int, k: int|
        0 <= t < table.len() && 0 <= k < table[t].1.spec_dependencies.len() implies owners.contains_key(
        #[trigger] table[t].1.spec_dependencies[k],
    ) by {
        assert(all_declared(envs, table[t].1.spec_dependencies));
        assert(declared(envs, table[t].1.spec_dependencies[k]));
    }
    assert forall|t: int, k: int|
        0 <= t < table.len() && table[t].1.proof_dependencies is Some && 0 <= k
            < table[t].1.proof_dependencies->0.len() implies owners.contains_key(
        #[trigger] table[t].1.proof_dependencies->0[k],
    ) by {
        assert(all_declared(envs, table[t].1.proof_dependencies->0));
        assert(declared(envs, table[t].1.proof_dependencies->0[k]));
    }
    lemma_resolve_table_succeeds(owners, table);
}

} // verus!
