//! What holds of every graph that `assemble` describes.
use crate::graph::{
    assemble, attach_all, attach_labels, final_labels, find_name, has_name, record_all, register,
    register_all, reserve_all, resolve_list, resolve_stub, resolve_table, stub_name, stub_of,
    upsert, GraphView, LocatedProof, StubTable,
};
use crate::model::{EnvView, ErrorView, ProofView, StubView};
use crate::registry::{
    lemma_next_free, next_free, with_label, with_owner, with_synthesized, RegistryView,
};
use vstd::prelude::*;

verus! {

/// Every entity has at least one label.
pub open spec fn all_labelled(table: StubTable) -> bool {
    forall|i: int| 0 <= i < table.len() ==> (#[trigger] table[i]).1.labels.len() > 0
}

/// No two entities have the same name.
pub open spec fn distinct_names(table: StubTable) -> bool {
    forall|i: int, j: int|
        0 <= i < table.len() && 0 <= j < table.len() && i != j ==> (#[trigger] table[i]).0 != (
        #[trigger] table[j]).0
}

/// Every name in `names` is the name of an entity of `table`.
pub open spec fn all_named(table: StubTable, names: Seq<Seq<char>>) -> bool {
    forall|k: int| 0 <= k < names.len() ==> has_name(table, #[trigger] names[k])
}

/// Every dependency of every entity, of its statement and of its proof, is
/// the name of an entity of the table.
pub open spec fn closed_under_dependencies(table: StubTable) -> bool {
    forall|i: int|
        0 <= i < table.len() ==> {
            &&& all_named(table, (#[trigger] table[i]).1.spec_dependencies)
            &&& table[i].1.proof_dependencies is Some ==> all_named(
                table,
                table[i].1.proof_dependencies->0,
            )
        }
}

/// Every owner that the registry records is the name of an entity.
pub open spec fn owners_present(owners: Map<Seq<char>, Seq<char>>, table: StubTable) -> bool {
    forall|l: Seq<char>| owners.contains_key(l) ==> has_name(table, #[trigger] owners[l])
}

/// Two tables hold entities of the same names, paths and labels, in the
/// same order.
pub open spec fn same_shape(a: StubTable, b: StubTable) -> bool {
    &&& a.len() == b.len()
    &&& forall|i: int|
        0 <= i < a.len() ==> {
            &&& (#[trigger] a[i]).0 == b[i].0
            &&& a[i].1.labels == b[i].1.labels
            &&& a[i].1.label == b[i].1.label
            &&& a[i].1.stub_path == b[i].1.stub_path
        }
}

/// The name of every entity is the path of its document, a slash, and its
/// primary label, which is the last of its labels.
pub open spec fn well_named(table: StubTable) -> bool {
    forall|i: int|
        0 <= i < table.len() ==> {
            &&& (#[trigger] table[i]).1.labels.len() > 0
            &&& table[i].1.label == table[i].1.labels.last()
            &&& table[i].0 == stub_name(table[i].1.stub_path, table[i].1.label)
        }
}

/// No label stands twice in the table: not twice in one entity, and not in
/// two entities.
pub open spec fn labels_unique(table: StubTable) -> bool {
    forall|i: int, a: int, j: int, b: int|
        #![trigger table[i].1.labels[a], table[j].1.labels[b]]
        0 <= i < table.len() && 0 <= a < table[i].1.labels.len() && 0 <= j < table.len() && 0 <= b
            < table[j].1.labels.len() && (i != j || a != b) ==> table[i].1.labels[a]
            != table[j].1.labels[b]
}

/// Every label of every entity is reserved.
pub open spec fn labels_reserved(g: GraphView) -> bool {
    forall|i: int, a: int|
        0 <= i < g.table.len() && 0 <= a < g.table[i].1.labels.len() ==> g.registry.reserved.contains(
            #[trigger] g.table[i].1.labels[a],
        )
}

/// `find_name` finds the first entity of that name at or after `from`, and
/// finds one whenever there is one.
pub proof fn lemma_find_name(table: StubTable, name: Seq<char>, from: int)
    requires
        0 <= from <= table.len(),
    ensures
        from <= find_name(table, name, from) <= table.len(),
        find_name(table, name, from) < table.len() ==> table[find_name(table, name, from)].0
            == name,
        forall|j: int| from <= j < find_name(table, name, from) ==> (#[trigger] table[j]).0 != name,
    decreases table.len() - from,
{
    if from < table.len() && table[from].0 != name {
        lemma_find_name(table, name, from + 1);
    }
}

/// Entering an entity keeps the names that were there and adds its own; no
/// name comes to stand twice; the other entities stay as they are.
pub proof fn lemma_upsert(table: StubTable, name: Seq<char>, stub: StubView)
    ensures
        has_name(upsert(table, name, stub), name),
        forall|n: Seq<char>| has_name(table, n) ==> has_name(upsert(table, name, stub), n),
        distinct_names(table) ==> distinct_names(upsert(table, name, stub)),
        all_labelled(table) && stub.labels.len() > 0 ==> all_labelled(upsert(table, name, stub)),
        !has_name(table, name) ==> upsert(table, name, stub) == table.push((name, stub)),
{
    lemma_find_name(table, name, 0);
    let after = upsert(table, name, stub);
    let i = find_name(table, name, 0);
    if i < table.len() {
        assert(after[i].0 == name);
    } else {
        assert(after[table.len() as int].0 == name);
    }
    assert forall|n: Seq<char>| has_name(table, n) implies has_name(after, n) by {
        let j = choose|j: int| 0 <= j < table.len() && (#[trigger] table[j]).0 == n;
        assert(after[j].0 == n);
    }
    if distinct_names(table) {
        assert forall|a: int, b: int|
            0 <= a < after.len() && 0 <= b < after.len() && a != b implies (#[trigger] after[a]).0
            != (#[trigger] after[b]).0 by {
            if i < table.len() {
                assert(after[a].0 == table[a].0);
                assert(after[b].0 == table[b].0);
            } else {
                if a < table.len() {
                    assert(after[a].0 == table[a].0);
                }
                if b < table.len() {
                    assert(after[b].0 == table[b].0);
                }
            }
        }
    }
    if all_labelled(table) && stub.labels.len() > 0 {
        assert forall|a: int| 0 <= a < after.len() implies (#[trigger] after[a]).1.labels.len()
            > 0 by {
            if a != i {
                assert(after[a] == table[a]);
            }
        }
    }
    if !has_name(table, name) {
        if i < table.len() {
            assert(table[i].0 == name);
        }
    }
}

/// Reserving labels changes neither the owners nor the counter. What was
/// reserved stays reserved, the labels themselves are reserved afterwards,
/// and nothing else is. None of the labels was reserved before, and no two
/// of them are equal.
pub proof fn lemma_reserve_all(r: RegistryView, labels: Seq<Seq<char>>)
    requires
        reserve_all(r, labels) is Ok,
    ensures
        reserve_all(r, labels)->Ok_0.owners == r.owners,
        reserve_all(r, labels)->Ok_0.counter == r.counter,
        r.reserved.finite() ==> reserve_all(r, labels)->Ok_0.reserved.finite(),
        forall|l: Seq<char>| #[trigger]
            r.reserved.contains(l) ==> reserve_all(r, labels)->Ok_0.reserved.contains(l),
        forall|k: int|
            0 <= k < labels.len() ==> reserve_all(r, labels)->Ok_0.reserved.contains(
                #[trigger] labels[k],
            ),
        forall|l: Seq<char>| #[trigger]
            reserve_all(r, labels)->Ok_0.reserved.contains(l) ==> r.reserved.contains(l)
                || labels.contains(l),
        forall|k: int| 0 <= k < labels.len() ==> !r.reserved.contains(#[trigger] labels[k]),
        forall|a: int, b: int|
            0 <= a < b < labels.len() ==> (#[trigger] labels[a]) != (#[trigger] labels[b]),
    decreases labels.len(),
{
    if labels.len() > 0 {
        let front = labels.drop_last();
        lemma_reserve_all(r, front);
        let r1 = reserve_all(r, front)->Ok_0;
        let after = reserve_all(r, labels)->Ok_0;
        let last = labels.last();
        assert(after == with_label(r1, last));
        assert(!r1.reserved.contains(last));
        assert(labels[labels.len() - 1] == last);
        assert forall|k: int| 0 <= k < labels.len() implies after.reserved.contains(
            #[trigger] labels[k],
        ) && !r.reserved.contains(labels[k]) by {
            if k < front.len() {
                assert(front[k] == labels[k]);
            }
        }
        assert forall|l: Seq<char>| #[trigger] after.reserved.contains(l) implies r.reserved.contains(
            l,
        ) || labels.contains(l) by {
            if l != last && r1.reserved.contains(l) && !r.reserved.contains(l) {
                let i = choose|i: int| 0 <= i < front.len() && front[i] == l;
                assert(labels[i] == l);
            }
        }
        assert forall|a: int, b: int| 0 <= a < b < labels.len() implies (#[trigger] labels[a]) != (
        #[trigger] labels[b]) by {
            assert(front[a] == labels[a]);
            if b < front.len() {
                assert(front[b] == labels[b]);
            } else {
                assert(r1.reserved.contains(front[a]));
            }
        }
    }
}

/// Recording owners changes nothing but the owners: each of `labels` is then
/// owned by `entity`, and every other label by whom it was.
pub proof fn lemma_record_all(r: RegistryView, labels: Seq<Seq<char>>, entity: Seq<char>)
    ensures
        record_all(r, labels, entity).reserved == r.reserved,
        record_all(r, labels, entity).counter == r.counter,
        forall|k: int|
            0 <= k < labels.len() ==> record_all(r, labels, entity).owners.contains_key(
                #[trigger] labels[k],
            ) && record_all(r, labels, entity).owners[labels[k]] == entity,
        forall|l: Seq<char>| #[trigger]
            record_all(r, labels, entity).owners.contains_key(l) ==> labels.contains(l) || (
            r.owners.contains_key(l) && record_all(r, labels, entity).owners[l] == r.owners[l]),
        forall|l: Seq<char>| #[trigger]
            r.owners.contains_key(l) ==> record_all(r, labels, entity).owners.contains_key(l),
    decreases labels.len(),
{
    if labels.len() > 0 {
        let front = labels.drop_last();
        lemma_record_all(r, front, entity);
        let before = record_all(r, front, entity);
        let after = record_all(r, labels, entity);
        let last = labels.last();
        assert(after == with_owner(before, last, entity));
        assert(labels[labels.len() - 1] == last);
        assert forall|k: int| 0 <= k < labels.len() implies after.owners.contains_key(
            #[trigger] labels[k],
        ) && after.owners[labels[k]] == entity by {
            if k < front.len() {
                assert(front[k] == labels[k]);
            }
        }
        assert forall|l: Seq<char>| #[trigger] after.owners.contains_key(l) implies labels.contains(
            l,
        ) || (r.owners.contains_key(l) && after.owners[l] == r.owners[l]) by {
            if l != last && before.owners.contains_key(l) && front.contains(l) {
                let i = choose|i: int| 0 <= i < front.len() && front[i] == l;
                assert(labels[i] == l);
            }
        }
    }
}

/// What holds of the graph while statements are registered.
pub open spec fn graph_inv(g: GraphView) -> bool {
    &&& all_labelled(g.table)
    &&& distinct_names(g.table)
    &&& owners_present(g.registry.owners, g.table)
    &&& well_named(g.table)
    &&& labels_unique(g.table)
    &&& labels_reserved(g)
    &&& g.registry.reserved.finite()
}

/// The labels of a statement, once the registry has seen them, were not
/// reserved before, are reserved afterwards, and no two of them are equal.
pub proof fn lemma_final_labels(g: GraphView, env: EnvView)
    requires
        g.registry.reserved.finite(),
        register(g, env) is Ok,
    ensures
        final_labels(reserve_all(g.registry, env.labels)->Ok_0, env).len() > 0,
        register(g, env)->Ok_0.registry.reserved.finite(),
        forall|l: Seq<char>| #[trigger]
            g.registry.reserved.contains(l) ==> register(g, env)->Ok_0.registry.reserved.contains(l),
        forall|k: int|
            0 <= k < final_labels(reserve_all(g.registry, env.labels)->Ok_0, env).len() ==> {
                let l = #[trigger] final_labels(reserve_all(g.registry, env.labels)->Ok_0, env)[k];
                !g.registry.reserved.contains(l) && register(g, env)->Ok_0.registry.reserved.contains(
                    l,
                )
            },
        forall|a: int, b: int|
            0 <= a < b < final_labels(reserve_all(g.registry, env.labels)->Ok_0, env).len()
                ==> (#[trigger] final_labels(reserve_all(g.registry, env.labels)->Ok_0, env)[a])
                != (#[trigger] final_labels(reserve_all(g.registry, env.labels)->Ok_0, env)[b]),
{
    let r1 = reserve_all(g.registry, env.labels)->Ok_0;
    lemma_reserve_all(g.registry, env.labels);
    let labels = final_labels(r1, env);
    let name = stub_name(env.relative_path, labels.last());
    if env.labels.len() == 0 {
        lemma_next_free(r1);
        let r2 = with_synthesized(r1, next_free(r1));
        lemma_record_all(r2, labels, name);
    } else {
        lemma_record_all(r1, labels, name);
    }
}

/// Registering a statement keeps `graph_inv`.
pub proof fn lemma_register_inv(g: GraphView, env: EnvView)
    requires
        graph_inv(g),
        register(g, env) is Ok,
    ensures
        graph_inv(register(g, env)->Ok_0),
{
    let r1 = reserve_all(g.registry, env.labels)->Ok_0;
    lemma_reserve_all(g.registry, env.labels);
    lemma_final_labels(g, env);
    let r2 = if env.labels.len() == 0 {
        with_synthesized(r1, next_free(r1))
    } else {
        r1
    };
    let labels = final_labels(r1, env);
    let name = stub_name(env.relative_path, labels.last());
    let stub = stub_of(env, labels);
    let after = register(g, env)->Ok_0;
    lemma_upsert(g.table, name, stub);
    lemma_record_all(r2, labels, name);
    lemma_find_name(g.table, name, 0);
    let at = find_name(g.table, name, 0);
    assert forall|l: Seq<char>| after.registry.owners.contains_key(l) implies has_name(
        after.table,
        #[trigger] after.registry.owners[l],
    ) by {
        if labels.contains(l) {
            let k = choose|k: int| 0 <= k < labels.len() && labels[k] == l;
            assert(after.registry.owners[labels[k]] == name);
        } else {
            assert(g.registry.owners.contains_key(l));
            assert(has_name(g.table, g.registry.owners[l]));
        }
    }
    // every entity is an old one or the new one
    assert forall|i: int| 0 <= i < after.table.len() && i != at implies (#[trigger] after.table[i])
        == g.table[i] by {}
    assert(after.table[at] == (name, stub));
    assert forall|i: int| 0 <= i < after.table.len() implies {
        &&& (#[trigger] after.table[i]).1.labels.len() > 0
        &&& after.table[i].1.label == after.table[i].1.labels.last()
        &&& after.table[i].0 == stub_name(after.table[i].1.stub_path, after.table[i].1.label)
    } by {
        if i != at {
            assert(after.table[i] == g.table[i]);
        }
    }
    assert forall|i: int, a: int|
        0 <= i < after.table.len() && 0 <= a < after.table[i].1.labels.len() implies after.registry.reserved.contains(
        #[trigger] after.table[i].1.labels[a],
    ) by {
        if i != at {
            assert(after.table[i] == g.table[i]);
            assert(g.registry.reserved.contains(g.table[i].1.labels[a]));
        } else {
            assert(after.table[i].1.labels[a] == labels[a]);
        }
    }
    assert forall|i: int, a: int, j: int, b: int|
        #![trigger after.table[i].1.labels[a], after.table[j].1.labels[b]]
        0 <= i < after.table.len() && 0 <= a < after.table[i].1.labels.len() && 0 <= j
            < after.table.len() && 0 <= b < after.table[j].1.labels.len() && (i != j || a
            != b) implies after.table[i].1.labels[a] != after.table[j].1.labels[b] by {
        if i != at && j != at {
            assert(after.table[i] == g.table[i]);
            assert(after.table[j] == g.table[j]);
            assert(g.table[i].1.labels[a] != g.table[j].1.labels[b]);
        } else if i == at && j == at {
            assert(after.table[i].1.labels[a] == labels[a]);
            assert(after.table[j].1.labels[b] == labels[b]);
            if a < b {
                assert(labels[a] != labels[b]);
            } else {
                assert(labels[b] != labels[a]);
            }
        } else if i == at {
            assert(after.table[j] == g.table[j]);
            assert(g.registry.reserved.contains(g.table[j].1.labels[b]));
            assert(after.table[i].1.labels[a] == labels[a]);
            assert(!g.registry.reserved.contains(labels[a]));
        } else {
            assert(after.table[i] == g.table[i]);
            assert(g.registry.reserved.contains(g.table[i].1.labels[a]));
            assert(after.table[j].1.labels[b] == labels[b]);
            assert(!g.registry.reserved.contains(labels[b]));
        }
    }
}

/// Every graph that registering yields satisfies `graph_inv`.
pub proof fn lemma_register_all_inv(envs: Seq<EnvView>)
    requires
        register_all(envs) is Ok,
    ensures
        graph_inv(register_all(envs)->Ok_0),
    decreases envs.len(),
{
    if envs.len() > 0 {
        lemma_register_all_inv(envs.drop_last());
        lemma_register_inv(register_all(envs.drop_last())->Ok_0, envs.last());
    }
}

/// Merging a proof changes neither the names nor the labels of the
/// entities.
pub proof fn lemma_attach_all_shape(
    table: StubTable,
    owners: Map<Seq<char>, Seq<char>>,
    proofs: Seq<LocatedProof>,
)
    ensures
        same_shape(attach_all(table, owners, proofs), table),
    decreases proofs.len(),
{
    if proofs.len() > 0 {
        lemma_attach_all_shape(table, owners, proofs.drop_last());
        lemma_attach_labels_shape(
            attach_all(table, owners, proofs.drop_last()),
            owners,
            proofs.last().1,
            proofs.last().1.proves_labels,
        );
    }
}

/// Merging one proof under several labels changes neither the names nor the
/// labels of the entities.
pub proof fn lemma_attach_labels_shape(
    table: StubTable,
    owners: Map<Seq<char>, Seq<char>>,
    proof: ProofView,
    labels: Seq<Seq<char>>,
)
    ensures
        same_shape(attach_labels(table, owners, proof, labels), table),
    decreases labels.len(),
{
    if labels.len() > 0 {
        lemma_attach_labels_shape(table, owners, proof, labels.drop_last());
        let before = attach_labels(table, owners, proof, labels.drop_last());
        lemma_find_name(before, owners[labels.last()], 0);
    }
}

/// Tables of the same shape hold the same names.
pub proof fn lemma_same_shape_names(a: StubTable, b: StubTable, name: Seq<char>)
    requires
        same_shape(a, b),
        has_name(b, name),
    ensures
        has_name(a, name),
{
    let j = choose|j: int| 0 <= j < b.len() && (#[trigger] b[j]).0 == name;
    assert(a[j].0 == name);
}

/// Every name that resolving a list yields is the owner of a label.
pub proof fn lemma_resolve_list(
    owners: Map<Seq<char>, Seq<char>>,
    labels: Seq<Seq<char>>,
    table: StubTable,
)
    requires
        owners_present(owners, table),
        resolve_list(owners, labels) is Ok,
    ensures
        resolve_list(owners, labels)->Ok_0.len() == labels.len(),
        forall|k: int|
            0 <= k < labels.len() ==> owners.contains_key(#[trigger] labels[k]) && resolve_list(
                owners,
                labels,
            )->Ok_0[k] == owners[labels[k]],
        all_named(table, resolve_list(owners, labels)->Ok_0),
    decreases labels.len(),
{
    if labels.len() > 0 {
        lemma_resolve_list(owners, labels.drop_last(), table);
        let front = resolve_list(owners, labels.drop_last())->Ok_0;
        let names = resolve_list(owners, labels)->Ok_0;
        assert(names == front.push(owners[labels.last()]));
        assert forall|k: int| 0 <= k < labels.len() implies owners.contains_key(
            #[trigger] labels[k],
        ) && names[k] == owners[labels[k]] by {
            if k < labels.len() - 1 {
                assert(labels.drop_last()[k] == labels[k]);
            }
        }
        assert forall|k: int| 0 <= k < names.len() implies has_name(table, #[trigger] names[k]) by {
            if k < front.len() {
                assert(names[k] == front[k]);
            }
        }
    }
}

/// Resolving keeps the names and labels of the entities, and leaves among
/// their dependencies only names of entities of `named`.
pub proof fn lemma_resolve_table(
    owners: Map<Seq<char>, Seq<char>>,
    table: StubTable,
    named: StubTable,
)
    requires
        owners_present(owners, named),
        resolve_table(owners, table) is Ok,
    ensures
        same_shape(resolve_table(owners, table)->Ok_0, table),
        forall|i: int|
            0 <= i < table.len() ==> {
                &&& all_named(named, (#[trigger] resolve_table(owners, table)->Ok_0[i]).1.spec_dependencies)
                &&& resolve_table(owners, table)->Ok_0[i].1.proof_dependencies is Some
                    ==> all_named(
                    named,
                    resolve_table(owners, table)->Ok_0[i].1.proof_dependencies->0,
                )
            },
    decreases table.len(),
{
    if table.len() > 0 {
        lemma_resolve_table(owners, table.drop_last(), named);
        let done = resolve_table(owners, table.drop_last())->Ok_0;
        let last = table.last();
        let stub = resolve_stub(owners, last.0, last.1)->Ok_0;
        let out = resolve_table(owners, table)->Ok_0;
        assert(out == done.push((last.0, stub)));
        lemma_resolve_list(owners, last.1.spec_dependencies, named);
        if last.1.proof_dependencies is Some {
            lemma_resolve_list(owners, last.1.proof_dependencies->0, named);
        }
        assert forall|i: int| 0 <= i < out.len() implies (#[trigger] out[i]).0 == table[i].0
            && out[i].1.labels == table[i].1.labels by {
            if i < done.len() {
                assert(out[i] == done[i]);
                assert(table.drop_last()[i] == table[i]);
            }
        }
        assert forall|i: int| 0 <= i < table.len() implies {
            &&& all_named(named, (#[trigger] out[i]).1.spec_dependencies)
            &&& out[i].1.proof_dependencies is Some ==> all_named(
                named,
                out[i].1.proof_dependencies->0,
            )
        } by {
            if i < done.len() {
                assert(out[i] == done[i]);
            }
        }
    }
}

/// In the graph of a project every entity has at least one label, no label
/// stands twice, the name of every entity is `path/label` with its last
/// label, no two entities have the same name, and every dependency, of a
/// statement or of a proof, is the name of an entity of the graph.
pub proof fn lemma_assemble_closed(envs: Seq<EnvView>, proofs: Seq<LocatedProof>)
    requires
        assemble(envs, proofs) is Ok,
    ensures
        all_labelled(assemble(envs, proofs)->Ok_0),
        labels_unique(assemble(envs, proofs)->Ok_0),
        well_named(assemble(envs, proofs)->Ok_0),
        distinct_names(assemble(envs, proofs)->Ok_0),
        closed_under_dependencies(assemble(envs, proofs)->Ok_0),
{
    let g = register_all(envs)->Ok_0;
    let owners = g.registry.owners;
    lemma_register_all_inv(envs);
    let attached = attach_all(g.table, owners, proofs);
    lemma_attach_all_shape(g.table, owners, proofs);
    let table = assemble(envs, proofs)->Ok_0;
    lemma_resolve_table(owners, attached, g.table);
    assert forall|i: int| 0 <= i < table.len() implies {
        &&& (#[trigger] table[i]).0 == g.table[i].0
        &&& table[i].1.labels == g.table[i].1.labels
        &&& table[i].1.label == g.table[i].1.label
        &&& table[i].1.stub_path == g.table[i].1.stub_path
    } by {
        assert(table[i].0 == attached[i].0);
        assert(attached[i].0 == g.table[i].0);
    }
    assert(same_shape(table, g.table));
    assert forall|i: int, a: int, j: int, b: int|
        #![trigger table[i].1.labels[a], table[j].1.labels[b]]
        0 <= i < table.len() && 0 <= a < table[i].1.labels.len() && 0 <= j < table.len() && 0 <= b
            < table[j].1.labels.len() && (i != j || a != b) implies table[i].1.labels[a]
            != table[j].1.labels[b] by {
        assert(table[i].1.labels == g.table[i].1.labels);
        assert(table[j].1.labels == g.table[j].1.labels);
        assert(g.table[i].1.labels[a] != g.table[j].1.labels[b]);
    }
    assert forall|i: int| 0 <= i < table.len() implies {
        &&& (#[trigger] table[i]).1.labels.len() > 0
        &&& table[i].1.label == table[i].1.labels.last()
        &&& table[i].0 == stub_name(table[i].1.stub_path, table[i].1.label)
    } by {
        assert(table[i].0 == g.table[i].0);
    }
    assert forall|i: int| 0 <= i < table.len() implies {
        &&& all_named(table, (#[trigger] table[i]).1.spec_dependencies)
        &&& table[i].1.proof_dependencies is Some ==> all_named(
            table,
            table[i].1.proof_dependencies->0,
        )
    } by {
        let deps = table[i].1.spec_dependencies;
        assert(all_named(g.table, deps));
        assert forall|k: int| 0 <= k < deps.len() implies has_name(table, #[trigger] deps[k]) by {
            lemma_same_shape_names(table, g.table, deps[k]);
        }
        if table[i].1.proof_dependencies is Some {
            let pdeps = table[i].1.proof_dependencies->0;
            assert(all_named(g.table, pdeps));
            assert forall|k: int| 0 <= k < pdeps.len() implies has_name(table, #[trigger] pdeps[k]) by {
                lemma_same_shape_names(table, g.table, pdeps[k]);
            }
        }
    }
}

/// Every statement has exactly one label of its own, no two statements
/// have the same label, and no two the same canonical name.
pub open spec fn singly_labelled(envs: Seq<EnvView>) -> bool {
    &&& forall|i: int| 0 <= i < envs.len() ==> (#[trigger] envs[i]).labels.len() == 1
    &&& forall|i: int, j: int|
        0 <= i < j < envs.len() ==> (#[trigger] envs[i]).labels[0] != (#[trigger] envs[j]).labels[0]
    &&& forall|i: int, j: int|
        0 <= i < j < envs.len() ==> stub_name(
            (#[trigger] envs[i]).relative_path,
            envs[i].labels[0],
        ) != stub_name((#[trigger] envs[j]).relative_path, envs[j].labels[0])
}

/// Statements that each have one label of their own, all labels and all
/// canonical names distinct, are all registered: there are as many entities
/// as statements, the entity of each statement stands at the statement's
/// place under the name `path/label`, and exactly their labels are reserved.
pub proof fn lemma_register_singly_labelled(envs: Seq<EnvView>)
    requires
        singly_labelled(envs),
    ensures
        register_all(envs) is Ok,
        register_all(envs)->Ok_0.table.len() == envs.len(),
        forall|i: int|
            0 <= i < envs.len() ==> (#[trigger] register_all(envs)->Ok_0.table[i]) == (
                stub_name(envs[i].relative_path, envs[i].labels[0]),
                stub_of(envs[i], envs[i].labels),
            ),
        forall|l: Seq<char>| #[trigger]
            register_all(envs)->Ok_0.registry.reserved.contains(l) ==> exists|i: int|
                0 <= i < envs.len() && (#[trigger] envs[i]).labels[0] == l,
    decreases envs.len(),
{
    if envs.len() > 0 {
        let front = envs.drop_last();
        let env = envs.last();
        assert forall|i: int| 0 <= i < front.len() implies (#[trigger] front[i]) == envs[i] by {}
        assert(singly_labelled(front)) by {
            assert forall|i: int, j: int| 0 <= i < j < front.len() implies (#[trigger] front[i]).labels[0]
                != (#[trigger] front[j]).labels[0] by {
                assert(front[i] == envs[i] && front[j] == envs[j]);
            }
            assert forall|i: int, j: int| 0 <= i < j < front.len() implies stub_name(
                (#[trigger] front[i]).relative_path,
                front[i].labels[0],
            ) != stub_name((#[trigger] front[j]).relative_path, front[j].labels[0]) by {
                assert(front[i] == envs[i] && front[j] == envs[j]);
            }
        }
        lemma_register_singly_labelled(front);
        let g = register_all(front)->Ok_0;
        let label = env.labels[0];
        let name = stub_name(env.relative_path, label);
        assert(env == envs[envs.len() - 1]);
        assert(env.labels.drop_last() =~= Seq::<Seq<char>>::empty());
        assert(reserve_all(g.registry, env.labels.drop_last()) == Ok::<RegistryView, ErrorView>(
            g.registry,
        ));
        assert(env.labels.last() == label);
        if g.registry.reserved.contains(label) {
            let i = choose|i: int| 0 <= i < front.len() && (#[trigger] front[i]).labels[0] == label;
            assert(front[i] == envs[i]);
            assert(envs[i].labels[0] != envs[envs.len() - 1].labels[0]);
        }
        assert(reserve_all(g.registry, env.labels) == Ok::<RegistryView, ErrorView>(
            with_label(g.registry, label),
        ));
        if has_name(g.table, name) {
            let i = choose|i: int| 0 <= i < g.table.len() && (#[trigger] g.table[i]).0 == name;
            assert(front[i] == envs[i]);
            assert(stub_name(envs[i].relative_path, envs[i].labels[0]) != stub_name(
                envs[envs.len() - 1].relative_path,
                envs[envs.len() - 1].labels[0],
            ));
        }
        lemma_upsert(g.table, name, stub_of(env, env.labels));
        let after = register_all(envs)->Ok_0;
        lemma_record_all(with_label(g.registry, label), env.labels, name);
        assert forall|i: int| 0 <= i < envs.len() implies (#[trigger] after.table[i]) == (
            stub_name(envs[i].relative_path, envs[i].labels[0]),
            stub_of(envs[i], envs[i].labels),
        ) by {
            if i < front.len() {
                assert(after.table[i] == g.table[i]);
                assert(front[i] == envs[i]);
            }
        }
        assert forall|l: Seq<char>| #[trigger] after.registry.reserved.contains(l) implies exists|
            i: int,
        |
            0 <= i < envs.len() && (#[trigger] envs[i]).labels[0] == l by {
            if l == label {
                assert(envs[envs.len() - 1].labels[0] == l);
            } else {
                assert(g.registry.reserved.contains(l));
                let i = choose|i: int| 0 <= i < front.len() && (#[trigger] front[i]).labels[0] == l;
                assert(envs[i].labels[0] == l);
            }
        }
    }
}

/// The graph of statements that each have one label of their own, all labels
/// and all canonical names distinct, and of no back-referenced proofs, has as
/// many entities as there are statements, and the name of each is
/// `path/label`.
pub proof fn lemma_round_trip(envs: Seq<EnvView>)
    requires
        singly_labelled(envs),
        assemble(envs, Seq::empty()) is Ok,
    ensures
        assemble(envs, Seq::empty())->Ok_0.len() == envs.len(),
        forall|i: int|
            0 <= i < envs.len() ==> (#[trigger] assemble(envs, Seq::empty())->Ok_0[i]).0
                == stub_name(envs[i].relative_path, envs[i].labels[0]),
{
    lemma_register_singly_labelled(envs);
    let g = register_all(envs)->Ok_0;
    lemma_register_all_inv(envs);
    lemma_resolve_table(g.registry.owners, g.table, g.table);
    let table = assemble(envs, Seq::empty())->Ok_0;
    assert forall|i: int| 0 <= i < envs.len() implies (#[trigger] table[i]).0 == stub_name(
        envs[i].relative_path,
        envs[i].labels[0],
    ) by {
        assert(table[i].0 == g.table[i].0);
    }
}

} // verus!
