//! The project-wide label table: which labels are taken, which entity owns
//! each, and the counter from which missing labels are synthesized.
use crate::labels::{generate_label, label_token, lemma_label_token_injective};
use crate::model::{ErrorView, StubError};
use crate::text::views;
use vstd::prelude::*;

verus! {

/// The state of a `LabelRegistry`.
pub struct RegistryView {
    /// Every label that was reserved, written or synthesized.
    pub reserved: Set<Seq<char>>,
    /// The canonical name of the entity that owns a label.
    pub owners: Map<Seq<char>, Seq<char>>,
    /// The counter value that the next synthesized label is tried from.
    pub counter: nat,
}

/// The registry with which a run starts.
pub open spec fn empty_registry() -> RegistryView {
    RegistryView { reserved: Set::empty(), owners: Map::empty(), counter: 0 }
}

/// The token of every counter value that was passed is reserved.
pub open spec fn valid_registry(r: RegistryView) -> bool {
    forall|k: nat| k < r.counter ==> r.reserved.contains(#[trigger] label_token(k))
}

/// `k` is the counter value that the next synthesized label is made from:
/// the first from `r.counter` on whose token is free.
pub open spec fn is_next_free(r: RegistryView, k: nat) -> bool {
    &&& r.counter <= k
    &&& !r.reserved.contains(label_token(k))
    &&& forall|j: nat| r.counter <= j < k ==> r.reserved.contains(#[trigger] label_token(j))
}

/// The counter value that the next synthesized label is made from.
pub open spec fn next_free(r: RegistryView) -> nat {
    choose|k: nat| is_next_free(r, k)
}

/// Whatever finite set of labels is taken, some token from `from` on is
/// free.
pub proof fn lemma_some_token_is_free(taken: Set<Seq<char>>, from: nat)
    requires
        taken.finite(),
    ensures
        exists|k: nat| from <= k && !taken.contains(#[trigger] label_token(k)),
    decreases taken.len(),
{
    if taken.contains(label_token(from)) {
        let rest = taken.remove(label_token(from));
        lemma_some_token_is_free(rest, from + 1);
        let k = choose|k: nat| from + 1 <= k && !rest.contains(#[trigger] label_token(k));
        if label_token(k) == label_token(from) {
            lemma_label_token_injective(k, from);
        }
        assert(from <= k && !taken.contains(label_token(k)));
    } else {
        assert(from <= from && !taken.contains(label_token(from)));
    }
}

/// Below a free token there is a first free token.
proof fn lemma_first_free_token(r: RegistryView, free: nat)
    requires
        r.counter <= free,
        !r.reserved.contains(label_token(free)),
    ensures
        exists|k: nat| is_next_free(r, k),
    decreases free - r.counter,
{
    if forall|j: nat| r.counter <= j < free ==> r.reserved.contains(#[trigger] label_token(j)) {
        assert(is_next_free(r, free));
    } else {
        let j = choose|j: nat|
            r.counter <= j < free && !r.reserved.contains(#[trigger] label_token(j));
        lemma_first_free_token(r, j);
    }
}

/// While finitely many labels are reserved, a label can be synthesized: the
/// counter value that it is made from exists, and its token is free.
pub proof fn lemma_next_free(r: RegistryView)
    requires
        r.reserved.finite(),
    ensures
        is_next_free(r, next_free(r)),
{
    lemma_some_token_is_free(r.reserved, r.counter);
    let free = choose|k: nat| r.counter <= k && !r.reserved.contains(#[trigger] label_token(k));
    lemma_first_free_token(r, free);
}

/// The registry after `label` was reserved.
pub open spec fn with_label(r: RegistryView, label: Seq<char>) -> RegistryView {
    RegistryView { reserved: r.reserved.insert(label), ..r }
}

/// The registry after a label was synthesized from counter value `k`.
pub open spec fn with_synthesized(r: RegistryView, k: nat) -> RegistryView {
    RegistryView { reserved: r.reserved.insert(label_token(k)), counter: k + 1, ..r }
}

/// The registry after `label` was recorded as owned by `entity`.
pub open spec fn with_owner(r: RegistryView, label: Seq<char>, entity: Seq<char>) -> RegistryView {
    RegistryView { owners: r.owners.insert(label, entity), ..r }
}

/// The owner table that a list of records stands for: a later record of a
/// label replaces an earlier one.
pub open spec fn owner_map(pairs: Seq<(String, String)>) -> Map<Seq<char>, Seq<char>>
    decreases pairs.len(),
{
    if pairs.len() == 0 {
        Map::empty()
    } else {
        owner_map(pairs.drop_last()).insert(pairs.last().0@, pairs.last().1@)
    }
}

/// The last record of `key` decides its owner; without a record it has none.
proof fn lemma_owner_map_lookup(pairs: Seq<(String, String)>, key: Seq<char>, from: int)
    requires
        0 <= from <= pairs.len(),
        forall|j: int| from <= j < pairs.len() ==> (#[trigger] pairs[j]).0@ != key,
    ensures
        from == 0 ==> !owner_map(pairs).contains_key(key),
        from > 0 && pairs[from - 1].0@ == key ==> owner_map(pairs).contains_key(key) && owner_map(
            pairs,
        )[key] == pairs[from - 1].1@,
    decreases pairs.len(),
{
    if pairs.len() == 0 {
    } else if from == pairs.len() {
    } else {
        let front = pairs.drop_last();
        assert forall|j: int| from <= j < front.len() implies (#[trigger] front[j]).0@ != key by {
            assert(front[j] == pairs[j]);
        }
        lemma_owner_map_lookup(front, key, from);
        assert(pairs.last() == pairs[pairs.len() - 1]);
        if from > 0 {
            assert(front[from - 1] == pairs[from - 1]);
        }
    }
}

/// The labels of a list with one more at its end are those of the list and
/// the one.
proof fn lemma_push_to_set(labels: Seq<Seq<char>>, label: Seq<char>)
    ensures
        labels.push(label).to_set() == labels.to_set().insert(label),
{
    let after = labels.push(label);
    assert forall|l: Seq<char>| after.to_set().contains(l) <==> labels.to_set().insert(
        label,
    ).contains(l) by {
        if labels.contains(l) {
            let i = choose|i: int| 0 <= i < labels.len() && labels[i] == l;
            assert(after[i] == l);
        }
        if l == label {
            assert(after[labels.len() as int] == l);
        }
    }
    assert(after.to_set() =~= labels.to_set().insert(label));
}

/// As many tokens as a list holds need as many entries: if the tokens of all
/// counter values below `n` stand in `labels`, then `n` is at most its length.
proof fn lemma_tokens_fit(labels: Seq<Seq<char>>, n: nat)
    requires
        forall|k: nat| k < n ==> labels.contains(#[trigger] label_token(k)),
    ensures
        n <= labels.len(),
    decreases n,
{
    if n > 0 {
        let last = label_token((n - 1) as nat);
        assert(labels.contains(last));
        let j = choose|j: int| 0 <= j < labels.len() && labels[j] == last;
        let rest = labels.remove(j);
        assert forall|k: nat| k < n - 1 implies rest.contains(#[trigger] label_token(k)) by {
            let t = label_token(k);
            assert(labels.contains(t));
            let i = choose|i: int| 0 <= i < labels.len() && labels[i] == t;
            if t == last {
                lemma_label_token_injective(k, (n - 1) as nat);
            }
            if i < j {
                assert(rest[i] == t);
            } else {
                assert(rest[i - 1] == t);
            }
        }
        lemma_tokens_fit(rest, (n - 1) as nat);
    }
}

/// The table of labels of one run.
pub struct LabelRegistry {
    labels: Vec<String>,
    owners: Vec<(String, String)>,
    counter: u64,
}

impl View for LabelRegistry {
    type V = RegistryView;

    closed spec fn view(&self) -> RegistryView {
        RegistryView {
            reserved: views(self.labels@).to_set(),
            owners: owner_map(self.owners@),
            counter: self.counter as nat,
        }
    }
}

impl LabelRegistry {
    /// The invariant of a registry.
    pub open spec fn wf(&self) -> bool {
        valid_registry(self@)
    }

    /// A registry without labels, counting from zero.
    pub fn new() -> (r: Self)
        ensures
            r.wf(),
            r@ == empty_registry(),
    {
        let r = LabelRegistry { labels: Vec::new(), owners: Vec::new(), counter: 0 };
        assert(r@.reserved =~= Set::empty());
        r
    }

    /// Whether `label` is reserved.
    pub fn is_reserved(&self, label: &str) -> (r: bool)
        ensures
            r == self@.reserved.contains(label@),
    {
        let owned = label.to_owned();
        let mut i: usize = 0;
        while i < self.labels.len()
            invariant
                i <= self.labels.len(),
                owned@ == label@,
                forall|j: int| 0 <= j < i ==> views(self.labels@)[j] != label@,
            decreases self.labels.len() - i,
        {
            if self.labels[i] == owned {
                assert(views(self.labels@)[i as int] == label@);
                return true;
            }
            i = i + 1;
        }
        false
    }

    /// Reserves `label`. A label that is reserved already is refused, and
    /// the registry stays as it was.
    pub fn reserve(&mut self, label: &str) -> (r: Result<(), StubError>)
        requires
            old(self).wf(),
        ensures
            final(self).wf(),
            match r {
                Ok(_) => !old(self)@.reserved.contains(label@) && final(self)@ == with_label(
                    old(self)@,
                    label@,
                ),
                Err(e) => old(self)@.reserved.contains(label@) && final(self)@ == old(self)@ && e@
                    == (ErrorView::DuplicateLabel { label: label@ }),
            },
    {
        if self.is_reserved(label) {
            return Err(StubError::DuplicateLabel { label: label.to_owned() });
        }
        let ghost before = views(self.labels@);
        self.labels.push(label.to_owned());
        proof {
            assert(views(self.labels@) =~= before.push(label@));
            lemma_push_to_set(before, label@);
        }
        Ok(())
    }

    /// Synthesizes a label and reserves it. The label is the token of the
    /// first counter value, from the registry's counter on, whose token is
    /// free; the counter moves past it.
    pub fn synthesize(&mut self) -> (label: String)
        requires
            old(self).wf(),
        ensures
            final(self).wf(),
            is_next_free(old(self)@, next_free(old(self)@)),
            label@ == label_token(next_free(old(self)@)),
            final(self)@ == with_synthesized(old(self)@, next_free(old(self)@)),
    {
        loop
            invariant
                self.wf(),
                self.labels == old(self).labels,
                self.owners == old(self).owners,
                old(self).counter <= self.counter,
                forall|j: nat|
                    old(self).counter <= j < self.counter ==> self@.reserved.contains(
                        #[trigger] label_token(j),
                    ),
            decreases self.labels.len() - self.counter,
        {
            let ghost before = views(self.labels@);
            proof {
                lemma_tokens_fit(before, self.counter as nat);
            }
            let candidate = generate_label(self.counter);
            if !self.is_reserved(candidate.as_str()) {
                let ghost k = self.counter as nat;
                assert(self.counter <= before.len() == self.labels.len());
                self.labels.push(candidate.clone());
                assert(self.counter < self.labels.len());
                self.counter = self.counter + 1;
                proof {
                    assert(views(self.labels@) =~= before.push(label_token(k)));
                    lemma_push_to_set(before, label_token(k));
                    assert(is_next_free(old(self)@, k));
                    let chosen = next_free(old(self)@);
                    assert(is_next_free(old(self)@, chosen));
                    assert(chosen == k);
                }
                return candidate;
            }
            proof {
                assert forall|k: nat| k < self.counter + 1 implies before.contains(
                    #[trigger] label_token(k),
                ) by {}
                lemma_tokens_fit(before, (self.counter + 1) as nat);
            }
            self.counter = self.counter + 1;
        }
    }

    /// Records `entity` as the owner of `label`, in place of any owner that
    /// was recorded for it before.
    pub fn record_owner(&mut self, label: &str, entity: &str)
        requires
            old(self).wf(),
        ensures
            final(self).wf(),
            final(self)@ == with_owner(old(self)@, label@, entity@),
    {
        let ghost before = self.owners@;
        self.owners.push((label.to_owned(), entity.to_owned()));
        proof {
            assert(self.owners@.drop_last() =~= before);
        }
    }

    /// The canonical name of the entity that owns `label`, if any does.
    pub fn resolve(&self, label: &str) -> (r: Option<String>)
        ensures
            match r {
                Some(entity) => self@.owners.contains_key(label@) && entity@
                    == self@.owners[label@],
                None => !self@.owners.contains_key(label@),
            },
    {
        let owned = label.to_owned();
        let mut i: usize = self.owners.len();
        while i > 0
            invariant
                i <= self.owners.len(),
                owned@ == label@,
                forall|j: int| i <= j < self.owners.len() ==> (#[trigger] self.owners@[j]).0@ != label@,
            decreases i,
        {
            if self.owners[i - 1].0 == owned {
                proof {
                    lemma_owner_map_lookup(self.owners@, label@, i as int);
                }
                return Some(self.owners[i - 1].1.clone());
            }
            i = i - 1;
        }
        proof {
            lemma_owner_map_lookup(self.owners@, label@, 0);
        }
        None
    }
}

} // verus!
