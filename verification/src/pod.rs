//! Pods and their labels, as far as the monkey reads them.

use crate::text::text_eq;
use vstd::prelude::*;

verus! {

/// The model of a label list: pairs of key and value, in order.
pub type LabelSeq = Seq<(Seq<char>, Seq<char>)>;

/// The place of the first label whose key meets `wanted`.
pub open spec fn first_with(labels: LabelSeq, wanted: spec_fn(Seq<char>) -> bool) -> Option<int>
    decreases labels.len(),
{
    if labels.len() == 0 {
        None
    } else if wanted(labels[0].0) {
        Some(0)
    } else {
        match first_with(labels.drop_first(), wanted) {
            Some(i) => Some(i + 1),
            None => None,
        }
    }
}

/// The test that a key is `key`.
pub open spec fn key_is(key: Seq<char>) -> spec_fn(Seq<char>) -> bool {
    |k: Seq<char>| k == key
}

/// The value under `key`, if a label has that key.
pub open spec fn lookup(labels: LabelSeq, key: Seq<char>) -> Option<Seq<char>> {
    match first_with(labels, key_is(key)) {
        Some(i) => Some(labels[i].1),
        None => None,
    }
}

/// No two labels share a key.
pub open spec fn distinct_keys(labels: LabelSeq) -> bool {
    forall|i: int, j: int| 0 <= i < j < labels.len() ==> labels[i].0 != labels[j].0
}

/// The labels with `key` set to `value`: in place if the key is there, at
/// the end if not.
pub open spec fn put(labels: LabelSeq, key: Seq<char>, value: Seq<char>) -> LabelSeq {
    match first_with(labels, key_is(key)) {
        Some(i) => labels.update(i, (key, value)),
        None => labels.push((key, value)),
    }
}

/// The labels as a mapping from key to value.
pub open spec fn as_map(labels: LabelSeq) -> Map<Seq<char>, Seq<char>> {
    Map::new(|key: Seq<char>| lookup(labels, key) is Some, |key: Seq<char>| lookup(labels, key)->0)
}

/// `first_with` gives the least index that meets `wanted`, if there is one.
pub proof fn lemma_first_with(labels: LabelSeq, wanted: spec_fn(Seq<char>) -> bool)
    ensures
        match first_with(labels, wanted) {
            Some(i) => {
                &&& 0 <= i < labels.len()
                &&& wanted(labels[i].0)
                &&& forall|k: int| 0 <= k < i ==> !wanted(#[trigger] labels[k].0)
            },
            None => forall|k: int| 0 <= k < labels.len() ==> !wanted(#[trigger] labels[k].0),
        },
    decreases labels.len(),
{
    if labels.len() > 0 && !wanted(labels[0].0) {
        let rest = labels.drop_first();
        lemma_first_with(rest, wanted);
        match first_with(rest, wanted) {
            Some(i) => {
                assert(labels[i + 1] == rest[i]);
                assert forall|k: int| 0 <= k < i + 1 implies !wanted(#[trigger] labels[k].0) by {
                    if k > 0 {
                        assert(labels[k] == rest[k - 1]);
                    }
                }
            },
            None => {
                assert forall|k: int| 0 <= k < labels.len() implies !wanted(
                    #[trigger] labels[k].0,
                ) by {
                    if k > 0 {
                        assert(labels[k] == rest[k - 1]);
                    }
                }
            },
        }
    }
}

/// An index that meets `wanted`, with none before it that does, is the one
/// that `first_with` gives.
pub proof fn lemma_first_with_is(labels: LabelSeq, wanted: spec_fn(Seq<char>) -> bool, at: int)
    requires
        0 <= at <= labels.len(),
        forall|k: int| 0 <= k < at ==> !wanted(#[trigger] labels[k].0),
        at < labels.len() ==> wanted(labels[at].0),
    ensures
        first_with(labels, wanted) == if at < labels.len() {
            Some(at)
        } else {
            None::<int>
        },
{
    lemma_first_with(labels, wanted);
}

/// Setting a key is setting it in the mapping: the labels then map the key
/// to the new value and every other key as before.
pub proof fn lemma_put_in_map(labels: LabelSeq, key: Seq<char>, value: Seq<char>)
    requires
        distinct_keys(labels),
    ensures
        as_map(put(labels, key, value)) == as_map(labels).insert(key, value),
{
    let after = as_map(put(labels, key, value));
    let want = as_map(labels).insert(key, value);
    assert forall|other: Seq<char>| after.dom().contains(other) == want.dom().contains(other) by {
        lemma_put(labels, key, value, other);
    }
    assert forall|other: Seq<char>| #[trigger] after.dom().contains(other) implies after[other]
        == want[other] by {
        lemma_put(labels, key, value, other);
    }
    assert(after =~= want);
}

/// Setting a key keeps the keys distinct, and a lookup then finds the new
/// value under that key and the old values under the others.
pub proof fn lemma_put(labels: LabelSeq, key: Seq<char>, value: Seq<char>, other: Seq<char>)
    requires
        distinct_keys(labels),
    ensures
        distinct_keys(put(labels, key, value)),
        lookup(put(labels, key, value), key) == Some(value),
        other != key ==> lookup(put(labels, key, value), other) == lookup(labels, other),
{
    let is_key = key_is(key);
    let is_other = key_is(other);
    let after = put(labels, key, value);
    lemma_first_with(labels, is_key);
    lemma_first_with(labels, is_other);
    match first_with(labels, is_key) {
        Some(i) => {
            assert forall|k: int| 0 <= k < i implies !is_key(#[trigger] after[k].0) by {
                assert(!is_key(labels[k].0));
            }
            lemma_first_with_is(after, is_key, i);
        },
        None => {
            assert forall|k: int| 0 <= k < labels.len() implies !is_key(#[trigger] after[k].0) by {
                assert(!is_key(labels[k].0));
            }
            lemma_first_with_is(after, is_key, labels.len() as int);
        },
    }
    if other != key {
        match first_with(labels, is_other) {
            Some(j) => {
                assert forall|k: int| 0 <= k < j implies !is_other(#[trigger] after[k].0) by {
                    assert(!is_other(labels[k].0));
                }
                assert(after[j] == labels[j]);
                lemma_first_with_is(after, is_other, j);
            },
            None => {
                assert forall|k: int| 0 <= k < after.len() implies !is_other(
                    #[trigger] after[k].0,
                ) by {
                    if k < labels.len() {
                        assert(!is_other(labels[k].0));
                    }
                }
                lemma_first_with_is(after, is_other, after.len() as int);
            },
        }
    }
}

/// One label of a pod.
#[derive(Debug)]
pub struct Label {
    pub key: String,
    pub value: String,
}

impl View for Label {
    type V = (Seq<char>, Seq<char>);

    open spec fn view(&self) -> (Seq<char>, Seq<char>) {
        (self.key@, self.value@)
    }
}

impl Clone for Label {
    fn clone(&self) -> (copy: Label)
        ensures
            copy@ == self@,
    {
        Label { key: self.key.clone(), value: self.value.clone() }
    }
}

/// The model of a list of labels.
pub open spec fn pairs_of(entries: Seq<Label>) -> LabelSeq {
    entries.map_values(|label: Label| label@)
}

/// The labels of a pod: a mapping from key to value that remembers the order
/// in which the keys came.
#[derive(Debug)]
pub struct Labels {
    entries: Vec<Label>,
}

impl View for Labels {
    type V = LabelSeq;

    closed spec fn view(&self) -> LabelSeq {
        pairs_of(self.entries@)
    }
}

impl Labels {
    #[verifier::type_invariant]
    spec fn holds(self) -> bool {
        distinct_keys(pairs_of(self.entries@))
    }

    /// No labels.
    pub fn new() -> (labels: Labels)
        ensures
            labels@ == LabelSeq::empty(),
    {
        let labels = Labels { entries: Vec::new() };
        assert(pairs_of(labels.entries@) == LabelSeq::empty());
        labels
    }

    /// The number of labels.
    pub fn len(&self) -> (n: usize)
        ensures
            n == self@.len(),
            distinct_keys(self@),
    {
        proof {
            use_type_invariant(self);
        }
        self.entries.len()
    }

    /// The label at place `i`, if there are that many.
    pub fn entry(&self, i: usize) -> (label: Option<&Label>)
        ensures
            label is Some <==> i < self@.len(),
            label matches Some(found) ==> found@ == self@[i as int],
    {
        if i < self.entries.len() {
            Some(&self.entries[i])
        } else {
            None
        }
    }

    /// The place of the label with this key.
    pub fn position(&self, key: &str) -> (at: Option<usize>)
        ensures
            match at {
                Some(i) => i < self@.len() && first_with(self@, key_is(key@)) == Some(i as int),
                None => first_with(self@, key_is(key@)) is None,
            },
    {
        let ghost wanted = key_is(key@);
        let mut i: usize = 0;
        while i < self.entries.len()
            invariant
                i <= self.entries.len(),
                wanted == key_is(key@),
                forall|k: int| 0 <= k < i ==> !wanted(#[trigger] self@[k].0),
            decreases self.entries.len() - i,
        {
            if text_eq(self.entries[i].key.as_str(), key) {
                proof {
                    lemma_first_with_is(self@, wanted, i as int);
                }
                return Some(i);
            }
            i += 1;
        }
        proof {
            lemma_first_with_is(self@, wanted, i as int);
        }
        None
    }

    /// The value under `key`.
    pub fn get(&self, key: &str) -> (value: Option<&String>)
        ensures
            match value {
                Some(v) => lookup(self@, key@) == Some(v@),
                None => lookup(self@, key@) is None,
            },
    {
        match self.position(key) {
            Some(i) => {
                assert(self@[i as int] == self.entries[i as int]@);
                Some(&self.entries[i].value)
            },
            None => None,
        }
    }

    /// Whether a label has this key.
    pub fn contains_key(&self, key: &str) -> (found: bool)
        ensures
            found == lookup(self@, key@) is Some,
    {
        self.position(key).is_some()
    }

    /// Sets `key` to `value`: in place if the key is there, at the end if
    /// not.
    pub fn insert(&mut self, key: String, value: String)
        ensures
            final(self)@ == put(old(self)@, key@, value@),
            distinct_keys(final(self)@),
    {
        proof {
            use_type_invariant(&*self);
            lemma_put(self@, key@, value@, key@);
        }
        let at = self.position(key.as_str());
        let ghost before = self@;
        let mut entries: Vec<Label> = Vec::new();
        core::mem::swap(&mut entries, &mut self.entries);
        assert(pairs_of(self.entries@) == LabelSeq::empty());
        assert(pairs_of(entries@) == before);
        match at {
            Some(i) => {
                entries.set(i, Label { key, value });
                assert(pairs_of(entries@) == before.update(i as int, (key@, value@)));
            },
            None => {
                entries.push(Label { key, value });
                assert(pairs_of(entries@) == before.push((key@, value@)));
            },
        }
        self.entries = entries;
    }
}

impl Clone for Labels {
    fn clone(&self) -> (copy: Labels)
        ensures
            copy@ == self@,
    {
        proof {
            use_type_invariant(self);
        }
        let mut entries: Vec<Label> = Vec::new();
        let mut i: usize = 0;
        while i < self.entries.len()
            invariant
                i <= self.entries.len(),
                pairs_of(entries@) == pairs_of(self.entries@).take(i as int),
            decreases self.entries.len() - i,
        {
            let ghost before = pairs_of(entries@);
            let copy = self.entries[i].clone();
            entries.push(copy);
            assert(pairs_of(entries@) == before.push(copy@));
            assert(pairs_of(self.entries@).take(i + 1) == pairs_of(self.entries@).take(
                i as int,
            ).push(self.entries[i as int]@));
            i += 1;
        }
        assert(pairs_of(self.entries@).take(i as int) == pairs_of(self.entries@));
        Labels { entries }
    }
}

/// What the monkey reads of a pod.
#[derive(Debug)]
pub struct Pod {
    /// The namespace, which the cluster may leave out.
    pub namespace: Option<String>,
    pub name: String,
    pub labels: Labels,
}

/// The model of a pod.
pub struct PodView {
    pub namespace: Option<Seq<char>>,
    pub name: Seq<char>,
    pub labels: LabelSeq,
}

impl View for Pod {
    type V = PodView;

    open spec fn view(&self) -> PodView {
        PodView {
            namespace: match self.namespace {
                Some(ns) => Some(ns@),
                None => None,
            },
            name: self.name@,
            labels: self.labels@,
        }
    }
}

impl Clone for Pod {
    fn clone(&self) -> (copy: Pod)
        ensures
            copy@ == self@,
    {
        let namespace = match &self.namespace {
            Some(ns) => Some(ns.clone()),
            None => None,
        };
        Pod { namespace, name: self.name.clone(), labels: self.labels.clone() }
    }
}

impl Pod {
    /// The namespace, or the empty text where the pod has none.
    pub open spec fn namespace_or_empty(self) -> Seq<char> {
        match self@.namespace {
            Some(ns) => ns,
            None => Seq::<char>::empty(),
        }
    }

    /// The namespace, or the empty text where the pod has none.
    pub fn namespace_text(&self) -> (text: String)
        ensures
            text@ == self.namespace_or_empty(),
    {
        match &self.namespace {
            Some(ns) => ns.clone(),
            None => String::new(),
        }
    }
}

/// The models of a list of pods.
pub open spec fn pod_views(pods: Seq<Pod>) -> Seq<PodView> {
    pods.map_values(|pod: Pod| pod@)
}

} // verus!
