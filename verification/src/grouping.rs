//! Which pods may be attacked, and the groups in which they are attacked.

use crate::names::NameSet;
use crate::pod::{
    first_with, lemma_first_with_is, lookup, pod_views, LabelSeq, Labels, Pod, PodView,
};
use crate::text::{chars_of, contains_text, has_infix, join_key_value, key_value, text_eq};
use vstd::prelude::*;

verus! {

/// The label by which a pod opts in or out.
pub const ENABLED_LABEL: &'static str = "khaos-enabled";

/// The value of the enabling label that opts a pod out.
pub const OPT_OUT: &'static str = "false";

/// The label that names a pod's group outright.
pub const GROUP_LABEL: &'static str = "khaos-group";

/// What the key of a label holds that tells the replicas of one template
/// apart from those of another.
pub const TEMPLATE_HASH: &'static str = "pod-template-hash";

/// The label that names the job to which a pod belongs.
pub const JOB_LABEL: &'static str = "job-name";

/// What the enabling label of a pod says.
#[derive(Clone, Copy, Debug, PartialEq, Eq, Structural)]
pub enum EnabledLabel {
    /// The pod has no such label.
    Absent,
    /// The label is there and reads `false`.
    OptOut,
    /// The label is there and reads anything else.
    OptIn,
}

/// What the enabling label among `labels` says.
pub open spec fn enabled_label(labels: LabelSeq) -> EnabledLabel {
    match lookup(labels, ENABLED_LABEL@) {
        None => EnabledLabel::Absent,
        Some(value) => if value == OPT_OUT@ {
            EnabledLabel::OptOut
        } else {
            EnabledLabel::OptIn
        },
    }
}

/// Whether a pod may be attacked: opting out always wins, opting in
/// overrides the namespace, and without the label the namespace decides.
pub open spec fn eligibility(enabled: EnabledLabel, in_target_namespace: bool) -> bool {
    match enabled {
        EnabledLabel::OptOut => false,
        EnabledLabel::OptIn => true,
        EnabledLabel::Absent => in_target_namespace,
    }
}

/// Whether the pod lives in one of the `targets`. A pod without a namespace
/// does not.
pub open spec fn in_target_namespace(pod: PodView, targets: Set<Seq<char>>) -> bool {
    match pod.namespace {
        Some(ns) => targets.contains(ns),
        None => false,
    }
}

/// Whether the pod may be attacked.
pub open spec fn is_eligible(pod: PodView, targets: Set<Seq<char>>) -> bool {
    eligibility(enabled_label(pod.labels), in_target_namespace(pod, targets))
}

/// The test that a key holds `part`.
pub open spec fn key_holds(part: Seq<char>) -> spec_fn(Seq<char>) -> bool {
    |k: Seq<char>| has_infix(k, part)
}

/// The key of the group to which labels assign a pod. The first of these
/// that applies decides: the group label's value; the first label whose key
/// holds the template hash, as `key=value`; the job label, as `key=value`.
pub open spec fn group_key(labels: LabelSeq) -> Option<Seq<char>> {
    if let Some(group) = lookup(labels, GROUP_LABEL@) {
        Some(group)
    } else if let Some(i) = first_with(labels, key_holds(TEMPLATE_HASH@)) {
        Some(key_value(labels[i].0, labels[i].1))
    } else if let Some(job) = lookup(labels, JOB_LABEL@) {
        Some(key_value(JOB_LABEL@, job))
    } else {
        None
    }
}

/// Two pods with the same enabling label, of which both or neither live in a
/// target namespace, are both eligible or both not, whatever else they hold.
pub proof fn lemma_eligibility_is_fixed(
    a: PodView,
    a_targets: Set<Seq<char>>,
    b: PodView,
    b_targets: Set<Seq<char>>,
)
    requires
        lookup(a.labels, ENABLED_LABEL@) == lookup(b.labels, ENABLED_LABEL@),
        in_target_namespace(a, a_targets) == in_target_namespace(b, b_targets),
    ensures
        is_eligible(a, a_targets) == is_eligible(b, b_targets),
{
}

/// The eligibility of every combination of the two signals.
pub proof fn lemma_eligibility_table()
    ensures
        !eligibility(EnabledLabel::Absent, false),
        eligibility(EnabledLabel::Absent, true),
        eligibility(EnabledLabel::OptIn, false),
        eligibility(EnabledLabel::OptIn, true),
        !eligibility(EnabledLabel::OptOut, false),
        !eligibility(EnabledLabel::OptOut, true),
{
}

/// What the enabling label among `labels` says.
pub fn read_enabled_label(labels: &Labels) -> (enabled: EnabledLabel)
    ensures
        enabled == enabled_label(labels@),
{
    match labels.get(ENABLED_LABEL) {
        None => EnabledLabel::Absent,
        Some(value) => if text_eq(value.as_str(), OPT_OUT) {
            EnabledLabel::OptOut
        } else {
            EnabledLabel::OptIn
        },
    }
}

/// Whether a pod with these two signals may be attacked.
pub fn eligible(enabled: EnabledLabel, in_target_namespace: bool) -> (yes: bool)
    ensures
        yes == eligibility(enabled, in_target_namespace),
{
    match enabled {
        EnabledLabel::OptOut => false,
        EnabledLabel::OptIn => true,
        EnabledLabel::Absent => in_target_namespace,
    }
}

/// Whether the pod lives in one of the targeted namespaces.
pub fn lives_in_target(pod: &Pod, targeted_namespaces: &NameSet) -> (yes: bool)
    ensures
        yes == in_target_namespace(pod@, targeted_namespaces@),
        yes == targeted_namespaces@.contains(pod.namespace_or_empty()),
{
    match &pod.namespace {
        Some(ns) => targeted_namespaces.contains(ns.as_str()),
        None => {
            let empty = String::new();
            let found = targeted_namespaces.contains(empty.as_str());
            assert(!found);
            false
        },
    }
}

/// Whether the pod may be attacked.
pub fn pod_is_eligible(pod: &Pod, targeted_namespaces: &NameSet) -> (yes: bool)
    ensures
        yes == is_eligible(pod@, targeted_namespaces@),
{
    eligible(read_enabled_label(&pod.labels), lives_in_target(pod, targeted_namespaces))
}

/// The place of the first label whose key holds `part`.
pub fn find_key_holding(labels: &Labels, part: &str) -> (at: Option<usize>)
    ensures
        match at {
            Some(i) => i < labels@.len() && first_with(labels@, key_holds(part@)) == Some(i as int),
            None => first_with(labels@, key_holds(part@)) is None,
        },
{
    let wanted_chars = chars_of(part);
    let ghost wanted = key_holds(part@);
    let n = labels.len();
    let mut i: usize = 0;
    while i < n
        invariant
            i <= n == labels@.len(),
            wanted_chars@ == part@,
            wanted == key_holds(part@),
            forall|k: int| 0 <= k < i ==> !wanted(#[trigger] labels@[k].0),
        decreases n - i,
    {
        if let Some(label) = labels.entry(i) {
            let key_chars = chars_of(label.key.as_str());
            if contains_text(&key_chars, &wanted_chars) {
                proof {
                    lemma_first_with_is(labels@, wanted, i as int);
                }
                return Some(i);
            }
        }
        i += 1;
    }
    proof {
        lemma_first_with_is(labels@, wanted, i as int);
    }
    None
}

/// The key of the group to which the labels assign a pod, if any.
pub fn derive_group_key(labels: &Labels) -> (key: Option<String>)
    ensures
        match key {
            Some(k) => group_key(labels@) == Some(k@),
            None => group_key(labels@) is None,
        },
{
    if let Some(group) = labels.get(GROUP_LABEL) {
        return Some(group.clone());
    }
    if let Some(i) = find_key_holding(labels, TEMPLATE_HASH) {
        if let Some(label) = labels.entry(i) {
            return Some(join_key_value(label.key.as_str(), label.value.as_str()));
        }
    }
    if let Some(job) = labels.get(JOB_LABEL) {
        return Some(join_key_value(JOB_LABEL, job.as_str()));
    }
    None
}

/// A cohort of pods that is attacked as a unit.
#[derive(Debug)]
pub struct KhaosGroup {
    pub key: String,
    /// The members, the latest listed first.
    pub pods: Vec<Pod>,
}

/// The model of a group.
#[verifier::ext_equal]
pub struct GroupView {
    pub key: Seq<char>,
    pub pods: Seq<PodView>,
}

impl View for KhaosGroup {
    type V = GroupView;

    open spec fn view(&self) -> GroupView {
        GroupView { key: self.key@, pods: pod_views(self.pods@) }
    }
}

/// The models of a list of groups.
pub open spec fn group_views(groups: Seq<KhaosGroup>) -> Seq<GroupView> {
    groups.map_values(|group: KhaosGroup| group@)
}

/// The key of the group that the pod joins: that of its labels if it is
/// eligible, none if it is not.
pub open spec fn key_of(pod: PodView, targets: Set<Seq<char>>) -> Option<Seq<char>> {
    if is_eligible(pod, targets) {
        group_key(pod.labels)
    } else {
        None
    }
}

/// The test that a pod joins the group `key`.
pub open spec fn joins(targets: Set<Seq<char>>, key: Seq<char>) -> spec_fn(PodView) -> bool {
    |pod: PodView| key_of(pod, targets) == Some(key)
}

/// The keys of the groups that the pods form, each once, in the order in
/// which the listing first shows them.
pub open spec fn group_keys(pods: Seq<PodView>, targets: Set<Seq<char>>) -> Seq<Seq<char>>
    decreases pods.len(),
{
    if pods.len() == 0 {
        Seq::empty()
    } else {
        let before = group_keys(pods.drop_last(), targets);
        match key_of(pods.last(), targets) {
            Some(key) => if before.contains(key) {
                before
            } else {
                before.push(key)
            },
            None => before,
        }
    }
}

/// The members of the group `key`, the latest listed first.
pub open spec fn members(pods: Seq<PodView>, targets: Set<Seq<char>>, key: Seq<char>) -> Seq<
    PodView,
> {
    pods.filter(joins(targets, key)).reverse()
}

/// The groups that the listed pods form.
pub open spec fn grouped(pods: Seq<PodView>, targets: Set<Seq<char>>) -> Seq<GroupView> {
    let keys = group_keys(pods, targets);
    Seq::new(keys.len(), |i: int| GroupView { key: keys[i], pods: members(pods, targets, keys[i]) })
}

/// The place of the group `key`.
pub open spec fn place_of(groups: Seq<GroupView>, key: Seq<char>) -> Option<int> {
    if exists|j: int| 0 <= j < groups.len() && groups[j].key == key {
        Some(choose|j: int| 0 <= j < groups.len() && groups[j].key == key)
    } else {
        None
    }
}

/// The groups once `pod` has joined the group `key`: at the front of that
/// group if it is there, as the one member of a new last group if not.
pub open spec fn with_member(groups: Seq<GroupView>, key: Seq<char>, pod: PodView) -> Seq<
    GroupView,
> {
    match place_of(groups, key) {
        Some(j) => groups.update(j, GroupView { key, pods: seq![pod] + groups[j].pods }),
        None => groups.push(GroupView { key, pods: seq![pod] }),
    }
}

/// No two groups share a key.
pub open spec fn distinct_groups(groups: Seq<GroupView>) -> bool {
    forall|i: int, j: int| 0 <= i < j < groups.len() ==> groups[i].key != groups[j].key
}

/// The keys of the groups are those of the pods that join a group, each
/// listed once.
pub proof fn lemma_group_keys(pods: Seq<PodView>, targets: Set<Seq<char>>)
    ensures
        group_keys(pods, targets).no_duplicates(),
        forall|key: Seq<char>|
            group_keys(pods, targets).contains(key) <==> exists|i: int|
                0 <= i < pods.len() && key_of(#[trigger] pods[i], targets) == Some(key),
    decreases pods.len(),
{
    if pods.len() > 0 {
        let head = pods.drop_last();
        let before = group_keys(head, targets);
        let after = group_keys(pods, targets);
        lemma_group_keys(head, targets);
        assert forall|key: Seq<char>| after.contains(key) implies exists|i: int|
            0 <= i < pods.len() && key_of(#[trigger] pods[i], targets) == Some(key) by {
            if before.contains(key) {
                let i = choose|i: int|
                    0 <= i < head.len() && key_of(#[trigger] head[i], targets) == Some(key);
                assert(pods[i] == head[i]);
            } else {
                let k = choose|k: int| 0 <= k < after.len() && after[k] == key;
                if k < before.len() {
                    assert(before[k] == key);
                }
                assert(key_of(pods[pods.len() - 1], targets) == Some(key));
            }
        }
        assert forall|key: Seq<char>|
            (exists|i: int|
                0 <= i < pods.len() && key_of(#[trigger] pods[i], targets) == Some(
                    key,
                )) implies after.contains(key) by {
            let i = choose|i: int|
                0 <= i < pods.len() && key_of(#[trigger] pods[i], targets) == Some(key);
            if i < head.len() {
                assert(head[i] == pods[i]);
                assert(before.contains(key));
                let k = choose|k: int| 0 <= k < before.len() && before[k] == key;
                assert(after[k] == key);
            } else {
                if before.contains(key) {
                } else {
                    assert(after[before.len() as int] == key);
                }
            }
        }
    }
}

/// No two of the groups that a listing forms share a key.
pub proof fn lemma_grouped_distinct(pods: Seq<PodView>, targets: Set<Seq<char>>)
    ensures
        distinct_groups(grouped(pods, targets)),
{
    lemma_group_keys(pods, targets);
}

/// One more pod in the listing joins its group, or changes nothing if it
/// joins none.
pub proof fn lemma_grouped_push(pods: Seq<PodView>, pod: PodView, targets: Set<Seq<char>>)
    ensures
        grouped(pods.push(pod), targets) == match key_of(pod, targets) {
            Some(key) => with_member(grouped(pods, targets), key, pod),
            None => grouped(pods, targets),
        },
{
    let more = pods.push(pod);
    let keys = group_keys(pods, targets);
    let groups = grouped(pods, targets);
    lemma_group_keys(pods, targets);
    assert(more.drop_last() == pods);
    assert forall|key: Seq<char>| #[trigger]
        members(more, targets, key) == if key_of(pod, targets) == Some(key) {
            seq![pod] + members(pods, targets, key)
        } else {
            members(pods, targets, key)
        } by {
        pods.lemma_filter_push(pod, joins(targets, key));
        let old_members = pods.filter(joins(targets, key));
        if key_of(pod, targets) == Some(key) {
            assert(old_members.push(pod).reverse() == seq![pod] + old_members.reverse());
        }
    }
    match key_of(pod, targets) {
        None => {
            assert(grouped(more, targets) == groups);
        },
        Some(key) => {
            if keys.contains(key) {
                let j = choose|j: int| 0 <= j < keys.len() && keys[j] == key;
                assert(groups[j].key == key);
                let found = place_of(groups, key)->0;
                assert(groups[found].key == key);
                assert(found == j);
                assert(grouped(more, targets) == with_member(groups, key, pod));
            } else {
                assert(place_of(groups, key) is None) by {
                    if exists|j: int| 0 <= j < groups.len() && groups[j].key == key {
                        let j = choose|j: int| 0 <= j < groups.len() && groups[j].key == key;
                        assert(keys[j] == key);
                    }
                }
                assert(pods.filter(joins(targets, key)) == Seq::<PodView>::empty()) by {
                    let kept = pods.filter(joins(targets, key));
                    if kept.len() > 0 {
                        pods.lemma_filter_contains_rev(joins(targets, key), kept[0]);
                        pods.lemma_filter_pred(joins(targets, key), 0);
                        let i = choose|i: int| 0 <= i < pods.len() && pods[i] == kept[0];
                        assert(key_of(pods[i], targets) == Some(key));
                    }
                }
                assert(grouped(more, targets) == with_member(groups, key, pod));
            }
        },
    }
}

/// Puts `pod` into the group `key`.
fn add_member(groups: &mut Vec<KhaosGroup>, key: String, pod: Pod)
    requires
        distinct_groups(group_views(old(groups)@)),
    ensures
        group_views(final(groups)@) == with_member(group_views(old(groups)@), key@, pod@),
{
    let ghost before = group_views(groups@);
    let mut j: usize = 0;
    while j < groups.len()
        invariant
            j <= groups.len(),
            before == group_views(groups@),
            distinct_groups(before),
            groups@ == old(groups)@,
            forall|k: int| 0 <= k < j ==> before[k].key != key@,
        decreases groups.len() - j,
    {
        if groups[j].key == key {
            proof {
                assert(before[j as int].key == key@);
                let found = place_of(before, key@)->0;
                assert(before[found].key == key@);
                assert(found == j);
            }
            let mut group = groups.remove(j);
            group.pods.insert(0, pod);
            assert(pod_views(group.pods@) == seq![pod@] + before[j as int].pods);
            groups.insert(j, group);
            assert(group_views(groups@) == with_member(before, key@, pod@));
            return ;
        }
        j += 1;
    }
    let mut pods: Vec<Pod> = Vec::new();
    pods.push(pod);
    assert(pod_views(pods@) == seq![pod@]);
    groups.push(KhaosGroup { key, pods });
    assert(place_of(before, key@) is None);
    assert(group_views(groups@) == with_member(before, key@, pod@));
}

/// Forms the groups of the listed pods. A pod that is not eligible, or whose
/// labels name no group, joins none; no pod is dropped for being listed
/// twice.
pub fn get_grouped_pods(pods: Vec<Pod>, targeted_namespaces: &NameSet) -> (groups: Vec<KhaosGroup>)
    ensures
        group_views(groups@) == grouped(pod_views(pods@), targeted_namespaces@),
        distinct_groups(group_views(groups@)),
        forall|i: int| 0 <= i < groups.len() ==> (#[trigger] groups[i]).pods.len() > 0,
{
    let ghost all = pod_views(pods@);
    let ghost targets = targeted_namespaces@;
    let mut groups: Vec<KhaosGroup> = Vec::new();
    assert(group_views(groups@) == grouped(all.take(0), targets));
    for pod in it: pods
        invariant
            all == pod_views(it.seq()),
            targets == targeted_namespaces@,
            group_views(groups@) == grouped(all.take(it.index() as int), targets),
    {
        proof {
            let seen = all.take(it.index() as int);
            assert(all.take(it.index() + 1) == seen.push(pod@));
            lemma_grouped_push(seen, pod@, targets);
            lemma_grouped_distinct(seen, targets);
        }
        if pod_is_eligible(&pod, targeted_namespaces) {
            if let Some(key) = derive_group_key(&pod.labels) {
                add_member(&mut groups, key, pod);
            }
        }
    }
    proof {
        assert(all.take(all.len() as int) == all);
        lemma_grouped_distinct(all, targets);
        lemma_groups_hold_pods(all, targets);
        assert forall|i: int| 0 <= i < groups.len() implies (#[trigger] groups[i]).pods.len()
            > 0 by {
            assert(group_views(groups@)[i] == groups[i]@);
        }
    }
    groups
}

/// Every group has a member.
pub proof fn lemma_groups_hold_pods(pods: Seq<PodView>, targets: Set<Seq<char>>)
    ensures
        forall|i: int|
            0 <= i < grouped(pods, targets).len() ==> (#[trigger] grouped(
                pods,
                targets,
            )[i]).pods.len() > 0,
{
    let keys = group_keys(pods, targets);
    lemma_group_keys(pods, targets);
    assert forall|i: int| 0 <= i < grouped(pods, targets).len() implies (#[trigger] grouped(
        pods,
        targets,
    )[i]).pods.len() > 0 by {
        let key = keys[i];
        assert(keys.contains(key));
        let at = choose|at: int|
            0 <= at < pods.len() && key_of(#[trigger] pods[at], targets) == Some(key);
        pods.lemma_filter_contains(joins(targets, key), at);
        let kept = pods.filter(joins(targets, key));
        assert(kept.len() > 0);
        assert(kept.reverse().len() == kept.len());
    }
}

} // verus!
