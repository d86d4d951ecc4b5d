//! One attack cycle: which groups are attacked, and the run of deletions
//! that follows, one request at a time.

use crate::grouping::KhaosGroup;
use crate::pod::{Pod, PodView};
use crate::selection::{plan_attack, plans, AttackPlan, DeleteMode, PlanView};
use rand::rngs::StdRng;
use vstd::prelude::*;

verus! {

/// The number of groups attacked in one cycle when `groups` were found: all
/// of them if the limit is negative, else no more than the limit.
pub open spec fn attack_limit(attacks_per_interval: i32, groups: nat) -> nat {
    if 0 <= attacks_per_interval < groups {
        attacks_per_interval as nat
    } else {
        groups
    }
}

/// The number of groups attacked in one cycle when `groups` were found.
pub fn num_attacks(attacks_per_interval: i32, groups: usize) -> (n: usize)
    ensures
        n == attack_limit(attacks_per_interval, groups as nat),
        n <= groups,
{
    if attacks_per_interval > -1 && (attacks_per_interval as u32 as u64) < groups as u64 {
        attacks_per_interval as usize
    } else {
        groups
    }
}

/// The models of a list of plans.
pub open spec fn plan_views(all: Seq<AttackPlan>) -> Seq<PlanView> {
    all.map_values(|plan: AttackPlan| plan@)
}

/// Plans one cycle: an attack on each of the first groups, as many as the
/// limit allows, in the order of the grouping.
pub fn plan_cycle(
    groups: &Vec<KhaosGroup>,
    mode: DeleteMode,
    attacks_per_interval: i32,
    randomize: bool,
    rng: &mut StdRng,
) -> (made: Vec<AttackPlan>)
    ensures
        made.len() == attack_limit(attacks_per_interval, groups.len() as nat),
        forall|i: int|
            0 <= i < made.len() ==> plans(
                (#[trigger] groups[i])@,
                mode,
                randomize,
                made[i]@,
            ),
{
    let n = num_attacks(attacks_per_interval, groups.len());
    let mut made: Vec<AttackPlan> = Vec::new();
    let mut i: usize = 0;
    while i < n
        invariant
            i <= n <= groups.len(),
            made.len() == i,
            forall|k: int|
                0 <= k < i ==> plans((#[trigger] groups[k])@, mode, randomize, made[k]@),
        decreases n - i,
    {
        let plan = plan_attack(&groups[i], mode, randomize, rng);
        made.push(plan);
        i += 1;
    }
    made
}

/// What the cluster answered to one request to delete a pod.
#[derive(Clone, Copy, Debug, PartialEq, Eq, Structural)]
pub enum DeleteOutcome {
    /// The cluster took the request and is deleting the pod.
    Deleting,
    /// The pod is deleted.
    Deleted,
    /// The cluster no longer knows the pod.
    NotFound,
    /// The request failed.
    Failed,
}

/// The status with which the cluster says that it does not know a pod.
pub const NOT_FOUND: u16 = 404;

impl DeleteOutcome {
    /// The outcome that a refusal with this status stands for.
    pub open spec fn of_status(status: u16) -> DeleteOutcome {
        if status == NOT_FOUND {
            DeleteOutcome::NotFound
        } else {
            DeleteOutcome::Failed
        }
    }

    /// Whether the outcome is a failure. A pod that is already gone is none.
    pub open spec fn is_failure(self) -> bool {
        self == DeleteOutcome::Failed
    }

    /// The outcome that a refusal with this status stands for.
    pub fn from_status(status: u16) -> (outcome: DeleteOutcome)
        ensures
            outcome == DeleteOutcome::of_status(status),
    {
        if status == NOT_FOUND {
            DeleteOutcome::NotFound
        } else {
            DeleteOutcome::Failed
        }
    }

    /// Whether the outcome is a failure.
    pub fn failed(&self) -> (yes: bool)
        ensures
            yes == self.is_failure(),
    {
        match self {
            DeleteOutcome::Failed => true,
            _ => false,
        }
    }
}

/// The victims of all plans, in the order in which they are deleted: plan
/// by plan, and within a plan in the order of its list.
pub open spec fn all_victims(all: Seq<PlanView>) -> Seq<PodView>
    decreases all.len(),
{
    if all.len() == 0 {
        Seq::empty()
    } else {
        all_victims(all.drop_last()) + all.last().victims
    }
}

/// The number of victims of the first `upto` plans.
pub open spec fn offset(all: Seq<PlanView>, upto: int) -> int {
    all_victims(all.take(upto)).len() as int
}

/// How often `kind` occurs among `outcomes`.
pub open spec fn tally(outcomes: Seq<DeleteOutcome>, kind: DeleteOutcome) -> nat
    decreases outcomes.len(),
{
    if outcomes.len() == 0 {
        0
    } else {
        tally(outcomes.drop_last(), kind) + if outcomes.last() == kind {
            1nat
        } else {
            0nat
        }
    }
}

/// The victims before plan `upto` are followed by those of that plan.
pub proof fn lemma_offset_step(all: Seq<PlanView>, upto: int)
    requires
        0 <= upto < all.len(),
    ensures
        offset(all, 0) == 0,
        offset(all, upto + 1) == offset(all, upto) + all[upto].victims.len(),
        offset(all, all.len() as int) == all_victims(all).len(),
{
    assert(all.take(upto + 1).drop_last() == all.take(upto));
    assert(all.take(all.len() as int) == all);
    assert(all.take(0).len() == 0);
}

/// The victim at place `at` of plan `of` stands in the run of all victims
/// behind those of the plans before.
pub proof fn lemma_victim_place(all: Seq<PlanView>, of: int, at: int)
    requires
        0 <= of < all.len(),
        0 <= at < all[of].victims.len(),
    ensures
        0 <= offset(all, of) + at < all_victims(all).len(),
        all_victims(all)[offset(all, of) + at] == all[of].victims[at],
    decreases all.len(),
{
    let head = all.drop_last();
    if of == all.len() - 1 {
        assert(all.take(of) == head);
    } else {
        lemma_victim_place(head, of, at);
        assert(all.take(of) == head.take(of));
    }
}

/// Where the next victim stands: in plan `plan` at place `victim`, if a plan
/// is left, and then it is the one at place `made` of the run of all
/// victims; behind the last victim if none is.
pub proof fn lemma_position(all: Seq<PlanView>, plan: int, victim: int, made: int)
    requires
        0 <= plan <= all.len(),
        plan < all.len() ==> 0 <= victim < all[plan].victims.len(),
        plan == all.len() ==> victim == 0,
        made == offset(all, plan) + victim,
    ensures
        0 <= made <= all_victims(all).len(),
        made < all_victims(all).len() <==> plan < all.len(),
        plan < all.len() ==> all_victims(all)[made] == all[plan].victims[victim],
{
    if plan < all.len() {
        lemma_victim_place(all, plan, victim);
    } else {
        assert(all.take(plan) == all);
    }
}

/// The answers to the requests for the victims of plan `of`, as far as they
/// were given: the part of `outcomes` behind the victims of the plans before,
/// as long as the plan has victims.
pub open spec fn outcomes_of(all: Seq<PlanView>, outcomes: Seq<DeleteOutcome>, of: int) -> Seq<
    DeleteOutcome,
> {
    let made = outcomes.len() as int;
    let from = if offset(all, of) <= made {
        offset(all, of)
    } else {
        made
    };
    let to = if offset(all, of + 1) <= made {
        offset(all, of + 1)
    } else {
        made
    };
    outcomes.subrange(from, to)
}

/// What was done to one group so far.
#[derive(Debug)]
pub struct GroupReport {
    pub group_key: String,
    /// The number of pods in the group.
    pub eligible: usize,
    /// The number of pods to delete.
    pub planned: usize,
    /// The answers to the requests made for the group, in their order.
    pub outcomes: Vec<DeleteOutcome>,
}

/// The counts of one cycle.
#[derive(Clone, Copy, Debug, PartialEq, Eq, Structural)]
pub struct CycleSummary {
    /// The number of groups that were attacked.
    pub attacked_groups: usize,
    /// The number of requests that were made.
    pub requested: usize,
    /// The number of requests that failed.
    pub failed: usize,
    /// The number of pods that were already gone.
    pub not_found: usize,
}

/// The run of deletions of one cycle. The victims are deleted one at a time,
/// in the order of `all_victims`; whatever the cluster answers to a request,
/// the next victim is the one that follows.
#[derive(Debug)]
pub struct AttackRun {
    all: Vec<AttackPlan>,
    /// The plan of the next victim, or the number of plans when none is left.
    plan: usize,
    /// The place of the next victim in its plan.
    victim: usize,
    outcomes: Vec<DeleteOutcome>,
}

impl AttackRun {
    #[verifier::type_invariant]
    spec fn holds(self) -> bool {
        &&& self.plan <= self.all.len()
        &&& self.plan < self.all.len() ==> self.victim < self.all[self.plan as int].victims.len()
        &&& self.plan == self.all.len() ==> self.victim == 0
        &&& self.outcomes.len() == offset(plan_views(self.all@), self.plan as int) + self.victim
    }

    /// The plans of the cycle.
    pub closed spec fn plans(&self) -> Seq<PlanView> {
        plan_views(self.all@)
    }

    /// The victims of the cycle, in the order in which they are deleted.
    pub open spec fn targets(&self) -> Seq<PodView> {
        all_victims(self.plans())
    }

    /// The answers to the requests made so far.
    pub closed spec fn outcomes(&self) -> Seq<DeleteOutcome> {
        self.outcomes@
    }

    /// The victim whose deletion is requested next, if one is left.
    pub open spec fn next(&self) -> Option<PodView> {
        if self.outcomes().len() < self.targets().len() {
            Some(self.targets()[self.outcomes().len() as int])
        } else {
            None
        }
    }

    /// Moves the position past the plans that have no victim left.
    fn settle(all: Vec<AttackPlan>, plan: usize, victim: usize, outcomes: Vec<DeleteOutcome>) -> (run:
        AttackRun)
        requires
            plan < all.len(),
            victim <= all[plan as int].victims.len(),
            outcomes.len() == offset(plan_views(all@), plan as int) + victim,
        ensures
            run.plans() == plan_views(all@),
            run.outcomes() == outcomes@,
            run.outcomes().len() <= run.targets().len(),
    {
        let mut plan = plan;
        let mut victim = victim;
        while plan < all.len() && victim >= all[plan].victims.len()
            invariant
                plan <= all.len(),
                plan < all.len() ==> victim <= all[plan as int].victims.len(),
                plan == all.len() ==> victim == 0,
                outcomes.len() == offset(plan_views(all@), plan as int) + victim,
            decreases all.len() - plan,
        {
            proof {
                lemma_offset_step(plan_views(all@), plan as int);
                assert(plan_views(all@)[plan as int] == all[plan as int]@);
            }
            plan += 1;
            victim = 0;
        }
        proof {
            let views = plan_views(all@);
            if plan < all.len() {
                assert(views[plan as int] == all[plan as int]@);
            }
            lemma_position(views, plan as int, victim as int, outcomes.len() as int);
        }
        AttackRun { all, plan, victim, outcomes }
    }

    /// The run of the deletions that `all` plans, before the first request.
    pub fn new(all: Vec<AttackPlan>) -> (run: AttackRun)
        ensures
            run.plans() == plan_views(all@),
            run.outcomes() == Seq::<DeleteOutcome>::empty(),
    {
        if all.len() == 0 {
            assert(plan_views(all@).take(0) == plan_views(all@));
            AttackRun { all, plan: 0, victim: 0, outcomes: Vec::new() }
        } else {
            assert(plan_views(all@).take(0).len() == 0);
            AttackRun::settle(all, 0, 0, Vec::new())
        }
    }

    /// The victim whose deletion is to be requested next, or none when all
    /// requests were made.
    pub fn next_target(&self) -> (target: Option<&Pod>)
        ensures
            match target {
                Some(pod) => self.next() == Some(pod@),
                None => self.next() is None,
            },
            self.outcomes().len() <= self.targets().len(),
    {
        proof {
            use_type_invariant(self);
            let views = plan_views(self.all@);
            if self.plan < self.all.len() {
                assert(views[self.plan as int] == self.all[self.plan as int]@);
            }
            lemma_position(views, self.plan as int, self.victim as int, self.outcomes.len() as int);
        }
        if self.plan < self.all.len() {
            Some(&self.all[self.plan].victims[self.victim])
        } else {
            None
        }
    }

    /// Whether all requests were made.
    pub fn is_done(&self) -> (done: bool)
        ensures
            done == self.next() is None,
    {
        self.next_target().is_none()
    }

    /// Takes the answer to the request for the next victim. Whatever the
    /// answer, the run goes on with the victim that follows. When no request
    /// was open, nothing changes.
    pub fn record(self, outcome: DeleteOutcome) -> (after: AttackRun)
        ensures
            after.plans() == self.plans(),
            after.outcomes() == if self.next() is Some {
                self.outcomes().push(outcome)
            } else {
                self.outcomes()
            },
            after.outcomes().len() <= after.targets().len(),
    {
        proof {
            use_type_invariant(&self);
            let views = plan_views(self.all@);
            if self.plan < self.all.len() {
                assert(views[self.plan as int] == self.all[self.plan as int]@);
            }
            lemma_position(views, self.plan as int, self.victim as int, self.outcomes.len() as int);
        }
        if self.plan >= self.all.len() {
            return self;
        }
        let AttackRun { all, plan, victim, mut outcomes } = self;
        outcomes.push(outcome);
        AttackRun::settle(all, plan, victim + 1, outcomes)
    }

    /// The plans of the cycle.
    pub fn attack_plans(&self) -> (all: &Vec<AttackPlan>)
        ensures
            plan_views(all@) == self.plans(),
    {
        &self.all
    }

    /// The answers to the requests made so far, in the order of the
    /// requests.
    pub fn answers(&self) -> (given: &Vec<DeleteOutcome>)
        ensures
            given@ == self.outcomes(),
    {
        &self.outcomes
    }

    /// What was done to each group so far, in the order of the plans.
    pub fn reports(&self) -> (made: Vec<GroupReport>)
        ensures
            made.len() == self.plans().len(),
            forall|i: int|
                0 <= i < made.len() ==> {
                    &&& (#[trigger] made[i]).group_key@ == self.plans()[i].group_key
                    &&& made[i].eligible == self.plans()[i].eligible
                    &&& made[i].planned == self.plans()[i].victims.len()
                    &&& made[i].outcomes@ == outcomes_of(self.plans(), self.outcomes(), i)
                },
    {
        let ghost views = plan_views(self.all@);
        let given = self.outcomes.len();
        let mut made: Vec<GroupReport> = Vec::new();
        let mut from: usize = 0;
        let mut i: usize = 0;
        assert(views.take(0).len() == 0);
        while i < self.all.len()
            invariant
                i <= self.all.len(),
                views == plan_views(self.all@),
                given == self.outcomes.len(),
                made.len() == i,
                from <= given,
                from == if offset(views, i as int) <= given {
                    offset(views, i as int)
                } else {
                    given as int
                },
                forall|k: int|
                    0 <= k < i ==> {
                        &&& (#[trigger] made[k]).group_key@ == views[k].group_key
                        &&& made[k].eligible == views[k].eligible
                        &&& made[k].planned == views[k].victims.len()
                        &&& made[k].outcomes@ == outcomes_of(views, self.outcomes@, k)
                    },
            decreases self.all.len() - i,
        {
            let plan = &self.all[i];
            proof {
                lemma_offset_step(views, i as int);
                assert(views[i as int] == plan@);
            }
            let planned = plan.victims.len();
            let to: usize = if planned <= given - from {
                from + planned
            } else {
                given
            };
            let mut outcomes: Vec<DeleteOutcome> = Vec::new();
            let mut j: usize = from;
            while j < to
                invariant
                    from <= j <= to <= given == self.outcomes.len(),
                    outcomes@ == self.outcomes@.subrange(from as int, j as int),
                decreases to - j,
            {
                outcomes.push(self.outcomes[j]);
                assert(outcomes@ == self.outcomes@.subrange(from as int, j + 1));
                j += 1;
            }
            made.push(
                GroupReport {
                    group_key: plan.group_key.clone(),
                    eligible: plan.eligible,
                    planned,
                    outcomes,
                },
            );
            from = to;
            i += 1;
        }
        made
    }

    /// The counts of the cycle so far.
    pub fn summary(&self) -> (counts: CycleSummary)
        ensures
            counts.attacked_groups == self.plans().len(),
            counts.requested == self.outcomes().len(),
            counts.failed == tally(self.outcomes(), DeleteOutcome::Failed),
            counts.not_found == tally(self.outcomes(), DeleteOutcome::NotFound),
    {
        CycleSummary {
            attacked_groups: self.all.len(),
            requested: self.outcomes.len(),
            failed: count_outcomes(&self.outcomes, DeleteOutcome::Failed),
            not_found: count_outcomes(&self.outcomes, DeleteOutcome::NotFound),
        }
    }
}

/// How often `kind` occurs among `outcomes`.
pub fn count_outcomes(outcomes: &Vec<DeleteOutcome>, kind: DeleteOutcome) -> (n: usize)
    ensures
        n == tally(outcomes@, kind),
        n <= outcomes.len(),
{
    let mut n: usize = 0;
    let mut i: usize = 0;
    while i < outcomes.len()
        invariant
            i <= outcomes.len(),
            n <= i,
            n == tally(outcomes@.take(i as int), kind),
        decreases outcomes.len() - i,
    {
        assert(outcomes@.take(i + 1).drop_last() == outcomes@.take(i as int));
        if outcomes[i] == kind {
            n += 1;
        }
        i += 1;
    }
    assert(outcomes@.take(i as int) == outcomes@);
    n
}

} // verus!
