//! How many pods of a group are deleted, and which.

use crate::error::ConfigError;
use crate::grouping::{GroupView, KhaosGroup};
use crate::pod::{pod_views, Pod, PodView};
use crate::random::{is_permutation, Permutation, UnitFraction, SCALE};
use crate::text::text_eq;
use rand::rngs::StdRng;
use vstd::arithmetic::div_mod::{
    lemma_div_is_ordered,
    lemma_div_multiples_vanish,
    lemma_fundamental_div_mod,
    lemma_hoist_over_denominator,
};
use vstd::prelude::*;

verus! {

/// How the number of pods to delete follows from the size of a group.
#[derive(Clone, Copy, Debug, PartialEq, Eq, Structural)]
pub enum DeleteMode {
    /// Delete a fixed number of pods of each group.
    Fixed { number_of_pods: usize },
    /// Delete pods until a fixed number of each group is left.
    FixedLeft { number_of_pods_left_after_chaos: usize },
    /// Delete a percentage of each group, rounded down.
    Percentage { percentage_of_pods: usize },
}

/// The name of the mode `Fixed`.
pub const FIXED: &'static str = "fixed";

/// The name of the mode `FixedLeft`.
pub const FIXED_LEFT: &'static str = "fixed-left";

/// The name of the mode `Percentage`.
pub const PERCENTAGE: &'static str = "percentage";

impl DeleteMode {
    /// The mode of this name with this number, if the name is one of the
    /// three.
    pub open spec fn named(name: Seq<char>, number: usize) -> Option<DeleteMode> {
        if name == FIXED@ {
            Some(DeleteMode::Fixed { number_of_pods: number })
        } else if name == FIXED_LEFT@ {
            Some(DeleteMode::FixedLeft { number_of_pods_left_after_chaos: number })
        } else if name == PERCENTAGE@ {
            Some(DeleteMode::Percentage { percentage_of_pods: number })
        } else {
            None
        }
    }

    /// The mode of this name with this number. Fails if and only if the name
    /// is none of `fixed`, `fixed-left` and `percentage`.
    pub fn from_name(name: &str, number: usize) -> (mode: Result<DeleteMode, ConfigError>)
        ensures
            match mode {
                Ok(found) => DeleteMode::named(name@, number) == Some(found),
                Err(e) => DeleteMode::named(name@, number) is None && e == ConfigError::UnknownMode,
            },
    {
        if text_eq(name, FIXED) {
            Ok(DeleteMode::Fixed { number_of_pods: number })
        } else if text_eq(name, FIXED_LEFT) {
            Ok(DeleteMode::FixedLeft { number_of_pods_left_after_chaos: number })
        } else if text_eq(name, PERCENTAGE) {
            Ok(DeleteMode::Percentage { percentage_of_pods: number })
        } else {
            Err(ConfigError::UnknownMode)
        }
    }
}

/// The numerator of the number of pods to delete before rounding.
pub open spec fn raw_numerator(mode: DeleteMode, group_size: nat) -> int {
    match mode {
        DeleteMode::Fixed { number_of_pods } => number_of_pods as int,
        DeleteMode::FixedLeft { number_of_pods_left_after_chaos } => if group_size
            > number_of_pods_left_after_chaos {
            group_size - number_of_pods_left_after_chaos
        } else {
            0
        },
        DeleteMode::Percentage { percentage_of_pods } => group_size * percentage_of_pods,
    }
}

/// The denominator of the number of pods to delete before rounding.
pub open spec fn raw_denominator(mode: DeleteMode) -> int {
    match mode {
        DeleteMode::Percentage { .. } => 100,
        _ => 1,
    }
}

/// The smaller of two numbers.
pub open spec fn at_most(count: int, limit: int) -> int {
    if count <= limit {
        count
    } else {
        limit
    }
}

/// The number of pods to delete from a group of `group_size` pods. The exact
/// ratio `raw_numerator / raw_denominator` is multiplied by the drawn
/// fraction, if there is one, rounded down once, and capped at the size of
/// the group.
pub open spec fn victim_count(mode: DeleteMode, group_size: nat, draw: Option<UnitFraction>) -> int {
    match draw {
        None => at_most(
            raw_numerator(mode, group_size) / raw_denominator(mode),
            group_size as int,
        ),
        Some(fraction) => at_most(
            (raw_numerator(mode, group_size) * fraction.numerator()) / (raw_denominator(mode)
                * SCALE),
            group_size as int,
        ),
    }
}

/// Never more pods are deleted than the group has.
pub proof fn lemma_count_within_group(mode: DeleteMode, group_size: nat, draw: Option<UnitFraction>)
    ensures
        victim_count(mode, group_size, draw) <= group_size,
{
}

/// A fixed number is deleted as it stands, or the whole group if that is
/// smaller.
pub proof fn lemma_fixed_count(number_of_pods: usize, group_size: nat)
    ensures
        victim_count(DeleteMode::Fixed { number_of_pods }, group_size, None) == at_most(
            number_of_pods as int,
            group_size as int,
        ),
{
}

/// A percentage is taken of the size of the group and rounded down: none of
/// the group at 0, all of it at 100 and above.
pub proof fn lemma_percentage_count(percentage_of_pods: usize, group_size: nat)
    ensures
        victim_count(DeleteMode::Percentage { percentage_of_pods }, group_size, None) == at_most(
            (group_size * percentage_of_pods) / 100,
            group_size as int,
        ),
        percentage_of_pods <= 100 ==> victim_count(
            DeleteMode::Percentage { percentage_of_pods },
            group_size,
            None,
        ) == (group_size * percentage_of_pods) / 100,
        percentage_of_pods == 0 ==> victim_count(
            DeleteMode::Percentage { percentage_of_pods },
            group_size,
            None,
        ) == 0,
        percentage_of_pods >= 100 ==> victim_count(
            DeleteMode::Percentage { percentage_of_pods },
            group_size,
            None,
        ) == group_size,
{
    let n = group_size as int;
    let p = percentage_of_pods as int;
    if p <= 100 {
        assert(n * p <= n * 100) by (nonlinear_arith)
            requires
                0 <= n,
                0 <= p <= 100,
        ;
        lemma_div_is_ordered(n * p, n * 100, 100);
        lemma_div_multiples_vanish(n, 100);
        assert(n * 100 == 100 * n);
    }
    if p >= 100 {
        assert(n * p >= n * 100) by (nonlinear_arith)
            requires
                0 <= n,
                p >= 100,
        ;
        lemma_div_is_ordered(n * 100, n * p, 100);
        lemma_div_multiples_vanish(n, 100);
        assert(n * 100 == 100 * n);
    }
    if p == 0 {
        assert(n * p == 0) by (nonlinear_arith)
            requires
                p == 0,
        ;
    }
}

/// Where as many pods are to be left as the group has, or more, none is
/// deleted, with or without a drawn fraction.
pub proof fn lemma_fixed_left_count(
    number_of_pods_left_after_chaos: usize,
    group_size: nat,
    draw: Option<UnitFraction>,
)
    ensures
        victim_count(
            DeleteMode::FixedLeft { number_of_pods_left_after_chaos },
            group_size,
            None,
        ) == if group_size > number_of_pods_left_after_chaos {
            group_size - number_of_pods_left_after_chaos
        } else {
            0
        },
        number_of_pods_left_after_chaos >= group_size ==> victim_count(
            DeleteMode::FixedLeft { number_of_pods_left_after_chaos },
            group_size,
            draw,
        ) == 0,
{
    if number_of_pods_left_after_chaos >= group_size {
        if let Some(fraction) = draw {
            let a = fraction.numerator() as int;
            assert(0 * a == 0);
            assert(0int / (1 * SCALE) as int == 0);
        }
    }
}

/// A drawn fraction never raises the number of pods to delete.
pub proof fn lemma_draw_lowers_count(mode: DeleteMode, group_size: nat, fraction: UnitFraction)
    requires
        fraction.numerator() < SCALE,
    ensures
        victim_count(mode, group_size, Some(fraction)) <= victim_count(mode, group_size, None),
{
    let num = raw_numerator(mode, group_size) as int;
    let den = raw_denominator(mode) as int;
    let a = fraction.numerator() as int;
    let s = SCALE as int;
    lemma_scaled_is_below(num, den, a, s);
}

/// Scaling a ratio by a fraction below one, then rounding down, gives no
/// more than rounding the ratio down.
proof fn lemma_scaled_is_below(num: int, den: int, a: int, s: int)
    requires
        0 <= num,
        0 < den,
        0 <= a < s,
    ensures
        (num * a) / (den * s) <= num / den,
{
    let q = num / den;
    let r = num % den;
    lemma_fundamental_div_mod(num, den);
    // num * a <= num * s < (q + 1) * den * s
    assert(num * a <= num * s) by (nonlinear_arith)
        requires
            0 <= num,
            0 <= a < s,
    ;
    assert(0 < den * s) by (nonlinear_arith)
        requires
            0 < den,
            0 < s,
    ;
    assert(num * s == (den * s) * q + r * s) by (nonlinear_arith)
        requires
            num == den * q + r,
    ;
    assert(r * s < den * s) by (nonlinear_arith)
        requires
            0 <= r < den,
            0 < s,
    ;
    let d = den * s;
    lemma_div_is_ordered(num * a, num * s, d);
    lemma_hoist_over_denominator(r * s, q, d as nat);
    assert(q * d == d * q) by (nonlinear_arith);
    assert((r * s) / d == 0) by {
        vstd::arithmetic::div_mod::lemma_basic_div(r * s, d);
        assert(0 <= r * s) by (nonlinear_arith)
            requires
                0 <= r,
                0 < s,
        ;
    }
}

/// The number of pods to delete from a group of `group_size` pods.
pub fn count_victims(mode: DeleteMode, group_size: usize, draw: Option<UnitFraction>) -> (count:
    usize)
    ensures
        count == victim_count(mode, group_size as nat, draw),
        count <= group_size,
{
    let size: u128 = group_size as u128;
    let (num, den): (u128, u128) = match mode {
        DeleteMode::Fixed { number_of_pods } => (number_of_pods as u128, 1),
        DeleteMode::FixedLeft { number_of_pods_left_after_chaos } => if group_size
            > number_of_pods_left_after_chaos {
            ((group_size - number_of_pods_left_after_chaos) as u128, 1)
        } else {
            (0, 1)
        },
        DeleteMode::Percentage { percentage_of_pods } => {
            assert(group_size * percentage_of_pods <= u128::MAX) by (nonlinear_arith)
                requires
                    group_size <= 0xffff_ffff_ffff_ffff,
                    percentage_of_pods <= 0xffff_ffff_ffff_ffff,
            ;
            (size * (percentage_of_pods as u128), 100)
        },
    };
    assert(num == raw_numerator(mode, group_size as nat));
    assert(den == raw_denominator(mode));
    match draw {
        None => {
            let whole = num / den;
            if whole <= size {
                whole as usize
            } else {
                group_size
            }
        },
        Some(fraction) => {
            let a: u128 = fraction.get() as u128;
            let d: u128 = den * (SCALE as u128);
            let q = num / d;
            let r = num % d;
            proof {
                lemma_fundamental_div_mod(num as int, d as int);
                lemma_split_scaled(num as int, d as int, a as int);
            }
            if q >= size {
                proof {
                    if a > 0 {
                        lemma_scaled_fills(num as int, d as int, a as int, size as int);
                    } else {
                        assert(num * a == 0) by (nonlinear_arith)
                            requires
                                a == 0,
                        ;
                    }
                }
                if a == 0 {
                    0
                } else {
                    group_size
                }
            } else {
                assert(q * a <= 0xffff_ffff_ffff_ffff * 0x20_0000_0000_0000) by (nonlinear_arith)
                    requires
                        0 <= q <= 0xffff_ffff_ffff_ffff,
                        0 <= a <= 0x20_0000_0000_0000,
                ;
                assert(r * a <= (100 * 0x20_0000_0000_0000) * 0x20_0000_0000_0000)
                    by (nonlinear_arith)
                    requires
                        0 <= r <= 100 * 0x20_0000_0000_0000,
                        0 <= a <= 0x20_0000_0000_0000,
                ;
                let scaled = q * a + (r * a) / d;
                if scaled <= size {
                    scaled as usize
                } else {
                    group_size
                }
            }
        },
    }
}

/// With `num == d * q + r`, the scaled ratio splits into the scaled whole
/// part and the scaled rest.
proof fn lemma_split_scaled(num: int, d: int, a: int)
    requires
        0 <= num,
        0 < d,
        0 <= a,
    ensures
        (num * a) / d == (num / d) * a + ((num % d) * a) / d,
{
    let q = num / d;
    let r = num % d;
    lemma_fundamental_div_mod(num, d);
    assert(num * a == r * a + (q * a) * d) by (nonlinear_arith)
        requires
            num == d * q + r,
    ;
    lemma_hoist_over_denominator(r * a, q * a, d as nat);
}

/// A ratio of at least `size`, scaled by a whole number, stays at least
/// `size`.
proof fn lemma_scaled_fills(num: int, d: int, a: int, size: int)
    requires
        0 <= num,
        0 < d,
        1 <= a,
        0 <= size <= num / d,
    ensures
        size <= (num * a) / d,
{
    assert(num <= num * a) by (nonlinear_arith)
        requires
            0 <= num,
            1 <= a,
    ;
    lemma_div_is_ordered(num, num * a, d);
}

/// The pods at the first `count` places of `order`.
pub open spec fn chosen(pods: Seq<PodView>, order: Seq<usize>, count: int) -> Seq<PodView> {
    Seq::new(count as nat, |j: int| pods[order[j] as int])
}

/// The pods to delete from `pods`, given what was drawn.
pub open spec fn selection_of(
    mode: DeleteMode,
    pods: Seq<PodView>,
    draw: Option<UnitFraction>,
    order: Seq<usize>,
) -> Seq<PodView> {
    chosen(pods, order, victim_count(mode, pods.len(), draw))
}

/// Whether `victims` is a selection from `pods` that some draw gives: a
/// fraction if and only if the count is randomized, and an order that lists
/// each place of `pods` once, so that no pod is taken twice.
pub open spec fn selects(
    mode: DeleteMode,
    pods: Seq<PodView>,
    randomize: bool,
    victims: Seq<PodView>,
) -> bool {
    exists|draw: Option<UnitFraction>, order: Seq<usize>|
        {
            &&& #[trigger] selection_of(mode, pods, draw, order) == victims
            &&& draw is Some <==> randomize
            &&& draw matches Some(fraction) ==> fraction.numerator() < SCALE
            &&& is_permutation(order, pods.len())
        }
}

/// What is done to one group in one cycle.
#[derive(Debug)]
pub struct AttackPlan {
    pub group_key: String,
    /// The number of pods in the group.
    pub eligible: usize,
    /// The number of pods to delete.
    pub victim_count: usize,
    /// The pods to delete, in the order in which to delete them.
    pub victims: Vec<Pod>,
}

/// The model of a plan.
#[verifier::ext_equal]
pub struct PlanView {
    pub group_key: Seq<char>,
    pub eligible: nat,
    pub victim_count: nat,
    pub victims: Seq<PodView>,
}

impl View for AttackPlan {
    type V = PlanView;

    open spec fn view(&self) -> PlanView {
        PlanView {
            group_key: self.group_key@,
            eligible: self.eligible as nat,
            victim_count: self.victim_count as nat,
            victims: pod_views(self.victims@),
        }
    }
}

/// The plan for `group`, given what was drawn.
pub open spec fn planned(
    group: GroupView,
    mode: DeleteMode,
    draw: Option<UnitFraction>,
    order: Seq<usize>,
) -> PlanView {
    PlanView {
        group_key: group.key,
        eligible: group.pods.len(),
        victim_count: victim_count(mode, group.pods.len(), draw) as nat,
        victims: selection_of(mode, group.pods, draw, order),
    }
}

/// Whether `plan` is a plan for `group` that some draw gives.
pub open spec fn plans(group: GroupView, mode: DeleteMode, randomize: bool, plan: PlanView) -> bool {
    &&& plan.group_key == group.key
    &&& plan.eligible == group.pods.len()
    &&& plan.victim_count == plan.victims.len()
    &&& plan.victim_count <= victim_count(mode, group.pods.len(), None)
    &&& !randomize ==> plan.victim_count == victim_count(mode, group.pods.len(), None)
    &&& selects(mode, group.pods, randomize, plan.victims)
}

/// The pods of `pods` at the first `count` places of `order`, or nothing if
/// `order` is not an order of the places of `pods` or `count` is more than
/// there are pods.
pub fn pick_victims(pods: &Vec<Pod>, order: &Permutation, count: usize) -> (picked: Option<
    Vec<Pod>,
>)
    ensures
        picked is Some <==> order@.len() == pods.len() && count <= pods.len(),
        picked matches Some(victims) ==> pod_views(victims@) == chosen(
            pod_views(pods@),
            order@,
            count as int,
        ),
{
    if order.len() != pods.len() || count > pods.len() {
        return None;
    }
    let mut victims: Vec<Pod> = Vec::new();
    let mut j: usize = 0;
    while j < count
        invariant
            j <= count <= pods.len(),
            order@.len() == pods.len(),
            pod_views(victims@) == chosen(pod_views(pods@), order@, j as int),
        decreases count - j,
    {
        let ghost before = pod_views(victims@);
        if let Some(at) = order.get(j) {
            let copy = pods[at].clone();
            victims.push(copy);
            assert(pod_views(victims@) == before.push(copy@));
            assert(pod_views(pods@)[at as int] == pods[at as int]@);
        }
        j += 1;
    }
    Some(victims)
}

/// The pods to delete from `pods` when `draw` and `order` were drawn, or
/// nothing if `order` is not an order of the places of `pods`.
pub fn select_with(
    mode: DeleteMode,
    pods: &Vec<Pod>,
    draw: Option<UnitFraction>,
    order: &Permutation,
) -> (picked: Option<Vec<Pod>>)
    ensures
        picked is Some <==> order@.len() == pods.len(),
        picked matches Some(victims) ==> {
            &&& pod_views(victims@) == selection_of(mode, pod_views(pods@), draw, order@)
            &&& victims.len() == victim_count(mode, pods.len() as nat, draw)
        },
{
    let count = count_victims(mode, pods.len(), draw);
    let picked = pick_victims(pods, order, count);
    proof {
        if picked is Some {
            assert(pod_views(picked->0@).len() == picked->0.len());
        }
    }
    picked
}

/// Selects the pods to delete from `pods`: as many as the mode says, times a
/// drawn fraction if `randomize` is set, each pod at most once.
pub fn select_victims(mode: DeleteMode, pods: &Vec<Pod>, randomize: bool, rng: &mut StdRng) -> (victims:
    Vec<Pod>)
    ensures
        selects(mode, pod_views(pods@), randomize, pod_views(victims@)),
        victims.len() <= victim_count(mode, pods.len() as nat, None),
        !randomize ==> victims.len() == victim_count(mode, pods.len() as nat, None),
        victims.len() <= pods.len(),
{
    let draw = if randomize {
        Some(UnitFraction::draw24(rng))
    } else {
        None
    };
    let order = Permutation::shuffled(pods.len(), rng);
    proof {
        if let Some(fraction) = draw {
            lemma_draw_lowers_count(mode, pods.len() as nat, fraction);
        }
    }
    match select_with(mode, pods, draw, &order) {
        Some(victims) => {
            assert(selection_of(mode, pod_views(pods@), draw, order@) == pod_views(victims@));
            victims
        },
        None => Vec::new(),
    }
}

/// The plan for `group` when `draw` and `order` were drawn, or nothing if
/// `order` is not an order of the places of the group's pods.
pub fn plan_with(
    group: &KhaosGroup,
    mode: DeleteMode,
    draw: Option<UnitFraction>,
    order: &Permutation,
) -> (made: Option<AttackPlan>)
    ensures
        made is Some <==> order@.len() == group.pods.len(),
        made matches Some(plan) ==> plan@ == planned(group@, mode, draw, order@),
{
    match select_with(mode, &group.pods, draw, order) {
        Some(victims) => Some(
            AttackPlan {
                group_key: group.key.clone(),
                eligible: group.pods.len(),
                victim_count: victims.len(),
                victims,
            },
        ),
        None => None,
    }
}

/// Plans the attack on `group`.
pub fn plan_attack(group: &KhaosGroup, mode: DeleteMode, randomize: bool, rng: &mut StdRng) -> (plan:
    AttackPlan)
    ensures
        plans(group@, mode, randomize, plan@),
{
    let victims = select_victims(mode, &group.pods, randomize, rng);
    AttackPlan {
        group_key: group.key.clone(),
        eligible: group.pods.len(),
        victim_count: victims.len(),
        victims,
    }
}

} // verus!
