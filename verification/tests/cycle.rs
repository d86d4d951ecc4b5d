use khaos_monkey::cycle::{count_outcomes, num_attacks, plan_cycle, AttackRun, DeleteOutcome};
use khaos_monkey::grouping::KhaosGroup;
use khaos_monkey::pod::{Labels, Pod};
use khaos_monkey::selection::{AttackPlan, DeleteMode};
use rand::rngs::StdRng;
use rand::SeedableRng;

fn pods(prefix: &str, size: usize) -> Vec<Pod> {
    (0..size)
        .map(|i| Pod {
            namespace: Some("default".to_string()),
            name: format!("{}{}", prefix, i),
            labels: Labels::new(),
        })
        .collect()
}

fn groups(sizes: &[usize]) -> Vec<KhaosGroup> {
    sizes
        .iter()
        .enumerate()
        .map(|(i, &size)| KhaosGroup { key: format!("g{}", i), pods: pods(&format!("g{}-", i), size) })
        .collect()
}

fn plan(key: &str, victims: Vec<Pod>) -> AttackPlan {
    AttackPlan { group_key: key.to_string(), eligible: victims.len() + 1, victim_count: victims.len(), victims }
}

fn next_name(run: &AttackRun) -> Option<String> {
    run.next_target().map(|p| p.name.clone())
}

#[test]
fn a_negative_limit_attacks_every_group() {
    assert_eq!(num_attacks(-1, 5), 5);
    assert_eq!(num_attacks(-7, 5), 5);
    assert_eq!(num_attacks(i32::MIN, 0), 0);
}

#[test]
fn a_limit_caps_the_groups_attacked() {
    assert_eq!(num_attacks(0, 5), 0);
    assert_eq!(num_attacks(1, 5), 1);
    assert_eq!(num_attacks(5, 5), 5);
    assert_eq!(num_attacks(6, 5), 5);
    assert_eq!(num_attacks(i32::MAX, 3), 3);
    assert_eq!(num_attacks(1, 0), 0);
}

#[test]
fn the_first_groups_are_attacked_in_order() {
    let found = groups(&[3, 2, 4, 1]);
    let mode = DeleteMode::Fixed { number_of_pods: 2 };
    let mut rng = StdRng::seed_from_u64(4);
    let made = plan_cycle(&found, mode, 2, false, &mut rng);
    assert_eq!(made.len(), 2);
    assert_eq!(made[0].group_key, "g0");
    assert_eq!(made[1].group_key, "g1");
    assert_eq!(made[0].eligible, 3);
    assert_eq!(made[0].victim_count, 2);
    assert_eq!(made[1].victim_count, 2);
    for (plan, group) in made.iter().zip(found.iter()) {
        assert_eq!(plan.victims.len(), plan.victim_count);
        for victim in &plan.victims {
            assert!(group.pods.iter().any(|p| p.name == victim.name));
        }
    }
    let all = plan_cycle(&found, mode, -1, false, &mut rng);
    assert_eq!(all.len(), 4);
    assert_eq!(all[3].victim_count, 1);
    assert!(plan_cycle(&found, mode, 0, false, &mut rng).is_empty());
}

#[test]
fn an_empty_grouping_gives_an_empty_cycle() {
    let mut rng = StdRng::seed_from_u64(4);
    let made = plan_cycle(&Vec::new(), DeleteMode::Fixed { number_of_pods: 2 }, 1, true, &mut rng);
    assert!(made.is_empty());
    let run = AttackRun::new(made);
    assert!(run.is_done());
    assert!(run.next_target().is_none());
    let counts = run.summary();
    assert_eq!(counts.attacked_groups, 0);
    assert_eq!(counts.requested, 0);
    assert_eq!(counts.failed, 0);
    assert_eq!(counts.not_found, 0);
}

#[test]
fn victims_are_deleted_one_by_one_in_order() {
    let run = AttackRun::new(vec![
        plan("a", pods("a", 2)),
        plan("none", Vec::new()),
        plan("b", pods("b", 1)),
    ]);
    assert_eq!(next_name(&run), Some("a0".to_string()));
    assert_eq!(next_name(&run), Some("a0".to_string()));
    let run = run.record(DeleteOutcome::Deleted);
    assert_eq!(next_name(&run), Some("a1".to_string()));
    let run = run.record(DeleteOutcome::Deleting);
    assert_eq!(next_name(&run), Some("b0".to_string()));
    assert!(!run.is_done());
    let run = run.record(DeleteOutcome::Deleted);
    assert!(run.is_done());
    assert_eq!(next_name(&run), None);
    assert_eq!(run.answers().len(), 3);
    assert_eq!(run.attack_plans().len(), 3);
}

#[test]
fn a_failed_deletion_does_not_stop_the_cycle() {
    let run = AttackRun::new(vec![plan("a", pods("a", 2)), plan("b", pods("b", 2))]);
    let run = run.record(DeleteOutcome::Failed);
    assert_eq!(next_name(&run), Some("a1".to_string()));
    let run = run.record(DeleteOutcome::NotFound);
    assert_eq!(next_name(&run), Some("b0".to_string()));
    let run = run.record(DeleteOutcome::Failed);
    assert_eq!(next_name(&run), Some("b1".to_string()));
    let run = run.record(DeleteOutcome::Deleted);
    assert!(run.is_done());
    let counts = run.summary();
    assert_eq!(counts.attacked_groups, 2);
    assert_eq!(counts.requested, 4);
    assert_eq!(counts.failed, 2);
    assert_eq!(counts.not_found, 1);
    assert_eq!(
        run.answers(),
        &vec![
            DeleteOutcome::Failed,
            DeleteOutcome::NotFound,
            DeleteOutcome::Failed,
            DeleteOutcome::Deleted
        ]
    );
}

#[test]
fn an_answer_without_a_request_changes_nothing() {
    let run = AttackRun::new(vec![plan("a", pods("a", 1))]);
    let run = run.record(DeleteOutcome::Deleted);
    assert!(run.is_done());
    let run = run.record(DeleteOutcome::Failed);
    assert!(run.is_done());
    assert_eq!(run.answers(), &vec![DeleteOutcome::Deleted]);
    assert_eq!(run.summary().failed, 0);
}

#[test]
fn plans_without_victims_are_passed_over() {
    let run = AttackRun::new(vec![plan("x", Vec::new()), plan("y", Vec::new())]);
    assert!(run.is_done());
    assert_eq!(run.summary().attacked_groups, 2);
    let run = AttackRun::new(vec![plan("x", Vec::new()), plan("y", pods("y", 1))]);
    assert_eq!(next_name(&run), Some("y0".to_string()));
}

#[test]
fn a_pod_that_is_gone_is_no_failure() {
    assert_eq!(DeleteOutcome::from_status(404), DeleteOutcome::NotFound);
    assert_eq!(DeleteOutcome::from_status(403), DeleteOutcome::Failed);
    assert_eq!(DeleteOutcome::from_status(500), DeleteOutcome::Failed);
    assert_eq!(DeleteOutcome::from_status(0), DeleteOutcome::Failed);
    assert!(!DeleteOutcome::NotFound.failed());
    assert!(!DeleteOutcome::Deleted.failed());
    assert!(!DeleteOutcome::Deleting.failed());
    assert!(DeleteOutcome::Failed.failed());
}

#[test]
fn outcomes_are_counted_by_kind() {
    let given = vec![
        DeleteOutcome::Deleted,
        DeleteOutcome::Failed,
        DeleteOutcome::Deleted,
        DeleteOutcome::NotFound,
    ];
    assert_eq!(count_outcomes(&given, DeleteOutcome::Deleted), 2);
    assert_eq!(count_outcomes(&given, DeleteOutcome::Failed), 1);
    assert_eq!(count_outcomes(&given, DeleteOutcome::Deleting), 0);
    assert_eq!(count_outcomes(&Vec::new(), DeleteOutcome::Deleted), 0);
}

#[test]
fn each_group_is_reported_with_its_own_answers() {
    let run = AttackRun::new(vec![
        plan("a", pods("a", 2)),
        plan("none", Vec::new()),
        plan("b", pods("b", 2)),
    ]);
    let run = run.record(DeleteOutcome::Failed);
    let run = run.record(DeleteOutcome::Deleted);
    let run = run.record(DeleteOutcome::NotFound);
    let made = run.reports();
    assert_eq!(made.len(), 3);
    assert_eq!(made[0].group_key, "a");
    assert_eq!(made[0].eligible, 3);
    assert_eq!(made[0].planned, 2);
    assert_eq!(made[0].outcomes, vec![DeleteOutcome::Failed, DeleteOutcome::Deleted]);
    assert_eq!(made[1].group_key, "none");
    assert_eq!(made[1].planned, 0);
    assert!(made[1].outcomes.is_empty());
    assert_eq!(made[2].group_key, "b");
    assert_eq!(made[2].planned, 2);
    assert_eq!(made[2].outcomes, vec![DeleteOutcome::NotFound]);
    let run = run.record(DeleteOutcome::Deleting);
    assert_eq!(
        run.reports()[2].outcomes,
        vec![DeleteOutcome::NotFound, DeleteOutcome::Deleting]
    );
    assert!(AttackRun::new(Vec::new()).reports().is_empty());
}
