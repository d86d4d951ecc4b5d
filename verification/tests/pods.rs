use khaos_monkey::grouping::{
    derive_group_key, eligible, find_key_holding, get_grouped_pods, lives_in_target,
    pod_is_eligible, read_enabled_label, EnabledLabel, KhaosGroup,
};
use khaos_monkey::names::{parse_name_list, NameSet};
use khaos_monkey::pod::{Labels, Pod};
use khaos_monkey::text::{chars_of, contains_text, join_key_value, text_eq};

fn labels(pairs: &[(&str, &str)]) -> Labels {
    let mut made = Labels::new();
    for (key, value) in pairs {
        made.insert(key.to_string(), value.to_string());
    }
    made
}

fn pod(namespace: Option<&str>, name: &str, pairs: &[(&str, &str)]) -> Pod {
    Pod { namespace: namespace.map(|n| n.to_string()), name: name.to_string(), labels: labels(pairs) }
}

fn targets() -> NameSet {
    parse_name_list("default, web")
}

fn names(group: &KhaosGroup) -> Vec<String> {
    group.pods.iter().map(|p| p.name.clone()).collect()
}

#[test]
fn texts_are_compared_by_their_characters() {
    assert!(text_eq("", ""));
    assert!(text_eq("khaos-enabled", "khaos-enabled"));
    assert!(!text_eq("khaos-enabled", "khaos-enable"));
    assert!(!text_eq("khaos-enable", "khaos-enabled"));
    assert!(!text_eq("abc", "abd"));
    assert!(text_eq("ä€𝄞", "ä€𝄞"));
}

#[test]
fn a_part_is_found_anywhere_in_a_text() {
    let part = chars_of("pod-template-hash");
    assert!(contains_text(&chars_of("pod-template-hash"), &part));
    assert!(contains_text(&chars_of("x/pod-template-hash"), &part));
    assert!(contains_text(&chars_of("pod-template-hash.v2"), &part));
    assert!(!contains_text(&chars_of("pod-template-has"), &part));
    assert!(!contains_text(&chars_of("pod-template_hash"), &part));
    assert!(contains_text(&chars_of("abc"), &chars_of("")));
    assert!(contains_text(&chars_of(""), &chars_of("")));
    assert!(!contains_text(&chars_of(""), &chars_of("a")));
    assert!(contains_text(&chars_of("aab"), &chars_of("ab")));
}

#[test]
fn key_and_value_are_joined_by_an_equals_sign() {
    assert_eq!(join_key_value("job-name", "backup"), "job-name=backup");
    assert_eq!(join_key_value("", ""), "=");
}

#[test]
fn labels_are_a_mapping_in_order_of_insertion() {
    let mut made = labels(&[("b", "1"), ("a", "2")]);
    assert_eq!(made.len(), 2);
    assert_eq!(made.get("a").map(|v| v.as_str()), Some("2"));
    assert_eq!(made.get("b").map(|v| v.as_str()), Some("1"));
    assert!(made.get("c").is_none());
    assert!(made.contains_key("a"));
    assert!(!made.contains_key("A"));
    made.insert("b".to_string(), "3".to_string());
    assert_eq!(made.len(), 2);
    assert_eq!(made.get("b").map(|v| v.as_str()), Some("3"));
    assert_eq!(made.position("b"), Some(0));
    assert_eq!(made.position("a"), Some(1));
    assert_eq!(made.entry(0).map(|l| l.key.as_str()), Some("b"));
    assert_eq!(made.entry(1).map(|l| l.value.as_str()), Some("2"));
    assert!(made.entry(2).is_none());
    let copy = made.clone();
    assert_eq!(copy.len(), 2);
    assert_eq!(copy.get("b").map(|v| v.as_str()), Some("3"));
}

#[test]
fn the_enabling_label_is_read() {
    assert_eq!(read_enabled_label(&labels(&[])), EnabledLabel::Absent);
    assert_eq!(read_enabled_label(&labels(&[("app", "x")])), EnabledLabel::Absent);
    assert_eq!(read_enabled_label(&labels(&[("khaos-enabled", "false")])), EnabledLabel::OptOut);
    assert_eq!(read_enabled_label(&labels(&[("khaos-enabled", "true")])), EnabledLabel::OptIn);
    assert_eq!(read_enabled_label(&labels(&[("khaos-enabled", "yes")])), EnabledLabel::OptIn);
    assert_eq!(read_enabled_label(&labels(&[("khaos-enabled", "False")])), EnabledLabel::OptIn);
    assert_eq!(read_enabled_label(&labels(&[("khaos-enabled", "")])), EnabledLabel::OptIn);
}

#[test]
fn eligibility_follows_the_table() {
    assert!(!eligible(EnabledLabel::Absent, false));
    assert!(eligible(EnabledLabel::OptIn, false));
    assert!(eligible(EnabledLabel::Absent, true));
    assert!(eligible(EnabledLabel::OptIn, true));
    assert!(!eligible(EnabledLabel::OptOut, false));
    assert!(!eligible(EnabledLabel::OptOut, true));
}

#[test]
fn opted_out_pod_in_target_namespace_is_excluded() {
    let p = pod(Some("default"), "p", &[("khaos-enabled", "false"), ("khaos-group", "g")]);
    assert!(lives_in_target(&p, &targets()));
    assert!(!pod_is_eligible(&p, &targets()));
    let groups = get_grouped_pods(vec![p], &targets());
    assert!(groups.is_empty());
}

#[test]
fn opted_out_pod_is_excluded_whatever_the_namespace() {
    for namespace in [Some("default"), Some("elsewhere"), None] {
        let p = pod(namespace, "p", &[("khaos-enabled", "false"), ("job-name", "j")]);
        assert!(!pod_is_eligible(&p, &targets()));
    }
}

#[test]
fn opting_in_overrides_the_namespace() {
    let p = pod(Some("kube-system"), "p", &[("khaos-enabled", "true")]);
    assert!(!lives_in_target(&p, &targets()));
    assert!(pod_is_eligible(&p, &targets()));
    let q = pod(Some("kube-system"), "q", &[("khaos-enabled", "on")]);
    assert!(pod_is_eligible(&q, &targets()));
}

#[test]
fn other_labels_do_not_change_eligibility() {
    for enabled in [None, Some("true"), Some("false"), Some("maybe")] {
        for namespace in [Some("default"), Some("other"), None] {
            let mut plain: Vec<(&str, &str)> = Vec::new();
            let mut busy: Vec<(&str, &str)> = vec![("app", "x"), ("khaos-group", "g")];
            if let Some(value) = enabled {
                plain.push(("khaos-enabled", value));
                busy.push(("khaos-enabled", value));
            }
            busy.push(("job-name", "j"));
            let a = pod(namespace, "a", &plain);
            let b = pod(namespace, "b", &busy);
            assert_eq!(pod_is_eligible(&a, &targets()), pod_is_eligible(&b, &targets()));
        }
    }
}

#[test]
fn a_pod_without_namespace_is_in_no_target() {
    let p = pod(None, "p", &[]);
    assert_eq!(p.namespace_text(), "");
    assert!(!lives_in_target(&p, &targets()));
    assert!(!pod_is_eligible(&p, &targets()));
    let q = pod(None, "q", &[("khaos-enabled", "true")]);
    assert!(pod_is_eligible(&q, &targets()));
    let r = pod(Some(""), "r", &[]);
    assert!(!lives_in_target(&r, &targets()));
}

#[test]
fn the_group_label_decides_first() {
    let made = labels(&[
        ("job-name", "j"),
        ("pod-template-hash", "abc"),
        ("khaos-group", "mine"),
    ]);
    assert_eq!(derive_group_key(&made), Some("mine".to_string()));
}

#[test]
fn the_template_hash_decides_before_the_job() {
    let made = labels(&[("job-name", "j"), ("pod-template-hash", "5d4f8")]);
    assert_eq!(derive_group_key(&made), Some("pod-template-hash=5d4f8".to_string()));
}

#[test]
fn the_first_key_that_holds_the_hash_is_taken() {
    let made = labels(&[
        ("app", "x"),
        ("rollouts-pod-template-hash", "77"),
        ("pod-template-hash", "88"),
    ]);
    assert_eq!(find_key_holding(&made, "pod-template-hash"), Some(1));
    assert_eq!(derive_group_key(&made), Some("rollouts-pod-template-hash=77".to_string()));
    assert_eq!(find_key_holding(&made, "template-hash-x"), None);
}

#[test]
fn the_job_name_decides_last() {
    let made = labels(&[("app", "x"), ("job-name", "backup")]);
    assert_eq!(derive_group_key(&made), Some("job-name=backup".to_string()));
}

#[test]
fn labels_without_a_group_give_no_key() {
    assert_eq!(derive_group_key(&labels(&[])), None);
    assert_eq!(derive_group_key(&labels(&[("app", "x"), ("job", "y")])), None);
}

#[test]
fn pods_are_grouped_in_order_of_first_appearance() {
    let listing = vec![
        pod(Some("default"), "a1", &[("pod-template-hash", "a")]),
        pod(Some("default"), "b1", &[("khaos-group", "b")]),
        pod(Some("other"), "skipped", &[("khaos-group", "b")]),
        pod(Some("default"), "a2", &[("pod-template-hash", "a")]),
        pod(Some("web"), "j1", &[("job-name", "j")]),
        pod(Some("default"), "loose", &[("app", "x")]),
        pod(Some("other"), "b2", &[("khaos-group", "b"), ("khaos-enabled", "true")]),
        pod(Some("default"), "a3", &[("pod-template-hash", "a")]),
        pod(Some("default"), "out", &[("khaos-group", "b"), ("khaos-enabled", "false")]),
    ];
    let groups = get_grouped_pods(listing, &targets());
    let keys: Vec<&str> = groups.iter().map(|g| g.key.as_str()).collect();
    assert_eq!(keys, vec!["pod-template-hash=a", "b", "job-name=j"]);
    assert_eq!(names(&groups[0]), vec!["a3", "a2", "a1"]);
    assert_eq!(names(&groups[1]), vec!["b2", "b1"]);
    assert_eq!(names(&groups[2]), vec!["j1"]);
}

#[test]
fn a_pod_listed_twice_is_grouped_twice() {
    let listing = vec![
        pod(Some("default"), "same", &[("khaos-group", "g")]),
        pod(Some("default"), "same", &[("khaos-group", "g")]),
    ];
    let groups = get_grouped_pods(listing, &targets());
    assert_eq!(groups.len(), 1);
    assert_eq!(names(&groups[0]), vec!["same", "same"]);
}

#[test]
fn no_pods_give_no_groups() {
    assert!(get_grouped_pods(Vec::new(), &targets()).is_empty());
    let listing = vec![pod(Some("default"), "p", &[("khaos-group", "g")])];
    assert!(get_grouped_pods(listing, &NameSet::new()).is_empty());
}

#[test]
fn a_grouped_pod_keeps_what_it_held() {
    let listing = vec![pod(Some("web"), "p", &[("khaos-group", "g"), ("app", "x")])];
    let groups = get_grouped_pods(listing, &targets());
    let kept = &groups[0].pods[0];
    assert_eq!(kept.namespace.as_deref(), Some("web"));
    assert_eq!(kept.name, "p");
    assert_eq!(kept.labels.get("app").map(|v| v.as_str()), Some("x"));
    let copy = kept.clone();
    assert_eq!(copy.namespace.as_deref(), Some("web"));
    assert_eq!(copy.name, "p");
    assert_eq!(copy.labels.len(), 2);
}
