use bhf::comparison::{
    accept_triage, check_input_size, check_snapshot, Decision, Finding, ReviewStatus, Snapshot,
    TargetValue, Triage, TriageDocument, MAX_BYTES,
};
use bhf::comparison_entries::compare;
use bhf::comparison_issues::{canonical_severity, group, nonempty, severity_rank, strongest};
use bhf::comparison_render::{escape, html, markdown, md};

fn target(qualified_name: &str) -> TargetValue {
    TargetValue {
        qualified_name: Some(qualified_name.to_owned()),
        symbol: None,
        function: None,
        name: None,
        text: None,
    }
}

fn finding(id: &str, key: &str, severity: &str) -> Finding {
    Finding {
        id: id.to_owned(),
        severity: severity.to_owned(),
        signature: None,
        cluster_key_full: Some(key.to_owned()),
        cluster_fallback: false,
        rule_id: Some("BHF-0001".to_owned()),
        classification: Some("memory_error".to_owned()),
        target: target("parse"),
    }
}

fn snapshot(run: &str, findings: Vec<Finding>) -> Snapshot {
    let snapshot = Snapshot {
        schema_version: "bhf.report.v2".to_owned(),
        run_id: run.to_owned(),
        source_root: Some("/src".to_owned()),
        finding_count: findings.len(),
        findings,
    };
    check_snapshot(&snapshot).unwrap();
    snapshot
}

fn a_decision(key: &str, status: ReviewStatus) -> Decision {
    Decision {
        issue_key: key.to_owned(),
        status,
        owner: "operator".to_owned(),
        reason: "ticket 42".to_owned(),
    }
}

fn decision(key: &str, status: ReviewStatus) -> Triage {
    let mut triage = Triage::new();
    assert!(triage.insert(a_decision(key, status)));
    triage
}

fn one() -> Snapshot {
    snapshot("first", vec![finding("f1", "stack-a", "high")])
}

fn first_key(snapshot: &Snapshot, side: &str) -> String {
    group(snapshot, side)[0].issue_key.clone()
}

#[test]
fn classifies_new_persistent_and_not_observed() {
    let a = snapshot("a", vec![finding("a1","same","high"),finding("a2","old","low")]);
    let b = snapshot("b", vec![finding("b1","same","high"),finding("b2","new","medium")]);
    let report=compare(&a,&b,&Triage::new());
    assert_eq!(report.counts.new, 1);
    assert_eq!(report.counts.persistent, 1);
    assert_eq!(report.counts.not_observed, 1);
    assert_eq!(report.counts.review_needed,2);
    assert!(report.notice.contains("not fixed"));
}

#[test]
fn cluster_matching_does_not_depend_on_run_or_finding_id() {
    let a=one(); let b=snapshot("b",vec![finding("different","stack-a","high")]);
    assert_eq!(compare(&a,&b,&Triage::new()).counts.persistent,1);
}

#[test]
fn collapses_members_and_keeps_all_ids_sorted() {
    let a=snapshot("a",vec![]);
    let b=snapshot("b",vec![finding("z","stack","low"),finding("a","stack","critical")]);
    let report=compare(&a,&b,&Triage::new());
    assert_eq!(report.issues.len(),1);
    let issue=report.issues[0].current.as_ref().unwrap();
    assert_eq!(issue.finding_ids,vec!["a","z"]); assert_eq!(issue.severity,"critical");
}

#[test]
fn signatures_match_when_full_cluster_unavailable() {
    let mut f=finding("a","","low"); f.signature=Some("stable signature".to_owned());
    let a=snapshot("a",vec![f.clone()]); f.id="b".to_owned();
    let report=compare(&a,&snapshot("b",vec![f]),&Triage::new());
    assert_eq!(report.counts.persistent,1);
    assert_eq!(report.issues[0].current.as_ref().unwrap().identity_kind,"signature");
}

#[test]
fn fallback_cluster_without_signature_never_matches_local_ids() {
    let mut f=finding("same-id","untrusted-fallback","low"); f.cluster_fallback=true;
    let a=snapshot("last",vec![f.clone()]); let b=snapshot("last",vec![f]);
    let report=compare(&a,&b,&Triage::new());
    assert_eq!(report.counts.persistent,0); assert_eq!(report.counts.new,1);
    assert!(report.warnings.iter().any(|s| s.contains("intentionally not matched")));
}

#[test]
fn rule_classification_and_target_partition_identity() {
    for field in ["rule_id", "classification", "target"] {
        let a = one();
        let mut f = finding("f2", "stack-a", "high");
        match field {
            "rule_id" => f.rule_id = Some("other".to_owned()),
            "classification" => f.classification = Some("other".to_owned()),
            _ => f.target = target("other"),
        }
        let report = compare(&a, &snapshot("b", vec![f]), &Triage::new());
        assert_eq!(report.counts.persistent, 0, "{field}");
    }
}

#[test]
fn tracks_severity_escalation_and_reopens_review() {
    let a=one(); let b=snapshot("b",vec![finding("f2","stack-a","critical")]);
    let key=first_key(&a, "baseline");
    let report=compare(&a,&b,&decision(&key,ReviewStatus::AcceptedRisk));
    assert_eq!(report.counts.severity_increased,1); assert!(report.issues[0].review_needed);
    assert_eq!(report.issues[0].review_status,"accepted_risk");
    assert_eq!(report.issues[0].decision.as_ref().unwrap().reason,"ticket 42");
}

#[test]
fn previously_fixed_but_observed_is_reopened_not_suppressed() {
    let a=one(); let key=first_key(&a, "baseline");
    let report=compare(&a,&a,&decision(&key,ReviewStatus::Fixed));
    assert_eq!(report.counts.reopened,1); assert_eq!(report.issues.len(),1);
    assert_eq!(report.issues[0].review_status,"reopened"); assert!(report.issues[0].review_needed);
}

#[test]
fn disappearance_never_changes_recorded_review_to_fixed() {
    let a=one(); let key=first_key(&a, "baseline");
    let report=compare(&a,&snapshot("b",vec![]),&decision(&key,ReviewStatus::Investigating));
    assert_eq!(report.issues[0].state,"not_observed");
    assert_eq!(report.issues[0].review_status,"investigating");
    assert!(!report.issues[0].review_needed);
}

#[test]
fn unchanged_review_is_carried_without_new_review_flag() {
    let a=one(); let key=first_key(&a, "baseline");
    let report=compare(&a,&a,&decision(&key,ReviewStatus::FalsePositive));
    assert!(!report.issues[0].review_needed); assert_eq!(report.issues[0].review_status,"false_positive");
}

#[test]
fn unknown_severity_change_is_not_claimed_improvement() {
    let a=one(); let key=first_key(&a, "baseline");
    let b=snapshot("b",vec![finding("f2","stack-a","custom")]);
    let report=compare(&a,&b,&decision(&key,ReviewStatus::AcceptedRisk));
    assert_eq!(report.issues[0].severity_increased,None); assert!(report.issues[0].review_needed);
}

#[test]
fn stale_triage_keys_are_explicit() {
    let a=one(); let key=format!("bhf-issue-v1:{}","a".repeat(64));
    let report=compare(&a,&a,&decision(&key,ReviewStatus::Open));
    assert_eq!(report.unmatched_triage_keys,vec![key]);
}

#[test]
fn ordering_is_independent_of_input_finding_order() {
    let a=one(); let f=vec![finding("b","b","low"),finding("a","a","high")];
    let mut reverse=f.clone(); reverse.reverse();
    assert_eq!(compare(&a,&snapshot("b",f),&Triage::new()),
        compare(&a,&snapshot("b",reverse),&Triage::new()));
}

#[test]
fn rejects_bad_schema_counts_duplicate_ids_and_empty_fields() {
    let valid = snapshot("a", vec![finding("f", "a", "high")]);
    let mut cases = vec![];
    let mut x = valid.clone();
    x.schema_version = "other".to_owned();
    cases.push(x);
    let mut x = valid.clone();
    x.finding_count = 2;
    cases.push(x);
    let mut x = valid.clone();
    x.findings[0].id = String::new();
    cases.push(x);
    let mut x = valid.clone();
    x.findings[0].severity = String::new();
    cases.push(x);
    let mut x = valid.clone();
    x.run_id = String::new();
    cases.push(x);
    let mut x = valid;
    x.findings = vec![finding("f", "a", "high"), finding("f", "b", "low")];
    x.finding_count = 2;
    cases.push(x);
    for x in cases {
        assert!(check_snapshot(&x).is_err());
    }
}

#[test]
fn triage_requires_valid_keys_owner_reason_unique_decisions_and_known_fields() {
    let key = first_key(&one(), "baseline");
    let good = a_decision(&key, ReviewStatus::Open);
    let mut cases = vec![vec![good.clone(), good.clone()]];
    for (field, value) in [("issue_key", "bad"), ("owner", " "), ("reason", "")] {
        let mut bad = good.clone();
        match field {
            "issue_key" => bad.issue_key = value.to_owned(),
            "owner" => bad.owner = value.to_owned(),
            _ => bad.reason = value.to_owned(),
        }
        cases.push(vec![bad]);
    }
    let document = |schema: &str, decisions: Vec<Decision>| TriageDocument {
        schema_version: schema.to_owned(),
        decisions,
    };
    for decisions in cases {
        assert!(accept_triage(document("bhf.triage.v1", decisions)).is_err());
    }
    assert!(accept_triage(document("other", vec![good.clone()])).is_err());
    let triage = match accept_triage(document("bhf.triage.v1", vec![good])) {
        Ok(triage) => triage,
        Err(error) => panic!("{error}"),
    };
    assert_eq!(triage.len(), 1);
    assert_eq!(triage.find(&key), Some(0));
    assert_eq!(triage.decision(0).owner, "operator");
    assert_eq!(triage.find("bad"), None);
}

#[test]
fn reports_differing_or_missing_source_roots() {
    let a=one();let mut b=one();b.source_root=None;
    assert!(compare(&a,&b,&Triage::new()).warnings.iter().any(|s|s.contains("Source roots")));
}

#[test]
fn html_escapes_untrusted_strings_and_loads_no_scripts() {
    let mut f=finding("<b>id</b>","a","high");f.target.qualified_name=None;f.target.text=Some("<script>alert(1)</script>".to_owned());
    let report=compare(&snapshot("old",vec![]),&snapshot("<img src=x>",vec![f]),&Triage::new());
    let rendered=html(&report);
    assert!(!rendered.contains("<script>"));assert!(!rendered.contains("<img src=x>"));
    assert!(rendered.contains("&lt;script&gt;"));assert!(rendered.contains("default-src 'none'"));
}

#[test]
fn markdown_escapes_table_delimiters_and_controls() {
    assert_eq!(md("a|b`\n<"),"a&#124;b&#96; &lt;");
}

#[test]
fn empty_comparisons_are_valid_and_have_zero_counts() {
    let a = snapshot("a", vec![]);
    let report = compare(&a, &a, &Triage::new());
    let counts = report.counts;
    assert_eq!(
        [
            counts.new,
            counts.not_observed,
            counts.persistent,
            counts.reopened,
            counts.review_needed,
            counts.severity_increased,
        ],
        [0; 6]
    );
    assert!(report.issues.is_empty());
}

#[test]
fn aliases_have_canonical_severity_and_order_independent_grouping() {
    let a=snapshot("a",vec![]);
    let f=vec![finding("a","same","INFO"),finding("b","same","informational")];
    let mut reverse=f.clone(); reverse.reverse();
    let first=compare(&a,&snapshot("b",f),&Triage::new());
    let second=compare(&a,&snapshot("b",reverse),&Triage::new());
    assert_eq!(first.issues[0].current.as_ref().unwrap().severity,"info");
    assert_eq!(first,second);
}

#[test]
fn local_counter_triage_cannot_reassure_a_different_last_run() {
    let mut f=finding("local-id","","low"); f.cluster_fallback=true;
    let a=snapshot("last",vec![f]);
    let key=first_key(&a, "current");
    let report=compare(&a,&a,&decision(&key,ReviewStatus::AcceptedRisk));
    let new=report.issues.iter().find(|i|i.state=="new").unwrap();
    assert_eq!(new.review_status,"unreviewed"); assert!(new.review_needed);
    assert_eq!(report.unmatched_triage_keys,vec![key]);
}

#[test]
fn open_or_investigating_current_issues_remain_in_work_queue() {
    let a=one();let key=first_key(&a, "baseline");
    for status in [ReviewStatus::Open,ReviewStatus::Investigating] {
        assert!(compare(&a,&a,&decision(&key,status)).issues[0].review_needed);
    }
}

#[test]
fn markdown_cannot_turn_target_text_into_remote_images() {
    assert_eq!(md("![remote](https://example.invalid/pixel)"),
        "&#33;&#91;remote&#93;(https://example.invalid/pixel)");
}

#[test]
fn severities_have_an_order_and_aliases() {
    assert_eq!(severity_rank("critical"), Some(4));
    assert_eq!(severity_rank(" CRITICAL "), None);
    assert_eq!(canonical_severity(" CRITICAL "), "critical");
    assert_eq!(strongest("high", "custom"), "unknown");
    assert!(severity_rank("critical") > severity_rank("high"));
    assert!(severity_rank("high") > severity_rank("medium"));
    assert!(severity_rank("medium") > severity_rank("low"));
    assert!(severity_rank("low") > severity_rank("info"));
    assert_eq!(severity_rank("custom"), None);
    assert_eq!(canonical_severity("Informational"), "info");
    assert_eq!(strongest("low", "high"), "high");
    assert_eq!(strongest("high", "low"), "high");
    assert_eq!(nonempty(&Some(" ".to_owned())), None);
    assert_eq!(nonempty(&Some("x".to_owned())), Some("x"));
    assert_eq!(nonempty(&None), None);
}

#[test]
fn an_issue_key_is_a_digest_of_its_identity() {
    let key = first_key(&one(), "baseline");
    assert!(key.starts_with("bhf-issue-v1:"), "{key}");
    assert_eq!(key.len(), "bhf-issue-v1:".len() + 64);
    assert_eq!(key, first_key(&one(), "current"));
    let mut other = one();
    other.findings[0].cluster_key_full = Some("stack-b".to_owned());
    assert_ne!(key, first_key(&other, "baseline"));
}

#[test]
fn every_view_shows_every_issue() {
    let a = snapshot("a", vec![finding("a1", "same", "high"), finding("a2", "old", "low")]);
    let b = snapshot("b", vec![finding("b1", "same", "high"), finding("b2", "new", "medium")]);
    let report = compare(&a, &b, &Triage::new());
    let text = markdown(&report);
    let page = html(&report);
    for entry in &report.issues {
        assert!(text.contains(&entry.issue_key), "{text}");
        assert!(page.contains(&entry.issue_key), "{page}");
    }
    assert!(page.starts_with("<!doctype html>"));
}

#[test]
fn text_is_escaped_for_a_page() {
    assert_eq!(escape("<a href=\"x\">&'"), "&lt;a href=&quot;x&quot;&gt;&amp;&#39;");
}

#[test]
fn large_inputs_are_refused() {
    assert_eq!(check_input_size(MAX_BYTES), Ok(()));
    assert_eq!(
        check_input_size(MAX_BYTES + 1),
        Err("comparison input exceeds 64 MiB".to_owned())
    );
}

#[test]
fn the_states_part_the_issues() {
    let a = snapshot("a", vec![finding("a1", "same", "high"), finding("a2", "old", "low")]);
    let b = snapshot("b", vec![finding("b1", "same", "low"), finding("b2", "new", "medium")]);
    let report = compare(&a, &b, &Triage::new());
    let counts = report.counts;
    assert_eq!(counts.new + counts.persistent + counts.not_observed, report.issues.len());
    for entry in &report.issues {
        match entry.state {
            "new" => assert!(entry.baseline.is_none() && entry.current.is_some()),
            "persistent" => assert!(entry.baseline.is_some() && entry.current.is_some()),
            "not_observed" => assert!(entry.baseline.is_some() && entry.current.is_none()),
            other => panic!("{other}"),
        }
    }
}

#[test]
fn each_finding_is_compared_once() {
    let a = snapshot("a", vec![finding("x", "same", "high"), finding("y", "old", "low")]);
    let b = snapshot(
        "b",
        vec![finding("z", "same", "low"), finding("x", "same", "high"), finding("y", "new", "low")],
    );
    let report = compare(&a, &b, &Triage::new());
    for id in ["x", "y"] {
        let holders = report
            .issues
            .iter()
            .filter_map(|entry| entry.baseline.as_ref())
            .flat_map(|issue| &issue.finding_ids)
            .filter(|held| held.as_str() == id)
            .count();
        assert_eq!(holders, 1, "{id}");
    }
    for id in ["x", "y", "z"] {
        let holders = report
            .issues
            .iter()
            .filter_map(|entry| entry.current.as_ref())
            .flat_map(|issue| &issue.finding_ids)
            .filter(|held| held.as_str() == id)
            .count();
        assert_eq!(holders, 1, "{id}");
    }
}

#[test]
fn reports_that_carry_over_can_be_compared_either_way_and_with_themselves() {
    let a = snapshot("a", vec![finding("a1", "same", "high"), finding("a2", "old", "low")]);
    let b = snapshot("b", vec![finding("b1", "same", "low"), finding("b2", "new", "medium")]);
    let there = compare(&a, &b, &Triage::new());
    let back = compare(&b, &a, &Triage::new());
    assert_eq!((there.counts.new, there.counts.not_observed, there.counts.persistent), (1, 1, 1));
    assert_eq!((back.counts.new, back.counts.not_observed, back.counts.persistent), (1, 1, 1));
    for (e, f) in there.issues.iter().zip(&back.issues) {
        assert_eq!(e.issue_key, f.issue_key);
        assert_eq!(e.baseline, f.current);
        assert_eq!(e.current, f.baseline);
    }
    let again = compare(&a, &a, &Triage::new());
    assert_eq!((again.counts.new, again.counts.not_observed, again.counts.persistent), (0, 0, 2));
    assert_eq!(again.counts.severity_increased, 0);
    assert!(again.issues.iter().all(|e| e.state == "persistent" && e.baseline == e.current));
}
