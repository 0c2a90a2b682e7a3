//! What the comparison of two reports shows: severities, issues, decisions and reviews.

use vstd::prelude::*;
use vstd::string::*;

use crate::comparison::{
    blank, check_input_size, decision_error, decision_views, decisions_error, issue_key_like,
    snapshot_error, triage_error, DecisionView, Finding, ReviewStatus, Snapshot, TriageDocument,
};
use crate::comparison_entries::{
    comparison_is, decision_on, entries_of, entry_of, entry_views, how_many, increase, key_applied,
    needs_review, paired, reopened, unapplied, warnings_of, Comparison, EntryView, Pair,
};
use crate::comparison_issues::{
    canonical, graver, grouped, identity, issue_key, observation, observations, rank, IssueView,
};
use crate::text::{lowercase, trim};

verus! {

proof fn lemma_severity_names()
    ensures
        rank("critical"@) == Some(4nat),
        rank("high"@) == Some(3nat),
        rank("medium"@) == Some(2nat),
        rank("low"@) == Some(1nat),
        rank("info"@) == Some(0nat),
        rank("informational"@) == Some(0nat),
        rank("note"@) == Some(0nat),
        rank("unknown"@) is None,
{
    lemma_severity_letters();
}

proof fn lemma_severity_letters()
    ensures
        "critical"@.len() == 8 && "high"@.len() == 4 && "medium"@.len() == 6 && "low"@.len() == 3,
        "info"@.len() == 4 && "informational"@.len() == 13 && "note"@.len() == 4 && "unknown"@.len()
            == 7,
        "high"@[0] == 'h' && "info"@[0] == 'i' && "note"@[0] == 'n',
{
    reveal_strlit("critical");
    reveal_strlit("high");
    reveal_strlit("medium");
    reveal_strlit("low");
    reveal_strlit("info");
    reveal_strlit("informational");
    reveal_strlit("note");
    reveal_strlit("unknown");
}

/// The severities are ordered as their names say: each of the five is graver than the next,
/// two other names stand for the last, and nothing else has a rank.
pub proof fn severities_are_ordered(a: Seq<char>, b: Seq<char>)
    ensures
        a == "critical"@ && b == "high"@ ==> rank(a) is Some && rank(b) is Some && rank(a)->0
            > rank(b)->0,
        a == "high"@ && b == "medium"@ ==> rank(a) is Some && rank(b) is Some && rank(a)->0
            > rank(b)->0,
        a == "medium"@ && b == "low"@ ==> rank(a) is Some && rank(b) is Some && rank(a)->0 > rank(
            b,
        )->0,
        a == "low"@ && b == "info"@ ==> rank(a) is Some && rank(b) is Some && rank(a)->0 > rank(
            b,
        )->0,
        (a == "informational"@ || a == "note"@) && b == "info"@ ==> rank(a) == rank(b) && rank(
            a,
        ) is Some,
        rank(a) is Some ==> a == "critical"@ || a == "high"@ || a == "medium"@ || a == "low"@ || a
            == "info"@ || a == "informational"@ || a == "note"@,
        rank(a) is Some && rank(a) == rank(b) && a != b ==> rank(a) == rank("info"@),
{
    lemma_severity_names();
}

/// Naming a severity canonically keeps its rank, whatever its case and the white space
/// around it; each of the five names is its own canonical name; and what has no rank is
/// unknown.
pub proof fn canonical_severities_keep_their_rank(s: Seq<char>)
    ensures
        ({
            let n = lowercase(trim(s));
            &&& rank(n) is Some ==> rank(canonical(s)) == rank(n)
            &&& rank(n) is None ==> canonical(s) == "unknown"@ && rank(canonical(s)) is None
            &&& n == "critical"@ || n == "high"@ || n == "medium"@ || n == "low"@ || n == "info"@
                ==> canonical(s) == n
            &&& rank(n) == rank("info"@) ==> canonical(s) == "info"@
        }),
{
    lemma_severity_names();
}

/// The graver of two severities is one of them and no less grave than either; what is not
/// known makes the result unknown.
pub proof fn the_graver_severity_is_no_less_grave(a: Seq<char>, b: Seq<char>)
    ensures
        rank(a) is Some && rank(b) is Some ==> {
            &&& graver(a, b) == a || graver(a, b) == b
            &&& rank(graver(a, b)) is Some
            &&& rank(graver(a, b))->0 >= rank(a)->0
            &&& rank(graver(a, b))->0 >= rank(b)->0
        },
        rank(a) is None || rank(b) is None ==> rank(graver(a, b)) is None && graver(a, b)
            == "unknown"@,
{
    lemma_severity_names();
}

/// A finding is shown with its own severity, identifier, rule and class, and with the first
/// name of its target that it gives.
pub proof fn a_finding_is_observed_as_it_is(f: Finding, side: Seq<char>, run: Seq<char>)
    ensures
        ({
            let o = observation(f, side, run);
            &&& o.id == f.id@
            &&& rank(lowercase(trim(f.severity@))) is Some ==> rank(o.severity) == rank(
                lowercase(trim(f.severity@)),
            )
            &&& rank(lowercase(trim(f.severity@))) is None ==> o.severity == "unknown"@
            &&& f.rule_id matches Some(rule) ==> o.rule == rule@
            &&& f.rule_id is None ==> o.rule.len() == 0
            &&& f.classification matches Some(class) ==> o.class == class@
            &&& f.classification is None ==> o.class.len() == 0
            &&& f.target.qualified_name matches Some(name) ==> o.target == name@
            &&& f.target.qualified_name is None ==> (f.target.symbol matches Some(name)
                ==> o.target == name@)
            &&& f.target.qualified_name is None && f.target.symbol is None ==> (
            f.target.function matches Some(name) ==> o.target == name@)
            &&& f.target.qualified_name is None && f.target.symbol is None
                && f.target.function is None ==> (f.target.name matches Some(name) ==> o.target
                == name@)
            &&& f.target.qualified_name is None && f.target.symbol is None
                && f.target.function is None && f.target.name is None ==> (
            f.target.text matches Some(text) ==> o.target == text@)
        }),
{
    canonical_severities_keep_their_rank(f.severity@);
}

/// Whether a finding has a cluster key that carries over.
pub open spec fn clustered(f: Finding) -> bool {
    !f.cluster_fallback && f.cluster_key_full is Some && trim(f.cluster_key_full->0@).len() > 0
}

/// Whether a finding has a signature.
pub open spec fn signed(f: Finding) -> bool {
    f.signature is Some && trim(f.signature->0@).len() > 0
}

/// Findings of the same cluster, rule, class and target are one issue in whatever runs they
/// are found, and so are findings without a cluster but with the same signature. Their
/// severities and identifiers do not matter. A cluster key that is only a fallback counts
/// for nothing, and a finding with neither carries over to no run.
pub proof fn what_makes_findings_one_issue(
    f: Finding,
    g: Finding,
    side: Seq<char>,
    other_side: Seq<char>,
    run: Seq<char>,
    other_run: Seq<char>,
)
    ensures
        ({
            let a = observation(f, side, run);
            let b = observation(g, other_side, other_run);
            let alike = a.rule == b.rule && a.class == b.class && a.target == b.target;
            &&& clustered(f) && clustered(g) ==> (identity(a) == identity(b) <==> alike
                && f.cluster_key_full->0@ == g.cluster_key_full->0@)
            &&& !clustered(f) && !clustered(g) && signed(f) && signed(g) ==> (identity(a)
                == identity(b) <==> alike && f.signature->0@ == g.signature->0@)
            &&& clustered(f) && !clustered(g) ==> identity(a) != identity(b)
            &&& !clustered(f) && !clustered(g) && signed(f) && !signed(g) ==> identity(a)
                != identity(b)
            &&& identity(a) == identity(b) ==> issue_key(a) == issue_key(b)
            &&& a.kind == "unmatched"@ <==> !clustered(f) && !signed(f)
            &&& a.kind == "cluster"@ <==> clustered(f)
        }),
{
    let a = observation(f, side, run);
    let b = observation(g, other_side, other_run);
    reveal_strlit("cluster");
    reveal_strlit("signature");
    reveal_strlit("unmatched");
    assert("cluster"@.len() == 7 && "signature"@.len() == 9 && "unmatched"@.len() == 9);
    assert("signature"@[0] == 's' && "unmatched"@[0] == 'u');
    assert(identity(a)[0] == a.kind && identity(a)[1] == a.signal && identity(a)[2] == a.rule
        && identity(a)[3] == a.class && identity(a)[4] == a.target);
    assert(identity(b)[0] == b.kind && identity(b)[1] == b.signal && identity(b)[2] == b.rule
        && identity(b)[3] == b.class && identity(b)[4] == b.target);
    if a.kind == b.kind && a.signal == b.signal && a.rule == b.rule && a.class == b.class
        && a.target == b.target {
        assert(identity(a) =~= identity(b));
    }
}

/// What is decided of an issue is the first decision on its key; an issue that does not
/// carry over has none.
pub proof fn decisions_are_on_their_key(triage: Seq<DecisionView>, key: Seq<char>)
    ensures
        match decision_on(triage, key) {
            Some(d) => d.issue_key == key && triage.contains(d),
            None => forall|i: int|
                0 <= i < triage.len() ==> (#[trigger] triage[i]).issue_key != key,
        },
    decreases triage.len(),
{
    if triage.len() > 0 {
        let rest = triage.skip(1);
        decisions_are_on_their_key(rest, key);
        if triage[0].issue_key == key {
            assert(triage.contains(triage[0]));
        } else {
            match decision_on(rest, key) {
                Some(d) => {
                    let i = choose|i: int| 0 <= i < rest.len() && rest[i] == d;
                    assert(triage[i + 1] == d);
                },
                None => {
                    assert forall|i: int| 0 <= i < triage.len() implies (
                    #[trigger] triage[i]).issue_key != key by {
                        if i > 0 {
                            assert(triage[i] == rest[i - 1]);
                        }
                    }
                },
            }
        }
    }
}

/// An issue that became graver is shown as graver and needs a review, whatever was decided
/// of it; one whose severity did not grow is not shown as graver.
pub proof fn an_escalation_is_shown(
    before: IssueView,
    after: IssueView,
    triage: Seq<DecisionView>,
)
    ensures
        ({
            let e = entry_of((Some(before), Some(after)), triage);
            let known = rank(before.severity) is Some && rank(after.severity) is Some;
            &&& e.severity_increased == Some(true) <==> known && rank(after.severity)->0 > rank(
                before.severity,
            )->0
            &&& e.severity_increased == Some(false) <==> known && rank(after.severity)->0 <= rank(
                before.severity,
            )->0
            &&& e.severity_increased == Some(true) ==> e.review_needed
            &&& !known && before.severity != after.severity ==> e.review_needed
            &&& e.state == "persistent"@
            &&& e.issue_key == after.issue_key
            &&& e.baseline == Some(before) && e.current == Some(after)
        }),
        entry_of((None, Some(after)), triage).state == "new"@,
        entry_of((None, Some(after)), triage).current == Some(after),
        entry_of((None, Some(after)), triage).baseline is None,
        entry_of((None, Some(after)), triage).severity_increased is None,
        entry_of((Some(before), None), triage).state == "not_observed"@,
        entry_of((Some(before), None), triage).baseline == Some(before),
        entry_of((Some(before), None), triage).current is None,
        entry_of((Some(before), None), triage).severity_increased is None,
        entry_of((Some(before), None), triage).issue_key == before.issue_key,
        entry_of((None, Some(after)), triage).issue_key == after.issue_key,
{
}

/// A decision settles an issue for as long as it holds: an accepted risk and a false
/// positive need no review while the issue is no graver; an open issue or one under
/// investigation does, a fixed one that is observed is reopened, and so does one on which
/// nothing was decided.
pub proof fn a_decision_settles_an_issue(
    before: Option<IssueView>,
    after: IssueView,
    triage: Seq<DecisionView>,
)
    requires
        after.identity_kind != "unmatched"@,
    ensures
        ({
            let e = entry_of((before, Some(after)), triage);
            let grew = before is Some && (rank(before->0.severity) is Some && rank(
                after.severity,
            ) is Some && rank(after.severity)->0 > rank(before->0.severity)->0 || (rank(
                before->0.severity,
            ) is None || rank(after.severity) is None) && before->0.severity != after.severity);
            &&& e.decision == decision_on(triage, after.issue_key)
            &&& match decision_on(triage, after.issue_key) {
                None => e.review_needed && e.review_status == "unreviewed"@,
                Some(d) => match d.status {
                    ReviewStatus::Open => e.review_needed && e.review_status == "open"@,
                    ReviewStatus::Investigating => e.review_needed && e.review_status
                        == "investigating"@,
                    ReviewStatus::AcceptedRisk => (e.review_needed <==> grew) && e.review_status
                        == "accepted_risk"@,
                    ReviewStatus::FalsePositive => (e.review_needed <==> grew) && e.review_status
                        == "false_positive"@,
                    ReviewStatus::Fixed => e.review_needed && e.review_status == "reopened"@,
                },
            }
        }),
{
}

/// The counts are those of the entries.
pub proof fn the_counts_are_those_of_the_entries(
    c: Comparison,
    baseline: Snapshot,
    current: Snapshot,
    triage: Seq<DecisionView>,
)
    requires
        comparison_is(c, baseline, current, triage),
    ensures
        ({
            let all = entry_views(c.issues@);
            &&& c.counts.new == all.filter(
                |e: EntryView| e.baseline is None && e.current is Some,
            ).len()
            &&& c.counts.not_observed == all.filter(
                |e: EntryView| e.baseline is Some && e.current is None,
            ).len()
            &&& c.counts.persistent == all.filter(
                |e: EntryView| e.baseline is Some && e.current is Some,
            ).len()
            &&& c.counts.review_needed == all.filter(|e: EntryView| e.review_needed).len()
            &&& c.counts.severity_increased == all.filter(
                |e: EntryView| e.severity_increased == Some(true),
            ).len()
            &&& c.counts.reopened == all.filter(
                |e: EntryView|
                    e.current is Some && (e.decision matches Some(d) && d.status
                        == ReviewStatus::Fixed),
            ).len()
        }),
        c.baseline_run@ == baseline.run_id@,
        c.current_run@ == current.run_id@,
        forall|i: int|
            0 <= i < c.issues@.len() ==> {
                let e = (#[trigger] c.issues@[i])@;
                &&& e.current matches Some(issue) ==> grouped(
                    observations(current, "current"@),
                ).contains(issue)
                &&& e.baseline matches Some(issue) ==> grouped(
                    observations(baseline, "baseline"@),
                ).contains(issue)
            },
{
    let old = grouped(observations(baseline, "baseline"@));
    let new = grouped(observations(current, "current"@));
    let pairs = paired(old, new);
    let all = entry_views(c.issues@);
    lemma_count(
        pairs,
        triage,
        |p: Pair| p.0 is None && p.1 is Some,
        |e: EntryView| e.baseline is None && e.current is Some,
    );
    lemma_count(
        pairs,
        triage,
        |p: Pair| p.0 is Some && p.1 is None,
        |e: EntryView| e.baseline is Some && e.current is None,
    );
    lemma_count(
        pairs,
        triage,
        |p: Pair| p.0 is Some && p.1 is Some,
        |e: EntryView| e.baseline is Some && e.current is Some,
    );
    lemma_count(
        pairs,
        triage,
        |p: Pair| needs_review(p, triage),
        |e: EntryView| e.review_needed,
    );
    lemma_count(
        pairs,
        triage,
        |p: Pair| increase(p) == Some(true),
        |e: EntryView| e.severity_increased == Some(true),
    );
    lemma_count(
        pairs,
        triage,
        |p: Pair| reopened(p, triage),
        |e: EntryView|
            e.current is Some && (e.decision matches Some(d) && d.status == ReviewStatus::Fixed),
    );
    crate::comparison_issues::issues_are_in_order(observations(baseline, "baseline"@));
    crate::comparison_issues::issues_are_in_order(observations(current, "current"@));
    crate::comparison_entries::every_issue_is_compared(old, new);
    assert forall|i: int| 0 <= i < c.issues@.len() implies (#[trigger] c.issues@[i])@ == entry_of(
        pairs[i],
        triage,
    ) by {
        assert(all[i] == entries_of(pairs, triage)[i]);
    }
}

proof fn lemma_count(
    pairs: Seq<Pair>,
    triage: Seq<DecisionView>,
    p: spec_fn(Pair) -> bool,
    q: spec_fn(EntryView) -> bool,
)
    requires
        forall|i: int| 0 <= i < pairs.len() ==> (p(#[trigger] pairs[i]) <==> q(
            entry_of(pairs[i], triage),
        )),
    ensures
        how_many(pairs, p) == entries_of(pairs, triage).filter(q).len(),
    decreases pairs.len(),
{
    reveal(Seq::filter);
    if pairs.len() > 0 {
        let front = pairs.drop_last();
        assert forall|i: int| 0 <= i < front.len() implies (p(#[trigger] front[i]) <==> q(
            entry_of(front[i], triage),
        )) by {
            assert(front[i] == pairs[i]);
        }
        lemma_count(front, triage, p, q);
        assert(entries_of(pairs, triage).drop_last() =~= entries_of(front, triage));
        assert(pairs.last() == pairs[pairs.len() - 1]);
    }
}

/// A report can be compared if and only if it is of the known form, names its run, states
/// the number of its findings, has no more than a hundred thousand of them, and each has an
/// identifier of its own and a severity.
pub proof fn reports_that_can_be_compared(s: Snapshot)
    ensures
        snapshot_error(s) is None <==> {
            &&& s.schema_version@ == "bhf.report.v2"@
            &&& trim(s.run_id@).len() > 0
            &&& s.finding_count == s.findings@.len()
            &&& s.findings@.len() <= 100_000
            &&& forall|i: int|
                0 <= i < s.findings@.len() ==> trim((#[trigger] s.findings@[i]).id@).len() > 0
                    && trim(s.findings@[i].severity@).len() > 0
            &&& forall|i: int, j: int|
                0 <= i < j < s.findings@.len() ==> (#[trigger] s.findings@[i]).id@ != (
                #[trigger] s.findings@[j]).id@
        },
{
    let f = s.findings@;
    if exists|i: int| 0 <= i < f.len() && #[trigger] crate::comparison::bad_finding(f, i) {
        let i = choose|i: int| 0 <= i < f.len() && #[trigger] crate::comparison::bad_finding(f, i);
        if trim(f[i].id@).len() > 0 && trim(f[i].severity@).len() > 0 {
            let k = choose|k: int| 0 <= k < i && (#[trigger] f[k]).id@ == f[i].id@;
            assert(f[k].id@ == f[i].id@);
        }
    } else {
        assert forall|i: int| 0 <= i < f.len() implies trim((#[trigger] f[i]).id@).len() > 0 && trim(
            f[i].severity@,
        ).len() > 0 by {
            assert(!crate::comparison::bad_finding(f, i));
        }
        assert forall|i: int, j: int| 0 <= i < j < f.len() implies (#[trigger] f[i]).id@ != (
        #[trigger] f[j]).id@ by {
            assert(!crate::comparison::bad_finding(f, j));
        }
    }
}

/// Decisions are accepted if and only if they are of the known form and each names an issue,
/// an owner and a reason, no issue twice.
pub proof fn decisions_that_are_accepted(doc: TriageDocument)
    ensures
        triage_error(doc) is None <==> {
            let all = doc.decisions@;
            &&& doc.schema_version@ == "bhf.triage.v1"@
            &&& all.len() <= 100_000
            &&& forall|i: int|
                0 <= i < all.len() ==> issue_key_like((#[trigger] all[i]).issue_key@) && trim(
                    all[i].owner@,
                ).len() > 0 && trim(all[i].reason@).len() > 0
            &&& forall|i: int, j: int|
                0 <= i < j < all.len() ==> (#[trigger] all[i]).issue_key@ != (
                #[trigger] all[j]).issue_key@
        },
{
    let all = doc.decisions@;
    let views = decision_views(all);
    lemma_decisions_error(views, all.len());
    assert forall|i: int| 0 <= i < all.len() implies #[trigger] views[i] == all[i]@ by {}
    if decisions_error(views, all.len()) is None {
        assert forall|i: int| 0 <= i < all.len() implies issue_key_like(
            (#[trigger] all[i]).issue_key@,
        ) && trim(all[i].owner@).len() > 0 && trim(all[i].reason@).len() > 0 by {
            assert(decision_error(views, i) is None);
            assert(views[i] == all[i]@);
        }
        assert forall|i: int, j: int| 0 <= i < j < all.len() implies (#[trigger] all[i]).issue_key@
            != (#[trigger] all[j]).issue_key@ by {
            assert(decision_error(views, j) is None);
            assert(views[i] == all[i]@ && views[j] == all[j]@);
        }
    } else {
        let i = choose|i: int| 0 <= i < all.len() && #[trigger] decision_error(views, i) is Some;
        assert(views[i] == all[i]@);
        if issue_key_like(views[i].issue_key) && !blank(views[i].owner) && !blank(views[i].reason) {
            let k = choose|k: int|
                0 <= k < i && (#[trigger] views[k]).issue_key == views[i].issue_key;
            assert(views[k] == all[k]@);
            assert(all[k].issue_key@ == all[i].issue_key@);
        }
    }
}

proof fn lemma_decisions_error(decisions: Seq<DecisionView>, n: nat)
    requires
        n <= decisions.len(),
    ensures
        decisions_error(decisions, n) is None <==> forall|i: int|
            0 <= i < n ==> #[trigger] decision_error(decisions, i) is None,
    decreases n,
{
    if n > 0 {
        lemma_decisions_error(decisions, (n - 1) as nat);
        if decisions_error(decisions, (n - 1) as nat) is None {
            assert(decision_error(decisions, n - 1) == decisions_error(decisions, n));
        }
    }
}

/// The key of an issue is what a decision can name.
pub proof fn keys_are_sixty_four_digits(key: Seq<char>, prefix: Seq<char>, digits: Seq<char>)
    requires
        prefix == "bhf-issue-v1:"@,
        key == prefix + digits,
    ensures
        issue_key_like(key) <==> digits.len() == 64 && forall|i: int|
            0 <= i < digits.len() ==> ('0' <= #[trigger] digits[i] <= '9' || 'a' <= digits[i]
                <= 'f'),
{
    assert(key.subrange(0, prefix.len() as int) =~= prefix);
    assert(key.skip(prefix.len() as int) =~= digits);
}

/// An input of a comparison may have sixty-four mebibytes and no more.
pub proof fn inputs_have_a_bound(size: u64, r: Result<(), String>)
    requires
        call_ensures(check_input_size, (size,), r),
    ensures
        r is Ok <==> size <= 64 * 1024 * 1024,
{
}

/// A decision that applies to no issue that is shown is listed, and no other.
pub proof fn unapplied_decisions_are_listed(
    pairs: Seq<Pair>,
    triage: Seq<DecisionView>,
    n: nat,
    key: Seq<char>,
)
    requires
        n <= triage.len(),
    ensures
        unapplied(pairs, triage, n).contains(key) <==> (exists|i: int|
            0 <= i < n && (#[trigger] triage[i]).issue_key == key) && !key_applied(
            pairs,
            triage,
            key,
        ),
    decreases n,
{
    if n > 0 {
        let m = (n - 1) as nat;
        unapplied_decisions_are_listed(pairs, triage, m, key);
        let before = unapplied(pairs, triage, m);
        let last = triage[n - 1].issue_key;
        if !key_applied(pairs, triage, last) {
            let after = before.push(last);
            if after.contains(key) {
                let k = choose|k: int| 0 <= k < after.len() && after[k] == key;
                if k < before.len() {
                    assert(before[k] == key);
                    assert(before.contains(key));
                }
            }
            if before.contains(key) {
                let k = choose|k: int| 0 <= k < before.len() && before[k] == key;
                assert(after[k] == key);
            }
            if last == key {
                assert(after[before.len() as int] == key);
            }
        }
        if exists|i: int| 0 <= i < n && (#[trigger] triage[i]).issue_key == key {
            let i = choose|i: int| 0 <= i < n && (#[trigger] triage[i]).issue_key == key;
            if i < m {
                assert(triage[i].issue_key == key);
            }
        }
    }
}

/// The reader is warned that what is not observed need not be fixed, and where the reports
/// may be of different sources.
pub proof fn readers_are_warned(
    baseline: Snapshot,
    current: Snapshot,
    old: Seq<IssueView>,
    new: Seq<IssueView>,
)
    ensures
        ({
            let w = warnings_of(baseline, current, old, new);
            let same_roots = baseline.source_root is Some && current.source_root is Some
                && baseline.source_root->0@ == current.source_root->0@;
            let local = exists|i: int|
                (0 <= i < old.len() && (#[trigger] old[i]).identity_kind == "unmatched"@);
            let local_now = exists|i: int|
                (0 <= i < new.len() && (#[trigger] new[i]).identity_kind == "unmatched"@);
            &&& w.len() == 1 + (if same_roots {
                0int
            } else {
                1
            }) + (if local || local_now {
                1int
            } else {
                0
            })
            &&& w[0] == crate::comparison::NOTICE@
        }),
{
}

} // verus!
