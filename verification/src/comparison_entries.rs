//! The comparison itself: the issues of two reports side by side, what was decided of
//! them, and which of them need a review.

use vstd::prelude::*;
use vstd::string::*;

use crate::comparison::{
    decision_keys, texts_rise, Decision, DecisionView, Finding, ReviewStatus, Snapshot, Triage,
    NOTICE,
};
use crate::comparison_issues::{
    distinct_keys, each_finding_has_one_issue, group, grouped,
    grouping_does_not_depend_on_the_order, has_one_issue, identity, ids_distinct, issue_key,
    issue_keys, issue_views, issues_are_in_order, observation, observations, only_holder, rank,
    severity_rank, texts_sorted, Issue, IssueView,
};
use crate::text::{
    chars_of, comes_before, lemma_precedes_total, lemma_precedes_transitive, precedes, same, texts,
};

verus! {

/// An issue of either report, or of both.
#[derive(Debug, Clone, PartialEq, Eq)]
pub struct Entry {
    pub issue_key: String,
    pub state: &'static str,
    /// Whether it became graver, where both severities are known.
    pub severity_increased: Option<bool>,
    pub review_needed: bool,
    pub review_status: String,
    pub decision: Option<Decision>,
    pub baseline: Option<Issue>,
    pub current: Option<Issue>,
}

/// The same, as texts.
#[verifier::ext_equal]
pub struct EntryView {
    pub issue_key: Seq<char>,
    pub state: Seq<char>,
    pub severity_increased: Option<bool>,
    pub review_needed: bool,
    pub review_status: Seq<char>,
    pub decision: Option<DecisionView>,
    pub baseline: Option<IssueView>,
    pub current: Option<IssueView>,
}

/// An optional issue, as texts.
pub open spec fn option_issue(issue: Option<Issue>) -> Option<IssueView> {
    match issue {
        Some(issue) => Some(issue@),
        None => None,
    }
}

/// An optional decision, as texts.
pub open spec fn option_decision(decision: Option<Decision>) -> Option<DecisionView> {
    match decision {
        Some(decision) => Some(decision@),
        None => None,
    }
}

impl View for Entry {
    type V = EntryView;

    open spec fn view(&self) -> EntryView {
        EntryView {
            issue_key: self.issue_key@,
            state: self.state@,
            severity_increased: self.severity_increased,
            review_needed: self.review_needed,
            review_status: self.review_status@,
            decision: option_decision(self.decision),
            baseline: option_issue(self.baseline),
            current: option_issue(self.current),
        }
    }
}

/// Entries as texts.
pub open spec fn entry_views(v: Seq<Entry>) -> Seq<EntryView> {
    Seq::new(v.len(), |i: int| v[i]@)
}

/// An issue before and after.
pub type Pair = (Option<IssueView>, Option<IssueView>);

/// The issues of two reports, each in the order of keys, side by side in that order.
pub open spec fn paired(old: Seq<IssueView>, new: Seq<IssueView>) -> Seq<Pair>
    decreases old.len() + new.len(),
{
    if old.len() == 0 && new.len() == 0 {
        Seq::empty()
    } else if old.len() == 0 {
        seq![(None, Some(new[0]))] + paired(old, new.skip(1))
    } else if new.len() == 0 {
        seq![(Some(old[0]), None)] + paired(old.skip(1), new)
    } else if old[0].issue_key == new[0].issue_key {
        seq![(Some(old[0]), Some(new[0]))] + paired(old.skip(1), new.skip(1))
    } else if precedes(old[0].issue_key, new[0].issue_key) {
        seq![(Some(old[0]), None)] + paired(old.skip(1), new)
    } else {
        seq![(None, Some(new[0]))] + paired(old, new.skip(1))
    }
}

/// The issue that a pair is about: the current one where there is one.
pub open spec fn shown(pair: Pair) -> IssueView {
    match pair.1 {
        Some(issue) => issue,
        None => pair.0->0,
    }
}

/// The decision of an issue, where there is one.
pub open spec fn decision_on(triage: Seq<DecisionView>, key: Seq<char>) -> Option<DecisionView>
    decreases triage.len(),
{
    if triage.len() == 0 {
        None
    } else if triage[0].issue_key == key {
        Some(triage[0])
    } else {
        decision_on(triage.skip(1), key)
    }
}

/// Whether an issue became graver, where both severities are known.
pub open spec fn increase(pair: Pair) -> Option<bool> {
    match pair {
        (Some(a), Some(b)) => match (rank(a.severity), rank(b.severity)) {
            (Some(x), Some(y)) => Some(y > x),
            _ => None,
        },
        _ => None,
    }
}

/// The decision that applies to a pair: none to an issue that does not carry over.
pub open spec fn applied(pair: Pair, triage: Seq<DecisionView>) -> Option<DecisionView> {
    if shown(pair).identity_kind != "unmatched"@ {
        decision_on(triage, shown(pair).issue_key)
    } else {
        None
    }
}

/// Whether an issue that was recorded as fixed was observed.
pub open spec fn reopened(pair: Pair, triage: Seq<DecisionView>) -> bool {
    pair.1 is Some && (applied(pair, triage) matches Some(d) && d.status == ReviewStatus::Fixed)
}

/// Whether an observed issue needs a review: it has no decision or an unfinished one, it
/// is reopened, it became graver, or its severity changed in a way that cannot be ranked.
pub open spec fn needs_review(pair: Pair, triage: Seq<DecisionView>) -> bool {
    pair.1 is Some && ({
        ||| applied(pair, triage) is None
        ||| (applied(pair, triage)->0).status == ReviewStatus::Open
        ||| (applied(pair, triage)->0).status == ReviewStatus::Investigating
        ||| reopened(pair, triage)
        ||| increase(pair) == Some(true)
        ||| (increase(pair) is None && pair.0 is Some && pair.0->0.severity != pair.1->0.severity)
    })
}

/// The entry for a pair.
pub open spec fn entry_of(pair: Pair, triage: Seq<DecisionView>) -> EntryView {
    EntryView {
        issue_key: shown(pair).issue_key,
        state: match pair {
            (None, Some(_)) => "new"@,
            (Some(_), None) => "not_observed"@,
            _ => "persistent"@,
        },
        severity_increased: increase(pair),
        review_needed: needs_review(pair, triage),
        review_status: if reopened(pair, triage) {
            "reopened"@
        } else {
            match applied(pair, triage) {
                Some(d) => d.status.word(),
                None => "unreviewed"@,
            }
        },
        decision: applied(pair, triage),
        baseline: pair.0,
        current: pair.1,
    }
}

/// The entries for pairs.
pub open spec fn entries_of(pairs: Seq<Pair>, triage: Seq<DecisionView>) -> Seq<EntryView> {
    Seq::new(pairs.len(), |i: int| entry_of(pairs[i], triage))
}

/// How many issues are in each state.
#[derive(Debug, Clone, Copy, PartialEq, Eq, Structural)]
pub struct ComparisonCounts {
    pub new: usize,
    pub not_observed: usize,
    pub persistent: usize,
    pub reopened: usize,
    pub review_needed: usize,
    pub severity_increased: usize,
}

/// How many pairs have a property.
pub open spec fn how_many(pairs: Seq<Pair>, p: spec_fn(Pair) -> bool) -> nat
    decreases pairs.len(),
{
    if pairs.len() == 0 {
        0
    } else {
        how_many(pairs.drop_last(), p) + if p(pairs.last()) {
            1nat
        } else {
            0nat
        }
    }
}

/// Whether `counts` are those of `pairs`.
pub open spec fn counts_are(
    counts: ComparisonCounts,
    pairs: Seq<Pair>,
    triage: Seq<DecisionView>,
) -> bool {
    &&& counts.new == how_many(pairs, |p: Pair| p.0 is None && p.1 is Some)
    &&& counts.not_observed == how_many(pairs, |p: Pair| p.0 is Some && p.1 is None)
    &&& counts.persistent == how_many(pairs, |p: Pair| p.0 is Some && p.1 is Some)
    &&& counts.reopened == how_many(pairs, |p: Pair| reopened(p, triage))
    &&& counts.review_needed == how_many(pairs, |p: Pair| needs_review(p, triage))
    &&& counts.severity_increased == how_many(pairs, |p: Pair| increase(p) == Some(true))
}

/// Every pair holds an issue of either report.
pub open spec fn pairs_inhabited(pairs: Seq<Pair>) -> bool {
    forall|i: int|
        0 <= i < pairs.len() ==> (#[trigger] pairs[i]).0 is Some || pairs[i].1 is Some
}

/// The comparison of two reports.
#[derive(Debug, Clone, PartialEq, Eq)]
pub struct Comparison {
    pub schema_version: &'static str,
    pub baseline_run: String,
    pub current_run: String,
    pub notice: &'static str,
    pub warnings: Vec<String>,
    pub counts: ComparisonCounts,
    pub unmatched_triage_keys: Vec<String>,
    pub issues: Vec<Entry>,
}

/// Every entry holds an issue of either report.
pub open spec fn entries_inhabited(c: Comparison) -> bool {
    forall|i: int|
        0 <= i < c.issues@.len() ==> (#[trigger] c.issues@[i]).current is Some
            || c.issues@[i].baseline is Some
}

/// Whether an issue that does not carry over is among `issues`.
pub open spec fn has_unmatched(issues: Seq<IssueView>) -> bool {
    exists|i: int| 0 <= i < issues.len() && (#[trigger] issues[i]).identity_kind == "unmatched"@
}

/// The text of an optional string.
pub open spec fn option_string(s: Option<String>) -> Option<Seq<char>> {
    match s {
        Some(s) => Some(s@),
        None => None,
    }
}

/// What the reader of a comparison is warned of.
pub open spec fn warnings_of(
    baseline: Snapshot,
    current: Snapshot,
    old: Seq<IssueView>,
    new: Seq<IssueView>,
) -> Seq<Seq<char>> {
    let roots = if option_string(baseline.source_root) != option_string(current.source_root)
        || baseline.source_root is None {
        seq![
            "Source roots differ or are unavailable; the operator must confirm project identity."@,
        ]
    } else {
        Seq::empty()
    };
    let unmatched = if has_unmatched(old) || has_unmatched(new) {
        seq![
            "Some findings have no full cluster key or signature and are intentionally not matched across runs; their run-local keys cannot carry triage decisions."@,
        ]
    } else {
        Seq::empty()
    };
    seq![NOTICE@] + roots + unmatched
}

/// Whether a decision on `key` applies to one of `pairs`.
pub open spec fn key_applied(pairs: Seq<Pair>, triage: Seq<DecisionView>, key: Seq<char>) -> bool {
    exists|i: int|
        0 <= i < pairs.len() && (applied(#[trigger] pairs[i], triage) matches Some(d) && d.issue_key
            == key)
}

/// The keys of the first `n` decisions that apply to nothing.
pub open spec fn unapplied(pairs: Seq<Pair>, triage: Seq<DecisionView>, n: nat) -> Seq<Seq<char>>
    decreases n,
{
    if n == 0 {
        Seq::empty()
    } else if key_applied(pairs, triage, triage[n - 1].issue_key) {
        unapplied(pairs, triage, (n - 1) as nat)
    } else {
        unapplied(pairs, triage, (n - 1) as nat).push(triage[n - 1].issue_key)
    }
}

/// Whether `c` compares these two reports under these decisions.
pub open spec fn comparison_is(
    c: Comparison,
    baseline: Snapshot,
    current: Snapshot,
    triage: Seq<DecisionView>,
) -> bool {
    let old = grouped(observations(baseline, "baseline"@));
    let new = grouped(observations(current, "current"@));
    let pairs = paired(old, new);
    &&& c.schema_version@ == "bhf.report.comparison.v1"@
    &&& c.baseline_run@ == baseline.run_id@
    &&& c.current_run@ == current.run_id@
    &&& c.notice@ == NOTICE@
    &&& texts(c.warnings@) == warnings_of(baseline, current, old, new)
    &&& counts_are(c.counts, pairs, triage)
    &&& texts(c.unmatched_triage_keys@) == unapplied(pairs, triage, triage.len())
    &&& entry_views(c.issues@) == entries_of(pairs, triage)
    &&& pairs_inhabited(pairs)
}

proof fn lemma_decision_on(triage: Seq<DecisionView>, key: Seq<char>, i: int)
    requires
        texts_rise(decision_keys(triage)),
        0 <= i < triage.len(),
        triage[i].issue_key == key,
    ensures
        decision_on(triage, key) == Some(triage[i]),
    decreases triage.len(),
{
    let keys = decision_keys(triage);
    if i > 0 {
        assert(precedes(keys[0], keys[i]));
        lemma_precedes_total(key, key);
        let rest = triage.skip(1);
        assert(decision_keys(rest) =~= keys.skip(1));
        assert forall|a: int, b: int| 0 <= a < b < rest.len() implies precedes(
            #[trigger] decision_keys(rest)[a],
            #[trigger] decision_keys(rest)[b],
        ) by {
            assert(decision_keys(rest)[a] == keys[a + 1] && decision_keys(rest)[b] == keys[b + 1]);
        }
        assert(rest[i - 1] == triage[i]);
        lemma_decision_on(rest, key, i - 1);
    }
}

proof fn lemma_decision_missing(triage: Seq<DecisionView>, key: Seq<char>)
    ensures
        decision_on(triage, key) is None <==> !decision_keys(triage).contains(key),
        decision_on(triage, key) matches Some(d) ==> d.issue_key == key,
    decreases triage.len(),
{
    let keys = decision_keys(triage);
    if triage.len() > 0 {
        let rest = triage.skip(1);
        lemma_decision_missing(rest, key);
        assert(decision_keys(rest) =~= keys.skip(1));
        assert(keys[0] == triage[0].issue_key);
        if decision_keys(rest).contains(key) {
            let i = choose|i: int| 0 <= i < rest.len() && decision_keys(rest)[i] == key;
            assert(keys[i + 1] == key);
        }
        if keys.contains(key) && keys[0] != key {
            let i = choose|i: int| 0 <= i < keys.len() && keys[i] == key;
            assert(decision_keys(rest)[i - 1] == key);
        }
    }
}

/// An optional issue that is borrowed, as texts.
pub open spec fn issue_ref(issue: Option<&Issue>) -> Option<IssueView> {
    match issue {
        Some(issue) => Some(issue@),
        None => None,
    }
}

fn copy_issue(issue: Option<&Issue>) -> (r: Option<Issue>)
    ensures
        option_issue(r) == issue_ref(issue),
{
    match issue {
        Some(issue) => Some(issue.clone()),
        None => None,
    }
}

fn rises(before: Option<&Issue>, after: Option<&Issue>) -> (r: Option<bool>)
    ensures
        r == increase((issue_ref(before), issue_ref(after))),
{
    match (before, after) {
        (Some(a), Some(b)) => {
            match (severity_rank(a.severity.as_str()), severity_rank(b.severity.as_str())) {
                (Some(x), Some(y)) => Some(y > x),
                _ => None,
            }
        },
        _ => None,
    }
}

/// The entry for an issue before and after, whether it is reopened, and the index of the
/// decision that applies.
fn compare_issue(before: Option<&Issue>, after: Option<&Issue>, triage: &Triage) -> (r: (
    Entry,
    bool,
    Option<usize>,
))
    requires
        triage.well_formed(),
        before is Some || after is Some,
    ensures
        r.0@ == entry_of((issue_ref(before), issue_ref(after)), triage@),
        r.1 == reopened((issue_ref(before), issue_ref(after)), triage@),
        match r.2 {
            Some(i) => i < triage@.len() && applied(
                (issue_ref(before), issue_ref(after)),
                triage@,
            ) == Some(triage@[i as int]),
            None => applied((issue_ref(before), issue_ref(after)), triage@) is None,
        },
{
    let ghost pair: Pair = (issue_ref(before), issue_ref(after));
    let issue: &Issue = match after {
        Some(issue) => issue,
        None => before.unwrap(),
    };
    let state: &'static str = match (before, after) {
        (None, Some(_)) => "new",
        (Some(_), None) => "not_observed",
        _ => "persistent",
    };
    let severity_increased = rises(before, after);
    let index: Option<usize> = if same(issue.identity_kind.as_str(), "unmatched") {
        None
    } else {
        triage.find(issue.issue_key.as_str())
    };
    proof {
        lemma_decision_missing(triage@, issue@.issue_key);
        if let Some(i) = index {
            lemma_decision_on(triage@, issue@.issue_key, i as int);
        }
    }
    let decision: Option<Decision> = match index {
        Some(i) => Some(triage.decision(i).clone()),
        None => None,
    };
    let is_observed = after.is_some();
    let changed = match (before, after) {
        (Some(a), Some(b)) => !same(a.severity.as_str(), b.severity.as_str()),
        _ => false,
    };
    let mut again = false;
    let mut unresolved = false;
    let mut review_status = "unreviewed".to_owned();
    if let Some(d) = &decision {
        review_status = d.status.as_word().to_owned();
        match d.status {
            ReviewStatus::Fixed => {
                if is_observed {
                    again = true;
                    review_status = "reopened".to_owned();
                }
            },
            ReviewStatus::Open | ReviewStatus::Investigating => {
                unresolved = true;
            },
            _ => {},
        }
    }
    let graver = match severity_increased {
        Some(up) => up,
        None => false,
    };
    let review_needed = is_observed && (decision.is_none() || unresolved || again || graver || (
    changed && severity_increased.is_none()));
    let entry = Entry {
        issue_key: issue.issue_key.clone(),
        state,
        severity_increased,
        review_needed,
        review_status,
        decision,
        baseline: copy_issue(before),
        current: copy_issue(after),
    };
    proof {
        assert(entry@ =~= entry_of(pair, triage@));
    }
    (entry, again, index)
}

/// Counts that are no larger than `n`.
pub open spec fn counts_within(c: ComparisonCounts, n: nat) -> bool {
    &&& c.new <= n
    &&& c.not_observed <= n
    &&& c.persistent <= n
    &&& c.reopened <= n
    &&& c.review_needed <= n
    &&& c.severity_increased <= n
}

fn count_entry(counts: &mut ComparisonCounts, entry: &Entry, again: bool, Ghost(pairs): Ghost<
    Seq<Pair>,
>, Ghost(pair): Ghost<Pair>, Ghost(triage): Ghost<Seq<DecisionView>>)
    requires
        counts_are(*old(counts), pairs, triage),
        counts_within(*old(counts), pairs.len()),
        pairs.len() < usize::MAX,
        pair.0 is Some || pair.1 is Some,
        entry@ == entry_of(pair, triage),
        again == reopened(pair, triage),
    ensures
        counts_are(*final(counts), pairs.push(pair), triage),
        counts_within(*final(counts), pairs.len() + 1),
{
    proof {
        assert(pairs.push(pair).drop_last() =~= pairs);
        assert(pairs.push(pair).last() == pair);
    }
    match (&entry.baseline, &entry.current) {
        (None, _) => {
            counts.new = counts.new + 1;
        },
        (Some(_), None) => {
            counts.not_observed = counts.not_observed + 1;
        },
        (Some(_), Some(_)) => {
            counts.persistent = counts.persistent + 1;
        },
    }
    if again {
        counts.reopened = counts.reopened + 1;
    }
    if entry.review_needed {
        counts.review_needed = counts.review_needed + 1;
    }
    if let Some(true) = entry.severity_increased {
        counts.severity_increased = counts.severity_increased + 1;
    }
}

fn any_unmatched(issues: &Vec<Issue>) -> (r: bool)
    ensures
        r == has_unmatched(issue_views(issues@)),
{
    let mut i: usize = 0;
    while i < issues.len()
        invariant
            i <= issues@.len(),
            forall|k: int|
                0 <= k < i ==> (#[trigger] issue_views(issues@)[k]).identity_kind != "unmatched"@,
        decreases issues@.len() - i,
    {
        proof {
            assert(issue_views(issues@)[i as int] == issues@[i as int]@);
        }
        if same(issues[i].identity_kind.as_str(), "unmatched") {
            return true;
        }
        i = i + 1;
    }
    false
}

fn same_option(a: &Option<String>, b: &Option<String>) -> (r: bool)
    ensures
        r == (option_string(*a) == option_string(*b)),
{
    match (a, b) {
        (Some(a), Some(b)) => same(a.as_str(), b.as_str()),
        (None, None) => true,
        _ => false,
    }
}

fn make_warnings(
    baseline: &Snapshot,
    current: &Snapshot,
    old: &Vec<Issue>,
    new: &Vec<Issue>,
) -> (r: Vec<String>)
    ensures
        texts(r@) == warnings_of(*baseline, *current, issue_views(old@), issue_views(new@)),
{
    let mut out: Vec<String> = Vec::new();
    out.push(NOTICE.to_owned());
    if !same_option(&baseline.source_root, &current.source_root) || baseline.source_root.is_none() {
        out.push(
            "Source roots differ or are unavailable; the operator must confirm project identity.".to_owned(),
        );
    }
    if any_unmatched(old) || any_unmatched(new) {
        out.push(
            "Some findings have no full cluster key or signature and are intentionally not matched across runs; their run-local keys cannot carry triage decisions.".to_owned(),
        );
    }
    proof {
        assert(texts(out@) =~= warnings_of(
            *baseline,
            *current,
            issue_views(old@),
            issue_views(new@),
        ));
    }
    out
}

fn unused_keys(flags: &Vec<bool>, triage: &Triage, Ghost(pairs): Ghost<Seq<Pair>>) -> (r: Vec<
    String,
>)
    requires
        flags@.len() == triage@.len(),
        forall|t: int|
            0 <= t < flags@.len() ==> #[trigger] flags@[t] == key_applied(
                pairs,
                triage@,
                triage@[t].issue_key,
            ),
    ensures
        texts(r@) == unapplied(pairs, triage@, triage@.len()),
{
    let mut out: Vec<String> = Vec::new();
    let mut i: usize = 0;
    proof {
        assert(texts(out@) =~= Seq::empty());
    }
    while i < flags.len()
        invariant
            i <= flags@.len() == triage@.len(),
            forall|t: int|
                0 <= t < flags@.len() ==> #[trigger] flags@[t] == key_applied(
                    pairs,
                    triage@,
                    triage@[t].issue_key,
                ),
            texts(out@) == unapplied(pairs, triage@, i as nat),
        decreases flags@.len() - i,
    {
        if !flags[i] {
            let key = triage.decision(i).issue_key.clone();
            proof {
                assert(texts(out@.push(key)) =~= texts(out@).push(key@));
            }
            out.push(key);
        }
        i = i + 1;
    }
    out
}

proof fn lemma_key_applied_push(
    pairs: Seq<Pair>,
    pair: Pair,
    triage: Seq<DecisionView>,
    key: Seq<char>,
)
    ensures
        key_applied(pairs.push(pair), triage, key) <==> (key_applied(pairs, triage, key) || (
        applied(pair, triage) matches Some(d) && d.issue_key == key)),
{
    let all = pairs.push(pair);
    if key_applied(pairs, triage, key) {
        let i = choose|i: int|
            0 <= i < pairs.len() && (applied(#[trigger] pairs[i], triage) matches Some(d)
                && d.issue_key == key);
        assert(all[i] == pairs[i]);
    }
    if applied(pair, triage) matches Some(d) && d.issue_key == key {
        assert(all[pairs.len() as int] == pair);
    }
    if key_applied(all, triage, key) {
        let i = choose|i: int|
            0 <= i < all.len() && (applied(#[trigger] all[i], triage) matches Some(d)
                && d.issue_key == key);
        if i < pairs.len() {
            assert(all[i] == pairs[i]);
        }
    }
}

/// Compares two reports under the decisions that were recorded.
#[verifier::rlimit(40)]
pub fn compare(baseline: &Snapshot, current: &Snapshot, triage: &Triage) -> (r: Comparison)
    requires
        triage.well_formed(),
    ensures
        comparison_is(r, *baseline, *current, triage@),
        entries_inhabited(r),
{
    let old = group(baseline, "baseline");
    let new = group(current, "current");
    let ghost olds = issue_views(old@);
    let ghost news = issue_views(new@);
    let ghost all = paired(olds, news);
    let ghost mut done: Seq<Pair> = Seq::empty();
    let mut entries: Vec<Entry> = Vec::new();
    let mut counts = ComparisonCounts {
        new: 0,
        not_observed: 0,
        persistent: 0,
        reopened: 0,
        review_needed: 0,
        severity_increased: 0,
    };
    let mut flags: Vec<bool> = Vec::new();
    let count: usize = triage.len();
    while flags.len() < count
        invariant
            flags@.len() <= count,
            forall|t: int| 0 <= t < flags@.len() ==> !#[trigger] flags@[t],
        decreases count - flags@.len(),
    {
        flags.push(false);
    }
    let mut i: usize = 0;
    let mut j: usize = 0;
    proof {
        assert(olds.skip(0) =~= olds);
        assert(news.skip(0) =~= news);
        assert(done + all =~= all);
        assert(entry_views(entries@) =~= entries_of(done, triage@));
    }
    while i < old.len() || j < new.len()
        invariant
            i <= old@.len(),
            j <= new@.len(),
            olds == issue_views(old@),
            news == issue_views(new@),
            all == paired(olds, news),
            triage.well_formed(),
            done + paired(olds.skip(i as int), news.skip(j as int)) == all,
            entry_views(entries@) == entries_of(done, triage@),
            entries@.len() == done.len(),
            pairs_inhabited(done),
            counts_are(counts, done, triage@),
            counts_within(counts, done.len()),
            flags@.len() == triage@.len(),
            forall|t: int|
                0 <= t < flags@.len() ==> #[trigger] flags@[t] == key_applied(
                    done,
                    triage@,
                    triage@[t].issue_key,
                ),
        decreases (old@.len() - i) + (new@.len() - j),
    {
        let ghost rest_old = olds.skip(i as int);
        let ghost rest_new = news.skip(j as int);
        proof {
            if i < old@.len() {
                assert(rest_old[0] == old@[i as int]@);
                assert(rest_old.skip(1) =~= olds.skip(i + 1));
            }
            if j < new@.len() {
                assert(rest_new[0] == new@[j as int]@);
                assert(rest_new.skip(1) =~= news.skip(j + 1));
            }
        }
        let mut take_old = false;
        let mut take_new = false;
        if i >= old.len() {
            take_new = true;
        } else if j >= new.len() {
            take_old = true;
        } else if same(old[i].issue_key.as_str(), new[j].issue_key.as_str()) {
            take_old = true;
            take_new = true;
        } else if comes_before(
            chars_of(old[i].issue_key.as_str()).as_slice(),
            chars_of(new[j].issue_key.as_str()).as_slice(),
        ) {
            take_old = true;
        } else {
            take_new = true;
        }
        let before: Option<&Issue> = if take_old {
            Some(&old[i])
        } else {
            None
        };
        let after: Option<&Issue> = if take_new {
            Some(&new[j])
        } else {
            None
        };
        let ghost pair: Pair = (issue_ref(before), issue_ref(after));
        let (entry, again, index) = compare_issue(before, after, triage);
        if take_old {
            i = i + 1;
        }
        if take_new {
            j = j + 1;
        }
        let ghost was = done;
        let ghost now = paired(olds.skip(i as int), news.skip(j as int));
        proof {
            assert(paired(rest_old, rest_new) =~= seq![pair] + now);
            done = was.push(pair);
            assert(done + now =~= was + (seq![pair] + now));
        }
        let ghost shown_entry = entry@;
        let ghost before_push = entry_views(entries@);
        entries.push(entry);
        let grown: usize = entries.len();
        count_entry(
            &mut counts,
            &entries[grown - 1],
            again,
            Ghost(was),
            Ghost(pair),
            Ghost(triage@),
        );
        proof {
            assert(entry_views(entries@) =~= before_push.push(shown_entry));
            assert(entries_of(done, triage@) =~= entries_of(was, triage@).push(
                entry_of(pair, triage@),
            ));
            assert forall|k: int| 0 <= k < done.len() implies (#[trigger] done[k]).0 is Some
                || done[k].1 is Some by {
                if k < was.len() {
                    assert(done[k] == was[k]);
                }
            }
        }
        let ghost old_flags = flags@;
        if let Some(t) = index {
            flags.set(t, true);
        }
        proof {
            assert forall|t: int| 0 <= t < flags@.len() implies #[trigger] flags@[t]
                == key_applied(done, triage@, triage@[t].issue_key) by {
                lemma_key_applied_push(was, pair, triage@, triage@[t].issue_key);
                if let Some(u) = index {
                    if t != u {
                        let keys = decision_keys(triage@);
                        assert(keys[t] == triage@[t].issue_key && keys[u as int]
                            == triage@[u as int].issue_key);
                        lemma_precedes_total(keys[t], keys[t]);
                        if t < u {
                            assert(precedes(keys[t], keys[u as int]));
                        } else {
                            assert(precedes(keys[u as int], keys[t]));
                        }
                    }
                }
            }
        }
    }
    proof {
        assert(olds.skip(i as int) =~= Seq::empty());
        assert(news.skip(j as int) =~= Seq::empty());
        assert(done =~= all);
    }
    proof {
        assert forall|k: int| 0 <= k < entries@.len() implies (#[trigger] entries@[k]).current is Some
            || entries@[k].baseline is Some by {
            assert(entry_views(entries@)[k] == entries@[k]@);
            assert(done[k].0 is Some || done[k].1 is Some);
        }
    }
    let warnings = make_warnings(baseline, current, &old, &new);
    let unmatched_triage_keys = unused_keys(&flags, triage, Ghost(done));
    Comparison {
        schema_version: "bhf.report.comparison.v1",
        baseline_run: baseline.run_id.clone(),
        current_run: current.run_id.clone(),
        notice: NOTICE,
        warnings,
        counts,
        unmatched_triage_keys,
        issues: entries,
    }
}

/// Pairs in the order of keys.
pub open spec fn pairs_rise(pairs: Seq<Pair>) -> bool {
    forall|i: int, j: int|
        0 <= i < j < pairs.len() ==> precedes(
            shown(#[trigger] pairs[i]).issue_key,
            shown(#[trigger] pairs[j]).issue_key,
        )
}

/// Whether an issue stands in a pair, before or after.
pub open spec fn holds_issue(pair: Pair, issue: IssueView, after: bool) -> bool {
    if after {
        pair.1 == Some(issue)
    } else {
        pair.0 == Some(issue)
    }
}

proof fn lemma_keys_tail(issues: Seq<IssueView>)
    requires
        texts_rise(issue_keys(issues)),
        issues.len() > 0,
    ensures
        texts_rise(issue_keys(issues.skip(1))),
        forall|i: int|
            0 <= i < issues.skip(1).len() ==> precedes(
                issues[0].issue_key,
                (#[trigger] issues.skip(1)[i]).issue_key,
            ),
{
    let keys = issue_keys(issues);
    let rest = issue_keys(issues.skip(1));
    assert forall|i: int, j: int| 0 <= i < j < rest.len() implies precedes(
        #[trigger] rest[i],
        #[trigger] rest[j],
    ) by {
        assert(rest[i] == keys[i + 1] && rest[j] == keys[j + 1]);
    }
    assert forall|i: int| 0 <= i < issues.skip(1).len() implies precedes(
        issues[0].issue_key,
        (#[trigger] issues.skip(1)[i]).issue_key,
    ) by {
        assert(keys[0] == issues[0].issue_key && keys[i + 1] == issues.skip(1)[i].issue_key);
    }
}

/// What every pair of two reports in order is made of.
proof fn lemma_paired(old: Seq<IssueView>, new: Seq<IssueView>)
    requires
        texts_rise(issue_keys(old)),
        texts_rise(issue_keys(new)),
    ensures
        pairs_rise(paired(old, new)),
        pairs_inhabited(paired(old, new)),
        forall|i: int|
            0 <= i < paired(old, new).len() ==> {
                let p = #[trigger] paired(old, new)[i];
                &&& p.0 matches Some(issue) ==> old.contains(issue)
                &&& p.1 matches Some(issue) ==> new.contains(issue)
                &&& p.0 is Some && p.1 is Some ==> p.0->0.issue_key == p.1->0.issue_key
            },
        forall|k: int|
            0 <= k < old.len() ==> exists|i: int|
                0 <= i < paired(old, new).len() && holds_issue(
                    #[trigger] paired(old, new)[i],
                    #[trigger] old[k],
                    false,
                ),
        forall|k: int|
            0 <= k < new.len() ==> exists|i: int|
                0 <= i < paired(old, new).len() && holds_issue(
                    #[trigger] paired(old, new)[i],
                    #[trigger] new[k],
                    true,
                ),
    decreases old.len() + new.len(),
{
    let all = paired(old, new);
    if old.len() + new.len() > 0 {
        let take_old = old.len() > 0 && (new.len() == 0 || old[0].issue_key == new[0].issue_key
            || precedes(old[0].issue_key, new[0].issue_key));
        let take_new = new.len() > 0 && (old.len() == 0 || old[0].issue_key == new[0].issue_key
            || !precedes(old[0].issue_key, new[0].issue_key));
        let next_old = if take_old {
            old.skip(1)
        } else {
            old
        };
        let next_new = if take_new {
            new.skip(1)
        } else {
            new
        };
        if old.len() > 0 {
            lemma_keys_tail(old);
        }
        if new.len() > 0 {
            lemma_keys_tail(new);
        }
        if old.len() > 0 && new.len() > 0 {
            lemma_precedes_total(old[0].issue_key, new[0].issue_key);
        }
        lemma_paired(next_old, next_new);
        let head: Pair = (
            if take_old {
                Some(old[0])
            } else {
                None
            },
            if take_new {
                Some(new[0])
            } else {
                None
            },
        );
        let rest = paired(next_old, next_new);
        assert(all =~= seq![head] + rest);
        let key = shown(head).issue_key;
        assert forall|i: int| 0 <= i < rest.len() implies precedes(
            key,
            shown(#[trigger] rest[i]).issue_key,
        ) by {
            let p = rest[i];
            if let Some(issue) = p.1 {
                let n = choose|n: int| 0 <= n < next_new.len() && next_new[n] == issue;
                if take_new {
                    assert(next_new[n] == new.skip(1)[n]);
                } else {
                    assert(new[n] == issue);
                    if n > 0 {
                        assert(new.skip(1)[n - 1] == issue);
                        lemma_precedes_transitive(key, new[0].issue_key, issue.issue_key);
                    }
                }
            } else {
                let issue = p.0->0;
                let n = choose|n: int| 0 <= n < next_old.len() && next_old[n] == issue;
                if take_old {
                    assert(next_old[n] == old.skip(1)[n]);
                } else {
                    assert(old[n] == issue);
                    if n > 0 {
                        assert(old.skip(1)[n - 1] == issue);
                        lemma_precedes_transitive(key, old[0].issue_key, issue.issue_key);
                    }
                }
            }
        }
        assert forall|i: int, j: int| 0 <= i < j < all.len() implies precedes(
            shown(#[trigger] all[i]).issue_key,
            shown(#[trigger] all[j]).issue_key,
        ) by {
            assert(all[j] == rest[j - 1]);
            if i > 0 {
                assert(all[i] == rest[i - 1]);
            }
        }
        assert forall|i: int| 0 <= i < all.len() implies ({
            let p = #[trigger] all[i];
            &&& p.0 is Some || p.1 is Some
            &&& p.0 matches Some(issue) ==> old.contains(issue)
            &&& p.1 matches Some(issue) ==> new.contains(issue)
            &&& p.0 is Some && p.1 is Some ==> p.0->0.issue_key == p.1->0.issue_key
        }) by {
            let p = all[i];
            if i == 0 {
                if take_old {
                    assert(old[0] == p.0->0);
                }
                if take_new {
                    assert(new[0] == p.1->0);
                }
            } else {
                assert(p == rest[i - 1]);
                if let Some(issue) = p.0 {
                    let n = choose|n: int| 0 <= n < next_old.len() && next_old[n] == issue;
                    assert(old[if take_old {
                        n + 1
                    } else {
                        n
                    }] == issue);
                }
                if let Some(issue) = p.1 {
                    let n = choose|n: int| 0 <= n < next_new.len() && next_new[n] == issue;
                    assert(new[if take_new {
                        n + 1
                    } else {
                        n
                    }] == issue);
                }
            }
        }
        assert forall|k: int| 0 <= k < old.len() implies exists|i: int|
            0 <= i < all.len() && holds_issue(#[trigger] all[i], #[trigger] old[k], false) by {
            if take_old && k == 0 {
                assert(holds_issue(all[0], old[k], false));
            } else {
                let n = if take_old {
                    k - 1
                } else {
                    k
                };
                assert(next_old[n] == old[k]);
                let i = choose|i: int|
                    0 <= i < rest.len() && holds_issue(#[trigger] rest[i], next_old[n], false);
                assert(holds_issue(all[i + 1], old[k], false));
            }
        }
        assert forall|k: int| 0 <= k < new.len() implies exists|i: int|
            0 <= i < all.len() && holds_issue(#[trigger] all[i], #[trigger] new[k], true) by {
            if take_new && k == 0 {
                assert(holds_issue(all[0], new[k], true));
            } else {
                let n = if take_new {
                    k - 1
                } else {
                    k
                };
                assert(next_new[n] == new[k]);
                let i = choose|i: int|
                    0 <= i < rest.len() && holds_issue(#[trigger] rest[i], next_new[n], true);
                assert(holds_issue(all[i + 1], new[k], true));
            }
        }
    }
}

/// Every issue of either report and no other stands in the comparison, each key once and in
/// order, and what stands side by side is the same issue.
pub proof fn every_issue_is_compared(old: Seq<IssueView>, new: Seq<IssueView>)
    requires
        texts_rise(issue_keys(old)),
        texts_rise(issue_keys(new)),
    ensures
        pairs_rise(paired(old, new)),
        forall|issue: IssueView|
            old.contains(issue) ==> exists|i: int|
                0 <= i < paired(old, new).len() && #[trigger] holds_issue(
                    paired(old, new)[i],
                    issue,
                    false,
                ),
        forall|issue: IssueView|
            new.contains(issue) ==> exists|i: int|
                0 <= i < paired(old, new).len() && #[trigger] holds_issue(
                    paired(old, new)[i],
                    issue,
                    true,
                ),
        forall|i: int|
            0 <= i < paired(old, new).len() ==> ((#[trigger] paired(old, new)[i]).0 is Some
                && paired(old, new)[i].1 is Some ==> paired(old, new)[i].0->0.issue_key
                == paired(old, new)[i].1->0.issue_key),
        forall|i: int|
            0 <= i < paired(old, new).len() ==> {
                &&& (#[trigger] paired(old, new)[i]).0 matches Some(issue) ==> old.contains(issue)
                &&& paired(old, new)[i].1 matches Some(issue) ==> new.contains(issue)
            },
{
    lemma_paired(old, new);
    assert forall|issue: IssueView| old.contains(issue) implies exists|i: int|
        0 <= i < paired(old, new).len() && #[trigger] holds_issue(
            paired(old, new)[i],
            issue,
            false,
        ) by {
        let k = choose|k: int| 0 <= k < old.len() && old[k] == issue;
        let i = choose|i: int|
            0 <= i < paired(old, new).len() && holds_issue(
                #[trigger] paired(old, new)[i],
                old[k],
                false,
            );
        assert(holds_issue(paired(old, new)[i], issue, false));
    }
    assert forall|issue: IssueView| new.contains(issue) implies exists|i: int|
        0 <= i < paired(old, new).len() && #[trigger] holds_issue(
            paired(old, new)[i],
            issue,
            true,
        ) by {
        let k = choose|k: int| 0 <= k < new.len() && new[k] == issue;
        let i = choose|i: int|
            0 <= i < paired(old, new).len() && holds_issue(
                #[trigger] paired(old, new)[i],
                new[k],
                true,
            );
        assert(holds_issue(paired(old, new)[i], issue, true));
    }
}

/// An issue that was not observed is never called fixed and never needs a review: what was
/// decided of it stands.
pub proof fn absence_is_not_a_fix(issue: IssueView, triage: Seq<DecisionView>)
    ensures
        ({
            let entry = entry_of((Some(issue), None), triage);
            &&& entry.state == "not_observed"@
            &&& !entry.review_needed
            &&& entry.review_status == match applied((Some(issue), None), triage) {
                Some(d) => d.status.word(),
                None => "unreviewed"@,
            }
        }),
{
}

/// An issue that was recorded as fixed and is observed again is reopened and needs a
/// review.
pub proof fn a_fixed_issue_that_returns_is_reopened(
    before: Option<IssueView>,
    after: IssueView,
    triage: Seq<DecisionView>,
)
    requires
        applied((before, Some(after)), triage) matches Some(d) && d.status == ReviewStatus::Fixed,
    ensures
        entry_of((before, Some(after)), triage).review_status == "reopened"@,
        entry_of((before, Some(after)), triage).review_needed,
{
}

/// An issue that does not carry over takes no decision, so that it needs a review wherever
/// it is observed.
pub proof fn run_local_issues_take_no_decision(
    before: Option<IssueView>,
    after: IssueView,
    triage: Seq<DecisionView>,
)
    requires
        after.identity_kind == "unmatched"@,
    ensures
        entry_of((before, Some(after)), triage).decision is None,
        entry_of((before, Some(after)), triage).review_needed,
        entry_of((before, Some(after)), triage).review_status == "unreviewed"@,
{
}

/// Findings that do not carry over are never of the same issue in the two reports, even
/// where the runs and the findings have the same names.
pub proof fn run_local_findings_are_never_matched(
    f: Finding,
    g: Finding,
    run: Seq<char>,
    later_run: Seq<char>,
)
    requires
        observation(f, "baseline"@, run).kind == "unmatched"@,
        observation(g, "current"@, later_run).kind == "unmatched"@,
    ensures
        identity(observation(f, "baseline"@, run)) != identity(
            observation(g, "current"@, later_run),
        ),
{
    reveal_strlit("baseline");
    reveal_strlit("current");
    reveal_strlit("cluster");
    reveal_strlit("signature");
    reveal_strlit("unmatched");
    let a = observation(f, "baseline"@, run);
    let b = observation(g, "current"@, later_run);
    assert("cluster"@.len() == 7 && "signature"@.len() == 9 && "unmatched"@.len() == 9);
    assert("signature"@[0] == 's' && "unmatched"@[0] == 'u');
    assert(a.signal[0] == 'b');
    assert(b.signal[0] == 'c');
    assert(identity(a)[1] == a.signal);
    assert(identity(b)[1] == b.signal);
}

/// The three states part the issues.
pub proof fn states_part_the_issues(pairs: Seq<Pair>)
    requires
        pairs_inhabited(pairs),
    ensures
        how_many(pairs, |p: Pair| p.0 is None && p.1 is Some) + how_many(
            pairs,
            |p: Pair| p.0 is Some && p.1 is None,
        ) + how_many(pairs, |p: Pair| p.0 is Some && p.1 is Some) == pairs.len(),
    decreases pairs.len(),
{
    if pairs.len() > 0 {
        let front = pairs.drop_last();
        assert forall|i: int| 0 <= i < front.len() implies (#[trigger] front[i]).0 is Some
            || front[i].1 is Some by {
            assert(front[i] == pairs[i]);
        }
        states_part_the_issues(front);
        assert(pairs.last() == pairs[pairs.len() - 1]);
    }
}

/// Whether an entry holds the finding, in its issue of the baseline or of the current report.
pub open spec fn entry_holds(e: EntryView, id: Seq<char>, after: bool) -> bool {
    if after {
        e.current matches Some(issue) && issue.finding_ids.contains(id)
    } else {
        e.baseline matches Some(issue) && issue.finding_ids.contains(id)
    }
}

/// Whether exactly one entry holds the finding.
pub open spec fn held_once(entries: Seq<EntryView>, id: Seq<char>, after: bool) -> bool {
    exists|k: int| #[trigger] only_entry(entries, k, id, after)
}

/// Whether the entry at `k` is the one that holds the finding.
pub open spec fn only_entry(entries: Seq<EntryView>, k: int, id: Seq<char>, after: bool) -> bool {
    &&& 0 <= k < entries.len()
    &&& entry_holds(entries[k], id, after)
    &&& forall|j: int|
        0 <= j < entries.len() && entry_holds(#[trigger] entries[j], id, after) ==> j == k
}

/// Whether no two findings of a report have the same identifier.
pub open spec fn findings_distinct(s: Snapshot) -> bool {
    forall|i: int, j: int|
        0 <= i < j < s.findings@.len() ==> (#[trigger] s.findings@[i]).id@ != (
        #[trigger] s.findings@[j]).id@
}

proof fn lemma_findings_distinct(s: Snapshot, side: Seq<char>)
    requires
        findings_distinct(s),
    ensures
        ids_distinct(observations(s, side)),
{
    let all = observations(s, side);
    assert forall|i: int, j: int| 0 <= i < j < all.len() implies (#[trigger] all[i]).id != (
    #[trigger] all[j]).id by {
        assert(all[i].id == s.findings@[i].id@ && all[j].id == s.findings@[j].id@);
    }
}

/// The one pair that holds a finding of one side.
proof fn lemma_held_once(
    old: Seq<IssueView>,
    new: Seq<IssueView>,
    triage: Seq<DecisionView>,
    at: int,
    id: Seq<char>,
    after: bool,
)
    requires
        texts_rise(issue_keys(old)),
        texts_rise(issue_keys(new)),
        only_holder(
            if after {
                new
            } else {
                old
            },
            at,
            id,
        ),
    ensures
        held_once(entries_of(paired(old, new), triage), id, after),
{
    let pairs = paired(old, new);
    let entries = entries_of(pairs, triage);
    let side = if after {
        new
    } else {
        old
    };
    lemma_paired(old, new);
    let issue = side[at];
    let k = choose|k: int|
        0 <= k < pairs.len() && holds_issue(#[trigger] pairs[k], side[at], after);
    assert(entries[k] == entry_of(pairs[k], triage));
    assert forall|j: int|
        0 <= j < entries.len() && entry_holds(#[trigger] entries[j], id, after) implies j == k by {
        let p = pairs[j];
        assert(entries[j] == entry_of(p, triage));
        let other = if after {
            p.1->0
        } else {
            p.0->0
        };
        assert(side.contains(other));
        let n = choose|n: int| 0 <= n < side.len() && side[n] == other;
        assert(side[n].finding_ids.contains(id));
        assert(n == at);
        assert(shown(pairs[j]).issue_key == shown(pairs[k]).issue_key);
        lemma_precedes_total(shown(pairs[j]).issue_key, shown(pairs[k]).issue_key);
        if j < k {
            assert(precedes(shown(pairs[j]).issue_key, shown(pairs[k]).issue_key));
        } else if k < j {
            assert(precedes(shown(pairs[k]).issue_key, shown(pairs[j]).issue_key));
        }
    }
    assert(only_entry(entries, k, id, after));
}

/// Where no two findings of a report have the same identifier, each finding of the baseline
/// stands in exactly one entry's issue of the baseline, each of the current report in
/// exactly one entry's current issue, and within an issue the findings are in order and
/// none stands twice.
pub proof fn each_finding_is_compared_once(
    c: Comparison,
    baseline: Snapshot,
    current: Snapshot,
    triage: Seq<DecisionView>,
)
    requires
        comparison_is(c, baseline, current, triage),
        findings_distinct(baseline),
        findings_distinct(current),
    ensures
        forall|i: int|
            0 <= i < baseline.findings@.len() ==> held_once(
                entry_views(c.issues@),
                (#[trigger] baseline.findings@[i]).id@,
                false,
            ),
        forall|i: int|
            0 <= i < current.findings@.len() ==> held_once(
                entry_views(c.issues@),
                (#[trigger] current.findings@[i]).id@,
                true,
            ),
        forall|k: int|
            0 <= k < c.issues@.len() ==> {
                let e = (#[trigger] c.issues@[k])@;
                &&& e.baseline matches Some(issue) ==> texts_sorted(issue.finding_ids)
                    && issue.finding_ids.no_duplicates()
                &&& e.current matches Some(issue) ==> texts_sorted(issue.finding_ids)
                    && issue.finding_ids.no_duplicates()
            },
{
    let before = observations(baseline, "baseline"@);
    let after = observations(current, "current"@);
    let old = grouped(before);
    let new = grouped(after);
    lemma_findings_distinct(baseline, "baseline"@);
    lemma_findings_distinct(current, "current"@);
    each_finding_has_one_issue(before);
    each_finding_has_one_issue(after);
    assert forall|i: int| 0 <= i < baseline.findings@.len() implies held_once(
        entry_views(c.issues@),
        (#[trigger] baseline.findings@[i]).id@,
        false,
    ) by {
        assert(has_one_issue(old, before[i]));
        let k = choose|k: int| #[trigger]
            only_holder(old, k, before[i].id) && old[k].issue_key == issue_key(before[i]);
        lemma_held_once(old, new, triage, k, before[i].id, false);
    }
    assert forall|i: int| 0 <= i < current.findings@.len() implies held_once(
        entry_views(c.issues@),
        (#[trigger] current.findings@[i]).id@,
        true,
    ) by {
        assert(has_one_issue(new, after[i]));
        let k = choose|k: int| #[trigger]
            only_holder(new, k, after[i].id) && new[k].issue_key == issue_key(after[i]);
        lemma_held_once(old, new, triage, k, after[i].id, true);
    }
    lemma_paired(old, new);
    assert forall|k: int| 0 <= k < c.issues@.len() implies {
        let e = (#[trigger] c.issues@[k])@;
        &&& e.baseline matches Some(issue) ==> texts_sorted(issue.finding_ids)
            && issue.finding_ids.no_duplicates()
        &&& e.current matches Some(issue) ==> texts_sorted(issue.finding_ids)
            && issue.finding_ids.no_duplicates()
    } by {
        let p = paired(old, new)[k];
        assert(entry_views(c.issues@)[k] == entry_of(p, triage));
        if let Some(issue) = p.0 {
            let n = choose|n: int| 0 <= n < old.len() && old[n] == issue;
        }
        if let Some(issue) = p.1 {
            let n = choose|n: int| 0 <= n < new.len() && new[n] == issue;
        }
    }
}

/// The entries of a comparison stand in the strict order of their keys. An issue is new if
/// and only if the baseline lacks it, not observed if and only if the current report does,
/// and persistent otherwise, and the counts of the three add up to the entries.
pub proof fn a_comparison_is_in_order(
    c: Comparison,
    baseline: Snapshot,
    current: Snapshot,
    triage: Seq<DecisionView>,
)
    requires
        comparison_is(c, baseline, current, triage),
    ensures
        forall|i: int, j: int|
            0 <= i < j < c.issues@.len() ==> precedes(
                (#[trigger] c.issues@[i]).issue_key@,
                (#[trigger] c.issues@[j]).issue_key@,
            ),
        forall|i: int|
            0 <= i < c.issues@.len() ==> {
                let e = (#[trigger] c.issues@[i])@;
                &&& e.state == "new"@ <==> e.baseline is None
                &&& e.state == "not_observed"@ <==> e.current is None
                &&& e.state == "persistent"@ <==> e.baseline is Some && e.current is Some
            },
        c.counts.new + c.counts.persistent + c.counts.not_observed == c.issues@.len(),
{
    let old = grouped(observations(baseline, "baseline"@));
    let new = grouped(observations(current, "current"@));
    let pairs = paired(old, new);
    issues_are_in_order(observations(baseline, "baseline"@));
    issues_are_in_order(observations(current, "current"@));
    lemma_paired(old, new);
    states_part_the_issues(pairs);
    assert(entry_views(c.issues@).len() == c.issues@.len());
    assert forall|i: int| 0 <= i < c.issues@.len() implies (#[trigger] c.issues@[i])@ == entry_of(
        pairs[i],
        triage,
    ) by {
        assert(entry_views(c.issues@)[i] == entries_of(pairs, triage)[i]);
    }
    reveal_strlit("new");
    reveal_strlit("not_observed");
    reveal_strlit("persistent");
    assert("new"@.len() == 3 && "not_observed"@.len() == 12 && "persistent"@.len() == 10);
}

/// A comparison does not depend on the order of the findings in either report, unless two
/// findings of different issues have the same digest.
pub proof fn a_comparison_does_not_depend_on_the_order(
    c: Comparison,
    baseline: Snapshot,
    current: Snapshot,
    d: Comparison,
    other_baseline: Snapshot,
    other_current: Snapshot,
    triage: Seq<DecisionView>,
)
    requires
        comparison_is(c, baseline, current, triage),
        comparison_is(d, other_baseline, other_current, triage),
        baseline.run_id@ == other_baseline.run_id@,
        current.run_id@ == other_current.run_id@,
        option_string(baseline.source_root) == option_string(other_baseline.source_root),
        option_string(current.source_root) == option_string(other_current.source_root),
        observations(baseline, "baseline"@).to_multiset() == observations(
            other_baseline,
            "baseline"@,
        ).to_multiset(),
        observations(current, "current"@).to_multiset() == observations(
            other_current,
            "current"@,
        ).to_multiset(),
        distinct_keys(observations(baseline, "baseline"@)),
        distinct_keys(observations(current, "current"@)),
    ensures
        c.schema_version@ == d.schema_version@,
        c.baseline_run@ == d.baseline_run@,
        c.current_run@ == d.current_run@,
        c.notice@ == d.notice@,
        texts(c.warnings@) == texts(d.warnings@),
        c.counts == d.counts,
        texts(c.unmatched_triage_keys@) == texts(d.unmatched_triage_keys@),
        entry_views(c.issues@) == entry_views(d.issues@),
{
    grouping_does_not_depend_on_the_order(
        observations(baseline, "baseline"@),
        observations(other_baseline, "baseline"@),
    );
    grouping_does_not_depend_on_the_order(
        observations(current, "current"@),
        observations(other_current, "current"@),
    );
}

/// Whether every finding of a report carries over to another run.
pub open spec fn carries_over(s: Snapshot) -> bool {
    forall|i: int|
        0 <= i < s.findings@.len() ==> observation(
            #[trigger] s.findings@[i],
            "baseline"@,
            s.run_id@,
        ).kind != "unmatched"@
}

/// What carries over is observed alike on either side.
proof fn lemma_carried_over(s: Snapshot, t: Snapshot)
    requires
        carries_over(s),
        s.findings@ == t.findings@,
    ensures
        observations(s, "baseline"@) == observations(t, "current"@),
        observations(s, "current"@) == observations(t, "baseline"@),
{
    reveal_strlit("cluster");
    reveal_strlit("signature");
    reveal_strlit("unmatched");
    assert forall|i: int| 0 <= i < s.findings@.len() implies observation(
        #[trigger] s.findings@[i],
        "baseline"@,
        s.run_id@,
    ) == observation(s.findings@[i], "current"@, t.run_id@) && observation(
        s.findings@[i],
        "current"@,
        s.run_id@,
    ) == observation(s.findings@[i], "baseline"@, t.run_id@) by {}
    assert(observations(s, "baseline"@) =~= observations(t, "current"@));
    assert(observations(s, "current"@) =~= observations(t, "baseline"@));
}

proof fn lemma_paired_with_itself(issues: Seq<IssueView>)
    ensures
        paired(issues, issues).len() == issues.len(),
        forall|i: int|
            0 <= i < issues.len() ==> #[trigger] paired(issues, issues)[i] == (
                Some(issues[i]),
                Some(issues[i]),
            ),
    decreases issues.len(),
{
    if issues.len() > 0 {
        let rest = issues.skip(1);
        let all = paired(issues, issues);
        lemma_paired_with_itself(rest);
        assert forall|i: int| 0 <= i < issues.len() implies #[trigger] all[i] == (
            Some(issues[i]),
            Some(issues[i]),
        ) by {
            if i > 0 {
                assert(all[i] == paired(rest, rest)[i - 1]);
                assert(rest[i - 1] == issues[i]);
            }
        }
    }
}

proof fn lemma_none_has(pairs: Seq<Pair>, p: spec_fn(Pair) -> bool)
    requires
        forall|i: int| 0 <= i < pairs.len() ==> !p(#[trigger] pairs[i]),
    ensures
        how_many(pairs, p) == 0,
    decreases pairs.len(),
{
    if pairs.len() > 0 {
        let front = pairs.drop_last();
        assert forall|i: int| 0 <= i < front.len() implies !p(#[trigger] front[i]) by {
            assert(front[i] == pairs[i]);
        }
        lemma_none_has(front, p);
        assert(pairs.last() == pairs[pairs.len() - 1]);
    }
}

/// Reports with the same findings, all of which carry over, differ in nothing: every issue
/// is persistent and as grave as it was.
pub proof fn the_same_findings_show_no_change(
    c: Comparison,
    baseline: Snapshot,
    current: Snapshot,
    triage: Seq<DecisionView>,
)
    requires
        comparison_is(c, baseline, current, triage),
        baseline.findings@ == current.findings@,
        carries_over(baseline),
    ensures
        c.counts.new == 0,
        c.counts.not_observed == 0,
        c.counts.severity_increased == 0,
        c.counts.persistent == c.issues@.len(),
        forall|i: int|
            0 <= i < c.issues@.len() ==> {
                let e = (#[trigger] c.issues@[i])@;
                e.state == "persistent"@ && e.current is Some && e.baseline == e.current
                    && e.severity_increased != Some(true)
            },
{
    let issues = grouped(observations(baseline, "baseline"@));
    let pairs = paired(issues, issues);
    lemma_carried_over(baseline, current);
    lemma_paired_with_itself(issues);
    assert forall|i: int| 0 <= i < pairs.len() implies (#[trigger] pairs[i]).0 == pairs[i].1
        && pairs[i].1 is Some by {
        assert(pairs[i] == (Some(issues[i]), Some(issues[i])));
    }
    lemma_none_has(pairs, |p: Pair| p.0 is None && p.1 is Some);
    lemma_none_has(pairs, |p: Pair| p.0 is Some && p.1 is None);
    lemma_none_has(pairs, |p: Pair| increase(p) == Some(true));
    states_part_the_issues(pairs);
    assert(entry_views(c.issues@).len() == c.issues@.len());
    assert forall|i: int| 0 <= i < c.issues@.len() implies (#[trigger] c.issues@[i])@ == entry_of(
        pairs[i],
        triage,
    ) by {
        assert(entry_views(c.issues@)[i] == entries_of(pairs, triage)[i]);
    }
}

proof fn lemma_paired_swapped(old: Seq<IssueView>, new: Seq<IssueView>)
    ensures
        paired(new, old).len() == paired(old, new).len(),
        forall|i: int|
            0 <= i < paired(old, new).len() ==> #[trigger] paired(new, old)[i] == (
                paired(old, new)[i].1,
                paired(old, new)[i].0,
            ),
    decreases old.len() + new.len(),
{
    if old.len() + new.len() > 0 {
        let there = paired(old, new);
        let back = paired(new, old);
        if old.len() > 0 && new.len() > 0 {
            lemma_precedes_total(old[0].issue_key, new[0].issue_key);
        }
        let take_old = old.len() > 0 && (new.len() == 0 || old[0].issue_key == new[0].issue_key
            || precedes(old[0].issue_key, new[0].issue_key));
        let take_new = new.len() > 0 && (old.len() == 0 || old[0].issue_key == new[0].issue_key
            || !precedes(old[0].issue_key, new[0].issue_key));
        let next_old = if take_old {
            old.skip(1)
        } else {
            old
        };
        let next_new = if take_new {
            new.skip(1)
        } else {
            new
        };
        lemma_paired_swapped(next_old, next_new);
        assert forall|i: int| 0 <= i < there.len() implies #[trigger] back[i] == (
            there[i].1,
            there[i].0,
        ) by {
            if i > 0 {
                assert(there[i] == paired(next_old, next_new)[i - 1]);
                assert(back[i] == paired(next_new, next_old)[i - 1]);
            }
        }
    }
}

proof fn lemma_as_many(a: Seq<Pair>, b: Seq<Pair>, p: spec_fn(Pair) -> bool, q: spec_fn(Pair) -> bool)
    requires
        a.len() == b.len(),
        forall|i: int| 0 <= i < a.len() ==> p(#[trigger] a[i]) == q(b[i]),
    ensures
        how_many(a, p) == how_many(b, q),
    decreases a.len(),
{
    if a.len() > 0 {
        let front = a.drop_last();
        assert forall|i: int| 0 <= i < front.len() implies p(#[trigger] front[i]) == q(
            b.drop_last()[i],
        ) by {
            assert(front[i] == a[i]);
        }
        lemma_as_many(front, b.drop_last(), p, q);
        assert(a.last() == a[a.len() - 1]);
    }
}

/// Where all findings of both reports carry over, comparing the reports the other way round
/// turns every entry round: what was new was then not observed, and the other way round.
pub proof fn the_reports_can_be_turned_round(
    c: Comparison,
    d: Comparison,
    baseline: Snapshot,
    current: Snapshot,
    triage: Seq<DecisionView>,
)
    requires
        comparison_is(c, baseline, current, triage),
        comparison_is(d, current, baseline, triage),
        carries_over(baseline),
        carries_over(current),
    ensures
        d.counts.new == c.counts.not_observed,
        d.counts.not_observed == c.counts.new,
        d.counts.persistent == c.counts.persistent,
        d.issues@.len() == c.issues@.len(),
        forall|i: int|
            0 <= i < c.issues@.len() ==> {
                let e = (#[trigger] c.issues@[i])@;
                let f = d.issues@[i]@;
                f.baseline == e.current && f.current == e.baseline && f.issue_key == e.issue_key
            },
{
    let old = grouped(observations(baseline, "baseline"@));
    let new = grouped(observations(current, "current"@));
    let there = paired(old, new);
    let back = paired(new, old);
    lemma_carried_over(baseline, baseline);
    lemma_carried_over(current, current);
    issues_are_in_order(observations(baseline, "baseline"@));
    issues_are_in_order(observations(current, "current"@));
    lemma_paired(old, new);
    lemma_paired_swapped(old, new);
    assert forall|i: int| 0 <= i < there.len() implies (#[trigger] there[i]).0 == back[i].1
        && there[i].1 == back[i].0 by {
        assert(back[i] == (there[i].1, there[i].0));
    }
    lemma_as_many(
        there,
        back,
        |p: Pair| p.0 is None && p.1 is Some,
        |p: Pair| p.0 is Some && p.1 is None,
    );
    lemma_as_many(
        there,
        back,
        |p: Pair| p.0 is Some && p.1 is None,
        |p: Pair| p.0 is None && p.1 is Some,
    );
    lemma_as_many(
        there,
        back,
        |p: Pair| p.0 is Some && p.1 is Some,
        |p: Pair| p.0 is Some && p.1 is Some,
    );
    assert(entry_views(c.issues@).len() == c.issues@.len());
    assert(entry_views(d.issues@).len() == d.issues@.len());
    assert forall|i: int| 0 <= i < c.issues@.len() implies (#[trigger] c.issues@[i])@ == entry_of(
        there[i],
        triage,
    ) && d.issues@[i]@ == entry_of(back[i], triage) by {
        assert(entry_views(c.issues@)[i] == entries_of(there, triage)[i]);
        assert(entry_views(d.issues@)[i] == entries_of(back, triage)[i]);
    }
}

} // verus!
