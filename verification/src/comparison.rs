//! Comparing two campaign reports: which issues are new, which persist, which were not
//! observed, and which need a review. An issue that was not observed is never fixed.

use vstd::prelude::*;
use vstd::string::*;

use crate::text::{
    after_prefix, chars_of, comes_before, lemma_precedes_total, lemma_precedes_transitive, precedes,
    same, strip_prefix, texts, trim, trimmed,
};

verus! {

/// The most findings or decisions that are compared.
pub const MAX_FINDINGS: usize = 100_000;

/// The most bytes that an input may hold.
pub const MAX_BYTES: u64 = 67_108_864;

/// What a comparison does not say.
pub const NOTICE: &'static str =
    "Not observed means absent from this report, not fixed or unreachable. Compare equivalent projects and campaign scopes; no coverage equivalence is inferred.";

/// What a finding says of its target: the names it gives, or a text.
#[derive(Debug, Clone, PartialEq, Eq)]
pub struct TargetValue {
    pub qualified_name: Option<String>,
    pub symbol: Option<String>,
    pub function: Option<String>,
    pub name: Option<String>,
    pub text: Option<String>,
}

/// One finding of a report.
#[derive(Debug, Clone, PartialEq, Eq)]
pub struct Finding {
    pub id: String,
    pub severity: String,
    pub signature: Option<String>,
    pub cluster_key_full: Option<String>,
    pub cluster_fallback: bool,
    pub rule_id: Option<String>,
    pub classification: Option<String>,
    pub target: TargetValue,
}

/// A report.
#[derive(Debug, Clone, PartialEq, Eq)]
pub struct Snapshot {
    pub schema_version: String,
    pub run_id: String,
    pub source_root: Option<String>,
    /// The number of findings that the report states.
    pub finding_count: usize,
    pub findings: Vec<Finding>,
}

/// Whether a text holds nothing but white space.
pub open spec fn blank(s: Seq<char>) -> bool {
    trim(s).len() == 0
}

fn is_blank(s: &str) -> (r: bool)
    ensures
        r == blank(s@),
{
    trimmed(chars_of(s).as_slice()).len() == 0
}

/// Whether a finding has no identifier, no severity, or the identifier of one before it.
pub open spec fn bad_finding(findings: Seq<Finding>, i: int) -> bool {
    ||| blank(findings[i].id@)
    ||| blank(findings[i].severity@)
    ||| exists|k: int| 0 <= k < i && (#[trigger] findings[k]).id@ == findings[i].id@
}

/// What is wrong with a report, if anything.
pub open spec fn snapshot_error(s: Snapshot) -> Option<Seq<char>> {
    if s.schema_version@ != "bhf.report.v2"@ {
        Some("baseline comparison requires bhf.report.v2"@)
    } else if blank(s.run_id@) || s.finding_count != s.findings@.len() {
        Some("report has an empty run ID or inconsistent finding count"@)
    } else if s.findings@.len() > MAX_FINDINGS {
        Some("comparison exceeds 100,000 findings"@)
    } else if exists|i: int| 0 <= i < s.findings@.len() && #[trigger] bad_finding(s.findings@, i) {
        Some("report has an empty ID/severity or duplicate finding ID"@)
    } else {
        None
    }
}

/// Whether a check gave this reason or none.
pub open spec fn refuses<T>(r: Result<T, String>, reason: Option<Seq<char>>) -> bool {
    match r {
        Ok(_) => reason is None,
        Err(got) => reason == Some(got@),
    }
}

/// A list of texts in strictly rising order.
pub open spec fn texts_rise(v: Seq<Seq<char>>) -> bool {
    forall|i: int, j: int| 0 <= i < j < v.len() ==> precedes(#[trigger] v[i], #[trigger] v[j])
}

/// Adds `text` to a sorted list without duplicates, and says whether it was new.
fn add_distinct(list: &mut Vec<String>, text: &str) -> (r: bool)
    requires
        texts_rise(texts(old(list)@)),
    ensures
        texts_rise(texts(final(list)@)),
        r == !texts(old(list)@).contains(text@),
        forall|x: Seq<char>|
            #[trigger] texts(final(list)@).contains(x) <==> (texts(old(list)@).contains(x) || x
                == text@),
{
    let ghost was = texts(list@);
    let wanted = chars_of(text);
    let mut low: usize = 0;
    let mut high: usize = list.len();
    while low < high
        invariant
            low <= high <= list@.len(),
            *list == *old(list),
            was == texts(list@),
            wanted@ == text@,
            texts_rise(was),
            forall|k: int| 0 <= k < low ==> precedes(#[trigger] was[k], text@),
            forall|k: int| high <= k < was.len() ==> precedes(text@, #[trigger] was[k]),
        decreases high - low,
    {
        let mid: usize = low + (high - low) / 2;
        let item = chars_of(list[mid].as_str());
        proof {
            assert(was[mid as int] == list@[mid as int]@);
            lemma_precedes_total(was[mid as int], text@);
        }
        if same(list[mid].as_str(), text) {
            proof {
                assert(was[mid as int] == text@);
                assert(was.contains(text@));
            }
            return false;
        }
        if comes_before(item.as_slice(), wanted.as_slice()) {
            proof {
                assert forall|k: int| 0 <= k < mid + 1 implies precedes(
                    #[trigger] was[k],
                    text@,
                ) by {
                    if k < mid {
                        lemma_precedes_transitive(was[k], was[mid as int], text@);
                    }
                }
            }
            low = mid + 1;
        } else {
            proof {
                assert forall|k: int| mid <= k < was.len() implies precedes(
                    text@,
                    #[trigger] was[k],
                ) by {
                    if k > mid {
                        lemma_precedes_transitive(text@, was[mid as int], was[k]);
                    }
                }
            }
            high = mid;
        }
    }
    proof {
        assert(!was.contains(text@)) by {
            if was.contains(text@) {
                let k = choose|k: int| 0 <= k < was.len() && was[k] == text@;
                lemma_precedes_total(text@, text@);
            }
        }
    }
    list.insert(low, text.to_owned());
    proof {
        let now = texts(list@);
        assert(now =~= was.insert(low as int, text@));
        assert forall|i: int, j: int| 0 <= i < j < now.len() implies precedes(
            #[trigger] now[i],
            #[trigger] now[j],
        ) by {
            let a = if i < low { i } else { i - 1 };
            let b = if j < low { j } else { j - 1 };
            if i != low && j != low {
                assert(now[i] == was[a] && now[j] == was[b]);
            } else if i == low {
                assert(now[j] == was[j - 1]);
            } else {
                assert(now[i] == was[i]);
            }
        }
        assert forall|x: Seq<char>| #[trigger] now.contains(x) <==> (was.contains(x) || x
            == text@) by {
            if was.contains(x) {
                let k = choose|k: int| 0 <= k < was.len() && was[k] == x;
                if k < low {
                    assert(now[k] == x);
                } else {
                    assert(now[k + 1] == x);
                }
            }
            if x == text@ {
                assert(now[low as int] == x);
            }
            if now.contains(x) {
                let k = choose|k: int| 0 <= k < now.len() && now[k] == x;
                if k < low {
                    assert(was[k] == x);
                } else if k > low {
                    assert(was[k - 1] == x);
                }
            }
        }
    }
    true
}

/// Whether an input of a comparison, which holds `size` bytes, may be read.
pub fn check_input_size(size: u64) -> (r: Result<(), String>)
    ensures
        match r {
            Ok(_) => size <= MAX_BYTES,
            Err(reason) => size > MAX_BYTES && reason@ == "comparison input exceeds 64 MiB"@,
        },
{
    if size > MAX_BYTES {
        return Err("comparison input exceeds 64 MiB".to_owned());
    }
    Ok(())
}

/// Whether a report can be compared: its schema, its counts and the identifiers of its
/// findings are in order.
#[verifier::loop_isolation(false)]
pub fn check_snapshot(snapshot: &Snapshot) -> (r: Result<(), String>)
    ensures
        refuses(r, snapshot_error(*snapshot)),
{
    if !same(snapshot.schema_version.as_str(), "bhf.report.v2") {
        return Err("baseline comparison requires bhf.report.v2".to_owned());
    }
    if is_blank(snapshot.run_id.as_str()) || snapshot.finding_count != snapshot.findings.len() {
        return Err("report has an empty run ID or inconsistent finding count".to_owned());
    }
    if snapshot.findings.len() > MAX_FINDINGS {
        return Err("comparison exceeds 100,000 findings".to_owned());
    }
    let findings = &snapshot.findings;
    let mut ids: Vec<String> = Vec::new();
    let mut i: usize = 0;
    while i < findings.len()
        invariant
            i <= findings@.len(),
            findings@ == snapshot.findings@,
            texts_rise(texts(ids@)),
            forall|x: Seq<char>|
                #[trigger] texts(ids@).contains(x) <==> exists|k: int|
                    0 <= k < i && (#[trigger] findings@[k]).id@ == x,
            forall|k: int| 0 <= k < i ==> !#[trigger] bad_finding(findings@, k),
        decreases findings@.len() - i,
    {
        let id = findings[i].id.as_str();
        let blank_field = is_blank(id) || is_blank(findings[i].severity.as_str());
        let ghost before = texts(ids@);
        if blank_field || !add_distinct(&mut ids, id) {
            proof {
                if !blank_field {
                    assert(before.contains(id@));
                }
                assert(bad_finding(findings@, i as int));
            }
            return Err("report has an empty ID/severity or duplicate finding ID".to_owned());
        }
        proof {
            assert(!before.contains(id@));
            assert(!bad_finding(findings@, i as int)) by {
                if exists|k: int| 0 <= k < i && (#[trigger] findings@[k]).id@ == id@ {
                    assert(before.contains(id@));
                }
            }
            assert forall|x: Seq<char>| #[trigger] texts(ids@).contains(x) implies exists|k: int|
                0 <= k < i + 1 && (#[trigger] findings@[k]).id@ == x by {
                if x == id@ {
                    assert(findings@[i as int].id@ == x);
                } else {
                    assert(before.contains(x));
                    let k = choose|k: int| 0 <= k < i && (#[trigger] findings@[k]).id@ == x;
                    assert(findings@[k].id@ == x);
                }
            }
            assert forall|x: Seq<char>|
                (exists|k: int| 0 <= k < i + 1 && (#[trigger] findings@[k]).id@ == x)
                implies #[trigger] texts(ids@).contains(x) by {
                let k = choose|k: int| 0 <= k < i + 1 && (#[trigger] findings@[k]).id@ == x;
                if k < i {
                    assert(before.contains(x));
                }
            }
        }
        i = i + 1;
    }
    Ok(())
}

/// How far the review of an issue has come.
#[derive(Debug, Clone, Copy, PartialEq, Eq, Structural)]
pub enum ReviewStatus {
    Open,
    Investigating,
    AcceptedRisk,
    FalsePositive,
    Fixed,
}

impl ReviewStatus {
    /// The word for the status.
    pub open spec fn word(self) -> Seq<char> {
        match self {
            ReviewStatus::Open => "open"@,
            ReviewStatus::Investigating => "investigating"@,
            ReviewStatus::AcceptedRisk => "accepted_risk"@,
            ReviewStatus::FalsePositive => "false_positive"@,
            ReviewStatus::Fixed => "fixed"@,
        }
    }

    pub fn as_word(self) -> (r: &'static str)
        ensures
            r@ == self.word(),
    {
        match self {
            ReviewStatus::Open => "open",
            ReviewStatus::Investigating => "investigating",
            ReviewStatus::AcceptedRisk => "accepted_risk",
            ReviewStatus::FalsePositive => "false_positive",
            ReviewStatus::Fixed => "fixed",
        }
    }
}

/// What was decided of an issue.
#[derive(Debug, PartialEq, Eq)]
pub struct Decision {
    pub issue_key: String,
    pub status: ReviewStatus,
    pub owner: String,
    pub reason: String,
}

/// The same, as texts.
pub struct DecisionView {
    pub issue_key: Seq<char>,
    pub status: ReviewStatus,
    pub owner: Seq<char>,
    pub reason: Seq<char>,
}

impl View for Decision {
    type V = DecisionView;

    open spec fn view(&self) -> DecisionView {
        DecisionView {
            issue_key: self.issue_key@,
            status: self.status,
            owner: self.owner@,
            reason: self.reason@,
        }
    }
}

impl Clone for Decision {
    fn clone(&self) -> (r: Decision)
        ensures
            r@ == self@,
    {
        Decision {
            issue_key: self.issue_key.clone(),
            status: self.status,
            owner: self.owner.clone(),
            reason: self.reason.clone(),
        }
    }
}

/// A triage document.
#[derive(Debug, Clone, PartialEq, Eq)]
pub struct TriageDocument {
    pub schema_version: String,
    pub decisions: Vec<Decision>,
}

/// The decisions as texts.
pub open spec fn decision_views(v: Seq<Decision>) -> Seq<DecisionView> {
    Seq::new(v.len(), |i: int| v[i]@)
}

/// The keys of decisions.
pub open spec fn decision_keys(v: Seq<DecisionView>) -> Seq<Seq<char>> {
    Seq::new(v.len(), |i: int| v[i].issue_key)
}

/// A digit of a digest as it is written in a key.
pub open spec fn key_digit(c: char) -> bool {
    '0' <= c <= '9' || 'a' <= c <= 'f'
}

/// Whether a text is the key of an issue.
pub open spec fn issue_key_like(key: Seq<char>) -> bool {
    match strip_prefix(key, "bhf-issue-v1:"@) {
        None => false,
        Some(digits) => digits.len() == 64 && forall|i: int|
            0 <= i < digits.len() ==> key_digit(#[trigger] digits[i]),
    }
}

fn is_issue_key(key: &str) -> (r: bool)
    ensures
        r == issue_key_like(key@),
{
    let chars = chars_of(key);
    match after_prefix(chars.as_slice(), chars_of("bhf-issue-v1:").as_slice()) {
        None => false,
        Some(digits) => {
            if digits.len() != 64 {
                return false;
            }
            let mut i: usize = 0;
            while i < digits.len()
                invariant
                    i <= digits@.len(),
                    digits@.len() == 64,
                    strip_prefix(key@, "bhf-issue-v1:"@) == Some(digits@),
                    forall|k: int| 0 <= k < i ==> key_digit(#[trigger] digits@[k]),
                decreases digits@.len() - i,
            {
                let c = digits[i];
                if !(('0' <= c && c <= '9') || ('a' <= c && c <= 'f')) {
                    return false;
                }
                i = i + 1;
            }
            true
        },
    }
}

/// What is wrong with the decision at `i`, if anything.
pub open spec fn decision_error(decisions: Seq<DecisionView>, i: int) -> Option<Seq<char>> {
    let d = decisions[i];
    if !issue_key_like(d.issue_key) || blank(d.owner) || blank(d.reason) {
        Some("triage entries require a valid issue key, owner, and reason"@)
    } else if exists|k: int| 0 <= k < i && (#[trigger] decisions[k]).issue_key == d.issue_key {
        Some("duplicate triage issue key"@)
    } else {
        None
    }
}

/// What is wrong with the first wrong decision.
pub open spec fn decisions_error(decisions: Seq<DecisionView>, n: nat) -> Option<Seq<char>>
    decreases n,
{
    if n == 0 {
        None
    } else if decisions_error(decisions, (n - 1) as nat) is Some {
        decisions_error(decisions, (n - 1) as nat)
    } else {
        decision_error(decisions, n - 1)
    }
}

proof fn lemma_decisions_error_stays(decisions: Seq<DecisionView>, m: nat, n: nat)
    requires
        m <= n,
        decisions_error(decisions, m) is Some,
    ensures
        decisions_error(decisions, n) == decisions_error(decisions, m),
    decreases n,
{
    if m < n {
        lemma_decisions_error_stays(decisions, m, (n - 1) as nat);
    }
}

/// What is wrong with a triage document, if anything.
pub open spec fn triage_error(doc: TriageDocument) -> Option<Seq<char>> {
    if doc.schema_version@ != "bhf.triage.v1"@ || doc.decisions@.len() > MAX_FINDINGS {
        Some("unsupported or oversized triage document"@)
    } else {
        decisions_error(decision_views(doc.decisions@), doc.decisions@.len())
    }
}

/// Decisions by the key of their issue.
pub struct Triage {
    decisions: Vec<Decision>,
}

impl View for Triage {
    type V = Seq<DecisionView>;

    closed spec fn view(&self) -> Seq<DecisionView> {
        decision_views(self.decisions@)
    }
}

/// Where a key stands or would stand among keys in rising order.
pub open spec fn slot_of(keys: Seq<Seq<char>>, key: Seq<char>, at: int, found: bool) -> bool {
    &&& 0 <= at <= keys.len()
    &&& forall|k: int| 0 <= k < at ==> precedes(#[trigger] keys[k], key)
    &&& found ==> at < keys.len() && keys[at] == key
    &&& !found ==> forall|k: int| at <= k < keys.len() ==> precedes(key, #[trigger] keys[k])
}

impl Triage {
    /// Each key once, in order.
    pub open spec fn well_formed(&self) -> bool {
        texts_rise(decision_keys(self@))
    }

    /// No decisions.
    pub fn new() -> (r: Triage)
        ensures
            r@ == Seq::<DecisionView>::empty(),
            r.well_formed(),
    {
        let r = Triage { decisions: Vec::new() };
        proof {
            assert(r@ =~= Seq::empty());
        }
        r
    }

    /// How many decisions there are.
    pub fn len(&self) -> (r: usize)
        ensures
            r == self@.len(),
    {
        self.decisions.len()
    }

    fn slot(&self, key: &str) -> (r: (usize, bool))
        requires
            self.well_formed(),
        ensures
            slot_of(decision_keys(self@), key@, r.0 as int, r.1),
            r.0 <= self.decisions@.len(),
            r.1 ==> r.0 < self.decisions@.len(),
    {
        let ghost keys = decision_keys(self@);
        let wanted = chars_of(key);
        let mut low: usize = 0;
        let mut high: usize = self.decisions.len();
        while low < high
            invariant
                low <= high <= self.decisions@.len(),
                keys == decision_keys(self@),
                keys.len() == self.decisions@.len(),
                wanted@ == key@,
                texts_rise(keys),
                forall|k: int| 0 <= k < low ==> precedes(#[trigger] keys[k], key@),
                forall|k: int| high <= k < keys.len() ==> precedes(key@, #[trigger] keys[k]),
            decreases high - low,
        {
            let mid: usize = low + (high - low) / 2;
            let item = chars_of(self.decisions[mid].issue_key.as_str());
            proof {
                assert(keys[mid as int] == self.decisions@[mid as int]@.issue_key);
                lemma_precedes_total(keys[mid as int], key@);
            }
            if same(self.decisions[mid].issue_key.as_str(), key) {
                proof {
                    lemma_before_rising(keys, mid as int);
                }
                return (mid, true);
            }
            if comes_before(item.as_slice(), wanted.as_slice()) {
                proof {
                    assert forall|k: int| 0 <= k < mid + 1 implies precedes(
                        #[trigger] keys[k],
                        key@,
                    ) by {
                        if k < mid {
                            lemma_precedes_transitive(keys[k], keys[mid as int], key@);
                        }
                    }
                }
                low = mid + 1;
            } else {
                proof {
                    assert forall|k: int| mid <= k < keys.len() implies precedes(
                        key@,
                        #[trigger] keys[k],
                    ) by {
                        if k > mid {
                            lemma_precedes_transitive(key@, keys[mid as int], keys[k]);
                        }
                    }
                }
                high = mid;
            }
        }
        (low, false)
    }

    /// The index of the decision on `key`.
    pub fn find(&self, key: &str) -> (r: Option<usize>)
        requires
            self.well_formed(),
        ensures
            match r {
                Some(i) => i < self@.len() && self@[i as int].issue_key == key@,
                None => !decision_keys(self@).contains(key@),
            },
    {
        let ghost keys = decision_keys(self@);
        let (at, found) = self.slot(key);
        if found {
            proof {
                assert(keys[at as int] == self@[at as int].issue_key);
            }
            return Some(at);
        }
        proof {
            lemma_insert_rises(keys, at as int, key@);
        }
        None
    }

    /// The decision at `i`.
    pub fn decision(&self, i: usize) -> (r: &Decision)
        requires
            i < self@.len(),
        ensures
            r@ == self@[i as int],
    {
        &self.decisions[i]
    }

    /// Adds a decision, unless its issue has one.
    pub fn insert(&mut self, decision: Decision) -> (r: bool)
        requires
            old(self).well_formed(),
        ensures
            final(self).well_formed(),
            r == !decision_keys(old(self)@).contains(decision@.issue_key),
            !r ==> final(self)@ == old(self)@,
            r ==> exists|at: int|
                0 <= at <= old(self)@.len() && final(self)@ == #[trigger] old(self)@.insert(
                    at,
                    decision@,
                ),
    {
        let ghost was = self@;
        let ghost keys = decision_keys(was);
        let ghost d = decision@;
        let (at, found) = self.slot(decision.issue_key.as_str());
        if found {
            proof {
                assert(keys.contains(d.issue_key)) by {
                    assert(keys[at as int] == d.issue_key);
                }
            }
            return false;
        }
        self.decisions.insert(at, decision);
        proof {
            assert(self@ =~= was.insert(at as int, d));
            assert(decision_keys(self@) =~= keys.insert(at as int, d.issue_key));
            lemma_insert_rises(keys, at as int, d.issue_key);
        }
        true
    }
}

proof fn lemma_before_rising(keys: Seq<Seq<char>>, at: int)
    requires
        texts_rise(keys),
        0 <= at < keys.len(),
    ensures
        forall|k: int| 0 <= k < at ==> precedes(#[trigger] keys[k], keys[at]),
{
}

/// A key put where it belongs keeps keys in rising order, and was not there.
proof fn lemma_insert_rises(keys: Seq<Seq<char>>, at: int, key: Seq<char>)
    requires
        texts_rise(keys),
        slot_of(keys, key, at, false),
    ensures
        texts_rise(keys.insert(at, key)),
        !keys.contains(key),
{
    let now = keys.insert(at, key);
    assert forall|i: int, j: int| 0 <= i < j < now.len() implies precedes(
        #[trigger] now[i],
        #[trigger] now[j],
    ) by {
        if i < at && j < at {
            assert(now[i] == keys[i] && now[j] == keys[j]);
        } else if i < at && j > at {
            assert(now[i] == keys[i] && now[j] == keys[j - 1]);
        } else if i > at {
            assert(now[i] == keys[i - 1] && now[j] == keys[j - 1]);
        } else if i == at {
            assert(now[j] == keys[j - 1]);
        } else {
            assert(now[i] == keys[i]);
        }
    }
    if keys.contains(key) {
        let k = choose|k: int| 0 <= k < keys.len() && keys[k] == key;
        lemma_precedes_total(key, key);
    }
}

/// The decisions of a triage document by their keys: every one of them, and no other.
pub fn accept_triage(document: TriageDocument) -> (r: Result<Triage, String>)
    ensures
        refuses(r, triage_error(document)),
        r matches Ok(triage) ==> {
            &&& triage.well_formed()
            &&& triage@.len() == document.decisions@.len()
            &&& forall|d: DecisionView|
                #[trigger] triage@.contains(d) <==> decision_views(
                    document.decisions@,
                ).contains(d)
        },
{
    if !same(document.schema_version.as_str(), "bhf.triage.v1") || document.decisions.len()
        > MAX_FINDINGS {
        return Err("unsupported or oversized triage document".to_owned());
    }
    let ghost all = decision_views(document.decisions@);
    let decisions = document.decisions;
    let mut triage = Triage::new();
    let mut i: usize = 0;
    proof {
        assert(all.take(0) =~= Seq::empty());
    }
    while i < decisions.len()
        invariant
            i <= decisions@.len(),
            all == decision_views(decisions@),
            triage.well_formed(),
            triage@.len() == i,
            decisions_error(all, i as nat) is None,
            triage_error(document) == decisions_error(all, all.len()),
            forall|d: DecisionView|
                #[trigger] triage@.contains(d) <==> all.take(i as int).contains(d),
        decreases decisions@.len() - i,
    {
        let d = &decisions[i];
        let ghost key = d@.issue_key;
        let ghost so_far = all.take(i as int);
        proof {
            assert(all[i as int] == d@);
            assert(decision_keys(triage@).contains(key) <==> exists|k: int|
                0 <= k < i && (#[trigger] all[k]).issue_key == key) by {
                if decision_keys(triage@).contains(key) {
                    let n = choose|n: int|
                        0 <= n < triage@.len() && decision_keys(triage@)[n] == key;
                    assert(triage@.contains(triage@[n]));
                    let k = choose|k: int| 0 <= k < so_far.len() && so_far[k] == triage@[n];
                    assert(all[k].issue_key == key);
                }
                if exists|k: int| 0 <= k < i && (#[trigger] all[k]).issue_key == key {
                    let k = choose|k: int| 0 <= k < i && (#[trigger] all[k]).issue_key == key;
                    assert(so_far[k] == all[k]);
                    assert(so_far.contains(all[k]));
                    assert(triage@.contains(all[k]));
                    let n = choose|n: int| 0 <= n < triage@.len() && triage@[n] == all[k];
                    assert(decision_keys(triage@)[n] == key);
                }
            }
        }
        if !is_issue_key(d.issue_key.as_str()) || is_blank(d.owner.as_str()) || is_blank(
            d.reason.as_str(),
        ) {
            proof {
                lemma_decisions_error_stays(all, (i + 1) as nat, all.len());
            }
            return Err("triage entries require a valid issue key, owner, and reason".to_owned());
        }
        let ghost was = triage@;
        if !triage.insert(d.clone()) {
            proof {
                lemma_decisions_error_stays(all, (i + 1) as nat, all.len());
            }
            return Err("duplicate triage issue key".to_owned());
        }
        proof {
            let at = choose|at: int|
                0 <= at <= was.len() && triage@ == #[trigger] was.insert(at, d@);
            assert forall|x: DecisionView| #[trigger] triage@.contains(x) <==> all.take(
                i + 1,
            ).contains(x) by {
                lemma_insert_contains(was, at, d@, x);
                assert(all.take(i + 1) =~= so_far.push(d@));
                lemma_push_contains(so_far, d@, x);
            }
        }
        i = i + 1;
    }
    proof {
        assert(all.take(i as int) =~= all);
    }
    Ok(triage)
}

proof fn lemma_insert_contains<T>(s: Seq<T>, at: int, item: T, x: T)
    requires
        0 <= at <= s.len(),
    ensures
        s.insert(at, item).contains(x) <==> (s.contains(x) || x == item),
{
    let now = s.insert(at, item);
    if s.contains(x) {
        let k = choose|k: int| 0 <= k < s.len() && s[k] == x;
        if k < at {
            assert(now[k] == x);
        } else {
            assert(now[k + 1] == x);
        }
    }
    if x == item {
        assert(now[at] == x);
    }
    if now.contains(x) {
        let k = choose|k: int| 0 <= k < now.len() && now[k] == x;
        if k < at {
            assert(s[k] == x);
        } else if k > at {
            assert(s[k - 1] == x);
        }
    }
}

proof fn lemma_push_contains<T>(s: Seq<T>, item: T, x: T)
    ensures
        s.push(item).contains(x) <==> (s.contains(x) || x == item),
{
    lemma_insert_contains(s, s.len() as int, item, x);
    assert(s.insert(s.len() as int, item) =~= s.push(item));
}

} // verus!
