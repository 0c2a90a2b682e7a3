//! The issues of a report: what makes two findings the same issue, and what an issue keeps
//! of its findings.

use vstd::prelude::*;
use vstd::string::*;
use vstd::utf8::encode_utf8;

use crate::comparison::{blank, slot_of, texts_rise, Finding, Snapshot, TargetValue};
use crate::digest::{hex_bytes, hex_of_bytes, sha256, sha256_of};
use crate::json::{json_array, json_array_is_injective, quoted_array};
use crate::text::{
    bytes_of, cat2, chars_of, comes_before, lemma_precedes_total, lemma_precedes_transitive,
    lowercase, lowered, precedes, reads, same, texts, trim, trimmed,
};

verus! {

/// The text of an option, where it has one that is not blank.
pub open spec fn nonempty_text(value: Option<String>) -> Option<Seq<char>> {
    match value {
        Some(text) => if blank(text@) {
            None
        } else {
            Some(text@)
        },
        None => None,
    }
}

/// The text of an option, where it has one that is not blank.
pub fn nonempty(value: &Option<String>) -> (r: Option<&str>)
    ensures
        match r {
            Some(text) => nonempty_text(*value) == Some(text@),
            None => nonempty_text(*value) is None,
        },
{
    match value {
        None => None,
        Some(text) => {
            if trimmed(chars_of(text.as_str()).as_slice()).len() == 0 {
                None
            } else {
                Some(text.as_str())
            }
        },
    }
}

/// How grave a severity is, where it is a known one.
pub open spec fn rank(severity: Seq<char>) -> Option<nat> {
    if severity == "critical"@ {
        Some(4)
    } else if severity == "high"@ {
        Some(3)
    } else if severity == "medium"@ {
        Some(2)
    } else if severity == "low"@ {
        Some(1)
    } else if severity == "info"@ || severity == "informational"@ || severity == "note"@ {
        Some(0)
    } else {
        None
    }
}

pub fn severity_rank(value: &str) -> (r: Option<u8>)
    ensures
        match r {
            Some(n) => rank(value@) == Some(n as nat),
            None => rank(value@) is None,
        },
{
    if same(value, "critical") {
        Some(4)
    } else if same(value, "high") {
        Some(3)
    } else if same(value, "medium") {
        Some(2)
    } else if same(value, "low") {
        Some(1)
    } else if same(value, "info") || same(value, "informational") || same(value, "note") {
        Some(0)
    } else {
        None
    }
}

/// The one name of a severity: case, white space around it and aliases do not matter, and
/// a severity that is not known is `unknown`.
pub open spec fn canonical(severity: Seq<char>) -> Seq<char> {
    let s = lowercase(trim(severity));
    if s == "critical"@ {
        "critical"@
    } else if s == "high"@ {
        "high"@
    } else if s == "medium"@ {
        "medium"@
    } else if s == "low"@ {
        "low"@
    } else if s == "info"@ || s == "informational"@ || s == "note"@ {
        "info"@
    } else {
        "unknown"@
    }
}

pub fn canonical_severity(value: &str) -> (r: String)
    ensures
        r@ == canonical(value@),
{
    let small = lowered(trimmed(chars_of(value).as_slice()));
    let s = small.as_slice();
    let name: &str = if reads(s, "critical") {
        "critical"
    } else if reads(s, "high") {
        "high"
    } else if reads(s, "medium") {
        "medium"
    } else if reads(s, "low") {
        "low"
    } else if reads(s, "info") || reads(s, "informational") || reads(s, "note") {
        "info"
    } else {
        "unknown"
    };
    name.to_owned()
}

/// The graver of two severities; where one is not known, the result is not known either.
pub open spec fn graver(a: Seq<char>, b: Seq<char>) -> Seq<char> {
    match (rank(a), rank(b)) {
        (Some(x), Some(y)) => if x >= y {
            a
        } else {
            b
        },
        _ => "unknown"@,
    }
}

pub fn strongest(a: &str, b: &str) -> (r: String)
    ensures
        r@ == graver(a@, b@),
{
    match (severity_rank(a), severity_rank(b)) {
        (Some(x), Some(y)) => {
            if x >= y {
                a.to_owned()
            } else {
                b.to_owned()
            }
        },
        _ => "unknown".to_owned(),
    }
}

/// The canonical severities.
pub open spec fn canonical_name(s: Seq<char>) -> bool {
    s == "critical"@ || s == "high"@ || s == "medium"@ || s == "low"@ || s == "info"@ || s
        == "unknown"@
}

/// Canonical severities can be combined in any order.
pub proof fn graver_is_order_independent(a: Seq<char>, b: Seq<char>, c: Seq<char>)
    requires
        canonical_name(a),
        canonical_name(b),
        canonical_name(c),
    ensures
        graver(a, b) == graver(b, a),
        graver(graver(a, b), c) == graver(graver(a, c), b),
        graver(a, a) == a,
        canonical_name(graver(a, b)),
{
    reveal_strlit("critical");
    reveal_strlit("high");
    reveal_strlit("medium");
    reveal_strlit("low");
    reveal_strlit("info");
    reveal_strlit("informational");
    reveal_strlit("note");
    reveal_strlit("unknown");
    assert("critical"@.len() == 8 && "high"@.len() == 4 && "medium"@.len() == 6 && "low"@.len() == 3
        && "info"@.len() == 4 && "informational"@.len() == 13 && "note"@.len() == 4
        && "unknown"@.len() == 7);
    assert("high"@[0] == 'h' && "info"@[0] == 'i' && "note"@[0] == 'n');
}

/// What a finding says of its target: the first of its names that it gives, or its text.
pub open spec fn target_text(t: TargetValue) -> Seq<char> {
    if t.qualified_name is Some {
        t.qualified_name->0@
    } else if t.symbol is Some {
        t.symbol->0@
    } else if t.function is Some {
        t.function->0@
    } else if t.name is Some {
        t.name->0@
    } else if t.text is Some {
        t.text->0@
    } else {
        Seq::empty()
    }
}

fn target_name(t: &TargetValue) -> (r: String)
    ensures
        r@ == target_text(*t),
{
    match &t.qualified_name {
        Some(name) => {
            return name.clone();
        },
        None => {},
    }
    match &t.symbol {
        Some(name) => {
            return name.clone();
        },
        None => {},
    }
    match &t.function {
        Some(name) => {
            return name.clone();
        },
        None => {},
    }
    match &t.name {
        Some(name) => {
            return name.clone();
        },
        None => {},
    }
    match &t.text {
        Some(name) => name.clone(),
        None => String::new(),
    }
}

/// The text of an option, empty where there is none.
pub open spec fn text_or_empty(value: Option<String>) -> Seq<char> {
    match value {
        Some(text) => text@,
        None => Seq::empty(),
    }
}

fn or_empty(value: &Option<String>) -> (r: String)
    ensures
        r@ == text_or_empty(*value),
{
    match value {
        Some(text) => text.clone(),
        None => String::new(),
    }
}

/// What one finding contributes to an issue.
pub struct Observation {
    /// Why the issue is one: a cluster, a signature, or nothing that carries over.
    pub kind: Seq<char>,
    pub signal: Seq<char>,
    pub rule: Seq<char>,
    pub class: Seq<char>,
    pub target: Seq<char>,
    pub severity: Seq<char>,
    pub id: Seq<char>,
}

/// What a finding of the run `run` contributes. A cluster key that is not a fallback makes
/// it one issue with the others of its cluster, then a signature does; otherwise it stands
/// alone, even where another run uses the same names.
pub open spec fn observation(f: Finding, side: Seq<char>, run: Seq<char>) -> Observation {
    let cluster = nonempty_text(f.cluster_key_full);
    let signature = nonempty_text(f.signature);
    let (kind, signal) = if !f.cluster_fallback && cluster is Some {
        ("cluster"@, cluster->0)
    } else if signature is Some {
        ("signature"@, signature->0)
    } else {
        ("unmatched"@, side + ":"@ + run + ":"@ + f.id@)
    };
    Observation {
        kind,
        signal,
        rule: text_or_empty(f.rule_id),
        class: text_or_empty(f.classification),
        target: target_text(f.target),
        severity: canonical(f.severity@),
        id: f.id@,
    }
}

/// What makes two observations one issue.
pub open spec fn identity(o: Observation) -> Seq<Seq<char>> {
    seq![o.kind, o.signal, o.rule, o.class, o.target]
}

/// The key of the issue of an observation.
pub open spec fn issue_key(o: Observation) -> Seq<char> {
    "bhf-issue-v1:"@ + hex_bytes(sha256(encode_utf8(json_array(identity(o)))))
}

/// The text that is digested for a key tells every two identities apart.
pub proof fn identities_are_told_apart(a: Observation, b: Observation)
    requires
        json_array(identity(a)) == json_array(identity(b)),
    ensures
        identity(a) == identity(b),
{
    json_array_is_injective(identity(a), identity(b));
}

/// An issue.
#[derive(Debug, PartialEq, Eq)]
pub struct Issue {
    pub issue_key: String,
    pub identity_kind: String,
    pub rule_id: String,
    pub classification: String,
    pub target: String,
    pub severity: String,
    pub finding_ids: Vec<String>,
}

/// An issue, as texts.
#[verifier::ext_equal]
pub struct IssueView {
    pub issue_key: Seq<char>,
    pub identity_kind: Seq<char>,
    pub rule_id: Seq<char>,
    pub classification: Seq<char>,
    pub target: Seq<char>,
    pub severity: Seq<char>,
    pub finding_ids: Seq<Seq<char>>,
}

impl View for Issue {
    type V = IssueView;

    open spec fn view(&self) -> IssueView {
        IssueView {
            issue_key: self.issue_key@,
            identity_kind: self.identity_kind@,
            rule_id: self.rule_id@,
            classification: self.classification@,
            target: self.target@,
            severity: self.severity@,
            finding_ids: texts(self.finding_ids@),
        }
    }
}

pub(crate) fn copy_texts(v: &Vec<String>) -> (r: Vec<String>)
    ensures
        texts(r@) == texts(v@),
{
    let mut out: Vec<String> = Vec::new();
    let mut i: usize = 0;
    while i < v.len()
        invariant
            i <= v@.len(),
            out@.len() == i,
            forall|k: int| 0 <= k < i ==> (#[trigger] out@[k])@ == v@[k]@,
        decreases v@.len() - i,
    {
        out.push(v[i].clone());
        i = i + 1;
    }
    proof {
        assert(texts(out@) =~= texts(v@));
    }
    out
}

impl Clone for Issue {
    fn clone(&self) -> (r: Issue)
        ensures
            r@ == self@,
    {
        Issue {
            issue_key: self.issue_key.clone(),
            identity_kind: self.identity_kind.clone(),
            rule_id: self.rule_id.clone(),
            classification: self.classification.clone(),
            target: self.target.clone(),
            severity: self.severity.clone(),
            finding_ids: copy_texts(&self.finding_ids),
        }
    }
}

/// Issues as texts.
pub open spec fn issue_views(v: Seq<Issue>) -> Seq<IssueView> {
    Seq::new(v.len(), |i: int| v[i]@)
}

/// The keys of issues.
pub open spec fn issue_keys(v: Seq<IssueView>) -> Seq<Seq<char>> {
    Seq::new(v.len(), |i: int| v[i].issue_key)
}

/// `list` with `text` behind everything that does not come after it.
pub open spec fn insert_text(list: Seq<Seq<char>>, text: Seq<char>) -> Seq<Seq<char>>
    decreases list.len(),
{
    if list.len() == 0 {
        seq![text]
    } else if precedes(text, list[0]) {
        seq![text] + list
    } else {
        seq![list[0]] + insert_text(list.skip(1), text)
    }
}

/// The issue that one observation makes.
pub open spec fn issue_of(o: Observation) -> IssueView {
    IssueView {
        issue_key: issue_key(o),
        identity_kind: o.kind,
        rule_id: o.rule,
        classification: o.class,
        target: o.target,
        severity: o.severity,
        finding_ids: seq![o.id],
    }
}

/// `issue` with another observation: the graver severity, and the finding in its place.
pub open spec fn joined_by(issue: IssueView, o: Observation) -> IssueView {
    IssueView {
        severity: graver(issue.severity, o.severity),
        finding_ids: insert_text(issue.finding_ids, o.id),
        ..issue
    }
}

/// `issues`, which stand in the order of their keys, with an observation added to its
/// issue, or as a new one in its place.
pub open spec fn observe(issues: Seq<IssueView>, o: Observation) -> Seq<IssueView>
    decreases issues.len(),
{
    if issues.len() == 0 {
        seq![issue_of(o)]
    } else if issues[0].issue_key == issue_key(o) {
        seq![joined_by(issues[0], o)] + issues.skip(1)
    } else if precedes(issue_key(o), issues[0].issue_key) {
        seq![issue_of(o)] + issues
    } else {
        seq![issues[0]] + observe(issues.skip(1), o)
    }
}

/// The issues of a list of observations.
pub open spec fn grouped(all: Seq<Observation>) -> Seq<IssueView>
    decreases all.len(),
{
    if all.len() == 0 {
        Seq::empty()
    } else {
        observe(grouped(all.drop_last()), all.last())
    }
}

/// What the findings of a report contribute.
pub open spec fn observations(s: Snapshot, side: Seq<char>) -> Seq<Observation> {
    Seq::new(s.findings@.len(), |i: int| observation(s.findings@[i], side, s.run_id@))
}

/// Texts in an order in which none stands before one it should follow.
pub open spec fn texts_sorted(v: Seq<Seq<char>>) -> bool {
    forall|i: int, j: int| 0 <= i < j < v.len() ==> !precedes(#[trigger] v[j], #[trigger] v[i])
}

proof fn lemma_insert_text(list: Seq<Seq<char>>, text: Seq<char>, at: int)
    requires
        0 <= at <= list.len(),
        forall|k: int| 0 <= k < at ==> !precedes(text, #[trigger] list[k]),
        at < list.len() ==> precedes(text, list[at]),
    ensures
        insert_text(list, text) == list.insert(at, text),
    decreases list.len(),
{
    if list.len() == 0 {
        assert(insert_text(list, text) =~= list.insert(at, text));
    } else if at == 0 {
        assert(insert_text(list, text) =~= list.insert(at, text));
    } else {
        let rest = list.skip(1);
        assert(!precedes(text, list[0]));
        assert forall|k: int| 0 <= k < at - 1 implies !precedes(text, #[trigger] rest[k]) by {
            assert(rest[k] == list[k + 1]);
        }
        if at < list.len() {
            assert(rest[at - 1] == list[at]);
        }
        lemma_insert_text(rest, text, at - 1);
        assert(seq![list[0]] + rest.insert(at - 1, text) =~= list.insert(at, text));
    }
}

proof fn lemma_insert_text_sorted(list: Seq<Seq<char>>, text: Seq<char>, at: int)
    requires
        texts_sorted(list),
        0 <= at <= list.len(),
        forall|k: int| 0 <= k < at ==> !precedes(text, #[trigger] list[k]),
        forall|k: int| at <= k < list.len() ==> precedes(text, #[trigger] list[k]),
    ensures
        texts_sorted(list.insert(at, text)),
{
    let now = list.insert(at, text);
    assert forall|i: int, j: int| 0 <= i < j < now.len() implies !precedes(
        #[trigger] now[j],
        #[trigger] now[i],
    ) by {
        if i < at && j < at {
            assert(now[i] == list[i] && now[j] == list[j]);
        } else if i < at && j > at {
            assert(now[i] == list[i] && now[j] == list[j - 1]);
        } else if i > at {
            assert(now[i] == list[i - 1] && now[j] == list[j - 1]);
        } else if i == at {
            assert(now[j] == list[j - 1]);
            lemma_precedes_total(text, list[j - 1]);
        } else {
            assert(now[i] == list[i]);
        }
    }
}

fn insert_id(list: &mut Vec<String>, id: String)
    requires
        texts_sorted(texts(old(list)@)),
    ensures
        texts(final(list)@) == insert_text(texts(old(list)@), id@),
        texts_sorted(texts(final(list)@)),
{
    let ghost was = texts(list@);
    let wanted = chars_of(id.as_str());
    let mut low: usize = 0;
    let mut high: usize = list.len();
    while low < high
        invariant
            low <= high <= list@.len(),
            *list == *old(list),
            was == texts(list@),
            wanted@ == id@,
            texts_sorted(was),
            forall|k: int| 0 <= k < low ==> !precedes(id@, #[trigger] was[k]),
            forall|k: int| high <= k < was.len() ==> precedes(id@, #[trigger] was[k]),
        decreases high - low,
    {
        let mid: usize = low + (high - low) / 2;
        let item = chars_of(list[mid].as_str());
        proof {
            assert(was[mid as int] == list@[mid as int]@);
        }
        if comes_before(wanted.as_slice(), item.as_slice()) {
            proof {
                assert forall|k: int| mid <= k < was.len() implies precedes(
                    id@,
                    #[trigger] was[k],
                ) by {
                    if k > mid {
                        lemma_precedes_total(was[mid as int], was[k]);
                        if was[mid as int] != was[k] {
                            lemma_precedes_transitive(id@, was[mid as int], was[k]);
                        }
                    }
                }
            }
            high = mid;
        } else {
            proof {
                assert forall|k: int| 0 <= k < mid + 1 implies !precedes(
                    id@,
                    #[trigger] was[k],
                ) by {
                    if k < mid && precedes(id@, was[k]) {
                        lemma_precedes_total(was[k], was[mid as int]);
                        if was[k] != was[mid as int] {
                            lemma_precedes_transitive(id@, was[k], was[mid as int]);
                        }
                    }
                }
            }
            low = mid + 1;
        }
    }
    let ghost text = id@;
    list.insert(low, id);
    proof {
        assert(texts(list@) =~= was.insert(low as int, text));
        lemma_insert_text(was, text, low as int);
        lemma_insert_text_sorted(was, text, low as int);
    }
}

/// Issues in the order of their keys, each with its findings in order.
pub open spec fn issues_in_order(issues: Seq<IssueView>) -> bool {
    &&& texts_rise(issue_keys(issues))
    &&& forall|i: int| 0 <= i < issues.len() ==> texts_sorted((#[trigger] issues[i]).finding_ids)
}

proof fn lemma_observe_at(issues: Seq<IssueView>, o: Observation, at: int, found: bool)
    requires
        slot_of(issue_keys(issues), issue_key(o), at, found),
    ensures
        found ==> observe(issues, o) == issues.update(at, joined_by(issues[at], o)),
        !found ==> observe(issues, o) == issues.insert(at, issue_of(o)),
    decreases issues.len(),
{
    let keys = issue_keys(issues);
    let key = issue_key(o);
    if issues.len() == 0 {
        assert(observe(issues, o) =~= issues.insert(at, issue_of(o)));
    } else if at == 0 {
        assert(keys[0] == issues[0].issue_key);
        if found {
            assert(observe(issues, o) =~= issues.update(at, joined_by(issues[at], o)));
        } else {
            lemma_precedes_total(key, keys[0]);
            assert(observe(issues, o) =~= issues.insert(at, issue_of(o)));
        }
    } else {
        assert(keys[0] == issues[0].issue_key);
        lemma_precedes_total(keys[0], key);
        let rest = issues.skip(1);
        assert(issue_keys(rest) =~= keys.skip(1));
        assert forall|k: int| 0 <= k < at - 1 implies precedes(
            #[trigger] issue_keys(rest)[k],
            key,
        ) by {
            assert(issue_keys(rest)[k] == keys[k + 1]);
        }
        assert forall|k: int| at - 1 <= k < rest.len() && !found implies precedes(
            key,
            #[trigger] issue_keys(rest)[k],
        ) by {
            assert(issue_keys(rest)[k] == keys[k + 1]);
        }
        if found {
            assert(issue_keys(rest)[at - 1] == keys[at]);
        }
        lemma_observe_at(rest, o, at - 1, found);
        if found {
            assert(rest[at - 1] == issues[at]);
            assert(seq![issues[0]] + rest.update(at - 1, joined_by(rest[at - 1], o))
                =~= issues.update(at, joined_by(issues[at], o)));
        } else {
            assert(seq![issues[0]] + rest.insert(at - 1, issue_of(o)) =~= issues.insert(
                at,
                issue_of(o),
            ));
        }
    }
}

fn key_slot(issues: &Vec<Issue>, key: &str) -> (r: (usize, bool))
    requires
        texts_rise(issue_keys(issue_views(issues@))),
    ensures
        slot_of(issue_keys(issue_views(issues@)), key@, r.0 as int, r.1),
        r.0 <= issues@.len(),
        r.1 ==> r.0 < issues@.len(),
{
    let ghost keys = issue_keys(issue_views(issues@));
    let wanted = chars_of(key);
    let mut low: usize = 0;
    let mut high: usize = issues.len();
    while low < high
        invariant
            low <= high <= issues@.len(),
            keys == issue_keys(issue_views(issues@)),
            keys.len() == issues@.len(),
            wanted@ == key@,
            texts_rise(keys),
            forall|k: int| 0 <= k < low ==> precedes(#[trigger] keys[k], key@),
            forall|k: int| high <= k < keys.len() ==> precedes(key@, #[trigger] keys[k]),
        decreases high - low,
    {
        let mid: usize = low + (high - low) / 2;
        let item = chars_of(issues[mid].issue_key.as_str());
        proof {
            assert(keys[mid as int] == issues@[mid as int]@.issue_key);
            lemma_precedes_total(keys[mid as int], key@);
        }
        if same(issues[mid].issue_key.as_str(), key) {
            proof {
                assert forall|k: int| 0 <= k < mid implies precedes(#[trigger] keys[k], key@) by {
                    assert(precedes(keys[k], keys[mid as int]));
                }
            }
            return (mid, true);
        }
        if comes_before(item.as_slice(), wanted.as_slice()) {
            proof {
                assert forall|k: int| 0 <= k < mid + 1 implies precedes(
                    #[trigger] keys[k],
                    key@,
                ) by {
                    if k < mid {
                        lemma_precedes_transitive(keys[k], keys[mid as int], key@);
                    }
                }
            }
            low = mid + 1;
        } else {
            proof {
                assert forall|k: int| mid <= k < keys.len() implies precedes(
                    key@,
                    #[trigger] keys[k],
                ) by {
                    if k > mid {
                        lemma_precedes_transitive(key@, keys[mid as int], keys[k]);
                    }
                }
            }
            high = mid;
        }
    }
    (low, false)
}

/// Adding an observation keeps issues in order.
proof fn lemma_observe_in_order(issues: Seq<IssueView>, o: Observation, at: int, found: bool)
    requires
        issues_in_order(issues),
        slot_of(issue_keys(issues), issue_key(o), at, found),
        found ==> texts_sorted(insert_text(issues[at].finding_ids, o.id)),
    ensures
        issues_in_order(observe(issues, o)),
{
    lemma_observe_at(issues, o, at, found);
    let now = observe(issues, o);
    let keys = issue_keys(issues);
    if found {
        assert(issue_keys(now) =~= keys);
        assert forall|i: int| 0 <= i < now.len() implies texts_sorted(
            (#[trigger] now[i]).finding_ids,
        ) by {
            if i != at {
                assert(now[i] == issues[i]);
            }
        }
    } else {
        assert(issue_keys(now) =~= keys.insert(at, issue_key(o)));
        assert forall|i: int, j: int| 0 <= i < j < issue_keys(now).len() implies precedes(
            #[trigger] issue_keys(now)[i],
            #[trigger] issue_keys(now)[j],
        ) by {
            let all = issue_keys(now);
            if i < at && j < at {
                assert(all[i] == keys[i] && all[j] == keys[j]);
            } else if i < at && j > at {
                assert(all[i] == keys[i] && all[j] == keys[j - 1]);
            } else if i > at {
                assert(all[i] == keys[i - 1] && all[j] == keys[j - 1]);
            } else if i == at {
                assert(all[j] == keys[j - 1]);
            } else {
                assert(all[i] == keys[i]);
            }
        }
        assert forall|i: int| 0 <= i < now.len() implies texts_sorted(
            (#[trigger] now[i]).finding_ids,
        ) by {
            if i < at {
                assert(now[i] == issues[i]);
            } else if i > at {
                assert(now[i] == issues[i - 1]);
            }
        }
    }
}

fn observe_finding(issues: &mut Vec<Issue>, f: &Finding, side: &str, run_id: &str)
    requires
        issues_in_order(issue_views(old(issues)@)),
    ensures
        issue_views(final(issues)@) == observe(
            issue_views(old(issues)@),
            observation(*f, side@, run_id@),
        ),
        issues_in_order(issue_views(final(issues)@)),
{
    let ghost was = issue_views(issues@);
    let ghost o = observation(*f, side@, run_id@);
    let mut kind: &str = "unmatched";
    let mut signal: Option<String> = None;
    if !f.cluster_fallback {
        if let Some(cluster) = nonempty(&f.cluster_key_full) {
            kind = "cluster";
            signal = Some(cluster.to_owned());
        }
    }
    if signal.is_none() {
        if let Some(signature) = nonempty(&f.signature) {
            kind = "signature";
            signal = Some(signature.to_owned());
        }
    }
    let signal: String = match signal {
        Some(signal) => signal,
        None => {
            let mut text = cat2(side, ":");
            text.append(run_id);
            text.append(":");
            text.append(f.id.as_str());
            text
        },
    };
    let rule = or_empty(&f.rule_id);
    let class = or_empty(&f.classification);
    let target = target_name(&f.target);
    let severity = canonical_severity(f.severity.as_str());
    let mut parts: Vec<String> = Vec::new();
    parts.push(kind.to_owned());
    parts.push(signal);
    parts.push(rule.clone());
    parts.push(class.clone());
    parts.push(target.clone());
    proof {
        assert(texts(parts@) =~= identity(o));
    }
    let text = quoted_array(parts.as_slice());
    let digest = sha256_of(bytes_of(text.as_str()).as_slice());
    let key = cat2("bhf-issue-v1:", hex_of_bytes(digest.as_slice()).as_str());
    let (at, found) = key_slot(issues, key.as_str());
    proof {
        lemma_observe_at(was, o, at as int, found);
    }
    if found {
        let mut issue = issues[at].clone();
        proof {
            assert(was[at as int] == issues@[at as int]@);
        }
        issue.severity = strongest(issue.severity.as_str(), severity.as_str());
        insert_id(&mut issue.finding_ids, f.id.clone());
        proof {
            assert(issue@ =~= joined_by(was[at as int], o));
            lemma_observe_in_order(was, o, at as int, found);
        }
        issues.set(at, issue);
        proof {
            assert(issue_views(issues@) =~= was.update(at as int, joined_by(was[at as int], o)));
        }
    } else {
        let mut ids: Vec<String> = Vec::new();
        ids.push(f.id.clone());
        proof {
            assert(texts(ids@) =~= seq![f.id@]);
        }
        let issue = Issue {
            issue_key: key,
            identity_kind: kind.to_owned(),
            rule_id: rule,
            classification: class,
            target,
            severity,
            finding_ids: ids,
        };
        proof {
            assert(issue@ =~= issue_of(o));
            lemma_observe_in_order(was, o, at as int, found);
        }
        issues.insert(at, issue);
        proof {
            assert(issue_views(issues@) =~= was.insert(at as int, issue_of(o)));
        }
    }
}

/// The issues of a report in the order of their keys; `side` tells the two reports of a
/// comparison apart.
pub fn group(snapshot: &Snapshot, side: &str) -> (r: Vec<Issue>)
    ensures
        issue_views(r@) == grouped(observations(*snapshot, side@)),
        issues_in_order(issue_views(r@)),
{
    let mut issues: Vec<Issue> = Vec::new();
    let ghost all = observations(*snapshot, side@);
    let mut i: usize = 0;
    proof {
        assert(all.take(0) =~= Seq::empty());
        assert(issue_views(issues@) =~= Seq::empty());
    }
    while i < snapshot.findings.len()
        invariant
            i <= snapshot.findings@.len(),
            all == observations(*snapshot, side@),
            issue_views(issues@) == grouped(all.take(i as int)),
            issues_in_order(issue_views(issues@)),
        decreases snapshot.findings@.len() - i,
    {
        proof {
            assert(all.take(i + 1).drop_last() =~= all.take(i as int));
            assert(all.take(i + 1).last() == all[i as int]);
        }
        observe_finding(&mut issues, &snapshot.findings[i], side, snapshot.run_id.as_str());
        i = i + 1;
    }
    proof {
        assert(all.take(i as int) =~= all);
    }
    issues
}

proof fn lemma_insert_text_commutes(list: Seq<Seq<char>>, a: Seq<char>, b: Seq<char>)
    ensures
        insert_text(insert_text(list, a), b) == insert_text(insert_text(list, b), a),
    decreases list.len(),
{
    reveal_with_fuel(insert_text, 3);
    lemma_precedes_total(a, b);
    if a == b {
    } else if list.len() == 0 {
        assert(seq![a].skip(1) =~= Seq::empty());
        assert(seq![b].skip(1) =~= Seq::empty());
        assert(insert_text(seq![a], b) =~= insert_text(seq![b], a));
    } else {
        let rest = list.skip(1);
        let head = list[0];
        assert((seq![a] + list).skip(1) =~= list);
        assert((seq![b] + list).skip(1) =~= list);
        assert((seq![head] + insert_text(rest, a)).skip(1) =~= insert_text(rest, a));
        assert((seq![head] + insert_text(rest, b)).skip(1) =~= insert_text(rest, b));
        if precedes(a, head) && precedes(b, head) {
            if precedes(a, b) {
                assert(insert_text(seq![b] + list, a) =~= insert_text(seq![a] + list, b));
            } else {
                assert(insert_text(seq![b] + list, a) =~= insert_text(seq![a] + list, b));
            }
        } else if precedes(a, head) {
            if precedes(b, a) {
                lemma_precedes_transitive(b, a, head);
            }
            assert(insert_text(seq![a] + list, b) =~= insert_text(
                seq![head] + insert_text(rest, b),
                a,
            ));
        } else if precedes(b, head) {
            if precedes(a, b) {
                lemma_precedes_transitive(a, b, head);
            }
            assert(insert_text(seq![b] + list, a) =~= insert_text(
                seq![head] + insert_text(rest, a),
                b,
            ));
        } else {
            lemma_insert_text_commutes(rest, a, b);
        }
    }
}

/// Issues whose severities are canonical.
pub open spec fn canonical_issues(issues: Seq<IssueView>) -> bool {
    forall|i: int| 0 <= i < issues.len() ==> canonical_name((#[trigger] issues[i]).severity)
}

proof fn lemma_observe_canonical(issues: Seq<IssueView>, o: Observation)
    requires
        canonical_issues(issues),
        canonical_name(o.severity),
    ensures
        canonical_issues(observe(issues, o)),
    decreases issues.len(),
{
    let now = observe(issues, o);
    if issues.len() > 0 {
        graver_is_order_independent(issues[0].severity, o.severity, o.severity);
        let rest = issues.skip(1);
        assert forall|i: int| 0 <= i < rest.len() implies canonical_name(
            (#[trigger] rest[i]).severity,
        ) by {
            assert(rest[i] == issues[i + 1]);
        }
        if issues[0].issue_key == issue_key(o) {
            assert forall|i: int| 0 <= i < now.len() implies canonical_name(
                (#[trigger] now[i]).severity,
            ) by {
                if i > 0 {
                    assert(now[i] == issues[i]);
                }
            }
        } else if precedes(issue_key(o), issues[0].issue_key) {
            assert forall|i: int| 0 <= i < now.len() implies canonical_name(
                (#[trigger] now[i]).severity,
            ) by {
                if i > 0 {
                    assert(now[i] == issues[i - 1]);
                }
            }
        } else {
            lemma_observe_canonical(rest, o);
            let tail = observe(rest, o);
            assert forall|i: int| 0 <= i < now.len() implies canonical_name(
                (#[trigger] now[i]).severity,
            ) by {
                if i > 0 {
                    assert(now[i] == tail[i - 1]);
                }
            }
        }
    }
}

/// Two observations with the same key are of the same issue.
pub open spec fn no_collision(a: Observation, b: Observation) -> bool {
    issue_key(a) == issue_key(b) ==> identity(a) == identity(b)
}

proof fn lemma_same_identity(a: Observation, b: Observation)
    requires
        identity(a) == identity(b),
    ensures
        a.kind == b.kind,
        a.signal == b.signal,
        a.rule == b.rule,
        a.class == b.class,
        a.target == b.target,
{
    assert(identity(a)[0] == a.kind && identity(b)[0] == b.kind);
    assert(identity(a)[1] == a.signal && identity(b)[1] == b.signal);
    assert(identity(a)[2] == a.rule && identity(b)[2] == b.rule);
    assert(identity(a)[3] == a.class && identity(b)[3] == b.class);
    assert(identity(a)[4] == a.target && identity(b)[4] == b.target);
}

proof fn lemma_joins_commute(issue: IssueView, a: Observation, b: Observation)
    requires
        canonical_name(issue.severity),
        canonical_name(a.severity),
        canonical_name(b.severity),
    ensures
        joined_by(joined_by(issue, a), b) == joined_by(joined_by(issue, b), a),
{
    graver_is_order_independent(issue.severity, a.severity, b.severity);
    lemma_insert_text_commutes(issue.finding_ids, a.id, b.id);
}

proof fn lemma_new_issue_commutes(a: Observation, b: Observation)
    requires
        identity(a) == identity(b),
        canonical_name(a.severity),
        canonical_name(b.severity),
    ensures
        joined_by(issue_of(a), b) == joined_by(issue_of(b), a),
{
    lemma_same_identity(a, b);
    graver_is_order_independent(a.severity, b.severity, b.severity);
    let none = Seq::<Seq<char>>::empty();
    lemma_insert_text_commutes(none, a.id, b.id);
    assert(insert_text(none, a.id) =~= seq![a.id]);
    assert(insert_text(none, b.id) =~= seq![b.id]);
}

#[verifier::rlimit(30)]
proof fn lemma_observe_commutes(issues: Seq<IssueView>, a: Observation, b: Observation)
    requires
        canonical_issues(issues),
        canonical_name(a.severity),
        canonical_name(b.severity),
        no_collision(a, b),
    ensures
        observe(observe(issues, a), b) == observe(observe(issues, b), a),
    decreases issues.len(),
{
    reveal_with_fuel(observe, 3);
    let ka = issue_key(a);
    let kb = issue_key(b);
    lemma_precedes_total(ka, kb);
    if issues.len() == 0 {
        assert(seq![issue_of(a)].skip(1) =~= Seq::empty());
        assert(seq![issue_of(b)].skip(1) =~= Seq::empty());
        if ka == kb {
            lemma_new_issue_commutes(a, b);
        }
        assert(observe(seq![issue_of(a)], b) =~= observe(seq![issue_of(b)], a));
    } else {
        let head = issues[0];
        let rest = issues.skip(1);
        let kh = head.issue_key;
        assert(canonical_name(head.severity));
        assert forall|i: int| 0 <= i < rest.len() implies canonical_name(
            (#[trigger] rest[i]).severity,
        ) by {
            assert(rest[i] == issues[i + 1]);
        }
        assert((seq![issue_of(a)] + issues).skip(1) =~= issues);
        assert((seq![issue_of(b)] + issues).skip(1) =~= issues);
        assert((seq![joined_by(head, a)] + rest).skip(1) =~= rest);
        assert((seq![joined_by(head, b)] + rest).skip(1) =~= rest);
        assert((seq![head] + observe(rest, a)).skip(1) =~= observe(rest, a));
        assert((seq![head] + observe(rest, b)).skip(1) =~= observe(rest, b));
        lemma_precedes_total(ka, kh);
        lemma_precedes_total(kb, kh);
        if ka == kh && kb == kh {
            lemma_joins_commute(head, a, b);
            assert(observe(observe(issues, a), b) =~= observe(observe(issues, b), a));
        } else if ka == kh {
            assert(observe(observe(issues, a), b) =~= observe(observe(issues, b), a));
        } else if kb == kh {
            assert(observe(observe(issues, a), b) =~= observe(observe(issues, b), a));
        } else if precedes(ka, kh) && precedes(kb, kh) {
            if ka == kb {
                lemma_new_issue_commutes(a, b);
            }
            assert(observe(observe(issues, a), b) =~= observe(observe(issues, b), a));
        } else if precedes(ka, kh) {
            if precedes(kb, ka) {
                lemma_precedes_transitive(kb, ka, kh);
            }
            assert(observe(observe(issues, a), b) =~= observe(observe(issues, b), a));
        } else if precedes(kb, kh) {
            if precedes(ka, kb) {
                lemma_precedes_transitive(ka, kb, kh);
            }
            assert(observe(observe(issues, a), b) =~= observe(observe(issues, b), a));
        } else {
            lemma_observe_commutes(rest, a, b);
        }
    }
}

/// Observations with canonical severities, no two of which collide.
pub open spec fn distinct_keys(all: Seq<Observation>) -> bool {
    &&& forall|i: int| 0 <= i < all.len() ==> canonical_name((#[trigger] all[i]).severity)
    &&& forall|i: int, j: int|
        0 <= i < all.len() && 0 <= j < all.len() ==> no_collision(
            #[trigger] all[i],
            #[trigger] all[j],
        )
}

proof fn lemma_grouped_canonical(all: Seq<Observation>)
    requires
        distinct_keys(all),
    ensures
        canonical_issues(grouped(all)),
    decreases all.len(),
{
    if all.len() > 0 {
        lemma_distinct_sub(all, all.drop_last(), |i: int| i);
        lemma_grouped_canonical(all.drop_last());
        assert(all.last() == all[all.len() - 1]);
        lemma_observe_canonical(grouped(all.drop_last()), all.last());
    }
}

/// A list made of observations of another one.
proof fn lemma_distinct_sub(
    all: Seq<Observation>,
    some: Seq<Observation>,
    place: spec_fn(int) -> int,
)
    requires
        distinct_keys(all),
        forall|i: int|
            0 <= i < some.len() ==> 0 <= #[trigger] place(i) < all.len() && some[i] == all[place(
                i,
            )],
    ensures
        distinct_keys(some),
{
    assert forall|i: int| 0 <= i < some.len() implies canonical_name(
        (#[trigger] some[i]).severity,
    ) by {
        assert(some[i] == all[place(i)]);
    }
    assert forall|i: int, j: int| 0 <= i < some.len() && 0 <= j < some.len() implies no_collision(
        #[trigger] some[i],
        #[trigger] some[j],
    ) by {
        assert(some[i] == all[place(i)] && some[j] == all[place(j)]);
    }
}

/// The observation at `i` may as well come last.
proof fn lemma_move_last(all: Seq<Observation>, i: int)
    requires
        distinct_keys(all),
        0 <= i < all.len(),
    ensures
        grouped(all) == observe(grouped(all.remove(i)), all[i]),
    decreases all.len(),
{
    let n = all.len() - 1;
    if i == n {
        assert(all.remove(i) =~= all.drop_last());
    } else {
        let front = all.drop_last();
        let last = all.last();
        let short = front.remove(i);
        lemma_distinct_sub(all, front, |k: int| k);
        lemma_move_last(front, i);
        assert(front[i] == all[i]);
        assert(all.remove(i).drop_last() =~= short);
        assert(all.remove(i).last() == last);
        lemma_distinct_sub(
            all,
            short,
            |k: int|
                if k < i {
                    k
                } else {
                    k + 1
                },
        );
        lemma_grouped_canonical(short);
        assert(last == all[n]);
        lemma_observe_commutes(grouped(short), all[i], last);
    }
}

/// The issues of a report do not depend on the order of its findings, unless two findings
/// of different issues have the same digest.
pub proof fn grouping_does_not_depend_on_the_order(a: Seq<Observation>, b: Seq<Observation>)
    ensures
        distinct_keys(a) && a.to_multiset() == b.to_multiset() ==> grouped(a) == grouped(b),
    decreases a.len(),
{
    if distinct_keys(a) && a.to_multiset() == b.to_multiset() {
        a.to_multiset_ensures();
        b.to_multiset_ensures();
        assert(a.len() == b.len());
        if b.len() == 0 {
            assert(a =~= b);
        } else {
            let x = b.last();
            assert(b.contains(x));
            assert(b.to_multiset().contains(x));
            assert(a.contains(x));
            let i = choose|i: int| 0 <= i < a.len() && a[i] == x;
            lemma_move_last(a, i);
            let shorter = a.remove(i);
            lemma_distinct_sub(
                a,
                shorter,
                |k: int|
                    if k < i {
                        k
                    } else {
                        k + 1
                    },
            );
            assert(shorter.to_multiset() =~= a.to_multiset().remove(x));
            assert(b.drop_last().push(x) =~= b);
            b.drop_last().to_multiset_ensures();
            assert(b.drop_last().to_multiset() =~= b.to_multiset().remove(x));
            grouping_does_not_depend_on_the_order(shorter, b.drop_last());
        }
    }
}

/// Where a key stands or would stand among keys in rising order.
proof fn slot_among(keys: Seq<Seq<char>>, key: Seq<char>, from: int) -> (r: (int, bool))
    requires
        texts_rise(keys),
        0 <= from <= keys.len(),
        forall|k: int| 0 <= k < from ==> precedes(#[trigger] keys[k], key),
    ensures
        slot_of(keys, key, r.0, r.1),
    decreases keys.len() - from,
{
    if from == keys.len() {
        (from, false)
    } else {
        lemma_precedes_total(keys[from], key);
        if keys[from] == key {
            (from, true)
        } else if precedes(keys[from], key) {
            slot_among(keys, key, from + 1)
        } else {
            assert forall|k: int| from <= k < keys.len() implies precedes(
                key,
                #[trigger] keys[k],
            ) by {
                if k > from {
                    lemma_precedes_transitive(key, keys[from], keys[k]);
                }
            }
            (from, false)
        }
    }
}

/// Where a text is put into a sorted list.
proof fn place_among(list: Seq<Seq<char>>, text: Seq<char>, from: int) -> (at: int)
    requires
        texts_sorted(list),
        0 <= from <= list.len(),
        forall|k: int| 0 <= k < from ==> !precedes(text, #[trigger] list[k]),
    ensures
        0 <= at <= list.len(),
        forall|k: int| 0 <= k < at ==> !precedes(text, #[trigger] list[k]),
        forall|k: int| at <= k < list.len() ==> precedes(text, #[trigger] list[k]),
    decreases list.len() - from,
{
    if from == list.len() {
        from
    } else if !precedes(text, list[from]) {
        place_among(list, text, from + 1)
    } else {
        assert forall|k: int| from <= k < list.len() implies precedes(text, #[trigger] list[k]) by {
            if k > from {
                lemma_precedes_total(list[from], list[k]);
                if list[from] != list[k] {
                    lemma_precedes_transitive(text, list[from], list[k]);
                }
            }
        }
        from
    }
}

proof fn lemma_insert_sorts(list: Seq<Seq<char>>, text: Seq<char>)
    requires
        texts_sorted(list),
    ensures
        texts_sorted(insert_text(list, text)),
{
    let at = place_among(list, text, 0);
    lemma_insert_text(list, text, at);
    lemma_insert_text_sorted(list, text, at);
}

proof fn lemma_insert_contains(list: Seq<Seq<char>>, text: Seq<char>, x: Seq<char>)
    ensures
        insert_text(list, text).contains(x) <==> list.contains(x) || x == text,
        insert_text(list, text).len() == list.len() + 1,
    decreases list.len(),
{
    let now = insert_text(list, text);
    if list.len() == 0 {
        assert(now[0] == text);
    } else if precedes(text, list[0]) {
        assert(now[0] == text);
        assert forall|i: int| 0 <= i < list.len() implies #[trigger] list[i] == now[i + 1] by {}
        if list.contains(x) {
            let i = choose|i: int| 0 <= i < list.len() && list[i] == x;
            assert(now[i + 1] == x);
        }
        if now.contains(x) && x != text {
            let i = choose|i: int| 0 <= i < now.len() && now[i] == x;
            assert(list[i - 1] == x);
        }
    } else {
        let rest = list.skip(1);
        let tail = insert_text(rest, text);
        lemma_insert_contains(rest, text, x);
        assert(now =~= seq![list[0]] + tail);
        if list.contains(x) || x == text {
            if list[0] == x {
                assert(now[0] == x);
            } else {
                if list.contains(x) {
                    let i = choose|i: int| 0 <= i < list.len() && list[i] == x;
                    assert(rest[i - 1] == x);
                }
                let i = choose|i: int| 0 <= i < tail.len() && tail[i] == x;
                assert(now[i + 1] == x);
            }
        }
        if now.contains(x) && x != text {
            let i = choose|i: int| 0 <= i < now.len() && now[i] == x;
            if i > 0 {
                assert(tail[i - 1] == x);
                let j = choose|j: int| 0 <= j < rest.len() && rest[j] == x;
                assert(list[j + 1] == x);
            } else {
                assert(list[0] == x);
            }
        }
    }
}

proof fn lemma_insert_distinct(list: Seq<Seq<char>>, text: Seq<char>)
    requires
        texts_sorted(list),
        list.no_duplicates(),
        !list.contains(text),
    ensures
        insert_text(list, text).no_duplicates(),
{
    let at = place_among(list, text, 0);
    lemma_insert_text(list, text, at);
    let now = list.insert(at, text);
    assert forall|i: int, j: int| 0 <= i < now.len() && 0 <= j < now.len() && i != j implies now[i]
        != now[j] by {
        let a = if i < at {
            i
        } else {
            i - 1
        };
        let b = if j < at {
            j
        } else {
            j - 1
        };
        if i == at {
            assert(now[j] == list[b]);
        } else if j == at {
            assert(now[i] == list[a]);
        } else {
            assert(now[i] == list[a] && now[j] == list[b]);
        }
    }
}

/// Whether the issue with the key holds the finding.
pub open spec fn held(issues: Seq<IssueView>, key: Seq<char>, id: Seq<char>) -> bool {
    exists|k: int|
        0 <= k < issues.len() && (#[trigger] issues[k]).issue_key == key
            && issues[k].finding_ids.contains(id)
}

proof fn lemma_held_cons(head: IssueView, rest: Seq<IssueView>, key: Seq<char>, id: Seq<char>)
    ensures
        held(seq![head] + rest, key, id) <==> (head.issue_key == key && head.finding_ids.contains(
            id,
        )) || held(rest, key, id),
{
    let all = seq![head] + rest;
    if held(rest, key, id) {
        let k = choose|k: int|
            0 <= k < rest.len() && (#[trigger] rest[k]).issue_key == key
                && rest[k].finding_ids.contains(id);
        assert(all[k + 1] == rest[k]);
    }
    if head.issue_key == key && head.finding_ids.contains(id) {
        assert(all[0] == head);
    }
    if held(all, key, id) {
        let k = choose|k: int|
            0 <= k < all.len() && (#[trigger] all[k]).issue_key == key
                && all[k].finding_ids.contains(id);
        if k > 0 {
            assert(rest[k - 1] == all[k]);
        }
    }
}

proof fn lemma_observe_held(
    issues: Seq<IssueView>,
    o: Observation,
    key: Seq<char>,
    id: Seq<char>,
)
    ensures
        held(observe(issues, o), key, id) <==> held(issues, key, id) || (key == issue_key(o) && id
            == o.id),
    decreases issues.len(),
{
    if issues.len() == 0 {
        lemma_held_cons(issue_of(o), issues, key, id);
        assert(seq![issue_of(o)] + issues =~= seq![issue_of(o)]);
        assert(seq![o.id][0] == o.id);
    } else {
        let head = issues[0];
        let rest = issues.skip(1);
        assert(issues =~= seq![head] + rest);
        lemma_held_cons(head, rest, key, id);
        if head.issue_key == issue_key(o) {
            lemma_held_cons(joined_by(head, o), rest, key, id);
            lemma_insert_contains(head.finding_ids, o.id, id);
        } else if precedes(issue_key(o), head.issue_key) {
            lemma_held_cons(issue_of(o), issues, key, id);
            assert(seq![o.id][0] == o.id);
        } else {
            lemma_held_cons(head, observe(rest, o), key, id);
            lemma_observe_held(rest, o, key, id);
        }
    }
}

/// Issues in order, none of which holds a finding twice.
pub open spec fn issues_distinct(issues: Seq<IssueView>) -> bool {
    &&& issues_in_order(issues)
    &&& forall|i: int|
        0 <= i < issues.len() ==> (#[trigger] issues[i]).finding_ids.no_duplicates()
}

proof fn lemma_observe_distinct(issues: Seq<IssueView>, o: Observation)
    requires
        issues_in_order(issues),
    ensures
        issues_in_order(observe(issues, o)),
        issues_distinct(issues) && !held(issues, issue_key(o), o.id) ==> issues_distinct(
            observe(issues, o),
        ),
{
    let (at, found) = slot_among(issue_keys(issues), issue_key(o), 0);
    if found {
        lemma_insert_sorts(issues[at].finding_ids, o.id);
    }
    lemma_observe_in_order(issues, o, at, found);
    lemma_observe_at(issues, o, at, found);
    let now = observe(issues, o);
    if issues_distinct(issues) && !held(issues, issue_key(o), o.id) {
        assert forall|i: int| 0 <= i < now.len() implies (
        #[trigger] now[i]).finding_ids.no_duplicates() by {
            if found {
                if i == at {
                    assert(issue_keys(issues)[at] == issues[at].issue_key);
                    lemma_insert_distinct(issues[at].finding_ids, o.id);
                } else {
                    assert(now[i] == issues[i]);
                }
            } else if i < at {
                assert(now[i] == issues[i]);
            } else if i > at {
                assert(now[i] == issues[i - 1]);
            }
        }
    }
}

/// Whether one of the observations is of the finding and of the issue with the key.
pub open spec fn observed_under(all: Seq<Observation>, key: Seq<char>, id: Seq<char>) -> bool {
    exists|i: int|
        0 <= i < all.len() && (#[trigger] all[i]).id == id && issue_key(all[i]) == key
}

proof fn lemma_grouped_held(all: Seq<Observation>, key: Seq<char>, id: Seq<char>)
    ensures
        held(grouped(all), key, id) <==> observed_under(all, key, id),
    decreases all.len(),
{
    if all.len() > 0 {
        let fore = all.drop_last();
        lemma_grouped_held(fore, key, id);
        lemma_observe_held(grouped(fore), all.last(), key, id);
        if observed_under(fore, key, id) {
            let i = choose|i: int|
                0 <= i < fore.len() && (#[trigger] fore[i]).id == id && issue_key(fore[i]) == key;
            assert(all[i] == fore[i]);
        }
        if key == issue_key(all.last()) && id == all.last().id {
            assert(all[all.len() - 1] == all.last());
        }
        if observed_under(all, key, id) {
            let i = choose|i: int|
                0 <= i < all.len() && (#[trigger] all[i]).id == id && issue_key(all[i]) == key;
            if i < fore.len() {
                assert(fore[i] == all[i]);
            }
        }
    }
}

/// Whether no two observations are of the same finding.
pub open spec fn ids_distinct(all: Seq<Observation>) -> bool {
    forall|i: int, j: int|
        0 <= i < j < all.len() ==> (#[trigger] all[i]).id != (#[trigger] all[j]).id
}

/// The issues of a report stand in the order of their keys, each with its findings in
/// order; where no two findings have the same identifier, no issue holds one twice.
pub proof fn issues_are_in_order(all: Seq<Observation>)
    ensures
        issues_in_order(grouped(all)),
        ids_distinct(all) ==> issues_distinct(grouped(all)),
    decreases all.len(),
{
    if all.len() > 0 {
        let fore = all.drop_last();
        let o = all.last();
        issues_are_in_order(fore);
        lemma_observe_distinct(grouped(fore), o);
        if ids_distinct(all) {
            assert(ids_distinct(fore)) by {
                assert forall|i: int, j: int| 0 <= i < j < fore.len() implies (
                #[trigger] fore[i]).id != (#[trigger] fore[j]).id by {
                    assert(fore[i] == all[i] && fore[j] == all[j]);
                }
            }
            lemma_grouped_held(fore, issue_key(o), o.id);
            if observed_under(fore, issue_key(o), o.id) {
                let i = choose|i: int|
                    0 <= i < fore.len() && (#[trigger] fore[i]).id == o.id && issue_key(fore[i])
                        == issue_key(o);
                assert(all[i] == fore[i]);
                assert(all[all.len() - 1] == o);
            }
        }
    }
}

/// Whether the issue at `k` is the one issue of the list that holds the finding.
pub open spec fn only_holder(issues: Seq<IssueView>, k: int, id: Seq<char>) -> bool {
    &&& 0 <= k < issues.len()
    &&& issues[k].finding_ids.contains(id)
    &&& forall|j: int|
        0 <= j < issues.len() && (#[trigger] issues[j]).finding_ids.contains(id) ==> j == k
}

/// Whether exactly one issue holds the finding of an observation, the one with its key.
pub open spec fn has_one_issue(issues: Seq<IssueView>, o: Observation) -> bool {
    exists|k: int| #[trigger]
        only_holder(issues, k, o.id) && issues[k].issue_key == issue_key(o)
}

/// Where no two findings have the same identifier, each stands in exactly one issue, once,
/// and that issue has the key of the finding; and an issue holds nothing but findings of
/// the report.
pub proof fn each_finding_has_one_issue(all: Seq<Observation>)
    requires
        ids_distinct(all),
    ensures
        issues_distinct(grouped(all)),
        forall|i: int|
            0 <= i < all.len() ==> has_one_issue(grouped(all), #[trigger] all[i]),
        forall|k: int, id: Seq<char>|
            0 <= k < grouped(all).len() && #[trigger] grouped(all)[k].finding_ids.contains(id)
                ==> exists|i: int| 0 <= i < all.len() && (#[trigger] all[i]).id == id,
{
    let issues = grouped(all);
    issues_are_in_order(all);
    assert forall|i: int| 0 <= i < all.len() implies has_one_issue(issues, #[trigger] all[i]) by {
        let o = all[i];
        assert(observed_under(all, issue_key(o), o.id));
        lemma_grouped_held(all, issue_key(o), o.id);
        let k = choose|k: int|
            0 <= k < issues.len() && (#[trigger] issues[k]).issue_key == issue_key(o)
                && issues[k].finding_ids.contains(o.id);
        assert forall|j: int|
            0 <= j < issues.len() && (#[trigger] issues[j]).finding_ids.contains(
                o.id,
            ) implies j == k by {
            let key = issues[j].issue_key;
            assert(held(issues, key, o.id));
            lemma_grouped_held(all, key, o.id);
            let n = choose|n: int|
                0 <= n < all.len() && (#[trigger] all[n]).id == o.id && issue_key(all[n]) == key;
            assert(n == i);
            let keys = issue_keys(issues);
            assert(keys[j] == keys[k]);
            lemma_precedes_total(keys[j], keys[k]);
        }
        assert(only_holder(issues, k, o.id));
    }
    assert forall|k: int, id: Seq<char>|
        0 <= k < issues.len() && #[trigger] issues[k].finding_ids.contains(id) implies exists|i: int|
        0 <= i < all.len() && (#[trigger] all[i]).id == id by {
        assert(held(issues, issues[k].issue_key, id));
        lemma_grouped_held(all, issues[k].issue_key, id);
    }
}

/// Whether `issue` is what the observations of its key amount to.
pub open spec fn sums_up(issue: IssueView, all: Seq<Observation>) -> bool {
    &&& exists|i: int|
        #![trigger all[i]]
        0 <= i < all.len() && issue_key(all[i]) == issue.issue_key && all[i].kind
            == issue.identity_kind && all[i].rule == issue.rule_id && all[i].class
            == issue.classification && all[i].target == issue.target
    &&& exists|i: int|
        #![trigger all[i]]
        0 <= i < all.len() && issue_key(all[i]) == issue.issue_key && (all[i].severity
            == issue.severity || rank(issue.severity) is None)
    &&& forall|i: int|
        #![trigger all[i]]
        0 <= i < all.len() && issue_key(all[i]) == issue.issue_key ==> no_graver(
            all[i].severity,
            issue.severity,
        )
}

/// Whether a severity is known and no graver than another, or that one is not known.
pub open spec fn no_graver(a: Seq<char>, b: Seq<char>) -> bool {
    rank(b) is Some ==> rank(a) is Some && rank(a)->0 <= rank(b)->0
}

/// An issue is as grave as the gravest of its findings, of unknown severity where one of
/// them is, and has the rule, the class and the target of its findings.
pub proof fn an_issue_sums_up_its_findings(all: Seq<Observation>)
    ensures
        forall|k: int|
            0 <= k < grouped(all).len() ==> sums_up(#[trigger] grouped(all)[k], all),
    decreases all.len(),
{
    if all.len() > 0 {
        let front = all.drop_last();
        let o = all.last();
        let key = issue_key(o);
        let before = grouped(front);
        let after = grouped(all);
        an_issue_sums_up_its_findings(front);
        issues_are_in_order(front);
        let keys = issue_keys(before);
        let (at, found) = slot_among(keys, key, 0);
        lemma_observe_at(before, o, at, found);
        assert(all =~= front.push(o));
        assert(all[front.len() as int] == o);
        assert forall|k: int| 0 <= k < after.len() implies sums_up(#[trigger] after[k], all) by {
            if found && k == at {
                assert(keys[at] == before[at].issue_key);
                lemma_joined_sums_up(before[at], front, o, all);
            } else if !found && k == at {
                assert forall|i: int| 0 <= i < front.len() implies issue_key(#[trigger] front[i])
                    != key by {
                    if issue_key(front[i]) == key {
                        assert(observed_under(front, key, front[i].id));
                        lemma_grouped_held(front, key, front[i].id);
                        let n = choose|n: int|
                            0 <= n < before.len() && (#[trigger] before[n]).issue_key == key
                                && before[n].finding_ids.contains(front[i].id);
                        assert(keys[n] == key);
                        lemma_precedes_total(keys[n], key);
                    }
                }
                assert(sums_up(issue_of(o), all));
            } else {
                let n = if found || k < at {
                    k
                } else {
                    k - 1
                };
                assert(after[k] == before[n]);
                assert(keys[n] == before[n].issue_key);
                lemma_precedes_total(keys[n], key);
                if found {
                    lemma_precedes_total(keys[at], keys[n]);
                }
                assert(before[n].issue_key != key);
                lemma_others_sum_up(before[n], front, o, all);
            }
        }
    }
}

proof fn lemma_joined_sums_up(
    issue: IssueView,
    front: Seq<Observation>,
    o: Observation,
    all: Seq<Observation>,
)
    requires
        all == front.push(o),
        sums_up(issue, front),
        issue.issue_key == issue_key(o),
    ensures
        sums_up(joined_by(issue, o), all),
{
    let now = joined_by(issue, o);
    assert forall|i: int| 0 <= i < front.len() implies #[trigger] all[i] == front[i] by {}
    assert(all[front.len() as int] == o);
    let i = choose|i: int|
        #![trigger front[i]]
        0 <= i < front.len() && issue_key(front[i]) == issue.issue_key && front[i].kind
            == issue.identity_kind && front[i].rule == issue.rule_id && front[i].class
            == issue.classification && front[i].target == issue.target;
    assert(all[i] == front[i]);
    let j = choose|j: int|
        #![trigger front[j]]
        0 <= j < front.len() && issue_key(front[j]) == issue.issue_key && (front[j].severity
            == issue.severity || rank(issue.severity) is None);
    assert(all[j] == front[j]);
    lemma_unknown_has_no_rank();
    assert forall|k: int|
        #![trigger all[k]]
        0 <= k < all.len() && issue_key(all[k]) == now.issue_key implies no_graver(
        all[k].severity,
        now.severity,
    ) by {
        if k < front.len() {
            assert(no_graver(front[k].severity, issue.severity));
        }
    }
}

proof fn lemma_unknown_has_no_rank()
    ensures
        rank("unknown"@) is None,
{
    reveal_strlit("critical");
    reveal_strlit("high");
    reveal_strlit("medium");
    reveal_strlit("low");
    reveal_strlit("info");
    reveal_strlit("informational");
    reveal_strlit("note");
    reveal_strlit("unknown");
    assert("critical"@.len() == 8 && "high"@.len() == 4 && "medium"@.len() == 6 && "low"@.len() == 3
        && "info"@.len() == 4 && "informational"@.len() == 13 && "note"@.len() == 4
        && "unknown"@.len() == 7);
}

proof fn lemma_others_sum_up(
    issue: IssueView,
    front: Seq<Observation>,
    o: Observation,
    all: Seq<Observation>,
)
    requires
        all == front.push(o),
        sums_up(issue, front),
        issue.issue_key != issue_key(o),
    ensures
        sums_up(issue, all),
{
    assert forall|i: int| 0 <= i < front.len() implies #[trigger] all[i] == front[i] by {}
    assert(all[front.len() as int] == o);
    let i = choose|i: int|
        #![trigger front[i]]
        0 <= i < front.len() && issue_key(front[i]) == issue.issue_key && front[i].kind
            == issue.identity_kind && front[i].rule == issue.rule_id && front[i].class
            == issue.classification && front[i].target == issue.target;
    assert(all[i] == front[i]);
    let j = choose|j: int|
        #![trigger front[j]]
        0 <= j < front.len() && issue_key(front[j]) == issue.issue_key && (front[j].severity
            == issue.severity || rank(issue.severity) is None);
    assert(all[j] == front[j]);
}

} // verus!
