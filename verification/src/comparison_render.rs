//! A comparison as Markdown and as HTML. Texts of the target are escaped, so that none of
//! them can become markup.

use vstd::prelude::*;
use vstd::string::*;

use crate::comparison::NOTICE;
use crate::comparison_entries::{entries_inhabited, Comparison, ComparisonCounts, Entry};
use crate::comparison_issues::Issue;
use crate::text::{chars_of, decimal, decimal_text, join, joined, same, texts};

verus! {

/// A control character.
pub open spec fn control(c: char) -> bool {
    (c as u32) < 0x20 || 0x7f <= c as u32 <= 0x9f
}

/// How HTML text writes a character.
pub open spec fn html_char(c: char) -> Seq<char> {
    if c == '&' {
        "&amp;"@
    } else if c == '<' {
        "&lt;"@
    } else if c == '>' {
        "&gt;"@
    } else if c == '"' {
        "&quot;"@
    } else if c == '\'' {
        "&#39;"@
    } else if control(c) {
        " "@
    } else {
        seq![c]
    }
}

/// How Markdown text writes a character: as HTML does, and what is markup as an entity.
pub open spec fn md_char(c: char) -> Seq<char> {
    if c == '|' {
        "&#124;"@
    } else if c == '`' {
        "&#96;"@
    } else if c == '\\' {
        "&#92;"@
    } else if c == '[' {
        "&#91;"@
    } else if c == ']' {
        "&#93;"@
    } else if c == '!' {
        "&#33;"@
    } else if c == '*' {
        "&#42;"@
    } else if c == '_' {
        "&#95;"@
    } else {
        html_char(c)
    }
}

/// `s` as HTML text.
pub open spec fn html_text(s: Seq<char>) -> Seq<char>
    decreases s.len(),
{
    if s.len() == 0 {
        Seq::empty()
    } else {
        html_text(s.drop_last()) + html_char(s.last())
    }
}

/// `s` as Markdown text.
pub open spec fn md_text(s: Seq<char>) -> Seq<char>
    decreases s.len(),
{
    if s.len() == 0 {
        Seq::empty()
    } else {
        md_text(s.drop_last()) + md_char(s.last())
    }
}

fn push_html(out: &mut String, c: char)
    ensures
        final(out)@ == old(out)@ + html_char(c),
{
    if c == '&' {
        out.append("&amp;");
    } else if c == '<' {
        out.append("&lt;");
    } else if c == '>' {
        out.append("&gt;");
    } else if c == '"' {
        out.append("&quot;");
    } else if c == '\'' {
        out.append("&#39;");
    } else if (c as u32) < 0x20 || (0x7f <= c as u32 && c as u32 <= 0x9f) {
        out.append(" ");
    } else {
        out.push(c);
        proof {
            assert(out@ =~= old(out)@ + seq![c]);
        }
    }
}

/// `s` as HTML text: nothing in it is markup, and control characters are spaces.
pub fn escape(s: &str) -> (r: String)
    ensures
        r@ == html_text(s@),
{
    let chars = chars_of(s);
    let mut out = String::new();
    let mut i: usize = 0;
    proof {
        assert(chars@.take(0) =~= Seq::empty());
    }
    while i < chars.len()
        invariant
            i <= chars@.len(),
            out@ == html_text(chars@.take(i as int)),
        decreases chars@.len() - i,
    {
        proof {
            assert(chars@.take(i + 1).drop_last() =~= chars@.take(i as int));
        }
        push_html(&mut out, chars[i]);
        i = i + 1;
    }
    proof {
        assert(chars@.take(i as int) =~= chars@);
    }
    out
}

/// `s` as Markdown text: nothing in it is markup or parts a table.
pub fn md(s: &str) -> (r: String)
    ensures
        r@ == md_text(s@),
{
    let chars = chars_of(s);
    let mut out = String::new();
    let mut i: usize = 0;
    proof {
        assert(chars@.take(0) =~= Seq::empty());
    }
    while i < chars.len()
        invariant
            i <= chars@.len(),
            out@ == md_text(chars@.take(i as int)),
        decreases chars@.len() - i,
    {
        let c = chars[i];
        proof {
            assert(chars@.take(i + 1).drop_last() =~= chars@.take(i as int));
        }
        if c == '|' {
            out.append("&#124;");
        } else if c == '`' {
            out.append("&#96;");
        } else if c == '\\' {
            out.append("&#92;");
        } else if c == '[' {
            out.append("&#91;");
        } else if c == ']' {
            out.append("&#93;");
        } else if c == '!' {
            out.append("&#33;");
        } else if c == '*' {
            out.append("&#42;");
        } else if c == '_' {
            out.append("&#95;");
        } else {
            push_html(&mut out, c);
        }
        i = i + 1;
    }
    proof {
        assert(chars@.take(i as int) =~= chars@);
    }
    out
}

/// A character that begins, ends or quotes markup in HTML, or controls a terminal.
pub open spec fn html_active(c: char) -> bool {
    c == '<' || c == '>' || c == '"' || c == '\'' || control(c)
}

/// A character that is markup in Markdown or HTML.
pub open spec fn md_active(c: char) -> bool {
    html_active(c) || c == '|' || c == '`' || c == '\\' || c == '[' || c == ']' || c == '!' || c
        == '*' || c == '_'
}

/// Escaped text holds no character that is markup.
pub proof fn escaped_text_is_inert(s: Seq<char>)
    ensures
        forall|i: int| 0 <= i < html_text(s).len() ==> !html_active(#[trigger] html_text(s)[i]),
        forall|i: int| 0 <= i < md_text(s).len() ==> !md_active(#[trigger] md_text(s)[i]),
    decreases s.len(),
{
    if s.len() > 0 {
        escaped_text_is_inert(s.drop_last());
        let c = s.last();
        lemma_char_is_inert(c);
        let h = html_text(s.drop_last());
        assert forall|i: int| 0 <= i < html_text(s).len() implies !html_active(
            #[trigger] html_text(s)[i],
        ) by {
            if i < h.len() {
                assert(html_text(s)[i] == h[i]);
            } else {
                assert(html_text(s)[i] == html_char(c)[i - h.len()]);
            }
        }
        let m = md_text(s.drop_last());
        assert forall|i: int| 0 <= i < md_text(s).len() implies !md_active(
            #[trigger] md_text(s)[i],
        ) by {
            if i < m.len() {
                assert(md_text(s)[i] == m[i]);
            } else {
                assert(md_text(s)[i] == md_char(c)[i - m.len()]);
            }
        }
    }
}

proof fn lemma_char_is_inert(c: char)
    ensures
        forall|i: int| 0 <= i < html_char(c).len() ==> !html_active(#[trigger] html_char(c)[i]),
        forall|i: int| 0 <= i < md_char(c).len() ==> !md_active(#[trigger] md_char(c)[i]),
{
    reveal_strlit("&amp;");
    reveal_strlit("&lt;");
    reveal_strlit("&gt;");
    reveal_strlit("&quot;");
    reveal_strlit("&#39;");
    reveal_strlit(" ");
    reveal_strlit("&#124;");
    reveal_strlit("&#96;");
    reveal_strlit("&#92;");
    reveal_strlit("&#91;");
    reveal_strlit("&#93;");
    reveal_strlit("&#33;");
    reveal_strlit("&#42;");
    reveal_strlit("&#95;");
}

/// A count as Markdown writes it.
pub open spec fn md_count(name: Seq<char>, n: usize) -> Seq<char> {
    name + ": "@ + decimal(n as nat) + "  \n"@
}

/// The counts in the order of their names.
pub open spec fn md_counts(c: ComparisonCounts) -> Seq<char> {
    md_count("new"@, c.new) + md_count("not_observed"@, c.not_observed) + md_count(
        "persistent"@,
        c.persistent,
    ) + md_count("reopened"@, c.reopened) + md_count("review_needed"@, c.review_needed) + md_count(
        "severity_increased"@,
        c.severity_increased,
    )
}

/// The issue that an entry is about.
pub open spec fn entry_issue(e: Entry) -> Issue {
    match e.current {
        Some(issue) => issue,
        None => e.baseline->0,
    }
}

/// The severity of an issue, a dash where there is none.
pub open spec fn severity_or_dash(issue: Option<Issue>) -> Seq<char> {
    match issue {
        Some(issue) => issue.severity@,
        None => "—"@,
    }
}

/// The owner of an entry's decision, `other` where there is none.
pub open spec fn owner_or(e: Entry, other: Seq<char>) -> Seq<char> {
    match e.decision {
        Some(d) => d.owner@,
        None => other,
    }
}

/// The row of an entry in the table.
pub open spec fn md_row(e: Entry) -> Seq<char> {
    "| "@ + e.state@ + " | "@ + md_text(severity_or_dash(e.baseline)) + " → "@ + md_text(
        severity_or_dash(e.current),
    ) + " | "@ + md_text(entry_issue(e).target@) + " | "@ + md_text(e.review_status@) + (
    if e.review_needed {
        " (review needed)"@
    } else {
        ""@
    }) + " | "@ + md_text(owner_or(e, ""@)) + " | "@ + e.issue_key@ + " |\n"@
}

/// The rows of entries.
pub open spec fn md_rows(entries: Seq<Entry>) -> Seq<char>
    decreases entries.len(),
{
    if entries.len() == 0 {
        Seq::empty()
    } else {
        md_rows(entries.drop_last()) + md_row(entries.last())
    }
}

/// Each of `list` between `open` and `close`, as Markdown text.
pub open spec fn md_each(list: Seq<Seq<char>>, open: Seq<char>, close: Seq<char>) -> Seq<char>
    decreases list.len(),
{
    if list.len() == 0 {
        Seq::empty()
    } else {
        md_each(list.drop_last(), open, close) + (open + md_text(list.last()) + close)
    }
}

/// A comparison as Markdown.
pub open spec fn markdown_text(c: Comparison) -> Seq<char> {
    "# BHF campaign comparison\n\n"@ + md_text(c.baseline_run@) + " → "@ + md_text(c.current_run@)
        + "\n\n"@ + NOTICE@ + "\n\n"@ + md_counts(c.counts)
        + "\n| State | Severity (before → after) | Target | Review | Owner | Issue key |\n|---|---|---|---|---|---|\n"@
        + md_rows(c.issues@) + md_each(texts(c.warnings@), "\nNote: "@, "\n"@) + (
    if c.unmatched_triage_keys@.len() > 0 {
        "\nUnmatched triage keys (retained, not applied):\n"@
    } else {
        ""@
    }) + md_each(texts(c.unmatched_triage_keys@), "\n"@, "\n"@)
}

fn push_count(out: &mut String, name: &str, n: usize)
    ensures
        final(out)@ == old(out)@ + md_count(name@, n),
{
    let ghost was = out@;
    out.append(name);
    out.append(": ");
    out.append(decimal_text(n as u64).as_str());
    out.append("  \n");
    proof {
        assert(out@ =~= was + md_count(name@, n));
    }
}

fn row_text(e: &Entry) -> (r: String)
    requires
        e.current is Some || e.baseline is Some,
    ensures
        r@ == md_row(*e),
{
    let mut out = "| ".to_owned();
    out.append(e.state);
    out.append(" | ");
    let before: &str = match &e.baseline {
        Some(issue) => issue.severity.as_str(),
        None => "—",
    };
    out.append(md(before).as_str());
    out.append(" → ");
    let after: &str = match &e.current {
        Some(issue) => issue.severity.as_str(),
        None => "—",
    };
    out.append(md(after).as_str());
    out.append(" | ");
    let issue: &Issue = shown_issue(e);
    out.append(md(issue.target.as_str()).as_str());
    out.append(" | ");
    out.append(md(e.review_status.as_str()).as_str());
    if e.review_needed {
        out.append(" (review needed)");
    } else {
        out.append("");
    }
    out.append(" | ");
    let owner: &str = match &e.decision {
        Some(d) => d.owner.as_str(),
        None => "",
    };
    out.append(md(owner).as_str());
    out.append(" | ");
    out.append(e.issue_key.as_str());
    out.append(" |\n");
    out
}

fn shown_issue(e: &Entry) -> (r: &Issue)
    requires
        e.current is Some || e.baseline is Some,
    ensures
        *r == entry_issue(*e),
{
    match &e.current {
        Some(issue) => issue,
        None => e.baseline.as_ref().unwrap(),
    }
}

fn push_each(out: &mut String, list: &Vec<String>, open: &str, close: &str)
    ensures
        final(out)@ == old(out)@ + md_each(texts(list@), open@, close@),
{
    let ghost was = out@;
    let ghost all = texts(list@);
    let mut i: usize = 0;
    proof {
        assert(all.take(0) =~= Seq::empty());
        assert(was + md_each(all.take(0), open@, close@) =~= was);
    }
    while i < list.len()
        invariant
            i <= list@.len(),
            all == texts(list@),
            out@ == was + md_each(all.take(i as int), open@, close@),
        decreases list@.len() - i,
    {
        proof {
            assert(all.take(i + 1).drop_last() =~= all.take(i as int));
            assert(all.take(i + 1).last() == list@[i as int]@);
        }
        out.append(open);
        out.append(md(list[i].as_str()).as_str());
        out.append(close);
        proof {
            assert(out@ =~= was + md_each(all.take(i + 1), open@, close@));
        }
        i = i + 1;
    }
    proof {
        assert(all.take(i as int) =~= all);
    }
}

/// The comparison as Markdown.
pub fn markdown(report: &Comparison) -> (r: String)
    requires
        entries_inhabited(*report),
    ensures
        r@ == markdown_text(*report),
{
    let mut out = "# BHF campaign comparison\n\n".to_owned();
    out.append(md(report.baseline_run.as_str()).as_str());
    out.append(" → ");
    out.append(md(report.current_run.as_str()).as_str());
    out.append("\n\n");
    out.append(NOTICE);
    out.append("\n\n");
    let ghost head = out@;
    push_count(&mut out, "new", report.counts.new);
    push_count(&mut out, "not_observed", report.counts.not_observed);
    push_count(&mut out, "persistent", report.counts.persistent);
    push_count(&mut out, "reopened", report.counts.reopened);
    push_count(&mut out, "review_needed", report.counts.review_needed);
    push_count(&mut out, "severity_increased", report.counts.severity_increased);
    proof {
        assert(out@ =~= head + md_counts(report.counts));
    }
    out.append(
        "\n| State | Severity (before → after) | Target | Review | Owner | Issue key |\n|---|---|---|---|---|---|\n",
    );
    let ghost before_rows = out@;
    let ghost entries = report.issues@;
    let mut i: usize = 0;
    proof {
        assert(entries.take(0) =~= Seq::empty());
        assert(before_rows + md_rows(entries.take(0)) =~= before_rows);
    }
    while i < report.issues.len()
        invariant
            i <= report.issues@.len(),
            entries == report.issues@,
            entries_inhabited(*report),
            out@ == before_rows + md_rows(entries.take(i as int)),
        decreases report.issues@.len() - i,
    {
        proof {
            assert(entries.take(i + 1).drop_last() =~= entries.take(i as int));
            assert(entries.take(i + 1).last() == entries[i as int]);
        }
        out.append(row_text(&report.issues[i]).as_str());
        proof {
            assert(out@ =~= before_rows + md_rows(entries.take(i + 1)));
        }
        i = i + 1;
    }
    proof {
        assert(entries.take(i as int) =~= entries);
    }
    push_each(&mut out, &report.warnings, "\nNote: ", "\n");
    if report.unmatched_triage_keys.len() > 0 {
        out.append("\nUnmatched triage keys (retained, not applied):\n");
    } else {
        out.append("");
    }
    push_each(&mut out, &report.unmatched_triage_keys, "\n", "\n");
    out
}

/// The beginning of the page.
pub const HTML_HEAD: &'static str =
    "<!doctype html><html lang=\"en\"><meta charset=\"utf-8\"><meta name=\"viewport\" content=\"width=device-width, initial-scale=1\"><meta http-equiv=\"Content-Security-Policy\" content=\"default-src 'none'; style-src 'unsafe-inline'\"><title>BHF campaign comparison</title><style>body{font:16px system-ui,sans-serif;max-width:1100px;margin:2em auto;padding:0 1em;line-height:1.5}article{border:1px solid #bbb;padding:1em;margin:1em 0;overflow-wrap:anywhere}code{font-size:.8em}summary{cursor:pointer}dt{font-weight:bold}dd{margin-bottom:.6em}nav{display:flex;gap:1em;flex-wrap:wrap}</style><h1>BHF campaign comparison</h1>";

/// A count as HTML writes it.
pub open spec fn html_count(name: Seq<char>, n: usize) -> Seq<char> {
    "<span>"@ + html_text(name) + ": <strong>"@ + decimal(n as nat) + "</strong></span>"@
}

/// The counts in the order of their names.
pub open spec fn html_counts(c: ComparisonCounts) -> Seq<char> {
    html_count("new"@, c.new) + html_count("not_observed"@, c.not_observed) + html_count(
        "persistent"@,
        c.persistent,
    ) + html_count("reopened"@, c.reopened) + html_count("review_needed"@, c.review_needed)
        + html_count("severity_increased"@, c.severity_increased)
}

/// A term and what it stands for.
pub open spec fn html_term(label: Seq<char>, value: Seq<char>) -> Seq<char> {
    "<dt>"@ + label + "</dt><dd>"@ + html_text(value) + "</dd>"@
}

/// The findings of an issue, where there is one.
pub open spec fn finding_list(issue: Option<Issue>) -> Seq<char> {
    match issue {
        Some(issue) => join(texts(issue.finding_ids@), ", "@),
        None => Seq::empty(),
    }
}

/// The reason of an entry's decision, `other` where there is none.
pub open spec fn reason_or(e: Entry, other: Seq<char>) -> Seq<char> {
    match e.decision {
        Some(d) => d.reason@,
        None => other,
    }
}

/// The article of an entry.
pub open spec fn html_article(e: Entry) -> Seq<char> {
    let issue = entry_issue(e);
    "<article><h3>"@ + html_text(issue.rule_id@) + " "@ + html_text(issue.target@) + "</h3><p>"@
        + html_text(issue.severity@) + " · "@ + html_text(e.review_status@) + (
    if e.review_needed {
        " · Review needed"@
    } else {
        ""@
    }) + "</p><code>"@ + e.issue_key@
        + "</code><details><summary>Finding evidence and triage</summary><dl>"@ + html_term(
        "Classification"@,
        issue.classification@,
    ) + html_term("Identity"@, issue.identity_kind@) + html_term(
        "Owner"@,
        owner_or(e, "Unassigned"@),
    ) + html_term("Reason"@, reason_or(e, "No recorded decision"@)) + html_term(
        "Baseline IDs"@,
        finding_list(e.baseline),
    ) + html_term("Current IDs"@, finding_list(e.current)) + "</dl></details></article>"@
}

/// The articles of the entries in the state `state`.
pub open spec fn html_articles(entries: Seq<Entry>, state: Seq<char>) -> Seq<char>
    decreases entries.len(),
{
    if entries.len() == 0 {
        Seq::empty()
    } else if entries.last().state@ == state {
        html_articles(entries.drop_last(), state) + html_article(entries.last())
    } else {
        html_articles(entries.drop_last(), state)
    }
}

/// The section of the entries in the state `state`.
pub open spec fn html_section(entries: Seq<Entry>, state: Seq<char>) -> Seq<char> {
    "<h2>"@ + html_text(state) + "</h2>"@ + html_articles(entries, state)
}

/// Each of `list` between `open` and `close`, as HTML text.
pub open spec fn html_each(list: Seq<Seq<char>>, open: Seq<char>, close: Seq<char>) -> Seq<char>
    decreases list.len(),
{
    if list.len() == 0 {
        Seq::empty()
    } else {
        html_each(list.drop_last(), open, close) + (open + html_text(list.last()) + close)
    }
}

/// A comparison as HTML.
pub open spec fn page_text(c: Comparison) -> Seq<char> {
    HTML_HEAD@ + "<p>"@ + html_text(c.baseline_run@) + " → "@ + html_text(c.current_run@)
        + "</p><p>"@ + NOTICE@ + "</p><nav>"@ + html_counts(c.counts) + "</nav>"@ + html_section(
        c.issues@,
        "new"@,
    ) + html_section(c.issues@, "persistent"@) + html_section(c.issues@, "not_observed"@)
        + "<h2>Comparison limitations</h2>"@ + html_each(texts(c.warnings@), "<p>"@, "</p>"@) + (
    if c.unmatched_triage_keys@.len() > 0 {
        "<h2>Unmatched triage keys</h2>"@
    } else {
        ""@
    }) + html_each(texts(c.unmatched_triage_keys@), "<p><code>"@, "</code></p>"@) + "</html>\n"@
}

fn push_html_count(out: &mut String, name: &str, n: usize)
    ensures
        final(out)@ == old(out)@ + html_count(name@, n),
{
    let ghost was = out@;
    out.append("<span>");
    out.append(escape(name).as_str());
    out.append(": <strong>");
    out.append(decimal_text(n as u64).as_str());
    out.append("</strong></span>");
    proof {
        assert(out@ =~= was + html_count(name@, n));
    }
}

fn term_text(label: &str, value: &str) -> (r: String)
    ensures
        r@ == html_term(label@, value@),
{
    let mut out = "<dt>".to_owned();
    out.append(label);
    out.append("</dt><dd>");
    out.append(escape(value).as_str());
    out.append("</dd>");
    out
}

fn ids_of(issue: &Option<Issue>) -> (r: String)
    ensures
        r@ == finding_list(*issue),
{
    match issue {
        Some(issue) => joined(issue.finding_ids.as_slice(), ", "),
        None => String::new(),
    }
}

fn article_text(e: &Entry) -> (r: String)
    requires
        e.current is Some || e.baseline is Some,
    ensures
        r@ == html_article(*e),
{
    let issue: &Issue = shown_issue(e);
    let mut out = "<article><h3>".to_owned();
    out.append(escape(issue.rule_id.as_str()).as_str());
    out.append(" ");
    out.append(escape(issue.target.as_str()).as_str());
    out.append("</h3><p>");
    out.append(escape(issue.severity.as_str()).as_str());
    out.append(" · ");
    out.append(escape(e.review_status.as_str()).as_str());
    if e.review_needed {
        out.append(" · Review needed");
    } else {
        out.append("");
    }
    out.append("</p><code>");
    out.append(e.issue_key.as_str());
    out.append("</code><details><summary>Finding evidence and triage</summary><dl>");
    out.append(term_text("Classification", issue.classification.as_str()).as_str());
    out.append(term_text("Identity", issue.identity_kind.as_str()).as_str());
    let owner: &str = match &e.decision {
        Some(d) => d.owner.as_str(),
        None => "Unassigned",
    };
    out.append(term_text("Owner", owner).as_str());
    let reason: &str = match &e.decision {
        Some(d) => d.reason.as_str(),
        None => "No recorded decision",
    };
    out.append(term_text("Reason", reason).as_str());
    out.append(term_text("Baseline IDs", ids_of(&e.baseline).as_str()).as_str());
    out.append(term_text("Current IDs", ids_of(&e.current).as_str()).as_str());
    out.append("</dl></details></article>");
    out
}

fn push_section(out: &mut String, report: &Comparison, state: &str)
    requires
        entries_inhabited(*report),
    ensures
        final(out)@ == old(out)@ + html_section(report.issues@, state@),
{
    let ghost was = out@;
    out.append("<h2>");
    out.append(escape(state).as_str());
    out.append("</h2>");
    let ghost head = out@;
    let ghost entries = report.issues@;
    let mut i: usize = 0;
    proof {
        assert(entries.take(0) =~= Seq::empty());
        assert(head + html_articles(entries.take(0), state@) =~= head);
    }
    while i < report.issues.len()
        invariant
            i <= report.issues@.len(),
            entries == report.issues@,
            entries_inhabited(*report),
            out@ == head + html_articles(entries.take(i as int), state@),
        decreases report.issues@.len() - i,
    {
        proof {
            assert(entries.take(i + 1).drop_last() =~= entries.take(i as int));
            assert(entries.take(i + 1).last() == entries[i as int]);
        }
        if same(report.issues[i].state, state) {
            out.append(article_text(&report.issues[i]).as_str());
            proof {
                assert(out@ =~= head + html_articles(entries.take(i + 1), state@));
            }
        }
        i = i + 1;
    }
    proof {
        assert(entries.take(i as int) =~= entries);
        assert(out@ =~= was + html_section(report.issues@, state@));
    }
}

fn push_html_each(out: &mut String, list: &Vec<String>, open: &str, close: &str)
    ensures
        final(out)@ == old(out)@ + html_each(texts(list@), open@, close@),
{
    let ghost was = out@;
    let ghost all = texts(list@);
    let mut i: usize = 0;
    proof {
        assert(all.take(0) =~= Seq::empty());
        assert(was + html_each(all.take(0), open@, close@) =~= was);
    }
    while i < list.len()
        invariant
            i <= list@.len(),
            all == texts(list@),
            out@ == was + html_each(all.take(i as int), open@, close@),
        decreases list@.len() - i,
    {
        proof {
            assert(all.take(i + 1).drop_last() =~= all.take(i as int));
            assert(all.take(i + 1).last() == list@[i as int]@);
        }
        out.append(open);
        out.append(escape(list[i].as_str()).as_str());
        out.append(close);
        proof {
            assert(out@ =~= was + html_each(all.take(i + 1), open@, close@));
        }
        i = i + 1;
    }
    proof {
        assert(all.take(i as int) =~= all);
    }
}

/// The comparison as HTML. The page loads no scripts.
pub fn html(report: &Comparison) -> (r: String)
    requires
        entries_inhabited(*report),
    ensures
        r@ == page_text(*report),
{
    let mut out = HTML_HEAD.to_owned();
    out.append("<p>");
    out.append(escape(report.baseline_run.as_str()).as_str());
    out.append(" → ");
    out.append(escape(report.current_run.as_str()).as_str());
    out.append("</p><p>");
    out.append(NOTICE);
    out.append("</p><nav>");
    let ghost head = out@;
    push_html_count(&mut out, "new", report.counts.new);
    push_html_count(&mut out, "not_observed", report.counts.not_observed);
    push_html_count(&mut out, "persistent", report.counts.persistent);
    push_html_count(&mut out, "reopened", report.counts.reopened);
    push_html_count(&mut out, "review_needed", report.counts.review_needed);
    push_html_count(&mut out, "severity_increased", report.counts.severity_increased);
    proof {
        assert(out@ =~= head + html_counts(report.counts));
    }
    out.append("</nav>");
    push_section(&mut out, report, "new");
    push_section(&mut out, report, "persistent");
    push_section(&mut out, report, "not_observed");
    out.append("<h2>Comparison limitations</h2>");
    push_html_each(&mut out, &report.warnings, "<p>", "</p>");
    if report.unmatched_triage_keys.len() > 0 {
        out.append("<h2>Unmatched triage keys</h2>");
    } else {
        out.append("");
    }
    push_html_each(&mut out, &report.unmatched_triage_keys, "<p><code>", "</code></p>");
    out.append("</html>\n");
    out
}

} // verus!
