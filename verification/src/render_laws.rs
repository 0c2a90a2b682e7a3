//! What the comparison shows of each issue, as text and as a page.

use vstd::prelude::*;
use vstd::string::*;

use crate::comparison_entries::{Comparison, ComparisonCounts, Entry};
use crate::comparison_render::{
    finding_list, html_term, owner_or, reason_or, control, entry_issue, html_article, html_articles,
    html_char, html_counts, html_each, html_section, html_text, markdown_text, md_char, md_count,
    md_counts, md_each, md_row, md_rows, md_text, page_text, severity_or_dash,
};
use crate::text::{contains, join, decimal, ends_with, occurs_at, starts_with, texts};
use crate::text_laws::{a_part_is_contained, joining_is_associative, parts_of_parts_are_contained};

verus! {

/// What stands in a part stands in the whole.
proof fn lemma_through(s: Seq<char>, p: Seq<char>, q: Seq<char>)
    requires
        contains(s, p),
        contains(p, q),
    ensures
        contains(s, q),
{
    let i = choose|i: int| occurs_at(s, p, i);
    let j = choose|j: int| occurs_at(p, q, j);
    assert(s.subrange(i + j, i + j + q.len()) =~= s.subrange(i, i + p.len()).subrange(
        j,
        j + q.len(),
    ));
    assert(occurs_at(s, q, i + j));
}

proof fn lemma_left(a: Seq<char>, b: Seq<char>, p: Seq<char>)
    requires
        contains(a, p),
    ensures
        contains(a + b, p),
{
    parts_of_parts_are_contained(Seq::empty(), a, b, p);
}

proof fn lemma_right(a: Seq<char>, b: Seq<char>)
    ensures
        contains(a + b, b),
        contains(a + b, a),
{
    a_part_is_contained(a, b, Seq::empty());
    a_part_is_contained(Seq::empty(), a, b);
}

/// Text is escaped character by character, so that joined texts are escaped as the one and
/// then the other.
pub proof fn joined_texts_are_escaped_one_after_the_other(a: Seq<char>, b: Seq<char>)
    ensures
        html_text(a + b) == html_text(a) + html_text(b),
        md_text(a + b) == md_text(a) + md_text(b),
    decreases b.len(),
{
    if b.len() == 0 {
        assert(a + b =~= a);
        assert(html_text(a) + Seq::<char>::empty() =~= html_text(a));
        assert(md_text(a) + Seq::<char>::empty() =~= md_text(a));
    } else {
        let front = b.drop_last();
        assert((a + b).drop_last() =~= a + front);
        joined_texts_are_escaped_one_after_the_other(a, front);
        joining_is_associative(html_text(a), html_text(front), html_char(b.last()));
        joining_is_associative(md_text(a), md_text(front), md_char(b.last()));
    }
}

/// A character that is no markup stands for itself; one that is has an entity of its own;
/// and a control character becomes a space.
pub proof fn characters_are_escaped_as_they_are(c: char)
    ensures
        c != '&' && c != '<' && c != '>' && c != '"' && c != '\'' && !control(c) ==> html_char(c)
            == seq![c],
        control(c) ==> html_char(c) == seq![' '],
        c == '&' || c == '<' || c == '>' || c == '"' || c == '\'' ==> html_char(c).len() > 3
            && html_char(c)[0] == '&' && html_char(c).last() == ';',
        c != '|' && c != '`' && c != '\\' && c != '[' && c != ']' && c != '!' && c != '*' && c
            != '_' ==> md_char(c) == html_char(c),
        c == '|' || c == '`' || c == '\\' || c == '[' || c == ']' || c == '!' || c == '*' || c
            == '_' ==> md_char(c).len() > 3 && md_char(c)[0] == '&' && md_char(c)[1] == '#'
            && md_char(c).last() == ';',
{
    reveal_strlit("&amp;");
    reveal_strlit("&lt;");
    reveal_strlit("&gt;");
    reveal_strlit("&quot;");
    reveal_strlit("&#39;");
    reveal_strlit(" ");
    reveal_strlit("&#124;");
    reveal_strlit("&#96;");
    reveal_strlit("&#92;");
    reveal_strlit("&#91;");
    reveal_strlit("&#93;");
    reveal_strlit("&#33;");
    reveal_strlit("&#42;");
    reveal_strlit("&#95;");
    assert(" "@ =~= seq![' ']);
}

/// No two characters have the same escape, but for control characters and the space.
pub proof fn escapes_are_told_apart(c: char, d: char)
    requires
        !control(c),
        !control(d),
    ensures
        html_char(c) == html_char(d) ==> c == d,
        md_char(c) == md_char(d) ==> c == d,
{
    reveal_strlit("&amp;");
    reveal_strlit("&lt;");
    reveal_strlit("&gt;");
    reveal_strlit("&quot;");
    reveal_strlit("&#39;");
    reveal_strlit("&#124;");
    reveal_strlit("&#96;");
    reveal_strlit("&#92;");
    reveal_strlit("&#91;");
    reveal_strlit("&#93;");
    reveal_strlit("&#33;");
    reveal_strlit("&#42;");
    reveal_strlit("&#95;");
    assert("&amp;"@[1] == 'a' && "&lt;"@[1] == 'l' && "&gt;"@[1] == 'g' && "&quot;"@[1] == 'q');
    assert("&#39;"@[2] == '3' && "&#39;"@[3] == '9' && "&#124;"@[2] == '1');
    assert("&#96;"@[2] == '9' && "&#96;"@[3] == '6' && "&#92;"@[3] == '2' && "&#91;"@[3] == '1');
    assert("&#93;"@[3] == '3' && "&#95;"@[3] == '5' && "&#92;"@[2] == '9' && "&#91;"@[2] == '9');
    assert("&#93;"@[2] == '9' && "&#95;"@[2] == '9' && "&#33;"@[2] == '3' && "&#33;"@[3] == '3');
    assert("&#42;"@[2] == '4');
    characters_are_escaped_as_they_are(c);
    characters_are_escaped_as_they_are(d);
    let (a, b) = (html_char(c), html_char(d));
    if a == b {
        assert(a.len() == 1 ==> a[0] == c);
        assert(b.len() == 1 ==> b[0] == d);
        assert(a[1] == b[1] && a[2] == b[2] && a[3] == b[3]);
    }
    let (p, q) = (md_char(c), md_char(d));
    if p == q {
        assert(p.len() == 1 ==> p[0] == c);
        assert(q.len() == 1 ==> q[0] == d);
        assert(p[1] == q[1] && p[2] == q[2] && p[3] == q[3]);
    }
}

/// The row of an issue shows its state, its severities before and after, its target, what
/// was decided of it and by whom, its key, and whether it needs a review.
pub proof fn a_row_shows_its_issue(e: Entry)
    ensures
        starts_with(md_row(e), "| "@ + e.state@ + " | "@),
        contains(
            md_row(e),
            md_text(severity_or_dash(e.baseline)) + " → "@ + md_text(severity_or_dash(e.current)),
        ),
        contains(md_row(e), md_text(entry_issue(e).target@)),
        contains(md_row(e), md_text(e.review_status@)),
        e.review_needed ==> contains(md_row(e), " (review needed)"@),
        e.decision matches Some(d) ==> contains(md_row(e), md_text(d.owner@)),
        ends_with(md_row(e), " | "@ + e.issue_key@ + " |\n"@),
{
    let bar = " | "@;
    let a = "| "@ + e.state@ + bar;
    let before = md_text(severity_or_dash(e.baseline));
    let after = md_text(severity_or_dash(e.current));
    let change = before + " → "@ + after;
    let target = md_text(entry_issue(e).target@);
    let status = md_text(e.review_status@);
    let note = if e.review_needed {
        " (review needed)"@
    } else {
        ""@
    };
    let owner = md_text(crate::comparison_render::owner_or(e, ""@));
    let last = bar + e.issue_key@ + " |\n"@;
    joining_is_associative(a, before, " → "@);
    joining_is_associative(a, before + " → "@, after);
    let r5 = a + change + bar + target + bar + status + note + bar + owner;
    joining_is_associative(r5, bar, e.issue_key@);
    joining_is_associative(r5, bar + e.issue_key@, " |\n"@);
    assert(md_row(e) == r5 + last);
    lemma_row_parts(a, change, bar, target, status, note, owner, last);
}

proof fn lemma_starts(x: Seq<char>, y: Seq<char>, p: Seq<char>)
    requires
        starts_with(x, p),
    ensures
        starts_with(x + y, p),
{
    assert((x + y).subrange(0, p.len() as int) =~= x.subrange(0, p.len() as int));
}

proof fn lemma_row_parts(
    a: Seq<char>,
    change: Seq<char>,
    bar: Seq<char>,
    target: Seq<char>,
    status: Seq<char>,
    note: Seq<char>,
    owner: Seq<char>,
    last: Seq<char>,
)
    ensures
        ({
            let row = a + change + bar + target + bar + status + note + bar + owner + last;
            &&& starts_with(row, a)
            &&& ends_with(row, last)
            &&& contains(row, change)
            &&& contains(row, target)
            &&& contains(row, status)
            &&& contains(row, note)
            &&& contains(row, owner)
        }),
{
    let r1 = a + change;
    let r2 = r1 + bar + target;
    let r3 = r2 + bar + status;
    let r4 = r3 + note;
    let r5 = r4 + bar + owner;
    let row = r5 + last;
    assert(row.subrange(row.len() - last.len(), row.len() as int) =~= last);
    assert(r1.subrange(0, a.len() as int) =~= a);
    lemma_starts(r1, bar, a);
    lemma_starts(r1 + bar, target, a);
    lemma_starts(r2, bar, a);
    lemma_starts(r2 + bar, status, a);
    lemma_starts(r3, note, a);
    lemma_starts(r4, bar, a);
    lemma_starts(r4 + bar, owner, a);
    lemma_starts(r5, last, a);
    lemma_right(a, change);
    lemma_left(r1, bar, change);
    lemma_left(r1 + bar, target, change);
    lemma_right(r1 + bar, target);
    lemma_left(r2, bar, change);
    lemma_left(r2, bar, target);
    lemma_left(r2 + bar, status, change);
    lemma_left(r2 + bar, status, target);
    lemma_right(r2 + bar, status);
    lemma_right(r3, note);
    lemma_tail(r3, note, bar, owner, last, change);
    lemma_tail(r3, note, bar, owner, last, target);
    lemma_tail(r3, note, bar, owner, last, status);
    lemma_left(r4, bar, note);
    lemma_left(r4 + bar, owner, note);
    lemma_left(r5, last, note);
    lemma_right(r4 + bar, owner);
    lemma_left(r5, last, owner);
}

proof fn lemma_rows(entries: Seq<Entry>, i: int)
    requires
        0 <= i < entries.len(),
    ensures
        contains(md_rows(entries), md_row(entries[i])),
    decreases entries.len(),
{
    let front = md_rows(entries.drop_last());
    if i == entries.len() - 1 {
        lemma_right(front, md_row(entries.last()));
    } else {
        lemma_rows(entries.drop_last(), i);
        assert(entries.drop_last()[i] == entries[i]);
        lemma_left(front, md_row(entries.last()), md_row(entries[i]));
    }
}

proof fn lemma_each_md(list: Seq<Seq<char>>, open: Seq<char>, close: Seq<char>, i: int)
    requires
        0 <= i < list.len(),
    ensures
        contains(md_each(list, open, close), open + md_text(list[i]) + close),
        contains(html_each(list, open, close), open + html_text(list[i]) + close),
    decreases list.len(),
{
    let front = list.drop_last();
    let m = open + md_text(list.last()) + close;
    let h = open + html_text(list.last()) + close;
    if i == list.len() - 1 {
        lemma_right(md_each(front, open, close), m);
        lemma_right(html_each(front, open, close), h);
    } else {
        lemma_each_md(front, open, close, i);
        assert(front[i] == list[i]);
        lemma_left(md_each(front, open, close), m, open + md_text(list[i]) + close);
        lemma_left(html_each(front, open, close), h, open + html_text(list[i]) + close);
    }
}

/// The counts are all shown, each under its name.
pub proof fn all_counts_are_shown(c: ComparisonCounts)
    ensures
        contains(md_counts(c), "new: "@ + decimal(c.new as nat)),
        contains(md_counts(c), "not_observed: "@ + decimal(c.not_observed as nat)),
        contains(md_counts(c), "persistent: "@ + decimal(c.persistent as nat)),
        contains(md_counts(c), "reopened: "@ + decimal(c.reopened as nat)),
        contains(md_counts(c), "review_needed: "@ + decimal(c.review_needed as nat)),
        contains(md_counts(c), "severity_increased: "@ + decimal(c.severity_increased as nat)),
{
    let a = md_count("new"@, c.new);
    let b = md_count("not_observed"@, c.not_observed);
    let d = md_count("persistent"@, c.persistent);
    let e = md_count("reopened"@, c.reopened);
    let f = md_count("review_needed"@, c.review_needed);
    let g = md_count("severity_increased"@, c.severity_increased);
    let all = md_counts(c);
    assert(all == a + b + d + e + f + g);
    lemma_right(a, b);
    lemma_left(a + b, d, a);
    lemma_left(a + b, d, b);
    lemma_right(a + b, d);
    lemma_left(a + b + d, e, a);
    lemma_left(a + b + d, e, b);
    lemma_left(a + b + d, e, d);
    lemma_right(a + b + d, e);
    lemma_left(a + b + d + e, f, a);
    lemma_left(a + b + d + e, f, b);
    lemma_left(a + b + d + e, f, d);
    lemma_left(a + b + d + e, f, e);
    lemma_right(a + b + d + e, f);
    lemma_left(a + b + d + e + f, g, a);
    lemma_left(a + b + d + e + f, g, b);
    lemma_left(a + b + d + e + f, g, d);
    lemma_left(a + b + d + e + f, g, e);
    lemma_left(a + b + d + e + f, g, f);
    lemma_right(a + b + d + e + f, g);
    lemma_count("new"@, "new: "@, c.new, all);
    lemma_count("not_observed"@, "not_observed: "@, c.not_observed, all);
    lemma_count("persistent"@, "persistent: "@, c.persistent, all);
    lemma_count("reopened"@, "reopened: "@, c.reopened, all);
    lemma_count("review_needed"@, "review_needed: "@, c.review_needed, all);
    lemma_count("severity_increased"@, "severity_increased: "@, c.severity_increased, all);
    reveal_strlit(": ");
    reveal_strlit("new");
    reveal_strlit("new: ");
    assert("new: "@ =~= "new"@ + ": "@);
    reveal_strlit("not_observed");
    reveal_strlit("not_observed: ");
    assert("not_observed: "@ =~= "not_observed"@ + ": "@);
    reveal_strlit("persistent");
    reveal_strlit("persistent: ");
    assert("persistent: "@ =~= "persistent"@ + ": "@);
    reveal_strlit("reopened");
    reveal_strlit("reopened: ");
    assert("reopened: "@ =~= "reopened"@ + ": "@);
    reveal_strlit("review_needed");
    reveal_strlit("review_needed: ");
    assert("review_needed: "@ =~= "review_needed"@ + ": "@);
    reveal_strlit("severity_increased");
    reveal_strlit("severity_increased: ");
    assert("severity_increased: "@ =~= "severity_increased"@ + ": "@);
}

proof fn lemma_count(name: Seq<char>, label: Seq<char>, n: usize, all: Seq<char>)
    requires
        contains(all, md_count(name, n)),
    ensures
        label == name + ": "@ ==> contains(all, label + decimal(n as nat)),
{
    let shown = name + ": "@ + decimal(n as nat);
    lemma_right(shown, "  \n"@);
    lemma_through(all, md_count(name, n), shown);
}

/// The text of a comparison names both runs, shows a row for every issue, and tells every
/// warning and every decision that applied to nothing.
pub proof fn the_text_shows_everything(c: Comparison, i: int)
    ensures
        contains(
            markdown_text(c),
            md_text(c.baseline_run@) + " → "@ + md_text(c.current_run@),
        ),
        contains(markdown_text(c), md_counts(c.counts)),
        contains(markdown_text(c), crate::comparison::NOTICE@),
        0 <= i < c.issues@.len() ==> contains(markdown_text(c), md_row(c.issues@[i])),
        0 <= i < c.warnings@.len() ==> contains(markdown_text(c), md_text(c.warnings@[i]@)),
        0 <= i < c.unmatched_triage_keys@.len() ==> contains(
            markdown_text(c),
            md_text(c.unmatched_triage_keys@[i]@),
        ),
{
    let title = "# BHF campaign comparison\n\n"@;
    let x = md_text(c.baseline_run@);
    let y = md_text(c.current_run@);
    let runs = x + " → "@ + y;
    let gap = "\n\n"@;
    let notice = crate::comparison::NOTICE@;
    let counts = md_counts(c.counts);
    let head =
        "\n| State | Severity (before → after) | Target | Review | Owner | Issue key |\n|---|---|---|---|---|---|\n"@;
    let rows = md_rows(c.issues@);
    let warned = md_each(texts(c.warnings@), "\nNote: "@, "\n"@);
    let lead = if c.unmatched_triage_keys@.len() > 0 {
        "\nUnmatched triage keys (retained, not applied):\n"@
    } else {
        ""@
    };
    let keys = md_each(texts(c.unmatched_triage_keys@), "\n"@, "\n"@);
    joining_is_associative(title, x, " → "@);
    joining_is_associative(title, x + " → "@, y);
    let s1 = title + runs;
    let s2 = s1 + gap + notice + gap;
    let s3 = s2 + counts + head;
    let s4 = s3 + rows;
    let s5 = s4 + warned;
    let s6 = s5 + lead;
    let all = s6 + keys;
    assert(markdown_text(c) == all);
    lemma_right(title, runs);
    lemma_left(s1, gap, runs);
    lemma_left(s1 + gap, notice, runs);
    lemma_right(s1 + gap, notice);
    lemma_left(s1 + gap + notice, gap, runs);
    lemma_left(s1 + gap + notice, gap, notice);
    lemma_left(s2, counts, runs);
    lemma_left(s2, counts, notice);
    lemma_right(s2, counts);
    lemma_left(s2 + counts, head, runs);
    lemma_left(s2 + counts, head, notice);
    lemma_left(s2 + counts, head, counts);
    lemma_tail(s3, rows, warned, lead, keys, runs);
    lemma_tail(s3, rows, warned, lead, keys, notice);
    lemma_tail(s3, rows, warned, lead, keys, counts);
    lemma_right(s3, rows);
    lemma_left(s4, warned, rows);
    lemma_left(s5, lead, rows);
    lemma_left(s6, keys, rows);
    lemma_right(s4, warned);
    lemma_left(s5, lead, warned);
    lemma_left(s6, keys, warned);
    lemma_right(s6, keys);
    if 0 <= i < c.issues@.len() {
        lemma_rows(c.issues@, i);
        lemma_through(all, rows, md_row(c.issues@[i]));
    }
    if 0 <= i < c.warnings@.len() {
        lemma_each_md(texts(c.warnings@), "\nNote: "@, "\n"@, i);
        let t = md_text(c.warnings@[i]@);
        a_part_is_contained("\nNote: "@, t, "\n"@);
        lemma_through(warned, "\nNote: "@ + t + "\n"@, t);
        lemma_through(all, warned, t);
    }
    if 0 <= i < c.unmatched_triage_keys@.len() {
        lemma_each_md(texts(c.unmatched_triage_keys@), "\n"@, "\n"@, i);
        let t = md_text(c.unmatched_triage_keys@[i]@);
        a_part_is_contained("\n"@, t, "\n"@);
        lemma_through(keys, "\n"@ + t + "\n"@, t);
        lemma_through(all, keys, t);
    }
}

proof fn lemma_tail(
    s: Seq<char>,
    a: Seq<char>,
    b: Seq<char>,
    c: Seq<char>,
    d: Seq<char>,
    p: Seq<char>,
)
    requires
        contains(s, p),
    ensures
        contains(s + a + b + c + d, p),
{
    lemma_left(s, a, p);
    lemma_left(s + a, b, p);
    lemma_left(s + a + b, c, p);
    lemma_left(s + a + b + c, d, p);
}

/// The section of a state shows the article of every issue in that state.
pub proof fn sections_show_their_issues(entries: Seq<Entry>, i: int)
    requires
        0 <= i < entries.len(),
    ensures
        contains(html_articles(entries, entries[i].state@), html_article(entries[i])),
        contains(html_section(entries, entries[i].state@), html_article(entries[i])),
    decreases entries.len(),
{
    let state = entries[i].state@;
    let front = entries.drop_last();
    let before = html_articles(front, state);
    if i == entries.len() - 1 {
        lemma_right(before, html_article(entries.last()));
    } else {
        sections_show_their_issues(front, i);
        assert(front[i] == entries[i]);
        lemma_left(before, html_article(entries.last()), html_article(entries[i]));
    }
    let open = "<h2>"@ + html_text(state) + "</h2>"@;
    lemma_right(open, html_articles(entries, state));
    lemma_through(
        html_section(entries, state),
        html_articles(entries, state),
        html_article(entries[i]),
    );
}

/// The page shows every issue that is new, persistent or not observed.
pub proof fn the_page_shows_every_issue(c: Comparison, i: int)
    requires
        0 <= i < c.issues@.len(),
        c.issues@[i].state@ == "new"@ || c.issues@[i].state@ == "persistent"@ || c.issues@[i].state@
            == "not_observed"@,
    ensures
        contains(page_text(c), html_article(c.issues@[i])),
{
    let e = c.issues@;
    let article = html_article(e[i]);
    sections_show_their_issues(e, i);
    let first = crate::comparison_render::HTML_HEAD@ + "<p>"@ + html_text(c.baseline_run@) + " → "@
        + html_text(c.current_run@) + "</p><p>"@ + crate::comparison::NOTICE@ + "</p><nav>"@
        + html_counts(c.counts) + "</nav>"@;
    let new = html_section(e, "new"@);
    let persistent = html_section(e, "persistent"@);
    let absent = html_section(e, "not_observed"@);
    let p1 = first + new;
    let p2 = p1 + persistent;
    let p3 = p2 + absent;
    lemma_right(first, new);
    lemma_left(p1, persistent, new);
    lemma_left(p2, absent, new);
    lemma_right(p1, persistent);
    lemma_left(p2, absent, persistent);
    lemma_right(p2, absent);
    if e[i].state@ == "new"@ {
        lemma_through(p3, new, article);
    } else if e[i].state@ == "persistent"@ {
        lemma_through(p3, persistent, article);
    } else {
        lemma_through(p3, absent, article);
    }
    let limits = "<h2>Comparison limitations</h2>"@;
    let warned = html_each(texts(c.warnings@), "<p>"@, "</p>"@);
    let lead = if c.unmatched_triage_keys@.len() > 0 {
        "<h2>Unmatched triage keys</h2>"@
    } else {
        ""@
    };
    let keys = html_each(texts(c.unmatched_triage_keys@), "<p><code>"@, "</code></p>"@);
    lemma_tail(p3, limits, warned, lead, keys, article);
    lemma_left(p3 + limits + warned + lead + keys, "</html>\n"@, article);
}

/// The article of an issue shows its rule, its target, its severity, what was decided of it
/// and whether it needs a review, its key, its class and identity, who owns it and why, and
/// the findings of both reports.
pub proof fn an_article_shows_its_issue(e: Entry)
    ensures
        ({
            let a = html_article(e);
            let issue = entry_issue(e);
            &&& contains(a, html_text(issue.rule_id@))
            &&& contains(a, html_text(issue.target@))
            &&& contains(a, html_text(issue.severity@))
            &&& contains(a, html_text(e.review_status@))
            &&& e.review_needed ==> contains(a, " · Review needed"@)
            &&& contains(a, e.issue_key@)
            &&& contains(a, html_text(issue.classification@))
            &&& contains(a, html_text(issue.identity_kind@))
            &&& e.decision matches Some(d) ==> contains(a, html_text(d.owner@)) && contains(
                a,
                html_text(d.reason@),
            )
            &&& e.baseline matches Some(b) ==> contains(
                a,
                html_text(join(texts(b.finding_ids@), ", "@)),
            )
            &&& e.current matches Some(c) ==> contains(
                a,
                html_text(join(texts(c.finding_ids@), ", "@)),
            )
        }),
{
    let issue = entry_issue(e);
    let note = if e.review_needed {
        " · Review needed"@
    } else {
        ""@
    };
    let (p0, sp, c1, dot, c2, mid) = (
        "<article><h3>"@,
        " "@,
        "</h3><p>"@,
        " · "@,
        "</p><code>"@,
        "</code><details><summary>Finding evidence and triage</summary><dl>"@,
    );
    let rule = html_text(issue.rule_id@);
    let target = html_text(issue.target@);
    let sev = html_text(issue.severity@);
    let status = html_text(e.review_status@);
    let key = e.issue_key@;
    let head = p0 + rule + sp + target + c1 + sev + dot + status + note + c2 + key + mid;
    let owner = owner_or(e, "Unassigned"@);
    let reason = reason_or(e, "No recorded decision"@);
    let old = finding_list(e.baseline);
    let new = finding_list(e.current);
    let t1 = html_term("Classification"@, issue.classification@);
    let t2 = html_term("Identity"@, issue.identity_kind@);
    let t3 = html_term("Owner"@, owner);
    let t4 = html_term("Reason"@, reason);
    let t5 = html_term("Baseline IDs"@, old);
    let t6 = html_term("Current IDs"@, new);
    let end = "</dl></details></article>"@;
    let all = head + t1 + t2 + t3 + t4 + t5 + t6 + end;
    assert(html_article(e) == all);
    lemma_article_head(p0, rule, sp, target, c1, sev, dot, status, note, c2, key, mid);
    lemma_article_terms(head, t1, t2, t3, t4, t5, t6, end);
    lemma_through(all, head, rule);
    lemma_through(all, head, target);
    lemma_through(all, head, sev);
    lemma_through(all, head, status);
    lemma_through(all, head, note);
    lemma_through(all, head, key);
    lemma_term(all, "Classification"@, issue.classification@);
    lemma_term(all, "Identity"@, issue.identity_kind@);
    lemma_term(all, "Owner"@, owner);
    lemma_term(all, "Reason"@, reason);
    lemma_term(all, "Baseline IDs"@, old);
    lemma_term(all, "Current IDs"@, new);
}

proof fn lemma_term(all: Seq<char>, label: Seq<char>, value: Seq<char>)
    requires
        contains(all, html_term(label, value)),
    ensures
        contains(all, html_text(value)),
{
    a_part_is_contained("<dt>"@ + label + "</dt><dd>"@, html_text(value), "</dd>"@);
    lemma_through(all, html_term(label, value), html_text(value));
}

proof fn lemma_article_head(
    p0: Seq<char>,
    rule: Seq<char>,
    sp: Seq<char>,
    target: Seq<char>,
    c1: Seq<char>,
    sev: Seq<char>,
    dot: Seq<char>,
    status: Seq<char>,
    note: Seq<char>,
    c2: Seq<char>,
    key: Seq<char>,
    mid: Seq<char>,
)
    ensures
        ({
            let all = p0 + rule + sp + target + c1 + sev + dot + status + note + c2 + key + mid;
            &&& contains(all, rule)
            &&& contains(all, target)
            &&& contains(all, sev)
            &&& contains(all, status)
            &&& contains(all, note)
            &&& contains(all, key)
        }),
{
    let s0 = p0 + rule;
    lemma_right(p0, rule);
    let s1 = s0 + sp;
    lemma_left(s0, sp, rule);
    let s2 = s1 + target;
    lemma_left(s1, target, rule);
    lemma_right(s1, target);
    let s3 = s2 + c1;
    lemma_left(s2, c1, rule);
    lemma_left(s2, c1, target);
    let s4 = s3 + sev;
    lemma_left(s3, sev, rule);
    lemma_left(s3, sev, target);
    lemma_right(s3, sev);
    let s5 = s4 + dot;
    lemma_left(s4, dot, rule);
    lemma_left(s4, dot, target);
    lemma_left(s4, dot, sev);
    let s6 = s5 + status;
    lemma_left(s5, status, rule);
    lemma_left(s5, status, target);
    lemma_left(s5, status, sev);
    lemma_right(s5, status);
    let s7 = s6 + note;
    lemma_left(s6, note, rule);
    lemma_left(s6, note, target);
    lemma_left(s6, note, sev);
    lemma_left(s6, note, status);
    lemma_right(s6, note);
    let s8 = s7 + c2;
    lemma_left(s7, c2, rule);
    lemma_left(s7, c2, target);
    lemma_left(s7, c2, sev);
    lemma_left(s7, c2, status);
    lemma_left(s7, c2, note);
    let s9 = s8 + key;
    lemma_left(s8, key, rule);
    lemma_left(s8, key, target);
    lemma_left(s8, key, sev);
    lemma_left(s8, key, status);
    lemma_left(s8, key, note);
    lemma_right(s8, key);
    let s10 = s9 + mid;
    lemma_left(s9, mid, rule);
    lemma_left(s9, mid, target);
    lemma_left(s9, mid, sev);
    lemma_left(s9, mid, status);
    lemma_left(s9, mid, note);
    lemma_left(s9, mid, key);
}

proof fn lemma_article_terms(
    head: Seq<char>,
    t1: Seq<char>,
    t2: Seq<char>,
    t3: Seq<char>,
    t4: Seq<char>,
    t5: Seq<char>,
    t6: Seq<char>,
    end: Seq<char>,
)
    ensures
        ({
            let all = head + t1 + t2 + t3 + t4 + t5 + t6 + end;
            &&& contains(all, head)
            &&& contains(all, t1)
            &&& contains(all, t2)
            &&& contains(all, t3)
            &&& contains(all, t4)
            &&& contains(all, t5)
            &&& contains(all, t6)
        }),
{
    let s0 = head + t1;
    lemma_right(head, t1);
    lemma_right(head, t1);
    let s1 = s0 + t2;
    lemma_left(s0, t2, head);
    lemma_left(s0, t2, t1);
    lemma_right(s0, t2);
    let s2 = s1 + t3;
    lemma_left(s1, t3, head);
    lemma_left(s1, t3, t1);
    lemma_left(s1, t3, t2);
    lemma_right(s1, t3);
    let s3 = s2 + t4;
    lemma_left(s2, t4, head);
    lemma_left(s2, t4, t1);
    lemma_left(s2, t4, t2);
    lemma_left(s2, t4, t3);
    lemma_right(s2, t4);
    let s4 = s3 + t5;
    lemma_left(s3, t5, head);
    lemma_left(s3, t5, t1);
    lemma_left(s3, t5, t2);
    lemma_left(s3, t5, t3);
    lemma_left(s3, t5, t4);
    lemma_right(s3, t5);
    let s5 = s4 + t6;
    lemma_left(s4, t6, head);
    lemma_left(s4, t6, t1);
    lemma_left(s4, t6, t2);
    lemma_left(s4, t6, t3);
    lemma_left(s4, t6, t4);
    lemma_left(s4, t6, t5);
    lemma_right(s4, t6);
    let s6 = s5 + end;
    lemma_left(s5, end, head);
    lemma_left(s5, end, t1);
    lemma_left(s5, end, t2);
    lemma_left(s5, end, t3);
    lemma_left(s5, end, t4);
    lemma_left(s5, end, t5);
    lemma_left(s5, end, t6);
}

} // verus!
