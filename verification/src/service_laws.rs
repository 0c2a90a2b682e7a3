//! What webhooks are sent, and what the small commands answer.

use vstd::prelude::*;
use vstd::string::*;
use vstd::utf8::{
    decode_utf8, encode_utf8, encode_utf8_decode_utf8, encode_utf8_valid_utf8, is_ascii_chars,
    is_ascii_chars_encode_utf8, valid_utf8,
};

use crate::build_stamp::{needs_copy, said, version, Change};
use crate::daemon_error::{DaemonError, DaemonErrorView};
use crate::digest::hex_bytes;
use crate::pack::{
    archive_line, created_line, keygen_line, signing, summary_code, verify_code, CreateArgs,
    PackSigning, SummaryOutcome,
};
use crate::report::{
    begin, begun, comparison_line, exit_code, follow, followed, summary_text, ActionView,
    ReportAction, ReportArgs, ReportStep, ReportSummary,
};
use crate::scheduler::TimeSpan;
use crate::scheduler_laws::nanoseconds;
use crate::text::{
    split_bytes_on, digit, contains, decimal, ends_with, hex_char, hex_digit_value,
    lemma_decimal_parses, lemma_find_char, lemma_find_char_is, lemma_find_from, lemma_rfind_char,
    occurs_at, parse_decimal, starts_with, trim, white_space,
};
use crate::text_laws::{
    a_part_is_contained, joining_is_associative, parts_of_parts_are_contained,
    trimming_takes_white_space_from_the_ends,
};
use crate::webhook::{
    check_remaining, check_written, http_status, judge_reply, reply_error, request_text, unresolved,
    url_error, url_parts, UrlParts, WebhookRequest,
};

verus! {

/// An address without a port has that of its scheme, and one without a path asks for the
/// root.
pub proof fn addresses_have_usual_ports_and_paths(
    scheme: Seq<char>,
    host: Seq<char>,
    path: Seq<char>,
)
    requires
        !scheme.contains(':'),
        !host.contains('/') && !host.contains(':'),
        path.len() > 0 ==> path[0] == '/',
    ensures
        url_parts(scheme + "://"@ + host + path) matches Some(u) && {
            &&& u.scheme == scheme
            &&& u.host == host
            &&& u.port == if scheme == "https"@ {
                443int
            } else {
                80
            }
            &&& path.len() > 0 ==> u.path == path
            &&& path.len() == 0 ==> u.path == "/"@
        },
{
    reveal_strlit("://");
    let text = scheme + "://"@ + host + path;
    let at = scheme.len() as int;
    lemma_find_from(text, "://"@, 0);
    assert(text.subrange(at, at + 3) =~= "://"@);
    assert(occurs_at(text, "://"@, at));
    assert forall|j: int| 0 <= j < at implies !occurs_at(text, "://"@, j) by {
        if occurs_at(text, "://"@, j) {
            assert(text.subrange(j, j + 3)[0] == ':');
            assert(text[j] == scheme[j]);
            assert(scheme.contains(scheme[j]));
        }
    }
    assert(text.take(at) =~= scheme);
    let rest = text.skip(at + 3);
    assert(rest =~= host + path);
    assert forall|j: int| 0 <= j < host.len() implies rest[j] != '/' && host[j] != ':' by {
        assert(rest[j] == host[j]);
        assert(host.contains(host[j]));
    }
    lemma_find_char(rest, '/');
    if path.len() > 0 {
        lemma_find_char_is(rest, '/', host.len() as int);
        assert(rest.take(host.len() as int) =~= host);
        assert(rest.skip(host.len() as int) =~= path);
    } else {
        assert(rest =~= host);
    }
    lemma_rfind_char(host, ':');
}

/// A webhook is sent over plain HTTP and over nothing else.
pub proof fn webhooks_go_over_plain_http(url: Seq<char>)
    ensures
        url_error(url) is None <==> (url_parts(url) matches Some(u) && u.scheme == "http"@),
        url_error(url) matches Some(e) ==> (e matches DaemonErrorView::Io(io) && io.kind
            == "InvalidInput"@ && (url_parts(url) is None ==> contains(io.message, url))),
{
    a_part_is_contained("invalid webhook url: "@, url, Seq::empty());
}

/// A request asks for the path at the host and ends in the payload, whose length in bytes it
/// states.
pub proof fn requests_state_the_length_of_their_payload(url: UrlParts, payload: Seq<char>)
    ensures
        ({
            let r = request_text(url, payload);
            &&& starts_with(r, "POST "@ + url.path + " HTTP/1.1\r\n"@)
            &&& contains(r, "Host: "@ + url.host + "\r\n"@)
            &&& contains(
                r,
                "Content-Length: "@ + decimal(encode_utf8(payload).len()) + "\r\n"@,
            )
            &&& ends_with(r, "\r\n\r\n"@ + payload)
            &&& parse_decimal(
                decimal(encode_utf8(payload).len()),
                encode_utf8(payload).len(),
            ) == Some(encode_utf8(payload).len())
        }),
{
    let r = request_text(url, payload);
    let n = decimal(encode_utf8(payload).len());
    lemma_decimal_parses(encode_utf8(payload).len(), encode_utf8(payload).len());
    reveal_strlit(" HTTP/1.1\r\nHost: ");
    reveal_strlit(" HTTP/1.1\r\n");
    reveal_strlit("Host: ");
    reveal_strlit("\r\n");
    reveal_strlit("\r\nContent-Type: application/json\r\nContent-Length: ");
    reveal_strlit("Content-Type: application/json\r\n");
    reveal_strlit("Content-Length: ");
    reveal_strlit("\r\nConnection: close\r\n\r\n");
    reveal_strlit("Connection: close");
    reveal_strlit("\r\n\r\n");
    let first = "POST "@ + url.path + " HTTP/1.1\r\n"@;
    let host = "Host: "@ + url.host + "\r\n"@;
    let length = "Content-Length: "@ + n + "\r\n"@;
    let kind = "Content-Type: application/json\r\n"@;
    let end = "\r\n\r\n"@ + payload;
    assert(" HTTP/1.1\r\nHost: "@ =~= " HTTP/1.1\r\n"@ + "Host: "@);
    assert("\r\nContent-Type: application/json\r\nContent-Length: "@ =~= "\r\n"@ + kind
        + "Content-Length: "@);
    assert("\r\nConnection: close\r\n\r\n"@ =~= "\r\n"@ + "Connection: close"@ + "\r\n\r\n"@);
    let tail = "Connection: close"@ + end;
    assert(r =~= first + host + (kind + length + tail));
    a_part_is_contained(first, host, kind + length + tail);
    assert(r =~= (first + host + kind) + length + tail);
    a_part_is_contained(first + host + kind, length, tail);
    assert(r.subrange(0, first.len() as int) =~= first);
    assert(r.subrange(r.len() - end.len(), r.len() as int) =~= end);
}

/// A reply is a success if and only if its status is one; any other status is told.
pub proof fn only_a_status_of_success_is_one(response: Seq<u8>)
    ensures
        reply_error(response) is None <==> (http_status(response) matches Some(n) && n / 100 == 2),
        http_status(response) matches Some(n) ==> (n / 100 != 2 ==> (reply_error(
            response,
        ) matches Some(DaemonErrorView::Io(io)) && contains(io.message, decimal(n)))),
        reply_error(response) matches Some(e) ==> e is Io,
{
    if let Some(n) = http_status(response) {
        a_part_is_contained("webhook returned "@, decimal(n), Seq::empty());
    }
}

/// A webhook gives up when its time is used up, and when nothing more can be written.
pub proof fn a_webhook_gives_up_in_time(
    remaining: TimeSpan,
    r: Result<TimeSpan, DaemonError>,
    count: usize,
    w: Result<(), DaemonError>,
)
    requires
        call_ensures(check_remaining, (remaining,), r),
        call_ensures(check_written, (count,), w),
    ensures
        r is Ok <==> nanoseconds(remaining) > 0,
        r matches Ok(span) ==> span == remaining,
        r matches Err(e) ==> (e@ matches DaemonErrorView::Io(io) && io.kind == "TimedOut"@),
        w is Ok <==> count > 0,
        w matches Err(e) ==> (e@ matches DaemonErrorView::Io(io) && io.kind == "WriteZero"@),
{
}

/// A host that is not found is named, with its port.
pub proof fn a_host_that_is_not_found_is_named(request: &WebhookRequest, r: DaemonError)
    requires
        call_ensures(unresolved, (request,), r),
    ensures
        r@ matches DaemonErrorView::Io(io) && io.kind == "InvalidInput"@ && ends_with(
            io.message,
            request.host@ + ":"@ + decimal(request.port as nat),
        ),
{
    let n = decimal(request.port as nat);
    let at = request.host@ + ":"@ + n;
    let all = "could not resolve "@ + request.host@ + ":"@ + n;
    assert(all =~= "could not resolve "@ + at);
    assert(all.subrange(all.len() - at.len(), all.len() as int) =~= at);
}

/// A pack passes if and only if its summary says that it is valid and, where that is asked
/// for, that somebody trusted has signed it. Other commands fail only for a summary that is
/// not there or says that the pack is not valid.
pub proof fn packs_pass_only_where_they_are_verified(
    outcome: SummaryOutcome,
    strict: bool,
    verify: i32,
    shown: i32,
)
    requires
        call_ensures(verify_code, (outcome, strict), verify),
        call_ensures(summary_code, (outcome,), shown),
    ensures
        verify == 0 || verify == 1,
        shown == 0 || shown == 1,
        verify == 0 ==> outcome is Shown && outcome->valid == Some(true),
        verify == 0 && strict ==> outcome->authenticated == Some(true),
        outcome matches SummaryOutcome::Shown { valid, authenticated } ==> {
            &&& valid == Some(true) && !strict ==> verify == 0
            &&& valid == Some(true) && authenticated == Some(true) ==> verify == 0
            &&& shown == 1 <==> valid == Some(false)
        },
        outcome !is Shown ==> verify == 1 && shown == 1,
        verify == 0 ==> shown == 0,
{
}

/// A pack is signed if and only if both a key and its name are given, and with those.
pub proof fn packs_are_signed_with_the_key_given(args: &CreateArgs, r: PackSigning<'_>)
    requires
        call_ensures(signing, (args,), r),
    ensures
        r is Authenticated <==> args.signing_key is Some && args.key_id is Some,
        r matches PackSigning::Authenticated { signing_key, key_id } ==> signing_key@
            == args.signing_key->0@ && key_id@ == args.key_id->0@,
        r matches PackSigning::Labelled { sign_key: Some(label) } ==> args.sign_key is Some && label@
            == args.sign_key->0@,
        r matches PackSigning::Labelled { sign_key: None } ==> args.sign_key is None,
{
}

/// The lines that the commands print end in what they are about.
pub proof fn printed_lines_tell_what_they_are_about(
    public: &str,
    key_line: String,
    digest: &str,
    digest_line: String,
    path: &str,
    compared: String,
    items: Option<u64>,
    created: String,
)
    requires
        call_ensures(keygen_line, (public,), key_line),
        call_ensures(archive_line, (digest,), digest_line),
        call_ensures(comparison_line, (path,), compared),
        call_ensures(created_line, (items,), created),
    ensures
        ends_with(key_line@, public@),
        ends_with(digest_line@, digest@),
        ends_with(compared@, path@),
        items matches Some(n) ==> contains(created@, decimal(n as nat) + " items"@),
        items is None ==> contains(created@, decimal(0) + " items"@),
{
    assert(key_line@.subrange(key_line@.len() - public@.len(), key_line@.len() as int)
        =~= public@);
    assert(digest_line@.subrange(digest_line@.len() - digest@.len(), digest_line@.len() as int)
        =~= digest@);
    assert(compared@.subrange(compared@.len() - path@.len(), compared@.len() as int) =~= path@);
    let n = match items {
        Some(n) => n as nat,
        None => 0,
    };
    joining_is_associative("update pack manifest: "@, decimal(n), " items"@);
    a_part_is_contained("update pack manifest: "@, decimal(n) + " items"@, Seq::empty());
}

/// A report ends in success only after its last step, and a failure tells its reason.
pub proof fn reports_fail_with_their_reason(
    step: ReportStep,
    failure: Option<Seq<char>>,
    baseline: bool,
    triage: bool,
)
    ensures
        failure matches Some(reason) ==> (followed(step, failure, baseline) matches ActionView::Fail {
            message,
        } && ends_with(message, reason) && starts_with(message, "error: "@)),
        begun(baseline, triage) is Fail <==> triage && !baseline,
        failure is None ==> !(followed(step, failure, baseline) is Fail),
        failure is None && step == ReportStep::WriteReports ==> (followed(step, failure, baseline)
            == (ActionView::Take { step: ReportStep::Compare }) <==> baseline),
{
    if let Some(reason) = failure {
        reveal_strlit("error: ");
        reveal_strlit("error: reports generated but comparison failed: ");
        let plain = "error: "@ + reason;
        let late = "error: reports generated but comparison failed: "@ + reason;
        assert(plain.subrange(plain.len() - reason.len(), plain.len() as int) =~= reason);
        assert(late.subrange(late.len() - reason.len(), late.len() as int) =~= reason);
        assert(plain.subrange(0, 7) =~= "error: "@);
        assert(late.subrange(0, 7) =~= "error: "@);
    }
}

/// The program ends with success for a report that succeeded, with failure for one that did
/// not, and does not end while a step is left.
pub proof fn programs_end_as_their_report(action: &ReportAction, r: Option<i32>)
    requires
        call_ensures(exit_code, (action,), r),
    ensures
        r is None <==> *action is Take,
        r == Some(0i32) <==> *action is Succeed,
        r matches Some(code) ==> code == 0 || code == 1,
{
}

/// The summary of a report names the run, the findings and each file that was written, and
/// no other.
pub proof fn summaries_name_what_was_written(s: &ReportSummary)
    ensures
        ({
            let t = summary_text(s);
            &&& t.len() == 1 + (if s.sarif_path is Some {
                1int
            } else {
                0
            }) + (if s.junit_path is Some {
                1int
            } else {
                0
            }) + (if s.csv_path is Some {
                1int
            } else {
                0
            })
            &&& starts_with(t[0], "REPORT run="@ + s.run_id@)
            &&& contains(t[0], " findings="@ + decimal(s.findings_count as nat))
            &&& contains(t[0], " json="@ + s.json_path@)
            &&& ends_with(t[0], " markdown="@ + s.markdown_path@)
            &&& s.sarif_path matches Some(p) ==> t[1] == "SARIF "@ + p@
            &&& s.csv_path matches Some(p) ==> t.last() == "CSV "@ + p@
            &&& s.junit_path matches Some(p) ==> t.contains("JUNIT "@ + p@)
        }),
{
    let t = summary_text(s);
    let none = Seq::<char>::empty();
    let a = "REPORT run="@ + s.run_id@;
    let n = decimal(s.findings_count as nat);
    let b = " findings="@ + n;
    let c = " json="@ + s.json_path@;
    let d = " markdown="@ + s.markdown_path@;
    joining_is_associative(a, " findings="@, n);
    joining_is_associative(a + b, " json="@, s.json_path@);
    joining_is_associative(a + b + c, " markdown="@, s.markdown_path@);
    let line = a + b + c + d;
    assert(t[0] == line);
    assert(line.subrange(0, a.len() as int) =~= a);
    assert(line.subrange(line.len() - d.len(), line.len() as int) =~= d);
    a_part_is_contained(a, b, none);
    parts_of_parts_are_contained(none, a + b, c, b);
    parts_of_parts_are_contained(none, a + b + c, d, b);
    a_part_is_contained(a + b, c, d);
    if let Some(p) = s.junit_path {
        let at = if s.sarif_path is Some {
            2int
        } else {
            1
        };
        assert(t[at] == "JUNIT "@ + p@);
    }
}

/// A release is called by its package's version; another build by what the repository says
/// of it, and by the package's version only where it says nothing.
pub proof fn builds_are_called_by_what_they_are(
    described: Option<Seq<char>>,
    package: Option<Seq<char>>,
)
    ensures
        package matches Some(p) ==> version(true, described, package) == "v"@ + p,
        described matches Some(d) ==> version(false, described, package) == d,
        described is None ==> (package matches Some(p) ==> version(false, described, package) == p),
        version(true, described, package) == version(true, None, package),
{
}

/// A file is copied over another where it is there and the other is not, or not of its time.
pub proof fn files_are_copied_where_they_changed(source: Change, copy: Change, r: bool)
    requires
        call_ensures(needs_copy, (source, copy), r),
    ensures
        source is None ==> !r,
        source is Some && copy is None ==> r,
        source is Some && copy is Some ==> (r <==> source->0 != copy->0),
{
}

/// Digests are written with two digits for each byte, and different ones differently.
pub proof fn digests_are_told_apart(a: Seq<u8>, b: Seq<u8>)
    ensures
        hex_bytes(a).len() == 2 * a.len(),
        hex_bytes(a) == hex_bytes(b) ==> a == b,
        forall|i: int|
            0 <= i < hex_bytes(a).len() ==> ('0' <= #[trigger] hex_bytes(a)[i] <= '9' || 'a'
                <= hex_bytes(a)[i] <= 'f'),
    decreases a.len() + b.len(),
{
    if b.len() > 0 && a.len() == 0 {
        assert(hex_bytes(b).len() >= 2);
    }
    if a.len() > 0 {
        let fa = a.drop_last();
        digests_are_told_apart(fa, Seq::empty());
        let ha = hex_bytes(a);
        assert forall|i: int| 0 <= i < ha.len() implies ('0' <= #[trigger] ha[i] <= '9' || 'a'
            <= ha[i] <= 'f') by {
            if i < 2 * fa.len() {
                assert(ha[i] == hex_bytes(fa)[i]);
            }
        }
        if b.len() > 0 && ha == hex_bytes(b) {
            let fb = b.drop_last();
            let hb = hex_bytes(b);
            digests_are_told_apart(fb, Seq::empty());
            digests_are_told_apart(fa, fb);
            let n = ha.len();
            assert(ha.drop_last().drop_last() =~= hex_bytes(fa));
            assert(hb.drop_last().drop_last() =~= hex_bytes(fb));
            assert(ha[n - 1] == hex_char(a.last() as nat % 16));
            assert(hb[n - 1] == hex_char(b.last() as nat % 16));
            assert(ha[n - 2] == hex_char(a.last() as nat / 16));
            assert(hb[n - 2] == hex_char(b.last() as nat / 16));
            lemma_hex_chars(a.last() as nat / 16, b.last() as nat / 16);
            lemma_hex_chars(a.last() as nat % 16, b.last() as nat % 16);
            assert(a =~= fa.push(a.last()));
            assert(b =~= fb.push(b.last()));
        }
    }
}

proof fn lemma_hex_chars(m: nat, n: nat)
    requires
        m < 16,
        n < 16,
        hex_char(m) == hex_char(n),
    ensures
        m == n,
{
    assert(hex_digit_value(hex_char(m)) == Some(m));
    assert(hex_digit_value(hex_char(n)) == Some(n));
}

/// What the repository said is taken without the white space around it, where the command
/// succeeded and said anything.
pub proof fn what_was_said_is_taken_trimmed(success: bool, output: Seq<u8>)
    ensures
        !success ==> said(success, output) is None,
        said(success, output) matches Some(s) ==> s.len() > 0 && valid_utf8(output) && s == trim(
            decode_utf8(output),
        ) && !white_space(s[0]) && !white_space(s.last()),
        success && valid_utf8(output) && trim(decode_utf8(output)).len() > 0 ==> said(
            success,
            output,
        ) is Some,
{
    let r = trimming_takes_white_space_from_the_ends(decode_utf8(output));
}

/// A report begins with the first step that there is for it and goes on as it was begun.
pub proof fn a_report_is_begun_and_followed(
    args: &ReportArgs,
    first: ReportAction,
    step: ReportStep,
    next: ReportAction,
)
    requires
        call_ensures(begin, (args,), first),
        call_ensures(follow, (args, step, None), next),
    ensures
        first is Fail <==> args.triage is Some && args.baseline is None,
        args.baseline is Some ==> first == (ReportAction::Take { step: ReportStep::LoadBaseline }),
        args.baseline is None && args.triage is None ==> first == (ReportAction::Take {
            step: ReportStep::LoadTriage,
        }),
        next !is Fail,
        step == ReportStep::WriteReports && args.baseline is None ==> next is Succeed,
        step == ReportStep::WriteReports && args.baseline is Some ==> next == (ReportAction::Take {
            step: ReportStep::Compare,
        }),
        step == ReportStep::LoadBaseline ==> next == (ReportAction::Take {
            step: ReportStep::LoadTriage,
        }),
        step == ReportStep::LoadTriage ==> next == (ReportAction::Take {
            step: ReportStep::WriteReports,
        }),
        step == ReportStep::Compare ==> next is Succeed,
{
}

/// A reply that is judged good is one whose status is of success.
pub proof fn good_replies_have_a_status_of_success(response: &[u8], r: Result<(), DaemonError>)
    requires
        call_ensures(judge_reply, (response,), r),
    ensures
        r is Ok <==> (http_status(response@) matches Some(n) && n / 100 == 2),
{
    only_a_status_of_success_is_one(response@);
}

proof fn lemma_one_piece(a: Seq<u8>, sep: u8)
    requires
        !a.contains(sep),
    ensures
        split_bytes_on(a, sep) == seq![a],
    decreases a.len(),
{
    if a.len() == 0 {
        assert(a =~= Seq::empty());
        assert(split_bytes_on(a, sep) =~= seq![a]);
    } else {
        let front = a.drop_last();
        assert(a[a.len() - 1] == a.last());
        if front.contains(sep) {
            let i = choose|i: int| 0 <= i < front.len() && front[i] == sep;
            assert(a[i] == sep);
        }
        lemma_one_piece(front, sep);
        assert(front.push(a.last()) =~= a);
        assert(split_bytes_on(a, sep) =~= seq![a]);
    }
}

proof fn lemma_first_piece(a: Seq<u8>, b: Seq<u8>, sep: u8)
    requires
        !a.contains(sep),
    ensures
        split_bytes_on(b, sep).len() >= 1,
        split_bytes_on(a.push(sep) + b, sep) == seq![a] + split_bytes_on(b, sep),
    decreases b.len(),
{
    let all = a.push(sep) + b;
    if b.len() == 0 {
        lemma_one_piece(a, sep);
        assert(b =~= Seq::empty());
        assert(all =~= a.push(sep));
        assert(all.drop_last() =~= a);
        assert(split_bytes_on(all, sep) =~= seq![a] + split_bytes_on(b, sep));
    } else {
        let front = b.drop_last();
        lemma_first_piece(a, front, sep);
        assert(all.drop_last() =~= a.push(sep) + front);
        let before = split_bytes_on(front, sep);
        let joined = seq![a] + before;
        assert(joined.last() == before.last());
        assert(joined.drop_last() =~= seq![a] + before.drop_last());
        assert(split_bytes_on(all, sep) =~= seq![a] + split_bytes_on(b, sep));
    }
}

/// The status of a reply is the number behind the version in its first line, whatever
/// follows.
pub proof fn the_status_stands_behind_the_version(
    version: Seq<u8>,
    n: nat,
    reason: Seq<u8>,
    rest: Seq<u8>,
)
    requires
        n <= 0xffff,
        !version.contains(32) && !version.contains(10),
        !reason.contains(10),
    ensures
        http_status(
            (version.push(32) + encode_utf8(decimal(n)).push(32) + reason).push(10) + rest,
        ) == Some(n),
{
    let digits = decimal(n);
    let word = encode_utf8(digits);
    lemma_decimal_parses(n, 0xffff);
    assert(is_ascii_chars(digits)) by {
        assert forall|i: int| 0 <= i < digits.len() implies '\0' <= #[trigger] digits[i]
            <= '\u{7f}' by {
            assert(digit(digits[i]));
        }
    }
    is_ascii_chars_encode_utf8(digits);
    assert forall|i: int| 0 <= i < word.len() implies 48 <= #[trigger] word[i] <= 57 by {
        assert(digit(digits[i]));
        assert(digits[i] as u8 == word[i]);
    }
    encode_utf8_valid_utf8(digits);
    encode_utf8_decode_utf8(digits);
    let line = version.push(32) + word.push(32) + reason;
    if line.contains(10) {
        let i = choose|i: int| 0 <= i < line.len() && line[i] == 10;
        if i < version.len() {
            assert(version[i] == 10);
        } else if i > version.len() && i < version.len() + 1 + word.len() {
            assert(word[i - version.len() - 1] == 10);
        } else if i > version.len() + 1 + word.len() {
            assert(reason[i - version.len() - word.len() - 2] == 10);
        }
    }
    if word.contains(32) {
        let i = choose|i: int| 0 <= i < word.len() && word[i] == 32;
    }
    lemma_first_piece(line, rest, 10);
    lemma_first_piece(word, reason, 32);
    lemma_first_piece(version, word.push(32) + reason, 32);
    assert(line =~= version.push(32) + (word.push(32) + reason));
    let words = split_bytes_on(line, 32);
    assert(words[1] == word);
    assert(digit(digits[0]) && digit(digits[digits.len() - 1]));
    assert(trim(digits) == digits);
}

} // verus!
