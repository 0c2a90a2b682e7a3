//! Notifying a webhook over plain HTTP: the address, the request and the reply.

use vstd::prelude::*;
use vstd::slice::slice_subrange;
use vstd::string::*;
use vstd::utf8::{decode_utf8, encode_utf8, valid_utf8};

use crate::daemon_error::{DaemonError, DaemonErrorView, IoError, IoErrorView};
use crate::scheduler::{gives, TimeSpan};
use crate::text::{
    byte_rows, bytes_of, cat2, cat4, chars_of, decimal, decimal_of, decimal_text, digit, find,
    find_char, index_of, last_index_of, lemma_decimal_parses, lemma_find_char_is, lemma_find_from,
    lemma_rfind_char, occurs_at, parse_decimal, position_of, reads, rfind_char, same, split_bytes,
    split_bytes_on, string_of, trim, trimmed, utf8_text,
};

verus! {

/// The most bytes of a reply that are read.
pub const MAX_WEBHOOK_RESPONSE_BYTES: usize = 65536;

/// An address that was taken apart.
#[derive(Debug, Clone, PartialEq, Eq)]
pub struct ParsedUrl {
    pub scheme: String,
    pub host: String,
    pub port: u16,
    pub path: String,
}

/// An address that was taken apart, as texts.
pub struct UrlParts {
    pub scheme: Seq<char>,
    pub host: Seq<char>,
    pub port: nat,
    pub path: Seq<char>,
}

impl View for ParsedUrl {
    type V = UrlParts;

    open spec fn view(&self) -> UrlParts {
        UrlParts {
            scheme: self.scheme@,
            host: self.host@,
            port: self.port as nat,
            path: self.path@,
        }
    }
}

/// The parts of `url`: the scheme before `://`, the path from the first slash behind it
/// (a slash where there is none), the port behind the last colon before that, which is
/// the scheme's own where there is none, and the host before it.
pub open spec fn url_parts(url: Seq<char>) -> Option<UrlParts> {
    match find(url, "://"@) {
        None => None,
        Some(at) => {
            let scheme = url.take(at);
            let rest = url.skip(at + 3);
            let (authority, path) = match find_char(rest, '/') {
                Some(slash) => (rest.take(slash), rest.skip(slash)),
                None => (rest, "/"@),
            };
            match rfind_char(authority, ':') {
                Some(colon) => match parse_decimal(authority.skip(colon + 1), 0xffff) {
                    None => None,
                    Some(port) => Some(
                        UrlParts { scheme, host: authority.take(colon), port, path },
                    ),
                },
                None => Some(
                    UrlParts {
                        scheme,
                        host: authority,
                        port: if scheme == "https"@ {
                            443
                        } else {
                            80
                        },
                        path,
                    },
                ),
            }
        },
    }
}

/// The parts of `url`.
pub fn parse_http_url(url: &str) -> (r: Option<ParsedUrl>)
    ensures
        match r {
            Some(parts) => url_parts(url@) == Some(parts@),
            None => url_parts(url@) is None,
        },
{
    let chars = chars_of(url);
    let all = chars.as_slice();
    let length: usize = all.len();
    proof {
        reveal_strlit("://");
        lemma_find_from(url@, "://"@, 0);
    }
    let at: usize = match position_of(all, chars_of("://").as_slice()) {
        None => {
            return None;
        },
        Some(at) => at,
    };
    let scheme = slice_subrange(all, 0, at);
    let rest = slice_subrange(all, at + 3, length);
    proof {
        assert(scheme@ =~= url@.take(at as int));
        assert(rest@ =~= url@.skip(at + 3));
    }
    let rest_length: usize = rest.len();
    let slash: Option<usize> = index_of(rest, '/');
    let authority: &[char] = match slash {
        Some(slash) => slice_subrange(rest, 0, slash),
        None => rest,
    };
    let path: String = match slash {
        Some(slash) => string_of(slice_subrange(rest, slash, rest_length)),
        None => "/".to_owned(),
    };
    proof {
        if let Some(i) = slash {
            assert(authority@ =~= rest@.take(i as int));
            assert(path@ =~= rest@.skip(i as int));
        }
    }
    let authority_length: usize = authority.len();
    match last_index_of(authority, ':') {
        Some(colon) => {
            proof {
                assert(authority@.subrange(colon + 1, authority@.len() as int)
                    =~= authority@.skip(colon + 1));
                assert(authority@.subrange(0, colon as int) =~= authority@.take(colon as int));
            }
            match decimal_of(slice_subrange(authority, colon + 1, authority_length), 0xffff) {
                None => None,
                Some(port) => Some(
                    ParsedUrl {
                        scheme: string_of(scheme),
                        host: string_of(slice_subrange(authority, 0, colon)),
                        port: port as u16,
                        path,
                    },
                ),
            }
        },
        None => Some(
            ParsedUrl {
                scheme: string_of(scheme),
                host: string_of(authority),
                port: if reads(scheme, "https") {
                    443
                } else {
                    80
                },
                path,
            },
        ),
    }
}

/// The second of the words that spaces part in the first line of `response`.
pub open spec fn status_word(response: Seq<u8>) -> Option<Seq<u8>> {
    let words = split_bytes_on(split_bytes_on(response, 10)[0], 32);
    if words.len() < 2 {
        None
    } else {
        Some(words[1])
    }
}

/// The status that an HTTP reply gives.
pub open spec fn http_status(response: Seq<u8>) -> Option<nat> {
    match status_word(response) {
        None => None,
        Some(word) => if valid_utf8(word) {
            parse_decimal(trim(decode_utf8(word)), 0xffff)
        } else {
            None
        },
    }
}

/// The status that an HTTP reply gives.
pub fn parse_http_status(response: &[u8]) -> (r: Option<u16>)
    ensures
        match r {
            Some(status) => http_status(response@) == Some(status as nat),
            None => http_status(response@) is None,
        },
{
    let rows = split_bytes(response, 10);
    proof {
        assert(byte_rows(rows@)[0] == rows@[0]@);
    }
    let words = split_bytes(rows[0].as_slice(), 32);
    proof {
        assert(byte_rows(words@).len() == words@.len());
    }
    if words.len() < 2 {
        return None;
    }
    proof {
        assert(byte_rows(words@)[1] == words@[1]@);
    }
    match utf8_text(words[1].as_slice()) {
        None => None,
        Some(text) => {
            let chars = chars_of(text.as_str());
            match decimal_of(trimmed(chars.as_slice()), 0xffff) {
                Some(status) => Some(status as u16),
                None => None,
            }
        },
    }
}

/// A request that is ready to be sent.
#[derive(Debug, Clone, PartialEq, Eq)]
pub struct WebhookRequest {
    pub host: String,
    pub port: u16,
    pub text: String,
}

/// The text of the request that posts `payload` to an address.
pub open spec fn request_text(url: UrlParts, payload: Seq<char>) -> Seq<char> {
    "POST "@ + url.path + " HTTP/1.1\r\nHost: "@ + url.host
        + "\r\nContent-Type: application/json\r\nContent-Length: "@ + decimal(
        encode_utf8(payload).len(),
    ) + "\r\nConnection: close\r\n\r\n"@ + payload
}

/// Why nothing can be posted to `url`, if there is a reason.
pub open spec fn url_error(url: Seq<char>) -> Option<DaemonErrorView> {
    match url_parts(url) {
        None => Some(
            DaemonErrorView::Io(
                IoErrorView {
                    kind: "InvalidInput"@,
                    raw_os_error: None,
                    message: "invalid webhook url: "@ + url,
                },
            ),
        ),
        Some(parts) => if parts.scheme != "http"@ {
            Some(
                DaemonErrorView::Io(
                    IoErrorView {
                        kind: "InvalidInput"@,
                        raw_os_error: None,
                        message: "only http:// webhooks are supported in v0.1; use a TLS-terminating proxy for https"@,
                    },
                ),
            )
        } else {
            None
        },
    }
}

/// The request that posts `payload` to `url`; only plain HTTP is spoken.
pub fn plan_webhook(url: &str, payload: &str) -> (r: Result<WebhookRequest, DaemonError>)
    ensures
        gives(r, url_error(url@)),
        r matches Ok(request) ==> {
            let parts = url_parts(url@)->0;
            &&& request.host@ == parts.host
            &&& request.port == parts.port
            &&& request.text@ == request_text(parts, payload@)
        },
{
    let parsed = match parse_http_url(url) {
        None => {
            return Err(
                DaemonError::Io(
                    IoError::new("InvalidInput", cat2("invalid webhook url: ", url).as_str()),
                ),
            );
        },
        Some(parsed) => parsed,
    };
    if !same(parsed.scheme.as_str(), "http") {
        return Err(
            DaemonError::Io(
                IoError::new(
                    "InvalidInput",
                    "only http:// webhooks are supported in v0.1; use a TLS-terminating proxy for https",
                ),
            ),
        );
    }
    let mut text = "POST ".to_owned();
    text.append(parsed.path.as_str());
    text.append(" HTTP/1.1\r\nHost: ");
    text.append(parsed.host.as_str());
    text.append("\r\nContent-Type: application/json\r\nContent-Length: ");
    text.append(decimal_text(bytes_of(payload).len() as u64).as_str());
    text.append("\r\nConnection: close\r\n\r\n");
    text.append(payload);
    Ok(WebhookRequest { host: parsed.host, port: parsed.port, text })
}

/// The time that is left before a webhook's deadline: none is an error.
pub fn check_remaining(remaining: TimeSpan) -> (r: Result<TimeSpan, DaemonError>)
    ensures
        gives(
            r,
            if remaining.secs == 0 && remaining.nanos == 0 {
                Some(
                    DaemonErrorView::Io(
                        IoErrorView {
                            kind: "TimedOut"@,
                            raw_os_error: None,
                            message: "webhook overall deadline exceeded"@,
                        },
                    ),
                )
            } else {
                None
            },
        ),
        r matches Ok(span) ==> span == remaining,
{
    if remaining.secs == 0 && remaining.nanos == 0 {
        return Err(
            DaemonError::Io(IoError::new("TimedOut", "webhook overall deadline exceeded")),
        );
    }
    Ok(remaining)
}

/// Whether a write of a webhook's request made progress: one of no bytes is an error.
pub fn check_written(count: usize) -> (r: Result<(), DaemonError>)
    ensures
        gives(
            r,
            if count == 0 {
                Some(
                    DaemonErrorView::Io(
                        IoErrorView {
                            kind: "WriteZero"@,
                            raw_os_error: None,
                            message: "webhook request write returned zero"@,
                        },
                    ),
                )
            } else {
                None
            },
        ),
{
    if count == 0 {
        return Err(
            DaemonError::Io(IoError::new("WriteZero", "webhook request write returned zero")),
        );
    }
    Ok(())
}

/// The error for a host that no address was found for.
pub fn unresolved(request: &WebhookRequest) -> (r: DaemonError)
    ensures
        r@ == DaemonErrorView::Io(
            IoErrorView {
                kind: "InvalidInput"@,
                raw_os_error: None,
                message: "could not resolve "@ + request.host@ + ":"@ + decimal(
                    request.port as nat,
                ),
            },
        ),
{
    let port = decimal_text(request.port as u64);
    let message = cat4("could not resolve ", request.host.as_str(), ":", port.as_str());
    DaemonError::Io(IoError::new("InvalidInput", message.as_str()))
}

/// Adds `chunk` to what was read of a reply, unless that would be more than is read.
pub fn read_more(reply: &mut Vec<u8>, chunk: &[u8]) -> (r: Result<(), DaemonError>)
    ensures
        gives(
            r,
            if old(reply)@.len() + chunk@.len() > MAX_WEBHOOK_RESPONSE_BYTES {
                Some(DaemonErrorView::Capacity("webhook response bytes"@))
            } else {
                None
            },
        ),
        final(reply)@ == if r is Ok {
            old(reply)@ + chunk@
        } else {
            old(reply)@
        },
{
    if reply.len() > MAX_WEBHOOK_RESPONSE_BYTES || chunk.len() > MAX_WEBHOOK_RESPONSE_BYTES
        - reply.len() {
        return Err(DaemonError::Capacity("webhook response bytes"));
    }
    let ghost before = reply@;
    reply.extend_from_slice(chunk);
    proof {
        assert(reply@ =~= before + chunk@);
    }
    Ok(())
}

/// Why a reply is no success, if there is a reason: it has no status, or one that is not
/// of the two hundreds.
pub open spec fn reply_error(response: Seq<u8>) -> Option<DaemonErrorView> {
    let error = |message: Seq<char>|
        DaemonErrorView::Io(IoErrorView { kind: "Other"@, raw_os_error: None, message });
    match http_status(response) {
        None => Some(error("malformed webhook response"@)),
        Some(status) => if 200 <= status < 300 {
            None
        } else {
            Some(error("webhook returned "@ + decimal(status)))
        },
    }
}

/// Whether a reply is a success.
pub fn judge_reply(response: &[u8]) -> (r: Result<(), DaemonError>)
    ensures
        gives(r, reply_error(response@)),
{
    match parse_http_status(response) {
        None => Err(DaemonError::Io(IoError::new("Other", "malformed webhook response"))),
        Some(status) => {
            if 200 <= status && status < 300 {
                return Ok(());
            }
            let text = decimal_text(status as u64);
            Err(
                DaemonError::Io(
                    IoError::new("Other", cat2("webhook returned ", text.as_str()).as_str()),
                ),
            )
        },
    }
}

/// An address put together from a scheme without a colon, a host without a slash, a port
/// and a path is taken apart into them again.
pub proof fn addresses_come_apart_as_they_were_put_together(url: UrlParts)
    requires
        !url.scheme.contains(':'),
        !url.host.contains('/'),
        url.port <= 0xffff,
        url.path.len() > 0,
        url.path[0] == '/',
    ensures
        url_parts(url.scheme + "://"@ + url.host + ":"@ + decimal(url.port) + url.path) == Some(url),
{
    reveal_strlit("://");
    reveal_strlit(":");
    let digits = decimal(url.port);
    lemma_decimal_parses(url.port, 0xffff);
    let text = url.scheme + "://"@ + url.host + ":"@ + digits + url.path;
    let at = url.scheme.len() as int;
    lemma_find_from(text, "://"@, 0);
    assert(text.subrange(at, at + 3) =~= "://"@);
    assert(occurs_at(text, "://"@, at));
    assert forall|j: int| 0 <= j < at implies !occurs_at(text, "://"@, j) by {
        if occurs_at(text, "://"@, j) {
            assert(text.subrange(j, j + 3)[0] == ':');
            assert(text[j] == url.scheme[j]);
        }
    }
    assert(text.take(at) =~= url.scheme);
    let rest = text.skip(at + 3);
    let authority = url.host + ":"@ + digits;
    assert(rest =~= authority + url.path);
    let slash = authority.len() as int;
    assert forall|j: int| 0 <= j < slash implies rest[j] != '/' by {
        if j < url.host.len() {
            assert(rest[j] == url.host[j]);
        } else if j > url.host.len() {
            assert(rest[j] == digits[j - url.host.len() - 1]);
            assert(digit(digits[j - url.host.len() - 1]));
        }
    }
    assert(rest[slash] == url.path[0]);
    lemma_find_char_is(rest, '/', slash);
    assert(rest.take(slash) =~= authority);
    assert(rest.skip(slash) =~= url.path);
    let colon = url.host.len() as int;
    lemma_rfind_char(authority, ':');
    assert(authority[colon] == ':');
    assert forall|j: int| colon < j < authority.len() implies authority[j] != ':' by {
        assert(authority[j] == digits[j - colon - 1]);
        assert(digit(digits[j - colon - 1]));
    }
    assert(authority.skip(colon + 1) =~= digits);
    assert(authority.take(colon) =~= url.host);
}

} // verus!
