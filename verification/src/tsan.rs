//! Replaying a corpus under ThreadSanitizer: where a reported race lies, which runs are
//! repeated, and what could not be measured.

use vstd::prelude::*;
use vstd::slice::slice_subrange;
use vstd::string::*;
use vstd::utf8::encode_utf8;

use crate::digest::{hex_bytes, hex_of_bytes, sha256, sha256_of};
use crate::text::{
    begins, bytes_of, cat2, chars_of, comes_before, contains, decimal, decimal_of, decimal_text,
    holds, index_of, last_index_of, lemma_decimal_parses, lemma_find_char, lemma_precedes_total,
    lemma_precedes_transitive, lemma_rfind_char, line_list, lines, lowercase, lowered, parse_decimal, precedes, reads,
    rfind_char, rows, same, starts_with, string_of, trim, trimmed, word_list, words,
};

verus! {

/// The most inputs replayed for one harness.
pub const MAX_INPUTS: usize = 2000;

/// How often a run of one input is repeated.
pub const TSAN_RUN_RETRIES: usize = 4;

/// How many runs of one harness may fail to complete.
pub const TSAN_TIMEOUT_LIMIT: usize = 16;

/// How many failures to set the sanitizer's memory up may follow each other.
pub const TSAN_MAPPING_FAILURE_LIMIT: usize = 256;

/// What a replay produced, and what it could not measure.
#[derive(Debug, Clone, Copy, PartialEq, Eq, Structural)]
pub struct TsanReplay {
    /// The findings written.
    pub findings: usize,
    /// Inputs whose run never completed.
    pub unmeasured: usize,
    /// Inputs with a reported race that no frame locates.
    pub unattributed: usize,
}

impl Default for TsanReplay {
    fn default() -> (r: TsanReplay)
        ensures
            r == (TsanReplay { findings: 0, unmeasured: 0, unattributed: 0 }),
    {
        TsanReplay { findings: 0, unmeasured: 0, unattributed: 0 }
    }
}

/// Adds what one harness gave to the total.
pub fn add_replay(total: TsanReplay, one: TsanReplay) -> (r: TsanReplay)
    requires
        total.findings + one.findings <= usize::MAX,
        total.unmeasured + one.unmeasured <= usize::MAX,
        total.unattributed + one.unattributed <= usize::MAX,
    ensures
        r.findings == total.findings + one.findings,
        r.unmeasured == total.unmeasured + one.unmeasured,
        r.unattributed == total.unattributed + one.unattributed,
{
    TsanReplay {
        findings: total.findings + one.findings,
        unmeasured: total.unmeasured + one.unmeasured,
        unattributed: total.unattributed + one.unattributed,
    }
}

/// Whether what a run printed says that the sanitizer could not set its memory up, so
/// that the target never ran.
pub open spec fn mapping_failure(stderr: Seq<char>) -> bool {
    let s = lowercase(stderr);
    ||| contains(s, "threadsanitizer: unexpected memory mapping"@)
    ||| contains(s, "threadsanitizer: failed to mmap"@)
    ||| contains(s, "threadsanitizer check failed"@)
    ||| contains(s, "threadsanitizer: check failed"@)
    ||| (contains(s, "threadsanitizer"@) && contains(s, "shadow memory"@))
}

pub fn is_tsan_mapping_failure(stderr: &str) -> (r: bool)
    ensures
        r == mapping_failure(stderr@),
{
    let text = lowered(chars_of(stderr).as_slice());
    let s = text.as_slice();
    holds(s, chars_of("threadsanitizer: unexpected memory mapping").as_slice()) || holds(
        s,
        chars_of("threadsanitizer: failed to mmap").as_slice(),
    ) || holds(s, chars_of("threadsanitizer check failed").as_slice()) || holds(
        s,
        chars_of("threadsanitizer: check failed").as_slice(),
    ) || (holds(s, chars_of("threadsanitizer").as_slice()) && holds(
        s,
        chars_of("shadow memory").as_slice(),
    ))
}

/// Whether a token looks like a source path rather than a module or a symbol.
pub open spec fn source_like(file: Seq<char>) -> bool {
    file.contains('/') || file.contains('.')
}

/// `s` without the parentheses around it.
pub open spec fn trim_parens(s: Seq<char>) -> Seq<char> {
    trim_parens_end(trim_parens_start(s))
}

pub open spec fn trim_parens_start(s: Seq<char>) -> Seq<char>
    decreases s.len(),
{
    if s.len() > 0 && (s[0] == '(' || s[0] == ')') {
        trim_parens_start(s.skip(1))
    } else {
        s
    }
}

pub open spec fn trim_parens_end(s: Seq<char>) -> Seq<char>
    decreases s.len(),
{
    if s.len() > 0 && (s.last() == '(' || s.last() == ')') {
        trim_parens_end(s.drop_last())
    } else {
        s
    }
}

/// The file and the line of `FILE:LINE`, where the line is a number and the file looks
/// like one.
pub open spec fn file_and_line(s: Seq<char>) -> Option<(Seq<char>, nat)> {
    match rfind_char(s, ':') {
        None => None,
        Some(i) => match parse_decimal(s.skip(i + 1), u64::MAX as nat) {
            None => None,
            Some(line) => if source_like(s.take(i)) {
                Some((s.take(i), line))
            } else {
                None
            },
        },
    }
}

/// The file and the line of a token `FILE:LINE:COLUMN` or `FILE:LINE`.
pub open spec fn locator(token: Seq<char>) -> Option<(Seq<char>, nat)> {
    let t = trim_parens(token);
    let with_column = match rfind_char(t, ':') {
        None => None,
        Some(i) => file_and_line(t.take(i)),
    };
    if with_column is Some {
        with_column
    } else {
        file_and_line(t)
    }
}

/// A site written as `FILE:LINE` or `FILE:LINE:COLUMN`, in parentheses or not, is located
/// there, where the file looks like one, has no colon and does not begin with a
/// parenthesis.
pub proof fn sites_are_read_back(
    file: Seq<char>,
    line: nat,
    column: nat,
    open: Seq<char>,
    close: Seq<char>,
)
    requires
        source_like(file),
        !file.contains(':'),
        file[0] != '(' && file[0] != ')',
        line <= u64::MAX,
        forall|i: int| 0 <= i < open.len() ==> #[trigger] open[i] == '(',
        forall|i: int| 0 <= i < close.len() ==> #[trigger] close[i] == ')',
    ensures
        locator(open + site_text(file, line) + close) == Some((file, line)),
        locator(open + (site_text(file, line) + ":"@ + decimal(column)) + close) == Some(
            (file, line),
        ),
{
    reveal_strlit(":");
    let short = site_text(file, line);
    let long = short + ":"@ + decimal(column);
    lemma_decimal_parses(line, u64::MAX as nat);
    lemma_decimal_parses(column, column);
    lemma_site(file, line);
    lemma_trim_parens(open, short, close);
    lemma_trim_parens(open, long, close);
    lemma_rfind_char(short, ':');
    let i = rfind_char(short, ':')->0;
    assert(short[file.len() as int] == ':');
    assert(i == file.len()) by {
        if i < file.len() {
            assert(file[i] == ':');
        } else if i > file.len() {
            assert(short[i] == decimal(line)[i - file.len() - 1]);
        }
    }
    assert(short.take(i) =~= file);
    lemma_rfind_char(file, ':');
    if rfind_char(file, ':') is Some {
        assert(file.contains(':'));
    }
    lemma_rfind_char(long, ':');
    let k = rfind_char(long, ':')->0;
    assert(long[short.len() as int] == ':');
    assert(k == short.len()) by {
        if k > short.len() {
            assert(long[k] == decimal(column)[k - short.len() - 1]);
        }
    }
    assert(long.take(k) =~= short);
}

proof fn lemma_site(file: Seq<char>, line: nat)
    requires
        source_like(file),
        !file.contains(':'),
        line <= u64::MAX,
    ensures
        file_and_line(site_text(file, line)) == Some((file, line)),
{
    reveal_strlit(":");
    let s = site_text(file, line);
    lemma_decimal_parses(line, u64::MAX as nat);
    lemma_rfind_char(s, ':');
    let i = rfind_char(s, ':')->0;
    assert(s[file.len() as int] == ':');
    assert(i == file.len()) by {
        if i < file.len() {
            assert(file[i] == ':');
        } else if i > file.len() {
            assert(s[i] == decimal(line)[i - file.len() - 1]);
        }
    }
    assert(s.take(i) =~= file);
    assert(s.skip(i + 1) =~= decimal(line));
}

proof fn lemma_trim_parens(open: Seq<char>, s: Seq<char>, close: Seq<char>)
    requires
        s.len() > 0,
        s[0] != '(' && s[0] != ')',
        s.last() != '(' && s.last() != ')',
        forall|i: int| 0 <= i < open.len() ==> #[trigger] open[i] == '(',
        forall|i: int| 0 <= i < close.len() ==> #[trigger] close[i] == ')',
    ensures
        trim_parens(open + s + close) == s,
{
    lemma_trim_open(open, s + close);
    assert(open + s + close =~= open + (s + close));
    lemma_trim_close(s, close);
}

proof fn lemma_trim_open(open: Seq<char>, s: Seq<char>)
    requires
        s.len() > 0,
        s[0] != '(' && s[0] != ')',
        forall|i: int| 0 <= i < open.len() ==> #[trigger] open[i] == '(',
    ensures
        trim_parens_start(open + s) == s,
    decreases open.len(),
{
    if open.len() == 0 {
        assert(open + s =~= s);
    } else {
        let rest = open.skip(1);
        assert forall|i: int| 0 <= i < rest.len() implies #[trigger] rest[i] == '(' by {
            assert(rest[i] == open[i + 1]);
        }
        lemma_trim_open(rest, s);
        assert((open + s)[0] == open[0]);
        assert((open + s).skip(1) =~= rest + s);
    }
}

proof fn lemma_trim_close(s: Seq<char>, close: Seq<char>)
    requires
        s.len() > 0,
        s.last() != '(' && s.last() != ')',
        forall|i: int| 0 <= i < close.len() ==> #[trigger] close[i] == ')',
    ensures
        trim_parens_end(s + close) == s,
    decreases close.len(),
{
    if close.len() == 0 {
        assert(s + close =~= s);
    } else {
        let front = close.drop_last();
        assert forall|i: int| 0 <= i < front.len() implies #[trigger] front[i] == ')' by {
            assert(front[i] == close[i]);
        }
        lemma_trim_close(s, front);
        assert((s + close).last() == close[close.len() - 1]);
        assert((s + close).drop_last() =~= s + front);
    }
}

fn parens_trimmed(s: &[char]) -> (r: &[char])
    ensures
        r@ == trim_parens(s@),
{
    let mut i: usize = 0;
    proof {
        assert(s@.skip(0) =~= s@);
    }
    while i < s.len() && (s[i] == '(' || s[i] == ')')
        invariant
            i <= s@.len(),
            trim_parens_start(s@) == trim_parens_start(s@.skip(i as int)),
        decreases s@.len() - i,
    {
        proof {
            assert(s@.skip(i as int).skip(1) =~= s@.skip(i + 1));
        }
        i = i + 1;
    }
    let t = slice_subrange(s, i, s.len());
    proof {
        assert(t@ =~= s@.skip(i as int));
    }
    let mut n: usize = t.len();
    proof {
        assert(t@.take(n as int) =~= t@);
    }
    while n > 0 && (t[n - 1] == '(' || t[n - 1] == ')')
        invariant
            n <= t@.len(),
            trim_parens_end(t@) == trim_parens_end(t@.take(n as int)),
        decreases n,
    {
        proof {
            assert(t@.take(n as int).drop_last() =~= t@.take(n - 1));
        }
        n = n - 1;
    }
    proof {
        assert(t@.take(n as int) =~= t@.subrange(0, n as int));
    }
    slice_subrange(t, 0, n)
}

/// Whether a token looks like a source path.
pub fn looks_like_source(file: &str) -> (r: bool)
    ensures
        r == source_like(file@),
{
    let chars = chars_of(file);
    looks_like_path(chars.as_slice())
}

fn looks_like_path(file: &[char]) -> (r: bool)
    ensures
        r == source_like(file@),
{
    proof {
        lemma_find_char(file@, '/');
        lemma_find_char(file@, '.');
    }
    index_of(file, '/').is_some() || index_of(file, '.').is_some()
}

/// A file and a line as texts and numbers, where there are any.
pub open spec fn site_view(site: Option<(String, u64)>) -> Option<(Seq<char>, nat)> {
    match site {
        Some(site) => Some((site.0@, site.1 as nat)),
        None => None,
    }
}

fn read_file_and_line(s: &[char]) -> (r: Option<(String, u64)>)
    ensures
        site_view(r) == file_and_line(s@),
{
    let length: usize = s.len();
    match last_index_of(s, ':') {
        None => None,
        Some(i) => {
            proof {
                assert(s@.subrange(i + 1, s@.len() as int) =~= s@.skip(i + 1));
                assert(s@.subrange(0, i as int) =~= s@.take(i as int));
            }
            match decimal_of(slice_subrange(s, i + 1, length), u64::MAX) {
                None => None,
                Some(line) => {
                    let file = slice_subrange(s, 0, i);
                    if looks_like_path(file) {
                        Some((string_of(file), line))
                    } else {
                        None
                    }
                },
            }
        },
    }
}

/// The file and the line of a token; a module with an offset or a bare symbol has none.
pub fn parse_locator(token: &str) -> (r: Option<(String, u64)>)
    ensures
        site_view(r) == locator(token@),
{
    let chars = chars_of(token);
    read_locator(chars.as_slice())
}

fn read_locator(token: &[char]) -> (r: Option<(String, u64)>)
    ensures
        site_view(r) == locator(token@),
{
    let t = parens_trimmed(token);
    if let Some(i) = last_index_of(t, ':') {
        proof {
            assert(t@.subrange(0, i as int) =~= t@.take(i as int));
        }
        let site = read_file_and_line(slice_subrange(t, 0, i));
        if site.is_some() {
            return site;
        }
    }
    read_file_and_line(t)
}

/// The first locator among `tokens`.
pub open spec fn first_locator(tokens: Seq<Seq<char>>) -> Option<(Seq<char>, nat)>
    decreases tokens.len(),
{
    if tokens.len() == 0 {
        None
    } else if locator(tokens[0]) is Some {
        locator(tokens[0])
    } else {
        first_locator(tokens.skip(1))
    }
}

/// The locator of a line of a report, where the line is a frame that has one.
pub open spec fn frame_locator(line: Seq<char>) -> Option<(Seq<char>, nat)> {
    let t = trim(line);
    if t.len() > 0 && t[0] == '#' {
        first_locator(words(t))
    } else {
        None
    }
}

fn read_frame(line: &[char]) -> (r: Option<(String, u64)>)
    ensures
        site_view(r) == frame_locator(line@),
{
    let t = trimmed(line);
    if t.len() == 0 || t[0] != '#' {
        return None;
    }
    let tokens = word_list(t);
    let mut i: usize = 0;
    proof {
        assert(rows(tokens@).skip(0) =~= rows(tokens@));
    }
    while i < tokens.len()
        invariant
            i <= tokens@.len(),
            frame_locator(line@) == first_locator(rows(tokens@)),
            first_locator(rows(tokens@)) == first_locator(rows(tokens@).skip(i as int)),
        decreases tokens@.len() - i,
    {
        proof {
            assert(rows(tokens@).skip(i as int)[0] == tokens@[i as int]@);
            assert(rows(tokens@).skip(i as int).skip(1) =~= rows(tokens@).skip(i + 1));
        }
        let site = read_locator(tokens[i].as_slice());
        if site.is_some() {
            return site;
        }
        i = i + 1;
    }
    None
}

/// Whether a frame's file belongs to the scaffolding, the C runtime or the system rather
/// than to the target; `hdir` is the harness directory.
pub open spec fn noise_frame(file: Seq<char>, hdir: Seq<char>) -> bool {
    ||| starts_with(file, hdir)
    ||| contains(file, "/c_runtime/"@)
    ||| contains(file, "bhf_decode"@)
    ||| starts_with(file, "/usr/"@)
    ||| starts_with(file, "/lib"@)
    ||| starts_with(file, "/build"@)
    ||| contains(file, "sysdeps"@)
    ||| contains(file, "csu/"@)
    ||| file == "main.c"@
}

pub fn is_noise_frame(file: &str, hdir: &str) -> (r: bool)
    ensures
        r == noise_frame(file@, hdir@),
{
    let chars = chars_of(file);
    let f = chars.as_slice();
    begins(f, chars_of(hdir).as_slice()) || holds(f, chars_of("/c_runtime/").as_slice()) || holds(
        f,
        chars_of("bhf_decode").as_slice(),
    ) || begins(f, chars_of("/usr/").as_slice()) || begins(f, chars_of("/lib").as_slice())
        || begins(f, chars_of("/build").as_slice()) || holds(f, chars_of("sysdeps").as_slice())
        || holds(f, chars_of("csu/").as_slice()) || reads(f, "main.c")
}

/// What a reported race could be pinned to.
#[derive(Debug, Clone, PartialEq, Eq)]
pub enum RaceAttribution {
    /// A frame of the target.
    Target(String, u64),
    /// Frames that are located, none of them in the target.
    NonTarget,
    /// No frame is located, so that nothing can be said of where the race lies.
    Unresolved,
}

/// The same, as texts and numbers.
pub enum AttributionView {
    Target(Seq<char>, nat),
    NonTarget,
    Unresolved,
}

impl View for RaceAttribution {
    type V = AttributionView;

    open spec fn view(&self) -> AttributionView {
        match self {
            RaceAttribution::Target(file, line) => AttributionView::Target(file@, *line as nat),
            RaceAttribution::NonTarget => AttributionView::NonTarget,
            RaceAttribution::Unresolved => AttributionView::Unresolved,
        }
    }
}

/// What the lines of a report pin a race to: the first located frame that is the
/// target's. `located` says whether a frame before them was located.
pub open spec fn attribution(all: Seq<Seq<char>>, hdir: Seq<char>, located: bool) -> AttributionView
    decreases all.len(),
{
    if all.len() == 0 {
        if located {
            AttributionView::NonTarget
        } else {
            AttributionView::Unresolved
        }
    } else {
        match frame_locator(all[0]) {
            None => attribution(all.skip(1), hdir, located),
            Some((file, line)) => if noise_frame(file, hdir) {
                attribution(all.skip(1), hdir, true)
            } else {
                AttributionView::Target(file, line)
            },
        }
    }
}

/// What a report pins a race to; `hdir` is the harness directory.
pub fn classify_race(stderr: &str, hdir: &str) -> (r: RaceAttribution)
    ensures
        r@ == attribution(lines(stderr@), hdir@, false),
{
    let all = line_list(chars_of(stderr).as_slice());
    let mut located = false;
    let mut i: usize = 0;
    proof {
        assert(rows(all@).skip(0) =~= rows(all@));
    }
    while i < all.len()
        invariant
            i <= all@.len(),
            rows(all@) == lines(stderr@),
            attribution(rows(all@), hdir@, false) == attribution(
                rows(all@).skip(i as int),
                hdir@,
                located,
            ),
        decreases all@.len() - i,
    {
        proof {
            assert(rows(all@).skip(i as int)[0] == all@[i as int]@);
            assert(rows(all@).skip(i as int).skip(1) =~= rows(all@).skip(i + 1));
        }
        if let Some((file, line)) = read_frame(all[i].as_slice()) {
            if !is_noise_frame(file.as_str(), hdir) {
                return RaceAttribution::Target(file, line);
            }
            located = true;
        }
        i = i + 1;
    }
    if located {
        RaceAttribution::NonTarget
    } else {
        RaceAttribution::Unresolved
    }
}

/// The site that a report gives is never scaffolding.
pub proof fn targets_are_not_noise(all: Seq<Seq<char>>, hdir: Seq<char>, located: bool)
    ensures
        attribution(all, hdir, located) matches AttributionView::Target(file, _)
            ==> !noise_frame(file, hdir),
        attribution(all, hdir, located) == AttributionView::Unresolved ==> !located && forall|
            i: int,
        |
            0 <= i < all.len() ==> frame_locator(#[trigger] all[i]) is None,
    decreases all.len(),
{
    if all.len() > 0 {
        let rest = all.skip(1);
        targets_are_not_noise(rest, hdir, located);
        targets_are_not_noise(rest, hdir, true);
        if attribution(all, hdir, located) == AttributionView::Unresolved {
            assert forall|i: int| 0 <= i < all.len() implies frame_locator(
                #[trigger] all[i],
            ) is None by {
                if i > 0 {
                    assert(all[i] == rest[i - 1]);
                }
            }
        }
    }
}

/// A file and a line.
pub type Site = (Seq<char>, nat);

/// Whether the site `a` stands before `b`: by the file, then by the line.
pub open spec fn site_before(a: Site, b: Site) -> bool {
    precedes(a.0, b.0) || (a.0 == b.0 && a.1 < b.1)
}

/// `sites` with `site` in its place; a site that is there already is not added.
pub open spec fn with_site(sites: Seq<Site>, site: Site) -> Seq<Site>
    decreases sites.len(),
{
    if sites.len() == 0 {
        seq![site]
    } else if sites[0] == site {
        sites
    } else if site_before(site, sites[0]) {
        seq![site] + sites
    } else {
        seq![sites[0]] + with_site(sites.skip(1), site)
    }
}

/// The sites as texts and numbers.
pub open spec fn site_views(sites: Seq<(String, u64)>) -> Seq<Site> {
    Seq::new(sites.len(), |i: int| (sites[i].0@, sites[i].1 as nat))
}

fn add_site(sites: &mut Vec<(String, u64)>, file: String, line: u64)
    ensures
        site_views(final(sites)@) == with_site(site_views(old(sites)@), (file@, line as nat)),
{
    let ghost was = site_views(sites@);
    let ghost site: Site = (file@, line as nat);
    let name = chars_of(file.as_str());
    let mut i: usize = 0;
    proof {
        assert(was.skip(0) =~= was);
        assert(with_site(was, site) =~= was.take(0) + with_site(was.skip(0), site));
    }
    while i < sites.len()
        invariant
            i <= sites@.len(),
            *sites == *old(sites),
            was == site_views(sites@),
            site == (file@, line as nat),
            name@ == file@,
            with_site(was, site) == was.take(i as int) + with_site(was.skip(i as int), site),
        decreases sites@.len() - i,
    {
        let ghost rest = was.skip(i as int);
        proof {
            assert(rest[0] == was[i as int]);
        }
        let same_file = same(sites[i].0.as_str(), file.as_str());
        if same_file && sites[i].1 == line {
            proof {
                assert(was.take(i as int) + rest =~= was);
            }
            return;
        }
        let other = chars_of(sites[i].0.as_str());
        if comes_before(name.as_slice(), other.as_slice()) || (same_file && line < sites[i].1) {
            sites.insert(i, (file, line));
            proof {
                assert(site_views(sites@) =~= was.take(i as int) + (seq![site] + rest));
            }
            return;
        }
        proof {
            assert(rest.skip(1) =~= was.skip(i + 1));
            assert(was.take(i as int) + (seq![rest[0]] + with_site(rest.skip(1), site))
                =~= was.take(i + 1) + with_site(was.skip(i + 1), site));
        }
        i = i + 1;
    }
    sites.push((file, line));
    proof {
        assert(was.skip(i as int) =~= Seq::empty());
        assert(site_views(sites@) =~= was.take(i as int) + seq![site]);
    }
}

/// Whether sites stand in order, so that none occurs twice.
pub open spec fn sites_rise(sites: Seq<Site>) -> bool {
    forall|i: int, j: int|
        0 <= i < j < sites.len() ==> site_before(#[trigger] sites[i], #[trigger] sites[j])
}

proof fn lemma_site_order(a: Site, b: Site, c: Site)
    ensures
        site_before(a, b) && site_before(b, c) ==> site_before(a, c),
        a != b ==> site_before(a, b) || site_before(b, a),
        !site_before(a, a),
{
    lemma_precedes_total(a.0, b.0);
    lemma_precedes_total(a.0, a.0);
    if precedes(a.0, b.0) && precedes(b.0, c.0) {
        lemma_precedes_transitive(a.0, b.0, c.0);
    }
}

/// Adding a site keeps the sites in order, and adds that site and nothing else: each
/// distinct site is there once.
pub proof fn adding_a_site_adds_it_once(sites: Seq<Site>, site: Site)
    requires
        sites_rise(sites),
    ensures
        sites_rise(with_site(sites, site)),
        forall|x: Site|
            #[trigger] with_site(sites, site).contains(x) <==> (sites.contains(x) || x == site),
    decreases sites.len(),
{
    let result = with_site(sites, site);
    if sites.len() == 0 {
        assert(result[0] == site);
    } else if sites[0] == site {
        assert(sites.contains(site));
    } else if site_before(site, sites[0]) {
        assert forall|i: int, j: int| 0 <= i < j < result.len() implies site_before(
            #[trigger] result[i],
            #[trigger] result[j],
        ) by {
            assert(result[j] == sites[j - 1]);
            if i > 0 {
                assert(result[i] == sites[i - 1]);
            } else if j > 1 {
                assert(site_before(sites[0], sites[j - 1]));
                lemma_site_order(site, sites[0], sites[j - 1]);
            }
        }
        assert forall|x: Site| #[trigger] result.contains(x) <==> (sites.contains(x) || x
            == site) by {
            if sites.contains(x) {
                let i = choose|i: int| 0 <= i < sites.len() && sites[i] == x;
                assert(result[i + 1] == x);
            }
            if x == site {
                assert(result[0] == x);
            }
            if result.contains(x) {
                let i = choose|i: int| 0 <= i < result.len() && result[i] == x;
                if i > 0 {
                    assert(sites[i - 1] == x);
                }
            }
        }
    } else {
        let rest = sites.skip(1);
        assert(sites_rise(rest)) by {
            assert forall|i: int, j: int| 0 <= i < j < rest.len() implies site_before(
                #[trigger] rest[i],
                #[trigger] rest[j],
            ) by {
                assert(rest[i] == sites[i + 1]);
                assert(rest[j] == sites[j + 1]);
            }
        }
        adding_a_site_adds_it_once(rest, site);
        let tail = with_site(rest, site);
        lemma_site_order(site, sites[0], site);
        assert forall|i: int, j: int| 0 <= i < j < result.len() implies site_before(
            #[trigger] result[i],
            #[trigger] result[j],
        ) by {
            assert(result[j] == tail[j - 1]);
            if i > 0 {
                assert(result[i] == tail[i - 1]);
            } else {
                assert(tail.contains(tail[j - 1]));
                if tail[j - 1] != site {
                    let n = choose|n: int| 0 <= n < rest.len() && rest[n] == tail[j - 1];
                    assert(sites[n + 1] == tail[j - 1]);
                }
            }
        }
        assert forall|x: Site| #[trigger] result.contains(x) <==> (sites.contains(x) || x
            == site) by {
            if tail.contains(x) {
                let i = choose|i: int| 0 <= i < tail.len() && tail[i] == x;
                assert(result[i + 1] == x);
            }
            if x == sites[0] {
                assert(result[0] == x);
            }
            if sites.contains(x) && x != sites[0] {
                let i = choose|i: int| 0 <= i < sites.len() && sites[i] == x;
                assert(rest[i - 1] == x);
                assert(rest.contains(x));
            }
            if result.contains(x) {
                let i = choose|i: int| 0 <= i < result.len() && result[i] == x;
                if i > 0 {
                    assert(tail[i - 1] == x);
                    assert(tail.contains(x));
                    if rest.contains(x) {
                        let n = choose|n: int| 0 <= n < rest.len() && rest[n] == x;
                        assert(sites[n + 1] == x);
                    }
                } else {
                    assert(sites[0] == x);
                }
            }
        }
    }
}

/// How one run of an input ended.
#[derive(Debug, Clone, PartialEq, Eq)]
pub enum RunEvent {
    /// It was killed for its time or could not be started.
    NeverCompleted,
    /// It ended, and printed this.
    Completed { success: bool, stderr: String },
}

/// What the driver of a replay does after a run.
#[derive(Debug, Clone, Copy, PartialEq, Eq, Structural)]
pub enum ReplayStep {
    /// Runs the same input again.
    Again,
    /// Goes on to the next input.
    NextInput,
    /// Ends the replay of the harness.
    Stop,
}

/// The replay of one harness.
pub struct Replay {
    sites: Vec<(String, u64)>,
    replayed: usize,
    mapping_failures: usize,
    unmeasured: usize,
    unattributed: usize,
    timeouts: usize,
    retries: usize,
}

/// The replay of one harness, as lists and numbers.
#[verifier::ext_equal]
pub struct ReplayView {
    /// The race sites in the target.
    pub sites: Seq<Site>,
    /// The inputs taken.
    pub replayed: nat,
    /// The failures to set memory up that have followed each other.
    pub mapping_failures: nat,
    pub unmeasured: nat,
    pub unattributed: nat,
    /// The runs that never completed.
    pub timeouts: nat,
    /// The repetitions of the present input.
    pub retries: nat,
}

impl View for Replay {
    type V = ReplayView;

    closed spec fn view(&self) -> ReplayView {
        ReplayView {
            sites: site_views(self.sites@),
            replayed: self.replayed as nat,
            mapping_failures: self.mapping_failures as nat,
            unmeasured: self.unmeasured as nat,
            unattributed: self.unattributed as nat,
            timeouts: self.timeouts as nat,
            retries: self.retries as nat,
        }
    }
}

impl ReplayView {
    pub open spec fn well_formed(self) -> bool {
        &&& sites_rise(self.sites)
        &&& self.replayed <= MAX_INPUTS
        &&& self.unmeasured + self.unattributed <= self.replayed
        &&& self.mapping_failures <= TSAN_MAPPING_FAILURE_LIMIT
        &&& self.timeouts <= TSAN_TIMEOUT_LIMIT
        &&& self.retries <= TSAN_RUN_RETRIES
    }

    /// Whether another input is taken.
    pub open spec fn open(self) -> bool {
        self.replayed < MAX_INPUTS && self.timeouts < TSAN_TIMEOUT_LIMIT
    }

    /// Whether an input is being run.
    pub open spec fn running(self) -> bool {
        &&& self.well_formed()
        &&& self.unmeasured + self.unattributed < self.replayed
        &&& self.mapping_failures < TSAN_MAPPING_FAILURE_LIMIT
        &&& self.timeouts < TSAN_TIMEOUT_LIMIT
    }

    /// What every repetition of an input uses up.
    pub open spec fn patience(self) -> nat {
        ((TSAN_RUN_RETRIES - self.retries) * (TSAN_MAPPING_FAILURE_LIMIT + 1) + (
        TSAN_MAPPING_FAILURE_LIMIT - self.mapping_failures)) as nat
    }
}

/// The replay of a harness after a run, and what the driver does then. A run that never
/// completed is repeated while the input's and the harness's budgets last, and leaves the
/// input unmeasured otherwise. A reported race is a site, or is repeated, or is known to
/// lie outside the target, or is counted as unattributed. A failure to set memory up is
/// repeated on a budget of its own.
pub open spec fn after_replay_run(r: ReplayView, event: RunEvent, hdir: Seq<char>) -> (
    ReplayView,
    ReplayStep,
) {
    match event {
        RunEvent::NeverCompleted => {
            let late = ReplayView { timeouts: r.timeouts + 1, ..r };
            if r.retries < TSAN_RUN_RETRIES && late.timeouts < TSAN_TIMEOUT_LIMIT {
                (ReplayView { retries: r.retries + 1, ..late }, ReplayStep::Again)
            } else {
                (
                    ReplayView { unmeasured: r.unmeasured + 1, ..late },
                    if late.timeouts >= TSAN_TIMEOUT_LIMIT {
                        ReplayStep::Stop
                    } else {
                        ReplayStep::NextInput
                    },
                )
            }
        },
        RunEvent::Completed { success, stderr } => {
            let calm = ReplayView { mapping_failures: 0, ..r };
            let again = ReplayView { retries: r.retries + 1, ..calm };
            if contains(stderr@, "data race"@) {
                match attribution(lines(stderr@), hdir, false) {
                    AttributionView::Target(file, line) => (
                        ReplayView { sites: with_site(r.sites, (file, line)), ..calm },
                        ReplayStep::NextInput,
                    ),
                    other => if r.retries < TSAN_RUN_RETRIES {
                        (again, ReplayStep::Again)
                    } else if other == AttributionView::NonTarget {
                        (calm, ReplayStep::NextInput)
                    } else {
                        (
                            ReplayView { unattributed: r.unattributed + 1, ..calm },
                            ReplayStep::NextInput,
                        )
                    },
                }
            } else if success {
                (calm, ReplayStep::NextInput)
            } else if mapping_failure(stderr@) {
                let failed = ReplayView { mapping_failures: r.mapping_failures + 1, ..r };
                (
                    failed,
                    if failed.mapping_failures >= TSAN_MAPPING_FAILURE_LIMIT {
                        ReplayStep::Stop
                    } else {
                        ReplayStep::Again
                    },
                )
            } else if r.retries >= TSAN_RUN_RETRIES {
                (calm, ReplayStep::NextInput)
            } else {
                (again, ReplayStep::Again)
            }
        },
    }
}

impl Replay {
    /// A replay that has not begun.
    pub fn new() -> (r: Replay)
        ensures
            r@ == (ReplayView {
                sites: Seq::empty(),
                replayed: 0,
                mapping_failures: 0,
                unmeasured: 0,
                unattributed: 0,
                timeouts: 0,
                retries: 0,
            }),
            r@.well_formed(),
    {
        let r = Replay {
            sites: Vec::new(),
            replayed: 0,
            mapping_failures: 0,
            unmeasured: 0,
            unattributed: 0,
            timeouts: 0,
            retries: 0,
        };
        proof {
            assert(site_views(r.sites@) =~= Seq::empty());
        }
        r
    }

    /// Whether another input is taken.
    pub fn wants_input(&self) -> (r: bool)
        ensures
            r == self@.open(),
    {
        self.replayed < MAX_INPUTS && self.timeouts < TSAN_TIMEOUT_LIMIT
    }

    /// Takes an input.
    pub fn begin_input(&mut self)
        requires
            old(self)@.well_formed(),
            old(self)@.open(),
            old(self)@.mapping_failures < TSAN_MAPPING_FAILURE_LIMIT,
        ensures
            final(self)@ == (ReplayView {
                replayed: old(self)@.replayed + 1,
                retries: 0,
                ..old(self)@
            }),
            final(self)@.running(),
    {
        self.replayed = self.replayed + 1;
        self.retries = 0;
    }

    /// Takes the end of a run; `hdir` is the harness directory. No input is repeated for
    /// ever.
    pub fn after_run(&mut self, event: RunEvent, hdir: &str) -> (r: ReplayStep)
        requires
            old(self)@.running(),
        ensures
            (final(self)@, r) == after_replay_run(old(self)@, event, hdir@),
            final(self)@.well_formed(),
            r == ReplayStep::Again ==> final(self)@.running() && final(self)@.patience() < old(
                self,
            )@.patience(),
            r == ReplayStep::NextInput ==> final(self)@.mapping_failures
                < TSAN_MAPPING_FAILURE_LIMIT,
    {
        let ghost was = self@;
        match event {
            RunEvent::NeverCompleted => {
                self.timeouts = self.timeouts + 1;
                if self.retries < TSAN_RUN_RETRIES && self.timeouts < TSAN_TIMEOUT_LIMIT {
                    self.retries = self.retries + 1;
                    return ReplayStep::Again;
                }
                self.unmeasured = self.unmeasured + 1;
                if self.timeouts >= TSAN_TIMEOUT_LIMIT {
                    ReplayStep::Stop
                } else {
                    ReplayStep::NextInput
                }
            },
            RunEvent::Completed { success, stderr } => {
                let chars = chars_of(stderr.as_str());
                if holds(chars.as_slice(), chars_of("data race").as_slice()) {
                    self.mapping_failures = 0;
                    match classify_race(stderr.as_str(), hdir) {
                        RaceAttribution::Target(file, line) => {
                            proof {
                                adding_a_site_adds_it_once(was.sites, (file@, line as nat));
                            }
                            add_site(&mut self.sites, file, line);
                            return ReplayStep::NextInput;
                        },
                        RaceAttribution::NonTarget => {
                            if self.retries >= TSAN_RUN_RETRIES {
                                return ReplayStep::NextInput;
                            }
                        },
                        RaceAttribution::Unresolved => {
                            if self.retries >= TSAN_RUN_RETRIES {
                                self.unattributed = self.unattributed + 1;
                                return ReplayStep::NextInput;
                            }
                        },
                    }
                    self.retries = self.retries + 1;
                    return ReplayStep::Again;
                }
                if success {
                    self.mapping_failures = 0;
                    return ReplayStep::NextInput;
                }
                if is_tsan_mapping_failure(stderr.as_str()) {
                    self.mapping_failures = self.mapping_failures + 1;
                    if self.mapping_failures >= TSAN_MAPPING_FAILURE_LIMIT {
                        return ReplayStep::Stop;
                    }
                    return ReplayStep::Again;
                }
                self.mapping_failures = 0;
                if self.retries >= TSAN_RUN_RETRIES {
                    return ReplayStep::NextInput;
                }
                self.retries = self.retries + 1;
                ReplayStep::Again
            },
        }
    }

    /// The race sites in order, and what was not measured or not located.
    pub fn finish(self) -> (r: (Vec<(String, u64)>, usize, usize))
        ensures
            site_views(r.0@) == self@.sites,
            r.1 == self@.unmeasured,
            r.2 == self@.unattributed,
    {
        (self.sites, self.unmeasured, self.unattributed)
    }
}

/// `n` in base ten with zeros before it up to four digits.
pub open spec fn four_digits(n: nat) -> Seq<char> {
    if n < 10 {
        "000"@ + decimal(n)
    } else if n < 100 {
        "00"@ + decimal(n)
    } else if n < 1000 {
        "0"@ + decimal(n)
    } else {
        decimal(n)
    }
}

/// The identifier of the finding with this number.
pub fn tsan_finding_id(index: usize) -> (r: String)
    ensures
        r@ == "F-TSAN-"@ + four_digits(index as nat),
{
    let digits = decimal_text(index as u64);
    let padded = if index < 10 {
        cat2("000", digits.as_str())
    } else if index < 100 {
        cat2("00", digits.as_str())
    } else if index < 1000 {
        cat2("0", digits.as_str())
    } else {
        digits
    };
    cat2("F-TSAN-", padded.as_str())
}

/// A site as `FILE:LINE`.
pub open spec fn site_text(file: Seq<char>, line: nat) -> Seq<char> {
    file + ":"@ + decimal(line)
}

/// The site as `FILE:LINE`, and the key under which its findings are one issue.
pub fn tsan_cluster(file: &str, line: u64) -> (r: (String, String))
    ensures
        r.0@ == site_text(file@, line as nat),
        r.1@ == hex_bytes(sha256(encode_utf8("BHF-556:"@ + site_text(file@, line as nat)))),
{
    let digits = decimal_text(line);
    let mut site = cat2(file, ":");
    site.append(digits.as_str());
    let text = cat2("BHF-556:", site.as_str());
    let digest = sha256_of(bytes_of(text.as_str()).as_slice());
    (site, hex_of_bytes(digest.as_slice()))
}

/// Where a race lies in the target.
#[derive(Debug, Clone, PartialEq, Eq)]
pub struct RaceTarget {
    pub name: String,
    pub source_path: String,
    pub line: u64,
}

/// A frame of a race's stack.
#[derive(Debug, Clone, PartialEq, Eq)]
pub struct RaceFrame {
    pub function: &'static str,
    pub file: String,
    pub line: u64,
}

/// What speaks for a finding.
#[derive(Debug, Clone, PartialEq, Eq)]
pub struct RaceEvidence {
    pub key: &'static str,
    pub value: String,
}

/// The record of a race: a crash at run time, as any other defect that fuzzing finds.
#[derive(Debug, Clone, PartialEq, Eq)]
pub struct TsanFinding {
    pub id: String,
    pub rule_id: &'static str,
    pub classification: &'static str,
    pub severity: &'static str,
    pub harness_id: String,
    pub cluster_key_full: String,
    pub target: RaceTarget,
    pub exception_name: &'static str,
    pub exception_message: &'static str,
    pub stack: Vec<RaceFrame>,
    pub evidence: Vec<RaceEvidence>,
    pub engine: &'static str,
    pub cwe: Vec<&'static str>,
    pub verdict: &'static str,
    pub confidence: &'static str,
}

/// The record of the race at `line` of `file`, which is called `file_name` without its
/// directories where it has such a name.
pub fn tsan_finding(
    id: &str,
    harness_id: &str,
    file: &str,
    file_name: Option<&str>,
    line: u64,
) -> (r: TsanFinding)
    ensures
        r.id@ == id@,
        r.rule_id@ == "BHF-556"@,
        r.classification@ == "unhandled"@,
        r.severity@ == "high"@,
        r.harness_id@ == harness_id@,
        r.cluster_key_full@ == hex_bytes(
            sha256(encode_utf8("BHF-556:"@ + site_text(file@, line as nat))),
        ),
        r.target.name@ == match file_name {
            Some(name) => name@,
            None => file@,
        },
        r.target.source_path@ == file@,
        r.target.line == line,
        r.exception_name@ == "ThreadSanitizer"@,
        r.exception_message@ == "data race (TSan corpus replay)"@,
        r.stack@.len() == 1,
        r.stack@[0].function@ == ""@,
        r.stack@[0].file@ == file@,
        r.stack@[0].line == line,
        r.evidence@.len() == 1,
        r.evidence@[0].key@ == "source"@,
        r.evidence@[0].value@ == site_text(file@, line as nat),
        r.engine@ == "bhf.dynamic.tsan.replay"@,
        r.cwe@.len() == 1,
        r.cwe@[0]@ == "CWE-362"@,
        r.verdict@ == "likely_reachable"@,
        r.confidence@ == "high"@,
{
    let (site, cluster_key_full) = tsan_cluster(file, line);
    let name = match file_name {
        Some(name) => name.to_owned(),
        None => file.to_owned(),
    };
    let mut stack: Vec<RaceFrame> = Vec::new();
    stack.push(RaceFrame { function: "", file: file.to_owned(), line });
    let mut evidence: Vec<RaceEvidence> = Vec::new();
    evidence.push(RaceEvidence { key: "source", value: site });
    let mut cwe: Vec<&'static str> = Vec::new();
    cwe.push("CWE-362");
    TsanFinding {
        id: id.to_owned(),
        rule_id: "BHF-556",
        classification: "unhandled",
        severity: "high",
        harness_id: harness_id.to_owned(),
        cluster_key_full,
        target: RaceTarget { name, source_path: file.to_owned(), line },
        exception_name: "ThreadSanitizer",
        exception_message: "data race (TSan corpus replay)",
        stack,
        evidence,
        engine: "bhf.dynamic.tsan.replay",
        cwe,
        verdict: "likely_reachable",
        confidence: "high",
    }
}

/// No input is dropped in silence: one that is left behind completed a run that reported
/// no race, or reported one outside the target, or is a site, or is counted.
pub proof fn no_input_is_dropped_in_silence(r: ReplayView, event: RunEvent, hdir: Seq<char>)
    requires
        after_replay_run(r, event, hdir).1 == ReplayStep::NextInput,
    ensures
        ({
            let next = after_replay_run(r, event, hdir).0;
            match event {
                RunEvent::NeverCompleted => next.unmeasured == r.unmeasured + 1,
                RunEvent::Completed { success, stderr } => contains(stderr@, "data race"@) ==> {
                    match attribution(lines(stderr@), hdir, false) {
                        AttributionView::Target(file, line) => next.sites == with_site(
                            r.sites,
                            (file, line),
                        ),
                        AttributionView::NonTarget => true,
                        AttributionView::Unresolved => next.unattributed == r.unattributed + 1,
                    }
                },
            }
        }),
{
}

} // verus!
