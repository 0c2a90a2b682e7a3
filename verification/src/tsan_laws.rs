//! Where a reported race is attributed to, and what a replay does about each run.

use vstd::prelude::*;
use vstd::string::*;

use crate::text::{
    contains, decimal, lemma_decimal_parses, lines, lowercase, starts_with, trim, words,
};
use crate::text_laws::{a_part_is_contained, numbers_are_told_apart};
use crate::tsan::{
    after_replay_run, attribution, classify_race, first_locator, four_digits, frame_locator,
    locator, mapping_failure, noise_frame, site_text, tsan_cluster, tsan_finding_id, with_site,
    AttributionView, RaceAttribution, Replay, ReplayStep, ReplayView, RunEvent,
};

verus! {

/// Whether the line `i` is the first of the report that locates a frame outside the
/// scaffolding, at this file and line.
pub open spec fn first_target_frame(
    all: Seq<Seq<char>>,
    hdir: Seq<char>,
    i: int,
    file: Seq<char>,
    line: nat,
) -> bool {
    &&& 0 <= i < all.len()
    &&& frame_locator(all[i]) == Some((file, line))
    &&& !noise_frame(file, hdir)
    &&& forall|k: int| 0 <= k < i ==> passed_over(#[trigger] all[k], hdir)
}

/// Whether a line locates no frame, or one of the scaffolding.
pub open spec fn passed_over(line: Seq<char>, hdir: Seq<char>) -> bool {
    frame_locator(line) matches Some((file, _)) ==> noise_frame(file, hdir)
}

/// Whether `a` is what the report says of where the race lies, where `located` says whether
/// a frame was located before it.
pub open spec fn rightly_attributed(
    all: Seq<Seq<char>>,
    hdir: Seq<char>,
    located: bool,
    a: AttributionView,
) -> bool {
    match a {
        AttributionView::Target(file, line) => exists|i: int|
            #[trigger] first_target_frame(all, hdir, i, file, line),
        AttributionView::NonTarget => (forall|i: int|
            0 <= i < all.len() ==> passed_over(#[trigger] all[i], hdir)) && (located || exists|
            i: int,
        |
            0 <= i < all.len() && frame_locator(#[trigger] all[i]) is Some),
        AttributionView::Unresolved => !located && forall|i: int|
            0 <= i < all.len() ==> frame_locator(#[trigger] all[i]) is None,
    }
}

/// A race is attributed to the first located frame of the report that is not scaffolding,
/// however many of those stand before it. It lies outside the target only where frames are
/// located and every one of them is scaffolding, and nothing is said of it only where none
/// is located.
pub proof fn races_are_attributed_to_the_first_target_frame(
    all: Seq<Seq<char>>,
    hdir: Seq<char>,
    located: bool,
)
    ensures
        rightly_attributed(all, hdir, located, attribution(all, hdir, located)),
    decreases all.len(),
{
    if all.len() > 0 {
        let rest = all.skip(1);
        if passed_over(all[0], hdir) {
            let now = located || frame_locator(all[0]) is Some;
            races_are_attributed_to_the_first_target_frame(rest, hdir, now);
            lemma_attributed_later(all, hdir, located, now);
        } else {
            let (file, line) = frame_locator(all[0])->0;
            let a = attribution(all, hdir, located);
            assert(a == AttributionView::Target(file, line));
            assert(first_target_frame(all, hdir, 0, a->Target_0, a->Target_1));
            assert(exists|i: int|
                #[trigger] first_target_frame(all, hdir, i, a->Target_0, a->Target_1));
        }
    }
}

proof fn lemma_attributed_later(all: Seq<Seq<char>>, hdir: Seq<char>, before: bool, located: bool)
    requires
        all.len() > 0,
        passed_over(all[0], hdir),
        located <==> before || frame_locator(all[0]) is Some,
        attribution(all, hdir, before) == attribution(all.skip(1), hdir, located),
        rightly_attributed(all.skip(1), hdir, located, attribution(all.skip(1), hdir, located)),
    ensures
        rightly_attributed(all, hdir, before, attribution(all, hdir, before)),
{
    let rest = all.skip(1);
    assert forall|i: int| 0 < i < all.len() implies #[trigger] all[i] == rest[i - 1] by {}
    match attribution(rest, hdir, located) {
        AttributionView::Target(file, line) => {
            let i = choose|i: int| #[trigger] first_target_frame(rest, hdir, i, file, line);
            assert forall|k: int| 0 <= k < i + 1 implies passed_over(#[trigger] all[k], hdir) by {
                if k > 0 {
                    assert(all[k] == rest[k - 1]);
                }
            }
            assert(all[i + 1] == rest[i]);
            assert(first_target_frame(all, hdir, i + 1, file, line));
        },
        AttributionView::NonTarget => {
            assert forall|i: int| 0 <= i < all.len() implies passed_over(
                #[trigger] all[i],
                hdir,
            ) by {
                if i > 0 {
                    assert(all[i] == rest[i - 1]);
                }
            }
            if !before && frame_locator(all[0]) is None {
                let i = choose|i: int|
                    0 <= i < rest.len() && frame_locator(#[trigger] rest[i]) is Some;
                assert(all[i + 1] == rest[i]);
            } else if !before {
                assert(frame_locator(all[0]) is Some);
            }
        },
        AttributionView::Unresolved => {
            assert forall|i: int| 0 <= i < all.len() implies frame_locator(
                #[trigger] all[i],
            ) is None by {
                if i > 0 {
                    assert(all[i] == rest[i - 1]);
                }
            }
        },
    }
}

/// A report in which some frame of the target is located is attributed to the target.
pub proof fn races_in_the_target_are_found(stderr: &str, hdir: &str, r: RaceAttribution)
    requires
        call_ensures(classify_race, (stderr, hdir), r),
    ensures
        ({
            let all = lines(stderr@);
            &&& r is Target <==> exists|i: int|
                0 <= i < all.len() && !passed_over(#[trigger] all[i], hdir@)
            &&& r matches RaceAttribution::Target(file, line) ==> exists|i: int|
                #[trigger] first_target_frame(all, hdir@, i, file@, line as nat)
            &&& r is Unresolved <==> forall|i: int|
                0 <= i < all.len() ==> frame_locator(#[trigger] all[i]) is None
        }),
{
    let all = lines(stderr@);
    races_are_attributed_to_the_first_target_frame(all, hdir@, false);
    if let RaceAttribution::Target(file, line) = r {
        let i = choose|i: int| #[trigger]
            first_target_frame(all, hdir@, i, file@, line as nat);
        assert(!passed_over(all[i], hdir@));
        assert(frame_locator(all[i]) is Some);
    }
    if r is NonTarget {
        let i = choose|i: int| 0 <= i < all.len() && frame_locator(#[trigger] all[i]) is Some;
        assert(frame_locator(all[i]) is Some);
    }
}

/// A frame is a line that begins with `#`, and is located by the first of its words that
/// names a place.
pub proof fn frames_are_located_by_their_first_place(line: Seq<char>)
    ensures
        ({
            let t = trim(line);
            let w = words(t);
            match frame_locator(line) {
                Some(site) => t.len() > 0 && t[0] == '#' && exists|i: int|
                    0 <= i < w.len() && locator(#[trigger] w[i]) == Some(site) && forall|k: int|
                        0 <= k < i ==> locator(#[trigger] w[k]) is None,
                None => t.len() == 0 || t[0] != '#' || forall|i: int|
                    0 <= i < w.len() ==> locator(#[trigger] w[i]) is None,
            }
        }),
{
    lemma_first_locator(words(trim(line)));
}

proof fn lemma_first_locator(tokens: Seq<Seq<char>>)
    ensures
        match first_locator(tokens) {
            Some(site) => exists|i: int|
                0 <= i < tokens.len() && locator(#[trigger] tokens[i]) == Some(site) && forall|
                    k: int,
                |
                    0 <= k < i ==> locator(#[trigger] tokens[k]) is None,
            None => forall|i: int|
                0 <= i < tokens.len() ==> locator(#[trigger] tokens[i]) is None,
        },
    decreases tokens.len(),
{
    if tokens.len() > 0 {
        let rest = tokens.skip(1);
        lemma_first_locator(rest);
        assert forall|i: int| 0 < i < tokens.len() implies #[trigger] tokens[i] == rest[i - 1] by {}
        if locator(tokens[0]) is Some {
            assert(locator(tokens[0]) == first_locator(tokens));
        } else if let Some(site) = first_locator(rest) {
            let i = choose|i: int|
                0 <= i < rest.len() && locator(#[trigger] rest[i]) == Some(site) && forall|k: int|
                    0 <= k < i ==> locator(#[trigger] rest[k]) is None;
            assert(tokens[i + 1] == rest[i]);
            assert forall|k: int| 0 <= k < i + 1 implies locator(#[trigger] tokens[k]) is None by {
                if k > 0 {
                    assert(tokens[k] == rest[k - 1]);
                }
            }
            assert(locator(tokens[i + 1]) == Some(site));
        } else {
            assert forall|i: int| 0 <= i < tokens.len() implies locator(
                #[trigger] tokens[i],
            ) is None by {
                if i > 0 {
                    assert(tokens[i] == rest[i - 1]);
                }
            }
        }
    }
}

/// What lies in the harness's directory, in the runtime or in the system is scaffolding,
/// whatever stands behind it, and a file without any of these marks is not.
pub proof fn scaffolding_is_told_by_its_path(
    hdir: Seq<char>,
    before: Seq<char>,
    after: Seq<char>,
    file: Seq<char>,
)
    ensures
        noise_frame(hdir + after, hdir),
        noise_frame("/usr/"@ + after, hdir),
        noise_frame("/lib"@ + after, hdir),
        noise_frame("/build"@ + after, hdir),
        noise_frame(before + "/c_runtime/"@ + after, hdir),
        noise_frame(before + "bhf_decode"@ + after, hdir),
        noise_frame(before + "sysdeps"@ + after, hdir),
        noise_frame(before + "csu/"@ + after, hdir),
        noise_frame("main.c"@, hdir),
        file.len() > 0 && file[0] != '/' && !starts_with(file, hdir) && file != "main.c"@
            && !contains(file, "/c_runtime/"@) && !contains(file, "bhf_decode"@) && !contains(
            file,
            "sysdeps"@,
        ) && !contains(file, "csu/"@) ==> !noise_frame(file, hdir),
        !noise_frame(file, hdir) ==> !starts_with(file, hdir),
{
    assert((hdir + after).subrange(0, hdir.len() as int) =~= hdir);
    let usr = "/usr/"@;
    let lib = "/lib"@;
    let build = "/build"@;
    assert((usr + after).subrange(0, usr.len() as int) =~= usr);
    assert((lib + after).subrange(0, lib.len() as int) =~= lib);
    assert((build + after).subrange(0, build.len() as int) =~= build);
    a_part_is_contained(before, "/c_runtime/"@, after);
    a_part_is_contained(before, "bhf_decode"@, after);
    a_part_is_contained(before, "sysdeps"@, after);
    a_part_is_contained(before, "csu/"@, after);
    reveal_strlit("/usr/");
    reveal_strlit("/lib");
    reveal_strlit("/build");
    if file.len() > 0 && file[0] != '/' {
        if starts_with(file, usr) {
            assert(file.subrange(0, 5)[0] == file[0]);
        }
        if starts_with(file, lib) {
            assert(file.subrange(0, 4)[0] == file[0]);
        }
        if starts_with(file, build) {
            assert(file.subrange(0, 6)[0] == file[0]);
        }
    }
}

/// What a run leads to. A race that is located in the target is a site, whatever the run
/// came to. A run that never completed is repeated a few times and then counted; a run that
/// completed without a race settles its input if it succeeded; and the replay stops only
/// for too many runs that never completed or too many failures to set memory up.
pub proof fn what_a_run_leads_to(r: ReplayView, event: RunEvent, hdir: Seq<char>)
    ensures
        ({
            let (n, step) = after_replay_run(r, event, hdir);
            let unset = event matches RunEvent::Completed { success, stderr } && !success
                && !contains(stderr@, "data race"@) && mapping_failure(stderr@);
            &&& n.replayed == r.replayed
            &&& step == ReplayStep::Stop <==> (event is NeverCompleted && r.timeouts + 1 >= 16) || (
            unset && r.mapping_failures + 1 >= 256)
            &&& step == ReplayStep::Again && !unset ==> r.retries < 4 && n.retries == r.retries + 1
            &&& step != ReplayStep::Again ==> n.retries == r.retries
            &&& event is NeverCompleted ==> n.timeouts == r.timeouts + 1 && n.sites == r.sites
                && n.unattributed == r.unattributed && n.unmeasured == r.unmeasured + (if step
                == ReplayStep::Again {
                0int
            } else {
                1
            })
            &&& event is NeverCompleted && r.retries < 4 && r.timeouts + 1 < 16 ==> step
                == ReplayStep::Again
            &&& event is Completed ==> n.timeouts == r.timeouts && n.unmeasured == r.unmeasured
            &&& unset ==> n.mapping_failures == r.mapping_failures + 1 && n.sites == r.sites
                && n.unattributed == r.unattributed && n.retries == r.retries
            &&& event is Completed && !unset ==> n.mapping_failures == 0
            &&& event matches RunEvent::Completed { success, stderr } ==> {
                let race = contains(stderr@, "data race"@);
                let at = attribution(lines(stderr@), hdir, false);
                &&& !race ==> n.sites == r.sites && n.unattributed == r.unattributed
                &&& !race && success ==> step == ReplayStep::NextInput
                &&& !race && !success && !unset ==> (step == ReplayStep::Again <==> r.retries < 4)
                &&& race && at is Target ==> step == ReplayStep::NextInput && n.sites == with_site(
                    r.sites,
                    (at->Target_0, at->Target_1),
                )
                &&& race && at !is Target ==> n.sites == r.sites && (step == ReplayStep::Again
                    <==> r.retries < 4)
                &&& race && r.retries >= 4 ==> n.unattributed == r.unattributed + (if at
                    == AttributionView::Unresolved {
                    1int
                } else {
                    0
                })
                &&& race && r.retries < 4 ==> n.unattributed == r.unattributed
            }
        }),
{
}

/// A replay takes inputs up to two thousand, and until sixteen runs never completed.
pub proof fn a_replay_takes_inputs_up_to_its_bounds(replay: &Replay, r: bool)
    requires
        call_ensures(Replay::wants_input, (replay,), r),
    ensures
        r <==> replay@.replayed < 2000 && replay@.timeouts < 16,
{
}

/// A failure to set memory up is told by what the sanitizer says of itself, in whatever
/// case.
pub proof fn mapping_failures_name_the_sanitizer(stderr: Seq<char>)
    ensures
        mapping_failure(stderr) ==> contains(lowercase(stderr), "threadsanitizer"@),
        contains(lowercase(stderr), "threadsanitizer"@) && contains(
            lowercase(stderr),
            "shadow memory"@,
        ) ==> mapping_failure(stderr),
        contains(lowercase(stderr), "threadsanitizer: unexpected memory mapping"@)
            ==> mapping_failure(stderr),
        contains(lowercase(stderr), "threadsanitizer: failed to mmap"@) ==> mapping_failure(stderr),
        contains(lowercase(stderr), "threadsanitizer: check failed"@) ==> mapping_failure(stderr),
{
    let s = lowercase(stderr);
    let name = "threadsanitizer"@;
    reveal_strlit("threadsanitizer");
    lemma_begins("threadsanitizer: unexpected memory mapping"@, s);
    reveal_strlit("threadsanitizer: unexpected memory mapping");
    lemma_begins("threadsanitizer: failed to mmap"@, s);
    reveal_strlit("threadsanitizer: failed to mmap");
    lemma_begins("threadsanitizer check failed"@, s);
    reveal_strlit("threadsanitizer check failed");
    lemma_begins("threadsanitizer: check failed"@, s);
    reveal_strlit("threadsanitizer: check failed");
    assert("threadsanitizer: unexpected memory mapping"@.take(15) =~= name);
    assert("threadsanitizer: failed to mmap"@.take(15) =~= name);
    assert("threadsanitizer check failed"@.take(15) =~= name);
    assert("threadsanitizer: check failed"@.take(15) =~= name);
}

proof fn lemma_begins(phrase: Seq<char>, s: Seq<char>)
    ensures
        phrase.len() >= 15 && contains(s, phrase) ==> contains(s, phrase.take(15)),
{
    if phrase.len() >= 15 && contains(s, phrase) {
        let i = choose|i: int| crate::text::occurs_at(s, phrase, i);
        assert(s.subrange(i, i + 15) =~= s.subrange(i, i + phrase.len()).take(15));
        assert(crate::text::occurs_at(s, phrase.take(15), i));
    }
}

/// A site is told by its text, and so by what is digested for its key.
pub proof fn sites_are_told_apart(f: Seq<char>, m: nat, g: Seq<char>, n: nat)
    requires
        site_text(f, m) == site_text(g, n),
    ensures
        f == g,
        m == n,
{
    reveal_strlit(":");
    let s = site_text(f, m);
    lemma_decimal_parses(m, m);
    lemma_decimal_parses(n, n);
    assert(s.len() == f.len() + 1 + decimal(m).len());
    assert(s.len() == g.len() + 1 + decimal(n).len());
    assert(s[f.len() as int] == ':');
    assert(s[g.len() as int] == ':');
    if f.len() < g.len() {
        assert(s[g.len() as int] == decimal(m)[g.len() - f.len() - 1]);
    }
    if g.len() < f.len() {
        assert(s[f.len() as int] == decimal(n)[f.len() - g.len() - 1]);
    }
    assert(s.take(f.len() as int) =~= f);
    assert(s.take(g.len() as int) =~= g);
    assert(s.skip(f.len() as int + 1) =~= decimal(m));
    assert(s.skip(g.len() as int + 1) =~= decimal(n));
    numbers_are_told_apart(m, n);
}

/// Findings of one site are one issue, and a site is shown as its file and line.
pub proof fn one_site_is_one_issue(
    f: &str,
    m: u64,
    g: &str,
    n: u64,
    a: (String, String),
    b: (String, String),
)
    requires
        call_ensures(tsan_cluster, (f, m), a),
        call_ensures(tsan_cluster, (g, n), b),
    ensures
        f@ == g@ && m == n ==> a.1@ == b.1@,
        a.0@ == b.0@ <==> f@ == g@ && m == n,
        starts_with(a.0@, f@),
{
    if a.0@ == b.0@ {
        sites_are_told_apart(f@, m as nat, g@, n as nat);
    }
    assert(a.0@.subrange(0, f@.len() as int) =~= f@);
}

/// Findings with different numbers have different identifiers, of at least four digits.
pub proof fn findings_have_identifiers_of_their_own(i: usize, j: usize, a: String, b: String)
    requires
        call_ensures(tsan_finding_id, (i,), a),
        call_ensures(tsan_finding_id, (j,), b),
    ensures
        a@ == b@ <==> i == j,
        a@.len() >= 11,
        starts_with(a@, "F-TSAN-"@),
        i < 10_000 ==> a@.len() == 11,
{
    reveal_strlit("F-TSAN-");
    reveal_strlit("000");
    reveal_strlit("00");
    reveal_strlit("0");
    assert(a@.subrange(0, 7) =~= "F-TSAN-"@);
    lemma_four_digits(i as nat);
    lemma_four_digits(j as nat);
    assert(a@.skip(7) =~= four_digits(i as nat));
    assert(b@.skip(7) =~= four_digits(j as nat));
}

proof fn lemma_four_digits(n: nat)
    ensures
        crate::text::decimal_value(four_digits(n)) == n,
        four_digits(n).len() >= 4,
        n < 10_000 ==> four_digits(n).len() == 4,
{
    reveal_strlit("000");
    reveal_strlit("00");
    reveal_strlit("0");
    lemma_decimal_parses(n, n);
    reveal_with_fuel(decimal, 5);
    reveal_with_fuel(crate::text::decimal_value, 6);
    if n < 10 {
        let s = four_digits(n);
        assert(s.drop_last() =~= "000"@);
        assert(s.drop_last().drop_last() =~= "00"@);
        assert(s.drop_last().drop_last().drop_last() =~= "0"@);
        assert(s.drop_last().drop_last().drop_last().drop_last() =~= Seq::empty());
    } else if n < 100 {
        let s = four_digits(n);
        assert(s.drop_last().drop_last() =~= "00"@);
        assert(s.drop_last().drop_last().drop_last() =~= "0"@);
        assert(s.drop_last().drop_last().drop_last().drop_last() =~= Seq::empty());
    } else if n < 1000 {
        let s = four_digits(n);
        assert(s.drop_last().drop_last().drop_last() =~= "0"@);
        assert(s.drop_last().drop_last().drop_last().drop_last() =~= Seq::empty());
    }
}

} // verus!
