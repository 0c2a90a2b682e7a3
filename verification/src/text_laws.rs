//! What holds of texts that are put together and taken apart.

use vstd::prelude::*;
use vstd::string::*;

use crate::json::{json_members, json_object, json_string};
use crate::text::{
    contains, decimal, digit, join, lemma_decimal_parses, lemma_pieces_lack_separator,
    lemma_split_nonempty, lowercase, occurs_at, parse_decimal, precedes, split_on, trim, trim_end,
    trim_start, white_space, words,
};

verus! {

/// A text stands in every text that it is a part of.
pub proof fn a_part_is_contained(before: Seq<char>, part: Seq<char>, after: Seq<char>)
    ensures
        contains(before + part + after, part),
        contains(before + part, part),
        contains(part + after, part),
        contains(part, part),
{
    let all = before + part + after;
    let n = before.len() as int;
    assert(all.subrange(n, n + part.len()) =~= part);
    assert(occurs_at(all, part, n));
    assert((before + part).subrange(n, n + part.len()) =~= part);
    assert(occurs_at(before + part, part, n));
    assert((part + after).subrange(0, part.len() as int) =~= part);
    assert(occurs_at(part + after, part, 0));
    assert(part.subrange(0, part.len() as int) =~= part);
    assert(occurs_at(part, part, 0));
}

/// What stands in a part of a text stands in the text.
pub proof fn parts_of_parts_are_contained(
    before: Seq<char>,
    part: Seq<char>,
    after: Seq<char>,
    p: Seq<char>,
)
    requires
        contains(part, p),
    ensures
        contains(before + part + after, p),
        contains(before + part, p),
        contains(part + after, p),
{
    let i = choose|i: int| occurs_at(part, p, i);
    let n = before.len() as int;
    assert((before + part + after).subrange(n + i, n + i + p.len()) =~= part.subrange(
        i,
        i + p.len(),
    ));
    assert(occurs_at(before + part + after, p, n + i));
    assert((before + part).subrange(n + i, n + i + p.len()) =~= part.subrange(i, i + p.len()));
    assert(occurs_at(before + part, p, n + i));
    assert((part + after).subrange(i, i + p.len()) =~= part.subrange(i, i + p.len()));
    assert(occurs_at(part + after, p, i));
}

/// A number ends where its digits do, so that it and what follows can be told.
pub proof fn numbers_are_told_by_what_ends_them(
    m: nat,
    n: nat,
    end: char,
    p: Seq<char>,
    q: Seq<char>,
)
    requires
        !digit(end),
        decimal(m) + seq![end] + p == decimal(n) + seq![end] + q,
    ensures
        m == n,
        p == q,
{
    let a = decimal(m);
    let b = decimal(n);
    let l = a + seq![end] + p;
    let r = b + seq![end] + q;
    lemma_decimal_parses(m, m);
    lemma_decimal_parses(n, n);
    assert(l[a.len() as int] == end);
    assert(r[b.len() as int] == end);
    if a.len() < b.len() {
        assert(r[a.len() as int] == b[a.len() as int]);
    }
    if b.len() < a.len() {
        assert(l[b.len() as int] == a[b.len() as int]);
    }
    assert(l.take(a.len() as int) =~= a);
    assert(r.take(b.len() as int) =~= b);
    assert(l.skip(a.len() as int + 1) =~= p);
    assert(r.skip(b.len() as int + 1) =~= q);
}

/// Different numbers are written differently.
pub proof fn numbers_are_told_apart(m: nat, n: nat)
    requires
        decimal(m) == decimal(n),
    ensures
        m == n,
{
    lemma_decimal_parses(m, m);
    lemma_decimal_parses(n, n);
}

/// Texts can be joined in any grouping.
pub proof fn joining_is_associative(a: Seq<char>, b: Seq<char>, c: Seq<char>)
    ensures
        (a + b) + c == a + (b + c),
{
    assert((a + b) + c =~= a + (b + c));
}

/// The same beginning taken away leaves the same rest.
pub proof fn the_rest_is_told_by_the_whole(a: Seq<char>, b: Seq<char>, c: Seq<char>)
    requires
        a + b == a + c,
    ensures
        b == c,
{
    assert((a + b).skip(a.len() as int) =~= b);
    assert((a + c).skip(a.len() as int) =~= c);
}

/// Every part of a joined text stands in it.
pub proof fn joined_parts_stand(parts: Seq<Seq<char>>, sep: Seq<char>, i: int)
    requires
        0 <= i < parts.len(),
    ensures
        contains(join(parts, sep), parts[i]),
    decreases parts.len(),
{
    let none = Seq::<char>::empty();
    if parts.len() == 1 {
        a_part_is_contained(none, parts[0], none);
    } else if i == parts.len() - 1 {
        a_part_is_contained(join(parts.drop_last(), sep) + sep, parts.last(), none);
    } else {
        joined_parts_stand(parts.drop_last(), sep, i);
        let front = join(parts.drop_last(), sep);
        joining_is_associative(front, sep, parts.last());
        parts_of_parts_are_contained(none, front, sep + parts.last(), parts[i]);
    }
}

/// Every member of an object stands in its text.
pub proof fn members_stand_in_their_object(members: Seq<(Seq<char>, Seq<char>)>, i: int)
    requires
        0 <= i < members.len(),
    ensures
        contains(json_object(members), json_string(members[i].0) + seq![':'] + members[i].1),
        json_object(members)[0] == '{',
        json_object(members).last() == '}',
{
    let all = json_members(members);
    joined_parts_stand(all, seq![','], i);
    parts_of_parts_are_contained(seq!['{'], join(all, seq![',']), seq!['}'], all[i]);
}

/// The pieces of a text that is split make up the text again, with the separator between
/// them, and none of them holds it.
pub proof fn pieces_make_up_the_text(s: Seq<char>, c: char)
    ensures
        split_on(s, c).len() >= 1,
        join(split_on(s, c), seq![c]) == s,
        forall|i: int| 0 <= i < split_on(s, c).len() ==> !(#[trigger] split_on(s, c)[i]).contains(c),
    decreases s.len(),
{
    lemma_pieces_lack_separator(s, c);
    lemma_split_nonempty(s, c);
    if s.len() > 0 {
        let front = s.drop_last();
        let before = split_on(front, c);
        let after = split_on(s, c);
        pieces_make_up_the_text(front, c);
        if s.last() == c {
            assert(after.drop_last() =~= before);
            assert(join(after, seq![c]) =~= front.push(c));
        } else {
            assert(after.drop_last() =~= before.drop_last());
            if before.len() == 1 {
                assert(join(after, seq![c]) =~= front.push(s.last()));
            } else {
                assert(join(after, seq![c]) =~= front.push(s.last()));
            }
        }
        assert(front.push(s.last()) =~= s);
    } else {
        assert(join(split_on(s, c), seq![c]) =~= s);
    }
}

/// Trimming takes away white space at both ends and nothing else.
pub proof fn trimming_takes_white_space_from_the_ends(s: Seq<char>) -> (r: (int, int))
    ensures
        0 <= r.0 <= r.1 <= s.len(),
        trim(s) == s.subrange(r.0, r.1),
        forall|i: int| 0 <= i < r.0 ==> white_space(#[trigger] s[i]),
        forall|i: int| r.1 <= i < s.len() ==> white_space(#[trigger] s[i]),
        trim(s).len() > 0 ==> !white_space(trim(s)[0]) && !white_space(trim(s).last()),
{
    let a = lemma_trimmed_start(s);
    let t = trim_start(s);
    let b = lemma_trimmed_end(t);
    assert(trim(s) =~= s.subrange(a, a + b));
    assert forall|i: int| a + b <= i < s.len() implies white_space(#[trigger] s[i]) by {
        assert(t[i - a] == s[i]);
    }
    (a, a + b)
}

proof fn lemma_trimmed_start(s: Seq<char>) -> (a: int)
    ensures
        0 <= a <= s.len(),
        trim_start(s) == s.skip(a),
        forall|i: int| 0 <= i < a ==> white_space(#[trigger] s[i]),
        a < s.len() ==> !white_space(s[a]),
    decreases s.len(),
{
    if s.len() > 0 && white_space(s[0]) {
        let a = lemma_trimmed_start(s.skip(1));
        assert(s.skip(1).skip(a) =~= s.skip(a + 1));
        assert forall|i: int| 0 <= i < a + 1 implies white_space(#[trigger] s[i]) by {
            if i > 0 {
                assert(s.skip(1)[i - 1] == s[i]);
            }
        }
        a + 1
    } else {
        assert(s.skip(0) =~= s);
        0
    }
}

proof fn lemma_trimmed_end(s: Seq<char>) -> (b: int)
    ensures
        0 <= b <= s.len(),
        trim_end(s) == s.take(b),
        forall|i: int| b <= i < s.len() ==> white_space(#[trigger] s[i]),
        b > 0 ==> !white_space(s[b - 1]),
    decreases s.len(),
{
    if s.len() > 0 && white_space(s.last()) {
        let front = s.drop_last();
        let b = lemma_trimmed_end(front);
        assert(front.take(b) =~= s.take(b));
        assert forall|i: int| b <= i < s.len() implies white_space(#[trigger] s[i]) by {
            if i < front.len() {
                assert(front[i] == s[i]);
            }
        }
        b
    } else {
        assert(s.take(s.len() as int) =~= s);
        s.len() as int
    }
}

/// Making a text small changes its ASCII capitals and nothing else, each to the letter that
/// it is; doing so again changes nothing.
pub proof fn small_texts_differ_in_capitals_alone(s: Seq<char>, i: int)
    requires
        0 <= i < s.len(),
    ensures
        lowercase(s).len() == s.len(),
        'A' <= s[i] <= 'Z' ==> lowercase(s)[i] as u32 == s[i] as u32 + 32,
        !('A' <= s[i] <= 'Z') ==> lowercase(s)[i] == s[i],
        lowercase(lowercase(s)) == lowercase(s),
{
    assert forall|k: int| 0 <= k < s.len() implies lowercase(lowercase(s))[k]
        == #[trigger] lowercase(s)[k] by {}
    assert(lowercase(lowercase(s)) =~= lowercase(s));
}

/// The words of a text are its characters without the white space, parted where it stood:
/// no word is empty or holds white space, and nothing is lost.
pub proof fn words_are_what_is_not_white_space(s: Seq<char>)
    ensures
        forall|i: int|
            0 <= i < words(s).len() ==> (#[trigger] words(s)[i]).len() > 0,
        forall|i: int, k: int|
            0 <= i < words(s).len() && 0 <= k < words(s)[i].len() ==> !white_space(
                #[trigger] words(s)[i][k],
            ),
        join(words(s), Seq::empty()) == s.filter(|c: char| !white_space(c)),
        s.len() > 0 && !white_space(s.last()) ==> words(s).len() > 0,
    decreases s.len(),
{
    reveal(Seq::filter);
    if s.len() > 0 {
        let front = s.drop_last();
        let before = words(front);
        words_are_what_is_not_white_space(front);
        if !white_space(s.last()) {
            let after = words(s);
            let none = Seq::<char>::empty();
            if s.len() == 1 || white_space(s[s.len() - 2]) {
                assert(after.drop_last() =~= before);
                if before.len() == 0 {
                    assert(join(after, none) =~= join(before, none).push(s.last()));
                } else {
                    assert(join(after, none) =~= join(before, none).push(s.last()));
                }
            } else {
                assert(front.last() == s[s.len() - 2]);
                assert(after.drop_last() =~= before.drop_last());
                assert forall|i: int, k: int|
                    0 <= i < after.len() && 0 <= k < after[i].len() implies !white_space(
                    #[trigger] after[i][k],
                ) by {
                    if i < before.len() - 1 {
                        assert(after[i] == before[i]);
                    } else if k < before.last().len() {
                        assert(before[before.len() - 1][k] == after[i][k]);
                    }
                }
                assert(join(after, none) =~= join(before, none).push(s.last()));
            }
        }
    } else {
        assert(join(words(s), Seq::empty()) =~= s);
    }
}

/// A number is read as it is written, with or without a plus sign before it, where it is
/// not too large; and what is read is never larger than that.
pub proof fn numbers_are_read_as_they_are_written(n: nat, max: nat, s: Seq<char>)
    ensures
        n <= max ==> parse_decimal(decimal(n), max) == Some(n),
        n <= max ==> parse_decimal(seq!['+'] + decimal(n), max) == Some(n),
        n > max ==> parse_decimal(decimal(n), max) is None,
        parse_decimal(s, max) matches Some(m) ==> m <= max,
        s.len() == 0 ==> parse_decimal(s, max) is None,
{
    lemma_decimal_parses(n, n);
    let d = decimal(n);
    assert(digit(d[0]));
    assert((seq!['+'] + d).skip(1) =~= d);
}

/// Texts are ordered as in a dictionary of their characters: a text comes after its own
/// beginnings, and the first character that differs decides.
pub proof fn texts_are_ordered_by_their_first_difference(
    start: Seq<char>,
    a: Seq<char>,
    b: Seq<char>,
)
    ensures
        b.len() > 0 ==> precedes(start, start + b),
        a.len() > 0 && b.len() > 0 && a[0] < b[0] ==> precedes(start + a, start + b),
    decreases start.len(),
{
    if start.len() == 0 {
        assert(start + a =~= a);
        assert(start + b =~= b);
    } else {
        let rest = start.skip(1);
        texts_are_ordered_by_their_first_difference(rest, a, b);
        assert((start + a).skip(1) =~= rest + a);
        assert((start + b).skip(1) =~= rest + b);
        assert((start + a)[0] == start[0] && (start + b)[0] == start[0]);
    }
}

} // verus!
