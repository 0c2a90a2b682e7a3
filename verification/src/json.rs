//! JSON text: the strings and arrays of strings that the other modules write.

use vstd::prelude::*;
use vstd::string::*;

use crate::text::{
    chars_of, comes_before, hex_char, join, lemma_precedes_total, lemma_precedes_transitive,
    precedes, same, texts,
};

verus! {

/// How a JSON string writes the character `c`.
pub open spec fn json_escape(c: char) -> Seq<char> {
    if c == '"' {
        seq!['\\', '"']
    } else if c == '\\' {
        seq!['\\', '\\']
    } else if c == '\u{8}' {
        seq!['\\', 'b']
    } else if c == '\t' {
        seq!['\\', 't']
    } else if c == '\n' {
        seq!['\\', 'n']
    } else if c == '\u{c}' {
        seq!['\\', 'f']
    } else if c == '\r' {
        seq!['\\', 'r']
    } else if (c as u32) < 0x20 {
        seq!['\\', 'u', '0', '0', hex_char(c as nat / 16), hex_char(c as nat % 16)]
    } else {
        seq![c]
    }
}

/// The characters of `s`, each as a JSON string writes it.
pub open spec fn json_escapes(s: Seq<char>) -> Seq<char>
    decreases s.len(),
{
    if s.len() == 0 {
        Seq::empty()
    } else {
        json_escape(s[0]) + json_escapes(s.skip(1))
    }
}

/// `s` as a JSON string, with its quotation marks.
pub open spec fn json_string(s: Seq<char>) -> Seq<char> {
    seq!['"'] + json_escapes(s) + seq!['"']
}

/// `items` as JSON strings.
pub open spec fn json_strings(items: Seq<Seq<char>>) -> Seq<Seq<char>> {
    Seq::new(items.len(), |i: int| json_string(items[i]))
}

/// `items` as a JSON array of strings without white space.
pub open spec fn json_array(items: Seq<Seq<char>>) -> Seq<char> {
    seq!['['] + join(json_strings(items), seq![',']) + seq![']']
}

/// `serde_json::to_string` on a string gives that string between quotation marks, with
/// the quotation mark, the backslash and the control characters below the space escaped
/// and every other character kept.
#[verifier::external_body]
pub(crate) fn quoted(s: &str) -> (r: String)
    ensures
        r@ == json_string(s@),
{
    serde_json::to_string(s).expect("a string always serialises")
}

/// `items` as a JSON array of strings without white space.
pub fn quoted_array(items: &[String]) -> (r: String)
    ensures
        r@ == json_array(texts(items@)),
{
    let mut out = String::new();
    out.push('[');
    let ghost all = json_strings(texts(items@));
    let mut i: usize = 0;
    proof {
        assert(all.take(0) =~= Seq::empty());
        assert(out@ =~= seq!['[']);
    }
    while i < items.len()
        invariant
            i <= items@.len(),
            all == json_strings(texts(items@)),
            out@ == seq!['['] + join(all.take(i as int), seq![',']),
        decreases items@.len() - i,
    {
        let ghost before = out@;
        proof {
            assert(all.take(i + 1).drop_last() =~= all.take(i as int));
            assert(all.take(i + 1).last() == json_string(items@[i as int]@));
        }
        if i > 0 {
            out.push(',');
        }
        let item = quoted(items[i].as_str());
        out.append(item.as_str());
        proof {
            if i > 0 {
                assert(out@ =~= seq!['['] + (join(all.take(i as int), seq![',']) + seq![','] + item@));
            } else {
                assert(all.take(0) =~= Seq::empty());
                assert(out@ =~= seq!['['] + item@);
            }
        }
        i = i + 1;
    }
    proof {
        assert(all.take(i as int) =~= all);
    }
    out.push(']');
    proof {
        assert(out@ =~= seq!['['] + join(all, seq![',']) + seq![']']);
    }
    out
}

proof fn lemma_hex_char(a: nat, b: nat)
    requires
        a < 16,
        b < 16,
        hex_char(a) == hex_char(b),
    ensures
        a == b,
{
}

/// Where two escaped texts begin with the same characters, so do the texts.
proof fn lemma_escape_prefix_free(a: char, b: char, p: Seq<char>, q: Seq<char>)
    requires
        json_escape(a) + p == json_escape(b) + q,
    ensures
        a == b,
        p == q,
{
    let l = json_escape(a) + p;
    let r = json_escape(b) + q;
    assert(l[0] == json_escape(a)[0]);
    assert(r[0] == json_escape(b)[0]);
    if json_escape(a).len() > 1 {
        assert(l[1] == json_escape(a)[1]);
        assert(r[1] == json_escape(b)[1]);
        if json_escape(a).len() > 2 {
            assert(l[4] == json_escape(a)[4]);
            assert(r[4] == json_escape(b)[4]);
            assert(l[5] == json_escape(a)[5]);
            assert(r[5] == json_escape(b)[5]);
            lemma_hex_char(a as nat / 16, b as nat / 16);
            lemma_hex_char(a as nat % 16, b as nat % 16);
        }
    }
    let n = json_escape(a).len() as int;
    assert(l.skip(n) =~= p);
    assert(r.skip(n) =~= q);
}

/// What follows a JSON string's closing quotation mark, and the string itself, are fixed
/// by the text that begins with it.
pub proof fn json_string_is_self_delimiting(
    a: Seq<char>,
    b: Seq<char>,
    p: Seq<char>,
    q: Seq<char>,
)
    requires
        json_string(a) + p == json_string(b) + q,
    ensures
        a == b,
        p == q,
{
    let l = json_string(a) + p;
    let r = json_string(b) + q;
    assert(l.skip(1) =~= json_escapes(a) + (seq!['"'] + p));
    assert(r.skip(1) =~= json_escapes(b) + (seq!['"'] + q));
    lemma_escapes_self_delimiting(a, b, p, q);
}

proof fn lemma_escapes_self_delimiting(a: Seq<char>, b: Seq<char>, p: Seq<char>, q: Seq<char>)
    requires
        json_escapes(a) + (seq!['"'] + p) == json_escapes(b) + (seq!['"'] + q),
    ensures
        a == b,
        p == q,
    decreases a.len(),
{
    let l = json_escapes(a) + (seq!['"'] + p);
    let r = json_escapes(b) + (seq!['"'] + q);
    if a.len() == 0 && b.len() == 0 {
        assert(l.skip(1) =~= p);
        assert(r.skip(1) =~= q);
    } else if a.len() == 0 {
        assert(l[0] == '"');
        assert(r[0] == json_escape(b[0])[0]);
    } else if b.len() == 0 {
        assert(r[0] == '"');
        assert(l[0] == json_escape(a[0])[0]);
    } else {
        let x = json_escapes(a.skip(1)) + (seq!['"'] + p);
        let y = json_escapes(b.skip(1)) + (seq!['"'] + q);
        assert(l =~= json_escape(a[0]) + x);
        assert(r =~= json_escape(b[0]) + y);
        lemma_escape_prefix_free(a[0], b[0], x, y);
        lemma_escapes_self_delimiting(a.skip(1), b.skip(1), p, q);
        assert(a =~= seq![a[0]] + a.skip(1));
        assert(b =~= seq![b[0]] + b.skip(1));
    }
}

/// Two lists of texts that are written as the same JSON array are the same list.
pub proof fn json_array_is_injective(a: Seq<Seq<char>>, b: Seq<Seq<char>>)
    requires
        json_array(a) == json_array(b),
    ensures
        a == b,
{
    let l = json_array(a);
    let r = json_array(b);
    assert(l.skip(1) =~= join(json_strings(a), seq![',']) + seq![']']);
    assert(r.skip(1) =~= join(json_strings(b), seq![',']) + seq![']']);
    lemma_join_from_front(json_strings(a), seq![',']);
    lemma_join_from_front(json_strings(b), seq![',']);
    lemma_list_injective(a, b);
}

/// A joined list begins with its first item.
proof fn lemma_join_from_front(parts: Seq<Seq<char>>, sep: Seq<char>)
    ensures
        parts.len() > 1 ==> join(parts, sep) == parts[0] + sep + join(parts.skip(1), sep),
    decreases parts.len(),
{
    if parts.len() == 2 {
        assert(parts.drop_last() =~= seq![parts[0]]);
        assert(parts.skip(1) =~= seq![parts[1]]);
        assert(join(parts.drop_last(), sep) == parts[0]);
        assert(join(parts.skip(1), sep) == parts[1]);
    } else if parts.len() > 2 {
        lemma_join_from_front(parts.drop_last(), sep);
        assert(parts.skip(1).drop_last() =~= parts.drop_last().skip(1));
        assert(parts.skip(1).last() == parts.last());
        assert(join(parts.skip(1), sep) == join(parts.drop_last().skip(1), sep) + sep
            + parts.last());
        assert(join(parts, sep) =~= parts[0] + sep + (join(parts.drop_last().skip(1), sep) + sep
            + parts.last()));
    }
}

proof fn lemma_list_injective(a: Seq<Seq<char>>, b: Seq<Seq<char>>)
    requires
        join(json_strings(a), seq![',']) + seq![']'] == join(json_strings(b), seq![',']) + seq![
            ']',
        ],
    ensures
        a == b,
    decreases a.len(),
{
    let ja = json_strings(a);
    let jb = json_strings(b);
    let l = join(ja, seq![',']) + seq![']'];
    let r = join(jb, seq![',']) + seq![']'];
    lemma_join_from_front(ja, seq![',']);
    lemma_join_from_front(jb, seq![',']);
    if a.len() == 0 {
        assert(l[0] == ']');
        if b.len() > 0 {
            assert(r[0] == '"');
        } else {
            assert(a =~= b);
        }
    } else if b.len() == 0 {
        assert(r[0] == ']');
        assert(l[0] == '"');
    } else {
        let p = if a.len() == 1 {
            seq![']']
        } else {
            seq![','] + join(ja.skip(1), seq![',']) + seq![']']
        };
        let q = if b.len() == 1 {
            seq![']']
        } else {
            seq![','] + join(jb.skip(1), seq![',']) + seq![']']
        };
        assert(l =~= json_string(a[0]) + p);
        assert(r =~= json_string(b[0]) + q);
        json_string_is_self_delimiting(a[0], b[0], p, q);
        if a.len() > 1 {
            assert(p[0] == ',');
        }
        if b.len() > 1 {
            assert(q[0] == ',');
        }
        if a.len() > 1 {
            assert(p.skip(1) =~= join(ja.skip(1), seq![',']) + seq![']']);
            assert(q.skip(1) =~= join(jb.skip(1), seq![',']) + seq![']']);
            assert(json_strings(a.skip(1)) =~= ja.skip(1));
            assert(json_strings(b.skip(1)) =~= jb.skip(1));
            lemma_list_injective(a.skip(1), b.skip(1));
        } else {
            assert(a.skip(1) =~= b.skip(1));
        }
        assert(a =~= seq![a[0]] + a.skip(1));
        assert(b =~= seq![b[0]] + b.skip(1));
    }
}

/// `members` with the member `key` set to `value`: members stand in the order of their
/// keys, and a key that is there already gets the new value.
pub open spec fn set_member(
    members: Seq<(Seq<char>, Seq<char>)>,
    key: Seq<char>,
    value: Seq<char>,
) -> Seq<(Seq<char>, Seq<char>)>
    decreases members.len(),
{
    if members.len() == 0 {
        seq![(key, value)]
    } else if members[0].0 == key {
        seq![(key, value)] + members.skip(1)
    } else if precedes(key, members[0].0) {
        seq![(key, value)] + members
    } else {
        seq![members[0]] + set_member(members.skip(1), key, value)
    }
}

/// Keys and values, each a text, of an object's members.
pub open spec fn member_texts(members: Seq<(String, String)>) -> Seq<(Seq<char>, Seq<char>)> {
    Seq::new(members.len(), |i: int| (members[i].0@, members[i].1@))
}

/// The members of an object, each as its quoted key, a colon and its value.
pub open spec fn json_members(members: Seq<(Seq<char>, Seq<char>)>) -> Seq<Seq<char>> {
    Seq::new(members.len(), |i: int| json_string(members[i].0) + seq![':'] + members[i].1)
}

/// The object with these members, without white space.
pub open spec fn json_object(members: Seq<(Seq<char>, Seq<char>)>) -> Seq<char> {
    seq!['{'] + join(json_members(members), seq![',']) + seq!['}']
}

pub fn put_member(members: &mut Vec<(String, String)>, key: &str, value: String)
    ensures
        member_texts(final(members)@) == set_member(member_texts(old(members)@), key@, value@),
{
    let key_chars = chars_of(key);
    let ghost was = member_texts(members@);
    let ghost text = value@;
    let mut i: usize = 0;
    proof {
        assert(was.skip(0) =~= was);
        assert(was.take(0) =~= Seq::empty());
        assert(set_member(was, key@, text) =~= was.take(0) + set_member(was.skip(0), key@, text));
    }
    while i < members.len()
        invariant
            i <= members@.len(),
            was == member_texts(members@),
            was == member_texts(old(members)@),
            *members == *old(members),
            key_chars@ == key@,
            text == value@,
            set_member(was, key@, text) == was.take(i as int) + set_member(
                was.skip(i as int),
                key@,
                text,
            ),
        decreases members@.len() - i,
    {
        let ghost rest = was.skip(i as int);
        proof {
            assert(rest[0] == was[i as int]);
        }
        if same(members[i].0.as_str(), key) {
            let entry: (String, String) = (key.to_owned(), value);
            members.set(i, entry);
            proof {
                assert(member_texts(members@) =~= was.take(i as int) + (seq![(key@, text)]
                    + rest.skip(1)));
            }
            return;
        }
        let other = chars_of(members[i].0.as_str());
        if comes_before(key_chars.as_slice(), other.as_slice()) {
            let entry: (String, String) = (key.to_owned(), value);
            members.insert(i, entry);
            proof {
                assert(member_texts(members@) =~= was.take(i as int) + (seq![(key@, text)]
                    + rest));
            }
            return;
        }
        proof {
            assert(rest.skip(1) =~= was.skip(i + 1));
            assert(was.take(i as int) + (seq![rest[0]] + set_member(rest.skip(1), key@, text))
                =~= was.take(i + 1) + set_member(was.skip(i + 1), key@, text));
        }
        i = i + 1;
    }
    let entry: (String, String) = (key.to_owned(), value);
    members.push(entry);
    proof {
        assert(was.skip(i as int) =~= Seq::empty());
        assert(member_texts(members@) =~= was.take(i as int) + seq![(key@, text)]);
    }
}

pub fn object_text(members: &[(String, String)]) -> (r: String)
    ensures
        r@ == json_object(member_texts(members@)),
{
    let mut out = String::new();
    out.push('{');
    let ghost all = json_members(member_texts(members@));
    let mut i: usize = 0;
    proof {
        assert(all.take(0) =~= Seq::empty());
        assert(out@ =~= seq!['{']);
    }
    while i < members.len()
        invariant
            i <= members@.len(),
            all == json_members(member_texts(members@)),
            out@ == seq!['{'] + join(all.take(i as int), seq![',']),
        decreases members@.len() - i,
    {
        let ghost before = join(all.take(i as int), seq![',']);
        proof {
            assert(all.take(i + 1).drop_last() =~= all.take(i as int));
            assert(all.take(i + 1).last() == all[i as int]);
        }
        if i > 0 {
            out.push(',');
        }
        let key = quoted(members[i].0.as_str());
        out.append(key.as_str());
        out.push(':');
        out.append(members[i].1.as_str());
        proof {
            let member = json_string(members@[i as int].0@) + seq![':'] + members@[i as int].1@;
            assert(member == all[i as int]);
            if i > 0 {
                assert(out@ =~= seq!['{'] + (before + seq![','] + member));
            } else {
                assert(all.take(0) =~= Seq::empty());
                assert(out@ =~= seq!['{'] + member);
            }
        }
        i = i + 1;
    }
    proof {
        assert(all.take(i as int) =~= all);
    }
    out.push('}');
    proof {
        assert(out@ =~= seq!['{'] + join(all, seq![',']) + seq!['}']);
    }
    out
}

/// Whether keys stand in strictly rising order, so that none occurs twice.
pub open spec fn keys_rise(members: Seq<(Seq<char>, Seq<char>)>) -> bool {
    forall|i: int, j: int|
        0 <= i < j < members.len() ==> precedes(#[trigger] members[i].0, #[trigger] members[j].0)
}

/// Setting a member keeps the keys in order, gives that key its value and leaves every
/// other key as it was.
pub proof fn set_member_sets_one_key(
    members: Seq<(Seq<char>, Seq<char>)>,
    key: Seq<char>,
    value: Seq<char>,
)
    requires
        keys_rise(members),
    ensures
        keys_rise(set_member(members, key, value)),
        set_member(members, key, value).contains((key, value)),
        forall|k: Seq<char>, v: Seq<char>|
            k != key ==> (set_member(members, key, value).contains((k, v)) <==> members.contains(
                (k, v),
            )),
        forall|v: Seq<char>|
            set_member(members, key, value).contains((key, v)) ==> v == value,
    decreases members.len(),
{
    let result = set_member(members, key, value);
    if members.len() == 0 {
        assert(result[0] == (key, value));
    } else if members[0].0 == key {
        assert(result =~= members.update(0, (key, value)));
        assert forall|k: Seq<char>, v: Seq<char>| k != key implies (result.contains((k, v))
            <==> members.contains((k, v))) by {
            if members.contains((k, v)) {
                let i = choose|i: int| 0 <= i < members.len() && members[i] == (k, v);
                assert(result[i] == (k, v));
            }
            if result.contains((k, v)) {
                let i = choose|i: int| 0 <= i < result.len() && result[i] == (k, v);
                assert(members[i] == (k, v));
            }
        }
        assert(result[0] == (key, value));
        assert forall|v: Seq<char>| result.contains((key, v)) implies v == value by {
            let i = choose|i: int| 0 <= i < result.len() && result[i] == (key, v);
            if i > 0 {
                assert(precedes(members[0].0, members[i].0));
                lemma_precedes_total(key, key);
            }
        }
    } else if precedes(key, members[0].0) {
        assert(result[0] == (key, value));
        assert forall|i: int, j: int| 0 <= i < j < result.len() implies precedes(
            #[trigger] result[i].0,
            #[trigger] result[j].0,
        ) by {
            assert(result[j] == members[j - 1]);
            if i > 0 {
                assert(result[i] == members[i - 1]);
            } else if j > 1 {
                lemma_precedes_transitive(key, members[0].0, members[j - 1].0);
            }
        }
        assert forall|k: Seq<char>, v: Seq<char>| k != key implies (result.contains((k, v))
            <==> members.contains((k, v))) by {
            if members.contains((k, v)) {
                let i = choose|i: int| 0 <= i < members.len() && members[i] == (k, v);
                assert(result[i + 1] == (k, v));
            }
            if result.contains((k, v)) {
                let i = choose|i: int| 0 <= i < result.len() && result[i] == (k, v);
                assert(members[i - 1] == (k, v));
            }
        }
        assert forall|v: Seq<char>| result.contains((key, v)) implies v == value by {
            let i = choose|i: int| 0 <= i < result.len() && result[i] == (key, v);
            if i > 0 {
                assert(precedes(result[0].0, result[i].0));
                lemma_precedes_total(key, key);
            }
        }
    } else {
        let rest = members.skip(1);
        assert(keys_rise(rest)) by {
            assert forall|i: int, j: int| 0 <= i < j < rest.len() implies precedes(
                #[trigger] rest[i].0,
                #[trigger] rest[j].0,
            ) by {
                assert(rest[i] == members[i + 1]);
                assert(rest[j] == members[j + 1]);
            }
        }
        set_member_sets_one_key(rest, key, value);
        let tail = set_member(rest, key, value);
        lemma_precedes_total(key, members[0].0);
        assert forall|i: int, j: int| 0 <= i < j < result.len() implies precedes(
            #[trigger] result[i].0,
            #[trigger] result[j].0,
        ) by {
            assert(result[j] == tail[j - 1]);
            if i > 0 {
                assert(result[i] == tail[i - 1]);
            } else {
                let (k, v) = tail[j - 1];
                assert(tail.contains((k, v)));
                if k != key {
                    assert(rest.contains((k, v)));
                    let n = choose|n: int| 0 <= n < rest.len() && rest[n] == (k, v);
                    assert(members[n + 1] == (k, v));
                }
            }
        }
        assert forall|k: Seq<char>, v: Seq<char>| #[trigger] result.contains((k, v)) <==> (
        tail.contains((k, v)) || members[0] == (k, v)) by {
            if tail.contains((k, v)) {
                let i = choose|i: int| 0 <= i < tail.len() && tail[i] == (k, v);
                assert(result[i + 1] == (k, v));
            }
            if members[0] == (k, v) {
                assert(result[0] == (k, v));
            }
            if result.contains((k, v)) {
                let i = choose|i: int| 0 <= i < result.len() && result[i] == (k, v);
                if i > 0 {
                    assert(tail[i - 1] == (k, v));
                }
            }
        }
        assert forall|k: Seq<char>, v: Seq<char>| #[trigger] members.contains((k, v)) <==> (
        rest.contains((k, v)) || members[0] == (k, v)) by {
            if rest.contains((k, v)) {
                let i = choose|i: int| 0 <= i < rest.len() && rest[i] == (k, v);
                assert(members[i + 1] == (k, v));
            }
            if members.contains((k, v)) {
                let i = choose|i: int| 0 <= i < members.len() && members[i] == (k, v);
                if i > 0 {
                    assert(rest[i - 1] == (k, v));
                }
            }
        }
    }
}

} // verus!
