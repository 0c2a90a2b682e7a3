//! Go declarations as the harness generator sees them, and what their types allow.

use vstd::prelude::*;
use vstd::slice::slice_subrange;
use vstd::string::*;

use crate::json::{
    json_object, json_string, member_texts, object_text, put_member, quoted, set_member,
};
use crate::text::{
    after_prefix, all_digits, begins, chars_of, contains, decimal_of, decimal_value, digit,
    digits_only, find_char, holds, index_of, is_digit, is_letter, is_white_space, lemma_find_char,
    lemma_find_char_is, lemma_trim_len, letter, occurs_at, reads, replace, replaced, stands_at,
    starts_with, string_of, texts, trim, trim_start, trim_start_char, trimmed, trimmed_start, upper,
    white_space, without_leading,
};

verus! {

/// One parameter of a Go function.
#[derive(Debug, Clone, PartialEq, Eq)]
pub struct GoParam {
    pub name: String,
    /// The type as the source spells it.
    pub ty: String,
}

/// A Go function or method.
#[derive(Debug, Clone, PartialEq, Eq)]
pub struct GoFunc {
    pub name: String,
    /// The line of the declaration.
    pub line: u64,
    pub package: String,
    pub is_exported: bool,
    pub is_method: bool,
    /// The receiver's type as the source spells it, for a method.
    pub receiver_type: Option<String>,
    pub params: Vec<GoParam>,
    /// The result type as the source spells it, where there is one.
    pub returns: Option<String>,
}

/// One field of a Go struct.
#[derive(Debug, Clone, PartialEq, Eq)]
pub struct GoField {
    pub ty: String,
    /// The member name under which `encoding/json` reads the field.
    pub json_name: String,
    pub is_exported: bool,
}

/// A named Go type; `fields` is `None` where it is not a struct of plain named fields.
#[derive(Debug, Clone, PartialEq, Eq)]
pub struct GoDataType {
    pub name: String,
    pub fields: Option<Vec<GoField>>,
}

/// The predeclared types that one JSON scalar can fill.
pub open spec fn json_scalar(t: Seq<char>) -> bool {
    ||| t == "bool"@
    ||| t == "string"@
    ||| t == "byte"@
    ||| t == "uint8"@
    ||| json_integer(t)
    ||| t == "float32"@
    ||| t == "float64"@
}

/// The integer types other than a byte.
pub open spec fn json_integer(t: Seq<char>) -> bool {
    ||| t == "int"@
    ||| t == "int8"@
    ||| t == "int16"@
    ||| t == "int32"@
    ||| t == "int64"@
    ||| t == "rune"@
    ||| t == "uint"@
    ||| t == "uint16"@
    ||| t == "uint32"@
    ||| t == "uint64"@
}

fn is_json_integer(t: &[char]) -> (r: bool)
    ensures
        r == json_integer(t@),
{
    reads(t, "int") || reads(t, "int8") || reads(t, "int16") || reads(t, "int32") || reads(t, "int64") || reads(
        t,
        "rune",
    ) || reads(t, "uint") || reads(t, "uint16") || reads(t, "uint32") || reads(t, "uint64")
}

fn is_json_scalar(t: &[char]) -> (r: bool)
    ensures
        r == json_scalar(t@),
{
    reads(t, "bool") || reads(t, "string") || reads(t, "byte") || reads(t, "uint8") || is_json_integer(t) || reads(
        t,
        "float32",
    ) || reads(t, "float64")
}

/// The declarations of `types` that bear the name `t`.
pub open spec fn declarations(types: Seq<GoDataType>, t: Seq<char>) -> Seq<GoDataType> {
    types.filter(|d: GoDataType| d.name@ == t)
}

/// Whether a method of `methods` has `t` or a pointer to it as its receiver.
pub open spec fn has_method(methods: Seq<GoFunc>, t: Seq<char>) -> bool {
    exists|i: int| 0 <= i < methods.len() && #[trigger] method_of(methods[i], t)
}

pub open spec fn method_of(f: GoFunc, t: Seq<char>) -> bool {
    f.is_method && trim_start_char(receiver_text(f), '*') == t
}

/// The receiver's type as the source spells it, empty where there is none.
pub open spec fn receiver_text(f: GoFunc) -> Seq<char> {
    match f.receiver_type {
        Some(r) => r@,
        None => Seq::empty(),
    }
}

/// How many of `types` have a name that is not among `visiting`.
pub open spec fn unvisited(types: Seq<GoDataType>, visiting: Seq<Seq<char>>) -> nat
    decreases types.len(),
{
    if types.len() == 0 {
        0
    } else {
        unvisited(types.drop_last(), visiting) + if visiting.contains(types.last().name@) {
            0nat
        } else {
            1nat
        }
    }
}

proof fn lemma_unvisited_falls(types: Seq<GoDataType>, visiting: Seq<Seq<char>>, t: Seq<char>)
    ensures
        unvisited(types, visiting.push(t)) <= unvisited(types, visiting),
        !visiting.contains(t) && declarations(types, t).len() > 0 ==> unvisited(
            types,
            visiting.push(t),
        ) < unvisited(types, visiting),
    decreases types.len(),
{
    reveal(Seq::filter);
    if types.len() > 0 {
        lemma_unvisited_falls(types.drop_last(), visiting, t);
        let name = types.last().name@;
        assert(visiting.push(t).contains(name) <==> (visiting.contains(name) || name == t)) by {
            if visiting.contains(name) {
                let i = choose|i: int| 0 <= i < visiting.len() && visiting[i] == name;
                assert(visiting.push(t)[i] == name);
            }
            if name == t {
                assert(visiting.push(t)[visiting.len() as int] == name);
            }
        }
    }
}

/// Whether a JSON document can fill a parameter of type `ty`: a scalar, a pointer to,
/// slice of, array of or string map of such a type, or a struct declared exactly once,
/// without methods, all of whose fields are exported and again of such types. A type that
/// contains itself is plain where everything else in it is.
pub open spec fn plain_json(
    ty: Seq<char>,
    types: Seq<GoDataType>,
    methods: Seq<GoFunc>,
    visiting: Seq<Seq<char>>,
) -> bool
    decreases unvisited(types, visiting), ty.len(),
    via plain_json_descends
{
    let t = trim(ty);
    if json_scalar(t) {
        true
    } else if t.len() > 0 && t[0] == '*' {
        plain_json(t.skip(1), types, methods, visiting)
    } else if starts_with(t, "[]"@) {
        plain_json(t.skip(2), types, methods, visiting)
    } else if t.len() > 0 && t[0] == '[' {
        match find_char(t, ']') {
            None => false,
            Some(close) => {
                let size = t.subrange(1, close);
                &&& size.len() > 0
                &&& all_digits(size)
                &&& decimal_value(size) <= 1024
                &&& plain_json(trim(t.skip(close + 1)), types, methods, visiting)
            },
        }
    } else if starts_with(t, "map["@) {
        match find_char(t.skip(4), ']') {
            None => false,
            Some(close) => {
                &&& trim(t.skip(4).take(close)) == "string"@
                &&& plain_json(trim(t.skip(4).skip(close + 1)), types, methods, visiting)
            },
        }
    } else if t.contains('.') || t.contains('[') || t.contains(']') {
        false
    } else if declarations(types, t).len() != 1 {
        false
    } else if visiting.contains(t) {
        true
    } else if has_method(methods, t) {
        false
    } else {
        match declarations(types, t)[0].fields {
            None => false,
            Some(fields) => {
                &&& fields@.len() > 0
                &&& forall|i: int|
                    0 <= i < fields@.len() ==> (#[trigger] fields@[i]).is_exported && plain_json(
                        fields@[i].ty@,
                        types,
                        methods,
                        visiting.push(t),
                    )
            },
        }
    }
}

#[via_fn]
proof fn plain_json_descends(
    ty: Seq<char>,
    types: Seq<GoDataType>,
    methods: Seq<GoFunc>,
    visiting: Seq<Seq<char>>,
) {
    lemma_descends(ty, types, visiting);
}

/// What every step from a type to one it is made of makes smaller.
proof fn lemma_descends(ty: Seq<char>, types: Seq<GoDataType>, visiting: Seq<Seq<char>>)
    ensures
        ({
            let t = trim(ty);
            &&& t.len() <= ty.len()
            &&& starts_with(t, "[]"@) ==> t.len() >= 2
            &&& starts_with(t, "map["@) ==> t.len() >= 4
            &&& find_char(t, ']') matches Some(close) ==> {
                0 <= close < t.len() && trim(t.skip(close + 1)).len() < t.len()
            }
            &&& starts_with(t, "map["@) && find_char(t.skip(4), ']') is Some ==> {
                let close = find_char(t.skip(4), ']')->0;
                0 <= close < t.len() - 4 && trim(t.skip(4).skip(close + 1)).len() < t.len()
            }
            &&& declarations(types, t).len() == 1 && !visiting.contains(t) ==> unvisited(
                types,
                visiting.push(t),
            ) < unvisited(types, visiting)
        }),
{
    let t = trim(ty);
    lemma_trim_len(ty);
    lemma_unvisited_falls(types, visiting, t);
    reveal_strlit("map[");
    reveal_strlit("[]");
    lemma_find_char(t, ']');
    if let Some(close) = find_char(t, ']') {
        lemma_trim_len(t.skip(close + 1));
    }
    lemma_find_char(t.skip(4), ']');
    if let Some(close) = find_char(t.skip(4), ']') {
        lemma_trim_len(t.skip(4).skip(close + 1));
    }
}

/// The index of the only declaration of `types` that bears the name `t`.
fn declared_once(types: &[GoDataType], t: &[char]) -> (r: Option<usize>)
    ensures
        match r {
            Some(i) => i < types@.len() && declarations(types@, t@) == seq![types@[i as int]],
            None => declarations(types@, t@).len() != 1,
        },
{
    let mut found: Option<usize> = None;
    let mut twice = false;
    let mut i: usize = 0;
    proof {
        reveal(Seq::filter);
        assert(types@.take(0) =~= Seq::empty());
    }
    while i < types.len()
        invariant
            i <= types@.len(),
            twice ==> declarations(types@.take(i as int), t@).len() > 1,
            !twice ==> match found {
                Some(k) => k < i && declarations(types@.take(i as int), t@) == seq![
                    types@[k as int],
                ],
                None => declarations(types@.take(i as int), t@).len() == 0,
            },
        decreases types@.len() - i,
    {
        proof {
            reveal(Seq::filter);
            assert(types@.take(i + 1).drop_last() =~= types@.take(i as int));
            assert(types@.take(i + 1).last() == types@[i as int]);
        }
        if reads(t, types[i].name.as_str()) {
            match found {
                Some(_) => {
                    twice = true;
                },
                None => {
                    found = Some(i);
                },
            }
        }
        i = i + 1;
    }
    proof {
        assert(types@.take(i as int) =~= types@);
    }
    if twice {
        None
    } else {
        found
    }
}

/// Whether one of `seen` is the text `t`.
fn seen_before(seen: &Vec<String>, t: &[char]) -> (r: bool)
    ensures
        r == texts(seen@).contains(t@),
{
    let mut i: usize = 0;
    while i < seen.len()
        invariant
            i <= seen@.len(),
            forall|k: int| 0 <= k < i ==> texts(seen@)[k] != t@,
        decreases seen@.len() - i,
    {
        if reads(t, seen[i].as_str()) {
            proof {
                assert(texts(seen@)[i as int] == t@);
            }
            return true;
        }
        i = i + 1;
    }
    false
}

fn bears_method(methods: &[GoFunc], t: &[char]) -> (r: bool)
    ensures
        r == has_method(methods@, t@),
{
    let mut i: usize = 0;
    while i < methods.len()
        invariant
            i <= methods@.len(),
            forall|k: int| 0 <= k < i ==> !#[trigger] method_of(methods@[k], t@),
        decreases methods@.len() - i,
    {
        if methods[i].is_method {
            let receiver: Vec<char> = match &methods[i].receiver_type {
                Some(r) => chars_of(r.as_str()),
                None => Vec::new(),
            };
            let bare = without_leading(receiver.as_slice(), '*');
            if bare.len() == t.len() && stands_at(bare, t, 0) {
                proof {
                    assert(bare@.subrange(0, t@.len() as int) =~= bare@);
                    assert(method_of(methods@[i as int], t@));
                }
                return true;
            }
            proof {
                assert(bare@.len() == t@.len() ==> bare@.subrange(0, t@.len() as int) =~= bare@);
            }
        }
        i = i + 1;
    }
    false
}

/// Whether a JSON document can fill a parameter of type `ty`; `visiting` holds the named
/// types whose fields are being looked at.
pub fn is_plain_json_parameter(
    ty: &str,
    types: &[GoDataType],
    methods: &[GoFunc],
    visiting: &mut Vec<String>,
) -> (r: bool)
    ensures
        r == plain_json(ty@, types@, methods@, texts(old(visiting)@)),
        texts(final(visiting)@) == texts(old(visiting)@),
{
    let chars = chars_of(ty);
    plain_parameter(chars.as_slice(), types, methods, visiting)
}

fn plain_parameter(
    ty: &[char],
    types: &[GoDataType],
    methods: &[GoFunc],
    visiting: &mut Vec<String>,
) -> (r: bool)
    ensures
        r == plain_json(ty@, types@, methods@, texts(old(visiting)@)),
        texts(final(visiting)@) == texts(old(visiting)@),
    decreases unvisited(types@, texts(old(visiting)@)), ty@.len(),
{
    let t = trimmed(ty);
    let ghost seen = texts(visiting@);
    proof {
        lemma_descends(ty@, types@, seen);
        reveal_strlit("map[");
        reveal_strlit("[]");
    }
    if is_json_scalar(t) {
        return true;
    }
    if t.len() > 0 && t[0] == '*' {
        proof {
            assert(t@.subrange(1, t@.len() as int) =~= t@.skip(1));
        }
        return plain_parameter(slice_subrange(t, 1, t.len()), types, methods, visiting);
    }
    if let Some(inner) = after_prefix(t, chars_of("[]").as_slice()) {
        return plain_parameter(inner, types, methods, visiting);
    }
    if t.len() > 0 && t[0] == '[' {
        return match index_of(t, ']') {
            None => false,
            Some(close) => {
                proof {
                    lemma_find_char(t@, ']');
                    assert(t@.subrange(close + 1, t@.len() as int) =~= t@.skip(close + 1));
                }
                let size = slice_subrange(t, 1, close);
                if size.len() == 0 || !digits_only(size) {
                    return false;
                }
                match decimal_of(size, 1024) {
                    None => false,
                    Some(_) => plain_parameter(
                        trimmed(slice_subrange(t, close + 1, t.len())),
                        types,
                        methods,
                        visiting,
                    ),
                }
            },
        };
    }
    if let Some(rest) = after_prefix(t, chars_of("map[").as_slice()) {
        return match index_of(rest, ']') {
            None => false,
            Some(close) => {
                proof {
                    assert(rest@ =~= t@.skip(4));
                    lemma_find_char(rest@, ']');
                    assert(rest@.subrange(close + 1, rest@.len() as int) =~= rest@.skip(close + 1));
                    assert(rest@.subrange(0, close as int) =~= rest@.take(close as int));
                }
                reads(trimmed(slice_subrange(rest, 0, close)), "string") && plain_parameter(
                    trimmed(slice_subrange(rest, close + 1, rest.len())),
                    types,
                    methods,
                    visiting,
                )
            },
        };
    }
    if holds_char(t, '.') || holds_char(t, '[') || holds_char(t, ']') {
        return false;
    }
    let at: usize = match declared_once(types, t) {
        None => {
            return false;
        },
        Some(at) => at,
    };
    if seen_before(visiting, t) {
        return true;
    }
    if bears_method(methods, t) {
        return false;
    }
    let fields = match &types[at].fields {
        None => {
            return false;
        },
        Some(fields) => fields,
    };
    if fields.len() == 0 {
        return false;
    }
    let ghost before = visiting@;
    visiting.push(string_of(t));
    proof {
        assert(texts(visiting@) =~= seen.push(t@));
    }
    let mut safe = true;
    let mut i: usize = 0;
    while i < fields.len() && safe
        invariant
            i <= fields@.len(),
            texts(visiting@) == seen.push(t@),
            unvisited(types@, seen.push(t@)) < unvisited(types@, texts(old(visiting)@)),
            safe == (forall|k: int|
                0 <= k < i ==> (#[trigger] fields@[k]).is_exported && plain_json(
                    fields@[k].ty@,
                    types@,
                    methods@,
                    seen.push(t@),
                )),
        decreases fields@.len() - i,
    {
        let field = chars_of(fields[i].ty.as_str());
        safe = fields[i].is_exported && plain_parameter(field.as_slice(), types, methods, visiting);
        i = i + 1;
    }
    proof {
        assert(texts(visiting@).len() == visiting@.len());
    }
    let _ = visiting.pop();
    proof {
        assert(texts(visiting@) =~= seen.push(t@).drop_last());
        assert(seen.push(t@).drop_last() =~= seen);
    }
    safe
}

/// Whether `c` occurs in `s`.
pub(crate) fn holds_char(s: &[char], c: char) -> (r: bool)
    ensures
        r == s@.contains(c),
{
    proof {
        lemma_find_char(s@, c);
    }
    match index_of(s, c) {
        Some(_) => true,
        None => false,
    }
}

/// The JSON text of an example value for the type `ty`, where one can be made: a named
/// type that is not declared exactly once, or that is being looked at, is `null`.
pub open spec fn json_example(
    ty: Seq<char>,
    types: Seq<GoDataType>,
    visiting: Seq<Seq<char>>,
) -> Option<Seq<char>>
    decreases 2 * unvisited(types, visiting), ty.len(),
    via json_example_descends
{
    let t = trim(ty);
    if t == "bool"@ {
        Some("true"@)
    } else if t == "string"@ {
        Some(json_string("A"@))
    } else if t == "byte"@ || t == "uint8"@ {
        Some("65"@)
    } else if json_integer(t) {
        Some("1"@)
    } else if t == "float32"@ || t == "float64"@ {
        Some("1.0"@)
    } else if t.len() > 0 && t[0] == '*' {
        json_example(t.skip(1), types, visiting)
    } else if starts_with(t, "[]"@) {
        if t.skip(2) == "byte"@ || t.skip(2) == "uint8"@ {
            Some(json_string("QQ=="@))
        } else {
            bracketed("["@, json_example(t.skip(2), types, visiting), "]"@)
        }
    } else if t.len() > 0 && t[0] == '[' {
        match find_char(t, ']') {
            None => None,
            Some(close) => bracketed(
                "["@,
                json_example(trim(t.skip(close + 1)), types, visiting),
                "]"@,
            ),
        }
    } else if starts_with(t, "map["@) {
        match find_char(t, ']') {
            None => None,
            Some(close) => bracketed(
                "{\"k\":"@,
                json_example(trim(t.skip(close + 1)), types, visiting),
                "}"@,
            ),
        }
    } else if declarations(types, t).len() != 1 || visiting.contains(t) {
        Some("null"@)
    } else {
        match declarations(types, t)[0].fields {
            None => None,
            Some(fields) => match example_members(fields@, types, visiting.push(t)) {
                None => None,
                Some(members) => Some(json_object(members)),
            },
        }
    }
}

/// The text between `open` and `close`, where there is one.
pub open spec fn bracketed(
    open: Seq<char>,
    inner: Option<Seq<char>>,
    close: Seq<char>,
) -> Option<Seq<char>> {
    match inner {
        None => None,
        Some(text) => Some(open + text + close),
    }
}

/// The members that the examples of `fields` make, where every field has one.
pub open spec fn example_members(
    fields: Seq<GoField>,
    types: Seq<GoDataType>,
    visiting: Seq<Seq<char>>,
) -> Option<Seq<(Seq<char>, Seq<char>)>>
    decreases 2 * unvisited(types, visiting) + 1, fields.len(),
{
    if fields.len() == 0 {
        Some(Seq::empty())
    } else {
        match example_members(fields.drop_last(), types, visiting) {
            None => None,
            Some(members) => match json_example(fields.last().ty@, types, visiting) {
                None => None,
                Some(value) => Some(set_member(members, fields.last().json_name@, value)),
            },
        }
    }
}

#[via_fn]
proof fn json_example_descends(
    ty: Seq<char>,
    types: Seq<GoDataType>,
    visiting: Seq<Seq<char>>,
) {
    lemma_descends(ty, types, visiting);
}

/// What is being visited when the example for `ty` is looked for and there is none: the
/// types on the way to the one without an example, behind `visiting`. Where there is an
/// example it is `visiting` itself.
pub open spec fn stuck_at(
    ty: Seq<char>,
    types: Seq<GoDataType>,
    visiting: Seq<Seq<char>>,
) -> Seq<Seq<char>>
    decreases 2 * unvisited(types, visiting), ty.len(),
    via stuck_at_descends
{
    let t = trim(ty);
    if json_example(ty, types, visiting) is Some {
        visiting
    } else if t.len() > 0 && t[0] == '*' {
        stuck_at(t.skip(1), types, visiting)
    } else if starts_with(t, "[]"@) {
        stuck_at(t.skip(2), types, visiting)
    } else if t.len() > 0 && t[0] == '[' || starts_with(t, "map["@) {
        match find_char(t, ']') {
            None => visiting,
            Some(close) => stuck_at(trim(t.skip(close + 1)), types, visiting),
        }
    } else if declarations(types, t).len() != 1 || visiting.contains(t) {
        visiting
    } else {
        match declarations(types, t)[0].fields {
            None => visiting,
            Some(fields) => stuck_among(fields@, types, visiting.push(t)),
        }
    }
}

/// What is being visited at the first of `fields` that has no example.
pub open spec fn stuck_among(
    fields: Seq<GoField>,
    types: Seq<GoDataType>,
    visiting: Seq<Seq<char>>,
) -> Seq<Seq<char>>
    decreases 2 * unvisited(types, visiting) + 1, fields.len(),
{
    if fields.len() == 0 {
        visiting
    } else if example_members(fields.drop_last(), types, visiting) is None {
        stuck_among(fields.drop_last(), types, visiting)
    } else {
        stuck_at(fields.last().ty@, types, visiting)
    }
}

#[via_fn]
proof fn stuck_at_descends(
    ty: Seq<char>,
    types: Seq<GoDataType>,
    visiting: Seq<Seq<char>>,
) {
    lemma_descends(ty, types, visiting);
}

/// The JSON text of an example value for the type `ty`. Where there is none, the types on
/// the way to the one without an example stay in `visiting`, behind what was there.
pub fn go_json_example(ty: &str, types: &[GoDataType], visiting: &mut Vec<String>) -> (r: Option<
    String,
>)
    ensures
        match r {
            Some(text) => json_example(ty@, types@, texts(old(visiting)@)) == Some(text@),
            None => json_example(ty@, types@, texts(old(visiting)@)) is None,
        },
        texts(final(visiting)@) == stuck_at(ty@, types@, texts(old(visiting)@)),
{
    let chars = chars_of(ty);
    example_of(chars.as_slice(), types, visiting)
}

/// The text of `inner` between `open` and `close`, where there is one.
fn between(open: &str, inner: Option<String>, close: &str) -> (r: Option<String>)
    ensures
        match (r, inner) {
            (Some(text), Some(inner)) => text@ == open@ + inner@ + close@,
            (None, None) => true,
            _ => false,
        },
{
    match inner {
        None => None,
        Some(inner) => {
            let mut out = open.to_owned();
            out.append(inner.as_str());
            out.append(close);
            Some(out)
        },
    }
}

fn example_of(ty: &[char], types: &[GoDataType], visiting: &mut Vec<String>) -> (r: Option<String>)
    ensures
        match r {
            Some(text) => json_example(ty@, types@, texts(old(visiting)@)) == Some(text@),
            None => json_example(ty@, types@, texts(old(visiting)@)) is None,
        },
        texts(final(visiting)@) == stuck_at(ty@, types@, texts(old(visiting)@)),
    decreases unvisited(types@, texts(old(visiting)@)), ty@.len(),
{
    let t = trimmed(ty);
    let ghost seen = texts(visiting@);
    proof {
        lemma_descends(ty@, types@, seen);
        reveal_strlit("map[");
        reveal_strlit("[]");
    }
    if reads(t, "bool") {
        return Some("true".to_owned());
    }
    if reads(t, "string") {
        return Some(quoted("A"));
    }
    if reads(t, "byte") || reads(t, "uint8") {
        return Some("65".to_owned());
    }
    if is_json_integer(t) {
        return Some("1".to_owned());
    }
    if reads(t, "float32") || reads(t, "float64") {
        return Some("1.0".to_owned());
    }
    if t.len() > 0 && t[0] == '*' {
        proof {
            assert(t@.subrange(1, t@.len() as int) =~= t@.skip(1));
        }
        return example_of(slice_subrange(t, 1, t.len()), types, visiting);
    }
    if let Some(inner) = after_prefix(t, chars_of("[]").as_slice()) {
        if reads(inner, "byte") || reads(inner, "uint8") {
            return Some(quoted("QQ=="));
        }
        let text = example_of(inner, types, visiting);
        return between("[", text, "]");
    }
    if t.len() > 0 && t[0] == '[' {
        return match index_of(t, ']') {
            None => None,
            Some(close) => {
                proof {
                    lemma_find_char(t@, ']');
                    assert(t@.subrange(close + 1, t@.len() as int) =~= t@.skip(close + 1));
                }
                let text = example_of(
                    trimmed(slice_subrange(t, close + 1, t.len())),
                    types,
                    visiting,
                );
                between("[", text, "]")
            },
        };
    }
    if begins(t, chars_of("map[").as_slice()) {
        return match index_of(t, ']') {
            None => None,
            Some(close) => {
                proof {
                    lemma_find_char(t@, ']');
                    assert(t@.subrange(close + 1, t@.len() as int) =~= t@.skip(close + 1));
                }
                let text = example_of(
                    trimmed(slice_subrange(t, close + 1, t.len())),
                    types,
                    visiting,
                );
                between("{\"k\":", text, "}")
            },
        };
    }
    let at: usize = match declared_once(types, t) {
        None => {
            return Some("null".to_owned());
        },
        Some(at) => at,
    };
    if seen_before(visiting, t) {
        return Some("null".to_owned());
    }
    let fields = match &types[at].fields {
        None => {
            return None;
        },
        Some(fields) => fields,
    };
    visiting.push(string_of(t));
    proof {
        assert(texts(visiting@) =~= seen.push(t@));
    }
    let mut members: Vec<(String, String)> = Vec::new();
    let mut i: usize = 0;
    proof {
        assert(fields@.take(0) =~= Seq::empty());
        assert(member_texts(members@) =~= Seq::empty());
    }
    while i < fields.len()
        invariant
            i <= fields@.len(),
            texts(visiting@) == seen.push(t@),
            seen == texts(old(visiting)@),
            t@ == trim(ty@),
            unvisited(types@, seen.push(t@)) < unvisited(types@, texts(old(visiting)@)),
            example_members(fields@.take(i as int), types@, seen.push(t@)) == Some(
                member_texts(members@),
            ),
            json_example(ty@, types@, seen) is None ==> stuck_at(ty@, types@, seen) == stuck_among(
                fields@,
                types@,
                seen.push(t@),
            ),
            json_example(ty@, types@, seen) == match example_members(
                fields@,
                types@,
                seen.push(t@),
            ) {
                None => None::<Seq<char>>,
                Some(members) => Some(json_object(members)),
            },
        decreases fields@.len() - i,
    {
        proof {
            assert(fields@.take(i + 1).drop_last() =~= fields@.take(i as int));
            assert(fields@.take(i + 1).last() == fields@[i as int]);
        }
        let field = chars_of(fields[i].ty.as_str());
        match example_of(field.as_slice(), types, visiting) {
            None => {
                proof {
                    assert(example_members(fields@.take(i + 1), types@, seen.push(t@)) is None);
                    lemma_members_stay_missing(fields@, i + 1, types@, seen.push(t@));
                }
                return None;
            },
            Some(value) => {
                put_member(&mut members, fields[i].json_name.as_str(), value);
            },
        }
        i = i + 1;
    }
    proof {
        assert(fields@.take(i as int) =~= fields@);
        assert(texts(visiting@).len() == visiting@.len());
    }
    let _ = visiting.pop();
    proof {
        assert(texts(visiting@) =~= seen.push(t@).drop_last());
        assert(seen.push(t@).drop_last() =~= seen);
    }
    Some(object_text(members.as_slice()))
}

proof fn lemma_members_stay_missing(
    fields: Seq<GoField>,
    n: int,
    types: Seq<GoDataType>,
    visiting: Seq<Seq<char>>,
)
    requires
        0 <= n <= fields.len(),
        example_members(fields.take(n), types, visiting) is None,
    ensures
        example_members(fields, types, visiting) is None,
        stuck_among(fields, types, visiting) == stuck_among(fields.take(n), types, visiting),
    decreases fields.len(),
{
    if n < fields.len() {
        assert(fields.drop_last().take(n) =~= fields.take(n));
        lemma_members_stay_missing(fields.drop_last(), n, types, visiting);
    } else {
        assert(fields.take(n) =~= fields);
    }
}

/// Every type that a JSON document can fill has an example.
pub proof fn plain_types_have_examples(
    ty: Seq<char>,
    types: Seq<GoDataType>,
    methods: Seq<GoFunc>,
    visiting: Seq<Seq<char>>,
)
    requires
        plain_json(ty, types, methods, visiting),
    ensures
        json_example(ty, types, visiting) is Some,
    decreases 2 * unvisited(types, visiting), ty.len(),
{
    let t = trim(ty);
    lemma_descends(ty, types, visiting);
    if json_scalar(t) {
    } else if t.len() > 0 && t[0] == '*' {
        plain_types_have_examples(t.skip(1), types, methods, visiting);
    } else if starts_with(t, "[]"@) {
        plain_types_have_examples(t.skip(2), types, methods, visiting);
    } else if t.len() > 0 && t[0] == '[' {
        let close = find_char(t, ']')->0;
        plain_types_have_examples(trim(t.skip(close + 1)), types, methods, visiting);
    } else if starts_with(t, "map["@) {
        reveal_strlit("map[");
        let close = find_char(t.skip(4), ']')->0;
        lemma_find_char(t.skip(4), ']');
        assert forall|j: int| 0 <= j < close + 4 implies t[j] != ']' by {
            if j < 4 {
                assert(t[j] == t.subrange(0, 4)[j]);
            } else {
                assert(t[j] == t.skip(4)[j - 4]);
            }
        }
        assert(t[close + 4] == t.skip(4)[close]);
        lemma_find_char_is(t, ']', close + 4);
        assert(t.skip(4).skip(close + 1) =~= t.skip(close + 5));
        plain_types_have_examples(trim(t.skip(close + 5)), types, methods, visiting);
    } else if !visiting.contains(t) {
        let fields = declarations(types, t)[0].fields->0@;
        plain_fields_have_examples(fields, types, methods, visiting.push(t));
    }
}

proof fn plain_fields_have_examples(
    fields: Seq<GoField>,
    types: Seq<GoDataType>,
    methods: Seq<GoFunc>,
    visiting: Seq<Seq<char>>,
)
    requires
        forall|i: int|
            0 <= i < fields.len() ==> plain_json(
                (#[trigger] fields[i]).ty@,
                types,
                methods,
                visiting,
            ),
    ensures
        example_members(fields, types, visiting) is Some,
    decreases 2 * unvisited(types, visiting) + 1, fields.len(),
{
    if fields.len() > 0 {
        assert forall|i: int| 0 <= i < fields.drop_last().len() implies plain_json(
            (#[trigger] fields.drop_last()[i]).ty@,
            types,
            methods,
            visiting,
        ) by {
            assert(fields.drop_last()[i] == fields[i]);
        }
        plain_fields_have_examples(fields.drop_last(), types, methods, visiting);
        assert(fields.last() == fields[fields.len() - 1]);
        plain_types_have_examples(fields.last().ty@, types, methods, visiting);
    }
}

/// Go's predeclared type names, usable in the harness package unqualified.
pub open spec fn predeclared(w: Seq<char>) -> bool {
    ||| w == "any"@
    ||| w == "bool"@
    ||| w == "byte"@
    ||| w == "complex64"@
    ||| w == "complex128"@
    ||| w == "error"@
    ||| w == "float32"@
    ||| w == "float64"@
    ||| w == "int"@
    ||| w == "int8"@
    ||| w == "int16"@
    ||| w == "int32"@
    ||| w == "int64"@
    ||| w == "rune"@
    ||| w == "string"@
    ||| w == "uint"@
    ||| w == "uint8"@
    ||| w == "uint16"@
    ||| w == "uint32"@
    ||| w == "uint64"@
    ||| w == "uintptr"@
}

fn is_predeclared(w: &[char]) -> (r: bool)
    ensures
        r == predeclared(w@),
{
    reads(w, "any") || reads(w, "bool") || reads(w, "byte") || reads(w, "complex64") || reads(w, "complex128")
        || reads(w, "error") || reads(w, "float32") || reads(w, "float64") || reads(w, "int") || reads(w, "int8")
        || reads(w, "int16") || reads(w, "int32") || reads(w, "int64") || reads(w, "rune") || reads(w, "string")
        || reads(w, "uint") || reads(w, "uint8") || reads(w, "uint16") || reads(w, "uint32") || reads(w, "uint64")
        || reads(w, "uintptr")
}

/// The words of Go's type syntax that name no type.
pub open spec fn type_keyword(w: Seq<char>) -> bool {
    w == "chan"@ || w == "map"@ || w == "struct"@ || w == "interface"@ || w == "func"@
}

fn is_type_keyword(w: &[char]) -> (r: bool)
    ensures
        r == type_keyword(w@),
{
    reads(w, "chan") || reads(w, "map") || reads(w, "struct") || reads(w, "interface") || reads(w, "func")
}

/// The imported packages by which the harness can qualify a type.
pub open spec fn harness_import(w: Seq<char>) -> bool {
    w == "bytes"@ || w == "fmt"@ || w == "io"@ || w == "math"@ || w == "os"@ || w == "syscall"@
}

fn is_harness_import(w: &[char]) -> (r: bool)
    ensures
        r == harness_import(w@),
{
    reads(w, "bytes") || reads(w, "fmt") || reads(w, "io") || reads(w, "math") || reads(w, "os") || reads(
        w,
        "syscall",
    )
}

/// A character outside ASCII that is no white space: in a type it stands in a name.
pub open spec fn wide(c: char) -> bool {
    c > '\u{7f}' && !white_space(c)
}

/// A character with which a word of a type begins.
pub open spec fn word_start(c: char) -> bool {
    letter(c) || c == '_' || wide(c)
}

/// A character that stands inside a word of a type; a qualified name is one word.
pub open spec fn word_char(c: char) -> bool {
    letter(c) || digit(c) || c == '_' || c == '.' || wide(c)
}

/// The length of the word that `s` begins with.
pub open spec fn word_len(s: Seq<char>) -> nat
    decreases s.len(),
{
    if s.len() > 0 && word_char(s[0]) {
        1 + word_len(s.skip(1))
    } else {
        0
    }
}

/// Whether `s` begins with an ASCII capital.
pub open spec fn capitalised(s: Seq<char>) -> bool {
    s.len() > 0 && upper(s[0])
}

/// A word of the target package's type as the harness package writes it: predeclared
/// names and keywords stay, a name qualified by an imported package stays where it is
/// exported, an exported bare name belongs to the target, and nothing else can be named.
pub open spec fn visible_word(word: Seq<char>, instantiated: bool) -> Option<Seq<char>> {
    if predeclared(word) || type_keyword(word) {
        Some(word)
    } else if instantiated {
        None
    } else {
        match find_char(word, '.') {
            Some(dot) => if harness_import(word.take(dot)) && capitalised(word.skip(dot + 1)) {
                Some(word)
            } else {
                None
            },
            None => if capitalised(word) {
                Some("tgt."@ + word)
            } else {
                None
            },
        }
    }
}

/// The text `s` of a type with each of its words made visible.
pub open spec fn visible_words(s: Seq<char>) -> Option<Seq<char>>
    decreases s.len(),
    via visible_words_descends
{
    if s.len() == 0 {
        Some(Seq::empty())
    } else if !word_start(s[0]) {
        bracketed(seq![s[0]], visible_words(s.skip(1)), Seq::empty())
    } else {
        let n = word_len(s) as int;
        let rest = s.skip(n);
        match visible_word(s.take(n), rest.len() > 0 && rest[0] == '[') {
            None => None,
            Some(word) => bracketed(word, visible_words(rest), Seq::empty()),
        }
    }
}

#[via_fn]
proof fn visible_words_descends(s: Seq<char>) {
    if s.len() > 0 {
        lemma_word_len(s.skip(1));
        lemma_word_len(s);
    }
}

proof fn lemma_word_len(s: Seq<char>)
    ensures
        word_len(s) <= s.len(),
    decreases s.len(),
{
    if s.len() > 0 && word_char(s[0]) {
        lemma_word_len(s.skip(1));
    }
}

/// Whether a literal of the kind that `keyword` begins is opened in `s`: the keyword stands
/// there, and `bracket` follows it, with or without white space between them.
pub open spec fn opens_literal(s: Seq<char>, keyword: Seq<char>, bracket: char) -> bool {
    exists|i: int| #[trigger] occurs_at(s, keyword, i) && opened_by(s, i + keyword.len(), bracket)
}

/// Whether `bracket` is what stands at `from` or behind the white space there.
pub open spec fn opened_by(s: Seq<char>, from: int, bracket: char) -> bool {
    let rest = trim_start(s.skip(from));
    rest.len() > 0 && rest[0] == bracket
}

/// Whether the literal that opens at `from` or behind the white space there holds anything
/// before its closing brace.
pub open spec fn opens_filled(s: Seq<char>, from: int) -> bool {
    let rest = trim_start(s.skip(from));
    rest.len() > 0 && rest[0] == '{' && !opened_by(rest, 1, '}')
}

/// Whether an interface with method names of its own is written out in `s`.
pub open spec fn opens_interface(s: Seq<char>) -> bool {
    exists|i: int|
        #[trigger] occurs_at(s, "interface"@, i) && opens_filled(s, i + "interface"@.len())
}

/// A type with its empty interfaces written `any`.
pub open spec fn with_any(t: Seq<char>) -> Seq<char> {
    replace(t, "interface{}"@, "any"@)
}

/// The type `ty` of the target package as the harness package writes it, `None` where
/// the harness cannot name it: variadic, an inline struct, function or interface with
/// names of its own in it, a generic instantiation, or a name out of reach. A name that
/// begins with a letter outside ASCII is out of reach: which of those are capitals is not
/// decided here.
pub open spec fn visible_type(ty: Seq<char>) -> Option<Seq<char>> {
    let t = trim(ty);
    if t.len() == 0 || starts_with(t, "..."@) || opens_literal(t, "struct"@, '{') || opens_literal(
        t,
        "func"@,
        '(',
    ) || opens_interface(t) || contains(with_any(t), "interface{"@) {
        None
    } else {
        visible_words(with_any(t))
    }
}

/// A type made of another one by what stands before it, such as `*` or `[]`, can be named
/// if and only if that one can, and is then written with the same before it.
pub proof fn derived_types_are_visible_alike(before: Seq<char>, t: Seq<char>)
    requires
        before.len() > 0,
        before[0] != '.',
        !white_space(before[0]),
        forall|i: int| 0 <= i < before.len() ==> !word_start(#[trigger] before[i]),
        t.len() > 0,
        !white_space(t[0]),
        !white_space(t.last()),
        !starts_with(t, "..."@),
    ensures
        visible_type(before + t) == bracketed(before, visible_type(t), Seq::empty()),
{
    reveal_strlit("...");
    reveal_strlit("struct");
    reveal_strlit("func");
    reveal_strlit("interface");
    reveal_strlit("interface{");
    reveal_strlit("interface{}");
    let s = before + t;
    assert(s[0] == before[0] && s.last() == t.last());
    assert(trim(s) == s);
    assert(trim(t) == t);
    assert(!starts_with(s, "..."@)) by {
        if starts_with(s, "..."@) {
            assert(s.subrange(0, 3)[0] == s[0]);
        }
    }
    lemma_literal_behind(before, t, "struct"@, '{');
    lemma_literal_behind(before, t, "func"@, '(');
    lemma_interface_behind(before, t);
    lemma_any_behind(before, t);
    lemma_contained_behind(before, with_any(t), "interface{"@);
    lemma_words_behind(before, with_any(t));
}

proof fn lemma_occurs_behind(before: Seq<char>, t: Seq<char>, p: Seq<char>, i: int)
    requires
        p.len() > 0,
        word_start(p[0]),
        forall|k: int| 0 <= k < before.len() ==> !word_start(#[trigger] before[k]),
    ensures
        occurs_at(before + t, p, i) <==> occurs_at(t, p, i - before.len()),
{
    let s = before + t;
    if occurs_at(s, p, i) {
        assert(s.subrange(i, i + p.len())[0] == s[i]);
        if i < before.len() {
            assert(s[i] == before[i]);
        }
        assert(t.subrange(i - before.len(), i - before.len() + p.len()) =~= s.subrange(
            i,
            i + p.len(),
        ));
    }
    if occurs_at(t, p, i - before.len()) {
        assert(t.subrange(i - before.len(), i - before.len() + p.len()) =~= s.subrange(
            i,
            i + p.len(),
        ));
    }
}

proof fn lemma_literal_behind(before: Seq<char>, t: Seq<char>, keyword: Seq<char>, bracket: char)
    requires
        keyword.len() > 0,
        word_start(keyword[0]),
        forall|k: int| 0 <= k < before.len() ==> !word_start(#[trigger] before[k]),
    ensures
        opens_literal(before + t, keyword, bracket) == opens_literal(t, keyword, bracket),
{
    let s = before + t;
    if opens_literal(s, keyword, bracket) {
        let i = choose|i: int| #[trigger]
            occurs_at(s, keyword, i) && opened_by(s, i + keyword.len(), bracket);
        lemma_occurs_behind(before, t, keyword, i);
        assert(occurs_at(t, keyword, i - before.len()));
        assert(s.skip(i + keyword.len()) =~= t.skip(i - before.len() + keyword.len()));
    }
    if opens_literal(t, keyword, bracket) {
        let i = choose|i: int| #[trigger]
            occurs_at(t, keyword, i) && opened_by(t, i + keyword.len(), bracket);
        lemma_occurs_behind(before, t, keyword, i + before.len());
        assert(occurs_at(s, keyword, i + before.len()));
        assert(s.skip(i + before.len() + keyword.len()) =~= t.skip(i + keyword.len()));
    }
}

proof fn lemma_interface_behind(before: Seq<char>, t: Seq<char>)
    requires
        forall|k: int| 0 <= k < before.len() ==> !word_start(#[trigger] before[k]),
    ensures
        opens_interface(before + t) == opens_interface(t),
{
    reveal_strlit("interface");
    let s = before + t;
    let word = "interface"@;
    if opens_interface(s) {
        let i = choose|i: int| #[trigger] occurs_at(s, word, i) && opens_filled(s, i + word.len());
        lemma_occurs_behind(before, t, word, i);
        assert(occurs_at(t, word, i - before.len()));
        assert(s.skip(i + word.len()) =~= t.skip(i - before.len() + word.len()));
    }
    if opens_interface(t) {
        let i = choose|i: int| #[trigger] occurs_at(t, word, i) && opens_filled(t, i + word.len());
        lemma_occurs_behind(before, t, word, i + before.len());
        assert(occurs_at(s, word, i + before.len()));
        assert(s.skip(i + before.len() + word.len()) =~= t.skip(i + word.len()));
    }
}

proof fn lemma_contained_behind(before: Seq<char>, t: Seq<char>, p: Seq<char>)
    requires
        p.len() > 0,
        word_start(p[0]),
        forall|k: int| 0 <= k < before.len() ==> !word_start(#[trigger] before[k]),
    ensures
        contains(before + t, p) == contains(t, p),
{
    if contains(before + t, p) {
        let i = choose|i: int| occurs_at(before + t, p, i);
        lemma_occurs_behind(before, t, p, i);
    }
    if contains(t, p) {
        let i = choose|i: int| occurs_at(t, p, i);
        lemma_occurs_behind(before, t, p, i + before.len());
        assert(occurs_at(before + t, p, i + before.len()));
    }
}

proof fn lemma_any_behind(before: Seq<char>, t: Seq<char>)
    requires
        forall|k: int| 0 <= k < before.len() ==> !word_start(#[trigger] before[k]),
    ensures
        with_any(before + t) == before + with_any(t),
    decreases before.len(),
{
    reveal_strlit("interface{}");
    let s = before + t;
    let from = "interface{}"@;
    if before.len() == 0 {
        assert(s =~= t);
        assert(before + with_any(t) =~= with_any(t));
    } else {
        let rest = before.skip(1);
        assert forall|k: int| 0 <= k < rest.len() implies !word_start(#[trigger] rest[k]) by {
            assert(rest[k] == before[k + 1]);
        }
        lemma_any_behind(rest, t);
        lemma_occurs_behind(before, t, from, 0);
        assert(s.skip(1) =~= rest + t);
        assert(s[0] == before[0]);
        if s.len() >= from.len() {
            assert(seq![s[0]] + (rest + with_any(t)) =~= before + with_any(t));
        }
    }
}

proof fn lemma_words_behind(before: Seq<char>, t: Seq<char>)
    requires
        forall|k: int| 0 <= k < before.len() ==> !word_start(#[trigger] before[k]),
    ensures
        visible_words(before + t) == bracketed(before, visible_words(t), Seq::empty()),
    decreases before.len(),
{
    let s = before + t;
    if before.len() == 0 {
        assert(s =~= t);
        if let Some(all) = visible_words(t) {
            assert(before + all + Seq::<char>::empty() =~= all);
        }
    } else {
        let rest = before.skip(1);
        assert forall|k: int| 0 <= k < rest.len() implies !word_start(#[trigger] rest[k]) by {
            assert(rest[k] == before[k + 1]);
        }
        lemma_words_behind(rest, t);
        assert(s.skip(1) =~= rest + t);
        assert(s[0] == before[0]);
        if let Some(all) = visible_words(t) {
            let none = Seq::<char>::empty();
            assert(seq![s[0]] + (rest + all + none) + none =~= before + all + none);
        }
    }
}

fn has_literal(s: &[char], keyword: &str, bracket: char) -> (r: bool)
    ensures
        r == opens_literal(s@, keyword@, bracket),
{
    let word = chars_of(keyword);
    let mut i: usize = 0;
    while i < s.len()
        invariant
            i <= s@.len(),
            word@ == keyword@,
            forall|k: int|
                0 <= k < i && #[trigger] occurs_at(s@, keyword@, k) ==> !opened_by(
                    s@,
                    k + keyword@.len(),
                    bracket,
                ),
        decreases s@.len() - i,
    {
        if stands_at(s, word.as_slice(), i) {
            let from: usize = i + word.len();
            let rest = trimmed_start(slice_subrange(s, from, s.len()));
            proof {
                assert(s@.subrange(from as int, s@.len() as int) =~= s@.skip(from as int));
            }
            if rest.len() > 0 && rest[0] == bracket {
                proof {
                    assert(occurs_at(s@, keyword@, i as int));
                }
                return true;
            }
        }
        i = i + 1;
    }
    proof {
        assert(s@.skip(i as int) =~= Seq::empty());
    }
    false
}

fn has_interface(s: &[char]) -> (r: bool)
    ensures
        r == opens_interface(s@),
{
    let word = chars_of("interface");
    let mut i: usize = 0;
    while i < s.len()
        invariant
            i <= s@.len(),
            word@ == "interface"@,
            forall|k: int|
                0 <= k < i && #[trigger] occurs_at(s@, "interface"@, k) ==> !opens_filled(
                    s@,
                    k + "interface"@.len(),
                ),
        decreases s@.len() - i,
    {
        if stands_at(s, word.as_slice(), i) {
            let from: usize = i + word.len();
            let rest = trimmed_start(slice_subrange(s, from, s.len()));
            proof {
                assert(s@.subrange(from as int, s@.len() as int) =~= s@.skip(from as int));
            }
            if rest.len() > 0 && rest[0] == '{' {
                let inside = trimmed_start(slice_subrange(rest, 1, rest.len()));
                proof {
                    assert(rest@.subrange(1, rest@.len() as int) =~= rest@.skip(1));
                }
                if inside.len() == 0 || inside[0] != '}' {
                    proof {
                        assert(occurs_at(s@, "interface"@, i as int));
                    }
                    return true;
                }
            }
        }
        i = i + 1;
    }
    proof {
        assert(s@.skip(i as int) =~= Seq::empty());
    }
    false
}

fn is_wide(c: char) -> (r: bool)
    ensures
        r == wide(c),
{
    c > '\u{7f}' && !is_white_space(c)
}

fn word_end(s: &[char], from: usize) -> (r: usize)
    requires
        from <= s@.len(),
    ensures
        r == from + word_len(s@.skip(from as int)),
        r <= s@.len(),
{
    let mut i: usize = from;
    while i < s.len() && (is_letter(s[i]) || is_digit(s[i]) || s[i] == '_' || s[i] == '.' || is_wide(
        s[i],
    ))
        invariant
            from <= i <= s@.len(),
            from + word_len(s@.skip(from as int)) == i + word_len(s@.skip(i as int)),
        decreases s@.len() - i,
    {
        proof {
            assert(s@.skip(i as int).skip(1) =~= s@.skip(i + 1));
        }
        i = i + 1;
    }
    i
}

fn is_capitalised(s: &[char]) -> (r: bool)
    ensures
        r == capitalised(s@),
{
    s.len() > 0 && 'A' <= s[0] && s[0] <= 'Z'
}

fn word_as_visible(word: &[char], instantiated: bool) -> (r: Option<Vec<char>>)
    ensures
        match r {
            Some(text) => visible_word(word@, instantiated) == Some(text@),
            None => visible_word(word@, instantiated) is None,
        },
{
    let mut out: Vec<char> = Vec::new();
    if is_predeclared(word) || is_type_keyword(word) {
        out.extend_from_slice(word);
        proof {
            assert(out@ =~= word@);
        }
        return Some(out);
    }
    if instantiated {
        return None;
    }
    let n: usize = word.len();
    match index_of(word, '.') {
        Some(dot) => {
            proof {
                assert(word@.subrange(0, dot as int) =~= word@.take(dot as int));
                assert(word@.subrange(dot + 1, word@.len() as int) =~= word@.skip(dot + 1));
            }
            if is_harness_import(slice_subrange(word, 0, dot)) && is_capitalised(
                slice_subrange(word, dot + 1, n),
            ) {
                out.extend_from_slice(word);
                proof {
                    assert(out@ =~= word@);
                }
                Some(out)
            } else {
                None
            }
        },
        None => {
            if is_capitalised(word) {
                let mut out = chars_of("tgt.");
                out.extend_from_slice(word);
                proof {
                    assert(out@ =~= "tgt."@ + word@);
                }
                Some(out)
            } else {
                None
            }
        },
    }
}

/// The type `ty` of the target package as the harness package writes it.
pub fn harness_visible_go_type(ty: &str) -> (r: Option<String>)
    ensures
        match r {
            Some(text) => visible_type(ty@) == Some(text@),
            None => visible_type(ty@) is None,
        },
{
    let chars = chars_of(ty);
    let t = trimmed(chars.as_slice());
    if t.len() == 0 || begins(t, chars_of("...").as_slice()) || has_literal(t, "struct", '{')
        || has_literal(t, "func", '(') || has_interface(t) {
        return None;
    }
    proof {
        reveal_strlit("interface{}");
    }
    let scan = replaced(t, chars_of("interface{}").as_slice(), chars_of("any").as_slice());
    if holds(scan.as_slice(), chars_of("interface{").as_slice()) {
        return None;
    }
    let s: &[char] = scan.as_slice();
    let mut out: Vec<char> = Vec::new();
    let mut i: usize = 0;
    proof {
        assert(s@.skip(0) =~= s@);
        if let Some(all) = visible_words(s@) {
            assert(out@ + all =~= all);
        }
    }
    while i < s.len()
        invariant
            i <= s@.len(),
            visible_type(ty@) == visible_words(s@),
            match visible_words(s@.skip(i as int)) {
                Some(rest) => visible_words(s@) == Some(out@ + rest),
                None => visible_words(s@) is None,
            },
        decreases s@.len() - i,
    {
        let ghost before = out@;
        let ghost rest = s@.skip(i as int);
        proof {
            assert(rest[0] == s@[i as int]);
        }
        if !(is_letter(s[i]) || s[i] == '_' || is_wide(s[i])) {
            out.push(s[i]);
            i = i + 1;
            proof {
                assert(rest.skip(1) =~= s@.skip(i as int));
                if let Some(tail) = visible_words(s@.skip(i as int)) {
                    assert(before + (seq![rest[0]] + tail + Seq::empty()) =~= out@ + tail);
                }
            }
        } else {
            let end: usize = word_end(s, i);
            proof {
                assert(word_len(rest) >= 1);
                assert(s@.subrange(i as int, end as int) =~= rest.take(word_len(rest) as int));
                assert(rest.skip(word_len(rest) as int) =~= s@.skip(end as int));
            }
            let instantiated = end < s.len() && s[end] == '[';
            match word_as_visible(slice_subrange(s, i, end), instantiated) {
                None => {
                    return None;
                },
                Some(word) => {
                    out.extend_from_slice(word.as_slice());
                    i = end;
                    proof {
                        assert(out@ =~= before + word@);
                        if let Some(tail) = visible_words(s@.skip(i as int)) {
                            assert(before + (word@ + tail + Seq::empty()) =~= out@ + tail);
                        }
                    }
                },
            }
        }
    }
    proof {
        assert(s@.skip(i as int) =~= Seq::empty());
        assert(out@ + Seq::<char>::empty() =~= out@);
    }
    Some(string_of(out.as_slice()))
}

} // verus!
