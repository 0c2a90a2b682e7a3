//! Which types of Go a harness can fill from JSON, with what example, and which it can name.

use vstd::prelude::*;
use vstd::string::*;

use crate::go_types::{
    bracketed, declarations, example_members, json_example, json_integer, json_scalar, opens_filled,
    opens_interface, opens_literal, opened_by, plain_json, predeclared, type_keyword, visible_type,
    visible_word, visible_words, with_any, word_char, word_len, word_start, GoDataType, GoField,
    GoFunc,
};
use crate::json::{json_string, keys_rise, set_member_sets_one_key};
use crate::text::{
    all_digits, contains, decimal, decimal_value, digit, lemma_decimal_parses, lemma_find_char,
    lemma_find_char_is, occurs_at, starts_with, trim, white_space,
};

verus! {

/// Whether no white space stands at either end of a type.
pub open spec fn bare(t: Seq<char>) -> bool {
    t.len() > 0 && !white_space(t[0]) && !white_space(t.last())
}

proof fn lemma_scalars_are_words(t: Seq<char>)
    ensures
        json_scalar(t) ==> t.len() > 2 && t[0] != '*' && t[0] != '[' && t[0] != 'm',
{
    reveal_strlit("bool");
    reveal_strlit("string");
    reveal_strlit("byte");
    reveal_strlit("uint8");
    reveal_strlit("float32");
    reveal_strlit("float64");
    reveal_strlit("int");
    reveal_strlit("int8");
    reveal_strlit("int16");
    reveal_strlit("int32");
    reveal_strlit("int64");
    reveal_strlit("rune");
    reveal_strlit("uint");
    reveal_strlit("uint16");
    reveal_strlit("uint32");
    reveal_strlit("uint64");
}

/// A pointer, a slice, an array of at most 1024 items and a map from strings can be filled
/// from JSON if and only if what they are made of can.
pub proof fn composite_types_are_plain_as_their_parts(
    t: Seq<char>,
    n: nat,
    types: Seq<GoDataType>,
    methods: Seq<GoFunc>,
    visiting: Seq<Seq<char>>,
)
    requires
        bare(t),
    ensures
        plain_json("*"@ + t, types, methods, visiting) == plain_json(t, types, methods, visiting),
        plain_json("[]"@ + t, types, methods, visiting) == plain_json(t, types, methods, visiting),
        plain_json("["@ + decimal(n) + "]"@ + t, types, methods, visiting) <==> n <= 1024
            && plain_json(t, types, methods, visiting),
        plain_json("map[string]"@ + t, types, methods, visiting) == plain_json(
            t,
            types,
            methods,
            visiting,
        ),
{
    reveal_strlit("*");
    reveal_strlit("[]");
    reveal_strlit("[");
    reveal_strlit("]");
    reveal_strlit("map[string]");
    reveal_strlit("map[");
    reveal_strlit("string");
    assert(trim(t) == t);
    let p = "*"@ + t;
    lemma_made_of(p, "*"@, t);
    lemma_scalars_are_words(p);
    assert(p.skip(1) =~= t);
    let s = "[]"@ + t;
    lemma_made_of(s, "[]"@, t);
    lemma_scalars_are_words(s);
    assert(s.subrange(0, 2) =~= "[]"@);
    assert(s.skip(2) =~= t);
    let digits = decimal(n);
    lemma_decimal_parses(n, n);
    let a = "["@ + digits + "]"@ + t;
    assert(a =~= ("["@ + digits + "]"@) + t);
    lemma_made_of(a, "["@ + digits + "]"@, t);
    lemma_scalars_are_words(a);
    let close = digits.len() as int + 1;
    assert(a[1] == digits[0]);
    if starts_with(a, "[]"@) {
        assert(a.subrange(0, 2)[1] == a[1]);
    }
    assert(a[close] == ']');
    assert forall|j: int| 0 <= j < close implies a[j] != ']' by {
        if j > 0 {
            assert(a[j] == digits[j - 1]);
        }
    }
    lemma_find_char_is(a, ']', close);
    assert(a.subrange(1, close) =~= digits);
    assert(a.skip(close + 1) =~= t);
    let m = "map[string]"@ + t;
    lemma_made_of(m, "map[string]"@, t);
    lemma_scalars_are_words(m);
    assert(m.subrange(0, 4) =~= "map["@);
    let behind = m.skip(4);
    assert(behind =~= "map[string]"@.skip(4) + t);
    assert(behind[6] == ']');
    assert forall|j: int| 0 <= j < 6 implies behind[j] != ']' by {
        assert(behind[j] == "map[string]"@[j + 4]);
    }
    lemma_find_char_is(behind, ']', 6);
    assert(behind.take(6) =~= "string"@);
    assert(trim("string"@) == "string"@);
    assert(behind.skip(7) =~= t);
    if starts_with(m, "[]"@) {
        assert(m.subrange(0, 2)[0] == m[0]);
    }
}

proof fn lemma_made_of(all: Seq<char>, before: Seq<char>, t: Seq<char>)
    requires
        all == before + t,
        before.len() > 0,
        !white_space(before[0]),
        bare(t),
    ensures
        trim(all) == all,
        all[0] == before[0],
        all.last() == t.last(),
{
    assert(all[0] == before[0]);
    assert(all.last() == t.last());
}

/// A declared type can be filled from JSON only where it is declared once, has fields, each
/// of them exported and such that it can be filled, and has no methods, which might read it
/// otherwise.
pub proof fn declared_types_are_plain_as_their_fields(
    t: Seq<char>,
    types: Seq<GoDataType>,
    methods: Seq<GoFunc>,
    i: int,
)
    requires
        bare(t),
        t[0] != '*',
        !t.contains('[') && !t.contains(']') && !t.contains('.'),
        !json_scalar(t),
    ensures
        plain_json(t, types, methods, Seq::empty()) ==> {
            let d = declarations(types, t);
            &&& d.len() == 1
            &&& forall|k: int|
                0 <= k < methods.len() ==> !((#[trigger] methods[k]).is_method
                    && crate::text::trim_start_char(
                    crate::go_types::receiver_text(methods[k]),
                    '*',
                ) == t)
            &&& d[0].fields matches Some(fields) && fields@.len() > 0 && (0 <= i < fields@.len()
                ==> fields@[i].is_exported && plain_json(
                fields@[i].ty@,
                types,
                methods,
                Seq::empty().push(t),
            ))
        },
{
    assert(trim(t) == t);
    reveal_strlit("[]");
    reveal_strlit("map[");
    if starts_with(t, "[]"@) {
        assert(t.subrange(0, 2)[0] == t[0]);
        assert(t.contains('['));
    }
    if starts_with(t, "map["@) {
        assert(t.subrange(0, 4)[3] == t[3]);
        assert(t.contains('['));
    }
    if t[0] == '[' {
        assert(t.contains('['));
    }
    let none = Seq::<Seq<char>>::empty();
    assert(!none.contains(t));
    if plain_json(t, types, methods, none) {
        assert forall|k: int| 0 <= k < methods.len() implies !((#[trigger] methods[k]).is_method
            && crate::text::trim_start_char(crate::go_types::receiver_text(methods[k]), '*')
            == t) by {
            assert(!crate::go_types::method_of(methods[k], t));
        }
    }
}

/// A type of another package cannot be filled from JSON.
pub proof fn types_of_other_packages_are_not_plain(
    t: Seq<char>,
    types: Seq<GoDataType>,
    methods: Seq<GoFunc>,
    visiting: Seq<Seq<char>>,
)
    requires
        bare(t),
        t[0] != '*' && t[0] != '[',
        !t.contains('[') && !t.contains(']'),
        t.contains('.'),
    ensures
        !plain_json(t, types, methods, visiting),
{
    assert(trim(t) == t);
    reveal_strlit("[]");
    reveal_strlit("map[");
    if starts_with(t, "[]"@) {
        assert(t.subrange(0, 2)[0] == t[0]);
    }
    if starts_with(t, "map["@) {
        assert(t.subrange(0, 4)[3] == t[3]);
        assert(t.contains('['));
    }
    let i = choose|i: int| 0 <= i < t.len() && t[i] == '.';
    lemma_scalars_have_no_dot(t, i);
}

proof fn lemma_scalars_have_no_dot(t: Seq<char>, i: int)
    requires
        0 <= i < t.len(),
        t[i] == '.',
    ensures
        !json_scalar(t),
{
    reveal_strlit("bool");
    reveal_strlit("string");
    reveal_strlit("byte");
    reveal_strlit("uint8");
    reveal_strlit("float32");
    reveal_strlit("float64");
    reveal_strlit("int");
    reveal_strlit("int8");
    reveal_strlit("int16");
    reveal_strlit("int32");
    reveal_strlit("int64");
    reveal_strlit("rune");
    reveal_strlit("uint");
    reveal_strlit("uint16");
    reveal_strlit("uint32");
    reveal_strlit("uint64");
    if json_scalar(t) {
        if t == "bool"@ || t == "string"@ || t == "byte"@ || t == "uint8"@ {
            assert(t[i] != '.');
        } else if t == "float32"@ || t == "float64"@ {
            assert(t[i] != '.');
        } else {
            assert(t[i] != '.');
        }
    }
}

/// The example of a scalar is a value of its kind: a truth value, a quoted string, a number
/// without a point that every integer type holds, or a number with one.
pub proof fn scalars_have_examples_of_their_kind(
    t: Seq<char>,
    types: Seq<GoDataType>,
    visiting: Seq<Seq<char>>,
)
    requires
        bare(t),
        json_scalar(t),
    ensures
        json_example(t, types, visiting) matches Some(e) && {
            &&& t == "bool"@ <==> e == "true"@
            &&& t == "string"@ <==> e.len() >= 2 && e[0] == '"' && e.last() == '"'
            &&& t == "float32"@ || t == "float64"@ <==> e.contains('.')
            &&& t == "byte"@ || t == "uint8"@ || json_integer(t) <==> e.len() > 0 && all_digits(e)
            &&& t == "byte"@ || t == "uint8"@ || json_integer(t) ==> decimal_value(e) <= 127
        },
{
    assert(trim(t) == t);
    reveal_strlit("bool");
    reveal_strlit("string");
    reveal_strlit("byte");
    reveal_strlit("uint8");
    reveal_strlit("float32");
    reveal_strlit("float64");
    reveal_strlit("true");
    reveal_strlit("65");
    reveal_strlit("1");
    reveal_strlit("1.0");
    reveal_strlit("A");
    assert("bool"@.len() == 4 && "string"@.len() == 6 && "byte"@.len() == 4 && "uint8"@.len() == 5);
    assert("bool"@[1] == 'o' && "byte"@[1] == 'y' && "float32"@.len() == 7 && "float64"@.len() == 7);
    assert("float32"@[0] == 'f' && "float64"@[0] == 'f' && "string"@[0] == 's');
    lemma_integers_begin(t);
    lemma_example_texts();
}

proof fn lemma_integers_begin(t: Seq<char>)
    ensures
        json_integer(t) ==> t != "bool"@ && t != "string"@ && t != "byte"@ && t != "uint8"@ && t
            != "float32"@ && t != "float64"@,
{
    reveal_strlit("int");
    reveal_strlit("int8");
    reveal_strlit("int16");
    reveal_strlit("int32");
    reveal_strlit("int64");
    reveal_strlit("rune");
    reveal_strlit("uint");
    reveal_strlit("uint8");
    reveal_strlit("uint16");
    reveal_strlit("uint32");
    reveal_strlit("uint64");
    reveal_strlit("bool");
    reveal_strlit("string");
    reveal_strlit("byte");
    reveal_strlit("float32");
    reveal_strlit("float64");
    if json_integer(t) {
        assert(t[0] == 'i' || t[0] == 'r' || t[0] == 'u');
        assert("bool"@[0] == 'b' && "string"@[0] == 's' && "byte"@[0] == 'b');
        assert("float32"@[0] == 'f' && "float64"@[0] == 'f');
        assert("uint8"@.len() == 5 && "uint8"@[0] == 'u');
        assert(t.len() == 5 ==> t[0] == 'i');
    }
}

proof fn lemma_example_texts()
    ensures
        "true"@[0] == 't' && !"true"@.contains('.') && !all_digits("true"@),
        "65"@.len() == 2 && all_digits("65"@) && decimal_value("65"@) == 65 && !"65"@.contains('.'),
        "1"@.len() == 1 && all_digits("1"@) && decimal_value("1"@) == 1 && !"1"@.contains('.'),
        "1.0"@.len() == 3 && "1.0"@.contains('.') && !all_digits("1.0"@) && "1.0"@[0] == '1',
        "65"@[0] == '6' && "1"@[0] == '1',
        json_string("A"@).len() >= 2 && json_string("A"@)[0] == '"' && json_string("A"@).last()
            == '"' && !all_digits(json_string("A"@)) && !json_string("A"@).contains('.'),
{
    reveal_strlit("true");
    reveal_strlit("65");
    reveal_strlit("1");
    reveal_strlit("1.0");
    reveal_strlit("A");
    reveal_with_fuel(decimal_value, 3);
    assert(!digit("true"@[0]));
    assert("65"@.drop_last() =~= seq!['6']);
    assert(seq!['6'].drop_last() =~= Seq::<char>::empty());
    assert("1"@.drop_last() =~= Seq::<char>::empty());
    assert("1.0"@[1] == '.');
    assert(!digit("1.0"@[1]));
    let q = json_string("A"@);
    reveal_with_fuel(crate::json::json_escapes, 3);
    assert("A"@.drop_last() =~= Seq::empty());
    assert(q =~= seq!['"', 'A', '"']);
    assert(!digit(q[0]));
}

/// The example of a pointer is that of what it points to, of a slice or an array a list of
/// one item's example, of a map an object with one such member; bytes are a quoted string.
pub proof fn composite_types_have_examples_of_their_parts(
    t: Seq<char>,
    n: nat,
    types: Seq<GoDataType>,
    visiting: Seq<Seq<char>>,
)
    requires
        bare(t),
    ensures
        json_example("*"@ + t, types, visiting) == json_example(t, types, visiting),
        t != "byte"@ && t != "uint8"@ ==> json_example("[]"@ + t, types, visiting) == bracketed(
            "["@,
            json_example(t, types, visiting),
            "]"@,
        ),
        t == "byte"@ || t == "uint8"@ ==> (json_example("[]"@ + t, types, visiting) matches Some(e)
            && e.len() >= 2 && e[0] == '"' && e.last() == '"'),
        json_example("["@ + decimal(n) + "]"@ + t, types, visiting) == bracketed(
            "["@,
            json_example(t, types, visiting),
            "]"@,
        ),
        json_example("map[string]"@ + t, types, visiting) == bracketed(
            "{\"k\":"@,
            json_example(t, types, visiting),
            "}"@,
        ),
{
    reveal_strlit("*");
    reveal_strlit("[]");
    reveal_strlit("[");
    reveal_strlit("]");
    reveal_strlit("map[string]");
    reveal_strlit("map[");
    assert(trim(t) == t);
    let p = "*"@ + t;
    lemma_made_of(p, "*"@, t);
    lemma_example_names(p);
    assert(p.skip(1) =~= t);
    let s = "[]"@ + t;
    lemma_made_of(s, "[]"@, t);
    lemma_example_names(s);
    assert(s.subrange(0, 2) =~= "[]"@);
    assert(s.skip(2) =~= t);
    let digits = decimal(n);
    lemma_decimal_parses(n, n);
    let a = "["@ + digits + "]"@ + t;
    assert(a =~= ("["@ + digits + "]"@) + t);
    lemma_made_of(a, "["@ + digits + "]"@, t);
    lemma_example_names(a);
    let close = digits.len() as int + 1;
    assert(a[1] == digits[0]);
    if starts_with(a, "[]"@) {
        assert(a.subrange(0, 2)[1] == a[1]);
    }
    assert forall|j: int| 0 <= j < close implies a[j] != ']' by {
        if j > 0 {
            assert(a[j] == digits[j - 1]);
        }
    }
    lemma_find_char_is(a, ']', close);
    assert(a.skip(close + 1) =~= t);
    let m = "map[string]"@ + t;
    lemma_made_of(m, "map[string]"@, t);
    lemma_example_names(m);
    assert(m.subrange(0, 4) =~= "map["@);
    assert forall|j: int| 0 <= j < 10 implies m[j] != ']' by {
        assert(m[j] == "map[string]"@[j]);
    }
    assert(m[10] == ']');
    lemma_find_char_is(m, ']', 10);
    assert(m.skip(11) =~= t);
    if starts_with(m, "[]"@) {
        assert(m.subrange(0, 2)[0] == m[0]);
    }
}

proof fn lemma_example_names(t: Seq<char>)
    ensures
        t.len() > 0 && (t[0] == '*' || t[0] == '[' || t[0] == 'm') ==> t != "bool"@ && t
            != "string"@ && t != "byte"@ && t != "uint8"@ && !json_integer(t) && t != "float32"@
            && t != "float64"@,
{
    reveal_strlit("bool");
    reveal_strlit("string");
    reveal_strlit("byte");
    reveal_strlit("uint8");
    reveal_strlit("float32");
    reveal_strlit("float64");
    reveal_strlit("int");
    reveal_strlit("int8");
    reveal_strlit("int16");
    reveal_strlit("int32");
    reveal_strlit("int64");
    reveal_strlit("rune");
    reveal_strlit("uint");
    reveal_strlit("uint16");
    reveal_strlit("uint32");
    reveal_strlit("uint64");
}

proof fn lemma_one_word(w: Seq<char>)
    requires
        w.len() > 0,
        word_start(w[0]),
        forall|i: int| 0 <= i < w.len() ==> word_char(#[trigger] w[i]),
    ensures
        visible_type(w) == visible_word(w, false),
{
    reveal_strlit("...");
    reveal_strlit("interface{}");
    reveal_strlit("interface{");
    assert(!white_space(w[0]));
    assert(!white_space(w[w.len() - 1]));
    assert(trim(w) == w);
    if starts_with(w, "..."@) {
        assert(w.subrange(0, 3)[0] == w[0]);
    }
    assert(!opens_literal(w, "struct"@, '{')) by {
        lemma_opens_nothing(w, "struct"@, '{');
    }
    assert(!opens_literal(w, "func"@, '(')) by {
        lemma_opens_nothing(w, "func"@, '(');
    }
    assert(!opens_interface(w)) by {
        if opens_interface(w) {
            let word = "interface"@;
            let i = choose|i: int|
                #[trigger] occurs_at(w, word, i) && opens_filled(w, i + word.len());
            lemma_no_bracket(w, i + word.len(), '{');
        }
    }
    lemma_no_brace(w, "interface{}"@, 9);
    lemma_no_brace(w, "interface{"@, 9);
    lemma_same_without(w);
    lemma_whole_word(w);
    reveal_with_fuel(visible_words, 2);
    let none = Seq::<char>::empty();
    assert(w.skip(w.len() as int) =~= none);
    assert(w.take(w.len() as int) =~= w);
    if let Some(v) = visible_word(w, false) {
        assert(v + none + none =~= v);
    }
}

proof fn lemma_no_brace(w: Seq<char>, p: Seq<char>, at: int)
    requires
        0 <= at < p.len(),
        p[at] == '{',
        forall|i: int| 0 <= i < w.len() ==> word_char(#[trigger] w[i]),
    ensures
        !contains(w, p),
{
    if contains(w, p) {
        let i = choose|i: int| occurs_at(w, p, i);
        assert(w.subrange(i, i + p.len())[at] == w[i + at]);
        assert(word_char(w[i + at]));
    }
}

proof fn lemma_same_without(w: Seq<char>)
    requires
        !contains(w, "interface{}"@),
    ensures
        with_any(w) == w,
    decreases w.len(),
{
    reveal_strlit("interface{}");
    let from = "interface{}"@;
    if w.len() >= from.len() {
        if starts_with(w, from) {
            assert(occurs_at(w, from, 0));
        }
        let rest = w.skip(1);
        if contains(rest, from) {
            let i = choose|i: int| occurs_at(rest, from, i);
            assert(w.subrange(i + 1, i + 1 + from.len()) =~= rest.subrange(i, i + from.len()));
            assert(occurs_at(w, from, i + 1));
        }
        lemma_same_without(rest);
        assert(seq![w[0]] + rest =~= w);
    }
}

proof fn lemma_no_bracket(w: Seq<char>, from: int, bracket: char)
    requires
        0 <= from <= w.len(),
        bracket == '{' || bracket == '(',
        forall|i: int| 0 <= i < w.len() ==> word_char(#[trigger] w[i]),
    ensures
        !opened_by(w, from, bracket),
{
    let rest = w.skip(from);
    if rest.len() > 0 {
        assert(rest[0] == w[from]);
        assert(word_char(w[from]));
        assert(!white_space(rest[0]));
    }
}

proof fn lemma_opens_nothing(w: Seq<char>, keyword: Seq<char>, bracket: char)
    requires
        bracket == '{' || bracket == '(',
        forall|i: int| 0 <= i < w.len() ==> word_char(#[trigger] w[i]),
    ensures
        !opens_literal(w, keyword, bracket),
{
    if opens_literal(w, keyword, bracket) {
        let i = choose|i: int| #[trigger]
            occurs_at(w, keyword, i) && opened_by(w, i + keyword.len(), bracket);
        lemma_no_bracket(w, i + keyword.len(), bracket);
    }
}

proof fn lemma_whole_word(w: Seq<char>)
    requires
        forall|i: int| 0 <= i < w.len() ==> word_char(#[trigger] w[i]),
    ensures
        word_len(w) == w.len(),
    decreases w.len(),
{
    if w.len() > 0 {
        let rest = w.skip(1);
        assert forall|i: int| 0 <= i < rest.len() implies word_char(#[trigger] rest[i]) by {
            assert(rest[i] == w[i + 1]);
        }
        lemma_whole_word(rest);
    }
}

/// The name of a type is visible from the harness as Go has it: a name of the language as it
/// is, an exported name of the target's package behind its qualifier, an exported name of a
/// package that the harness imports as it is, and nothing else.
pub proof fn names_are_visible_as_go_has_it(w: Seq<char>)
    requires
        w.len() > 0,
        word_start(w[0]),
        forall|i: int| 0 <= i < w.len() ==> word_char(#[trigger] w[i]),
    ensures
        ({
            let language = predeclared(w) || type_keyword(w);
            &&& language ==> visible_type(w) == Some(w)
            &&& !language && !w.contains('.') && 'A' <= w[0] <= 'Z' ==> visible_type(w) == Some(
                "tgt."@ + w,
            )
            &&& !language && !w.contains('.') && !('A' <= w[0] <= 'Z') ==> visible_type(w) is None
        }),
{
    lemma_one_word(w);
    lemma_find_char(w, '.');
}

/// A name of another package is visible if it is exported and the harness imports that
/// package.
pub proof fn imported_names_are_visible(package: Seq<char>, name: Seq<char>)
    requires
        package.len() > 0,
        name.len() > 0,
        !package.contains('.'),
        word_start(package[0]),
        forall|i: int| 0 <= i < package.len() ==> word_char(#[trigger] package[i]),
        forall|i: int| 0 <= i < name.len() ==> word_char(#[trigger] name[i]),
        !predeclared(package + "."@ + name) && !type_keyword(package + "."@ + name),
    ensures
        ({
            let w = package + "."@ + name;
            let imported = package == "bytes"@ || package == "fmt"@ || package == "io"@ || package
                == "math"@ || package == "os"@ || package == "syscall"@;
            visible_type(w) == if imported && 'A' <= name[0] <= 'Z' {
                Some(w)
            } else {
                None
            }
        }),
{
    reveal_strlit(".");
    let w = package + "."@ + name;
    let dot = package.len() as int;
    assert(w[0] == package[0]);
    assert forall|i: int| 0 <= i < w.len() implies word_char(#[trigger] w[i]) by {
        if i < dot {
            assert(w[i] == package[i]);
        } else if i > dot {
            assert(w[i] == name[i - dot - 1]);
        }
    }
    lemma_one_word(w);
    assert(w[dot] == '.');
    assert forall|j: int| 0 <= j < dot implies w[j] != '.' by {
        assert(w[j] == package[j]);
        assert(package.contains(package[j]));
    }
    lemma_find_char_is(w, '.', dot);
    assert(w.take(dot) =~= package);
    assert(w.skip(dot + 1) =~= name);
}

/// The example of a declared type has a member for each of its fields, under the name by
/// which the field is read, and no other.
pub proof fn examples_have_a_member_for_each_field(
    fields: Seq<GoField>,
    types: Seq<GoDataType>,
    visiting: Seq<Seq<char>>,
    name: Seq<char>,
)
    ensures
        example_members(fields, types, visiting) matches Some(members) ==> {
            &&& keys_rise(members)
            &&& (exists|i: int| 0 <= i < fields.len() && (#[trigger] fields[i]).json_name@ == name)
                <==> has_key(members, name)
        },
    decreases fields.len(),
{
    if fields.len() > 0 {
        let front = fields.drop_last();
        let last = fields.last();
        let n = front.len() as int;
        examples_have_a_member_for_each_field(front, types, visiting, name);
        if let Some(members) = example_members(fields, types, visiting) {
            let before = example_members(front, types, visiting)->0;
            let value = json_example(last.ty@, types, visiting)->0;
            let key = last.json_name@;
            set_member_sets_one_key(before, key, value);
            assert(fields[n] == last);
            assert forall|i: int| 0 <= i < n implies #[trigger] fields[i] == front[i] by {}
            if key == name {
                assert(has_member(members, name, value));
            } else {
                if has_key(before, name) {
                    let v = choose|v: Seq<char>| #[trigger] has_member(before, name, v);
                    assert(has_member(members, name, v));
                }
                if has_key(members, name) {
                    let v = choose|v: Seq<char>| #[trigger] has_member(members, name, v);
                    assert(has_member(before, name, v));
                }
            }
            if exists|i: int| 0 <= i < front.len() && (#[trigger] front[i]).json_name@ == name {
                let i = choose|i: int|
                    0 <= i < front.len() && (#[trigger] front[i]).json_name@ == name;
                assert(fields[i] == front[i]);
            }
            if exists|i: int| 0 <= i < fields.len() && (#[trigger] fields[i]).json_name@ == name {
                let i = choose|i: int|
                    0 <= i < fields.len() && (#[trigger] fields[i]).json_name@ == name;
                if i < n {
                    assert(front[i] == fields[i]);
                }
            }
        }
    } else {
        let none = Seq::<(Seq<char>, Seq<char>)>::empty();
        if has_key(none, name) {
            let v = choose|v: Seq<char>| #[trigger] has_member(none, name, v);
        }
    }
}

/// Whether an object has this member.
pub open spec fn has_member(
    members: Seq<(Seq<char>, Seq<char>)>,
    key: Seq<char>,
    value: Seq<char>,
) -> bool {
    members.contains((key, value))
}

/// Whether an object has a member with this key.
pub open spec fn has_key(members: Seq<(Seq<char>, Seq<char>)>, key: Seq<char>) -> bool {
    exists|value: Seq<char>| #[trigger] has_member(members, key, value)
}

} // verus!
