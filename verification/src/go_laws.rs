//! What the harness of a Go target does with the input, and what it calls.

use vstd::prelude::*;
use vstd::string::*;

use crate::go_call::{
    bare_type, decode_param, decode_type, first_constructor, nameable, receiver_for,
};
use crate::go_types::{receiver_text, GoFunc};
use crate::text::{
    contains, trim_start_char, white_space, ends_with, lowercase, occurs_at, starts_with, trim,
};
use crate::text_laws::{a_part_is_contained, parts_of_parts_are_contained};

verus! {

/// Whether an expression of the harness takes bytes of the input from its cursor.
pub open spec fn draws(e: Seq<char>) -> bool {
    ||| contains(e, "c.rest()"@)
    ||| contains(e, "c.bytesField()"@)
    ||| contains(e, "c.args()"@)
    ||| contains(e, "c.u8()"@)
    ||| contains(e, "c.i64()"@)
    ||| contains(e, "c.f64()"@)
}

/// Whether `t` names one of the integer types that are converted from the cursor's integer.
pub open spec fn converted_integer(t: Seq<char>) -> bool {
    ||| t == "int"@ || t == "int8"@ || t == "int16"@ || t == "int32"@
    ||| t == "uint"@ || t == "uint16"@ || t == "uint32"@ || t == "uint64"@ || t == "uintptr"@
}

/// An integer is the cursor's integer converted to the parameter's own type.
pub proof fn integers_are_converted_to_their_type(ty: Seq<char>, last: bool)
    requires
        converted_integer(trim(ty)),
    ensures
        decode_type(ty, last) == Some(trim(ty) + "(c.i64())"@),
{
    let t = trim(ty);
    reveal_strlit("(c.i64())");
    reveal_strlit("int");
    reveal_strlit("int8");
    reveal_strlit("int16");
    reveal_strlit("int32");
    reveal_strlit("uint");
    reveal_strlit("uint16");
    reveal_strlit("uint32");
    reveal_strlit("uint64");
    reveal_strlit("uintptr");
    lemma_type_names_differ(t);
    assert("int"@.len() == 3 && "int8"@.len() == 4 && "uint"@.len() == 4 && "uintptr"@.len() == 7);
    assert("int16"@.len() == 5 && "int32"@.len() == 5 && "uint16"@.len() == 6);
    assert("uint32"@.len() == 6 && "uint64"@.len() == 6);
    assert("int8"@[0] == 'i' && "uint"@[0] == 'u' && "int16"@[3] == '1' && "int32"@[3] == '3');
    assert("uint16"@[4] == '1' && "uint32"@[4] == '3' && "uint64"@[4] == '6');
    if t == "int"@ {
        reveal_strlit("int(c.i64())");
        assert("int(c.i64())"@ =~= "int"@ + "(c.i64())"@);
    } else if t == "int8"@ {
        reveal_strlit("int8(c.i64())");
        assert("int8(c.i64())"@ =~= "int8"@ + "(c.i64())"@);
    } else if t == "int16"@ {
        reveal_strlit("int16(c.i64())");
        assert("int16(c.i64())"@ =~= "int16"@ + "(c.i64())"@);
    } else if t == "int32"@ {
        reveal_strlit("int32(c.i64())");
        assert("int32(c.i64())"@ =~= "int32"@ + "(c.i64())"@);
    } else if t == "uint"@ {
        reveal_strlit("uint(c.i64())");
        assert("uint(c.i64())"@ =~= "uint"@ + "(c.i64())"@);
    } else if t == "uint16"@ {
        reveal_strlit("uint16(c.i64())");
        assert("uint16(c.i64())"@ =~= "uint16"@ + "(c.i64())"@);
    } else if t == "uint32"@ {
        reveal_strlit("uint32(c.i64())");
        assert("uint32(c.i64())"@ =~= "uint32"@ + "(c.i64())"@);
    } else if t == "uint64"@ {
        reveal_strlit("uint64(c.i64())");
        assert("uint64(c.i64())"@ =~= "uint64"@ + "(c.i64())"@);
    } else {
        reveal_strlit("uintptr(c.i64())");
        assert("uintptr(c.i64())"@ =~= "uintptr"@ + "(c.i64())"@);
    }
}

proof fn lemma_type_names_differ(t: Seq<char>)
    ensures
        converted_integer(t) ==> {
            &&& t != "[]byte"@ && t != "string"@ && t != "[]rune"@ && t != "[]string"@
            &&& t != "io.Reader"@ && t != "io.ReadCloser"@ && t != "bool"@ && t != "byte"@
            &&& t != "uint8"@ && t != "rune"@ && t != "int64"@
        },
{
    reveal_strlit("int");
    reveal_strlit("int8");
    reveal_strlit("int16");
    reveal_strlit("int32");
    reveal_strlit("int64");
    reveal_strlit("uint");
    reveal_strlit("uint8");
    reveal_strlit("uint16");
    reveal_strlit("uint32");
    reveal_strlit("uint64");
    reveal_strlit("uintptr");
    reveal_strlit("[]byte");
    reveal_strlit("string");
    reveal_strlit("[]rune");
    reveal_strlit("[]string");
    reveal_strlit("io.Reader");
    reveal_strlit("io.ReadCloser");
    reveal_strlit("bool");
    reveal_strlit("byte");
    reveal_strlit("rune");
    if converted_integer(t) {
        assert(t[0] == 'i' || t[0] == 'u');
        assert("[]byte"@[0] == '[' && "[]rune"@[0] == '[' && "[]string"@[0] == '[');
        assert("string"@[0] == 's' && "bool"@[0] == 'b' && "byte"@[0] == 'b' && "rune"@[0] == 'r');
        assert(t[1] == 'n' || t[1] == 'i');
        assert("io.Reader"@[1] == 'o' && "io.ReadCloser"@[1] == 'o');
        assert("int64"@[3] == '6' && "uint8"@[4] == '8');
        assert("int64"@.len() == 5 && "uint8"@.len() == 5);
    }
}

proof fn lemma_draws(before: Seq<char>, call: Seq<char>, after: Seq<char>)
    requires
        call == "c.rest()"@ || call == "c.bytesField()"@ || call == "c.args()"@ || call
            == "c.u8()"@ || call == "c.i64()"@ || call == "c.f64()"@,
    ensures
        draws(before + call + after),
        draws(call),
{
    a_part_is_contained(before, call, after);
}

proof fn lemma_wholly_drawn()
    ensures
        draws("string(c.rest())"@),
        draws("string(c.bytesField())"@),
        draws("[]rune(string(c.rest()))"@),
        draws("bytes.NewReader(c.rest())"@),
        contains("string(c.rest())"@, "c.rest()"@),
        contains("[]rune(string(c.rest()))"@, "c.rest()"@),
        contains("bytes.NewReader(c.rest())"@, "c.rest()"@),
        contains("string(c.bytesField())"@, "c.bytesField()"@),
        contains("append([]byte(nil), c.rest()...)"@, "c.rest()"@),
{
    let none = Seq::<char>::empty();
    reveal_strlit("c.rest()");
    reveal_strlit("c.bytesField()");
    reveal_strlit("string(");
    reveal_strlit(")");
    reveal_strlit("string(c.rest())");
    reveal_strlit("string(c.bytesField())");
    reveal_strlit("[]rune(string(");
    reveal_strlit("))");
    reveal_strlit("[]rune(string(c.rest()))");
    reveal_strlit("bytes.NewReader(");
    reveal_strlit("bytes.NewReader(c.rest())");
    reveal_strlit("append([]byte(nil), ");
    reveal_strlit("...)");
    reveal_strlit("append([]byte(nil), c.rest()...)");
    assert("string(c.rest())"@ =~= "string("@ + "c.rest()"@ + ")"@);
    assert("string(c.bytesField())"@ =~= "string("@ + "c.bytesField()"@ + ")"@);
    assert("[]rune(string(c.rest()))"@ =~= "[]rune(string("@ + "c.rest()"@ + "))"@);
    assert("bytes.NewReader(c.rest())"@ =~= "bytes.NewReader("@ + "c.rest()"@ + ")"@);
    assert("append([]byte(nil), c.rest()...)"@ =~= "append([]byte(nil), "@ + "c.rest()"@
        + "...)"@);
    a_part_is_contained("string("@, "c.rest()"@, ")"@);
    a_part_is_contained("string("@, "c.bytesField()"@, ")"@);
    a_part_is_contained("[]rune(string("@, "c.rest()"@, "))"@);
    a_part_is_contained("bytes.NewReader("@, "c.rest()"@, ")"@);
    a_part_is_contained("append([]byte(nil), "@, "c.rest()"@, "...)"@);
}

proof fn lemma_narrowly_drawn()
    ensures
        draws("(c.u8()&1 == 1)"@),
        draws("int32(c.i64())"@),
        draws("float32(c.f64())"@),
        contains("(c.u8()&1 == 1)"@, "c.u8()"@),
        contains("float32(c.f64())"@, "c.f64()"@),
        draws("c.rest()"@),
        draws("c.bytesField()"@),
        draws("c.args()"@),
        draws("c.u8()"@),
        draws("c.i64()"@),
        draws("c.f64()"@),
{
    let none = Seq::<char>::empty();
    reveal_strlit("(c.u8()&1 == 1)");
    reveal_strlit("(");
    reveal_strlit("&1 == 1)");
    reveal_strlit("c.u8()");
    reveal_strlit("c.i64()");
    reveal_strlit("c.f64()");
    reveal_strlit("int32(c.i64())");
    reveal_strlit("int32(");
    reveal_strlit(")");
    reveal_strlit("float32(c.f64())");
    reveal_strlit("float32(");
    assert("(c.u8()&1 == 1)"@ =~= "("@ + "c.u8()"@ + "&1 == 1)"@);
    assert("int32(c.i64())"@ =~= "int32("@ + "c.i64()"@ + ")"@);
    assert("float32(c.f64())"@ =~= "float32("@ + "c.f64()"@ + ")"@);
    a_part_is_contained("("@, "c.u8()"@, "&1 == 1)"@);
    a_part_is_contained("int32("@, "c.i64()"@, ")"@);
    a_part_is_contained("float32("@, "c.f64()"@, ")"@);
    a_part_is_contained(none, "c.rest()"@, none);
    a_part_is_contained(none, "c.bytesField()"@, none);
    a_part_is_contained(none, "c.args()"@, none);
}

/// The input reaches the target: every argument that is decoded comes from the input's
/// cursor, but for a context and for an interface that the target fills. A reader reads the
/// rest of the input.
pub proof fn decoded_arguments_come_from_the_input(ty: Seq<char>, last: bool)
    ensures
        decode_type(ty, last) matches Some(e) ==> {
            let t = trim(ty);
            &&& t != "context.Context"@ && t != "interface{}"@ && t != "any"@ ==> draws(e)
            &&& t == "io.Reader"@ || t == "io.ReadCloser"@ || t == "[]rune"@ ==> contains(
                e,
                "c.rest()"@,
            )
            &&& t == "io.Reader"@ || t == "io.ReadCloser"@ ==> starts_with(e, "bytes.NewReader("@)
        },
{
    let t = trim(ty);
    lemma_wholly_drawn();
    lemma_narrowly_drawn();
    lemma_scalar_names(t);
    if converted_integer(t) {
        integers_are_converted_to_their_type(ty, last);
        reveal_strlit("(c.i64())");
        reveal_strlit("(");
        reveal_strlit(")");
        reveal_strlit("c.i64()");
        assert("(c.i64())"@ =~= "("@ + "c.i64()"@ + ")"@);
        a_part_is_contained("("@, "c.i64()"@, ")"@);
        parts_of_parts_are_contained(t, "(c.i64())"@, Seq::empty(), "c.i64()"@);
    }
    reveal_strlit("bytes.NewReader(");
    reveal_strlit("bytes.NewReader(c.rest())");
    assert("bytes.NewReader(c.rest())"@.subrange(0, 16) =~= "bytes.NewReader("@);
}

proof fn lemma_scalar_names(t: Seq<char>)
    ensures
        t == "io.Reader"@ || t == "io.ReadCloser"@ || t == "[]rune"@ ==> t != "[]byte"@ && t
            != "string"@ && t != "[]string"@,
        t == "io.Reader"@ || t == "io.ReadCloser"@ ==> t != "[]rune"@,
{
    reveal_strlit("io.Reader");
    reveal_strlit("io.ReadCloser");
    reveal_strlit("[]rune");
    reveal_strlit("[]byte");
    reveal_strlit("string");
    reveal_strlit("[]string");
    assert("io.Reader"@.len() == 9 && "io.ReadCloser"@.len() == 13);
    assert("[]rune"@[2] == 'r' && "[]byte"@[2] == 'b' && "string"@[0] == 's');
    assert("[]rune"@[0] == '[' && "[]string"@.len() == 8 && "[]rune"@.len() == 6);
}

/// Bytes and strings that end the parameters take the rest of the input; those before them
/// take a field of their own, so that something is left.
pub proof fn only_the_last_argument_takes_the_rest(ty: Seq<char>)
    requires
        trim(ty) == "[]byte"@ || trim(ty) == "string"@,
    ensures
        decode_type(ty, true) matches Some(e) && contains(e, "c.rest()"@),
        decode_type(ty, false) matches Some(e) && contains(e, "c.bytesField()"@) && !contains(
            e,
            "c.rest()"@,
        ),
        trim(ty) == "string"@ ==> (decode_type(ty, true) matches Some(e) && starts_with(
            e,
            "string("@,
        )),
{
    lemma_wholly_drawn();
    reveal_strlit("[]byte");
    reveal_strlit("string");
    assert("[]byte"@[0] == '[' && "string"@[0] == 's');
    reveal_strlit("string(c.rest())");
    reveal_strlit("string(");
    a_part_is_contained(Seq::empty(), "c.rest()"@, Seq::empty());
    a_part_is_contained(Seq::empty(), "c.bytesField()"@, Seq::empty());
    assert("string(c.rest())"@.subrange(0, 7) =~= "string("@);
    lemma_a_field_is_not_the_rest();
}

proof fn lemma_a_field_is_not_the_rest()
    ensures
        !contains("c.bytesField()"@, "c.rest()"@),
        !contains("string(c.bytesField())"@, "c.rest()"@),
{
    reveal_strlit("c.rest()");
    reveal_strlit("c.bytesField()");
    reveal_strlit("string(c.bytesField())");
    lemma_behind_the_dot("c.bytesField()"@, "c.rest()"@, 1);
    lemma_behind_the_dot("string(c.bytesField())"@, "c.rest()"@, 8);
}

proof fn lemma_behind_the_dot(s: Seq<char>, p: Seq<char>, k: int)
    requires
        p.len() > 2,
        0 <= k < s.len() - 1,
        p[1] == '.',
        p[2] != s[k + 1],
        forall|i: int| 0 <= i < s.len() && i != k ==> s[i] != '.',
    ensures
        !contains(s, p),
{
    if contains(s, p) {
        let i = choose|i: int| occurs_at(s, p, i);
        assert(s.subrange(i, i + p.len())[1] == s[i + 1]);
        assert(s.subrange(i, i + p.len())[2] == s[i + 2]);
    }
}

/// Whether two names stand for the same type of Go, or for interfaces that the same reader
/// satisfies.
pub open spec fn same_type(a: Seq<char>, b: Seq<char>) -> bool {
    ||| a == "byte"@ && b == "uint8"@
    ||| a == "rune"@ && b == "int32"@
    ||| a == "any"@ && b == "interface{}"@
    ||| a == "io.ReadCloser"@ && b == "io.Reader"@
}

/// Two names of one type are decoded alike, and white space around a type does not matter.
pub proof fn names_of_one_type_are_decoded_alike(a: Seq<char>, b: Seq<char>, last: bool)
    requires
        same_type(trim(a), trim(b)) || trim(a) == trim(b),
    ensures
        decode_type(a, last) == decode_type(b, last),
{
    if same_type(trim(a), trim(b)) {
        reveal_strlit("byte");
        reveal_strlit("uint8");
        reveal_strlit("rune");
        reveal_strlit("int32");
        reveal_strlit("any");
        reveal_strlit("interface{}");
        reveal_strlit("io.ReadCloser");
        reveal_strlit("io.Reader");
        lemma_decoded_names(trim(a));
        lemma_decoded_names(trim(b));
    }
}

/// Which of the names that the decoder knows come before a name, told by a few characters.
proof fn lemma_decoded_names(t: Seq<char>)
    ensures
        t == "byte"@ || t == "uint8"@ || t == "rune"@ || t == "int32"@ || t == "any"@ || t
            == "interface{}"@ || t == "io.Reader"@ || t == "io.ReadCloser"@ || t == "bool"@ || t
            == "float32"@ || t == "float64"@ || t == "int64"@ || t == "context.Context"@ ==> t
            != "[]byte"@ && t != "string"@ && t != "[]rune"@ && t != "[]string"@,
        t == "byte"@ || t == "uint8"@ || t == "rune"@ || t == "int32"@ || t == "any"@ || t
            == "interface{}"@ || t == "float32"@ || t == "float64"@ || t == "int64"@ || t
            == "context.Context"@ || t == "bool"@ ==> t != "io.Reader"@ && t != "io.ReadCloser"@,
        t == "byte"@ || t == "uint8"@ || t == "rune"@ || t == "int32"@ || t == "any"@ || t
            == "interface{}"@ || t == "float32"@ || t == "float64"@ || t == "int64"@ || t
            == "context.Context"@ ==> t != "bool"@,
        t == "rune"@ || t == "int32"@ || t == "any"@ || t == "interface{}"@ || t == "float32"@ || t
            == "float64"@ || t == "int64"@ || t == "context.Context"@ ==> t != "byte"@ && t
            != "uint8"@,
        t == "any"@ || t == "interface{}"@ || t == "float32"@ || t == "float64"@ || t == "int64"@
            || t == "context.Context"@ ==> t != "rune"@ && t != "int32"@ && t != "int"@ && t
            != "int8"@ && t != "int16"@,
        t == "any"@ || t == "interface{}"@ || t == "float32"@ || t == "float64"@ || t
            == "context.Context"@ ==> t != "int64"@ && t != "uint"@ && t != "uint16"@ && t
            != "uint32"@ && t != "uint64"@ && t != "uintptr"@,
        t == "any"@ || t == "interface{}"@ || t == "context.Context"@ ==> t != "float32"@ && t
            != "float64"@,
        t == "float64"@ ==> t != "float32"@,
        t == "context.Context"@ ==> t != "any"@ && t != "interface{}"@,
{
    reveal_strlit("byte");
    reveal_strlit("uint8");
    reveal_strlit("rune");
    reveal_strlit("int32");
    reveal_strlit("any");
    reveal_strlit("interface{}");
    reveal_strlit("io.ReadCloser");
    reveal_strlit("io.Reader");
    reveal_strlit("bool");
    reveal_strlit("float32");
    reveal_strlit("float64");
    reveal_strlit("int64");
    reveal_strlit("context.Context");
    reveal_strlit("[]byte");
    reveal_strlit("string");
    reveal_strlit("[]rune");
    reveal_strlit("[]string");
    reveal_strlit("int");
    reveal_strlit("int8");
    reveal_strlit("int16");
    reveal_strlit("uint");
    reveal_strlit("uint16");
    reveal_strlit("uint32");
    reveal_strlit("uint64");
    reveal_strlit("uintptr");
    assert("byte"@.len() == 4 && "bool"@.len() == 4 && "rune"@.len() == 4 && "uint"@.len() == 4);
    assert("byte"@[1] == 'y' && "bool"@[1] == 'o' && "rune"@[1] == 'u' && "uint"@[1] == 'i');
    assert("int8"@[1] == 'n' && "int8"@.len() == 4);
    assert("uint8"@.len() == 5 && "int32"@.len() == 5 && "int64"@.len() == 5 && "int16"@.len()
        == 5);
    assert("uint8"@[3] == 't' && "int32"@[3] == '3' && "int64"@[3] == '6' && "int16"@[3] == '1');
    assert("any"@.len() == 3 && "int"@.len() == 3 && "any"@[0] == 'a' && "int"@[0] == 'i');
    assert("interface{}"@.len() == 11 && "io.Reader"@.len() == 9 && "io.ReadCloser"@.len() == 13);
    assert("float32"@.len() == 7 && "float64"@.len() == 7 && "uintptr"@.len() == 7);
    assert("float32"@[5] == '3' && "float64"@[5] == '6' && "uintptr"@[5] == 't');
    assert("context.Context"@.len() == 15 && "[]string"@.len() == 8);
    assert("[]byte"@.len() == 6 && "string"@.len() == 6 && "[]rune"@.len() == 6);
    assert("uint16"@.len() == 6 && "uint32"@.len() == 6 && "uint64"@.len() == 6);
}

/// Each kind of value comes from the part of the cursor that makes it: bytes and truth
/// values from a byte, numbers with a point from the cursor's, whole numbers from its
/// integer, and lists of strings from its arguments.
pub proof fn each_kind_of_value_has_its_source(ty: Seq<char>, last: bool)
    ensures
        trim(ty) == "byte"@ || trim(ty) == "uint8"@ || trim(ty) == "bool"@ ==> (decode_type(
            ty,
            last,
        ) matches Some(e) && contains(e, "c.u8()"@)),
        trim(ty) == "float32"@ || trim(ty) == "float64"@ ==> (decode_type(ty, last) matches Some(e)
            && contains(e, "c.f64()"@)),
        trim(ty) == "int64"@ || trim(ty) == "rune"@ || converted_integer(trim(ty)) ==> (decode_type(
            ty,
            last,
        ) matches Some(e) && contains(e, "c.i64()"@)),
        trim(ty) == "[]string"@ ==> (decode_type(ty, last) matches Some(e) && contains(
            e,
            "c.args()"@,
        )),
        trim(ty) == "bool"@ ==> (decode_type(ty, last) matches Some(e) && ends_with(
            e,
            "&1 == 1)"@,
        )),
        trim(ty) == "float32"@ ==> (decode_type(ty, last) matches Some(e) && starts_with(
            e,
            "float32("@,
        )),
        trim(ty) == "rune"@ ==> (decode_type(ty, last) matches Some(e) && starts_with(
            e,
            "int32("@,
        )),
        trim(ty) == "any"@ || trim(ty) == "interface{}"@ || trim(ty) == "context.Context"@ ==> (
        decode_type(ty, last) matches Some(e) && !draws(e)),
{
    let t = trim(ty);
    let none = Seq::<char>::empty();
    lemma_decoded_names(t);
    lemma_type_names_differ(t);
    lemma_narrowly_drawn();
    if converted_integer(t) {
        integers_are_converted_to_their_type(ty, last);
        reveal_strlit("(c.i64())");
        reveal_strlit("(");
        reveal_strlit(")");
        reveal_strlit("c.i64()");
        assert("(c.i64())"@ =~= "("@ + "c.i64()"@ + ")"@);
        a_part_is_contained("("@, "c.i64()"@, ")"@);
        parts_of_parts_are_contained(t, "(c.i64())"@, none, "c.i64()"@);
    } else if t == "rune"@ {
        reveal_strlit("int32");
        reveal_strlit("(c.i64())");
        reveal_strlit("int32(c.i64())");
        reveal_strlit("int32(");
        reveal_strlit(")");
        reveal_strlit("c.i64()");
        assert("int32(c.i64())"@ =~= "int32("@ + "c.i64()"@ + ")"@);
        a_part_is_contained("int32("@, "c.i64()"@, ")"@);
        assert("int32(c.i64())"@.subrange(0, 6) =~= "int32("@);
    } else if t == "bool"@ {
        reveal_strlit("(c.u8()&1 == 1)");
        reveal_strlit("&1 == 1)");
        assert("(c.u8()&1 == 1)"@.subrange(7, 15) =~= "&1 == 1)"@);
    } else if t == "float32"@ {
        reveal_strlit("float32(c.f64())");
        reveal_strlit("float32(");
        assert("float32(c.f64())"@.subrange(0, 8) =~= "float32("@);
    } else if t == "[]string"@ {
        reveal_strlit("[]string");
        reveal_strlit("[]byte");
        reveal_strlit("string");
        reveal_strlit("[]rune");
        assert("[]string"@.len() == 8 && "[]byte"@.len() == 6 && "string"@.len() == 6);
        assert("[]rune"@.len() == 6);
        a_part_is_contained(none, "c.args()"@, none);
    }
    a_part_is_contained(none, "c.u8()"@, none);
    a_part_is_contained(none, "c.i64()"@, none);
    a_part_is_contained(none, "c.f64()"@, none);
    lemma_made_values_draw_nothing();
}

proof fn lemma_made_values_draw_nothing()
    ensures
        !draws("new(interface{})"@),
        !draws("c.ctx()"@),
{
    reveal_strlit("new(interface{})");
    reveal_strlit("c.ctx()");
    reveal_strlit("c.rest()");
    reveal_strlit("c.bytesField()");
    reveal_strlit("c.args()");
    reveal_strlit("c.u8()");
    reveal_strlit("c.i64()");
    reveal_strlit("c.f64()");
    lemma_no_dot("new(interface{})"@, "c.rest()"@);
    lemma_no_dot("new(interface{})"@, "c.bytesField()"@);
    lemma_no_dot("new(interface{})"@, "c.args()"@);
    lemma_no_dot("new(interface{})"@, "c.u8()"@);
    lemma_no_dot("new(interface{})"@, "c.i64()"@);
    lemma_no_dot("new(interface{})"@, "c.f64()"@);
    lemma_behind_the_dot("c.ctx()"@, "c.rest()"@, 1);
    lemma_behind_the_dot("c.ctx()"@, "c.args()"@, 1);
    lemma_behind_the_dot("c.ctx()"@, "c.u8()"@, 1);
    lemma_behind_the_dot("c.ctx()"@, "c.i64()"@, 1);
    lemma_behind_the_dot("c.ctx()"@, "c.f64()"@, 1);
    lemma_behind_the_dot("c.ctx()"@, "c.bytesField()"@, 1);
}

proof fn lemma_no_dot(s: Seq<char>, p: Seq<char>)
    requires
        p.len() > 1,
        p[1] == '.',
        forall|i: int| 0 <= i < s.len() ==> s[i] != '.',
    ensures
        !contains(s, p),
{
    if contains(s, p) {
        let i = choose|i: int| occurs_at(s, p, i);
        assert(s.subrange(i, i + p.len())[1] == s[i + 1]);
    }
}

/// A parameter is decoded as its type is, but for an interface: one that a parser fills is
/// made empty, and any other gets the rest of the input.
pub proof fn parameters_are_decoded_as_their_type(f: GoFunc, index: int, last: bool)
    requires
        0 <= index < f.params@.len(),
    ensures
        ({
            let t = trim(f.params@[index].ty@);
            let name = lowercase(f.name@);
            let parses = contains(name, "unmarshal"@) || contains(name, "decode"@) || contains(
                name,
                "deserialize"@,
            );
            let e = decode_param(f, index, last);
            &&& t != "interface{}"@ && t != "any"@ ==> e == decode_type(t, last)
            &&& t == "interface{}"@ || t == "any"@ ==> e is Some
            &&& (t == "interface{}"@ || t == "any"@) && !parses ==> draws(e->0) && contains(
                e->0,
                "c.rest()"@,
            )
            &&& (t == "interface{}"@ || t == "any"@) && parses && index > 0 ==> !draws(e->0)
            &&& (t == "interface{}"@ || t == "any"@) && index == 0 ==> {
                let p = lowercase(f.params@[0].name@);
                draws(e->0) <==> !(parses && (p == "out"@ || p == "dst"@ || p == "result"@ || p
                    == "value"@ || p == "v"@))
            }
        }),
        decode_param(f, f.params@.len() as int, last) is None,
{
    lemma_wholly_drawn();
    lemma_made_values_draw_nothing();
}

/// What a receiver is made of: the first constructor without parameters that gives its type,
/// or else its zero value, which is made up where nothing feeds it. Only a pointer is called
/// as it is.
pub proof fn receivers_are_constructed_where_they_can_be(
    f: GoFunc,
    siblings: Seq<GoFunc>,
    fed: bool,
    force: bool,
)
    requires
        f.is_method,
    ensures
        ({
            let bare = bare_type(receiver_text(f));
            match receiver_for(f, siblings, fed, force) {
                Ok(Some(r)) => {
                    &&& nameable(bare)
                    &&& match first_constructor(siblings, bare) {
                        Some(i) => {
                            let ctor = siblings[i];
                            &&& 0 <= i < siblings.len()
                            &&& r.forced is None
                            &&& contains(r.setup, "recv := tgt."@ + ctor.name@ + "()"@)
                            &&& r.callee == "recv"@ <==> (trim(ctor.returns->0@).len() > 0 && trim(
                                ctor.returns->0@,
                            )[0] == '*')
                            &&& r.callee == "recv"@ || r.callee == "(&recv)"@
                        },
                        None => {
                            &&& contains(r.setup, "var recv tgt."@ + bare)
                            &&& r.callee == "(&recv)"@
                            &&& fed || force
                            &&& r.forced is Some <==> !fed
                            &&& r.forced matches Some(detail) ==> contains(detail, "tgt."@ + bare)
                        },
                    }
                },
                Ok(None) => false,
                Err(reason) => {
                    &&& contains(reason, f.name@)
                    &&& !nameable(bare) || (!fed && !force && first_constructor(
                        siblings,
                        bare,
                    ) is None)
                },
            }
        }),
{
    let bare = bare_type(receiver_text(f));
    let raw = trim(receiver_text(f));
    let none = Seq::<char>::empty();
    first_constructors_come_first(siblings, bare);
    reveal_strlit("recv");
    reveal_strlit("(&recv)");
    assert("recv"@.len() == 4 && "(&recv)"@.len() == 7);
    reveal_strlit("\tvar recv tgt.");
    reveal_strlit("\t");
    reveal_strlit("var recv tgt.");
    reveal_strlit("\trecv := tgt.");
    reveal_strlit("recv := tgt.");
    reveal_strlit("()\n");
    reveal_strlit("()");
    reveal_strlit("\n");
    reveal_strlit("receiver tgt.");
    reveal_strlit("receiver ");
    reveal_strlit("tgt.");
    let zero = "\tvar recv tgt."@ + bare + "\n"@;
    assert(zero =~= "\t"@ + ("var recv tgt."@ + bare) + "\n"@);
    a_part_is_contained("\t"@, "var recv tgt."@ + bare, "\n"@);
    assert("receiver tgt."@ + bare =~= "receiver "@ + ("tgt."@ + bare));
    a_part_is_contained("receiver "@, "tgt."@ + bare, none);
    if let Some(i) = first_constructor(siblings, bare) {
        let name = siblings[i].name@;
        assert("\trecv := tgt."@ + name + "()\n"@ =~= "\t"@ + ("recv := tgt."@ + name + "()"@)
            + "\n"@);
        a_part_is_contained("\t"@, "recv := tgt."@ + name + "()"@, "\n"@);
    }
    let a = "Go receiver type `"@ + raw + "` of method `"@;
    let b = "` is not nameable from the harness package (unexported or generic); skipped cleanly"@;
    a_part_is_contained(a, f.name@, b);
    let c = "` needs a receiver value and its type `"@;
    let d =
        "` has no no-arg constructor; pass --force to call it on a zero-valued receiver (skipped cleanly)"@;
    a_part_is_contained("Go method `"@, f.name@, c);
    parts_of_parts_are_contained(none, "Go method `"@ + f.name@ + c, bare, f.name@);
    parts_of_parts_are_contained(none, "Go method `"@ + f.name@ + c + bare, d, f.name@);
}

/// A constructor is the first exported function, no method, without parameters, whose name
/// begins with `New` and which gives the type or a pointer to it.
pub proof fn first_constructors_come_first(siblings: Seq<GoFunc>, bare: Seq<char>)
    ensures
        ({
            let gives = |f: GoFunc|
                !f.is_method && f.is_exported && f.params@.len() == 0 && starts_with(
                    f.name@,
                    "New"@,
                ) && f.returns is Some && bare_type(f.returns->0@) == bare;
            match first_constructor(siblings, bare) {
                Some(i) => 0 <= i < siblings.len() && gives(siblings[i]) && forall|k: int|
                    0 <= k < i ==> !gives(#[trigger] siblings[k]),
                None => forall|k: int| 0 <= k < siblings.len() ==> !gives(#[trigger] siblings[k]),
            }
        }),
    decreases siblings.len(),
{
    if siblings.len() > 0 {
        let front = siblings.drop_last();
        first_constructors_come_first(front, bare);
        assert forall|k: int| 0 <= k < front.len() implies #[trigger] siblings[k] == front[k] by {}
        assert(siblings.last() == siblings[siblings.len() - 1]);
    }
}

/// A receiver can be named where it is an exported name of the target's own package, without
/// type arguments.
pub proof fn receivers_that_can_be_named(name: Seq<char>)
    ensures
        nameable(name) <==> {
            &&& name.len() > 0 && 'A' <= name[0] <= 'Z'
            &&& forall|i: int| 0 <= i < name.len() ==> #[trigger] name[i] != '[' && name[i] != '.'
        },
{
    if nameable(name) {
        assert forall|i: int| 0 <= i < name.len() implies #[trigger] name[i] != '[' && name[i]
            != '.' by {
            assert(name.contains(name[i]));
        }
    }
}

/// The bare type of a receiver is the type that it or a pointer to it has.
pub proof fn pointers_have_the_type_they_point_to(t: Seq<char>)
    requires
        t.len() > 0,
        t[0] != '*',
        !white_space(t[0]),
        !white_space(t.last()),
    ensures
        bare_type(t) == t,
        bare_type(seq!['*'] + t) == t,
        bare_type(seq!['*', '*'] + t) == t,
{
    reveal_with_fuel(trim_start_char, 3);
    assert(trim(t) == t);
    let p = seq!['*'] + t;
    assert(p[0] == '*' && p.last() == t.last());
    assert(trim(p) == p);
    assert(p.skip(1) =~= t);
    let q = seq!['*', '*'] + t;
    assert(q[0] == '*' && q.last() == t.last());
    assert(trim(q) == q);
    assert(q.skip(1) =~= p);
}

/// Pointers, maps, functions and named types are not decoded from the cursor.
pub proof fn composite_types_are_not_decoded(ty: Seq<char>, last: bool)
    requires
        trim(ty).len() > 0,
        trim(ty)[0] == '*' || trim(ty)[0] == 'm' || trim(ty)[0] == '(' || 'A' <= trim(ty)[0] <= 'Z',
    ensures
        decode_type(ty, last) is None,
{
    let t = trim(ty);
    lemma_decoded_begin_otherwise(t);
}

proof fn lemma_decoded_begin_otherwise(t: Seq<char>)
    requires
        t.len() > 0,
        t[0] == '*' || t[0] == 'm' || t[0] == '(' || 'A' <= t[0] <= 'Z',
    ensures
        t != "[]byte"@ && t != "string"@ && t != "[]rune"@ && t != "[]string"@,
        t != "io.Reader"@ && t != "io.ReadCloser"@ && t != "bool"@ && t != "byte"@,
        t != "uint8"@ && t != "rune"@ && t != "int32"@ && t != "int"@ && t != "int8"@,
        t != "int16"@ && t != "int64"@ && t != "uint"@ && t != "uint16"@ && t != "uint32"@,
        t != "uint64"@ && t != "uintptr"@ && t != "float32"@ && t != "float64"@,
        t != "interface{}"@ && t != "any"@ && t != "context.Context"@,
{
    reveal_strlit("[]byte");
    reveal_strlit("string");
    reveal_strlit("[]rune");
    reveal_strlit("[]string");
    reveal_strlit("io.Reader");
    reveal_strlit("io.ReadCloser");
    reveal_strlit("bool");
    reveal_strlit("byte");
    reveal_strlit("uint8");
    reveal_strlit("rune");
    reveal_strlit("int32");
    reveal_strlit("int");
    reveal_strlit("int8");
    reveal_strlit("int16");
    reveal_strlit("int64");
    reveal_strlit("uint");
    reveal_strlit("uint16");
    reveal_strlit("uint32");
    reveal_strlit("uint64");
    reveal_strlit("uintptr");
    reveal_strlit("float32");
    reveal_strlit("float64");
    reveal_strlit("interface{}");
    reveal_strlit("any");
    reveal_strlit("context.Context");
}

} // verus!
