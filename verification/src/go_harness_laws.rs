//! What the harness of a Go target binds and calls, and what its build amounts to.

use vstd::prelude::*;
use vstd::string::*;
use vstd::utf8::encode_utf8;

use crate::go_build::{
    with_tokens, go_minor, merge_package, build_result, coverage_scopes, declared_module,
    dictionary_byte, dictionary_bytes, dictionary_entry, first_module, go_mod_text, harness_module,
    import_path, load_structured_seed_inputs, lowered_line, overlay_text, package_functions,
    package_source, package_types, placeholder_version, seed_inputs, structured_seed_file,
    BuildOutcome, GoBuildResult, GoFile, SeedFile,
};
use crate::go_call::{
    add_argument, bind_json, call_body, call_parts, call_start, decode_param, example_seeds,
    forced_note, CallParts, ReceiverText,
};
use crate::go_template::generate_main_go;
use crate::go_types::{json_example, visible_type, GoDataType, GoFunc};
use crate::json::json_string;
use crate::text::{
    all_digits, leading_digits, lemma_split_append, split_on, byte_rows, contains, decimal, digit,
    ends_with, hex_digit_value, hex_value, join, lemma_decimal_parses, lines, occurs_at, replace,
    rfind_from, starts_with, texts, trim, trim_end_char, trim_start, white_space,
};
use crate::text_laws::{
    a_part_is_contained, joined_parts_stand, joining_is_associative, members_stand_in_their_object,
    parts_of_parts_are_contained,
};

verus! {

/// The line of the harness that binds the argument `i` to `expr`.
pub open spec fn binding(i: int, expr: Seq<char>) -> Seq<char> {
    "\ta"@ + decimal(i as nat) + " := "@ + expr + "\n"@
}

proof fn lemma_lines_grow(
    parts: CallParts,
    f: GoFunc,
    i: int,
    data_types: Seq<GoDataType>,
    methods: Seq<GoFunc>,
    force: bool,
    p: Seq<char>,
)
    requires
        contains(parts.lines, p),
    ensures
        add_argument(parts, f, i, data_types, methods, force) matches Ok(next) ==> contains(
            next.lines,
            p,
        ),
{
    let none = Seq::<char>::empty();
    if let Ok(next) = add_argument(parts, f, i, data_types, methods, force) {
        let n = decimal(i as nat);
        match decode_param(f, i, i + 1 == f.params@.len()) {
            Some(expr) => {
                parts_of_parts_are_contained(none, parts.lines, binding(i, expr), p);
            },
            None => {
                if force {
                    let v = visible_type(f.params@[i].ty@)->0;
                    let zero = "\tvar z"@ + n + " "@ + v + "\n"@;
                    parts_of_parts_are_contained(none, parts.lines, zero, p);
                    parts_of_parts_are_contained(
                        none,
                        parts.lines + zero,
                        binding(i, "z"@ + n),
                        p,
                    );
                } else {
                    let v = visible_type(f.params@[i].ty@)->0;
                    let declared = "\tvar a"@ + n + " "@ + v + "\n"@;
                    parts_of_parts_are_contained(none, parts.lines, declared, p);
                    let source = if crate::go_call::behind_bytes(f, i) {
                        "c.rest()"@
                    } else {
                        "data"@
                    };
                    let read = "\tif err := json.Unmarshal("@ + source + ", &a"@ + n
                        + "); err != nil { return }\n"@;
                    parts_of_parts_are_contained(none, parts.lines + declared, read, p);
                }
            },
        }
    }
}

/// Whether the argument `i` stands in the harness as it is decoded: from its expression, or
/// as a zero value that is noted as made up, or from a JSON document of which an example is
/// a token of the dictionary.
pub open spec fn argument_stands(
    parts: CallParts,
    f: GoFunc,
    i: int,
    data_types: Seq<GoDataType>,
    force: bool,
) -> bool {
    let n = decimal(i as nat);
    let ty = f.params@[i].ty@;
    match decode_param(f, i, i + 1 == f.params@.len()) {
        Some(expr) => contains(parts.lines, binding(i, expr)),
        None => visible_type(ty) matches Some(v) && if force {
            &&& contains(parts.lines, "\tvar z"@ + n + " "@ + v + "\n"@)
            &&& contains(parts.lines, binding(i, "z"@ + n))
            &&& parts.forced.contains(f.params@[i].name@ + " "@ + ty)
        } else {
            &&& contains(parts.lines, "\tvar a"@ + n + " "@ + v + "\n"@)
            &&& contains(parts.lines, ", &a"@ + n + "); err != nil { return }\n"@)
            &&& json_example(ty, data_types, Seq::empty()) matches Some(example)
                && parts.tokens.contains(example)
        },
    }
}

proof fn lemma_argument_added(
    parts: CallParts,
    f: GoFunc,
    i: int,
    data_types: Seq<GoDataType>,
    methods: Seq<GoFunc>,
    force: bool,
)
    ensures
        add_argument(parts, f, i, data_types, methods, force) matches Ok(next) ==> argument_stands(
            next,
            f,
            i,
            data_types,
            force,
        ),
{
    let none = Seq::<char>::empty();
    if let Ok(next) = add_argument(parts, f, i, data_types, methods, force) {
        let n = decimal(i as nat);
        let ty = f.params@[i].ty@;
        match decode_param(f, i, i + 1 == f.params@.len()) {
            Some(expr) => {
                a_part_is_contained(parts.lines, binding(i, expr), none);
            },
            None => {
                let v = visible_type(ty)->0;
                if force {
                    let zero = "\tvar z"@ + n + " "@ + v + "\n"@;
                    let bound = binding(i, "z"@ + n);
                    a_part_is_contained(parts.lines, zero, bound);
                    a_part_is_contained(parts.lines + zero, bound, none);
                    let note = f.params@[i].name@ + " "@ + ty;
                    assert(next.forced[parts.forced.len() as int] == note);
                } else {
                    let declared = "\tvar a"@ + n + " "@ + v + "\n"@;
                    let source = if crate::go_call::behind_bytes(f, i) {
                        "c.rest()"@
                    } else {
                        "data"@
                    };
                    let open = "\tif err := json.Unmarshal("@ + source;
                    let tail = ", &a"@ + n + "); err != nil { return }\n"@;
                    joining_is_associative(open, ", &a"@, n);
                    joining_is_associative(open, ", &a"@ + n, "); err != nil { return }\n"@);
                    let read = open + tail;
                    a_part_is_contained(open, tail, none);
                    a_part_is_contained(parts.lines, declared, read);
                    parts_of_parts_are_contained(parts.lines + declared, read, none, tail);
                    let example = json_example(ty, data_types, Seq::empty())->0;
                    assert(next.tokens[parts.tokens.len() as int] == example);
                }
            },
        }
    }
}

proof fn lemma_argument_stays(
    parts: CallParts,
    f: GoFunc,
    k: int,
    i: int,
    data_types: Seq<GoDataType>,
    methods: Seq<GoFunc>,
    force: bool,
)
    requires
        argument_stands(parts, f, i, data_types, force),
    ensures
        add_argument(parts, f, k, data_types, methods, force) matches Ok(next) ==> argument_stands(
            next,
            f,
            i,
            data_types,
            force,
        ),
{
    if let Ok(next) = add_argument(parts, f, k, data_types, methods, force) {
        let n = decimal(i as nat);
        let ty = f.params@[i].ty@;
        match decode_param(f, i, i + 1 == f.params@.len()) {
            Some(expr) => {
                lemma_lines_grow(parts, f, k, data_types, methods, force, binding(i, expr));
            },
            None => {
                let v = visible_type(ty)->0;
                if force {
                    let zero = "\tvar z"@ + n + " "@ + v + "\n"@;
                    lemma_lines_grow(parts, f, k, data_types, methods, force, zero);
                    lemma_lines_grow(
                        parts,
                        f,
                        k,
                        data_types,
                        methods,
                        force,
                        binding(i, "z"@ + n),
                    );
                    let note = f.params@[i].name@ + " "@ + ty;
                    let j = choose|j: int| 0 <= j < parts.forced.len() && parts.forced[j] == note;
                    assert(next.forced[j] == note);
                } else {
                    let declared = "\tvar a"@ + n + " "@ + v + "\n"@;
                    let tail = ", &a"@ + n + "); err != nil { return }\n"@;
                    lemma_lines_grow(parts, f, k, data_types, methods, force, declared);
                    lemma_lines_grow(parts, f, k, data_types, methods, force, tail);
                    let example = json_example(ty, data_types, Seq::empty())->0;
                    let j = choose|j: int|
                        0 <= j < parts.tokens.len() && parts.tokens[j] == example;
                    assert(next.tokens[j] == example);
                }
            },
        }
    }
}

/// Every argument that the call passes stands in the harness as it is decoded, and the
/// receiver is set up before them.
pub proof fn every_argument_stands_in_the_harness(
    f: GoFunc,
    receiver: Option<ReceiverText>,
    feeder: Option<GoFunc>,
    data_types: Seq<GoDataType>,
    methods: Seq<GoFunc>,
    force: bool,
    n: nat,
    i: int,
)
    requires
        0 <= i < n,
    ensures
        call_parts(f, receiver, feeder, data_types, methods, force, n) matches Ok(parts)
            ==> argument_stands(parts, f, i, data_types, force),
    decreases n,
{
    let m = (n - 1) as nat;
    if let Ok(parts) = call_parts(f, receiver, feeder, data_types, methods, force, m) {
        if i == m {
            lemma_argument_added(parts, f, i, data_types, methods, force);
        } else {
            every_argument_stands_in_the_harness(
                f,
                receiver,
                feeder,
                data_types,
                methods,
                force,
                m,
                i,
            );
            lemma_argument_stays(parts, f, m as int, i, data_types, methods, force);
        }
    }
}

/// A receiver is set up, noted where it was made up, and fed with the input where another
/// method feeds it.
pub proof fn receivers_are_set_up_and_fed(
    f: GoFunc,
    receiver: Option<ReceiverText>,
    feeder: Option<GoFunc>,
)
    ensures
        match call_start(f, receiver, feeder) {
            Ok(parts) => {
                &&& parts.args.len() == 0
                &&& receiver matches Some(r) ==> contains(parts.lines, r.setup)
                &&& receiver matches Some(r) ==> (r.forced matches Some(detail) ==> parts.forced
                    == seq![detail])
                &&& receiver matches Some(r) ==> (r.forced is None ==> parts.forced.len() == 0)
                &&& receiver is None ==> feeder is None && parts.lines.len() == 0
                    && parts.forced.len() == 0
                &&& feeder matches Some(g) ==> {
                    &&& decode_param(g, 0, true) is Some
                    &&& contains(
                        parts.lines,
                        "\tstateInput := "@ + decode_param(g, 0, true)->0 + "\n"@,
                    )
                    &&& contains(
                        parts.lines,
                        "\t"@ + receiver->0.callee + "."@ + g.name@ + "(stateInput)\n"@,
                    )
                }
            },
            Err(reason) => feeder is Some && (receiver is None || decode_param(
                feeder->0,
                0,
                true,
            ) is None),
        },
{
    let none = Seq::<char>::empty();
    if let Ok(parts) = call_start(f, receiver, feeder) {
        if let Some(r) = receiver {
            a_part_is_contained(none, r.setup, none);
            if let Some(g) = feeder {
                let input = "\tstateInput := "@ + decode_param(g, 0, true)->0 + "\n"@;
                let feed = "\t"@ + r.callee + "."@ + g.name@ + "(stateInput)\n"@;
                parts_of_parts_are_contained(none, r.setup, input, r.setup);
                parts_of_parts_are_contained(none, r.setup + input, feed, r.setup);
                a_part_is_contained(r.setup, input, feed);
                a_part_is_contained(r.setup + input, feed, none);
            }
        }
    }
}

/// The harness does what was bound, marks the entry and then calls the target, by its name
/// in its package or on its receiver, with every argument in order.
pub proof fn the_target_is_called_last(f: GoFunc, receiver: Option<ReceiverText>, parts: CallParts)
    ensures
        ({
            let body = call_body(f, receiver, parts);
            let call = (match receiver {
                Some(r) => r.callee + "."@ + f.name@,
                None => "tgt."@ + f.name@,
            }) + "("@ + join(parts.args, ", "@) + ")\n"@;
            &&& starts_with(body, parts.lines)
            &&& ends_with(body, "\tbhfMarkTargetEntry()\n"@ + "\t"@ + call)
        }),
{
    let body = call_body(f, receiver, parts);
    let callee = match receiver {
        Some(r) => r.callee + "."@ + f.name@,
        None => "tgt."@ + f.name@,
    };
    let mark = "\tbhfMarkTargetEntry()\n"@;
    let args = join(parts.args, ", "@);
    let call = callee + "("@ + args + ")\n"@;
    let line = "\t"@ + callee + "("@ + args + ")\n"@;
    assert(line =~= "\t"@ + call);
    let end = mark + "\t"@ + call;
    assert(end =~= mark + line);
    assert(body =~= parts.lines + end);
    assert(body.subrange(0, parts.lines.len() as int) =~= parts.lines);
    assert(body.subrange(body.len() - end.len(), body.len() as int) =~= end);
}

/// What was made up is noted, each of it, and nothing is noted where nothing was.
pub proof fn what_is_made_up_is_noted(forced: Seq<Seq<char>>, i: int)
    ensures
        forced_note(forced) is None <==> forced.len() == 0,
        0 <= i < forced.len() ==> contains(forced_note(forced)->0, forced[i]),
{
    if 0 <= i < forced.len() {
        joined_parts_stand(forced, ", "@, i);
        parts_of_parts_are_contained(
            "go: synthesized zero value for "@,
            join(forced, ", "@),
            Seq::empty(),
            forced[i],
        );
    }
}

/// Every starting input of a parameter that is read from JSON ends in an example of it, and
/// where bytes come before the document there is one input whose bytes are short.
pub proof fn starting_inputs_end_in_an_example(example: Seq<char>, paired: bool, i: int)
    ensures
        ({
            let s = example_seeds(example, paired);
            &&& s.len() >= 1
            &&& 0 <= i < s.len() ==> ends_with(s[i], example)
            &&& !paired ==> s == seq![example]
            &&& paired ==> s.last().len() == example.len() + 2 && s.last()[0] == '\u{1}'
            &&& paired && encode_utf8(example).len() <= 127 ==> s.len() == 2 && s[0][0] as nat
                == encode_utf8(example).len() && s[0].len() == 1 + 2 * example.len()
            &&& paired && encode_utf8(example).len() > 127 ==> s.len() == 1
        }),
{
    reveal_strlit("\u{1}A");
    let short = "\u{1}A"@ + example;
    let n = encode_utf8(example).len();
    let long = seq![n as char] + example + example;
    assert(example.subrange(0, example.len() as int) =~= example);
    assert(short.subrange(2, short.len() as int) =~= example);
    assert(long.subrange(1 + example.len() as int, long.len() as int) =~= example);
}

/// The module of the harness lies below that of the target.
pub proof fn the_harness_lies_below_the_target(module: Seq<char>)
    ensures
        starts_with(harness_module(module), trim_end_char(module, '/')),
        ends_with(harness_module(module), "bhfharness"@),
        trim_end_char(module, '/').len() > 0 ==> ends_with(
            harness_module(module),
            "/bhfharness"@,
        ) && harness_module(module).len() == trim_end_char(module, '/').len() + 11,
{
    reveal_strlit("bhfharness");
    reveal_strlit("/bhfharness");
    let base = trim_end_char(module, '/');
    let all = base + "/bhfharness"@;
    assert(all.subrange(0, base.len() as int) =~= base);
    assert(all.subrange(all.len() - 10, all.len() as int) =~= "bhfharness"@);
    assert(all.subrange(all.len() - 11, all.len() as int) =~= "/bhfharness"@);
    assert("bhfharness"@.subrange(0, 10) =~= "bhfharness"@);
    assert("bhfharness"@.subrange(0, 0) =~= base || base.len() > 0);
}

/// Coverage is taken of the whole module first and of the package alone after it, each time
/// with the harness itself.
pub proof fn coverage_is_taken_widely_first(module: Seq<char>, path: Seq<char>, i: int)
    ensures
        ({
            let s = coverage_scopes(module, path);
            let wide = trim_end_char(module, '/') + "/..."@;
            &&& s.len() == if wide == path {
                1int
            } else {
                2
            }
            &&& starts_with(s[0], wide + ","@)
            &&& s.len() == 2 ==> starts_with(s[1], path + ","@)
            &&& 0 <= i < s.len() ==> ends_with(s[i], ","@ + harness_module(module))
        }),
{
    reveal_strlit(",");
    let wide = trim_end_char(module, '/') + "/..."@;
    let h = harness_module(module);
    let a = wide + ","@ + h;
    let b = path + ","@ + h;
    assert(a.subrange(0, wide.len() as int + 1) =~= wide + ","@);
    assert(b.subrange(0, path.len() as int + 1) =~= path + ","@);
    assert(a.subrange(a.len() - (1 + h.len()), a.len() as int) =~= ","@ + h);
    assert(b.subrange(b.len() - (1 + h.len()), b.len() as int) =~= ","@ + h);
}

/// A package is imported by its module and its directory, with the slashes that Go wants.
pub proof fn packages_are_imported_below_their_module(module: Seq<char>, directory: Seq<char>)
    ensures
        import_path(module, None) == module,
        import_path(module, Some(Seq::empty())) == module,
        directory.len() > 0 ==> starts_with(import_path(module, Some(directory)), module + "/"@),
        directory.len() > 0 && !contains(directory, "\\"@) ==> import_path(
            module,
            Some(directory),
        ) == module + "/"@ + directory,
{
    let rest = replace(directory, "\\"@, "/"@);
    reveal_strlit("/");
    let all = module + "/"@ + rest;
    assert(all.subrange(0, module.len() as int + 1) =~= module + "/"@);
    if !contains(directory, "\\"@) {
        lemma_nothing_to_replace(directory, "\\"@, "/"@);
    }
}

proof fn lemma_nothing_to_replace(s: Seq<char>, from: Seq<char>, to: Seq<char>)
    requires
        !contains(s, from),
    ensures
        replace(s, from, to) == s,
    decreases s.len(),
{
    if from.len() > 0 && s.len() >= from.len() {
        if starts_with(s, from) {
            assert(occurs_at(s, from, 0));
        }
        let rest = s.skip(1);
        if contains(rest, from) {
            let i = choose|i: int| occurs_at(rest, from, i);
            assert(s.subrange(i + 1, i + 1 + from.len()) =~= rest.subrange(i, i + from.len()));
            assert(occurs_at(s, from, i + 1));
        }
        lemma_nothing_to_replace(rest, from, to);
        assert(seq![s[0]] + rest =~= s);
    }
}

/// The version that stands in for a module's is of the major version that its path names,
/// and of no release where it names none.
pub proof fn placeholder_versions_follow_the_path(base: Seq<char>, n: nat)
    requires
        n <= 0xffff_ffff,
    ensures
        n >= 2 ==> placeholder_version(base + "/v"@ + decimal(n)) == "v"@ + decimal(n) + ".0.0"@,
        n < 2 ==> placeholder_version(base + "/v"@ + decimal(n)) == "v0.0.0-incompatible"@,
        !contains(base, "/v"@) ==> placeholder_version(base) == "v0.0.0-incompatible"@,
{
    reveal_strlit("/v");
    let digits = decimal(n);
    let module = base + "/v"@ + digits;
    lemma_decimal_parses(n, 0xffff_ffff);
    let at = base.len() as int;
    assert(module.subrange(at, at + 2) =~= "/v"@);
    assert(occurs_at(module, "/v"@, at));
    assert forall|k: int| at < k implies !occurs_at(module, "/v"@, k) by {
        if occurs_at(module, "/v"@, k) {
            assert(module.subrange(k, k + 2)[0] == module[k]);
            if k == at + 1 {
                assert(module[k] == 'v');
            } else {
                assert(module[k] == digits[k - at - 2]);
            }
        }
    }
    lemma_rfind_from(module, "/v"@, module.len() - 2, at);
    assert(module.skip(at + 2) =~= digits);
    if !contains(base, "/v"@) {
        lemma_rfind_none(base, "/v"@, base.len() - 2);
    }
}

proof fn lemma_rfind_from(s: Seq<char>, p: Seq<char>, from: int, at: int)
    requires
        occurs_at(s, p, at),
        at <= from <= s.len() - p.len(),
        forall|k: int| at < k ==> !occurs_at(s, p, k),
    ensures
        rfind_from(s, p, from) == Some(at),
    decreases from,
{
    if from > at {
        lemma_rfind_from(s, p, from - 1, at);
    }
}

proof fn lemma_rfind_none(s: Seq<char>, p: Seq<char>, from: int)
    requires
        !contains(s, p),
    ensures
        rfind_from(s, p, from) is None,
    decreases from + 1,
{
    if from >= 0 {
        lemma_rfind_none(s, p, from - 1);
    }
}

/// The harness's own module declares itself, requires the target's and takes it from the
/// directory that it lies in.
pub proof fn the_harness_takes_the_target_from_its_directory(module: Seq<char>, root: Seq<char>)
    ensures
        starts_with(go_mod_text(module, root), "module "@ + harness_module(module)),
        contains(
            go_mod_text(module, root),
            "require "@ + module + " "@ + placeholder_version(module) + "\n"@,
        ),
        ends_with(go_mod_text(module, root), "replace "@ + module + " => "@ + root + "\n"@),
{
    let h = "module "@ + harness_module(module);
    let version = placeholder_version(module);
    reveal_strlit("\n\ngo 1.21\n\nrequire ");
    reveal_strlit("require ");
    reveal_strlit("\n\nreplace ");
    reveal_strlit("replace ");
    reveal_strlit("\n");
    let middle = "\n\ngo 1.21\n\nrequire "@;
    let requires_start = middle.len() - 8;
    let before = h + middle.take(requires_start as int);
    let requirement = "require "@ + module + " "@ + version + "\n"@;
    let replacement = "replace "@ + module + " => "@ + root + "\n"@;
    let all = go_mod_text(module, root);
    assert(middle =~= middle.take(requires_start as int) + "require "@);
    assert("\n\nreplace "@ =~= "\n"@ + "\n"@ + "replace "@);
    assert(all =~= before + requirement + ("\n"@ + replacement));
    a_part_is_contained(before, requirement, "\n"@ + replacement);
    assert(all.subrange(0, h.len() as int) =~= h);
    assert(all.subrange(all.len() - replacement.len(), all.len() as int) =~= replacement);
}

/// The overlay puts the lowered file in the place of the module's own.
pub proof fn the_overlay_replaces_the_module_file(go_mod: Seq<char>, lowered: Seq<char>)
    ensures
        contains(
            overlay_text(go_mod, lowered),
            json_string(go_mod) + seq![':'] + json_string(lowered),
        ),
        contains(overlay_text(go_mod, lowered), json_string("Replace"@) + seq![':']),
{
    let inner = seq![(go_mod, json_string(lowered))];
    let inner_text = crate::json::json_object(inner);
    let outer = seq![("Replace"@, inner_text)];
    members_stand_in_their_object(inner, 0);
    members_stand_in_their_object(outer, 0);
    let name = json_string("Replace"@) + seq![':'];
    let member = name + inner_text;
    let all = overlay_text(go_mod, lowered);
    let pair = json_string(go_mod) + seq![':'] + json_string(lowered);
    parts_of_parts_are_contained(name, inner_text, Seq::empty(), pair);
    lemma_contained_in_contained(all, member, pair);
    a_part_is_contained(Seq::empty(), name, inner_text);
    lemma_contained_in_contained(all, member, name);
}

proof fn lemma_contained_in_contained(s: Seq<char>, p: Seq<char>, q: Seq<char>)
    requires
        contains(s, p),
        contains(p, q),
    ensures
        contains(s, q),
{
    let i = choose|i: int| occurs_at(s, p, i);
    let j = choose|j: int| occurs_at(p, q, j);
    assert(s.subrange(i + j, i + j + q.len()) =~= s.subrange(i, i + p.len()).subrange(
        j,
        j + q.len(),
    ));
    assert(occurs_at(s, q, i + j));
}

/// Which lines of a `go.mod` are lowered: one that states the language version, however it
/// is indented, becomes the version that is there; one that pins a toolchain goes; and one
/// that begins with anything else is kept.
pub proof fn only_version_and_toolchain_lines_are_lowered(
    indent: Seq<char>,
    rest: Seq<char>,
    local: Seq<char>,
)
    requires
        forall|i: int| 0 <= i < indent.len() ==> white_space(#[trigger] indent[i]),
    ensures
        rest.len() > 0 && digit(rest[0]) ==> lowered_line(indent + "go "@ + rest, local) == "go "@
            + local + "\n"@,
        lowered_line(indent + "toolchain "@ + rest, local).len() == 0,
        rest.len() > 0 && !white_space(rest[0]) && rest[0] != 'g' && rest[0] != 't'
            ==> lowered_line(indent + rest, local) == indent + rest + "\n"@,
        rest.len() > 0 && !white_space(rest[0]) && !digit(rest[0]) ==> lowered_line(
            indent + "go "@ + rest,
            local,
        ) == indent + "go "@ + rest + "\n"@,
{
    reveal_strlit("go ");
    reveal_strlit("toolchain ");
    let g = "go "@ + rest;
    let t = "toolchain "@ + rest;
    assert(indent + "go "@ + rest =~= indent + g);
    assert(indent + "toolchain "@ + rest =~= indent + t);
    assert(g[0] == 'g' && t[0] == 't');
    lemma_indented(indent, g);
    lemma_indented(indent, t);
    assert(g.subrange(0, 3) =~= "go "@);
    assert(g.skip(3) =~= rest);
    assert(t.subrange(0, 10) =~= "toolchain "@);
    if starts_with(g, "toolchain "@) {
        assert(g.subrange(0, 10)[0] == g[0]);
    }
    if rest.len() > 0 && !white_space(rest[0]) {
        assert(trim_start(rest) == rest);
        lemma_indented(indent, rest);
        if starts_with(rest, "toolchain "@) {
            assert(rest.subrange(0, 10)[0] == rest[0]);
        }
        if starts_with(rest, "go "@) {
            assert(rest.subrange(0, 3)[0] == rest[0]);
        }
    }
}

proof fn lemma_indented(indent: Seq<char>, s: Seq<char>)
    requires
        forall|i: int| 0 <= i < indent.len() ==> white_space(#[trigger] indent[i]),
        s.len() > 0,
        !white_space(s[0]),
    ensures
        trim_start(indent + s) == s,
    decreases indent.len(),
{
    if indent.len() == 0 {
        assert(indent + s =~= s);
    } else {
        let rest = indent.skip(1);
        assert forall|i: int| 0 <= i < rest.len() implies white_space(#[trigger] rest[i]) by {
            assert(rest[i] == indent[i + 1]);
        }
        lemma_indented(rest, s);
        assert((indent + s)[0] == indent[0]);
        assert((indent + s).skip(1) =~= rest + s);
    }
}

/// The module is the one that the first declaring line declares.
pub proof fn the_first_declaration_counts(all: Seq<Seq<char>>)
    ensures
        match first_module(all) {
            Some(module) => exists|i: int|
                0 <= i < all.len() && declared_module(#[trigger] all[i]) == Some(module) && forall|
                    k: int,
                |
                    0 <= k < i ==> declared_module(#[trigger] all[k]) is None,
            None => forall|i: int|
                0 <= i < all.len() ==> declared_module(#[trigger] all[i]) is None,
        },
    decreases all.len(),
{
    if all.len() > 0 {
        let rest = all.skip(1);
        the_first_declaration_counts(rest);
        assert forall|i: int| 0 < i < all.len() implies #[trigger] all[i] == rest[i - 1] by {}
        if let Some(module) = declared_module(all[0]) {
            assert(declared_module(all[0]) == Some(module));
        } else if let Some(module) = first_module(rest) {
            let i = choose|i: int|
                0 <= i < rest.len() && declared_module(#[trigger] rest[i]) == Some(module)
                    && forall|k: int| 0 <= k < i ==> declared_module(#[trigger] rest[k]) is None;
            assert(all[i + 1] == rest[i]);
            assert forall|k: int| 0 <= k < i + 1 implies declared_module(
                #[trigger] all[k],
            ) is None by {
                if k > 0 {
                    assert(all[k] == rest[k - 1]);
                }
            }
        } else {
            assert forall|i: int| 0 <= i < all.len() implies declared_module(
                #[trigger] all[i],
            ) is None by {
                if i > 0 {
                    assert(all[i] == rest[i - 1]);
                }
            }
        }
    }
}

/// A line declares the module that stands behind `module`, whatever white space is around
/// them, and any other line declares none.
pub proof fn a_declaration_names_its_module(name: Seq<char>, line: Seq<char>)
    requires
        name.len() > 0,
        !white_space(name[0]),
        !white_space(name.last()),
    ensures
        declared_module("module "@ + name) == Some(name),
        !starts_with(trim(line), "module "@) ==> declared_module(line) is None,
{
    reveal_strlit("module ");
    let all = "module "@ + name;
    assert(all[0] == 'm' && all.last() == name.last());
    assert(trim(all) == all);
    assert(trim(name) == name);
    assert(all.subrange(0, 7) =~= "module "@);
    assert(all.skip(7) =~= name);
}

/// How a mutation dictionary writes a byte: a printable character stands for itself, but
/// for the quotation mark and the backslash, which get a backslash before them; every other
/// byte is an escape of its own, and one by number reads back as that number.
pub proof fn bytes_are_written_as_they_read(b: u8)
    ensures
        0x20 <= b <= 0x7e && b != 0x22 && b != 0x5c ==> dictionary_byte(b) == seq![b as char],
        b == 0x22 || b == 0x5c ==> dictionary_byte(b) == seq!['\\', b as char],
        b == 0x0a ==> dictionary_byte(b) == seq!['\\', 'n'],
        b == 0x0d ==> dictionary_byte(b) == seq!['\\', 'r'],
        b == 0x09 ==> dictionary_byte(b) == seq!['\\', 't'],
        (b < 0x20 || b > 0x7e) && b != 0x0a && b != 0x0d && b != 0x09 ==> {
            let e = dictionary_byte(b);
            &&& e.len() == 4
            &&& e[0] == '\\' && e[1] == 'x'
            &&& hex_value(e.skip(2)) == b
        },
{
    reveal_strlit("\\\\");
    reveal_strlit("\\\"");
    reveal_strlit("\\n");
    reveal_strlit("\\r");
    reveal_strlit("\\t");
    reveal_strlit("\\x");
    assert("\\\\"@ =~= seq!['\\', 0x5cu8 as char]);
    assert("\\\""@ =~= seq!['\\', 0x22u8 as char]);
    assert("\\n"@ =~= seq!['\\', 'n']);
    assert("\\r"@ =~= seq!['\\', 'r']);
    assert("\\t"@ =~= seq!['\\', 't']);
    reveal_with_fuel(hex_value, 3);
    if (b < 0x20 || b > 0x7e) && b != 0x0a && b != 0x0d && b != 0x09 {
        let e = dictionary_byte(b);
        let hi = crate::text::hex_char(b as nat / 16);
        let lo = crate::text::hex_char(b as nat % 16);
        assert(e.skip(2) =~= seq![hi, lo]);
        assert(seq![hi, lo].drop_last() =~= seq![hi]);
        assert(seq![hi].drop_last() =~= Seq::empty());
        assert(hex_digit_value(hi) == Some(b as nat / 16));
        assert(hex_digit_value(lo) == Some(b as nat % 16));
    }
}

/// An entry of the dictionary stands between quotation marks.
pub proof fn entries_stand_between_quotation_marks(token: Seq<char>)
    ensures
        ({
            let e = dictionary_entry(token);
            &&& e.len() >= 2
            &&& e[0] == '"' && e.last() == '"'
            &&& e.subrange(1, e.len() - 1) == dictionary_bytes(encode_utf8(token))
        }),
{
    let e = dictionary_entry(token);
    assert(e.subrange(1, e.len() - 1) =~= dictionary_bytes(encode_utf8(token)));
}

/// Starting inputs that are written are read back as they were; there are at most sixteen
/// of them, in a file of at most sixty-four kibibytes.
pub proof fn written_starting_inputs_are_read_back(
    tokens: &[String],
    bytes: Vec<u8>,
    path: &str,
    read: &[u8],
    r: Result<Vec<Vec<u8>>, String>,
)
    requires
        call_ensures(
            structured_seed_file,
            (tokens,),
            Ok::<SeedFile, String>(SeedFile::Write { bytes }),
        ),
        read@ == bytes@,
        call_ensures(load_structured_seed_inputs, (path, read), r),
    ensures
        r matches Ok(got) && {
            &&& got@.len() == tokens@.len()
            &&& forall|i: int|
                0 <= i < tokens@.len() ==> (#[trigger] got@[i])@ == encode_utf8(tokens@[i]@)
        },
        0 < tokens@.len() <= 16,
        bytes@.len() <= 65_536,
{
    let all = texts(tokens@);
    assert(bytes@ == crate::go_build::seed_bytes(all));
    let got = r->Ok_0;
    assert(byte_rows(got@) == crate::go_build::encoded(all));
    assert(byte_rows(got@).len() == got@.len());
    assert forall|i: int| 0 <= i < tokens@.len() implies (#[trigger] got@[i])@ == encode_utf8(
        tokens@[i]@,
    ) by {
        assert(byte_rows(got@)[i] == crate::go_build::encoded(all)[i]);
        assert(all[i] == tokens@[i]@);
    }
}

/// Starting inputs are refused where there are too many or they are too large, and written
/// otherwise; without any the file goes.
pub proof fn starting_inputs_are_bounded(tokens: &[String], r: Result<SeedFile, String>)
    requires
        call_ensures(structured_seed_file, (tokens,), r),
    ensures
        r matches Ok(SeedFile::Remove) <==> tokens@.len() == 0,
        tokens@.len() > 16 ==> r is Err,
        r is Err ==> tokens@.len() > 16 || encode_utf8(
            crate::json::json_array(texts(tokens@)),
        ).len() > 65_536,
        r matches Ok(SeedFile::Write { bytes }) ==> bytes@.len() <= 65_536,
{
}

/// What a file of starting inputs gives: each of its texts as bytes, in order, or the reason
/// for which it gives none, with the name of the file in it.
pub proof fn a_file_of_starting_inputs_gives_its_texts(
    path: Seq<char>,
    size: nat,
    parsed: Result<Seq<Seq<char>>, Seq<char>>,
)
    ensures
        match seed_inputs(path, size, parsed) {
            Ok(inputs) => {
                &&& size <= 65_536
                &&& parsed matches Ok(tokens) && tokens.len() <= 16 && inputs.len() == tokens.len()
                    && forall|i: int|
                    0 <= i < tokens.len() ==> #[trigger] inputs[i] == encode_utf8(tokens[i])
            },
            Err(reason) => {
                &&& contains(reason, path)
                &&& size > 65_536 || (parsed matches Err(error) && contains(reason, error)) || (
                parsed matches Ok(tokens) && tokens.len() > 16)
            },
        },
{
    let none = Seq::<char>::empty();
    a_part_is_contained("structured seed file '"@, path, "' exceeds its budget"@);
    a_part_is_contained("structured seed file '"@, path, "' has too many inputs"@);
    a_part_is_contained("parse '"@, path, "': "@);
    if let Err(error) = parsed {
        a_part_is_contained("parse '"@ + path + "': "@, error, none);
        parts_of_parts_are_contained(none, "parse '"@ + path + "': "@, error, path);
    }
}

/// A harness is built if and only if the build ran, succeeded and left its binary; what was
/// made up for it is told. A build that failed is told by its last line, and is skipped
/// where what it printed blames the surroundings.
pub proof fn a_build_is_what_it_left(
    outcome: &BuildOutcome,
    forced: Option<String>,
    r: GoBuildResult,
)
    requires
        call_ensures(build_result, (outcome, forced), r),
    ensures
        r is Built <==> (*outcome matches BuildOutcome::Ran { success, binary, .. } && success
            && binary),
        r matches GoBuildResult::Built { forced: told } ==> told == forced,
        r matches GoBuildResult::Failed { reason, skip } ==> match *outcome {
            BuildOutcome::NotRun { error } => contains(reason@, error@) && !skip,
            BuildOutcome::Ran { stderr, .. } => {
                let all = lines(stderr@);
                let e = stderr@;
                &&& all.len() > 0 ==> ends_with(reason@, all.last())
                &&& contains(e, "cannot find module"@) || contains(e, "missing go.sum"@)
                    || contains(e, "dial tcp"@) || contains(e, "no required module"@) || contains(
                    e,
                    "toolchain not available"@,
                ) || contains(e, "download go1"@) || contains(e, "requires go >="@) <==> skip
            },
        },
{
    if let GoBuildResult::Failed { reason, skip } = r {
        match *outcome {
            BuildOutcome::NotRun { error } => {
                a_part_is_contained("could not run go build: "@, error@, Seq::empty());
            },
            BuildOutcome::Ran { stderr, .. } => {
                let last = crate::go_build::last_line(stderr@);
                let all = "go build failed: "@ + last;
                assert(all.subrange(all.len() - last.len(), all.len() as int) =~= last);
            },
        }
    }
}

/// The functions and the types of a package are those of its files, and of no others.
pub proof fn a_package_is_made_of_its_files(
    files: Seq<GoFile>,
    package: Seq<char>,
    f: GoFunc,
    d: GoDataType,
)
    ensures
        package_functions(files, package).contains(f) <==> exists|i: int|
            0 <= i < files.len() && (#[trigger] files[i]).package@ == package
                && files[i].functions@.contains(f),
        package_types(files, package).contains(d) <==> exists|i: int|
            0 <= i < files.len() && (#[trigger] files[i]).package@ == package
                && files[i].data_types@.contains(d),
    decreases files.len(),
{
    if files.len() > 0 {
        let front = files.drop_last();
        let last = files.last();
        let n = front.len() as int;
        a_package_is_made_of_its_files(front, package, f, d);
        assert(files[n] == last);
        assert forall|i: int| 0 <= i < n implies #[trigger] files[i] == front[i] by {}
        let fs = package_functions(front, package);
        let ds = package_types(front, package);
        lemma_joined_contains(fs, last.functions@, f);
        lemma_joined_contains(ds, last.data_types@, d);
        if fs.contains(f) {
            let i = choose|i: int|
                0 <= i < front.len() && (#[trigger] front[i]).package@ == package
                    && front[i].functions@.contains(f);
            assert(files[i] == front[i]);
        }
        if ds.contains(d) {
            let i = choose|i: int|
                0 <= i < front.len() && (#[trigger] front[i]).package@ == package
                    && front[i].data_types@.contains(d);
            assert(files[i] == front[i]);
        }
        if exists|i: int|
            0 <= i < files.len() && (#[trigger] files[i]).package@ == package
                && files[i].functions@.contains(f) {
            let i = choose|i: int|
                0 <= i < files.len() && (#[trigger] files[i]).package@ == package
                    && files[i].functions@.contains(f);
            if i < n {
                assert(front[i] == files[i]);
            }
        }
        if exists|i: int|
            0 <= i < files.len() && (#[trigger] files[i]).package@ == package
                && files[i].data_types@.contains(d) {
            let i = choose|i: int|
                0 <= i < files.len() && (#[trigger] files[i]).package@ == package
                    && files[i].data_types@.contains(d);
            if i < n {
                assert(front[i] == files[i]);
            }
        }
    }
}

proof fn lemma_joined_contains<T>(a: Seq<T>, b: Seq<T>, x: T)
    ensures
        (a + b).contains(x) <==> a.contains(x) || b.contains(x),
{
    if a.contains(x) {
        let i = choose|i: int| 0 <= i < a.len() && a[i] == x;
        assert((a + b)[i] == x);
    }
    if b.contains(x) {
        let i = choose|i: int| 0 <= i < b.len() && b[i] == x;
        assert((a + b)[a.len() + i] == x);
    }
    if (a + b).contains(x) {
        let i = choose|i: int| 0 <= i < (a + b).len() && (a + b)[i] == x;
        if i < a.len() {
            assert(a[i] == x);
        } else {
            assert(b[i - a.len()] == x);
        }
    }
}

/// A file belongs to a package if its name is that of a Go source and not of a test.
pub proof fn sources_are_told_by_their_names(stem: Seq<char>)
    requires
        stem.len() > 0,
    ensures
        package_source(stem + ".go"@) <==> !ends_with(stem, "_test"@),
        !package_source(stem + "_test.go"@),
        !ends_with(stem, ".go"@) ==> !package_source(stem),
{
    reveal_strlit(".go");
    reveal_strlit("_test.go");
    reveal_strlit("_test");
    let name = stem + ".go"@;
    let test = stem + "_test.go"@;
    assert(name.subrange(name.len() - 3, name.len() as int) =~= ".go"@);
    assert(test.subrange(test.len() - 8, test.len() as int) =~= "_test.go"@);
    assert("_test.go"@ =~= "_test"@ + ".go"@);
    if ends_with(stem, "_test"@) {
        assert(name.subrange(name.len() - 8, name.len() as int) =~= stem.subrange(
            stem.len() - 5,
            stem.len() as int,
        ) + ".go"@);
    }
    if ends_with(name, "_test.go"@) {
        assert(stem.subrange(stem.len() - 5, stem.len() as int) =~= name.subrange(
            name.len() - 8,
            name.len() as int,
        ).take(5));
        assert("_test.go"@.take(5) =~= "_test"@);
    }
}

/// The program of the harness imports the package under test and holds the statements of
/// the call.
pub proof fn the_program_holds_the_call(import: &str, body: &str, r: String)
    requires
        call_ensures(generate_main_go, (import, body), r),
    ensures
        contains(r@, import@),
        contains(r@, body@),
{
    let head = crate::go_template::HARNESS_HEAD@;
    let middle = crate::go_template::HARNESS_MIDDLE@;
    let tail = crate::go_template::HARNESS_TAIL@;
    let none = Seq::<char>::empty();
    a_part_is_contained(head, import@, middle);
    parts_of_parts_are_contained(none, head + import@ + middle, body@, import@);
    parts_of_parts_are_contained(none, head + import@ + middle + body@, tail, import@);
    a_part_is_contained(head + import@ + middle, body@, tail);
}

/// A document is read from the whole input, but where it comes behind bytes: it is then the
/// rest of it.
pub proof fn documents_are_read_from_what_is_left(
    parts: CallParts,
    f: GoFunc,
    i: int,
    ty: Seq<char>,
    example: Seq<char>,
)
    requires
        0 <= i < f.params@.len(),
    ensures
        ({
            let n = decimal(i as nat);
            let behind = f.params@.len() == 2 && i == 1 && trim(f.params@[0].ty@) == "[]byte"@;
            let next = bind_json(parts, f, i, ty, example);
            &&& behind ==> contains(next.lines, "json.Unmarshal(c.rest(), &a"@ + n)
            &&& !behind ==> contains(next.lines, "json.Unmarshal(data, &a"@ + n)
            &&& starts_with(next.lines, parts.lines)
            &&& next.args == parts.args.push("a"@ + n)
        }),
{
    let n = decimal(i as nat);
    let behind = crate::go_call::behind_bytes(f, i);
    let source = if behind {
        "c.rest()"@
    } else {
        "data"@
    };
    let declared = "\tvar a"@ + n + " "@ + ty + "\n"@;
    let tail = "); err != nil { return }\n"@;
    let read = "\tif err := json.Unmarshal("@ + source + ", &a"@ + n + tail;
    let next = bind_json(parts, f, i, ty, example);
    assert(next.lines == parts.lines + declared + read);
    reveal_strlit("\tif err := json.Unmarshal(");
    reveal_strlit("\tif err := ");
    reveal_strlit("json.Unmarshal(c.rest(), &a");
    reveal_strlit("json.Unmarshal(data, &a");
    reveal_strlit("c.rest()");
    reveal_strlit("data");
    reveal_strlit(", &a");
    let call = if behind {
        "json.Unmarshal(c.rest(), &a"@
    } else {
        "json.Unmarshal(data, &a"@
    };
    assert("\tif err := json.Unmarshal("@ + source + ", &a"@ =~= "\tif err := "@ + call);
    assert(read =~= "\tif err := "@ + (call + n) + tail);
    a_part_is_contained("\tif err := "@, call + n, tail);
    parts_of_parts_are_contained(parts.lines + declared, read, Seq::empty(), call + n);
    assert(next.lines.subrange(0, parts.lines.len() as int) =~= parts.lines);
}

/// The first starting input behind bytes has the example as its bytes too.
pub proof fn bytes_before_an_example_are_the_example(example: Seq<char>)
    requires
        encode_utf8(example).len() <= 127,
    ensures
        example_seeds(example, true)[0].subrange(1, 1 + example.len() as int) == example,
{
    let long = seq![encode_utf8(example).len() as char] + example + example;
    assert(long.subrange(1, 1 + example.len() as int) =~= example);
}

/// The language version of a toolchain is its first two numbers, whatever follows them.
pub proof fn versions_are_the_first_two_numbers(a: Seq<char>, b: Seq<char>, patch: Seq<char>)
    requires
        a.len() > 0 && all_digits(a),
        b.len() > 0 && all_digits(b),
        patch.len() > 0 && all_digits(patch),
    ensures
        go_minor("go"@ + a + "."@ + b) == Some(a + "."@ + b),
        go_minor("go"@ + a + "."@ + b + "."@ + patch) == Some(a + "."@ + b),
        go_minor("devel "@ + a) is None,
{
    reveal_strlit("go");
    reveal_strlit(".");
    reveal_strlit("devel ");
    let empty = Seq::<char>::empty();
    assert(digit(a[0]) && digit(b[b.len() - 1]) && digit(patch[patch.len() - 1]));
    lemma_no_dots(a);
    lemma_no_dots(b);
    lemma_no_dots(patch);
    lemma_split_append(empty, a, '.');
    let head = (empty + a).push('.');
    assert(empty + a =~= a);
    lemma_split_append(head, b, '.');
    let two = head + b;
    assert(empty + b =~= b);
    assert(split_on(two, '.') =~= seq![a, b]);
    let three = two.push('.');
    lemma_split_append(three, patch, '.');
    assert(split_on(three, '.') =~= seq![a, b, empty]);
    assert(empty + patch =~= patch);
    assert(split_on(three + patch, '.') =~= seq![a, b, patch]);
    lemma_all_leading(b);
    let short = "go"@ + a + "."@ + b;
    assert(short[0] == 'g' && short.last() == b.last());
    assert(trim(short) == short);
    assert(short.subrange(0, 2) =~= "go"@);
    assert(short.skip(2) =~= two);
    let long = "go"@ + a + "."@ + b + "."@ + patch;
    assert(long[0] == 'g' && long.last() == patch.last());
    assert(trim(long) == long);
    assert(long.subrange(0, 2) =~= "go"@);
    assert(long.skip(2) =~= three + patch);
    let devel = "devel "@ + a;
    assert(devel[0] == 'd' && devel.last() == a.last());
    assert(digit(a[a.len() - 1]));
    assert(trim(devel) == devel);
    if starts_with(devel, "go"@) {
        assert(devel.subrange(0, 2)[0] == devel[0]);
    }
}

proof fn lemma_no_dots(s: Seq<char>)
    requires
        all_digits(s),
    ensures
        !s.contains('.'),
{
    if s.contains('.') {
        let i = choose|i: int| 0 <= i < s.len() && s[i] == '.';
        assert(digit(s[i]));
    }
}

proof fn lemma_all_leading(s: Seq<char>)
    requires
        all_digits(s),
    ensures
        leading_digits(s) == s,
    decreases s.len(),
{
    if s.len() > 0 {
        assert(digit(s[0]));
        lemma_all_leading(s.skip(1));
        assert(seq![s[0]] + s.skip(1) =~= s);
    }
}

/// The functions of a package are those of its files, and those of the target's own file
/// where its files give none.
pub proof fn a_target_has_at_least_its_own_functions(
    package: &str,
    files: Vec<GoFile>,
    own: Vec<GoFunc>,
    r: (Vec<GoFunc>, Vec<GoDataType>),
)
    requires
        call_ensures(merge_package, (package, files, own), r),
    ensures
        own@.len() > 0 ==> r.0@.len() > 0,
        (forall|i: int|
            0 <= i < files@.len() && (#[trigger] files@[i]).package@ == package@
                ==> files@[i].functions@.len() == 0) ==> r.0@ == own@,
        forall|f: GoFunc| #[trigger]
            r.0@.contains(f) ==> own@.contains(f) || package_functions(
                files@,
                package@,
            ).contains(f),
        r.1@ == package_types(files@, package@),
{
    if forall|i: int|
        0 <= i < files@.len() && (#[trigger] files@[i]).package@ == package@
            ==> files@[i].functions@.len() == 0 {
        lemma_no_functions(files@, package@);
    }
}

proof fn lemma_no_functions(files: Seq<GoFile>, package: Seq<char>)
    requires
        forall|i: int|
            0 <= i < files.len() && (#[trigger] files[i]).package@ == package
                ==> files[i].functions@.len() == 0,
    ensures
        package_functions(files, package).len() == 0,
    decreases files.len(),
{
    if files.len() > 0 {
        let front = files.drop_last();
        assert forall|i: int|
            0 <= i < front.len() && (#[trigger] front[i]).package@ == package implies front[i].functions@.len()
            == 0 by {
            assert(front[i] == files[i]);
        }
        lemma_no_functions(front, package);
        assert(files[files.len() - 1] == files.last());
    }
}

/// Adding tokens to a dictionary keeps what it holds where it stands.
pub proof fn dictionaries_are_only_added_to(contents: Seq<char>, tokens: Seq<Seq<char>>)
    ensures
        starts_with(with_tokens(contents, tokens), contents),
        tokens.len() == 0 ==> with_tokens(contents, tokens) == contents,
    decreases tokens.len(),
{
    if tokens.len() == 0 {
        assert(contents.subrange(0, contents.len() as int) =~= contents);
    } else {
        let before = with_tokens(contents, tokens.drop_last());
        let after = with_tokens(contents, tokens);
        dictionaries_are_only_added_to(contents, tokens.drop_last());
        assert(before.subrange(0, contents.len() as int) == contents);
        assert(after.len() >= before.len());
        assert(after.subrange(0, before.len() as int) =~= before);
        assert(after.subrange(0, contents.len() as int) =~= after.subrange(
            0,
            before.len() as int,
        ).subrange(0, contents.len() as int));
    }
}

/// A parameter is refused only where it is not decoded and cannot be made either, and the
/// refusal names its type.
pub proof fn refusals_name_the_type(
    parts: CallParts,
    f: GoFunc,
    i: int,
    data_types: Seq<GoDataType>,
    methods: Seq<GoFunc>,
    force: bool,
)
    requires
        0 <= i < f.params@.len(),
    ensures
        add_argument(parts, f, i, data_types, methods, force) matches Err(reason) ==> {
            &&& contains(reason, f.params@[i].ty@)
            &&& decode_param(f, i, i + 1 == f.params@.len()) is None
            &&& force ==> visible_type(f.params@[i].ty@) is None
            &&& starts_with(reason, "forced: "@) <==> force
        },
{
    let ty = f.params@[i].ty@;
    let a = "forced: Go parameter type `"@;
    let b = "cannot construct JSON seed for Go type `"@;
    let c = "unsupported Go parameter type `"@;
    let end =
        "` is not nameable from the harness package (unexported, generic, variadic or an inline literal); skipped cleanly"@;
    a_part_is_contained(a, ty, end);
    a_part_is_contained(b, ty, "`"@);
    a_part_is_contained(c, ty, "` (skipped)"@);
    reveal_strlit("forced: Go parameter type `");
    reveal_strlit("forced: ");
    reveal_strlit("cannot construct JSON seed for Go type `");
    reveal_strlit("unsupported Go parameter type `");
    assert((a + ty + end).subrange(0, 8) =~= "forced: "@);
    if starts_with(b + ty + "`"@, "forced: "@) {
        assert((b + ty + "`"@).subrange(0, 8)[0] == 'c');
    }
    if starts_with(c + ty + "` (skipped)"@, "forced: "@) {
        assert((c + ty + "` (skipped)"@).subrange(0, 8)[0] == 'u');
    }
}

} // verus!
