use bhf::go_build::{
    append_json_seed_dictionary, build_result, compute_import_path, coverage_package_patterns,
    escape_afl_dictionary_token, find_target, harness_go_mod, harness_module_path,
    inputs_of_tokens, is_package_source, load_structured_seed_inputs, lower_go_mod_directive,
    merge_package, module_path_of, overlay_json, parse_go_minor, placeholder_module_version,
    plan_go_harness, seed_file_readable, structured_seed_file, BuildAction, BuildOutcome, GoBuild,
    GoBuildResult, GoFile, GoModule, SeedFile,
};
use bhf::go_call::{
    decode_for_param, decode_for_type, find_go_constructor, generate_call,
    generate_call_with_data_types, receiver_synthesis, GoCall,
};
use bhf::go_template::generate_main_go;
use bhf::go_types::{
    go_json_example, harness_visible_go_type, is_plain_json_parameter, GoDataType, GoField, GoFunc,
    GoParam,
};

fn func(name: &str, params: &[(&str, &str)], method: bool) -> GoFunc {
    GoFunc {
        name: name.to_owned(),
        line: 1,
        package: "p".to_owned(),
        is_exported: true,
        is_method: method,
        receiver_type: None,
        params: params
            .iter()
            .map(|(n, t)| GoParam {
                name: (*n).to_owned(),
                ty: (*t).to_owned(),
            })
            .collect(),
        returns: None,
    }
}

fn plain(f: &GoFunc) -> Result<GoCall, String> {
    generate_call(f, None, None, false)
}

fn field(json_name: &str, ty: &str) -> GoField {
    GoField {
        ty: ty.to_owned(),
        json_name: json_name.to_owned(),
        is_exported: true,
    }
}

fn data_type(name: &str, fields: Vec<GoField>) -> GoDataType {
    GoDataType {
        name: name.to_owned(),
        fields: Some(fields),
    }
}

fn object(members: &[(&str, serde_json::Value)]) -> serde_json::Value {
    let mut map = serde_json::Map::new();
    for (key, value) in members {
        map.insert((*key).to_owned(), value.clone());
    }
    serde_json::Value::Object(map)
}


#[test]
fn generates_typed_call_for_bytes() {
    let call = plain(&func("ParseRecord", &[("data", "[]byte")], false)).unwrap();
    assert!(call.body.contains("a0 := c.rest()"));
    assert!(call
        .body
        .contains("bhfMarkTargetEntry()\n\ttgt.ParseRecord(a0)"));
    assert!(call.body.contains("tgt.ParseRecord(a0)"));
    assert!(call.forced_detail.is_none(), "nothing synthesized");
}

#[test]
fn typed_params_decode_by_type() {
    let call = plain(&func("Decode", &[("s", "string"), ("n", "int")], false)).unwrap();
    assert!(call.body.contains("a0 := string(c.bytesField())"));
    assert!(call.body.contains("a1 := int(c.i64())"));
    assert!(call.body.contains("tgt.Decode(a0, a1)"));
}

#[test]
fn plain_map_parameter_is_json_driven() {
    let call = plain(&func("F", &[("m", "map[string]int")], false)).unwrap();
    assert!(call.body.contains("json.Unmarshal(data, &a0)"));
    assert_eq!(call.json_seed_tokens, vec![r#"{"k":1}"#]);
    assert_eq!(call.structured_seed_inputs, vec![r#"{"k":1}"#]);
}

#[test]
fn raw_bytes_and_json_map_get_independent_seed_fields() {
    let call = plain(&func(
        "Render",
        &[("data", "[]byte"), ("opts", "map[string]int")],
        false,
    ))
    .unwrap();
    assert!(call.body.contains("a0 := c.bytesField()"));
    assert!(call.body.contains("json.Unmarshal(c.rest(), &a1)"));
    for seed in &call.structured_seed_inputs {
        let bytes = seed.as_bytes();
        let raw_len = bytes[0] as usize;
        let json = &bytes[1 + raw_len..];
        assert_eq!(
            serde_json::from_slice::<serde_json::Value>(json).unwrap(),
            object(&[("k", serde_json::Value::from(1))])
        );
    }
    assert!(call
        .structured_seed_inputs
        .iter()
        .any(|seed| seed.as_bytes()[1] == b'{'));
}

#[test]
fn plain_exported_struct_is_json_driven_with_a_valid_dictionary_seed() {
    let types = vec![
        data_type("Child", vec![field("name", "string")]),
        data_type(
            "Request",
            vec![
                field("magic", "string"),
                field("count", "int"),
                field("child", "*Child"),
                field("values", "[]int"),
                field("labels", "map[string]string"),
            ],
        ),
    ];
    let methods = vec![func("ParseRequest", &[("req", "*Request")], false)];
    let target = methods
        .iter()
        .find(|method| method.name == "ParseRequest")
        .unwrap();
    let call = generate_call_with_data_types(target, None, None, &types, &methods, false)
        .expect("simple data structs have a safe JSON decoder");
    assert!(call.body.contains("var a0 *tgt.Request"), "{}", call.body);
    assert!(
        call.body
            .contains("json.Unmarshal(data, &a0); err != nil { return }"),
        "malformed JSON must return before calling the target: {}",
        call.body
    );
    assert!(
        call.body.find("json.Unmarshal").unwrap() < call.body.find("tgt.ParseRequest").unwrap()
    );
    let text = |s: &str| serde_json::Value::from(s);
    assert_eq!(
        serde_json::from_str::<serde_json::Value>(&call.json_seed_tokens[0]).unwrap(),
        object(&[
            ("magic", text("A")),
            ("count", serde_json::Value::from(1)),
            ("child", object(&[("name", text("A"))])),
            ("values", serde_json::Value::from(vec![1])),
            ("labels", object(&[("k", text("A"))])),
        ])
    );
    assert!(call.forced_detail.is_none());
}

#[test]
fn structured_go_examples_are_loaded_as_starting_inputs() {
    let examples = vec![r#"{"wire_code":1}"#.to_owned()];
    let bytes = match structured_seed_file(&examples).unwrap() {
        SeedFile::Write { bytes } => bytes,
        SeedFile::Remove => panic!("there is an example to write"),
    };
    assert_eq!(
        load_structured_seed_inputs("seeds.json", &bytes).unwrap(),
        vec![br#"{"wire_code":1}"#.to_vec()]
    );
    assert_eq!(structured_seed_file(&[]).unwrap(), SeedFile::Remove);
}

#[test]
fn data_struct_decoder_rejects_private_state_custom_json_and_unknown_handles() {
    let mut hidden = field("hidden", "int");
    hidden.is_exported = false;
    let private_types = vec![data_type("Request", vec![field("name", "string"), hidden])];
    let target = func("Parse", &[("request", "*Request")], false);
    assert!(
        generate_call_with_data_types(&target, None, None, &private_types, &[], false).is_err()
    );

    let custom_types = vec![data_type("Request", vec![field("name", "string")])];
    let mut unmarshal = func("UnmarshalJSON", &[("", "[]byte")], true);
    unmarshal.receiver_type = Some("*Request".to_owned());
    unmarshal.returns = Some("error".to_owned());
    assert!(generate_call_with_data_types(
        &target,
        None,
        None,
        &custom_types,
        &[unmarshal.clone()],
        false,
    )
    .is_err());

    let logger = func("Parse", &[("logger", "*zap.Logger")], false);
    assert!(generate_call_with_data_types(&logger, None, None, &[], &[], false).is_err());

    let mut text = unmarshal;
    text.name = "UnmarshalText".to_owned();
    assert!(generate_call_with_data_types(
        &target,
        None,
        None,
        &custom_types,
        &[text],
        false,
    )
    .is_err());
    assert!(
        generate_call_with_data_types(&target, None, None, &custom_types, &[], false).is_ok(),
        "without a decoder of its own the type is plain data"
    );
}

#[test]
fn data_decoder_allows_only_plain_recursively_proven_field_types() {
    let safe = vec![
        data_type("Child", vec![field("name", "string")]),
        data_type(
            "Request",
            vec![field("child", "*Child"), field("labels", "map[string][]int")],
        ),
    ];
    assert!(is_plain_json_parameter(
        "*Request",
        &safe,
        &[],
        &mut Vec::new()
    ));

    for unsafe_type in ["interface{}", "chan int", "func()", "map[int]string"] {
        let types = vec![data_type("Request", vec![field("value", unsafe_type)])];
        assert!(
            !is_plain_json_parameter("Request", &types, &[], &mut Vec::new()),
            "unsafe shape unexpectedly accepted: {unsafe_type}"
        );
    }
    let embedded = vec![GoDataType {
        name: "Request".to_owned(),
        fields: None,
    }];
    assert!(
        !is_plain_json_parameter("Request", &embedded, &[], &mut Vec::new()),
        "a type whose fields are not known is not plain"
    );
}

#[test]
fn interface_param_synthesized_as_unmarshal_target() {
    // `Unmarshal(in []byte, out interface{})` — the canonical Go parser API — is
    // now fuzzable: the interface{} out-param becomes a fresh *interface{}.
    let call = plain(&func(
        "Unmarshal",
        &[("in", "[]byte"), ("out", "interface{}")],
        false,
    ))
    .unwrap();
    assert!(call.body.contains("a0 := c.bytesField()"));
    assert!(call.body.contains("a1 := new(interface{})"));
    assert!(call.body.contains("tgt.Unmarshal(a0, a1)"));
    // `any` (the Go 1.18 alias) works too.
    let anycall = plain(&func("Decode", &[("data", "[]byte"), ("v", "any")], false)).unwrap();
    assert!(anycall.body.contains("a1 := new(interface{})"));
}

#[test]
fn forced_undrivable_param_becomes_its_zero_value() {
    // The largest residual Go blocker: a parameter no decoder covers. Unforced it
    // is still a clean skip (asserted above); forced it is the type's zero value,
    // qualified into the harness package.
    let target = func(
        "Render",
        &[("data", "[]byte"), ("opts", "map[string]Option")],
        false,
    );
    let call = generate_call(&target, None, None, true).unwrap();
    assert!(
        call.body.contains("var z1 map[string]tgt.Option"),
        "{}",
        call.body
    );
    assert!(call.body.contains("a1 := z1"), "{}", call.body);
    assert!(call.body.contains("tgt.Render(a0, a1)"), "{}", call.body);
    let detail = call.forced_detail.expect("forced params are recorded");
    assert!(detail.contains("opts"), "{detail}");
}

#[test]
fn forced_method_is_called_on_an_addressable_zero_receiver() {
    // 23 of the residual Go targets are methods. A nil `*T` would panic the moment
    // the method touched a field — our fault — so the receiver is a zero VALUE
    // whose address satisfies both a pointer and a value receiver.
    let mut method = func("Feed", &[("data", "[]byte")], true);
    method.receiver_type = Some("*Decoder".to_owned());
    assert!(
        receiver_synthesis(&method, &[], false, false).is_err(),
        "with no constructor to find, unforced is still a clean skip"
    );
    let receiver = receiver_synthesis(&method, &[], false, true).unwrap().unwrap();
    let call = generate_call(&method, Some(&receiver), None, true).unwrap();
    assert!(call.body.contains("var recv tgt.Decoder"), "{}", call.body);
    assert!(call.body.contains("(&recv).Feed(a0)"), "{}", call.body);
    assert!(
        call.forced_detail.is_some(),
        "receiver is recorded as forced"
    );
}

#[test]
fn a_sibling_constructor_gives_a_real_receiver_without_force() {
    let mut method = func("Feed", &[("data", "[]byte")], true);
    method.receiver_type = Some("*Decoder".to_owned());

    let mut ctor = func("NewDecoder", &[], false);
    ctor.returns = Some("*Decoder".to_owned());
    let receiver = receiver_synthesis(&method, std::slice::from_ref(&ctor), false, false)
        .expect("a constructor makes this drivable unforced")
        .expect("a method has a receiver");
    assert!(receiver.forced.is_none(), "a real value is not forced");
    let call = generate_call(&method, Some(&receiver), None, false).unwrap();
    assert!(
        call.body.contains("recv := tgt.NewDecoder()"),
        "{}",
        call.body
    );
    // Already a pointer: no extra address-of.
    assert!(call.body.contains("recv.Feed(a0)"), "{}", call.body);
    assert!(call.forced_detail.is_none(), "{:?}", call.forced_detail);

    // A VALUE-returning constructor needs its address so a pointer-receiver
    // method is still callable.
    let mut by_value = func("NewDecoder", &[], false);
    by_value.returns = Some("Decoder".to_owned());
    let receiver = receiver_synthesis(&method, std::slice::from_ref(&by_value), false, false)
        .unwrap()
        .unwrap();
    let call = generate_call(&method, Some(&receiver), None, false).unwrap();
    assert!(call.body.contains("(&recv).Feed(a0)"), "{}", call.body);

    // Only the `New…` convention counts, and only for the right type: an
    // arbitrary no-arg function returning it may touch the world.
    let mut opener = func("OpenDecoder", &[], false);
    opener.returns = Some("*Decoder".to_owned());
    let mut wrong_type = func("NewEncoder", &[], false);
    wrong_type.returns = Some("*Encoder".to_owned());
    for sibling in [opener, wrong_type] {
        assert!(
            receiver_synthesis(&method, std::slice::from_ref(&sibling), false, false).is_err(),
            "must not be treated as a constructor for Decoder"
        );
    }
}

#[test]
fn forced_receiver_refuses_what_the_harness_cannot_name() {
    for receiver_type in ["*decoder", "Tree[T]", "other.Decoder", ""] {
        let mut method = func("Feed", &[("data", "[]byte")], true);
        method.receiver_type = Some(receiver_type.to_owned());
        assert!(
            receiver_synthesis(&method, &[], false, true).is_err(),
            "`{receiver_type}` is not nameable from the harness package"
        );
    }
}

#[test]
fn stateful_argument_feeder_initializes_receiver_before_terminal_call() {
    let mut execute = func("Execute", &[], true);
    execute.receiver_type = Some("*Command".to_owned());
    let mut set_args = func("SetArgs", &[("args", "[]string")], true);
    set_args.receiver_type = Some("*Command".to_owned());
    let siblings = vec![set_args.clone(), execute.clone()];

    let receiver = receiver_synthesis(&execute, &siblings, true, false)
        .expect("public state feeder makes the receiver constructible")
        .expect("method receiver");
    assert!(receiver.forced.is_none());
    let call = generate_call(&execute, Some(&receiver), Some(&set_args), false).unwrap();
    assert!(call.body.contains("var recv tgt.Command"), "{}", call.body);
    assert!(
        call.body.contains("stateInput := c.args()"),
        "{}",
        call.body
    );
    assert!(
        call.body.contains("(&recv).SetArgs(stateInput)"),
        "{}",
        call.body
    );
    assert!(call
        .body
        .contains("bhfMarkTargetEntry()\n\t(&recv).Execute()"));
    assert!(call.forced_detail.is_none());
}

#[test]
fn harness_visible_type_qualifies_only_what_it_can_reach() {
    assert_eq!(
        harness_visible_go_type("[]Record").as_deref(),
        Some("[]tgt.Record")
    );
    assert_eq!(
        harness_visible_go_type("map[string]int").as_deref(),
        Some("map[string]int")
    );
    assert_eq!(
        harness_visible_go_type("*Node").as_deref(),
        Some("*tgt.Node")
    );
    assert_eq!(
        harness_visible_go_type("io.Writer").as_deref(),
        Some("io.Writer")
    );
    assert_eq!(
        harness_visible_go_type("chan int").as_deref(),
        Some("chan int")
    );
    for unreachable in [
        "config",          // unexported: inaccessible from any other package
        "[]config",        // ... including inside a composite
        "net.Conn",        // a package the harness does not import
        "Tree[string]",    // generic instantiation
        "...string",       // variadic
        "struct{a int}",   // inline literal: `a` is a field, not a type
        "func(r int) int", // inline literal: `r` is a parameter, not a type
        "interface{ Read() }",
    ] {
        assert_eq!(harness_visible_go_type(unreachable), None, "{unreachable}");
    }
}

#[test]
fn import_path_computation() {
    assert_eq!(
        compute_import_path("github.com/x/proj", Some("internal/parser")),
        "github.com/x/proj/internal/parser"
    );
    assert_eq!(
        compute_import_path("github.com/x/proj", Some("")),
        "github.com/x/proj"
    );
    assert_eq!(compute_import_path("github.com/x/proj", None), "github.com/x/proj");
}

#[test]
fn coverage_falls_back_from_module_graph_to_exact_target_package() {
    assert_eq!(
        coverage_package_patterns(
            "github.com/example/project",
            "github.com/example/project/internal/parser"
        ),
        vec![
            "github.com/example/project/...,github.com/example/project/bhfharness".to_owned(),
            "github.com/example/project/internal/parser,github.com/example/project/bhfharness"
                .to_owned(),
        ]
    );
    assert_eq!(
        coverage_package_patterns("github.com/example/project", "github.com/example/project"),
        vec![
            "github.com/example/project/...,github.com/example/project/bhfharness".to_owned(),
            "github.com/example/project,github.com/example/project/bhfharness".to_owned(),
        ]
    );
}

#[test]
fn parse_go_minor_extracts_major_minor() {
    assert_eq!(parse_go_minor("go1.22.2").as_deref(), Some("1.22"));
    assert_eq!(parse_go_minor("go1.24\n").as_deref(), Some("1.24"));
    assert_eq!(parse_go_minor("  go1.21  ").as_deref(), Some("1.21"));
    // Toolchains with a pre-release minor keep the numeric prefix.
    assert_eq!(parse_go_minor("go1.25rc1").as_deref(), Some("1.25"));
    assert_eq!(parse_go_minor("devel go1.99"), None);
    assert_eq!(parse_go_minor(""), None);
}

#[test]
fn lower_go_mod_directive_lowers_go_and_drops_toolchain() {
    // A module declaring a too-new directive (+ a toolchain pin) is rewritten
    // to the local version so the build isn't gated; everything else is kept.
    let src = "module github.com/x/y\n\ngo 1.24\n\ntoolchain go1.24.0\n\nrequire github.com/z/w v1.2.3\n";
    let out = lower_go_mod_directive(src, "1.22");
    assert!(out.contains("go 1.22\n"), "go directive lowered: {out}");
    assert!(
        !out.contains("1.24"),
        "no 1.24 directive/toolchain remains: {out}"
    );
    assert!(!out.contains("toolchain "), "toolchain pin dropped: {out}");
    assert!(out.contains("module github.com/x/y"), "module line kept");
    assert!(
        out.contains("require github.com/z/w v1.2.3"),
        "require kept"
    );
}

#[test]
fn lower_go_mod_directive_leaves_non_version_go_lines() {
    // `go` appearing as a require path segment or comment must not be touched;
    // only a `go <digit>` directive is rewritten.
    let src = "module m\ngo 1.23\nrequire golang.org/x/text v0.3.0\n";
    let out = lower_go_mod_directive(src, "1.22");
    assert!(out.contains("go 1.22\n"));
    assert!(out.contains("require golang.org/x/text v0.3.0"));
}

#[test]
fn main_go_carries_framed_marker() {
    let m = generate_main_go("x/y", "\ttgt.F()\n");
    assert!(m.contains("BHF_FRAMED"));
    assert!(m.contains("tgt \"x/y\""));
}

#[test]
fn main_go_carries_real_edge_coverage() {
    // The Go lane is no longer black-box: the harness reads Go's -cover atomic
    // counters and folds executed blocks into the shared BHF_COV_SHM map,
    // clearing+recording around each framed input.
    let m = generate_main_go("x/y", "\ttgt.F()\n");
    assert!(m.contains("runtime/coverage"), "imports runtime/coverage");
    assert!(m.contains("BHF_COV_SHM"), "maps the shared edge map");
    assert!(m.contains("WriteCounters"), "reads per-input counters");
    // The framed loop hooks coverage around runOne: clear before, record after.
    // Match the call SEQUENCE directly (whitespace-normalized) so the function
    // DEFINITIONS earlier in the file can't satisfy an index-ordering check.
    let calls: String = m.split_whitespace().collect::<Vec<_>>().join(" ");
    assert!(
        calls.contains("bhfCovClear() runOne(buf) bhfCovRecord()"),
        "framed loop must clear -> runOne -> record in order"
    );
}

#[test]
fn a_context_parameter_is_the_background_context_not_a_refusal() {
    assert_eq!(
        decode_for_type("context.Context", false).as_deref(),
        Some("c.ctx()")
    );
    assert_eq!(
        decode_for_type("context.Context", true).as_deref(),
        Some("c.ctx()")
    );
    // The helper it calls exists, returns the non-nil background context,
    // and keeps the import referenced so an unrelated harness still compiles.
    let main_go = generate_main_go("x/y", "\ttgt.F()\n");
    assert!(
        main_go.contains("func (c *cur) ctx() context.Context"),
        "{main_go}"
    );
    assert!(main_go.contains("context.Background()"), "{main_go}");
    assert!(
        main_go.contains("\"context\""),
        "the import must be present: {main_go}"
    );
}

#[test]
fn the_harness_module_is_a_child_of_the_module_under_test() {
    assert_eq!(
        harness_module_path("github.com/santifer/career-ops/dashboard"),
        "github.com/santifer/career-ops/dashboard/bhfharness"
    );
    // A major-version suffix is part of the path and stays put.
    assert_eq!(
        harness_module_path("github.com/caddyserver/caddy/v2"),
        "github.com/caddyserver/caddy/v2/bhfharness"
    );
    // A trailing slash or an empty module path must still yield a legal name.
    assert_eq!(
        harness_module_path("example.com/x/"),
        "example.com/x/bhfharness"
    );
    assert_eq!(harness_module_path(""), "bhfharness");
}

#[test]
fn a_major_version_suffixed_module_is_required_at_that_major() {
    assert_eq!(
        placeholder_module_version("github.com/caddyserver/caddy/v2"),
        "v2.0.0"
    );
    assert_eq!(
        placeholder_module_version("go.etcd.io/etcd/server/v3"),
        "v3.0.0"
    );
    assert_eq!(placeholder_module_version("example.com/x/v10"), "v10.0.0");
    // No suffix, `/v1`, and a path whose last segment merely STARTS with `v`
    // keep the v0 spelling — Go wants exactly that for an unsuffixed module,
    // and `v2beta`/`vendor` are not major-version suffixes.
    for path in [
        "github.com/mhsanaei/3x-ui",
        "example.com/x/v1",
        "example.com/x/v2beta",
        "example.com/x/vendor",
        "singleword",
    ] {
        assert_eq!(
            placeholder_module_version(path),
            "v0.0.0-incompatible",
            "{path}"
        );
    }
}

#[test]
fn arguments_are_split_at_nul_bytes() {
    let m = generate_main_go("x/y", "\ttgt.F()\n");
    assert!(m.contains(r#"strings.Split(string(c.rest()), "\x00")"#), "{m}");
}

#[test]
fn examples_are_json_of_the_type() {
    let types = vec![data_type("Child", vec![field("name", "string"), field("n", "*int")])];
    let example = |ty: &str| go_json_example(ty, &types, &mut Vec::new());
    assert_eq!(example("Child").as_deref(), Some(r#"{"n":1,"name":"A"}"#));
    assert_eq!(example("[]bool").as_deref(), Some("[true]"));
    assert_eq!(example("Missing").as_deref(), Some("null"));
    assert_eq!(example("map[string]float64").as_deref(), Some(r#"{"k":1.0}"#));
    let opaque = vec![GoDataType { name: "Opaque".to_owned(), fields: None }];
    assert_eq!(go_json_example("Opaque", &opaque, &mut Vec::new()), None);
}

#[test]
fn parameters_decode_by_their_place() {
    let f = func("F", &[("a", "[]byte"), ("b", "string")], false);
    assert_eq!(decode_for_param(&f, 0, false).as_deref(), Some("c.bytesField()"));
    assert_eq!(decode_for_param(&f, 1, true).as_deref(), Some("string(c.rest())"));
    assert_eq!(decode_for_type("chan int", true), None);
}

#[test]
fn only_new_functions_of_the_type_are_constructors() {
    let mut ctor = func("NewDecoder", &[], false);
    ctor.returns = Some("*Decoder".to_owned());
    let siblings = vec![func("NewDecoder", &[("n", "int")], false), ctor];
    let found = find_go_constructor("Decoder", &siblings).unwrap();
    assert_eq!(found.returns.as_deref(), Some("*Decoder"));
    assert!(find_go_constructor("Encoder", &siblings).is_none());
}

#[test]
fn the_harness_of_a_module_requires_and_replaces_it() {
    assert_eq!(
        harness_go_mod("example.com/m/v2", "/work/m"),
        "module example.com/m/v2/bhfharness\n\ngo 1.21\n\nrequire example.com/m/v2 v2.0.0\n\n\
         replace example.com/m/v2 => /work/m\n"
    );
    assert_eq!(module_path_of("// c\nmodule example.com/m\n").as_deref(), Some("example.com/m"));
    assert_eq!(module_path_of("go 1.21\n"), None);
}

#[test]
fn an_overlay_replaces_one_file() {
    assert_eq!(
        overlay_json("/m/go.mod", "/tmp/a \"b\".mod"),
        r#"{"Replace":{"/m/go.mod":"/tmp/a \"b\".mod"}}"#
    );
}

#[test]
fn dictionary_tokens_are_escaped() {
    assert_eq!(
        escape_afl_dictionary_token(b"a\"\\\n\r\t\x00\x7f~"),
        "a\\\"\\\\\\n\\r\\t\\x00\\x7f~"
    );
}

#[test]
fn tokens_are_added_once() {
    let tokens = vec![r#"{"k":1}"#.to_owned()];
    let once = append_json_seed_dictionary("kw=\"x\"\n", &tokens).unwrap();
    assert!(once.contains("kw=\"x\"\n"));
    assert!(once.contains(r#""{\"k\":1}""#), "{once}");
    assert_eq!(append_json_seed_dictionary(&once, &tokens).unwrap(), once);
    assert_eq!(append_json_seed_dictionary("kw=\"x\"\n", &[]), None);
}

#[test]
fn seed_files_keep_to_their_bounds() {
    assert!(seed_file_readable("s", true, 65536).is_ok());
    assert_eq!(
        seed_file_readable("s", true, 65537),
        Err("structured seed file 's' exceeds its budget".to_owned())
    );
    assert!(seed_file_readable("s", false, 1).is_err());
    assert_eq!(
        inputs_of_tokens("s", 10, Ok(vec![String::new(); 17])),
        Err("structured seed file 's' has too many inputs".to_owned())
    );
    assert_eq!(
        inputs_of_tokens("s", 10, Err("no".to_owned())),
        Err("parse 's': no".to_owned())
    );
    assert!(load_structured_seed_inputs("s", b"{").is_err());
    assert!(load_structured_seed_inputs("s", &vec![b' '; 65537]).is_err());
    let many = vec!["\u{e9}\"\n".to_owned(); 16];
    let bytes = match structured_seed_file(&many).unwrap() {
        SeedFile::Write { bytes } => bytes,
        SeedFile::Remove => panic!("there are examples to write"),
    };
    let back = load_structured_seed_inputs("s", &bytes).unwrap();
    assert_eq!(back, vec!["\u{e9}\"\n".as_bytes().to_vec(); 16]);
    assert!(structured_seed_file(&vec!["x".repeat(70000)]).is_err());
}

fn ran(success: bool, stderr: &str) -> BuildOutcome {
    BuildOutcome::Ran {
        success,
        binary: success,
        stderr: stderr.to_owned(),
    }
}

#[test]
fn builds_narrow_their_scope_and_then_lower_the_version() {
    let gate = ran(false, "go: module requires go >= 1.24");
    let mut build = GoBuild::new(2);
    assert_eq!(
        build.after_build(&gate, None),
        BuildAction::Run { scope: 1, lowered: false }
    );
    assert_eq!(
        build.after_build(&gate, None),
        BuildAction::Run { scope: 2, lowered: false }
    );
    assert_eq!(build.after_build(&gate, None), BuildAction::Lower);
    assert_eq!(
        build.after_lowering(true, &gate, None),
        BuildAction::Run { scope: 0, lowered: true }
    );
    assert_eq!(
        build.after_build(&ran(true, ""), Some("x".to_owned())),
        BuildAction::Finish {
            result: GoBuildResult::Built { forced: Some("x".to_owned()) }
        }
    );
}

#[test]
fn a_version_that_cannot_be_lowered_is_skipped() {
    let gate = ran(false, "first\ngo: module requires go >= 1.24");
    let mut build = GoBuild::new(0);
    assert_eq!(build.after_build(&gate, None), BuildAction::Lower);
    assert_eq!(
        build.after_lowering(false, &gate, None),
        BuildAction::Finish {
            result: GoBuildResult::Failed {
                reason: "go build failed: go: module requires go >= 1.24".to_owned(),
                skip: true,
            }
        }
    );
}

#[test]
fn builds_fail_for_reasons_of_the_environment_or_of_the_target() {
    assert_eq!(
        build_result(&BuildOutcome::NotRun { error: "no go".to_owned() }, None),
        GoBuildResult::Failed {
            reason: "could not run go build: no go".to_owned(),
            skip: false,
        }
    );
    assert_eq!(
        build_result(&ran(false, "x.go:1: undefined: y\n"), None),
        GoBuildResult::Failed {
            reason: "go build failed: x.go:1: undefined: y".to_owned(),
            skip: false,
        }
    );
    assert_eq!(
        build_result(&ran(false, "dial tcp: lookup proxy"), None),
        GoBuildResult::Failed {
            reason: "go build failed: dial tcp: lookup proxy".to_owned(),
            skip: true,
        }
    );
}

#[test]
fn a_harness_is_planned_for_a_target_in_a_module() {
    let target = func("Parse", &[("data", "[]byte")], false);
    let module = GoModule {
        root: "/m".to_owned(),
        module: "example.com/m".to_owned(),
        directory: Some("p".to_owned()),
    };
    let harness = plan_go_harness(&target, &[], None, &[], Some(&module), false).unwrap();
    assert_eq!(harness.import_path, "example.com/m/p");
    assert!(harness.main_go.contains("tgt \"example.com/m/p\""));
    assert!(harness.main_go.contains("tgt.Parse(a0)"));
    assert_eq!(harness.coverage_patterns.len(), 2);
    let reason = plan_go_harness(&target, &[], None, &[], None, false).unwrap_err();
    assert!(reason.contains("not inside a Go module"), "{reason}");
}

#[test]
fn targets_and_packages_are_found_again() {
    let functions = vec![func("A", &[], false), func("B", &[], false)];
    assert_eq!(find_target(&functions, "B", 1), Ok(1));
    assert_eq!(
        find_target(&functions, "C", 1),
        Err("target `C` no longer present in source".to_owned())
    );
    assert!(is_package_source("a.go"));
    assert!(!is_package_source("a_test.go"));
    assert!(!is_package_source("a.txt"));
    let file = |package: &str, name: &str| GoFile {
        package: package.to_owned(),
        functions: vec![func(name, &[], false)],
        data_types: vec![data_type(name, vec![])],
    };
    let (merged, types) = merge_package(
        "p",
        vec![file("p", "X"), file("q", "Y"), file("p", "Z")],
        vec![],
    );
    let names: Vec<&str> = merged.iter().map(|f| f.name.as_str()).collect();
    assert_eq!(names, vec!["X", "Z"]);
    assert_eq!(types.len(), 2);
    let (own, _) = merge_package("p", vec![file("q", "Y")], vec![func("T", &[], false)]);
    assert_eq!(own[0].name, "T");
}

#[test]
fn literals_are_refused_however_they_are_spaced() {
    for literal in [
        "interface { Read() }",
        "interface\t{ Read() }",
        "interface  {Read()}",
        "[]interface { Read() }",
        "struct  { a int }",
        "struct\t{ a int }",
        "func  (r int) int",
    ] {
        assert_eq!(harness_visible_go_type(literal), None, "{literal}");
    }
    assert_eq!(harness_visible_go_type("interface{ }"), None);
    assert_eq!(harness_visible_go_type("map[string]interface{}").as_deref(), Some("map[string]any"));
}

#[test]
fn a_spaced_empty_interface_stays_as_it_is_written() {
    for empty in ["interface {}", "[]interface {}", "interface { }", "map[string]interface\t{}"] {
        assert_eq!(harness_visible_go_type(empty).as_deref(), Some(empty));
    }
    assert_eq!(harness_visible_go_type("map[interface {}]interface { Read() }"), None);
}

#[test]
fn only_names_that_begin_with_an_ascii_capital_are_qualified() {
    for name in ["\u{c9}A", "[]\u{c9}", "na\u{ef}ve", "\u{e9}A", "io.\u{c9}A", "\u{ef}.A"] {
        assert_eq!(harness_visible_go_type(name), None, "{name}");
    }
    assert_eq!(harness_visible_go_type("Na\u{ef}ve").as_deref(), Some("tgt.Na\u{ef}ve"));
    assert_eq!(
        harness_visible_go_type("[]Gr\u{f6}\u{df}e").as_deref(),
        Some("[]tgt.Gr\u{f6}\u{df}e")
    );
    assert_eq!(
        harness_visible_go_type("map[string]*Caf\u{e9}").as_deref(),
        Some("map[string]*tgt.Caf\u{e9}")
    );
    assert_eq!(harness_visible_go_type("Caf\u{e9}[int]"), None);
    assert_eq!(harness_visible_go_type("io.Caf\u{e9}").as_deref(), Some("io.Caf\u{e9}"));
    assert_eq!(harness_visible_go_type("\u{a0}[]Record\u{a0}").as_deref(), Some("[]tgt.Record"));
}

#[test]
fn lowering_a_go_mod_twice_changes_nothing_more() {
    let src = "module m\n\n  toolchain go1.24.0\n\tgo 1.24\r\nrequire x v1.0.0\ngodebug x=1";
    let once = lower_go_mod_directive(src, "1.22");
    assert_eq!(once, "module m\n\ngo 1.22\nrequire x v1.0.0\ngodebug x=1\n");
    assert_eq!(lower_go_mod_directive(&once, "1.22"), once);
    assert_eq!(lower_go_mod_directive("", "1.22"), "");
    // A second carriage return is the one kind of line that is read back otherwise.
    assert_eq!(lower_go_mod_directive("a\r\r\n", "1.22"), "a\r\n");
    assert_eq!(lower_go_mod_directive("a\r\n", "1.22"), "a\n");
}

#[test]
fn every_byte_of_a_dictionary_token_can_be_told() {
    let all: Vec<String> = (0..=255u8).map(|b| escape_afl_dictionary_token(&[b])).collect();
    for (i, one) in all.iter().enumerate() {
        assert!(one.chars().all(|c| (' '..='~').contains(&c)), "{one}");
        for other in &all[i + 1..] {
            assert!(!one.starts_with(other.as_str()) && !other.starts_with(one.as_str()));
        }
    }
    let joined: Vec<u8> = (0..=255u8).collect();
    assert_eq!(escape_afl_dictionary_token(&joined), all.concat());
    assert_eq!(all[0x22], "\\\"");
    assert_eq!(all[0xff], "\\xff");
}

#[test]
fn what_stands_before_a_type_stays_before_it() {
    for (ty, visible) in
        [("Record", Some("tgt.Record")), ("interface{}", Some("any")), ("record", None), ("T[K]", None)]
    {
        for before in ["*", "[]", "[4]", "[]*", "<-"] {
            assert_eq!(
                harness_visible_go_type(&format!("{before}{ty}")),
                visible.map(|v| format!("{before}{v}"))
            );
        }
    }
}

#[test]
fn a_language_version_is_read_back() {
    for version in ["go1.22.2", "go1.24rc1", " go1.21 X:boringcrypto\n"] {
        let minor = parse_go_minor(version).unwrap();
        assert_eq!(parse_go_minor(&format!("go{minor}")), Some(minor.clone()));
        assert_eq!(lower_go_mod_directive("go 9.9\n", &minor), format!("go {minor}\n"));
    }
}
