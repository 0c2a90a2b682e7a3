//! The Go statements that decode fuzz bytes into arguments and call the target.

use vstd::prelude::*;
use vstd::string::*;
use vstd::utf8::encode_utf8;

use crate::go_types::{
    capitalised, go_json_example, harness_visible_go_type, is_plain_json_parameter, json_example,
    plain_json, plain_types_have_examples, receiver_text, visible_type, GoDataType, GoFunc,
};
use crate::text::{
    begins, bytes_of, cat2, cat3, cat5, chars_of, contains, decimal, decimal_text, holds, join,
    joined, lowercase, lowered, reads, starts_with, string_of, texts, trim, trim_start_char,
    trimmed, without_leading,
};

verus! {

/// The Go expression that decodes a value of type `ty` from the cursor `c`, where there
/// is one.
pub open spec fn decode_type(ty: Seq<char>, last: bool) -> Option<Seq<char>> {
    let t = trim(ty);
    if t == "[]byte"@ {
        Some(
            if last {
                "c.rest()"@
            } else {
                "c.bytesField()"@
            },
        )
    } else if t == "string"@ {
        Some(
            if last {
                "string(c.rest())"@
            } else {
                "string(c.bytesField())"@
            },
        )
    } else if t == "[]rune"@ {
        Some("[]rune(string(c.rest()))"@)
    } else if t == "[]string"@ {
        Some("c.args()"@)
    } else if t == "io.Reader"@ || t == "io.ReadCloser"@ {
        Some("bytes.NewReader(c.rest())"@)
    } else if t == "bool"@ {
        Some("(c.u8()&1 == 1)"@)
    } else if t == "byte"@ || t == "uint8"@ {
        Some("c.u8()"@)
    } else if t == "rune"@ || t == "int32"@ {
        Some("int32(c.i64())"@)
    } else if t == "int"@ {
        Some("int(c.i64())"@)
    } else if t == "int8"@ {
        Some("int8(c.i64())"@)
    } else if t == "int16"@ {
        Some("int16(c.i64())"@)
    } else if t == "int64"@ {
        Some("c.i64()"@)
    } else if t == "uint"@ {
        Some("uint(c.i64())"@)
    } else if t == "uint16"@ {
        Some("uint16(c.i64())"@)
    } else if t == "uint32"@ {
        Some("uint32(c.i64())"@)
    } else if t == "uint64"@ {
        Some("uint64(c.i64())"@)
    } else if t == "uintptr"@ {
        Some("uintptr(c.i64())"@)
    } else if t == "float32"@ {
        Some("float32(c.f64())"@)
    } else if t == "float64"@ {
        Some("c.f64()"@)
    } else if t == "interface{}"@ || t == "any"@ {
        Some("new(interface{})"@)
    } else if t == "context.Context"@ {
        Some("c.ctx()"@)
    } else {
        None
    }
}

/// The Go expression that decodes a value of type `ty`. Unmarshalling targets get a fresh
/// interface to fill, and a context is the background context rather than fuzz input.
pub fn decode_for_type(ty: &str, last: bool) -> (r: Option<String>)
    ensures
        match r {
            Some(text) => decode_type(ty@, last) == Some(text@),
            None => decode_type(ty@, last) is None,
        },
{
    let chars = chars_of(ty);
    let t = trimmed(chars.as_slice());
    let text: &str = if reads(t, "[]byte") {
        if last {
            "c.rest()"
        } else {
            "c.bytesField()"
        }
    } else if reads(t, "string") {
        if last {
            "string(c.rest())"
        } else {
            "string(c.bytesField())"
        }
    } else if reads(t, "[]rune") {
        "[]rune(string(c.rest()))"
    } else if reads(t, "[]string") {
        "c.args()"
    } else if reads(t, "io.Reader") || reads(t, "io.ReadCloser") {
        "bytes.NewReader(c.rest())"
    } else if reads(t, "bool") {
        "(c.u8()&1 == 1)"
    } else if reads(t, "byte") || reads(t, "uint8") {
        "c.u8()"
    } else if reads(t, "rune") || reads(t, "int32") {
        "int32(c.i64())"
    } else if reads(t, "int") {
        "int(c.i64())"
    } else if reads(t, "int8") {
        "int8(c.i64())"
    } else if reads(t, "int16") {
        "int16(c.i64())"
    } else if reads(t, "int64") {
        "c.i64()"
    } else if reads(t, "uint") {
        "uint(c.i64())"
    } else if reads(t, "uint16") {
        "uint16(c.i64())"
    } else if reads(t, "uint32") {
        "uint32(c.i64())"
    } else if reads(t, "uint64") {
        "uint64(c.i64())"
    } else if reads(t, "uintptr") {
        "uintptr(c.i64())"
    } else if reads(t, "float32") {
        "float32(c.f64())"
    } else if reads(t, "float64") {
        "c.f64()"
    } else if reads(t, "interface{}") || reads(t, "any") {
        "new(interface{})"
    } else if reads(t, "context.Context") {
        "c.ctx()"
    } else {
        return None;
    };
    Some(text.to_owned())
}

/// Whether the parameter at `index` of `f` is where a parser puts what it read: the
/// function's name says that it reads a format, and the parameter is not the first or is
/// named like a result.
pub open spec fn parser_output(f: GoFunc, index: int) -> bool {
    let name = lowercase(f.name@);
    let param = lowercase(f.params@[index].name@);
    &&& contains(name, "unmarshal"@) || contains(name, "decode"@) || contains(name, "deserialize"@)
    &&& index > 0 || param == "out"@ || param == "dst"@ || param == "result"@ || param == "value"@
        || param == "v"@
}

/// The Go expression that decodes the parameter at `index` of `f`: an interface is fresh
/// where the parser writes to it and bytes where it is a value.
pub open spec fn decode_param(f: GoFunc, index: int, last: bool) -> Option<Seq<char>> {
    if index >= f.params@.len() {
        None
    } else {
        let t = trim(f.params@[index].ty@);
        if t != "interface{}"@ && t != "any"@ {
            decode_type(t, last)
        } else if parser_output(f, index) {
            Some("new(interface{})"@)
        } else {
            Some("append([]byte(nil), c.rest()...)"@)
        }
    }
}

pub fn decode_for_param(func: &GoFunc, index: usize, last: bool) -> (r: Option<String>)
    ensures
        match r {
            Some(text) => decode_param(*func, index as int, last) == Some(text@),
            None => decode_param(*func, index as int, last) is None,
        },
{
    if index >= func.params.len() {
        return None;
    }
    let chars = chars_of(func.params[index].ty.as_str());
    let t = trimmed(chars.as_slice());
    if !reads(t, "interface{}") && !reads(t, "any") {
        let text = string_of(t);
        return decode_for_type(text.as_str(), last);
    }
    let name = lowered(chars_of(func.name.as_str()).as_slice());
    let name = name.as_slice();
    let param = lowered(chars_of(func.params[index].name.as_str()).as_slice());
    let param = param.as_slice();
    let output = (holds(name, chars_of("unmarshal").as_slice()) || holds(
        name,
        chars_of("decode").as_slice(),
    ) || holds(name, chars_of("deserialize").as_slice())) && (index > 0 || reads(param, "out") || reads(
        param,
        "dst",
    ) || reads(param, "result") || reads(param, "value") || reads(param, "v"));
    if output {
        Some("new(interface{})".to_owned())
    } else {
        Some("append([]byte(nil), c.rest()...)".to_owned())
    }
}

/// How the harness obtains the receiver of a method.
#[derive(Debug, Clone, PartialEq, Eq)]
pub struct GoReceiver {
    /// The line that binds `recv`.
    pub setup: String,
    /// How the call names it: `recv` where it is a pointer already, `(&recv)` otherwise.
    pub callee: String,
    /// What was made up, where the value was made up rather than constructed.
    pub forced: Option<String>,
}

/// A receiver as text.
pub struct ReceiverText {
    pub setup: Seq<char>,
    pub callee: Seq<char>,
    pub forced: Option<Seq<char>>,
}

impl View for GoReceiver {
    type V = ReceiverText;

    open spec fn view(&self) -> ReceiverText {
        ReceiverText {
            setup: self.setup@,
            callee: self.callee@,
            forced: match self.forced {
                Some(detail) => Some(detail@),
                None => None,
            },
        }
    }
}

/// The name of a receiver's or result's type without what makes it a pointer.
pub open spec fn bare_type(ty: Seq<char>) -> Seq<char> {
    trim(trim_start_char(trim(ty), '*'))
}

/// Whether `f` constructs a `bare`: an exported function without parameters whose name
/// begins with `New` and whose result is `bare` or a pointer to it.
pub open spec fn constructs(f: GoFunc, bare: Seq<char>) -> bool {
    &&& !f.is_method
    &&& f.is_exported
    &&& f.params@.len() == 0
    &&& starts_with(f.name@, "New"@)
    &&& f.returns matches Some(returned) && bare_type(returned@) == bare
}

/// The index of the first of `siblings` that constructs a `bare`.
pub open spec fn first_constructor(siblings: Seq<GoFunc>, bare: Seq<char>) -> Option<int>
    decreases siblings.len(),
{
    if siblings.len() == 0 {
        None
    } else {
        match first_constructor(siblings.drop_last(), bare) {
            Some(i) => Some(i),
            None => if constructs(siblings.last(), bare) {
                Some(siblings.len() - 1)
            } else {
                None
            },
        }
    }
}

proof fn lemma_first_constructor(siblings: Seq<GoFunc>, bare: Seq<char>, n: int)
    requires
        0 <= n <= siblings.len(),
    ensures
        first_constructor(siblings.take(n), bare) is Some ==> first_constructor(siblings, bare)
            == first_constructor(siblings.take(n), bare),
    decreases siblings.len() - n,
{
    if n < siblings.len() {
        assert(siblings.take(n + 1).drop_last() =~= siblings.take(n));
        lemma_first_constructor(siblings, bare, n + 1);
    } else {
        assert(siblings.take(n) =~= siblings);
    }
}

fn is_constructor(f: &GoFunc, bare: &[char]) -> (r: bool)
    ensures
        r == constructs(*f, bare@),
{
    if f.is_method || !f.is_exported || f.params.len() > 0 {
        return false;
    }
    let name = chars_of(f.name.as_str());
    if !begins(name.as_slice(), chars_of("New").as_slice()) {
        return false;
    }
    match &f.returns {
        None => false,
        Some(returned) => {
            let returned = chars_of(returned.as_str());
            let base = trimmed(without_leading(trimmed(returned.as_slice()), '*'));
            let bare_text = string_of(bare);
            reads(base, bare_text.as_str())
        },
    }
}

/// The first of `siblings` that constructs a `bare`.
pub fn find_go_constructor<'a>(bare: &str, siblings: &'a [GoFunc]) -> (r: Option<&'a GoFunc>)
    ensures
        match r {
            Some(f) => first_constructor(siblings@, bare@) matches Some(i) && 0 <= i
                < siblings@.len() && siblings@[i] == *f && constructs(*f, bare@),
            None => first_constructor(siblings@, bare@) is None,
        },
{
    let wanted = chars_of(bare);
    let mut i: usize = 0;
    proof {
        assert(siblings@.take(0) =~= Seq::empty());
    }
    while i < siblings.len()
        invariant
            i <= siblings@.len(),
            wanted@ == bare@,
            first_constructor(siblings@.take(i as int), bare@) is None,
        decreases siblings@.len() - i,
    {
        proof {
            assert(siblings@.take(i + 1).drop_last() =~= siblings@.take(i as int));
            assert(siblings@.take(i + 1).last() == siblings@[i as int]);
        }
        if is_constructor(&siblings[i], wanted.as_slice()) {
            proof {
                lemma_first_constructor(siblings@, bare@, i + 1);
            }
            return Some(&siblings[i]);
        }
        i = i + 1;
    }
    proof {
        assert(siblings@.take(i as int) =~= siblings@);
    }
    None
}

/// Whether the harness package can name the type `bare` of the target package.
pub open spec fn nameable(bare: Seq<char>) -> bool {
    capitalised(bare) && !bare.contains('[') && !bare.contains('.')
}

/// The receiver for the target `f`: `None` for a function; for a method a constructed
/// value where a sibling constructs one, a zero value that a feeder fills where there is
/// one (`fed`), a zero value that is recorded as made up under `force`, and otherwise the
/// reason for which there is none.
pub open spec fn receiver_for(
    f: GoFunc,
    siblings: Seq<GoFunc>,
    fed: bool,
    force: bool,
) -> Result<Option<ReceiverText>, Seq<char>> {
    let raw = trim(receiver_text(f));
    let bare = bare_type(receiver_text(f));
    let zero = "\tvar recv tgt."@ + bare + "\n"@;
    if !f.is_method {
        Ok(None)
    } else if !nameable(bare) {
        Err(
            "Go receiver type `"@ + raw + "` of method `"@ + f.name@
                + "` is not nameable from the harness package (unexported or generic); skipped cleanly"@,
        )
    } else {
        match first_constructor(siblings, bare) {
            Some(i) => {
                let ctor = siblings[i];
                Ok(
                    Some(
                        ReceiverText {
                            setup: "\trecv := tgt."@ + ctor.name@ + "()\n"@,
                            callee: if ctor.returns matches Some(returned) && trim(
                                returned@,
                            ).len() > 0 && trim(returned@)[0] == '*' {
                                "recv"@
                            } else {
                                "(&recv)"@
                            },
                            forced: None,
                        },
                    ),
                )
            },
            None => if fed {
                Ok(Some(ReceiverText { setup: zero, callee: "(&recv)"@, forced: None }))
            } else if !force {
                Err(
                    "Go method `"@ + f.name@ + "` needs a receiver value and its type `"@ + bare
                        + "` has no no-arg constructor; pass --force to call it on a zero-valued receiver (skipped cleanly)"@,
                )
            } else {
                Ok(
                    Some(
                        ReceiverText {
                            setup: zero,
                            callee: "(&recv)"@,
                            forced: Some("receiver tgt."@ + bare),
                        },
                    ),
                )
            },
        }
    }
}

/// The receiver for the target `func`; `fed` says whether a sibling method feeds bytes
/// into the receiver before the target is called.
pub fn receiver_synthesis(
    func: &GoFunc,
    siblings: &[GoFunc],
    fed: bool,
    force: bool,
) -> (r: Result<Option<GoReceiver>, String>)
    ensures
        match (r, receiver_for(*func, siblings@, fed, force)) {
            (Ok(None), Ok(None)) => true,
            (Ok(Some(got)), Ok(Some(want))) => got@ == want,
            (Err(got), Err(want)) => got@ == want,
            _ => false,
        },
{
    if !func.is_method {
        return Ok(None);
    }
    let receiver: Vec<char> = match &func.receiver_type {
        Some(receiver) => chars_of(receiver.as_str()),
        None => Vec::new(),
    };
    let raw = trimmed(receiver.as_slice());
    let bare = trimmed(without_leading(raw, '*'));
    let bare_text = string_of(bare);
    let starts = bare.len() > 0 && 'A' <= bare[0] && bare[0] <= 'Z';
    if !(starts && !crate::go_types::holds_char(bare, '[') && !crate::go_types::holds_char(
        bare,
        '.',
    )) {
        let raw_text = string_of(raw);
        return Err(
            cat5(
                "Go receiver type `",
                raw_text.as_str(),
                "` of method `",
                func.name.as_str(),
                "` is not nameable from the harness package (unexported or generic); skipped cleanly",
            ),
        );
    }
    if let Some(ctor) = find_go_constructor(bare_text.as_str(), siblings) {
        let pointer = match &ctor.returns {
            None => false,
            Some(returned) => {
                let returned = chars_of(returned.as_str());
                let returned = trimmed(returned.as_slice());
                returned.len() > 0 && returned[0] == '*'
            },
        };
        return Ok(
            Some(
                GoReceiver {
                    setup: cat3("\trecv := tgt.", ctor.name.as_str(), "()\n"),
                    callee: if pointer {
                        "recv".to_owned()
                    } else {
                        "(&recv)".to_owned()
                    },
                    forced: None,
                },
            ),
        );
    }
    if !fed && !force {
        return Err(
            cat5(
                "Go method `",
                func.name.as_str(),
                "` needs a receiver value and its type `",
                bare_text.as_str(),
                "` has no no-arg constructor; pass --force to call it on a zero-valued receiver (skipped cleanly)",
            ),
        );
    }
    Ok(
        Some(
            GoReceiver {
                setup: cat3("\tvar recv tgt.", bare_text.as_str(), "\n"),
                callee: "(&recv)".to_owned(),
                forced: if fed {
                    None
                } else {
                    Some(cat2("receiver tgt.", bare_text.as_str()))
                },
            },
        ),
    )
}

/// A generated call, and what had to be made up for it.
#[derive(Debug, Clone, PartialEq, Eq)]
pub struct GoCall {
    /// The statements that decode the arguments and make the call.
    pub body: String,
    /// What was made up, where a parameter or the receiver is a forced zero value.
    pub forced_detail: Option<String>,
    /// JSON documents for the mutation dictionary.
    pub json_seed_tokens: Vec<String>,
    /// Complete starting inputs.
    pub structured_seed_inputs: Vec<String>,
}

/// A call under construction, as text.
#[verifier::ext_equal]
pub struct CallParts {
    pub lines: Seq<char>,
    pub args: Seq<Seq<char>>,
    pub forced: Seq<Seq<char>>,
    pub tokens: Seq<Seq<char>>,
    pub seeds: Seq<Seq<char>>,
}

/// What stands before the parameters: the receiver's setup, and the feeder's call on it.
pub open spec fn call_start(
    f: GoFunc,
    receiver: Option<ReceiverText>,
    feeder: Option<GoFunc>,
) -> Result<CallParts, Seq<char>> {
    let parts = CallParts {
        lines: match receiver {
            Some(r) => r.setup,
            None => Seq::empty(),
        },
        args: Seq::empty(),
        forced: match receiver {
            Some(r) => match r.forced {
                Some(detail) => seq![detail],
                None => Seq::empty(),
            },
            None => Seq::empty(),
        },
        tokens: Seq::empty(),
        seeds: Seq::empty(),
    };
    match (feeder, receiver) {
        (None, _) => Ok(parts),
        (Some(feeder), None) => Err(
            "Go state feeder `"@ + feeder.name@ + "` requires a receiver for `"@ + f.name@ + "`"@,
        ),
        (Some(feeder), Some(r)) => match decode_param(feeder, 0, true) {
            None => Err(
                "unsupported Go state-feeder parameter type `"@ + feeder.params@[0].ty@
                    + "` (skipped)"@,
            ),
            Some(input) => Ok(
                CallParts {
                    lines: parts.lines + ("\tstateInput := "@ + input + "\n"@) + ("\t"@ + r.callee
                        + "."@ + feeder.name@ + "(stateInput)\n"@),
                    ..parts
                },
            ),
        },
    }
}

/// `parts` with the argument at `i` bound to `expr`.
pub open spec fn bind_argument(parts: CallParts, i: int, expr: Seq<char>) -> CallParts {
    CallParts {
        lines: parts.lines + ("\ta"@ + decimal(i as nat) + " := "@ + expr + "\n"@),
        args: parts.args.push("a"@ + decimal(i as nat)),
        ..parts
    }
}

/// Whether the parameter at `i` is a JSON document behind raw bytes.
pub open spec fn behind_bytes(f: GoFunc, i: int) -> bool {
    f.params@.len() == 2 && i == 1 && trim(f.params@[0].ty@) == "[]byte"@
}

/// The starting inputs that `example` gives. Behind raw bytes, which their length in one
/// byte precedes, it is repeated in both places where its length fits that byte, and
/// stands behind the one byte `A`.
pub open spec fn example_seeds(example: Seq<char>, paired: bool) -> Seq<Seq<char>> {
    if !paired {
        seq![example]
    } else if encode_utf8(example).len() <= 127 {
        seq![
            seq![encode_utf8(example).len() as char] + example + example,
            "\u{1}A"@ + example,
        ]
    } else {
        seq!["\u{1}A"@ + example]
    }
}

/// `parts` with the argument at `i` read from a JSON document.
pub open spec fn bind_json(
    parts: CallParts,
    f: GoFunc,
    i: int,
    ty: Seq<char>,
    example: Seq<char>,
) -> CallParts {
    let n = decimal(i as nat);
    let source = if behind_bytes(f, i) {
        "c.rest()"@
    } else {
        "data"@
    };
    CallParts {
        lines: parts.lines + ("\tvar a"@ + n + " "@ + ty + "\n"@) + ("\tif err := json.Unmarshal("@
            + source + ", &a"@ + n + "); err != nil { return }\n"@),
        args: parts.args.push("a"@ + n),
        tokens: parts.tokens.push(example),
        seeds: parts.seeds + example_seeds(example, behind_bytes(f, i)),
        ..parts
    }
}

/// `parts` with the argument at `i` added: decoded from the bytes where there is a
/// decoder, read from JSON where the type is plain, and a zero value under `force`.
pub open spec fn add_argument(
    parts: CallParts,
    f: GoFunc,
    i: int,
    data_types: Seq<GoDataType>,
    methods: Seq<GoFunc>,
    force: bool,
) -> Result<CallParts, Seq<char>> {
    let ty = f.params@[i].ty@;
    match decode_param(f, i, i + 1 == f.params@.len()) {
        Some(expr) => Ok(bind_argument(parts, i, expr)),
        None => if force {
            match visible_type(ty) {
                None => Err(
                    "forced: Go parameter type `"@ + ty
                        + "` is not nameable from the harness package (unexported, generic, variadic or an inline literal); skipped cleanly"@,
                ),
                Some(visible) => Ok(
                    bind_argument(
                        CallParts {
                            lines: parts.lines + ("\tvar z"@ + decimal(i as nat) + " "@ + visible
                                + "\n"@),
                            forced: parts.forced.push(f.params@[i].name@ + " "@ + ty),
                            ..parts
                        },
                        i,
                        "z"@ + decimal(i as nat),
                    ),
                ),
            }
        } else {
            match (
                visible_type(ty),
                plain_json(ty, data_types, methods, Seq::empty()),
                json_example(ty, data_types, Seq::empty()),
            ) {
                (Some(visible), true, Some(example)) => Ok(
                    bind_json(parts, f, i, visible, example),
                ),
                (Some(_), true, None) => Err(
                    "cannot construct JSON seed for Go type `"@ + ty + "`"@,
                ),
                _ => Err("unsupported Go parameter type `"@ + ty + "` (skipped)"@),
            }
        },
    }
}

/// The call with its first `n` arguments; the first argument that cannot be had gives the
/// reason.
pub open spec fn call_parts(
    f: GoFunc,
    receiver: Option<ReceiverText>,
    feeder: Option<GoFunc>,
    data_types: Seq<GoDataType>,
    methods: Seq<GoFunc>,
    force: bool,
    n: nat,
) -> Result<CallParts, Seq<char>>
    decreases n,
{
    if n == 0 {
        call_start(f, receiver, feeder)
    } else {
        match call_parts(f, receiver, feeder, data_types, methods, force, (n - 1) as nat) {
            Err(reason) => Err(reason),
            Ok(parts) => add_argument(parts, f, n - 1, data_types, methods, force),
        }
    }
}

/// The statements of the finished call.
pub open spec fn call_body(
    f: GoFunc,
    receiver: Option<ReceiverText>,
    parts: CallParts,
) -> Seq<char> {
    let callee = match receiver {
        Some(r) => r.callee + "."@ + f.name@,
        None => "tgt."@ + f.name@,
    };
    parts.lines + "\tbhfMarkTargetEntry()\n"@ + ("\t"@ + callee + "("@ + join(parts.args, ", "@)
        + ")\n"@)
}

/// What the finished call records as made up.
pub open spec fn forced_note(forced: Seq<Seq<char>>) -> Option<Seq<char>> {
    if forced.len() == 0 {
        None
    } else {
        Some("go: synthesized zero value for "@ + join(forced, ", "@))
    }
}

/// Whether `call` is what `parts` amount to.
pub open spec fn call_is(
    call: GoCall,
    f: GoFunc,
    receiver: Option<ReceiverText>,
    parts: CallParts,
) -> bool {
    &&& call.body@ == call_body(f, receiver, parts)
    &&& match call.forced_detail {
        Some(detail) => forced_note(parts.forced) == Some(detail@),
        None => forced_note(parts.forced) is None,
    }
    &&& texts(call.json_seed_tokens@) == parts.tokens
    &&& texts(call.structured_seed_inputs@) == parts.seeds
}

/// The text of a receiver, where there is one.
pub open spec fn receiver_view(receiver: Option<&GoReceiver>) -> Option<ReceiverText> {
    match receiver {
        Some(r) => Some(r@),
        None => None,
    }
}

/// The function itself, where there is one.
pub open spec fn feeder_view(feeder: Option<&GoFunc>) -> Option<GoFunc> {
    match feeder {
        Some(f) => Some(*f),
        None => None,
    }
}

/// A call under construction.
struct CallBuilder {
    lines: String,
    args: Vec<String>,
    forced: Vec<String>,
    tokens: Vec<String>,
    seeds: Vec<String>,
}

impl View for CallBuilder {
    type V = CallParts;

    closed spec fn view(&self) -> CallParts {
        CallParts {
            lines: self.lines@,
            args: texts(self.args@),
            forced: texts(self.forced@),
            tokens: texts(self.tokens@),
            seeds: texts(self.seeds@),
        }
    }
}

proof fn lemma_texts_push(list: Seq<String>, item: String)
    ensures
        texts(list.push(item)) == texts(list).push(item@),
{
    assert(texts(list.push(item)) =~= texts(list).push(item@));
}

fn start_call(func: &GoFunc, receiver: Option<&GoReceiver>, feeder: Option<&GoFunc>) -> (r: Result<
    CallBuilder,
    String,
>)
    requires
        receiver is Some && feeder is Some ==> feeder->0.params@.len() > 0,
    ensures
        match (r, call_start(*func, receiver_view(receiver), feeder_view(feeder))) {
            (Ok(got), Ok(want)) => got@ == want,
            (Err(got), Err(want)) => got@ == want,
            _ => false,
        },
{
    let mut call = CallBuilder {
        lines: String::new(),
        args: Vec::new(),
        forced: Vec::new(),
        tokens: Vec::new(),
        seeds: Vec::new(),
    };
    if let Some(receiver) = receiver {
        call.lines.append(receiver.setup.as_str());
        if let Some(detail) = &receiver.forced {
            let note = detail.clone();
            proof {
                lemma_texts_push(call.forced@, note);
            }
            call.forced.push(note);
        }
    }
    proof {
        assert(call@.args =~= Seq::empty());
        assert(call@.tokens =~= Seq::empty());
        assert(call@.seeds =~= Seq::empty());
        if let Some(r) = receiver {
            assert(call@.lines =~= r.setup@);
            if let Some(detail) = &r.forced {
                assert(call@.forced =~= seq![detail@]);
            } else {
                assert(call@.forced =~= Seq::empty());
            }
        } else {
            assert(call@.lines =~= Seq::empty());
            assert(call@.forced =~= Seq::empty());
        }
    }
    if let Some(feeder) = feeder {
        match receiver {
            None => {
                return Err(
                    cat5(
                        "Go state feeder `",
                        feeder.name.as_str(),
                        "` requires a receiver for `",
                        func.name.as_str(),
                        "`",
                    ),
                );
            },
            Some(receiver) => match decode_for_param(feeder, 0, true) {
                None => {
                    return Err(
                        cat3(
                            "unsupported Go state-feeder parameter type `",
                            feeder.params[0].ty.as_str(),
                            "` (skipped)",
                        ),
                    );
                },
                Some(input) => {
                    let line = cat3("\tstateInput := ", input.as_str(), "\n");
                    call.lines.append(line.as_str());
                    let line = cat5(
                        "\t",
                        receiver.callee.as_str(),
                        ".",
                        feeder.name.as_str(),
                        "(stateInput)\n",
                    );
                    call.lines.append(line.as_str());
                },
            },
        }
    }
    Ok(call)
}

fn add_decoded(call: &mut CallBuilder, index: usize, expr: &str)
    ensures
        final(call)@ == bind_argument(old(call)@, index as int, expr@),
{
    let n = decimal_text(index as u64);
    let line = cat5("\ta", n.as_str(), " := ", expr, "\n");
    call.lines.append(line.as_str());
    let arg = cat2("a", n.as_str());
    proof {
        lemma_texts_push(call.args@, arg);
    }
    call.args.push(arg);
}

fn add_json(call: &mut CallBuilder, func: &GoFunc, index: usize, ty: &str, example: String)
    requires
        index < func.params@.len(),
    ensures
        final(call)@ == bind_json(old(call)@, *func, index as int, ty@, example@),
{
    let n = decimal_text(index as u64);
    let paired = func.params.len() == 2 && index == 1 && reads(
        trimmed(chars_of(func.params[0].ty.as_str()).as_slice()),
        "[]byte",
    );
    let source: &str = if paired {
        "c.rest()"
    } else {
        "data"
    };
    let line = cat5("\tvar a", n.as_str(), " ", ty, "\n");
    call.lines.append(line.as_str());
    let line = cat5(
        "\tif err := json.Unmarshal(",
        source,
        ", &a",
        n.as_str(),
        "); err != nil { return }\n",
    );
    call.lines.append(line.as_str());
    let arg = cat2("a", n.as_str());
    proof {
        lemma_texts_push(call.args@, arg);
    }
    call.args.push(arg);
    let ghost before = texts(call.seeds@);
    if paired {
        let length: usize = bytes_of(example.as_str()).len();
        if length <= 127 {
            let mut seed = String::new();
            seed.push((length as u8) as char);
            seed.append(example.as_str());
            seed.append(example.as_str());
            proof {
                lemma_texts_push(call.seeds@, seed);
                assert(seed@ =~= seq![length as char] + example@ + example@);
            }
            call.seeds.push(seed);
        }
        let seed = cat2("\u{1}A", example.as_str());
        proof {
            lemma_texts_push(call.seeds@, seed);
        }
        call.seeds.push(seed);
    } else {
        let seed = example.clone();
        proof {
            lemma_texts_push(call.seeds@, seed);
        }
        call.seeds.push(seed);
    }
    proof {
        assert(texts(call.seeds@) =~= before + example_seeds(
            example@,
            behind_bytes(*func, index as int),
        ));
        lemma_texts_push(call.tokens@, example);
    }
    call.tokens.push(example);
}

/// Adds the argument at `index`, or gives the reason for which it cannot be had.
fn add_param(
    call: &mut CallBuilder,
    func: &GoFunc,
    index: usize,
    data_types: &[GoDataType],
    methods: &[GoFunc],
    force: bool,
) -> (r: Result<(), String>)
    requires
        index < func.params@.len(),
    ensures
        match (
            r,
            add_argument(old(call)@, *func, index as int, data_types@, methods@, force),
        ) {
            (Ok(_), Ok(want)) => final(call)@ == want,
            (Err(got), Err(want)) => got@ == want,
            _ => false,
        },
{
    let count: usize = func.params.len();
    let last = index == count - 1;
    if let Some(expr) = decode_for_param(func, index, last) {
        add_decoded(call, index, expr.as_str());
        return Ok(());
    }
    let ty = func.params[index].ty.as_str();
    let visible = harness_visible_go_type(ty);
    if force {
        return match visible {
            None => Err(
                cat3(
                    "forced: Go parameter type `",
                    ty,
                    "` is not nameable from the harness package (unexported, generic, variadic or an inline literal); skipped cleanly",
                ),
            ),
            Some(visible) => {
                let n = decimal_text(index as u64);
                let line = cat5("\tvar z", n.as_str(), " ", visible.as_str(), "\n");
                call.lines.append(line.as_str());
                let note = cat3(func.params[index].name.as_str(), " ", ty);
                proof {
                    lemma_texts_push(call.forced@, note);
                }
                call.forced.push(note);
                let expr = cat2("z", n.as_str());
                add_decoded(call, index, expr.as_str());
                Ok(())
            },
        };
    }
    let mut visiting: Vec<String> = Vec::new();
    proof {
        assert(texts(visiting@) =~= Seq::empty());
    }
    let plain = is_plain_json_parameter(ty, data_types, methods, &mut visiting);
    match visible {
        Some(visible) => {
            if !plain {
                return Err(cat3("unsupported Go parameter type `", ty, "` (skipped)"));
            }
            match go_json_example(ty, data_types, &mut visiting) {
                None => Err(cat3("cannot construct JSON seed for Go type `", ty, "`")),
                Some(example) => {
                    add_json(call, func, index, visible.as_str(), example);
                    Ok(())
                },
            }
        },
        None => Err(cat3("unsupported Go parameter type `", ty, "` (skipped)")),
    }
}

/// The call of `func` without declared types.
pub fn generate_call(
    func: &GoFunc,
    receiver: Option<&GoReceiver>,
    state_feeder: Option<&GoFunc>,
    force: bool,
) -> (r: Result<GoCall, String>)
    requires
        receiver is Some && state_feeder is Some ==> state_feeder->0.params@.len() > 0,
    ensures
        match (
            r,
            call_parts(
                *func,
                receiver_view(receiver),
                feeder_view(state_feeder),
                Seq::empty(),
                Seq::empty(),
                force,
                func.params@.len(),
            ),
        ) {
            (Ok(got), Ok(want)) => call_is(got, *func, receiver_view(receiver), want),
            (Err(got), Err(want)) => got@ == want,
            _ => false,
        },
{
    let data_types: Vec<GoDataType> = Vec::new();
    let methods: Vec<GoFunc> = Vec::new();
    proof {
        assert(data_types@ =~= Seq::empty());
        assert(methods@ =~= Seq::empty());
    }
    generate_call_with_data_types(
        func,
        receiver,
        state_feeder,
        data_types.as_slice(),
        methods.as_slice(),
        force,
    )
}

/// The statements that decode the arguments of `func` and call it.
pub fn generate_call_with_data_types(
    func: &GoFunc,
    receiver: Option<&GoReceiver>,
    state_feeder: Option<&GoFunc>,
    data_types: &[GoDataType],
    methods: &[GoFunc],
    force: bool,
) -> (r: Result<GoCall, String>)
    requires
        receiver is Some && state_feeder is Some ==> state_feeder->0.params@.len() > 0,
    ensures
        match (
            r,
            call_parts(
                *func,
                receiver_view(receiver),
                feeder_view(state_feeder),
                data_types@,
                methods@,
                force,
                func.params@.len(),
            ),
        ) {
            (Ok(got), Ok(want)) => call_is(got, *func, receiver_view(receiver), want),
            (Err(got), Err(want)) => got@ == want,
            _ => false,
        },
{
    let ghost rv = receiver_view(receiver);
    let ghost fv = feeder_view(state_feeder);
    let mut call = match start_call(func, receiver, state_feeder) {
        Ok(call) => call,
        Err(reason) => {
            proof {
                lemma_reason_stays(
                    *func,
                    rv,
                    fv,
                    data_types@,
                    methods@,
                    force,
                    0,
                    func.params@.len(),
                );
            }
            return Err(reason);
        },
    };
    let mut i: usize = 0;
    while i < func.params.len()
        invariant
            i <= func.params@.len(),
            call_parts(*func, rv, fv, data_types@, methods@, force, i as nat) == Ok::<
                CallParts,
                Seq<char>,
            >(call@),
            rv == receiver_view(receiver),
            fv == feeder_view(state_feeder),
        decreases func.params@.len() - i,
    {
        match add_param(&mut call, func, i, data_types, methods, force) {
            Ok(_) => {},
            Err(reason) => {
                proof {
                    lemma_reason_stays(
                        *func,
                        rv,
                        fv,
                        data_types@,
                        methods@,
                        force,
                        (i + 1) as nat,
                        func.params@.len(),
                    );
                }
                return Err(reason);
            },
        }
        i = i + 1;
    }
    let ghost parts = call@;
    let callee = match receiver {
        Some(receiver) => cat3(receiver.callee.as_str(), ".", func.name.as_str()),
        None => cat2("tgt.", func.name.as_str()),
    };
    let mut body = call.lines;
    body.append("\tbhfMarkTargetEntry()\n");
    let args = joined(call.args.as_slice(), ", ");
    let line = cat5("\t", callee.as_str(), "(", args.as_str(), ")\n");
    body.append(line.as_str());
    let forced_detail = if call.forced.len() == 0 {
        None
    } else {
        let forced = joined(call.forced.as_slice(), ", ");
        Some(cat2("go: synthesized zero value for ", forced.as_str()))
    };
    Ok(
        GoCall {
            body,
            forced_detail,
            json_seed_tokens: call.tokens,
            structured_seed_inputs: call.seeds,
        },
    )
}

/// A reason given after `m` arguments is the reason after any more of them.
proof fn lemma_reason_stays(
    f: GoFunc,
    receiver: Option<ReceiverText>,
    feeder: Option<GoFunc>,
    data_types: Seq<GoDataType>,
    methods: Seq<GoFunc>,
    force: bool,
    m: nat,
    n: nat,
)
    requires
        m <= n,
        call_parts(f, receiver, feeder, data_types, methods, force, m) is Err,
    ensures
        call_parts(f, receiver, feeder, data_types, methods, force, n) == call_parts(
            f,
            receiver,
            feeder,
            data_types,
            methods,
            force,
            m,
        ),
    decreases n,
{
    if m < n {
        lemma_reason_stays(
            f,
            receiver,
            feeder,
            data_types,
            methods,
            force,
            m,
            (n - 1) as nat,
        );
    }
}

/// Without `force` no receiver is made up.
pub proof fn unforced_receivers_are_real(f: GoFunc, siblings: Seq<GoFunc>, fed: bool)
    ensures
        receiver_for(f, siblings, fed, false) matches Ok(Some(r)) ==> r.forced is None,
{
}

/// A method whose receiver the harness can name always has one under `force`, and a
/// receiver it cannot name is refused with and without `force`.
pub proof fn force_supplies_every_nameable_receiver(f: GoFunc, siblings: Seq<GoFunc>, fed: bool)
    requires
        f.is_method,
    ensures
        nameable(bare_type(receiver_text(f))) <==> receiver_for(f, siblings, fed, true) is Ok,
        !nameable(bare_type(receiver_text(f))) ==> receiver_for(f, siblings, fed, false) is Err,
{
}

/// Without `force` and with a receiver that is not made up, nothing in a call is made up,
/// so that nothing is recorded as forced.
pub proof fn unforced_calls_record_nothing(
    f: GoFunc,
    receiver: Option<ReceiverText>,
    feeder: Option<GoFunc>,
    data_types: Seq<GoDataType>,
    methods: Seq<GoFunc>,
    n: nat,
)
    requires
        receiver matches Some(r) ==> r.forced is None,
    ensures
        call_parts(f, receiver, feeder, data_types, methods, false, n) matches Ok(parts)
            ==> forced_note(parts.forced) is None,
    decreases n,
{
    if n > 0 {
        unforced_calls_record_nothing(f, receiver, feeder, data_types, methods, (n - 1) as nat);
    }
}

/// A call passes one argument for each parameter, in order, each under its own name.
pub proof fn a_call_passes_every_argument(
    f: GoFunc,
    receiver: Option<ReceiverText>,
    feeder: Option<GoFunc>,
    data_types: Seq<GoDataType>,
    methods: Seq<GoFunc>,
    force: bool,
    n: nat,
)
    ensures
        call_parts(f, receiver, feeder, data_types, methods, force, n) matches Ok(parts)
            ==> parts.args == Seq::new(n, |i: int| "a"@ + decimal(i as nat)),
    decreases n,
{
    if n > 0 {
        a_call_passes_every_argument(
            f,
            receiver,
            feeder,
            data_types,
            methods,
            force,
            (n - 1) as nat,
        );
        if let Ok(parts) = call_parts(f, receiver, feeder, data_types, methods, force, n) {
            assert(parts.args =~= Seq::new(n, |i: int| "a"@ + decimal(i as nat)));
        }
    } else {
        if let Ok(parts) = call_parts(f, receiver, feeder, data_types, methods, force, n) {
            assert(parts.args =~= Seq::new(n, |i: int| "a"@ + decimal(i as nat)));
        }
    }
}

/// No target is refused for want of a JSON example.
pub proof fn examples_never_run_out(
    parts: CallParts,
    f: GoFunc,
    i: int,
    data_types: Seq<GoDataType>,
    methods: Seq<GoFunc>,
)
    requires
        0 <= i < f.params@.len(),
        visible_type(f.params@[i].ty@) is Some,
        plain_json(f.params@[i].ty@, data_types, methods, Seq::empty()),
    ensures
        add_argument(parts, f, i, data_types, methods, false) is Ok,
{
    plain_types_have_examples(f.params@[i].ty@, data_types, methods, Seq::empty());
}

} // verus!
