//! Building a Go harness: the module it declares, the files it consists of, and which
//! builds are tried until one succeeds.

use vstd::prelude::*;
use vstd::slice::slice_subrange;
use vstd::string::*;
use vstd::utf8::encode_utf8;

use crate::go_call::{
    call_is, call_parts, feeder_view, generate_call_with_data_types, receiver_for,
    receiver_synthesis, CallParts, GoCall, ReceiverText,
};
use crate::go_template::{generate_main_go, HARNESS_HEAD, HARNESS_MIDDLE, HARNESS_TAIL};
use crate::go_types::{GoDataType, GoFunc};
use crate::json::{
    json_array, json_object, json_string, member_texts, object_text, quoted, quoted_array,
};
use crate::text::{
    after_prefix, all_digits, begins, byte_rows, bytes_of, cat2, cat3, chars_of, contains,
    decimal_of, digit, digit_prefix, digits_only, ends, ends_with, hex_char, hex_digit, holds,
    is_digit, last_position_of, leading_digits, lemma_lines_append, lemma_lines_ended,
    lemma_lines_lack_line_feeds, lemma_split_append, lemma_trim_push, line_list, lines, parse_decimal, reads, replace, replaced, rfind, rows, same,
    split, split_on, starts_with, string_of, strip_prefix, texts, trim, trim_end_char, trim_start,
    trimmed, trimmed_start, without_trailing,
};

verus! {

/// What came of building a harness.
#[derive(Debug, Clone, PartialEq, Eq)]
pub enum GoBuildResult {
    /// The harness was built; `forced` says what was made up for the call.
    Built { forced: Option<String> },
    /// It was not; `skip` says whether the surroundings rather than the generator are to
    /// blame.
    Failed { reason: String, skip: bool },
}

/// The language version `MAJOR.MINOR` in what `go env GOVERSION` prints.
pub open spec fn go_minor(version: Seq<char>) -> Option<Seq<char>> {
    match strip_prefix(trim(version), "go"@) {
        None => None,
        Some(version) => {
            let parts = split_on(version, '.');
            if parts.len() >= 2 && parts[0].len() > 0 && all_digits(parts[0]) && leading_digits(
                parts[1],
            ).len() > 0 {
                Some(parts[0] + "."@ + leading_digits(parts[1]))
            } else {
                None
            }
        },
    }
}

/// The language version of a toolchain: `go1.22.2` is `1.22`, a development build none.
pub fn parse_go_minor(goversion: &str) -> (r: Option<String>)
    ensures
        match r {
            Some(text) => go_minor(goversion@) == Some(text@),
            None => go_minor(goversion@) is None,
        },
{
    let chars = chars_of(goversion);
    let version = match after_prefix(trimmed(chars.as_slice()), chars_of("go").as_slice()) {
        None => {
            return None;
        },
        Some(version) => version,
    };
    let parts = split(version, '.');
    if parts.len() < 2 {
        return None;
    }
    proof {
        assert(parts@[0]@ == rows(parts@)[0]);
        assert(parts@[1]@ == rows(parts@)[1]);
    }
    let minor = digit_prefix(parts[1].as_slice());
    if parts[0].len() > 0 && digits_only(parts[0].as_slice()) && minor.len() > 0 {
        let major = string_of(parts[0].as_slice());
        let minor = string_of(minor);
        Some(cat3(major.as_str(), ".", minor.as_str()))
    } else {
        None
    }
}

/// Whether a line of `go.mod` pins a toolchain.
pub open spec fn toolchain_line(line: Seq<char>) -> bool {
    starts_with(trim_start(line), "toolchain "@)
}

/// Whether a line of `go.mod` states the language version.
pub open spec fn version_line(line: Seq<char>) -> bool {
    match strip_prefix(trim_start(line), "go "@) {
        None => false,
        Some(rest) => trim_start(rest).len() > 0 && digit(trim_start(rest)[0]),
    }
}

/// What a line of `go.mod` becomes: a toolchain pin goes, the language version becomes
/// `local`, and any other line stays as it is.
pub open spec fn lowered_line(line: Seq<char>, local: Seq<char>) -> Seq<char> {
    if toolchain_line(line) {
        Seq::empty()
    } else if version_line(line) {
        "go "@ + local + "\n"@
    } else {
        line + "\n"@
    }
}

/// The lines one after another, each as it is lowered.
pub open spec fn lowered_lines(all: Seq<Seq<char>>, local: Seq<char>) -> Seq<char>
    decreases all.len(),
{
    if all.len() == 0 {
        Seq::empty()
    } else {
        lowered_lines(all.drop_last(), local) + lowered_line(all.last(), local)
    }
}

/// Lowers the language requirement of a `go.mod` to `local_minor`, so that the installed
/// toolchain accepts the module.
pub fn lower_go_mod_directive(src: &str, local_minor: &str) -> (r: String)
    ensures
        r@ == lowered_lines(lines(src@), local_minor@),
{
    let mut out = String::new();
    let all = line_list(chars_of(src).as_slice());
    let mut i: usize = 0;
    proof {
        assert(rows(all@).take(0) =~= Seq::empty());
    }
    while i < all.len()
        invariant
            i <= all@.len(),
            out@ == lowered_lines(rows(all@).take(i as int), local_minor@),
        decreases all@.len() - i,
    {
        proof {
            assert(rows(all@).take(i + 1).drop_last() =~= rows(all@).take(i as int));
            assert(rows(all@).take(i + 1).last() == all@[i as int]@);
        }
        let line = all[i].as_slice();
        let t = trimmed_start(line);
        if begins(t, chars_of("toolchain ").as_slice()) {
            proof {
                assert(out@ + Seq::<char>::empty() =~= out@);
            }
        } else {
            let version = match after_prefix(t, chars_of("go ").as_slice()) {
                None => false,
                Some(rest) => {
                    let rest = trimmed_start(rest);
                    rest.len() > 0 && is_digit(rest[0])
                },
            };
            let new_line = if version {
                cat3("go ", local_minor, "\n")
            } else {
                cat2(string_of(line).as_str(), "\n")
            };
            out.append(new_line.as_str());
        }
        i = i + 1;
    }
    proof {
        assert(rows(all@).take(i as int) =~= rows(all@));
    }
    out
}

/// The module path that a line of `go.mod` declares, where it declares one.
pub open spec fn declared_module(line: Seq<char>) -> Option<Seq<char>> {
    match strip_prefix(trim(line), "module "@) {
        None => None,
        Some(rest) => Some(trim(rest)),
    }
}

/// The module path that the first declaring line declares.
pub open spec fn first_module(all: Seq<Seq<char>>) -> Option<Seq<char>>
    decreases all.len(),
{
    if all.len() == 0 {
        None
    } else {
        match declared_module(all[0]) {
            Some(module) => Some(module),
            None => first_module(all.skip(1)),
        }
    }
}

/// The module path that the text of a `go.mod` declares.
pub fn module_path_of(go_mod: &str) -> (r: Option<String>)
    ensures
        match r {
            Some(module) => first_module(lines(go_mod@)) == Some(module@),
            None => first_module(lines(go_mod@)) is None,
        },
{
    let all = line_list(chars_of(go_mod).as_slice());
    let mut i: usize = 0;
    proof {
        assert(rows(all@).skip(0) =~= rows(all@));
    }
    while i < all.len()
        invariant
            i <= all@.len(),
            rows(all@) == lines(go_mod@),
            first_module(rows(all@)) == first_module(rows(all@).skip(i as int)),
        decreases all@.len() - i,
    {
        proof {
            assert(rows(all@).skip(i as int)[0] == all@[i as int]@);
            assert(rows(all@).skip(i as int).skip(1) =~= rows(all@).skip(i + 1));
        }
        if let Some(rest) = after_prefix(
            trimmed(all[i].as_slice()),
            chars_of("module ").as_slice(),
        ) {
            return Some(string_of(trimmed(rest)));
        }
        i = i + 1;
    }
    None
}

/// The module path that the harness declares for itself: below the module under test, so
/// that the harness may import its internal packages.
pub open spec fn harness_module(module: Seq<char>) -> Seq<char> {
    let base = trim_end_char(module, '/');
    if base.len() == 0 {
        "bhfharness"@
    } else {
        base + "/bhfharness"@
    }
}

pub fn harness_module_path(module: &str) -> (r: String)
    ensures
        r@ == harness_module(module@),
{
    let chars = chars_of(module);
    let base = without_trailing(chars.as_slice(), '/');
    if base.len() == 0 {
        return "bhfharness".to_owned();
    }
    cat2(string_of(base).as_str(), "/bhfharness")
}

/// The coverage scopes in the order in which they are tried: the whole module, then the
/// package alone, each with the harness.
pub open spec fn coverage_scopes(module: Seq<char>, import_path: Seq<char>) -> Seq<
    Seq<char>,
> {
    let scope = trim_end_char(module, '/') + "/..."@;
    let harness = harness_module(module);
    if scope != import_path {
        seq![scope + ","@ + harness, import_path + ","@ + harness]
    } else {
        seq![scope + ","@ + harness]
    }
}

pub fn coverage_package_patterns(module: &str, import_path: &str) -> (r: Vec<String>)
    ensures
        texts(r@) == coverage_scopes(module@, import_path@),
{
    let chars = chars_of(module);
    let base = string_of(without_trailing(chars.as_slice(), '/'));
    let scope = cat2(base.as_str(), "/...");
    let harness = harness_module_path(module);
    let mut patterns: Vec<String> = Vec::new();
    patterns.push(cat3(scope.as_str(), ",", harness.as_str()));
    if !same(scope.as_str(), import_path) {
        patterns.push(cat3(import_path, ",", harness.as_str()));
    }
    proof {
        assert(texts(patterns@) =~= coverage_scopes(module@, import_path@));
    }
    patterns
}

/// The version at which the harness requires the module under test: a path that ends in
/// `/vN` with `N` at least two is required at that major version.
pub open spec fn placeholder_version(module: Seq<char>) -> Seq<char> {
    match rfind(module, "/v"@) {
        None => "v0.0.0-incompatible"@,
        Some(i) => {
            let major = module.skip(i + 2);
            match parse_decimal(major, 0xffff_ffff) {
                Some(n) => if n >= 2 {
                    "v"@ + major + ".0.0"@
                } else {
                    "v0.0.0-incompatible"@
                },
                None => "v0.0.0-incompatible"@,
            }
        },
    }
}

pub fn placeholder_module_version(module: &str) -> (r: String)
    ensures
        r@ == placeholder_version(module@),
{
    let chars = chars_of(module);
    let path = chars.as_slice();
    proof {
        reveal_strlit("/v");
    }
    if let Some(i) = last_position_of(path, chars_of("/v").as_slice()) {
        proof {
            assert(path@.subrange(i + 2, path@.len() as int) =~= path@.skip(i + 2));
        }
        let length: usize = path.len();
        let major = slice_subrange(path, i + 2, length);
        if let Some(n) = decimal_of(major, 0xffff_ffff) {
            if n >= 2 {
                let major = string_of(major);
                return cat3("v", major.as_str(), ".0.0");
            }
        }
    }
    "v0.0.0-incompatible".to_owned()
}

/// The import path of a package of the module: the module path, followed by the package's
/// directory below the module's root with slashes between its parts.
pub open spec fn import_path(module: Seq<char>, directory: Option<Seq<char>>) -> Seq<char> {
    match directory {
        None => module,
        Some(directory) => if directory.len() == 0 {
            module
        } else {
            module + "/"@ + replace(directory, "\\"@, "/"@)
        },
    }
}

/// The import path of the package in `directory`, which is relative to the module's root
/// and `None` where the target does not lie below it.
pub fn compute_import_path(module: &str, directory: Option<&str>) -> (r: String)
    ensures
        r@ == import_path(
            module@,
            match directory {
                Some(d) => Some(d@),
                None => None,
            },
        ),
{
    match directory {
        None => module.to_owned(),
        Some(directory) => {
            let chars = chars_of(directory);
            if chars.len() == 0 {
                return module.to_owned();
            }
            proof {
                reveal_strlit("\\");
            }
            let below = replaced(
                chars.as_slice(),
                chars_of("\\").as_slice(),
                chars_of("/").as_slice(),
            );
            let below = string_of(below.as_slice());
            cat3(module, "/", below.as_str())
        },
    }
}

/// The text of the harness's `go.mod`.
pub open spec fn go_mod_text(module: Seq<char>, root: Seq<char>) -> Seq<char> {
    "module "@ + harness_module(module) + "\n\ngo 1.21\n\nrequire "@ + module + " "@
        + placeholder_version(module) + "\n\nreplace "@ + module + " => "@ + root + "\n"@
}

/// The `go.mod` of the harness for the module `module` whose tree stands at `root`.
pub fn harness_go_mod(module: &str, root: &str) -> (r: String)
    ensures
        r@ == go_mod_text(module@, root@),
{
    let mut out = "module ".to_owned();
    out.append(harness_module_path(module).as_str());
    out.append("\n\ngo 1.21\n\nrequire ");
    out.append(module);
    out.append(" ");
    out.append(placeholder_module_version(module).as_str());
    out.append("\n\nreplace ");
    out.append(module);
    out.append(" => ");
    out.append(root);
    out.append("\n");
    out
}

/// The overlay file that maps `go_mod` to `lowered`.
pub open spec fn overlay_text(go_mod: Seq<char>, lowered: Seq<char>) -> Seq<char> {
    json_object(seq![("Replace"@, json_object(seq![(go_mod, json_string(lowered))]))])
}

/// The text of a `go build -overlay` file that replaces `go_mod` by `lowered`.
pub fn overlay_json(go_mod: &str, lowered: &str) -> (r: String)
    ensures
        r@ == overlay_text(go_mod@, lowered@),
{
    let mut inner: Vec<(String, String)> = Vec::new();
    inner.push((go_mod.to_owned(), quoted(lowered)));
    proof {
        assert(member_texts(inner@) =~= seq![(go_mod@, json_string(lowered@))]);
    }
    let mut outer: Vec<(String, String)> = Vec::new();
    outer.push(("Replace".to_owned(), object_text(inner.as_slice())));
    proof {
        assert(member_texts(outer@) =~= seq![
            ("Replace"@, json_object(seq![(go_mod@, json_string(lowered@))])),
        ]);
    }
    object_text(outer.as_slice())
}

/// How a mutation dictionary writes one byte of a token.
pub open spec fn dictionary_byte(b: u8) -> Seq<char> {
    if b == 0x5c {
        "\\\\"@
    } else if b == 0x22 {
        "\\\""@
    } else if b == 0x0a {
        "\\n"@
    } else if b == 0x0d {
        "\\r"@
    } else if b == 0x09 {
        "\\t"@
    } else if 0x20 <= b <= 0x7e {
        seq![b as char]
    } else {
        "\\x"@.push(hex_char(b as nat / 16)).push(hex_char(b as nat % 16))
    }
}

/// The bytes one after another, each as a mutation dictionary writes it.
pub open spec fn dictionary_bytes(token: Seq<u8>) -> Seq<char>
    decreases token.len(),
{
    if token.len() == 0 {
        Seq::empty()
    } else {
        dictionary_bytes(token.drop_last()) + dictionary_byte(token.last())
    }
}

/// `token` as a mutation dictionary writes it between quotation marks.
pub fn escape_afl_dictionary_token(token: &[u8]) -> (r: String)
    ensures
        r@ == dictionary_bytes(token@),
{
    let mut out = String::new();
    let mut i: usize = 0;
    proof {
        assert(token@.take(0) =~= Seq::empty());
    }
    while i < token.len()
        invariant
            i <= token@.len(),
            out@ == dictionary_bytes(token@.take(i as int)),
        decreases token@.len() - i,
    {
        let b: u8 = token[i];
        proof {
            assert(token@.take(i + 1).drop_last() =~= token@.take(i as int));
        }
        if b == 0x5c {
            out.append("\\\\");
        } else if b == 0x22 {
            out.append("\\\"");
        } else if b == 0x0a {
            out.append("\\n");
        } else if b == 0x0d {
            out.append("\\r");
        } else if b == 0x09 {
            out.append("\\t");
        } else if 0x20 <= b && b <= 0x7e {
            out.push(b as char);
            proof {
                assert(out@ =~= dictionary_bytes(token@.take(i as int)) + seq![b as char]);
            }
        } else {
            let ghost before = out@;
            out.append("\\x");
            out.push(hex_digit(b / 16));
            out.push(hex_digit(b % 16));
            proof {
                assert(out@ =~= before + dictionary_byte(b));
            }
        }
        i = i + 1;
    }
    proof {
        assert(token@.take(i as int) =~= token@);
    }
    out
}

/// The dictionary line for `token`, without its line feed.
pub open spec fn dictionary_entry(token: Seq<char>) -> Seq<char> {
    seq!['"'] + dictionary_bytes(encode_utf8(token)) + seq!['"']
}

/// Whether a line of `contents` is `entry` but for the white space around it.
pub open spec fn has_entry(contents: Seq<char>, entry: Seq<char>) -> bool {
    exists|i: int|
        0 <= i < lines(contents).len() && trim(#[trigger] lines(contents)[i]) == trim(entry)
}

/// `contents` with its last line ended.
pub open spec fn ended(contents: Seq<char>) -> Seq<char> {
    if contents.len() > 0 && contents.last() != '\n' {
        contents.push('\n')
    } else {
        contents
    }
}

/// `contents` with a line for `token` where it has none.
pub open spec fn with_token(contents: Seq<char>, token: Seq<char>) -> Seq<char> {
    if has_entry(contents, dictionary_entry(token).push('\n')) {
        contents
    } else {
        ended(contents) + dictionary_entry(token).push('\n')
    }
}

/// `contents` with a line for each of `tokens`.
pub open spec fn with_tokens(contents: Seq<char>, tokens: Seq<Seq<char>>) -> Seq<char>
    decreases tokens.len(),
{
    if tokens.len() == 0 {
        contents
    } else {
        with_token(with_tokens(contents, tokens.drop_last()), tokens.last())
    }
}

fn entry_is_there(contents: &[char], entry: &[char]) -> (r: bool)
    ensures
        r == has_entry(contents@, entry@),
{
    let all = line_list(contents);
    let wanted = string_of(trimmed(entry));
    let mut i: usize = 0;
    while i < all.len()
        invariant
            i <= all@.len(),
            rows(all@) == lines(contents@),
            wanted@ == trim(entry@),
            forall|k: int| 0 <= k < i ==> trim(#[trigger] lines(contents@)[k]) != trim(entry@),
        decreases all@.len() - i,
    {
        proof {
            assert(rows(all@)[i as int] == all@[i as int]@);
        }
        if reads(trimmed(all[i].as_slice()), wanted.as_str()) {
            proof {
                assert(trim(lines(contents@)[i as int]) == trim(entry@));
            }
            return true;
        }
        i = i + 1;
    }
    proof {
        assert(rows(all@).len() == all@.len());
    }
    false
}

/// The mutation dictionary `contents` with an entry for each of `tokens` that it lacks,
/// `None` where there is nothing to add.
pub fn append_json_seed_dictionary(contents: &str, tokens: &[String]) -> (r: Option<String>)
    ensures
        match r {
            Some(text) => tokens@.len() > 0 && text@ == with_tokens(contents@, texts(tokens@)),
            None => tokens@.len() == 0,
        },
{
    if tokens.len() == 0 {
        return None;
    }
    let mut out = chars_of(contents);
    let mut i: usize = 0;
    proof {
        assert(texts(tokens@).take(0) =~= Seq::empty());
    }
    while i < tokens.len()
        invariant
            i <= tokens@.len(),
            out@ == with_tokens(contents@, texts(tokens@).take(i as int)),
        decreases tokens@.len() - i,
    {
        proof {
            assert(texts(tokens@).take(i + 1).drop_last() =~= texts(tokens@).take(i as int));
            assert(texts(tokens@).take(i + 1).last() == tokens@[i as int]@);
        }
        let escaped = escape_afl_dictionary_token(bytes_of(tokens[i].as_str()).as_slice());
        let mut entry: Vec<char> = Vec::new();
        entry.push('"');
        entry.extend_from_slice(chars_of(escaped.as_str()).as_slice());
        entry.push('"');
        entry.push('\n');
        proof {
            assert(entry@ =~= dictionary_entry(tokens@[i as int]@).push('\n'));
        }
        if !entry_is_there(out.as_slice(), entry.as_slice()) {
            let ghost before = out@;
            if out.len() > 0 && out[out.len() - 1] != '\n' {
                out.push('\n');
            }
            proof {
                assert(out@ == ended(before));
            }
            out.extend_from_slice(entry.as_slice());
            proof {
                assert(out@ =~= ended(before) + entry@);
            }
        }
        i = i + 1;
    }
    proof {
        assert(texts(tokens@).take(i as int) =~= texts(tokens@));
    }
    Some(string_of(out.as_slice()))
}

/// The most structured seeds that are kept.
pub const MAX_STRUCTURED_SEEDS: usize = 16;

/// The most bytes that a file of structured seeds may hold.
pub const MAX_STRUCTURED_SEEDS_BYTES: u64 = 65536;

/// What is to become of the file of structured seeds.
#[derive(Debug, Clone, PartialEq, Eq)]
pub enum SeedFile {
    /// There are no seeds: the file goes.
    Remove,
    /// The file holds these bytes.
    Write { bytes: Vec<u8> },
}

/// The bytes of a file that holds `tokens`.
pub open spec fn seed_bytes(tokens: Seq<Seq<char>>) -> Seq<u8> {
    encode_utf8(json_array(tokens))
}

/// Whether `tokens` keep to the budget.
pub open spec fn seeds_fit(tokens: Seq<Seq<char>>) -> bool {
    tokens.len() <= MAX_STRUCTURED_SEEDS && seed_bytes(tokens).len() <= MAX_STRUCTURED_SEEDS_BYTES
}

/// What the file of structured seeds holds for `tokens`.
pub fn structured_seed_file(tokens: &[String]) -> (r: Result<SeedFile, String>)
    ensures
        match r {
            Ok(SeedFile::Remove) => tokens@.len() == 0,
            Ok(SeedFile::Write { bytes }) => {
                &&& tokens@.len() > 0
                &&& seeds_fit(texts(tokens@))
                &&& bytes@ == seed_bytes(texts(tokens@))
            },
            Err(reason) => {
                &&& tokens@.len() > 0
                &&& !seeds_fit(texts(tokens@))
                &&& reason@ == "generated structured seeds exceed the input budget"@
            },
        },
{
    if tokens.len() == 0 {
        return Ok(SeedFile::Remove);
    }
    let text = quoted_array(tokens);
    let bytes = bytes_of(text.as_str());
    if tokens.len() > MAX_STRUCTURED_SEEDS || bytes.len() as u64 > MAX_STRUCTURED_SEEDS_BYTES {
        return Err("generated structured seeds exceed the input budget".to_owned());
    }
    Ok(SeedFile::Write { bytes })
}

/// What `serde_json` reads from bytes that should hold an array of strings: the strings,
/// or the text of its error.
pub uninterp spec fn parsed_strings(bytes: Seq<u8>) -> Result<Seq<Seq<char>>, Seq<char>>;

/// Whether a list of strings, or an error text, is `want`.
pub open spec fn strings_are(
    r: Result<Vec<String>, String>,
    want: Result<Seq<Seq<char>>, Seq<char>>,
) -> bool {
    match (r, want) {
        (Ok(got), Ok(want)) => texts(got@) == want,
        (Err(got), Err(want)) => got@ == want,
        _ => false,
    }
}

/// `serde_json::from_slice` into a list of strings. What it gives depends on the bytes
/// alone, and from an array of strings that `serde_json` wrote it gives those strings.
#[verifier::external_body]
fn parse_strings(bytes: &[u8]) -> (r: Result<Vec<String>, String>)
    ensures
        strings_are(r, parsed_strings(bytes@)),
        forall|items: Seq<Seq<char>>|
            bytes@ == #[trigger] seed_bytes(items) ==> strings_are(r, Ok(items)),
{
    serde_json::from_slice::<Vec<String>>(bytes).map_err(|error| error.to_string())
}

/// Whether a file of structured seeds may be read, `path` being its name.
pub fn seed_file_readable(path: &str, is_file: bool, size: u64) -> (r: Result<(), String>)
    ensures
        r is Ok <==> is_file && size <= MAX_STRUCTURED_SEEDS_BYTES,
        r matches Err(reason) ==> reason@ == "structured seed file '"@ + path@
            + "' exceeds its budget"@,
{
    if !is_file || size > MAX_STRUCTURED_SEEDS_BYTES {
        return Err(cat3("structured seed file '", path, "' exceeds its budget"));
    }
    Ok(())
}

/// The UTF-8 bytes of each of `v`.
pub open spec fn encoded(v: Seq<Seq<char>>) -> Seq<Seq<u8>> {
    Seq::new(v.len(), |i: int| encode_utf8(v[i]))
}

/// What the bytes of the file `path` give as starting inputs, `parsed` being what they
/// hold as JSON.
pub open spec fn seed_inputs(
    path: Seq<char>,
    size: nat,
    parsed: Result<Seq<Seq<char>>, Seq<char>>,
) -> Result<Seq<Seq<u8>>, Seq<char>> {
    if size > MAX_STRUCTURED_SEEDS_BYTES {
        Err("structured seed file '"@ + path + "' exceeds its budget"@)
    } else {
        match parsed {
            Err(error) => Err("parse '"@ + path + "': "@ + error),
            Ok(tokens) => if tokens.len() > MAX_STRUCTURED_SEEDS {
                Err("structured seed file '"@ + path + "' has too many inputs"@)
            } else {
                Ok(encoded(tokens))
            },
        }
    }
}

/// The starting inputs that `tokens`, read from the file `path`, give.
pub fn inputs_of_tokens(path: &str, size: usize, tokens: Result<Vec<String>, String>) -> (r: Result<
    Vec<Vec<u8>>,
    String,
>)
    ensures
        match (
            r,
            seed_inputs(
                path@,
                size as nat,
                match tokens {
                    Ok(tokens) => Ok(texts(tokens@)),
                    Err(error) => Err(error@),
                },
            ),
        ) {
            (Ok(got), Ok(want)) => byte_rows(got@) == want,
            (Err(got), Err(want)) => got@ == want,
            _ => false,
        },
{
    if size as u64 > MAX_STRUCTURED_SEEDS_BYTES {
        return Err(cat3("structured seed file '", path, "' exceeds its budget"));
    }
    let tokens = match tokens {
        Err(error) => {
            let mut out = cat3("parse '", path, "': ");
            out.append(error.as_str());
            return Err(out);
        },
        Ok(tokens) => tokens,
    };
    if tokens.len() > MAX_STRUCTURED_SEEDS {
        return Err(cat3("structured seed file '", path, "' has too many inputs"));
    }
    let mut out: Vec<Vec<u8>> = Vec::new();
    let mut i: usize = 0;
    while i < tokens.len()
        invariant
            i <= tokens@.len(),
            out@.len() == i,
            forall|k: int| 0 <= k < i ==> (#[trigger] out@[k])@ == encode_utf8(tokens@[k]@),
        decreases tokens@.len() - i,
    {
        out.push(bytes_of(tokens[i].as_str()));
        i = i + 1;
    }
    proof {
        assert(byte_rows(out@) =~= encoded(texts(tokens@)));
    }
    Ok(out)
}

/// The starting inputs that the bytes of the file `path` hold: what was written for a
/// list of texts that keeps to the budget gives back those texts.
pub fn load_structured_seed_inputs(path: &str, bytes: &[u8]) -> (r: Result<Vec<Vec<u8>>, String>)
    ensures
        match (r, seed_inputs(path@, bytes@.len(), parsed_strings(bytes@))) {
            (Ok(got), Ok(want)) => byte_rows(got@) == want,
            (Err(got), Err(want)) => got@ == want,
            _ => false,
        },
        forall|tokens: Seq<Seq<char>>|
            bytes@ == #[trigger] seed_bytes(tokens) && seeds_fit(tokens) ==> (r matches Ok(got)
                && byte_rows(got@) == encoded(tokens)),
{
    let tokens = parse_strings(bytes);
    inputs_of_tokens(path, bytes.len(), tokens)
}

proof fn lemma_dictionary_bytes(token: Seq<u8>)
    ensures
        !dictionary_bytes(token).contains('\n'),
    decreases token.len(),
{
    reveal_strlit("\\\\");
    reveal_strlit("\\\"");
    reveal_strlit("\\n");
    reveal_strlit("\\r");
    reveal_strlit("\\t");
    reveal_strlit("\\x");
    if token.len() > 0 {
        lemma_dictionary_bytes(token.drop_last());
        let head = dictionary_bytes(token.drop_last());
        let tail = dictionary_byte(token.last());
        assert forall|i: int| 0 <= i < (head + tail).len() implies (head + tail)[i] != '\n' by {
            if i < head.len() {
                assert(head[i] == (head + tail)[i]);
                assert(head.contains(head[i]));
            } else {
                assert((head + tail)[i] == tail[i - head.len()]);
            }
        }
    }
}

/// A dictionary to which a token was added has its entry, and keeps every entry it had.
pub proof fn adding_a_token_keeps_entries(
    contents: Seq<char>,
    token: Seq<char>,
    entry: Seq<char>,
)
    ensures
        has_entry(with_token(contents, token), dictionary_entry(token).push('\n')),
        has_entry(contents, entry) ==> has_entry(with_token(contents, token), entry),
{
    let line = dictionary_entry(token);
    lemma_dictionary_bytes(encode_utf8(token));
    assert(!line.contains('\n')) by {
        let inner = dictionary_bytes(encode_utf8(token));
        assert forall|i: int| 0 <= i < line.len() implies line[i] != '\n' by {
            if 0 < i < line.len() - 1 {
                assert(line[i] == inner[i - 1]);
                assert(inner.contains(inner[i - 1]));
            }
        }
    }
    assert(line.last() == '"');
    if !has_entry(contents, line.push('\n')) {
        let base = ended(contents);
        let all = with_token(contents, token);
        lemma_lines_append(base, line);
        assert((base + line).push('\n') =~= base + line.push('\n'));
        assert(lines(all) == lines(base).push(line));
        assert(lines(all)[lines(base).len() as int] == line);
        lemma_trim_push(line, '\n');
        if has_entry(contents, entry) {
            let i = choose|i: int|
                0 <= i < lines(contents).len() && trim(#[trigger] lines(contents)[i]) == trim(
                    entry,
                );
            if base != contents {
                lemma_lines_ended(contents);
            }
            assert(trim(lines(base)[i]) == trim(lines(contents)[i]));
            assert(lines(all)[i] == lines(base)[i]);
        }
    }
}

/// A dictionary to which tokens were added has an entry for each of them.
pub proof fn added_tokens_have_entries(contents: Seq<char>, tokens: Seq<Seq<char>>)
    ensures
        forall|i: int|
            0 <= i < tokens.len() ==> has_entry(
                with_tokens(contents, tokens),
                dictionary_entry(#[trigger] tokens[i]).push('\n'),
            ),
    decreases tokens.len(),
{
    if tokens.len() > 0 {
        added_tokens_have_entries(contents, tokens.drop_last());
        assert forall|i: int| 0 <= i < tokens.len() implies has_entry(
            with_tokens(contents, tokens),
            dictionary_entry(#[trigger] tokens[i]).push('\n'),
        ) by {
            let entry = dictionary_entry(tokens[i]).push('\n');
            if i < tokens.len() - 1 {
                assert(tokens[i] == tokens.drop_last()[i]);
            }
            adding_a_token_keeps_entries(
                with_tokens(contents, tokens.drop_last()),
                tokens.last(),
                entry,
            );
        }
    }
}

/// Adding the same tokens again changes nothing.
pub proof fn adding_tokens_twice_is_adding_them_once(
    contents: Seq<char>,
    tokens: Seq<Seq<char>>,
)
    ensures
        with_tokens(with_tokens(contents, tokens), tokens) == with_tokens(contents, tokens),
{
    added_tokens_have_entries(contents, tokens);
    lemma_present_tokens_add_nothing(with_tokens(contents, tokens), tokens);
}

proof fn lemma_present_tokens_add_nothing(contents: Seq<char>, tokens: Seq<Seq<char>>)
    requires
        forall|i: int|
            0 <= i < tokens.len() ==> has_entry(
                contents,
                dictionary_entry(#[trigger] tokens[i]).push('\n'),
            ),
    ensures
        with_tokens(contents, tokens) == contents,
    decreases tokens.len(),
{
    if tokens.len() > 0 {
        assert forall|i: int| 0 <= i < tokens.len() - 1 implies has_entry(
            contents,
            dictionary_entry(#[trigger] tokens.drop_last()[i]).push('\n'),
        ) by {
            assert(tokens.drop_last()[i] == tokens[i]);
        }
        lemma_present_tokens_add_nothing(contents, tokens.drop_last());
        assert(tokens.last() == tokens[tokens.len() - 1]);
    }
}

proof fn lemma_hex_char(n: nat)
    requires
        n < 16,
    ensures
        hex_char(n) as u32 == if n < 10 {
            0x30 + n
        } else {
            0x57 + n
        },
{
}

proof fn lemma_dictionary_byte(b: u8)
    ensures
        dictionary_byte(b).len() > 0,
        dictionary_byte(b)[0] == '\\' || dictionary_byte(b) == seq![b as char],
        forall|k: int|
            0 <= k < dictionary_byte(b).len() ==> ' ' <= #[trigger] dictionary_byte(b)[k] <= '~',
        forall|k: int|
            0 <= k < dictionary_byte(b).len() && #[trigger] dictionary_byte(b)[k] == '"' ==> b
                == 0x22 && k == 1,
{
    reveal_strlit("\\\\");
    reveal_strlit("\\\"");
    reveal_strlit("\\n");
    reveal_strlit("\\r");
    reveal_strlit("\\t");
    reveal_strlit("\\x");
    lemma_hex_char(b as nat / 16);
    lemma_hex_char(b as nat % 16);
}

/// The dictionary writes joined tokens as it writes the one and then the other.
pub proof fn joined_tokens_are_written_one_after_the_other(a: Seq<u8>, b: Seq<u8>)
    ensures
        dictionary_bytes(a + b) == dictionary_bytes(a) + dictionary_bytes(b),
    decreases b.len(),
{
    if b.len() == 0 {
        assert(a + b =~= a);
        assert(dictionary_bytes(a) + Seq::<char>::empty() =~= dictionary_bytes(a));
    } else {
        assert((a + b).drop_last() =~= a + b.drop_last());
        joined_tokens_are_written_one_after_the_other(a, b.drop_last());
        assert(dictionary_bytes(a) + (dictionary_bytes(b.drop_last()) + dictionary_byte(b.last()))
            =~= (dictionary_bytes(a) + dictionary_bytes(b.drop_last())) + dictionary_byte(
            b.last(),
        ));
    }
}

/// Whether the character at `k` of what the dictionary writes for `token` is the second one
/// of an escaped quotation mark, which begins just before it.
pub open spec fn escaped_quote(token: Seq<u8>, k: int) -> bool {
    exists|i: int|
        0 <= i < token.len() && #[trigger] token[i] == 0x22 && dictionary_bytes(token.take(i)).len()
            == k - 1 && dictionary_bytes(token)[k - 1] == '\\'
}

/// What the dictionary writes is printable ASCII, and every quotation mark in it stands
/// behind the backslash of its own escape.
pub proof fn dictionary_tokens_are_printable(token: Seq<u8>)
    ensures
        forall|k: int|
            0 <= k < dictionary_bytes(token).len() ==> ' ' <= #[trigger] dictionary_bytes(token)[k]
                <= '~',
        forall|k: int|
            0 <= k < dictionary_bytes(token).len() && #[trigger] dictionary_bytes(token)[k] == '"'
                ==> escaped_quote(token, k),
    decreases token.len(),
{
    if token.len() > 0 {
        let front = token.drop_last();
        let before = dictionary_bytes(front);
        let all = dictionary_bytes(token);
        dictionary_tokens_are_printable(front);
        lemma_dictionary_byte(token.last());
        assert forall|k: int| 0 <= k < all.len() implies ' ' <= #[trigger] all[k] <= '~' by {
            if k >= before.len() {
                assert(all[k] == dictionary_byte(token.last())[k - before.len()]);
            }
        }
        assert forall|k: int| 0 <= k < all.len() && #[trigger] all[k] == '"' implies escaped_quote(
            token,
            k,
        ) by {
            if k < before.len() {
                assert(before[k] == '"');
                let i = choose|i: int|
                    0 <= i < front.len() && #[trigger] front[i] == 0x22 && dictionary_bytes(
                        front.take(i),
                    ).len() == k - 1 && before[k - 1] == '\\';
                assert(front.take(i) =~= token.take(i));
                assert(token[i] == 0x22);
            } else {
                let n = token.len() - 1;
                assert(all[k] == dictionary_byte(token.last())[k - before.len()]);
                reveal_strlit("\\\"");
                assert(token.take(n) =~= front);
                assert(token[n] == 0x22);
                assert(all[k - 1] == dictionary_byte(token.last())[0]);
            }
        }
    }
}

proof fn lemma_first_byte_is_told(x: u8, y: u8, s: Seq<char>, t: Seq<char>)
    requires
        dictionary_byte(x) + s == dictionary_byte(y) + t,
    ensures
        x == y,
        s == t,
{
    reveal_strlit("\\\\");
    reveal_strlit("\\\"");
    reveal_strlit("\\n");
    reveal_strlit("\\r");
    reveal_strlit("\\t");
    reveal_strlit("\\x");
    let a = dictionary_byte(x);
    let b = dictionary_byte(y);
    lemma_dictionary_byte(x);
    lemma_dictionary_byte(y);
    lemma_hex_char(x as nat / 16);
    lemma_hex_char(x as nat % 16);
    lemma_hex_char(y as nat / 16);
    lemma_hex_char(y as nat % 16);
    assert((a + s)[0] == a[0] && (b + t)[0] == b[0]);
    if a.len() > 1 {
        assert((a + s)[1] == a[1]);
    }
    if b.len() > 1 {
        assert((b + t)[1] == b[1]);
    }
    if a.len() > 3 {
        assert((a + s)[2] == a[2] && (a + s)[3] == a[3]);
    }
    if b.len() > 3 {
        assert((b + t)[2] == b[2] && (b + t)[3] == b[3]);
    }
    assert(x == y);
    assert((a + s).skip(a.len() as int) =~= s);
    assert((b + t).skip(b.len() as int) =~= t);
}

/// What the dictionary writes can be undone: no two tokens are written alike.
pub proof fn dictionary_tokens_can_be_read_back(a: Seq<u8>, b: Seq<u8>)
    requires
        dictionary_bytes(a) == dictionary_bytes(b),
    ensures
        a == b,
    decreases a.len(),
{
    reveal_with_fuel(dictionary_bytes, 2);
    if a.len() > 0 {
        let head = a.take(1);
        assert(head.drop_last() =~= Seq::empty());
        assert(a =~= head + a.skip(1));
        joined_tokens_are_written_one_after_the_other(head, a.skip(1));
        assert(dictionary_bytes(head) =~= dictionary_byte(a[0]));
        lemma_dictionary_byte(a[0]);
    }
    if b.len() > 0 {
        let head = b.take(1);
        assert(head.drop_last() =~= Seq::empty());
        assert(b =~= head + b.skip(1));
        joined_tokens_are_written_one_after_the_other(head, b.skip(1));
        assert(dictionary_bytes(head) =~= dictionary_byte(b[0]));
        lemma_dictionary_byte(b[0]);
    }
    if a.len() > 0 && b.len() > 0 {
        lemma_first_byte_is_told(
            a[0],
            b[0],
            dictionary_bytes(a.skip(1)),
            dictionary_bytes(b.skip(1)),
        );
        dictionary_tokens_can_be_read_back(a.skip(1), b.skip(1));
    }
}

/// A `go.mod` without a version line and without a toolchain pin is lowered to itself,
/// each of its lines ended by a line feed.
pub proof fn other_lines_are_kept(all: Seq<Seq<char>>, local: Seq<char>)
    requires
        forall|i: int|
            0 <= i < all.len() ==> !toolchain_line(#[trigger] all[i]) && !version_line(all[i]),
    ensures
        lowered_lines(all, local) == terminated_lines(all),
    decreases all.len(),
{
    if all.len() > 0 {
        assert forall|i: int| 0 <= i < all.len() - 1 implies !toolchain_line(
            #[trigger] all.drop_last()[i],
        ) && !version_line(all.drop_last()[i]) by {
            assert(all.drop_last()[i] == all[i]);
        }
        other_lines_are_kept(all.drop_last(), local);
        assert(all.last() == all[all.len() - 1]);
    }
}

/// The lines of a `go.mod` once it is lowered: those that pin a toolchain are gone, those
/// that state the language version state `local`, and the others are as they were.
pub open spec fn lowered_rows(all: Seq<Seq<char>>, local: Seq<char>) -> Seq<Seq<char>>
    decreases all.len(),
{
    if all.len() == 0 {
        Seq::empty()
    } else {
        let before = lowered_rows(all.drop_last(), local);
        if toolchain_line(all.last()) {
            before
        } else if version_line(all.last()) {
            before.push("go "@ + local)
        } else {
            before.push(all.last())
        }
    }
}

/// Whether a line ends in a carriage return.
pub open spec fn ends_in_return(line: Seq<char>) -> bool {
    line.len() > 0 && line.last() == '\r'
}

/// The lines of a lowered `go.mod` are its lines as they are lowered, in their order, each
/// ended by a line feed; and lowering it once more changes nothing. Left out is only what
/// would be read back as other lines: a version with a line feed in it, and one or a line
/// to be kept that ends in a carriage return.
pub proof fn lowering_twice_is_lowering_once(src: Seq<char>, local: Seq<char>)
    requires
        !local.contains('\n'),
        !ends_in_return(local),
        forall|i: int|
            0 <= i < lines(src).len() ==> (ends_in_return(#[trigger] lines(src)[i])
                ==> toolchain_line(lines(src)[i]) || version_line(lines(src)[i])),
    ensures
        ({
            let o = lowered_lines(lines(src), local);
            &&& lines(o) == lowered_rows(lines(src), local)
            &&& o == terminated_lines(lines(o))
            &&& o.len() == 0 || o.last() == '\n'
            &&& lowered_lines(lines(o), local) == o
        }),
{
    let all = lines(src);
    lemma_lines_lack_line_feeds(src);
    lemma_lowered_rows(all, local);
    lemma_terminated_lines(lowered_rows(all, local));
    lemma_lowered_again(all, local);
    lemma_lowered_text(all, local);
    lemma_lowered_text(lowered_rows(all, local), local);
}

/// A language version is two numbers with a dot between them, is read back from a toolchain
/// of that version, and can stand in a `go.mod`: its line states a version, and the file is
/// lowered to it once and for all.
pub proof fn a_language_version_is_two_numbers(version: Seq<char>)
    ensures
        go_minor(version) matches Some(minor) ==> {
            &&& digit(minor[0]) && digit(minor.last())
            &&& forall|i: int|
                0 <= i < minor.len() ==> digit(#[trigger] minor[i]) || minor[i] == '.'
            &&& split_on(minor, '.').len() == 2
            &&& go_minor("go"@ + minor) == Some(minor)
            &&& version_line("go "@ + minor)
            &&& !minor.contains('\n') && !ends_in_return(minor)
        },
{
    if let Some(minor) = go_minor(version) {
        reveal_strlit("go");
        reveal_strlit("go ");
        reveal_strlit(".");
        let parts = split_on(strip_prefix(trim(version), "go"@)->0, '.');
        let a = parts[0];
        let b = leading_digits(parts[1]);
        lemma_leading_digits(parts[1]);
        lemma_leading_digits(b);
        let empty = Seq::<char>::empty();
        assert(!a.contains('.') && !b.contains('.')) by {
            if a.contains('.') {
                let i = choose|i: int| 0 <= i < a.len() && a[i] == '.';
                assert(digit(a[i]));
            }
            if b.contains('.') {
                let i = choose|i: int| 0 <= i < b.len() && b[i] == '.';
                assert(digit(b[i]));
            }
        }
        lemma_split_append(empty, a, '.');
        let head = (empty + a).push('.');
        lemma_split_append(head, b, '.');
        assert(minor =~= head + b);
        assert(empty + a =~= a);
        assert(empty + b =~= b);
        assert(split_on(minor, '.') =~= seq![a, b]);
        assert(digit(a[0]) && digit(b[b.len() - 1]));
        assert forall|i: int| 0 <= i < minor.len() implies digit(#[trigger] minor[i]) || minor[i]
            == '.' by {
            if i < a.len() {
                assert(minor[i] == a[i]);
            } else if i > a.len() {
                assert(minor[i] == b[i - a.len() - 1]);
            }
        }
        if minor.contains('\n') {
            let i = choose|i: int| 0 <= i < minor.len() && minor[i] == '\n';
            assert(digit(minor[i]) || minor[i] == '.');
        }
        let name = "go"@ + minor;
        assert(name[0] == 'g' && name.last() == minor.last());
        assert(trim(name) == name);
        assert(name.subrange(0, 2) =~= "go"@);
        assert(name.skip(2) =~= minor);
        let line = "go "@ + minor;
        assert(line[0] == 'g');
        assert(trim_start(line) == line);
        assert(line.subrange(0, 3) =~= "go "@);
        assert(line.skip(3) =~= minor);
        assert(trim_start(minor) == minor);
    }
}

proof fn lemma_leading_digits(s: Seq<char>)
    ensures
        all_digits(leading_digits(s)),
        all_digits(s) ==> leading_digits(s) == s,
    decreases s.len(),
{
    if s.len() > 0 && digit(s[0]) {
        lemma_leading_digits(s.skip(1));
        assert(seq![s[0]] + s.skip(1) =~= s);
    }
}

proof fn lemma_version_row(local: Seq<char>)
    ensures
        !toolchain_line("go "@ + local),
{
    reveal_strlit("go ");
    reveal_strlit("toolchain ");
    let row = "go "@ + local;
    assert(row[0] == 'g');
    assert(trim_start(row) == row);
    if starts_with(row, "toolchain "@) {
        assert(row.subrange(0, 10)[0] == row[0]);
    }
}

proof fn lemma_lowered_text(all: Seq<Seq<char>>, local: Seq<char>)
    ensures
        lowered_lines(all, local) == terminated_lines(lowered_rows(all, local)),
    decreases all.len(),
{
    if all.len() > 0 {
        lemma_lowered_text(all.drop_last(), local);
        let before = lowered_rows(all.drop_last(), local);
        if toolchain_line(all.last()) {
            assert(lowered_lines(all, local) =~= lowered_lines(all.drop_last(), local));
        } else {
            let row = lowered_rows(all, local).last();
            assert(before.push(row).drop_last() =~= before);
        }
    }
}

proof fn lemma_lowered_rows(all: Seq<Seq<char>>, local: Seq<char>)
    requires
        !local.contains('\n'),
        !ends_in_return(local),
        forall|i: int|
            0 <= i < all.len() ==> !(#[trigger] all[i]).contains('\n') && (ends_in_return(all[i])
                ==> toolchain_line(all[i]) || version_line(all[i])),
    ensures
        forall|i: int|
            0 <= i < lowered_rows(all, local).len() ==> !(#[trigger] lowered_rows(
                all,
                local,
            )[i]).contains('\n') && !ends_in_return(lowered_rows(all, local)[i]),
    decreases all.len(),
{
    if all.len() > 0 {
        let front = all.drop_last();
        assert forall|i: int| 0 <= i < front.len() implies !(#[trigger] front[i]).contains('\n')
            && (ends_in_return(front[i]) ==> toolchain_line(front[i]) || version_line(front[i])) by {
            assert(front[i] == all[i]);
        }
        lemma_lowered_rows(front, local);
        assert(all.last() == all[all.len() - 1]);
        reveal_strlit("go ");
        let row = "go "@ + local;
        if row.contains('\n') {
            let k = choose|k: int| 0 <= k < row.len() && row[k] == '\n';
            assert(local[k - 3] == '\n');
        }
        assert(!ends_in_return(row)) by {
            if local.len() > 0 {
                assert(row.last() == local.last());
            } else {
                assert(row.last() == ' ');
            }
        }
        let before = lowered_rows(front, local);
        let after = lowered_rows(all, local);
        assert forall|i: int| 0 <= i < after.len() implies !(#[trigger] after[i]).contains('\n')
            && !ends_in_return(after[i]) by {
            if i < before.len() {
                assert(after[i] == before[i]);
            }
        }
    }
}

proof fn lemma_lowered_again(all: Seq<Seq<char>>, local: Seq<char>)
    ensures
        lowered_rows(lowered_rows(all, local), local) == lowered_rows(all, local),
    decreases all.len(),
{
    if all.len() > 0 {
        lemma_lowered_again(all.drop_last(), local);
        lemma_version_row(local);
        let before = lowered_rows(all.drop_last(), local);
        if !toolchain_line(all.last()) {
            let row = lowered_rows(all, local).last();
            assert(before.push(row).drop_last() =~= before);
        }
    }
}

proof fn lemma_terminated_lines(all: Seq<Seq<char>>)
    requires
        forall|i: int|
            0 <= i < all.len() ==> !(#[trigger] all[i]).contains('\n') && !ends_in_return(all[i]),
    ensures
        lines(terminated_lines(all)) == all,
        terminated_lines(all).len() == 0 || terminated_lines(all).last() == '\n',
    decreases all.len(),
{
    reveal_strlit("\n");
    if all.len() == 0 {
        assert(lines(Seq::<char>::empty()) =~= Seq::<Seq<char>>::empty());
    } else {
        let front = all.drop_last();
        assert forall|i: int| 0 <= i < front.len() implies !(#[trigger] front[i]).contains('\n')
            && !ends_in_return(front[i]) by {
            assert(front[i] == all[i]);
        }
        lemma_terminated_lines(front);
        assert(all.last() == all[all.len() - 1]);
        lemma_lines_append(terminated_lines(front), all.last());
        assert(terminated_lines(all) =~= (terminated_lines(front) + all.last()).push('\n'));
        assert(front.push(all.last()) =~= all);
    }
}

/// The lines one after another, each ended by a line feed.
pub open spec fn terminated_lines(all: Seq<Seq<char>>) -> Seq<char>
    decreases all.len(),
{
    if all.len() == 0 {
        Seq::empty()
    } else {
        terminated_lines(all.drop_last()) + (all.last() + "\n"@)
    }
}

/// The files of a harness, and how its coverage is scoped.
#[derive(Debug, Clone, PartialEq, Eq)]
pub struct GoHarness {
    /// The import path of the package under test.
    pub import_path: String,
    /// The statements of the call, and what comes with them.
    pub call: GoCall,
    /// The harness program.
    pub main_go: String,
    /// The harness's `go.mod`.
    pub go_mod: String,
    /// The coverage scopes in the order in which they are tried.
    pub coverage_patterns: Vec<String>,
}

/// The module under test: where its tree stands and what it is called.
#[derive(Debug, Clone, PartialEq, Eq)]
pub struct GoModule {
    pub root: String,
    pub module: String,
    /// The target's directory below the root, `None` where it does not lie below it.
    pub directory: Option<String>,
}

/// The import path of the package under test.
pub open spec fn target_import(module: GoModule) -> Seq<char> {
    import_path(
        module.module@,
        match module.directory {
            Some(d) => Some(d@),
            None => None,
        },
    )
}

/// The receiver and the arguments of the call that the harness makes, or the first reason
/// for which there is no harness: the receiver, then the module, then the arguments.
pub open spec fn harness_call(
    f: GoFunc,
    siblings: Seq<GoFunc>,
    feeder: Option<GoFunc>,
    data_types: Seq<GoDataType>,
    in_module: bool,
    force: bool,
) -> Result<(Option<ReceiverText>, CallParts), Seq<char>> {
    match receiver_for(f, siblings, feeder is Some, force) {
        Err(reason) => Err(reason),
        Ok(receiver) => if !in_module {
            Err(
                "target is not inside a Go module (no go.mod found); only module-based Go targets are supported (skipped cleanly)"@,
            )
        } else {
            match call_parts(f, receiver, feeder, data_types, siblings, force, f.params@.len()) {
                Err(reason) => Err(reason),
                Ok(parts) => Ok((receiver, parts)),
            }
        },
    }
}

/// Whether `harness` is the harness for the call `parts` in `module`.
pub open spec fn harness_is(
    harness: GoHarness,
    f: GoFunc,
    receiver: Option<ReceiverText>,
    parts: CallParts,
    module: GoModule,
) -> bool {
    &&& harness.import_path@ == target_import(module)
    &&& call_is(harness.call, f, receiver, parts)
    &&& harness.main_go@ == HARNESS_HEAD@ + target_import(module) + HARNESS_MIDDLE@
        + harness.call.body@ + HARNESS_TAIL@
    &&& harness.go_mod@ == go_mod_text(module.module@, module.root@)
    &&& texts(harness.coverage_patterns@) == coverage_scopes(module.module@, target_import(module))
}

/// The harness for `func`, `feeder` being the sibling that feeds bytes into its receiver.
/// Every reason for which there is none is a reason to skip the target.
pub fn plan_go_harness(
    func: &GoFunc,
    siblings: &[GoFunc],
    feeder: Option<&GoFunc>,
    data_types: &[GoDataType],
    module: Option<&GoModule>,
    force: bool,
) -> (r: Result<GoHarness, String>)
    requires
        feeder is Some && module is Some && (receiver_for(
            *func,
            siblings@,
            true,
            force,
        ) matches Ok(Some(_))) ==> feeder->0.params@.len() > 0,
    ensures
        match (
            r,
            harness_call(
                *func,
                siblings@,
                feeder_view(feeder),
                data_types@,
                module is Some,
                force,
            ),
        ) {
            (Ok(harness), Ok((receiver, parts))) => harness_is(
                harness,
                *func,
                receiver,
                parts,
                *module->0,
            ),
            (Err(got), Err(want)) => got@ == want,
            _ => false,
        },
{
    let receiver = match receiver_synthesis(func, siblings, feeder.is_some(), force) {
        Err(reason) => {
            return Err(reason);
        },
        Ok(receiver) => receiver,
    };
    let module = match module {
        None => {
            return Err(
                "target is not inside a Go module (no go.mod found); only module-based Go targets are supported (skipped cleanly)".to_owned(),
            );
        },
        Some(module) => module,
    };
    let call = match generate_call_with_data_types(
        func,
        receiver.as_ref(),
        feeder,
        data_types,
        siblings,
        force,
    ) {
        Err(reason) => {
            return Err(reason);
        },
        Ok(call) => call,
    };
    let directory: Option<&str> = match &module.directory {
        Some(directory) => Some(directory.as_str()),
        None => None,
    };
    let import_path = compute_import_path(module.module.as_str(), directory);
    let main_go = generate_main_go(import_path.as_str(), call.body.as_str());
    let go_mod = harness_go_mod(module.module.as_str(), module.root.as_str());
    let coverage_patterns = coverage_package_patterns(
        module.module.as_str(),
        import_path.as_str(),
    );
    Ok(GoHarness { import_path, call, main_go, go_mod, coverage_patterns })
}

/// How a run of `go build` ended.
#[derive(Debug, Clone, PartialEq, Eq)]
pub enum BuildOutcome {
    /// It could not be run.
    NotRun { error: String },
    /// It ran; `binary` says whether the binary is there.
    Ran { success: bool, binary: bool, stderr: String },
}

impl BuildOutcome {
    /// Whether the run left no harness.
    pub open spec fn failed(&self) -> bool {
        match self {
            BuildOutcome::NotRun { .. } => true,
            BuildOutcome::Ran { success, binary, .. } => !*success || !*binary,
        }
    }

    /// Whether the module asks for a newer language version than the toolchain has.
    pub open spec fn version_gated(&self) -> bool {
        match self {
            BuildOutcome::NotRun { .. } => false,
            BuildOutcome::Ran { success, stderr, .. } => !*success && contains(
                stderr@,
                "requires go >="@,
            ),
        }
    }

    fn has_failed(&self) -> (r: bool)
        ensures
            r == self.failed(),
    {
        match self {
            BuildOutcome::NotRun { .. } => true,
            BuildOutcome::Ran { success, binary, .. } => !*success || !*binary,
        }
    }

    fn is_version_gated(&self) -> (r: bool)
        ensures
            r == self.version_gated(),
    {
        match self {
            BuildOutcome::NotRun { .. } => false,
            BuildOutcome::Ran { success, stderr, .. } => !*success && says(
                stderr.as_str(),
                "requires go >=",
            ),
        }
    }
}

/// Whether `text` holds `phrase`.
fn says(text: &str, phrase: &str) -> (r: bool)
    ensures
        r == contains(text@, phrase@),
{
    holds(chars_of(text).as_slice(), chars_of(phrase).as_slice())
}

/// Whether what `go build` printed blames the surroundings: a module that cannot be
/// fetched or a toolchain that is not installed.
pub open spec fn environment_limit(stderr: Seq<char>) -> bool {
    ||| contains(stderr, "cannot find module"@)
    ||| contains(stderr, "missing go.sum"@)
    ||| contains(stderr, "dial tcp"@)
    ||| contains(stderr, "no required module"@)
    ||| contains(stderr, "toolchain not available"@)
    ||| contains(stderr, "download go1"@)
    ||| contains(stderr, "requires go >="@)
}

/// The last line of `s`, empty where there is none.
pub open spec fn last_line(s: Seq<char>) -> Seq<char> {
    if lines(s).len() == 0 {
        Seq::empty()
    } else {
        lines(s).last()
    }
}

/// Whether `result` is what the last build, which ended in `outcome`, amounts to.
pub open spec fn result_is(
    result: GoBuildResult,
    outcome: BuildOutcome,
    forced: Option<String>,
) -> bool {
    match (result, outcome) {
        (GoBuildResult::Built { forced: got }, _) => !outcome.failed() && got == forced,
        (
            GoBuildResult::Failed { reason, skip },
            BuildOutcome::Ran { stderr, .. },
        ) => outcome.failed() && reason@ == "go build failed: "@ + last_line(stderr@) && skip
            == environment_limit(stderr@),
        (GoBuildResult::Failed { reason, skip }, BuildOutcome::NotRun { error }) => reason@
            == "could not run go build: "@ + error@ && !skip,
    }
}

/// What the last build amounts to.
pub fn build_result(outcome: &BuildOutcome, forced: Option<String>) -> (r: GoBuildResult)
    ensures
        result_is(r, *outcome, forced),
{
    match outcome {
        BuildOutcome::NotRun { error } => GoBuildResult::Failed {
            reason: cat2("could not run go build: ", error.as_str()),
            skip: false,
        },
        BuildOutcome::Ran { success, binary, stderr } => {
            if *success && *binary {
                return GoBuildResult::Built { forced };
            }
            let text = stderr.as_str();
            let skip = says(text, "cannot find module") || says(text, "missing go.sum") || says(
                text,
                "dial tcp",
            ) || says(text, "no required module") || says(text, "toolchain not available") || says(
                text,
                "download go1",
            ) || says(text, "requires go >=");
            let all = line_list(chars_of(text).as_slice());
            proof {
                assert(rows(all@).len() == all@.len());
            }
            let last = if all.len() == 0 {
                String::new()
            } else {
                proof {
                    assert(rows(all@).last() == all@.last()@);
                }
                string_of(all[all.len() - 1].as_slice())
            };
            proof {
                assert(last@ =~= last_line(text@));
            }
            GoBuildResult::Failed { reason: cat2("go build failed: ", last.as_str()), skip }
        },
    }
}

/// Where the builds of one harness stand. Scopes are counted from zero, and the scope
/// behind the last one is the build without coverage.
#[derive(Debug, Clone, PartialEq, Eq)]
pub struct GoBuild {
    /// How many coverage scopes there are.
    pub scopes: usize,
    /// The scope of the build that is running.
    pub scope: usize,
    /// Whether it runs with the lowered `go.mod`.
    pub lowered: bool,
}

/// What the driver of the builds does next.
#[derive(Debug, Clone, PartialEq, Eq)]
pub enum BuildAction {
    /// Runs `go build` in this scope, with or without the lowered `go.mod`.
    Run { scope: usize, lowered: bool },
    /// Writes a lowered `go.mod`, and reports whether it could.
    Lower,
    /// Is done.
    Finish { result: GoBuildResult },
}

impl GoBuild {
    pub open spec fn well_formed(&self) -> bool {
        self.scope <= self.scopes
    }

    /// How many more builds there can be at most.
    pub open spec fn builds_left(&self) -> nat {
        ((self.scopes - self.scope) + if self.lowered {
            0int
        } else {
            self.scopes + 1
        }) as nat
    }

    /// The first build: the widest scope, with the module as it is.
    pub fn new(scopes: usize) -> (r: GoBuild)
        ensures
            r == (GoBuild { scopes, scope: 0, lowered: false }),
            r.well_formed(),
    {
        GoBuild { scopes, scope: 0, lowered: false }
    }

    /// What follows a build that ended in `outcome`: a narrower scope while builds fail,
    /// then once a lowered `go.mod` where the language version is what fails them.
    pub fn after_build(&mut self, outcome: &BuildOutcome, forced: Option<String>) -> (r:
        BuildAction)
        requires
            old(self).well_formed(),
        ensures
            final(self).well_formed(),
            match r {
                BuildAction::Run { scope, lowered } => {
                    &&& outcome.failed() && old(self).scope < old(self).scopes
                    &&& *final(self) == (GoBuild { scope: scope, ..*old(self) })
                    &&& scope == old(self).scope + 1 && lowered == old(self).lowered
                    &&& final(self).builds_left() < old(self).builds_left()
                },
                BuildAction::Lower => {
                    &&& outcome.version_gated() && old(self).scope == old(self).scopes
                    &&& !old(self).lowered
                    &&& *final(self) == *old(self)
                },
                BuildAction::Finish { result } => {
                    &&& !outcome.failed() || (old(self).scope == old(self).scopes && (
                    old(self).lowered || !outcome.version_gated()))
                    &&& *final(self) == *old(self)
                    &&& result_is(result, *outcome, forced)
                },
            },
    {
        if outcome.has_failed() && self.scope < self.scopes {
            self.scope = self.scope + 1;
            return BuildAction::Run { scope: self.scope, lowered: self.lowered };
        }
        if outcome.is_version_gated() && !self.lowered {
            return BuildAction::Lower;
        }
        BuildAction::Finish { result: build_result(outcome, forced) }
    }

    /// What follows writing the lowered `go.mod`: every scope once more where it was
    /// written, and the outcome there was where it was not.
    pub fn after_lowering(
        &mut self,
        written: bool,
        outcome: &BuildOutcome,
        forced: Option<String>,
    ) -> (r: BuildAction)
        requires
            old(self).well_formed(),
            !old(self).lowered,
        ensures
            final(self).well_formed(),
            match r {
                BuildAction::Run { scope, lowered } => {
                    &&& written && scope == 0 && lowered
                    &&& *final(self) == (GoBuild { scope: 0, lowered: true, ..*old(self) })
                    &&& final(self).builds_left() < old(self).builds_left()
                },
                BuildAction::Lower => false,
                BuildAction::Finish { result } => {
                    &&& !written
                    &&& *final(self) == *old(self)
                    &&& result_is(result, *outcome, forced)
                },
            },
    {
        if written {
            self.scope = 0;
            self.lowered = true;
            return BuildAction::Run { scope: 0, lowered: true };
        }
        BuildAction::Finish { result: build_result(outcome, forced) }
    }
}

/// A failure for want of a newer language version is always one to skip.
pub proof fn version_gates_are_skipped(
    result: GoBuildResult,
    outcome: BuildOutcome,
    forced: Option<String>,
)
    requires
        outcome.version_gated(),
        result_is(result, outcome, forced),
    ensures
        result matches GoBuildResult::Failed { skip, .. } && skip,
{
}

/// Whether `f` is the function that a candidate names.
pub open spec fn is_target(f: GoFunc, name: Seq<char>, line: u64) -> bool {
    f.name@ == name && f.line == line
}

/// The index of the function that the candidate names, or that it is not there any more.
pub fn find_target(functions: &[GoFunc], name: &str, line: u64) -> (r: Result<usize, String>)
    ensures
        match r {
            Ok(i) => {
                &&& i < functions@.len()
                &&& is_target(functions@[i as int], name@, line)
                &&& forall|k: int|
                    0 <= k < i ==> !is_target(#[trigger] functions@[k], name@, line)
            },
            Err(reason) => {
                &&& forall|k: int|
                    0 <= k < functions@.len() ==> !is_target(
                        #[trigger] functions@[k],
                        name@,
                        line,
                    )
                &&& reason@ == "target `"@ + name@ + "` no longer present in source"@
            },
        },
{
    let mut i: usize = 0;
    while i < functions.len()
        invariant
            i <= functions@.len(),
            forall|k: int| 0 <= k < i ==> !is_target(#[trigger] functions@[k], name@, line),
        decreases functions@.len() - i,
    {
        if functions[i].line == line && same(functions[i].name.as_str(), name) {
            return Ok(i);
        }
        i = i + 1;
    }
    Err(cat3("target `", name, "` no longer present in source"))
}

/// Whether the file named `name` can belong to the package of a target: a Go source that
/// is not a test.
pub open spec fn package_source(name: Seq<char>) -> bool {
    ends_with(name, ".go"@) && name.len() > 3 && !ends_with(name, "_test.go"@)
}

pub fn is_package_source(name: &str) -> (r: bool)
    ensures
        r == package_source(name@),
{
    let chars = chars_of(name);
    let name = chars.as_slice();
    ends(name, chars_of(".go").as_slice()) && name.len() > 3 && !ends(
        name,
        chars_of("_test.go").as_slice(),
    )
}

/// What was parsed from one file.
#[derive(Debug, Clone, PartialEq, Eq)]
pub struct GoFile {
    pub package: String,
    pub functions: Vec<GoFunc>,
    pub data_types: Vec<GoDataType>,
}

/// The functions of those of `files` that belong to `package`, in order.
pub open spec fn package_functions(files: Seq<GoFile>, package: Seq<char>) -> Seq<GoFunc>
    decreases files.len(),
{
    if files.len() == 0 {
        Seq::empty()
    } else if files.last().package@ == package {
        package_functions(files.drop_last(), package) + files.last().functions@
    } else {
        package_functions(files.drop_last(), package)
    }
}

/// The types of those of `files` that belong to `package`, in order.
pub open spec fn package_types(files: Seq<GoFile>, package: Seq<char>) -> Seq<GoDataType>
    decreases files.len(),
{
    if files.len() == 0 {
        Seq::empty()
    } else if files.last().package@ == package {
        package_types(files.drop_last(), package) + files.last().data_types@
    } else {
        package_types(files.drop_last(), package)
    }
}

/// The functions and types of `package`; where no file gives a function, the functions of
/// the target's own file.
pub fn merge_package(
    package: &str,
    files: Vec<GoFile>,
    target_functions: Vec<GoFunc>,
) -> (r: (Vec<GoFunc>, Vec<GoDataType>))
    ensures
        r.0@ == if package_functions(files@, package@).len() == 0 {
            target_functions@
        } else {
            package_functions(files@, package@)
        },
        r.1@ == package_types(files@, package@),
{
    let mut functions: Vec<GoFunc> = Vec::new();
    let mut data_types: Vec<GoDataType> = Vec::new();
    let ghost all = files@;
    proof {
        assert(all.take(0) =~= Seq::empty());
    }
    for file in it: files.into_iter()
        invariant
            it.seq() == all,
            functions@ == package_functions(all.take(it.index()), package@),
            data_types@ == package_types(all.take(it.index()), package@),
    {
        proof {
            assert(all.take(it.index() + 1).drop_last() =~= all.take(it.index()));
            assert(all.take(it.index() + 1).last() == all[it.index()]);
        }
        if same(file.package.as_str(), package) {
            let mut more_functions = file.functions;
            let mut more_types = file.data_types;
            functions.append(&mut more_functions);
            data_types.append(&mut more_types);
        }
    }
    proof {
        assert(all.take(all.len() as int) =~= all);
    }
    if functions.len() == 0 {
        return (target_functions, data_types);
    }
    (functions, data_types)
}

} // verus!
