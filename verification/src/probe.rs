//! Probing an interpreter: the arguments it is run with, the protocol line it
//! answers with, and how a result is shown.
use vstd::prelude::*;

use crate::model::{opt_view, string_views, Candidate, CandidateView, ProbeMode, ProbeResult};
use crate::text::{
    chars_of, concat, find, find_char, find_char_exec, find_exec, lines, lines_exec, lit, replace,
    replace_exec, seq_eq, slice, split, split_exec, starts_with, starts_with_exec, string_of,
    strip_prefix_exec, strip_suffix_exec, trim, trim_end_char, trim_end_char_exec, trim_exec,
    trim_start, trim_start_exec, views,
};

verus! {

/// The most bytes of output a probe may print.
pub const MAX_PROBE_STDOUT: usize = 1024 * 1024;

/// The script the interpreter runs: it looks the query up as an import name
/// and as a distribution name with the standard library only, and prints one
/// protocol line.
pub const PROBE_SCRIPT: &'static str = r#"import importlib.metadata as metadata
import importlib.util
import json
import re
import sys

query = sys.argv[1]
def canonicalize(name):
    return re.sub(r"[-_.]+", "-", name).lower()
def valid_import_name(name):
    return bool(name) and all(part.isidentifier() for part in name.split("."))

import_match = False
if valid_import_name(query):
    try:
        import_match = importlib.util.find_spec(query) is not None
    except Exception:
        import_match = False

wanted = canonicalize(query)
distribution_match = False
matched_distribution = None
try:
    for dist in metadata.distributions():
        name = dist.metadata.get("Name")
        if name and canonicalize(name) == wanted:
            distribution_match = True
            matched_distribution = name
            break
except Exception:
    pass

providers = []
top_level_imports = []
try:
    mapping = metadata.packages_distributions()
    root = query.split(".", 1)[0]
    providers = list(mapping.get(root, []))
    if distribution_match:
        for package, names in mapping.items():
            if any(canonicalize(name) == wanted for name in names):
                top_level_imports.append(package)
except Exception:
    pass

result = {"import_match": import_match, "distribution_match": distribution_match,
          "import_name": query if import_match else None,
          "distribution_name": matched_distribution, "providers": providers,
          "top_level_imports": top_level_imports}
print("ENVFIND_RESULT=" + json.dumps(result, separators=(",", ":")))
"#;

/// The arguments the interpreter is run with: isolated mode, the script, and
/// the query as one argument of its own (no shell reads it).
pub fn probe_arguments(query: &str) -> (r: [&str; 4])
    ensures
        r[0]@ == "-I"@,
        r[1]@ == "-c"@,
        r[2]@ == PROBE_SCRIPT@,
        r[3]@ == query@,
{
    ["-I", "-c", PROBE_SCRIPT, query]
}

/// One chunk added to the output read so far: refused when the whole would
/// pass `MAX_PROBE_STDOUT` bytes.
pub open spec fn capped_step(read: Seq<u8>, chunk: Seq<u8>) -> Option<Seq<u8>> {
    if read.len() + chunk.len() <= MAX_PROBE_STDOUT {
        Some(read + chunk)
    } else {
        None
    }
}

/// What reading `chunks` one after the other gives: the output, or `None`
/// once a chunk is refused.
pub open spec fn capped_read(chunks: Seq<Seq<u8>>) -> Option<Seq<u8>>
    decreases chunks.len(),
{
    if chunks.len() == 0 {
        Some(seq![])
    } else {
        match capped_read(chunks.drop_last()) {
            Some(read) => capped_step(read, chunks.last()),
            None => None,
        }
    }
}

/// The chunks one after the other.
pub open spec fn all_bytes(chunks: Seq<Seq<u8>>) -> Seq<u8>
    decreases chunks.len(),
{
    if chunks.len() == 0 {
        seq![]
    } else {
        all_bytes(chunks.drop_last()) + chunks.last()
    }
}

/// Reading a probe's output chunk by chunk gives the whole output exactly
/// when it holds at most `MAX_PROBE_STDOUT` bytes, and nothing otherwise,
/// however the output is cut into chunks.
pub proof fn lemma_capped_read(chunks: Seq<Seq<u8>>)
    ensures
        capped_read(chunks) == (if all_bytes(chunks).len() <= MAX_PROBE_STDOUT {
            Some(all_bytes(chunks))
        } else {
            None
        }),
    decreases chunks.len(),
{
    if chunks.len() > 0 {
        lemma_capped_read(chunks.drop_last());
    }
}

/// Adds a chunk of probe output to what was read so far, unless that would
/// pass `MAX_PROBE_STDOUT` bytes; then nothing is added and the output is
/// rejected.
pub fn append_capped(output: &mut Vec<u8>, chunk: &[u8]) -> (accepted: bool)
    ensures
        capped_step(old(output)@, chunk@) == (if accepted {
            Some(final(output)@)
        } else {
            None::<Seq<u8>>
        }),
        accepted == (old(output)@.len() + chunk@.len() <= MAX_PROBE_STDOUT),
        accepted ==> final(output)@ == old(output)@ + chunk@,
        !accepted ==> final(output)@ == old(output)@,
{
    if chunk.len() > MAX_PROBE_STDOUT || output.len() > MAX_PROBE_STDOUT - chunk.len() {
        return false;
    }
    let ghost start = output@;
    let mut i: usize = 0;
    while i < chunk.len()
        invariant
            i <= chunk.len(),
            output@ == start + chunk@.take(i as int),
        decreases chunk.len() - i,
    {
        output.push(chunk[i]);
        i += 1;
        assert(output@ =~= start + chunk@.take(i as int));
    }
    assert(chunk@.take(chunk.len() as int) =~= chunk@);
    true
}

/// What the wait for a probe process saw.
#[derive(Debug, Clone, Copy, PartialEq, Eq, Structural)]
pub enum WaitStatus {
    /// The process ended, successfully or not.
    Exited(bool),
    /// The process still runs.
    Running,
    /// The wait itself failed.
    Failed,
}

/// What to do next with a probe process.
#[derive(Debug, Clone, Copy, PartialEq, Eq, Structural)]
pub enum ProbeStep {
    /// Read its output and parse the protocol line.
    ReadResult,
    /// Drop it: it ended abnormally.
    Discard,
    /// Wait a little longer.
    Wait,
    /// Kill it and drop it.
    Terminate,
}

/// The next step of a probe: a successful exit is read, a failed exit is
/// dropped, a running process is waited for until the time is up and then
/// killed, and a failed wait kills it too.
pub fn next_probe_step(status: WaitStatus, within_timeout: bool) -> (r: ProbeStep)
    ensures
        r == match status {
            WaitStatus::Exited(true) => ProbeStep::ReadResult,
            WaitStatus::Exited(false) => ProbeStep::Discard,
            WaitStatus::Running => if within_timeout {
                ProbeStep::Wait
            } else {
                ProbeStep::Terminate
            },
            WaitStatus::Failed => ProbeStep::Terminate,
        },
{
    match status {
        WaitStatus::Exited(success) => if success {
            ProbeStep::ReadResult
        } else {
            ProbeStep::Discard
        },
        WaitStatus::Running => if within_timeout {
            ProbeStep::Wait
        } else {
            ProbeStep::Terminate
        },
        WaitStatus::Failed => ProbeStep::Terminate,
    }
}

// ---------------------------------------------------------------------------
// The protocol line
// ---------------------------------------------------------------------------
/// The text that `"<key>":` is written as.
pub open spec fn json_marker(key: Seq<char>) -> Seq<char> {
    seq!['"'] + key + seq!['"', ':']
}

/// How many backslashes stand right before position `k` (not counting the
/// opening quote at 0).
pub open spec fn backslash_run(s: Seq<char>, k: int) -> nat
    decreases k,
{
    if k <= 1 || k > s.len() {
        0
    } else if s[k - 1] == '\\' {
        1 + backslash_run(s, k - 1)
    } else {
        0
    }
}

/// Position `k` holds the quote that closes the string opened at 0: a quote
/// not escaped by an odd run of backslashes.
pub open spec fn closes_string(s: Seq<char>, k: int) -> bool {
    1 <= k < s.len() && s[k] == '"' && backslash_run(s, k) % 2 == 0
}

/// The first closing quote at or after `k`.
pub open spec fn string_end_from(s: Seq<char>, k: int) -> Option<int>
    decreases s.len() - k,
{
    if k < 1 || k >= s.len() {
        None
    } else if closes_string(s, k) {
        Some(k)
    } else {
        string_end_from(s, k + 1)
    }
}

/// The raw value text after a key: a string up to its closing quote, an array
/// up to the first `]`, or a scalar up to the next `,` without trailing `}`.
pub open spec fn raw_value(rest: Seq<char>) -> Option<Seq<char>> {
    if rest.len() > 0 && rest[0] == '"' {
        match string_end_from(rest, 1) {
            Some(i) => Some(rest.take(i + 1)),
            None => None,
        }
    } else if rest.len() > 0 && rest[0] == '[' {
        match find_char(rest, ']') {
            Some(e) => Some(rest.take(e + 1)),
            None => None,
        }
    } else {
        let end = match find_char(rest, ',') {
            Some(e) => e,
            None => rest.len() as int,
        };
        Some(trim(trim_end_char(rest.take(end), '}')))
    }
}

/// The raw value of the first `"<key>":` in `input`.
pub open spec fn json_value_of(input: Seq<char>, key: Seq<char>) -> Option<Seq<char>> {
    match find(input, json_marker(key)) {
        Some(i) => raw_value(trim_start(input.skip(i + json_marker(key).len()))),
        None => None,
    }
}

/// Escapes undone: `\"` becomes `"`, then `\\` becomes `\`.
pub open spec fn unescaped(s: Seq<char>) -> Seq<char> {
    replace(replace(s, seq!['\\', '"'], seq!['"']), seq!['\\', '\\'], seq!['\\'])
}

/// The text between the quotes of a quoted value.
pub open spec fn unquote(v: Seq<char>) -> Option<Seq<char>> {
    if v.len() >= 2 && v[0] == '"' && v.last() == '"' {
        Some(v.subrange(1, v.len() - 1))
    } else {
        None
    }
}

pub open spec fn json_bool_of(input: Seq<char>, key: Seq<char>) -> Option<bool> {
    match json_value_of(input, key) {
        Some(v) => if v == "true"@ {
            Some(true)
        } else if v == "false"@ {
            Some(false)
        } else {
            None
        },
        None => None,
    }
}

pub open spec fn json_string_of(input: Seq<char>, key: Seq<char>) -> Option<Seq<char>> {
    match json_value_of(input, key) {
        Some(v) => if v == "null"@ {
            None
        } else {
            match unquote(v) {
                Some(u) => Some(unescaped(u)),
                None => None,
            }
        },
        None => None,
    }
}

/// The quoted items of an array body, unquoted and unescaped.
pub open spec fn array_items(parts: Seq<Seq<char>>) -> Seq<Seq<char>> {
    parts.filter_map(
        |p: Seq<char>|
            match unquote(trim(p)) {
                Some(u) => Some(unescaped(u)),
                None => None,
            },
    )
}

pub open spec fn json_array_of(input: Seq<char>, key: Seq<char>) -> Seq<Seq<char>> {
    match json_value_of(input, key) {
        Some(v) => if v.len() >= 2 && v[0] == '[' && v.last() == ']' {
            array_items(split(v.subrange(1, v.len() - 1), ','))
        } else {
            seq![]
        },
        None => seq![],
    }
}

proof fn lemma_backslash_step(s: Seq<char>, k: int)
    requires
        1 <= k < s.len(),
    ensures
        backslash_run(s, k + 1) == (if s[k] == '\\' {
            backslash_run(s, k) + 1
        } else {
            0
        }),
{
}

/// The position of the quote that closes the string opened at 0.
fn string_end(s: &Vec<char>) -> (r: Option<usize>)
    requires
        s.len() > 0,
    ensures
        match r {
            Some(i) => string_end_from(s@, 1) == Some(i as int) && i < s.len(),
            None => string_end_from(s@, 1) is None,
        },
{
    let mut escaped = false;
    let mut i: usize = 1;
    while i < s.len()
        invariant
            1 <= i <= s.len(),
            escaped == (backslash_run(s@, i as int) % 2 == 1),
            string_end_from(s@, 1) == string_end_from(s@, i as int),
        decreases s.len() - i,
    {
        let c = s[i];
        if c == '"' && !escaped {
            return Some(i);
        }
        proof {
            lemma_backslash_step(s@, i as int);
        }
        escaped = c == '\\' && !escaped;
        i += 1;
    }
    None
}

/// The raw text of the value of `key` in the protocol line `input`.
pub fn json_value(input: &str, key: &str) -> (r: Option<String>)
    ensures
        match r {
            Some(v) => json_value_of(input@, key@) == Some(v@),
            None => json_value_of(input@, key@) is None,
        },
{
    let s = chars_of(input);
    let mut marker: Vec<char> = Vec::new();
    marker.push('"');
    let marker = concat(&marker, &chars_of(key));
    let mut marker = marker;
    marker.push('"');
    marker.push(':');
    assert(marker@ =~= json_marker(key@));
    let i = match find_exec(&s, &marker) {
        Some(i) => i,
        None => return None,
    };
    proof {
        crate::text::lemma_find(s@, marker@);
        assert(crate::text::occurs_at(s@, marker@, i as int));
    }
    let mlen = marker.len();
    assert(i + mlen <= s.len());
    let start = i + mlen;
    let rest = trim_start_exec(&slice(&s, start, s.len()));
    if rest.len() > 0 && rest[0] == '"' {
        match string_end(&rest) {
            Some(e) => Some(string_of(slice(&rest, 0, e + 1).as_slice())),
            None => None,
        }
    } else if rest.len() > 0 && rest[0] == '[' {
        match find_char_exec(&rest, ']') {
            Some(e) => Some(string_of(slice(&rest, 0, e + 1).as_slice())),
            None => None,
        }
    } else {
        let end = match find_char_exec(&rest, ',') {
            Some(e) => e,
            None => rest.len(),
        };
        let v = trim_exec(&trim_end_char_exec(&slice(&rest, 0, end), '}'));
        Some(string_of(v.as_slice()))
    }
}

/// Escapes undone: `\"` becomes `"`, then `\\` becomes `\`.
pub fn unescape(value: &str) -> (r: String)
    ensures
        r@ == unescaped(value@),
{
    let s = chars_of(value);
    let mut q: Vec<char> = Vec::new();
    q.push('\\');
    q.push('"');
    let mut dq: Vec<char> = Vec::new();
    dq.push('"');
    let mut bb: Vec<char> = Vec::new();
    bb.push('\\');
    bb.push('\\');
    let mut b: Vec<char> = Vec::new();
    b.push('\\');
    assert(q@ =~= seq!['\\', '"']);
    assert(dq@ =~= seq!['"']);
    assert(bb@ =~= seq!['\\', '\\']);
    assert(b@ =~= seq!['\\']);
    let once = replace_exec(&s, &q, &dq);
    let twice = replace_exec(&once, &bb, &b);
    string_of(twice.as_slice())
}

fn unquote_exec(v: &Vec<char>) -> (r: Option<Vec<char>>)
    ensures
        match r {
            Some(u) => unquote(v@) == Some(u@),
            None => unquote(v@) is None,
        },
{
    if v.len() >= 2 && v[0] == '"' && v[v.len() - 1] == '"' {
        Some(slice(v, 1, v.len() - 1))
    } else {
        None
    }
}

/// The boolean value of `key` in the protocol line.
pub fn json_bool(input: &str, key: &str) -> (r: Option<bool>)
    ensures
        r == json_bool_of(input@, key@),
{
    let v = match json_value(input, key) {
        Some(v) => chars_of(v.as_str()),
        None => return None,
    };
    if seq_eq(&v, &lit("true")) {
        Some(true)
    } else if seq_eq(&v, &lit("false")) {
        Some(false)
    } else {
        None
    }
}

/// The string value of `key` in the protocol line (`None` for `null`).
pub fn json_string(input: &str, key: &str) -> (r: Option<String>)
    ensures
        opt_view(r) == json_string_of(input@, key@),
{
    let v = match json_value(input, key) {
        Some(v) => chars_of(v.as_str()),
        None => return None,
    };
    if seq_eq(&v, &lit("null")) {
        return None;
    }
    match unquote_exec(&v) {
        Some(u) => Some(unescape(string_of(u.as_slice()).as_str())),
        None => None,
    }
}

/// The strings of the array value of `key` in the protocol line.
pub fn json_array(input: &str, key: &str) -> (r: Vec<String>)
    ensures
        string_views(r@) == json_array_of(input@, key@),
{
    let v = match json_value(input, key) {
        Some(v) => chars_of(v.as_str()),
        None => return Vec::new(),
    };
    if !(v.len() >= 2 && v[0] == '[' && v[v.len() - 1] == ']') {
        return Vec::new();
    }
    let parts = split_exec(&slice(&v, 1, v.len() - 1), ',');
    let ghost ps = views(parts@);
    let mut out: Vec<String> = Vec::new();
    let mut i: usize = 0;
    assert(ps.take(0) =~= Seq::<Seq<char>>::empty());
    while i < parts.len()
        invariant
            i <= parts.len(),
            ps == views(parts@),
            string_views(out@) == array_items(ps.take(i as int)),
        decreases parts.len() - i,
    {
        let t = trim_exec(&parts[i]);
        let ghost before = string_views(out@);
        proof {
            assert(ps.take(i + 1).drop_last() =~= ps.take(i as int));
            assert(ps.take(i + 1).last() == parts@[i as int]@);
        }
        match unquote_exec(&t) {
            Some(u) => {
                out.push(unescape(string_of(u.as_slice()).as_str()));
                assert(string_views(out@) =~= before + seq![unescaped(u@)]);
            },
            None => {},
        }
        i += 1;
    }
    assert(ps.take(parts.len() as int) =~= ps);
    out
}

/// The protocol line's payload: what follows `ENVFIND_RESULT=` on the first
/// line that starts with it.
pub open spec fn result_payload(ls: Seq<Seq<char>>) -> Option<Seq<char>>
    decreases ls.len(),
{
    if ls.len() == 0 {
        None
    } else if starts_with(ls[0], "ENVFIND_RESULT="@) {
        Some(ls[0].skip("ENVFIND_RESULT="@.len() as int))
    } else {
        result_payload(ls.drop_first())
    }
}

/// The probe result that a probe's printed text reports: both booleans must
/// be present; names, providers and top-level imports are read if they are.
pub open spec fn parsed_result(text: Seq<char>, r: ProbeResult) -> bool {
    match result_payload(lines(text)) {
        Some(line) => {
            &&& json_bool_of(line, "import_match"@) == Some(r.import_match)
            &&& json_bool_of(line, "distribution_match"@) == Some(r.distribution_match)
            &&& opt_view(r.import_name) == json_string_of(line, "import_name"@)
            &&& opt_view(r.distribution_name) == json_string_of(line, "distribution_name"@)
            &&& string_views(r.providers@) == json_array_of(line, "providers"@)
            &&& string_views(r.top_level_imports@) == json_array_of(line, "top_level_imports"@)
        },
        None => false,
    }
}

/// Whether the printed text carries a complete protocol line.
pub open spec fn has_result(text: Seq<char>) -> bool {
    match result_payload(lines(text)) {
        Some(line) => json_bool_of(line, "import_match"@) is Some && json_bool_of(
            line,
            "distribution_match"@,
        ) is Some,
        None => false,
    }
}

/// Reads the protocol line from the text a probe printed.
pub fn parse_result_text(text: &str) -> (r: Option<ProbeResult>)
    ensures
        r is Some <==> has_result(text@),
        r matches Some(res) ==> parsed_result(text@, res),
{
    let ls = lines_exec(&chars_of(text));
    let prefix = lit("ENVFIND_RESULT=");
    let mut i: usize = 0;
    let mut payload: Option<Vec<char>> = None;
    assert(views(ls@).skip(0) =~= views(ls@));
    while i < ls.len()
        invariant_except_break
            i <= ls.len(),
            prefix@ == "ENVFIND_RESULT="@,
            payload is None,
            result_payload(views(ls@)) == result_payload(views(ls@).skip(i as int)),
        ensures
            prefix@ == "ENVFIND_RESULT="@,
            match payload {
                Some(p) => result_payload(views(ls@)) == Some(p@),
                None => result_payload(views(ls@)) is None,
            },
        decreases ls.len() - i,
    {
        proof {
            let rest = views(ls@).skip(i as int);
            assert(rest[0] == ls@[i as int]@);
            assert(rest.drop_first() =~= views(ls@).skip(i + 1));
        }
        match strip_prefix_exec(&ls[i], &prefix) {
            Some(p) => {
                payload = Some(p);
                break;
            },
            None => {},
        }
        i += 1;
    }
    let line = match payload {
        Some(p) => string_of(p.as_slice()),
        None => return None,
    };
    let line = line.as_str();
    let import_match = match json_bool(line, "import_match") {
        Some(b) => b,
        None => return None,
    };
    let distribution_match = match json_bool(line, "distribution_match") {
        Some(b) => b,
        None => return None,
    };
    Some(
        ProbeResult {
            import_match,
            distribution_match,
            import_name: json_string(line, "import_name"),
            distribution_name: json_string(line, "distribution_name"),
            providers: json_array(line, "providers"),
            top_level_imports: json_array(line, "top_level_imports"),
        },
    )
}

/// The text of bytes as `String::from_utf8_lossy` decodes them.
pub uninterp spec fn utf8_lossy(bytes: Seq<u8>) -> Seq<char>;

/// `String::from_utf8_lossy`: the text of `bytes`, every invalid sequence
/// replaced by U+FFFD; valid UTF-8 is decoded as it is.
#[verifier::external_body]
pub(crate) fn decode_lossy(bytes: &[u8]) -> (s: String)
    ensures
        s@ == utf8_lossy(bytes@),
        vstd::utf8::valid_utf8(bytes@) ==> s@ == vstd::utf8::decode_utf8(bytes@),
{
    String::from_utf8_lossy(bytes).into_owned()
}

/// Reads the protocol line from the bytes a probe printed.
pub fn parse_result(output: Vec<u8>) -> (r: Option<ProbeResult>)
    ensures
        r is Some <==> has_result(utf8_lossy(output@)),
        r matches Some(res) ==> parsed_result(utf8_lossy(output@), res),
        vstd::utf8::valid_utf8(output@) ==> utf8_lossy(output@) == vstd::utf8::decode_utf8(
            output@,
        ),
{
    let text = decode_lossy(output.as_slice());
    parse_result_text(text.as_str())
}

// ---------------------------------------------------------------------------
// Showing a match
// ---------------------------------------------------------------------------
/// A name, or `query` when there is none.
pub open spec fn name_or_query(o: Option<String>) -> Seq<char> {
    match o {
        Some(s) => s@,
        None => "query"@,
    }
}

/// The MATCH column for a result, `None` when nothing matched.
pub open spec fn match_text(r: ProbeResult) -> Option<Seq<char>> {
    if r.import_match && r.distribution_match {
        Some("import+package: "@ + name_or_query(r.import_name))
    } else if r.import_match {
        if r.providers@.len() > 0 {
            Some("import: "@ + name_or_query(r.import_name) + " <- "@ + r.providers@[0]@)
        } else {
            Some("import: "@ + name_or_query(r.import_name))
        }
    } else if r.distribution_match {
        if r.top_level_imports@.len() > 0 {
            Some("package: "@ + name_or_query(r.distribution_name) + " -> "@
                + r.top_level_imports@[0]@)
        } else {
            Some("package: "@ + name_or_query(r.distribution_name))
        }
    } else {
        None
    }
}

/// The MATCH text in terms of the result's fields: nothing without a match;
/// the import name (or `query`) after `import+package: ` when both matched;
/// after `import: ` when only the import did, with ` <- ` and the first
/// provider when there is one; and the distribution name (or `query`) after
/// `package: ` when only the distribution did, with ` -> ` and the first
/// top-level import when there is one.
pub proof fn lemma_match_text_fields(r: ProbeResult)
    ensures
        !r.import_match && !r.distribution_match ==> match_text(r) is None,
        r.import_match && r.distribution_match ==> match_text(r) == Some(
            "import+package: "@ + match r.import_name {
                Some(n) => n@,
                None => "query"@,
            },
        ),
        r.import_match && !r.distribution_match ==> match_text(r) == Some(
            "import: "@ + match r.import_name {
                Some(n) => n@,
                None => "query"@,
            } + if r.providers@.len() > 0 {
                " <- "@ + r.providers@[0]@
            } else {
                seq![]
            },
        ),
        !r.import_match && r.distribution_match ==> match_text(r) == Some(
            "package: "@ + match r.distribution_name {
                Some(n) => n@,
                None => "query"@,
            } + if r.top_level_imports@.len() > 0 {
                " -> "@ + r.top_level_imports@[0]@
            } else {
                seq![]
            },
        ),
{
    let i = match r.import_name {
        Some(n) => n@,
        None => "query"@,
    };
    let d = match r.distribution_name {
        Some(n) => n@,
        None => "query"@,
    };
    assert(i + seq![] =~= i);
    assert(d + seq![] =~= d);
    assert("import: "@ + i + " <- "@ + (if r.providers@.len() > 0 {
        r.providers@[0]@
    } else {
        seq![]
    }) == "import: "@ + i + " <- "@ + (if r.providers@.len() > 0 {
        r.providers@[0]@
    } else {
        seq![]
    }));
    if r.providers@.len() > 0 {
        assert("import: "@ + i + " <- "@ + r.providers@[0]@ =~= "import: "@ + i + (" <- "@
            + r.providers@[0]@));
    } else {
        assert("import: "@ + i + seq![] =~= "import: "@ + i);
    }
    if r.top_level_imports@.len() > 0 {
        assert("package: "@ + d + " -> "@ + r.top_level_imports@[0]@ =~= "package: "@ + d + (
        " -> "@ + r.top_level_imports@[0]@));
    } else {
        assert("package: "@ + d + seq![] =~= "package: "@ + d);
    }
}

fn name_or_query_exec(o: &Option<String>) -> (r: Vec<char>)
    ensures
        r@ == name_or_query(*o),
{
    match o {
        Some(s) => chars_of(s.as_str()),
        None => lit("query"),
    }
}

fn join3(a: &Vec<char>, b: &Vec<char>, c: &Vec<char>) -> (r: Vec<char>)
    ensures
        r@ == a@ + b@ + c@,
{
    let ab = concat(a, b);
    concat(&ab, c)
}

/// How a result is shown in the MATCH column: the import name and the
/// distribution that provides it, or the distribution and its top-level
/// import, or both names matched; `None` when nothing matched.
pub fn render_match(result: &ProbeResult) -> (r: Option<String>)
    ensures
        opt_view(r) == match_text(*result),
{
    if !result.import_match && !result.distribution_match {
        return None;
    }
    let text = if result.import_match && result.distribution_match {
        concat(&lit("import+package: "), &name_or_query_exec(&result.import_name))
    } else if result.import_match {
        let head = concat(&lit("import: "), &name_or_query_exec(&result.import_name));
        if result.providers.len() > 0 {
            join3(&head, &lit(" <- "), &chars_of(result.providers[0].as_str()))
        } else {
            head
        }
    } else {
        let head = concat(&lit("package: "), &name_or_query_exec(&result.distribution_name));
        if result.top_level_imports.len() > 0 {
            join3(&head, &lit(" -> "), &chars_of(result.top_level_imports[0].as_str()))
        } else {
            head
        }
    };
    Some(string_of(text.as_slice()))
}

// ---------------------------------------------------------------------------
// Which probe a candidate gets
// ---------------------------------------------------------------------------
/// How a candidate is probed.
#[derive(Debug, Clone, Copy, PartialEq, Eq, Structural)]
pub enum ProbeRoute {
    /// Run its interpreter with the probe script.
    RunInterpreter,
    /// Read its site-packages metadata; its interpreter is never run.
    ReadMetadata,
}

/// The probe a candidate gets: only a candidate marked for it has its
/// interpreter run; one marked for static probing is only read.
pub fn probe_route(candidate: &Candidate) -> (r: ProbeRoute)
    ensures
        r == (match candidate.probe_mode {
            ProbeMode::Interpreter => ProbeRoute::RunInterpreter,
            ProbeMode::StaticMetadata => ProbeRoute::ReadMetadata,
        }),
        (r == ProbeRoute::RunInterpreter) <==> (candidate.probe_mode == ProbeMode::Interpreter),
{
    match candidate.probe_mode {
        ProbeMode::Interpreter => ProbeRoute::RunInterpreter,
        ProbeMode::StaticMetadata => ProbeRoute::ReadMetadata,
    }
}

// ---------------------------------------------------------------------------
// Running many probes
// ---------------------------------------------------------------------------
/// How many probes run at once: as many as the processors, at least one and
/// at most eight, and no more than there are candidates.
pub fn worker_count(processors: usize, candidates: usize) -> (r: usize)
    ensures
        r == if candidates == 0 {
            0
        } else {
            let p = if processors < 1 {
                1
            } else if processors > 8 {
                8
            } else {
                processors
            };
            if p < candidates {
                p
            } else {
                candidates
            }
        },
{
    if candidates == 0 {
        return 0;
    }
    let p = if processors < 1 {
        1
    } else if processors > 8 {
        8
    } else {
        processors
    };
    if p < candidates {
        p
    } else {
        candidates
    }
}

/// A result matched the query, by import or by distribution.
pub open spec fn is_match(r: ProbeResult) -> bool {
    r.import_match || r.distribution_match
}

/// The candidates whose probe completed with a match, with their results, in
/// the order given.
pub open spec fn matched_pairs(
    candidates: Seq<CandidateView>,
    results: Seq<Option<ProbeResult>>,
) -> Seq<(CandidateView, ProbeResult)>
    decreases candidates.len(),
{
    if candidates.len() == 0 || results.len() == 0 {
        seq![]
    } else {
        let rest = matched_pairs(candidates.drop_last(), results.drop_last());
        match results.last() {
            Some(r) => if is_match(r) {
                rest.push((candidates.last(), r))
            } else {
                rest
            },
            None => rest,
        }
    }
}

pub open spec fn candidate_views(v: Seq<Candidate>) -> Seq<CandidateView> {
    v.map_values(|c: Candidate| c@)
}

pub open spec fn pair_views(v: Seq<(Candidate, ProbeResult)>) -> Seq<(CandidateView, ProbeResult)> {
    v.map_values(|p: (Candidate, ProbeResult)| (p.0@, p.1))
}

/// Pairs each candidate with its probe's outcome and keeps those that
/// matched: a probe that failed, and one that completed without a match, give
/// no entry.
pub fn collect_matches(candidates: Vec<Candidate>, results: Vec<Option<ProbeResult>>) -> (r: Vec<
    (Candidate, ProbeResult),
>)
    requires
        candidates.len() == results.len(),
    ensures
        pair_views(r@) == matched_pairs(candidate_views(candidates@), results@),
{
    let mut out: Vec<(Candidate, ProbeResult)> = Vec::new();
    let mut candidates = candidates;
    let mut results = results;
    let ghost cs = candidate_views(candidates@);
    let ghost rs = results@;
    let n = candidates.len();
    let mut pending: Vec<(Candidate, ProbeResult)> = Vec::new();
    // Walk from the back so that each element can be moved out.
    let mut i: usize = n;
    assert(cs.take(n as int) =~= cs);
    assert(rs.take(n as int) =~= rs);
    while i > 0
        invariant
            i <= n,
            candidates.len() == i,
            results.len() == i,
            cs.len() == n,
            rs.len() == n,
            candidate_views(candidates@) == cs.take(i as int),
            results@ == rs.take(i as int),
            matched_pairs(cs, rs) == matched_pairs(cs.take(i as int), rs.take(i as int))
                + pair_views(pending@).reverse(),
        decreases i,
    {
        let c = candidates.pop().unwrap();
        let r = results.pop().unwrap();
        let ghost before = pair_views(pending@);
        proof {
            assert(cs.take(i as int).drop_last() =~= cs.take(i - 1));
            assert(rs.take(i as int).drop_last() =~= rs.take(i - 1));
            assert(candidate_views(candidates@) =~= cs.take(i - 1));
            assert(c@ == cs.take(i as int).last());
        }
        match r {
            Some(res) => {
                if res.import_match || res.distribution_match {
                    pending.push((c, res));
                    assert(pair_views(pending@) =~= before.push((cs[i - 1], res)));
                    assert(pair_views(pending@).reverse() =~= seq![(cs[i - 1], res)]
                        + before.reverse());
                }
            },
            None => {},
        }
        i -= 1;
    }
    assert(matched_pairs(cs.take(0), rs.take(0)) =~= Seq::<(CandidateView, ProbeResult)>::empty());
    let ghost want = pair_views(pending@).reverse();
    let mut j: usize = pending.len();
    assert(pair_views(out@) =~= Seq::<(CandidateView, ProbeResult)>::empty());
    while j > 0
        invariant
            j <= pending.len(),
            pending.len() == j,
            want.len() == pair_views(out@).len() + j,
            pair_views(out@) + pair_views(pending@).reverse() == want,
        decreases j,
    {
        let ghost before_out = pair_views(out@);
        let ghost before_pending = pair_views(pending@);
        let p = pending.pop().unwrap();
        out.push(p);
        proof {
            assert(pair_views(out@) =~= before_out.push((p.0@, p.1)));
            assert(before_pending =~= pair_views(pending@).push((p.0@, p.1)));
            assert(before_pending.reverse() =~= seq![(p.0@, p.1)] + pair_views(pending@).reverse());
            assert(pair_views(out@) + pair_views(pending@).reverse() =~= before_out
                + before_pending.reverse());
        }
        j -= 1;
    }
    assert(pair_views(pending@).reverse() =~= Seq::<(CandidateView, ProbeResult)>::empty());
    assert(pair_views(out@) =~= want);
    out
}

/// The `k`-th probe completed, and matched by import or by distribution.
pub open spec fn kept(results: Seq<Option<ProbeResult>>, k: int) -> bool {
    results[k] matches Some(r) && (r.import_match || r.distribution_match)
}

/// How many of the first `k` results are probes that completed with a
/// match, by import or by distribution.
pub open spec fn matches_before(results: Seq<Option<ProbeResult>>, k: int) -> int
    decreases k,
{
    if k <= 0 {
        0
    } else {
        matches_before(results, k - 1) + if kept(results, k - 1) {
            1int
        } else {
            0int
        }
    }
}

proof fn lemma_matches_before_prefix(results: Seq<Option<ProbeResult>>, k: int)
    requires
        0 <= k < results.len(),
    ensures
        matches_before(results.drop_last(), k) == matches_before(results, k),
    decreases k,
{
    if k > 0 {
        lemma_matches_before_prefix(results, k - 1);
        assert(results.drop_last()[k - 1] == results[k - 1]);
    }
}

proof fn lemma_matches_before_monotone(results: Seq<Option<ProbeResult>>, a: int, b: int)
    requires
        0 <= a <= b,
    ensures
        matches_before(results, a) <= matches_before(results, b),
    decreases b - a,
{
    if a < b {
        lemma_matches_before_monotone(results, a, b - 1);
    }
}

/// The matches kept, in terms of the inputs: the kept pairs are exactly the
/// candidates whose probe completed with `import_match` or
/// `distribution_match`, each with its result, in the order given. The pair
/// of the `k`-th candidate stands at the number of matches before it, so a
/// candidate matched by import alone is kept just as one matched by
/// distribution, and kept candidates keep their order.
pub proof fn lemma_matched_pairs_keep_matches(
    candidates: Seq<CandidateView>,
    results: Seq<Option<ProbeResult>>,
)
    requires
        candidates.len() == results.len(),
    ensures
        matched_pairs(candidates, results).len() == matches_before(results, results.len() as int),
        forall|k: int|
            0 <= k < results.len() && #[trigger] kept(results, k) ==> matches_before(results, k) < matched_pairs(
                candidates,
                results,
            ).len() && matched_pairs(candidates, results)[matches_before(results, k)] == (
                candidates[k],
                results[k]->0,
            ),
        forall|a: int, b: int|
            #![trigger kept(results, a), matches_before(results, b)]
            0 <= a < b < results.len() && kept(results, a) ==> matches_before(results, a) < matches_before(
                results,
                b,
            ),
    decreases results.len(),
{
    assert forall|a: int, b: int|
        #![trigger kept(results, a), matches_before(results, b)]
        0 <= a < b < results.len() && kept(results, a) implies matches_before(results, a) < matches_before(
        results,
        b,
    ) by {
        lemma_matches_before_monotone(results, a + 1, b);
    }
    assert forall|k: int|
        0 <= k < results.len() && #[trigger] kept(results, k) implies matches_before(results, k) < matched_pairs(
        candidates,
        results,
    ).len() && matched_pairs(candidates, results)[matches_before(results, k)] == (
        candidates[k],
        results[k]->0,
    ) by {
        lemma_kept_at(candidates, results, k);
    }
    lemma_kept_len(candidates, results);
}

proof fn lemma_kept_len(candidates: Seq<CandidateView>, results: Seq<Option<ProbeResult>>)
    requires
        candidates.len() == results.len(),
    ensures
        matched_pairs(candidates, results).len() == matches_before(results, results.len() as int),
    decreases results.len(),
{
    let n = results.len() as int;
    if n > 0 {
        lemma_kept_len(candidates.drop_last(), results.drop_last());
        lemma_matches_before_prefix(results, n - 1);
    }
}

proof fn lemma_kept_at(candidates: Seq<CandidateView>, results: Seq<Option<ProbeResult>>, k: int)
    requires
        candidates.len() == results.len(),
        0 <= k < results.len(),
        kept(results, k),
    ensures
        matches_before(results, k) < matched_pairs(candidates, results).len(),
        matched_pairs(candidates, results)[matches_before(results, k)] == (
            candidates[k],
            results[k]->0,
        ),
    decreases results.len(),
{
    let n = results.len() as int;
    let cs = candidates.drop_last();
    let rs = results.drop_last();
    lemma_kept_len(cs, rs);
    lemma_matches_before_prefix(results, n - 1);
    let out = matched_pairs(candidates, results);
    let rest = matched_pairs(cs, rs);
    match results.last() {
        Some(r) => {
            if r.import_match || r.distribution_match {
                assert(out == rest.push((candidates.last(), r)));
            } else {
                assert(out == rest);
            }
        },
        None => {
            assert(out == rest);
        },
    }
    if k < n - 1 {
        assert(rs[k] == results[k]);
        assert(cs[k] == candidates[k]);
        assert(kept(rs, k));
        lemma_kept_at(cs, rs, k);
        lemma_matches_before_prefix(results, k);
        lemma_matches_before_monotone(results, k + 1, n - 1);
        assert(matches_before(results, k) == matches_before(rs, k));
        assert(matches_before(rs, k) < rest.len());
        let i = matches_before(rs, k);
        lemma_matches_before_monotone(rs, 0, k);
        assert(results.last() == results[n - 1]);
        if kept(results, n - 1) {
            let pair = (candidates.last(), results.last()->0);
            assert(out == rest.push(pair));
            assert(rest.push(pair)[i] == rest[i]);
        } else {
            assert(out == rest);
        }
        assert(out[matches_before(results, k)] == rest[matches_before(rs, k)]);
    } else {
        assert(results.last() == results[k]);
        assert(candidates.last() == candidates[k]);
        assert(rest.len() == matches_before(rs, rs.len() as int));
        assert(matches_before(results, k) == rest.len());
        assert(out == rest.push((candidates[k], results[k]->0)));
    }
}

/// A probe that completed without a match is never a result: every pair kept
/// matched, and came from the candidates and results given.
pub proof fn lemma_matched_pairs_match(
    candidates: Seq<CandidateView>,
    results: Seq<Option<ProbeResult>>,
)
    requires
        candidates.len() == results.len(),
    ensures
        forall|k: int|
            0 <= k < matched_pairs(candidates, results).len() ==> is_match(
                (#[trigger] matched_pairs(candidates, results)[k]).1,
            ),
        matched_pairs(candidates, results).len() <= candidates.len(),
    decreases candidates.len(),
{
    if candidates.len() > 0 {
        lemma_matched_pairs_match(candidates.drop_last(), results.drop_last());
    }
}

} // verus!
