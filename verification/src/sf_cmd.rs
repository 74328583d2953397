//! `sf` run with `--json`: the flag is added when missing, and a failed
//! command's error object is reduced to one line
//! `✗ [commandName] code: message` without its stack, cause and warnings.
use vstd::prelude::*;
use crate::cmds::cloud::sf_cmd::{arg_views, has_json, has_json_flag, json_flag};
use crate::text::{
    append_chars, chars_of, first_occurrence, is_first_occurrence, occurs_at, string_from_chars,
    sub_chars,
};

verus! {

// ---------------------------------------------------------------------------
// Arguments
// ---------------------------------------------------------------------------
/// `args` with `--json` appended, unless some argument already is `--json`.
pub open spec fn with_json_flag(args: Seq<Seq<char>>) -> Seq<Seq<char>> {
    if has_json(args) {
        args
    } else {
        args.push(json_flag())
    }
}

/// If the arguments don't contain `--json`, appends it; otherwise returns
/// them as they are.
pub fn ensure_json_flag(args: &[String]) -> (r: Vec<String>)
    ensures
        arg_views(r@) == with_json_flag(arg_views(args@)),
{
    let present = has_json_flag(args);
    let mut r: Vec<String> = Vec::new();
    let n = args.len();
    for i in 0..n
        invariant
            n == args@.len(),
            arg_views(r@) == arg_views(args@).take(i as int),
    {
        let a: String = args[i].clone();
        let ghost old_r = r@;
        r.push(a);
        proof {
            assert(a@ == args@[i as int]@);
            assert(arg_views(r@) =~= arg_views(old_r).push(a@));
            assert(arg_views(args@).take(i + 1) =~= arg_views(args@).take(i as int).push(
                args@[i as int]@,
            ));
            assert(arg_views(r@) =~= arg_views(args@).take(i + 1));
        }
    }
    proof {
        assert(arg_views(args@).take(n as int) =~= arg_views(args@));
    }
    if !present {
        let flag = String::from_str("--json");
        r.push(flag);
        proof {
            assert(arg_views(r@) =~= arg_views(args@).push(json_flag()));
        }
    }
    r
}

// ---------------------------------------------------------------------------
// The error object
// ---------------------------------------------------------------------------
/// The top-level members of a JSON object, in the order serde_json's `Map`
/// holds them: each key with its value's text when that value is a string.
pub type Fields = Seq<(Seq<char>, Option<Seq<char>>)>;

/// What serde_json makes of the text `json`: `None` unless it parses as a
/// JSON value that is an object; otherwise the object's members, each key
/// with its value's text when that value is a string (`None` for a value of
/// another kind).
pub uninterp spec fn json_object_fields(json: Seq<char>) -> Option<Fields>;

/// The members as sequences.
pub open spec fn field_views(v: Seq<(String, Option<String>)>) -> Fields {
    v.map_values(
        |e: (String, Option<String>)|
            (
                e.0@,
                match e.1 {
                    Some(t) => Some(t@),
                    None => None,
                },
            ),
    )
}

/// Parses `json` with `serde_json::from_str` and, when the value is an
/// object (`Value::as_object`), lists its members with the text of each
/// string value (`Value::as_str`). Claims only that the result is the one
/// that `json_object_fields` names for this text.
#[verifier::external_body]
fn read_json_object(json: &str) -> (r: Option<Vec<(String, Option<String>)>>)
    ensures
        match r {
            Some(v) => json_object_fields(json@) == Some(field_views(v@)),
            None => json_object_fields(json@) is None,
        },
{
    let value: serde_json::Value = serde_json::from_str(json).ok()?;
    let object = value.as_object()?;
    Some(object.iter().map(|(k, v)| (k.clone(), v.as_str().map(String::from))).collect())
}

/// The text of the member `key` of `fields`, when it is a string.
pub open spec fn field_text(fields: Fields, key: Seq<char>) -> Option<Seq<char>>
    decreases fields.len(),
{
    if fields.len() == 0 {
        None
    } else if fields[0].0 == key {
        fields[0].1
    } else {
        field_text(fields.drop_first(), key)
    }
}

/// `t`, or `default` when there is none.
pub open spec fn text_or(t: Option<Seq<char>>, default: Seq<char>) -> Seq<char> {
    match t {
        Some(x) => x,
        None => default,
    }
}

/// The first sentence of `m`: what precedes the first `". "`, or all of `m`.
pub open spec fn first_sentence(m: Seq<char>) -> Seq<char> {
    if exists|i: int| occurs_at(m, ". "@, i) {
        m.take(choose|i: int| is_first_occurrence(m, ". "@, i))
    } else {
        m
    }
}

/// The one-line error: `✗ [command] code: short`, where an empty command
/// drops `[command] ` and an empty code drops `code: `.
pub open spec fn error_line(command: Seq<char>, code: Seq<char>, short: Seq<char>) -> Seq<char> {
    if command.len() == 0 && code.len() == 0 {
        "✗ "@ + short
    } else if command.len() == 0 {
        "✗ "@ + code + ": "@ + short
    } else if code.len() == 0 {
        "✗ ["@ + command + "] "@ + short
    } else {
        "✗ ["@ + command + "] "@ + code + ": "@ + short
    }
}

/// The one-line summary of an error object with the members `fields`:
/// its `commandName`, its `code` and the first sentence of its `message`
/// (`Unknown error` when there is no string message).
pub open spec fn error_summary(fields: Fields) -> Seq<char> {
    error_line(
        text_or(field_text(fields, "commandName"@), Seq::empty()),
        text_or(field_text(fields, "code"@), Seq::empty()),
        first_sentence(text_or(field_text(fields, "message"@), "Unknown error"@)),
    )
}

/// The summary of the error JSON `json`; `None` unless it is a JSON object.
pub open spec fn sf_error_summary(json: Seq<char>) -> Option<Seq<char>> {
    match json_object_fields(json) {
        Some(fields) => Some(error_summary(fields)),
        None => None,
    }
}

/// The text of the string member `key`, if `fields` has one.
fn lookup_text(fields: &Vec<(String, Option<String>)>, key: &str) -> (r: Option<Vec<char>>)
    ensures
        match r {
            Some(t) => field_text(field_views(fields@), key@) == Some(t@),
            None => field_text(field_views(fields@), key@) is None,
        },
{
    let k = String::from_str(key);
    let n = fields.len();
    proof {
        assert(field_views(fields@).skip(0) =~= field_views(fields@));
    }
    for i in 0..n
        invariant
            n == fields@.len(),
            k@ == key@,
            field_text(field_views(fields@), key@) == field_text(
                field_views(fields@).skip(i as int),
                key@,
            ),
    {
        let ghost rest = field_views(fields@).skip(i as int);
        proof {
            assert(rest[0] == field_views(fields@)[i as int]);
            assert(rest.drop_first() =~= field_views(fields@).skip(i + 1));
        }
        if fields[i].0 == k {
            return match &fields[i].1 {
                Some(t) => Some(chars_of(t.as_str())),
                None => None,
            };
        }
    }
    proof {
        assert(field_views(fields@).skip(n as int).len() == 0);
    }
    None
}

/// `m` cut at the first `". "`.
fn first_sentence_of(m: &Vec<char>) -> (r: Vec<char>)
    ensures
        r@ == first_sentence(m@),
{
    let stop = chars_of(". ");
    match first_occurrence(m, &stop) {
        Some(i) => {
            proof {
                let c = choose|j: int| is_first_occurrence(m@, ". "@, j);
                assert(is_first_occurrence(m@, ". "@, i as int));
                assert(c <= i && i <= c);
                assert(m@.subrange(0, i as int) =~= m@.take(i as int));
            }
            sub_chars(m, 0, i)
        },
        None => {
            proof {
                assert(m@.subrange(0, m@.len() as int) =~= m@);
            }
            sub_chars(m, 0, m.len())
        },
    }
}

/// The one-line summary of an error object whose members are `fields`, as
/// `read_json_object` lists them.
pub fn summarize_error_fields(fields: &Vec<(String, Option<String>)>) -> (r: String)
    ensures
        r@ == error_summary(field_views(fields@)),
{
    let message = match lookup_text(fields, "message") {
        Some(t) => t,
        None => chars_of("Unknown error"),
    };
    let code = match lookup_text(fields, "code") {
        Some(t) => t,
        None => Vec::new(),
    };
    let command = match lookup_text(fields, "commandName") {
        Some(t) => t,
        None => Vec::new(),
    };
    let short = first_sentence_of(&message);
    let mut out: Vec<char> = Vec::new();
    if command.len() == 0 {
        append_chars(&mut out, &chars_of("✗ "));
    } else {
        append_chars(&mut out, &chars_of("✗ ["));
        append_chars(&mut out, &command);
        append_chars(&mut out, &chars_of("] "));
    }
    if code.len() > 0 {
        append_chars(&mut out, &code);
        append_chars(&mut out, &chars_of(": "));
    }
    append_chars(&mut out, &short);
    proof {
        assert(out@ =~= error_line(command@, code@, short@));
    }
    string_from_chars(&out)
}

/// Parses error JSON and reduces it to one line
/// `✗ [commandName] code: message`, where the message is cut at its first
/// sentence; stack, cause and warnings are left out. `None` when `json_str`
/// is not a JSON object.
pub fn filter_sf_error(json_str: &str) -> (r: Option<String>)
    ensures
        match r {
            Some(t) => sf_error_summary(json_str@) == Some(t@),
            None => sf_error_summary(json_str@) is None,
        },
{
    match read_json_object(json_str) {
        Some(fields) => Some(summarize_error_fields(&fields)),
        None => None,
    }
}

/// What a failed run reports: the summary of the error JSON on standard
/// output, else of the error JSON on standard error, else, when neither
/// holds an error object, the raw output: standard output, a newline and
/// standard error.
pub open spec fn failure_text(stdout: Seq<char>, stderr: Seq<char>) -> Seq<char> {
    match sf_error_summary(stdout) {
        Some(t) => t,
        None => match sf_error_summary(stderr) {
            Some(t) => t,
            None => stdout + seq!['\n'] + stderr,
        },
    }
}

/// The message shown for a failed `sf` run with the outputs `stdout` and
/// `stderr`.
pub fn failure_message(stdout: &str, stderr: &str) -> (r: String)
    ensures
        r@ == failure_text(stdout@, stderr@),
{
    if let Some(t) = filter_sf_error(stdout) {
        return t;
    }
    if let Some(t) = filter_sf_error(stderr) {
        return t;
    }
    let mut raw = chars_of(stdout);
    raw.push('\n');
    append_chars(&mut raw, &chars_of(stderr));
    string_from_chars(&raw)
}

// ---------------------------------------------------------------------------
// Laws
// ---------------------------------------------------------------------------
/// How many of `args` are exactly `--json`.
pub open spec fn json_flag_count(args: Seq<Seq<char>>) -> nat {
    args.filter(|a: Seq<char>| a == json_flag()).len()
}

/// Some argument is `--json` exactly when the flag is counted.
proof fn lemma_has_json_iff_counted(args: Seq<Seq<char>>)
    ensures
        has_json(args) <==> json_flag_count(args) > 0,
{
    broadcast use vstd::seq_lib::group_filter_ensures;
    broadcast use Seq::lemma_filter_contains_rev;

    let flags = args.filter(|a: Seq<char>| a == json_flag());
    if has_json(args) {
        let i = choose|i: int| 0 <= i < args.len() && args[i] == json_flag();
        assert(flags.contains(args[i]));
    }
    if flags.len() > 0 {
        assert(flags[0] == json_flag());
        assert(flags.contains(flags[0]));
        assert(args.contains(flags[0]));
    }
}

/// After `ensure_json_flag` the arguments hold `--json`.
pub proof fn lemma_with_json_flag_has_flag(args: Seq<Seq<char>>)
    ensures
        has_json(with_json_flag(args)),
{
    if !has_json(args) {
        assert(with_json_flag(args)[args.len() as int] == json_flag());
    }
}

/// `ensure_json_flag` never duplicates the flag: the result holds `--json`
/// as often as the input did, or once when the input did not.
pub proof fn lemma_with_json_flag_count(args: Seq<Seq<char>>)
    ensures
        json_flag_count(with_json_flag(args)) == if json_flag_count(args) == 0 {
            1
        } else {
            json_flag_count(args)
        },
{
    broadcast use Seq::lemma_filter_push;

    lemma_has_json_iff_counted(args);
}

/// `ensure_json_flag` keeps the arguments it is given, in order, in front.
pub proof fn lemma_with_json_flag_keeps_args(args: Seq<Seq<char>>)
    ensures
        with_json_flag(args).take(args.len() as int) == args,
{
    assert(with_json_flag(args).take(args.len() as int) =~= args);
}

/// Adding the flag twice is adding it once.
pub proof fn lemma_with_json_flag_idempotent(args: Seq<Seq<char>>)
    ensures
        with_json_flag(with_json_flag(args)) == with_json_flag(args),
{
    lemma_with_json_flag_has_flag(args);
}

/// Some occurrence of `p` at `k` or earlier is the first one.
proof fn lemma_first_occurrence_exists(s: Seq<char>, p: Seq<char>, k: int)
    requires
        occurs_at(s, p, k),
    ensures
        exists|i: int| is_first_occurrence(s, p, i),
    decreases k,
{
    if exists|j: int| occurs_at(s, p, j) && j < k {
        let j = choose|j: int| occurs_at(s, p, j) && j < k;
        lemma_first_occurrence_exists(s, p, j);
    } else {
        assert(is_first_occurrence(s, p, k));
    }
}

/// The short message is the message cut at its first `". "`: a prefix of
/// the message that holds no `". "` and is either all of the message or
/// followed in it by `". "` (so no other separator cuts it).
pub proof fn lemma_first_sentence(m: Seq<char>)
    ensures
        first_sentence(m).len() <= m.len(),
        m.take(first_sentence(m).len() as int) == first_sentence(m),
        forall|j: int| !occurs_at(first_sentence(m), ". "@, j),
        first_sentence(m).len() == m.len() || occurs_at(m, ". "@, first_sentence(m).len() as int),
{
    let p: Seq<char> = ". "@;
    reveal_strlit(". ");
    assert(p.len() == 2);
    if exists|i: int| occurs_at(m, p, i) {
        let w = choose|i: int| occurs_at(m, p, i);
        lemma_first_occurrence_exists(m, p, w);
        let c = choose|i: int| is_first_occurrence(m, p, i);
        let f = m.take(c);
        assert(first_sentence(m) == f);
        assert(occurs_at(m, p, c));
        assert(m.take(f.len() as int) =~= f);
        assert forall|j: int| !occurs_at(f, p, j) by {
            if occurs_at(f, p, j) {
                assert(f.subrange(j, j + p.len()) =~= m.subrange(j, j + p.len()));
                assert(occurs_at(m, p, j));
            }
        }
    } else {
        assert(m.take(m.len() as int) =~= m);
    }
}

/// `ensure_json_flag` appends exactly one `--json`, at the end, when no
/// argument is exactly `--json`, and otherwise returns the arguments as
/// they are.
pub proof fn lemma_with_json_flag_exact(args: Seq<Seq<char>>)
    ensures
        with_json_flag(args) == if exists|i: int| 0 <= i < args.len() && args[i] == "--json"@ {
            args
        } else {
            args.push("--json"@)
        },
        with_json_flag(args).len() == if has_json(args) {
            args.len()
        } else {
            args.len() + 1
        },
{
}

/// The one-line summary of an error object is `✗ `, then `[commandName] `
/// when the command name is not empty, then `code: ` when the code is not
/// empty, then the message cut at its first `". "` (the whole message when
/// it has none; `Unknown error` when there is no string message).
pub proof fn lemma_error_summary_exact(fields: Fields)
    ensures
        ({
            let command = text_or(field_text(fields, "commandName"@), Seq::empty());
            let code = text_or(field_text(fields, "code"@), Seq::empty());
            let m = text_or(field_text(fields, "message"@), "Unknown error"@);
            let short = first_sentence(m);
            &&& error_summary(fields) == "✗ "@ + (if command.len() == 0 {
                Seq::<char>::empty()
            } else {
                "["@ + command + "] "@
            }) + (if code.len() == 0 {
                Seq::<char>::empty()
            } else {
                code + ": "@
            }) + short
            &&& m.take(short.len() as int) == short
            &&& forall|j: int| !occurs_at(short, ". "@, j)
            &&& (short.len() == m.len() || occurs_at(m, ". "@, short.len() as int))
        }),
{
    let command = text_or(field_text(fields, "commandName"@), Seq::empty());
    let code = text_or(field_text(fields, "code"@), Seq::empty());
    let m = text_or(field_text(fields, "message"@), "Unknown error"@);
    lemma_first_sentence(m);
    reveal_strlit("✗ ");
    reveal_strlit("✗ [");
    reveal_strlit("[");
    reveal_strlit("] ");
    reveal_strlit(": ");
    let short = first_sentence(m);
    let e = Seq::<char>::empty();
    if command.len() == 0 && code.len() == 0 {
        assert("✗ "@ + e + e + short =~= "✗ "@ + short);
    } else if command.len() == 0 {
        assert("✗ "@ + e + (code + ": "@) + short =~= "✗ "@ + code + ": "@ + short);
    } else if code.len() == 0 {
        assert("✗ "@ + ("["@ + command + "] "@) + e + short =~= "✗ ["@ + command + "] "@ + short);
    } else {
        assert("✗ "@ + ("["@ + command + "] "@) + (code + ": "@) + short =~= "✗ ["@ + command
            + "] "@ + code + ": "@ + short);
    }
}

} // verus!
