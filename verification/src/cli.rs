//! Command-line helpers: the request line sent to the running app's dev
//! server (`saya dev <method>`), the display of its replies and the exit
//! decision on the first one, and the log tail (`saya logs [-f]`).

use vstd::prelude::*;
use vstd::string::StringExecFns;

verus! {

/// `serde_json::Error`, carried opaquely.
#[verifier::external_type_specification]
#[verifier::external_body]
pub struct ExJsonError(serde_json::Error);

// ---------------------------------------------------------------------------
// Dev server requests
// ---------------------------------------------------------------------------

/// The JSON string literal `serde_json` writes for `s`: quoted, with `"`,
/// `\` and control characters escaped.
pub uninterp spec fn json_string(s: Seq<char>) -> Seq<char>;

/// The compact JSON text `serde_json` writes back for the JSON text `text`,
/// or `None` when `text` is not JSON.
pub uninterp spec fn json_compact(text: Seq<char>) -> Option<Seq<char>>;

/// Whether the JSON text `text`, read as a value, has a member `key`;
/// `None` when `text` is not JSON.
pub uninterp spec fn json_has_member(text: Seq<char>, key: Seq<char>) -> Option<bool>;

/// The pretty-printed JSON text `serde_json` writes for the JSON text
/// `text`, or `None` when `text` is not JSON.
pub uninterp spec fn json_pretty(text: Seq<char>) -> Option<Seq<char>>;

pub open spec fn params_view(params: Option<&str>) -> Option<Seq<char>> {
    match params {
        Some(p) => Some(p@),
        None => None,
    }
}

/// Writes `s` as a JSON string with `serde_json` (`Value::String` and its
/// `Display`). The text is named.
#[verifier::external_body]
fn json_quote(s: &str) -> (r: String)
    ensures
        r@ == json_string(s@),
{
    serde_json::Value::String(s.to_string()).to_string()
}

/// Reads `text` with `serde_json::from_str` and writes the value back in
/// compact form (`Display`). The text is named.
#[verifier::external_body]
fn json_rewrite(text: &str) -> (r: Result<String, serde_json::Error>)
    ensures
        match r {
            Ok(c) => json_compact(text@) == Some(c@),
            Err(_) => json_compact(text@) is None,
        },
{
    serde_json::from_str::<serde_json::Value>(text).map(|v| v.to_string())
}

/// Reads `text` with `serde_json::from_str` and asks the value for the
/// member `key` (`Value::get`). The answer is named.
#[verifier::external_body]
fn json_member_present(text: &str, key: &str) -> (r: Option<bool>)
    ensures
        r == json_has_member(text@, key@),
{
    match serde_json::from_str::<serde_json::Value>(text) {
        Ok(v) => Some(v.get(key).is_some()),
        Err(_) => None,
    }
}

/// Reads `text` with `serde_json::from_str` and writes the value with
/// `serde_json::to_string_pretty`. The text is named.
#[verifier::external_body]
fn pretty_of(text: &str) -> (r: Result<String, serde_json::Error>)
    ensures
        match r {
            Ok(p) => json_pretty(text@) == Some(p@),
            Err(_) => json_pretty(text@) is None,
        },
{
    let v: serde_json::Value = serde_json::from_str(text)?;
    serde_json::to_string_pretty(&v)
}

/// The request line for `method` with the params written as `params`:
/// `{"id":1,"method":<method as a JSON string>,"params":<params>}`.
pub open spec fn request_line(method: Seq<char>, params: Seq<char>) -> Seq<char> {
    "{\"id\":1,\"method\":"@ + json_string(method) + ",\"params\":"@ + params + "}"@
}

/// The request line for `method` and the params text, if any: the params
/// written back in compact form, `{}` when there are none; `None` when the
/// params text is not JSON.
pub open spec fn dev_request_spec(method: Seq<char>, params: Option<Seq<char>>) -> Option<Seq<char>> {
    match params {
        None => Some(request_line(method, "{}"@)),
        Some(t) => match json_compact(t) {
            Some(c) => Some(request_line(method, c)),
            None => None,
        },
    }
}

/// The request line sent to the dev server for `method` with the params
/// text `params` (see `dev_request_spec`): `Err` exactly when the params
/// text is not JSON.
pub fn dev_request(method: &str, params: Option<&str>) -> (r: Result<String, serde_json::Error>)
    ensures
        match r {
            Ok(s) => dev_request_spec(method@, params_view(params)) == Some(s@),
            Err(_) => dev_request_spec(method@, params_view(params)) is None,
        },
{
    let params_text = match params {
        None => "{}".to_string(),
        Some(t) => match json_rewrite(t) {
            Ok(c) => c,
            Err(e) => return Err(e),
        },
    };
    let quoted = json_quote(method);
    let mut line = "{\"id\":1,\"method\":".to_string();
    line.append(quoted.as_str());
    line.append(",\"params\":");
    line.append(params_text.as_str());
    line.append("}");
    Ok(line)
}

/// A reply line pretty-printed for display: `Err` exactly when it is not
/// JSON.
pub fn pretty_reply(line: &str) -> (r: Result<String, serde_json::Error>)
    ensures
        match r {
            Ok(p) => json_pretty(line@) == Some(p@),
            Err(_) => json_pretty(line@) is None,
        },
{
    pretty_of(line)
}

/// The exit status after the first reply: 2 when the reply reports an
/// error and the command does not follow the event stream, otherwise the
/// command goes on.
pub open spec fn exit_code_spec(has_error: Option<bool>, follow: bool) -> Option<i32> {
    if has_error == Some(true) && !follow {
        Some(2i32)
    } else {
        None
    }
}

/// Decides the exit status from whether the first reply has an error
/// (`None` when it is not JSON) and whether the command follows.
pub fn exit_code_after(has_error: Option<bool>, follow: bool) -> (r: Option<i32>)
    ensures
        r == exit_code_spec(has_error, follow),
{
    match has_error {
        Some(true) => if follow {
            None
        } else {
            Some(2)
        },
        _ => None,
    }
}

/// The exit status after the first reply line `line`: the reply reports
/// an error when it has an `error` member.
pub fn response_exit_code(line: &str, follow: bool) -> (r: Option<i32>)
    ensures
        r == exit_code_spec(json_has_member(line@, "error"@), follow),
{
    exit_code_after(json_member_present(line, "error"), follow)
}

// ---------------------------------------------------------------------------
// Log tail
// ---------------------------------------------------------------------------

/// The index of the first `\n` of `s` at or after `i`, or `s.len()`.
pub open spec fn next_newline(s: Seq<char>, i: int) -> int
    decreases s.len() - i,
{
    if i < 0 || i >= s.len() {
        s.len() as int
    } else if s[i] == '\n' {
        i
    } else {
        next_newline(s, i + 1)
    }
}

/// The next newline lies between `i` and the end.
pub proof fn lemma_next_newline_range(s: Seq<char>, i: int)
    requires
        0 <= i <= s.len(),
    ensures
        i <= next_newline(s, i) <= s.len(),
    decreases s.len() - i,
{
    if i < s.len() && s[i] != '\n' {
        lemma_next_newline_range(s, i + 1);
    }
}

/// A line without the `\r` of a `\r\n` ending.
pub open spec fn strip_cr(line: Seq<char>) -> Seq<char> {
    if line.len() > 0 && line.last() == '\r' {
        line.drop_last()
    } else {
        line
    }
}

/// The lines `str::lines` yields for `s`: `s` split at each `\n`, each line
/// ended by `\n` without a `\r` just before it, a final `\n` ending the last
/// line rather than starting an empty one, and no lines for an empty `s`.
pub open spec fn str_lines(s: Seq<char>) -> Seq<Seq<char>>
    decreases s.len(),
{
    if s.len() == 0 {
        Seq::empty()
    } else {
        let n = next_newline(s, 0);
        if n >= s.len() {
            seq![s]
        } else {
            proof {
                lemma_next_newline_range(s, 0);
            }
            seq![strip_cr(s.take(n))] + str_lines(s.skip(n + 1))
        }
    }
}

/// Calls `str::lines` and copies each line; the lines are `str_lines`.
#[verifier::external_body]
fn lines_of(s: &str) -> (r: Vec<String>)
    ensures
        r@.map_values(|l: String| l@) == str_lines(s@),
{
    s.lines().map(|l| l.to_string()).collect()
}

/// The last `n` lines of `content` (all of them when there are fewer).
pub open spec fn last_lines_spec(content: Seq<char>, n: usize) -> Seq<Seq<char>> {
    let ls = str_lines(content);
    if ls.len() <= n {
        ls
    } else {
        ls.skip(ls.len() - n)
    }
}

/// The last `n` lines of `content`, in order.
pub fn last_lines(content: &str, n: usize) -> (r: Vec<String>)
    ensures
        r@.map_values(|l: String| l@) == last_lines_spec(content@, n),
{
    let mut all = lines_of(content);
    let start = if all.len() <= n {
        0
    } else {
        all.len() - n
    };
    let ghost before = all@;
    let tail = all.split_off(start);
    assert(tail@.map_values(|l: String| l@) =~= last_lines_spec(content@, n)) by {
        assert(before.map_values(|l: String| l@) == str_lines(content@));
        assert forall|i: int| 0 <= i < tail@.len() implies tail@[i]@ == last_lines_spec(
            content@,
            n,
        )[i] by {
            assert(tail@[i] == before[start + i]);
            assert(before.map_values(|l: String| l@)[start + i] == before[start + i]@);
        }
    }
    tail
}

/// One poll of the followed log: the read position, reset to 0 when the
/// file shrank below it (it was truncated), and whether there is new text
/// to read from that position.
pub fn follow_step(pos: u64, len: u64) -> (r: (u64, bool))
    ensures
        r.0 == (if len < pos {
            0
        } else {
            pos
        }),
        r.1 == (len > r.0),
{
    let p = if len < pos {
        0
    } else {
        pos
    };
    (p, len > p)
}

} // verus!
