//! Advisor credentials, from the desk: the setup code that buys one
//! credential write, the checks a store request passes before anything runs,
//! and the command lines handed to the setup tool.
//!
//! An API key is spending power, and the page that asks for one is served on
//! a loopback port with no authentication. So storing one costs a six-digit
//! setup code, fixed for the life of the process and printed only on the
//! server's console. Removing a key costs nothing: it only ever reduces
//! capability. A key is never an argument: it travels on the child's stdin.
use vstd::prelude::*;

use crate::error::ApiError;
use crate::text::{chars_of, decimal, owned, push_padded, str_eq, string_of, trim, zero_pad};

verus! {

broadcast use vstd::string::group_string_axioms;

/// The six digits a seed makes: the seed modulo a million, zero-padded.
pub open spec fn code_of(seed: u64) -> Seq<char> {
    zero_pad(decimal((seed % 1_000_000) as nat), 6)
}

/// The setup code for a process whose random seed is `seed`: six decimal
/// digits. The caller draws the seed once per process and keeps the code,
/// so the code is fixed for the life of the process.
pub fn setup_code(seed: u64) -> (code: String)
    ensures
        code@ == code_of(seed),
        code@.len() == 6,
        forall|i: int| 0 <= i < 6 ==> crate::text::is_digit(#[trigger] code@[i]),
{
    let mut s = String::new();
    push_padded(&mut s, seed % 1_000_000, 6);
    proof {
        let n = (seed % 1_000_000) as nat;
        assert(crate::text::pow10(6) == 1_000_000) by {
            reveal_with_fuel(crate::text::pow10, 7);
        }
        crate::text::lemma_decimal_shape(n, 6);
        let d = decimal(n);
        assert(s@ =~= zero_pad(d, 6));
        assert forall|i: int| 0 <= i < 6 implies crate::text::is_digit(#[trigger] s@[i]) by {
            if d.len() < 6 && i < 6 - d.len() {
                assert(s@[i] == '0');
            } else if d.len() < 6 {
                assert(s@[i] == d[i - (6 - d.len())]);
            }
        }
    }
    s
}

/// `POST /api/advisor/credentials/test`.
pub struct TestBody {
    pub provider: String,
    pub model: Option<String>,
}

/// `POST /api/advisor/credentials`: a key, and the code that buys writing
/// it.
pub struct StoreBody {
    pub provider: String,
    pub key: String,
    pub setup_code: String,
}

/// `POST /api/advisor/credentials/clear`.
pub struct ClearBody {
    pub provider: String,
}

/// The refusal of a wrong or missing setup code: the same sentence either
/// way, so the form cannot be searched.
pub open spec fn wrong_code_message() -> Seq<char> {
    "wrong setup code \u{2014} it is printed on the fd-api console at startup"@
}

/// What a store request may proceed with: the key, trimmed, when the setup
/// code given (trimmed) is the process's code and the key is not blank.
pub fn store_check(body: &StoreBody, code: &str) -> (r: Result<String, ApiError>)
    ensures
        trim(body.setup_code@) != code@ ==> (r matches Err(ApiError::BadRequest(m)) && m@ == wrong_code_message()),
        trim(body.setup_code@) == code@ && trim(body.key@).len() == 0 ==> (r matches Err(ApiError::BadRequest(m)) && m@ == "no key given"@),
        trim(body.setup_code@) == code@ && trim(body.key@).len() > 0 ==> (r matches Ok(k) && k@ == trim(body.key@)),
{
    let given = crate::text::trimmed(body.setup_code.as_str());
    let want = chars_of(code);
    if !crate::text::same_chars(&given, &want) {
        return Err(ApiError::BadRequest(owned(
            "wrong setup code \u{2014} it is printed on the fd-api console at startup",
        )));
    }
    let key = crate::text::trimmed(body.key.as_str());
    if key.len() == 0 {
        return Err(ApiError::BadRequest(owned("no key given")));
    }
    Ok(string_of(&key))
}

/// The arguments of `advisor_setup.py --json test <provider> [--model <m>]`.
pub fn test_args(body: &TestBody) -> (args: Vec<String>)
    ensures
        body.model is None ==> args@.len() == 2,
        body.model is Some ==> args@.len() == 4,
        args@[0]@ == "test"@,
        args@[1]@ == body.provider@,
        body.model matches Some(m) ==> args@[2]@ == "--model"@ && args@[3]@ == m@,
{
    let mut args: Vec<String> = Vec::new();
    args.push(owned("test"));
    args.push(owned(body.provider.as_str()));
    if let Some(m) = &body.model {
        args.push(owned("--model"));
        args.push(owned(m.as_str()));
    }
    args
}

/// The arguments of `advisor_setup.py --json key <provider> --stdin`: the
/// key itself goes on stdin, never in the argument list.
pub fn store_args(body: &StoreBody) -> (args: Vec<String>)
    ensures
        args@.len() == 3,
        args@[0]@ == "key"@,
        args@[1]@ == body.provider@,
        args@[2]@ == "--stdin"@,
{
    let mut args: Vec<String> = Vec::new();
    args.push(owned("key"));
    args.push(owned(body.provider.as_str()));
    args.push(owned("--stdin"));
    args
}

/// The arguments of `advisor_setup.py --json clear <provider>`.
pub fn clear_args(body: &ClearBody) -> (args: Vec<String>)
    ensures
        args@.len() == 2,
        args@[0]@ == "clear"@,
        args@[1]@ == body.provider@,
{
    let mut args: Vec<String> = Vec::new();
    args.push(owned("clear"));
    args.push(owned(body.provider.as_str()));
    args
}

/// The object the setup tool printed: the last line that starts with `{`
/// once its leading space is gone, or nothing. Taking the last one means a
/// warning printed above it does not make a working call look broken.
pub open spec fn json_line_of(lines: Seq<Seq<char>>) -> Seq<char>
    decreases lines.len(),
{
    if lines.len() == 0 {
        Seq::empty()
    } else {
        let t = crate::text::trim_start(lines.last());
        if t.len() > 0 && t[0] == '{' {
            lines.last()
        } else {
            json_line_of(lines.drop_last())
        }
    }
}

/// The line of the setup tool's output that holds its answer.
pub fn json_line(stdout: &str) -> (line: String)
    ensures
        line@ == json_line_of(crate::text::lines(stdout@)),
{
    let lines = crate::text::split_lines(&chars_of(stdout));
    let ghost ls = crate::text::lines(stdout@);
    let mut k = lines.len();
    assert(ls.take(ls.len() as int) =~= ls);
    while k > 0
        invariant
            k <= lines@.len(),
            lines@.len() == ls.len(),
            forall|q: int| 0 <= q < lines@.len() ==> (#[trigger] lines@[q])@ == ls[q],
            json_line_of(ls) == json_line_of(ls.take(k as int)),
            ls == crate::text::lines(stdout@),
        decreases k,
    {
        let line = &lines[k - 1];
        assert(ls.take(k as int).last() == line@);
        assert(ls.take(k as int).drop_last() =~= ls.take(k - 1));
        let s = crate::text::skip_ws(line, 0);
        assert(line@.subrange(0, line@.len() as int) =~= line@);
        if s < line.len() && line[s] == '{' {
            assert(crate::text::trim_start(line@)[0] == line@[s as int]);
            return string_of(line);
        }
        k = k - 1;
    }
    String::new()
}

/// The directory the setup tool runs in: the config directory's parent, or
/// the current directory when that parent is empty or absent.
pub fn root_of(config_parent: Option<&str>) -> (root: String)
    ensures
        root@ == (match config_parent {
            Some(p) => if p@.len() > 0 { p@ } else { "."@ },
            None => "."@,
        }),
{
    match config_parent {
        Some(p) => if chars_of(p).len() > 0 {
            owned(p)
        } else {
            owned(".")
        },
        None => owned("."),
    }
}

} // verus!
