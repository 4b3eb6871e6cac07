//! The password on the second listener: the stored verifier, the sessions,
//! the lockout, and the cookie a session travels in.
//!
//! Port 8138 serves the desk's own processes with no authentication at all;
//! the second listener (8139 unless configured) needs a session for every
//! request but three, with no exemption for a loopback peer, because the
//! tunnel that reaches it is itself a local process. Sessions live in memory
//! and die with the process. Time is handed in by the caller as nanoseconds
//! on a monotonic clock, the resolution an `Instant` keeps, so every rule
//! about expiry and lockout is a rule about numbers.
use core::time::Duration;
use subtle::ConstantTimeEq;
use vstd::prelude::*;
use vstd::string::StringSliceAdditionalSpecFns;

use crate::text::{
    chars_of, find_char, find_from, lemma_find_from_bounds, pieces, pieces_from, same_chars, slice,
    slice_trimmed, str_eq, string_of, trim, trim_start,
};

verus! {

broadcast use vstd::string::group_string_axioms;

/* ------------------------------------------------------------- the numbers */

/// The port the authed listener uses when nothing says otherwise.
pub const DEFAULT_AUTH_PORT: u16 = 8139;

/// The cookie the session travels in.
pub const COOKIE: &'static str = "fd_session";

/// The shortest password `--set-password` accepts, in characters.
pub const MIN_PASSWORD_LEN: usize = 12;

/// PBKDF2-HMAC-SHA256 iterations for a newly set password. A stored verifier
/// keeps the count it was written with.
pub const PBKDF2_ITERATIONS: u32 = 600_000;

/// How long a session is good for, in nanoseconds: twelve hours, absolute
/// from the moment of login.
pub const SESSION_TTL_NS: u64 = 43_200_000_000_000;

/// The same twelve hours in seconds, for the cookie's `Max-Age`.
pub const SESSION_TTL_SECS: u64 = 43_200;

/// Failed logins allowed before the lockout starts counting.
pub const FREE_ATTEMPTS: u32 = 5;

/// The first lockout, doubling with each further failure.
pub const LOCKOUT_BASE_SECS: u64 = 5;

/// The ceiling on the lockout: fifteen minutes.
pub const LOCKOUT_MAX_SECS: u64 = 900;

/// The section of `config/local.toml` the verifier lives in.
pub const SECTION: &'static str = "auth";

/// Bytes of salt for a newly set password.
pub const SALT_LEN: usize = 16;

/// SHA-256's output, and so the verifier's length.
pub const HASH_LEN: usize = 32;

/// Bytes in a session token.
pub const TOKEN_LEN: usize = 32;

/// Characters in a session token's text: [`TOKEN_LEN`] bytes in unpadded
/// base64.
pub const TOKEN_TEXT_LEN: usize = 43;

/// Nanoseconds in a second.
pub const NANOS_PER_SEC: u64 = 1_000_000_000;

/// The first salt length SHA-256 cannot take inside the HMAC that PBKDF2
/// runs: the digest counts its input in bits in a `u64`, so a message is
/// under 2^61 bytes, and the salt shares it with the 64-byte key block and
/// the 4-byte block index.
pub const SALT_LIMIT: u64 = 0x1fff_ffff_ffff_ffbc;

/// The latest clock reading the session arithmetic accepts: far enough below
/// the top of a `u64` that a session's expiry can always be written down.
pub const CLOCK_LIMIT: u64 = 0xffff_0000_0000_0000;

/// The login page: the body of `GET /login` and of every 401 that asked for
/// HTML. It carries its own style and script and reaches for nothing else,
/// because it is shown on a desk whose bundle may never have loaded.
pub const LOGIN_PAGE: &'static str = "<!doctype html>
<html lang=\"en\">
<head>
<meta charset=\"utf-8\">
<meta name=\"viewport\" content=\"width=device-width, initial-scale=1\">
<title>flowdesk - sign in</title>
<style>
body { font-family: system-ui, sans-serif; background: #111; color: #ddd; display: flex; min-height: 100vh; align-items: center; justify-content: center; margin: 0; }
form { background: #1b1b1b; padding: 2rem; border-radius: 8px; min-width: 18rem; }
input, button { width: 100%; box-sizing: border-box; padding: 0.6rem; margin-top: 0.8rem; font-size: 1rem; }
#why { color: #e88; min-height: 1.2rem; margin-top: 0.8rem; }
</style>
</head>
<body>
<form id=\"signin\">
<div>Desk password</div>
<input id=\"password\" type=\"password\" autocomplete=\"current-password\" autofocus>
<button type=\"submit\">Sign in</button>
<div id=\"why\"></div>
</form>
<script>
document.getElementById('signin').addEventListener('submit', async (event) => {
  event.preventDefault();
  const why = document.getElementById('why');
  why.textContent = '';
  const password = document.getElementById('password').value;
  try {
    const res = await fetch('/api/auth/login', {
      method: 'POST',
      headers: { 'Content-Type': 'application/json' },
      body: JSON.stringify({ password }),
    });
    if (res.ok) { window.location.href = '/'; return; }
    const body = await res.json().catch(() => ({}));
    why.textContent = body.error || ('sign-in failed (' + res.status + ')');
  } catch (e) {
    why.textContent = 'the desk did not answer';
  }
});
</script>
</body>
</html>
";

/* ------------------------------------------------------------ public paths */

/// The three paths the second listener serves without a session.
pub open spec fn public_path(path: Seq<char>) -> bool {
    ||| path == "/login"@
    ||| path == "/api/auth/login"@
    ||| path == "/api/auth/logout"@
}

/// Does `path` pass the guard without a session? Exactly three do; the list
/// is written out so that a fourth is a decision somebody makes.
pub fn is_public(path: &str) -> (r: bool)
    ensures
        r == public_path(path@),
{
    str_eq(path, "/login") || str_eq(path, "/api/auth/login") || str_eq(path, "/api/auth/logout")
}

/* ---------------------------------------------------------------- cookies */

/// The value of the first `name=value` piece of a `Cookie:` header whose
/// trimmed name is `name`, trimmed.
pub open spec fn cookie_in(parts: Seq<Seq<char>>, name: Seq<char>) -> Option<Seq<char>>
    decreases parts.len(),
{
    if parts.len() == 0 {
        None
    } else {
        let p = parts[0];
        let eq = find_from(p, '=', 0);
        if eq < p.len() && trim(p.subrange(0, eq)) == name {
            Some(trim(p.subrange(eq + 1, p.len() as int)))
        } else {
            cookie_in(parts.drop_first(), name)
        }
    }
}

/// One cookie out of a `Cookie:` header.
pub open spec fn cookie_of(header: Seq<char>, name: Seq<char>) -> Option<Seq<char>> {
    cookie_in(pieces(header, ';'), name)
}

/// Pull the cookie `name` out of a `Cookie:` header.
pub fn cookie_value(header: &str, name: &str) -> (r: Option<String>)
    ensures
        r matches Some(v) ==> cookie_of(header@, name@) == Some(v@),
        r is None ==> cookie_of(header@, name@) is None,
{
    let h = chars_of(header);
    let want = chars_of(name);
    let mut from: usize = 0;
    while from <= h.len()
        invariant
            h@ == header@,
            want@ == name@,
            from <= h@.len() + 1,
            cookie_of(h@, want@) == cookie_in(pieces_from(h@, ';', from as int), want@),
        decreases h@.len() + 1 - from,
    {
        let end = find_char(&h, ';', from);
        proof {
            lemma_find_from_bounds(h@, ';', from as int);
        }
        let ghost part = h@.subrange(from as int, end as int);
        let ghost rest = pieces_from(h@, ';', from as int);
        assert(rest.len() > 0 && rest[0] == part);
        let eq = find_char(&h, '=', from);
        // The `=` inside this piece, if there is one.
        let eq_here = eq < end;
        proof {
            lemma_find_from_bounds(h@, '=', from as int);
            lemma_find_shift(h@, '=', from as int, end as int);
        }
        if eq_here {
            let key = slice_trimmed(&h, from, eq);
            assert(part.subrange(0, eq - from) =~= h@.subrange(from as int, eq as int));
            if same_chars(&key, &want) {
                let value = slice_trimmed(&h, eq + 1, end);
                assert(part.subrange(eq - from + 1, part.len() as int) =~= h@.subrange(
                    eq + 1,
                    end as int,
                ));
                return Some(string_of(&value));
            }
        }
        assert(cookie_in(rest, want@) == cookie_in(rest.drop_first(), want@));
        if end >= h.len() {
            assert(rest.drop_first().len() == 0);
            return None;
        }
        assert(rest.drop_first() =~= pieces_from(h@, ';', end + 1));
        from = end + 1;
    }
    None
}

/// Within `s[from..end]`, where `end` is the next `;`, the first `=` found
/// from `from` lies inside the piece exactly when the piece has one, and is
/// then the piece's own first `=`.
proof fn lemma_find_shift(s: Seq<char>, c: char, from: int, end: int)
    requires
        0 <= from <= end <= s.len(),
    ensures
        ({
            let e = find_from(s, c, from);
            let p = s.subrange(from, end);
            &&& (e < end) == (find_from(p, c, 0) < p.len())
            &&& e < end ==> find_from(p, c, 0) == e - from
        }),
    decreases end - from,
{
    let p = s.subrange(from, end);
    lemma_find_from_bounds(s, c, from);
    if from == end {
        assert(find_from(p, c, 0) == 0);
    } else {
        assert(p[0] == s[from]);
        if s[from] != c {
            let q = s.subrange(from + 1, end);
            lemma_find_shift(s, c, from + 1, end);
            lemma_find_drop(p, c);
            assert(p.subrange(1, p.len() as int) =~= q);
            assert(find_from(s, c, from) == find_from(s, c, from + 1));
        } else {
            assert(find_from(s, c, from) == from);
            assert(find_from(p, c, 0) == 0);
        }
    }
}

/// Searching a sequence from position 1 is searching its tail from 0.
proof fn lemma_find_drop(p: Seq<char>, c: char)
    requires
        p.len() > 0,
        p[0] != c,
    ensures
        find_from(p, c, 0) == 1 + find_from(p.subrange(1, p.len() as int), c, 0),
{
    lemma_find_offset(p, c, 1);
}

/// `find_from(p, c, k)` is `k` plus the search of `p[k..]` from its start.
proof fn lemma_find_offset(p: Seq<char>, c: char, k: int)
    requires
        0 <= k <= p.len(),
    ensures
        find_from(p, c, k) == k + find_from(p.subrange(k, p.len() as int), c, 0),
    decreases p.len() - k,
{
    let q = p.subrange(k, p.len() as int);
    if k < p.len() && p[k] != c {
        lemma_find_offset(p, c, k + 1);
        lemma_find_offset(q, c, 1);
        assert(q.subrange(1, q.len() as int) =~= p.subrange(k + 1, p.len() as int));
    }
}


/* ------------------------------------------------------ the outside crates */

/// The two base64 engines this module uses.
#[derive(Clone, Copy, PartialEq, Eq, Structural)]
pub enum B64 {
    /// `base64::engine::general_purpose::STANDARD`: padded, `+` and `/`.
    Standard,
    /// `URL_SAFE_NO_PAD`: `-` and `_`, no padding, for values in a cookie.
    UrlSafeNoPad,
}

/// What `base64::Engine::encode` gives for `bytes` under `engine`.
pub uninterp spec fn b64_encoded(engine: B64, bytes: Seq<u8>) -> Seq<char>;

/// What `base64::Engine::decode` gives for `text` under `engine`: the bytes,
/// or its error's message.
pub uninterp spec fn b64_decoding(engine: B64, text: Seq<char>) -> Result<Seq<u8>, Seq<char>>;

/// The bytes `text` decodes to under `engine`, when it decodes at all.
pub open spec fn b64_decoded(engine: B64, text: Seq<char>) -> Option<Seq<u8>> {
    match b64_decoding(engine, text) {
        Ok(b) => Some(b),
        Err(_) => None,
    }
}

/// A decode result with its message as characters.
pub open spec fn bytes_view(r: Result<Vec<u8>, String>) -> Result<Seq<u8>, Seq<char>> {
    match r {
        Ok(v) => Ok(v@),
        Err(e) => Err(e@),
    }
}

/// A character of the URL-safe alphabet.
pub open spec fn url_safe_char(c: char) -> bool {
    ||| ('A' <= c && c <= 'Z')
    ||| ('a' <= c && c <= 'z')
    ||| ('0' <= c && c <= '9')
    ||| c == '-'
    ||| c == '_'
}

/// The length of the base64 text of `n` bytes under `engine`: four
/// characters for every three bytes, and for the one or two left over four
/// more when padded, two or three when not.
pub open spec fn b64_len(engine: B64, n: nat) -> nat {
    match engine {
        B64::Standard => (n + 2) / 3 * 4,
        B64::UrlSafeNoPad => n / 3 * 4 + if n % 3 == 0 {
            0
        } else {
            n % 3 + 1
        },
    }
}

/// Bytes whose base64 text fits a buffer: four characters for every three
/// bytes begun, at most `isize::MAX` of them. `encode` panics past that.
pub open spec fn encodable(bytes: Seq<u8>) -> bool {
    bytes.len() / 3 * 4 + 4 <= isize::MAX
}

/// `base64::Engine::encode`. Claimed of it: the text decodes back to the
/// same bytes under the same engine, its length is the one `encoded_len`
/// computes, and the URL-safe engine writes only letters, digits, `-` and
/// `_`.
#[verifier::external_body]
fn b64_encode(engine: B64, bytes: &[u8]) -> (text: String)
    requires
        encodable(bytes@),
    ensures
        text@ == b64_encoded(engine, bytes@),
        b64_decoded(engine, text@) == Some(bytes@),
        text@.len() == b64_len(engine, bytes@.len()),
        engine == B64::UrlSafeNoPad ==> forall|i: int|
            0 <= i < text@.len() ==> url_safe_char(#[trigger] text@[i]),
{
    match engine {
        B64::Standard => base64::Engine::encode(&base64::engine::general_purpose::STANDARD, bytes),
        B64::UrlSafeNoPad => base64::Engine::encode(
            &base64::engine::general_purpose::URL_SAFE_NO_PAD,
            bytes,
        ),
    }
}

/// `base64::Engine::decode`, with its error rendered as text. Claimed of it:
/// the result, bytes or message, is the named decoding of the text.
#[verifier::external_body]
fn b64_decode(engine: B64, text: &str) -> (r: Result<Vec<u8>, String>)
    ensures
        bytes_view(r) == b64_decoding(engine, text@),
{
    let got = match engine {
        B64::Standard => base64::Engine::decode(&base64::engine::general_purpose::STANDARD, text),
        B64::UrlSafeNoPad => base64::Engine::decode(
            &base64::engine::general_purpose::URL_SAFE_NO_PAD,
            text,
        ),
    };
    got.map_err(|e| e.to_string())
}

/// PBKDF2-HMAC-SHA256 with `iterations` rounds over `salt` and the UTF-8
/// bytes of `secret`, `len` bytes of it.
pub uninterp spec fn pbkdf2_sha256(iterations: u32, salt: Seq<u8>, secret: Seq<char>, len: nat) -> Seq<u8>;

/// The most bytes of password the hash is ever handed.
pub open spec fn secret_fits(secret: &str) -> bool {
    secret.spec_bytes().len() < 0x1000_0000_0000_0000
}

/// `ring::pbkdf2::derive` with `PBKDF2_HMAC_SHA256` into a 32-byte output.
/// Claimed of it: the output is the named derivation, 32 bytes long. Its
/// panics (a salt or secret too large for SHA-256) are ruled out by the
/// bounds required here.
#[verifier::external_body]
fn pbkdf2_derive(iterations: u32, salt: &[u8], secret: &str) -> (out: Vec<u8>)
    requires
        iterations > 0,
        salt@.len() < SALT_LIMIT,
        secret_fits(secret),
    ensures
        out@ == pbkdf2_sha256(iterations, salt@, secret@, HASH_LEN as nat),
        out@.len() == HASH_LEN,
{
    let mut out = vec![0u8; HASH_LEN];
    let rounds = core::num::NonZeroU32::new(iterations).unwrap();
    ring::pbkdf2::derive(ring::pbkdf2::PBKDF2_HMAC_SHA256, rounds, salt, secret.as_bytes(), &mut out);
    out
}

/// `ring::pbkdf2::verify` with `PBKDF2_HMAC_SHA256`. Claimed of it, from its
/// source: it succeeds exactly when `previous` is not empty and equals the
/// derivation of the same length; the comparison is made in constant time.
#[verifier::external_body]
fn pbkdf2_verify(iterations: u32, salt: &[u8], secret: &str, previous: &[u8]) -> (ok: bool)
    requires
        iterations > 0,
        salt@.len() < SALT_LIMIT,
        secret_fits(secret),
        previous@.len() <= HASH_LEN,
    ensures
        ok == (previous@.len() > 0 && pbkdf2_sha256(iterations, salt@, secret@, previous@.len())
            == previous@),
{
    let rounds = core::num::NonZeroU32::new(iterations).unwrap();
    ring::pbkdf2::verify(ring::pbkdf2::PBKDF2_HMAC_SHA256, rounds, salt, secret.as_bytes(), previous)
        .is_ok()
}

/// `n` bytes from `ring::rand::SystemRandom::fill`, or `None` when the OS
/// would not give them. Nothing is claimed of the bytes but their number.
#[verifier::external_body]
fn random_bytes(n: usize) -> (r: Option<Vec<u8>>)
    ensures
        r matches Some(v) ==> v@.len() == n,
{
    let mut out = vec![0u8; n];
    match ring::rand::SecureRandom::fill(&ring::rand::SystemRandom::new(), &mut out) {
        Ok(()) => Some(out),
        Err(_) => None,
    }
}

/// `subtle::ConstantTimeEq::ct_eq` on two byte slices, as a `bool`: true
/// exactly when they are the same bytes, in time that does not depend on
/// where they differ.
#[verifier::external_body]
fn same(a: &[u8], b: &[u8]) -> (r: bool)
    ensures
        r == (a@ == b@),
{
    a.ct_eq(b).into()
}

/// `Duration::from_secs`.
pub uninterp spec fn duration_secs(secs: u64) -> Duration;

/// `Duration::from_nanos`.
pub uninterp spec fn duration_nanos(ns: u64) -> Duration;

/// `Duration::from_secs`, named. Claimed of it besides: whole seconds are
/// the same span as that many nanoseconds, where those fit a `u64`.
#[verifier::external_body]
fn secs_duration(secs: u64) -> (d: Duration)
    ensures
        d == duration_secs(secs),
        secs * NANOS_PER_SEC <= u64::MAX ==> d == duration_nanos((secs * NANOS_PER_SEC) as u64),
{
    Duration::from_secs(secs)
}

/// `Duration::from_nanos`, named.
#[verifier::external_body]
fn nanos_duration(ns: u64) -> (d: Duration)
    ensures
        d == duration_nanos(ns),
{
    Duration::from_nanos(ns)
}

/* --------------------------------------------------- a TOML document, read */

/// A value inside a TOML table, as far as this module reads one.
pub enum TomlScalar {
    Str(String),
    Int(i64),
    Bool(bool),
    /// A float, a date, an array or a table: never a usable value here.
    Other,
}

/// A top-level entry of a TOML document: a table of values, or one value.
pub enum TomlItem {
    Table(Vec<(String, TomlScalar)>),
    Scalar(TomlScalar),
}

/// A parsed TOML document: its top-level keys, each once, with what they
/// hold.
pub struct TomlDoc {
    pub entries: Vec<(String, TomlItem)>,
}

/// What `toml::from_str` makes of `text`: the document, or the parser's
/// message.
pub uninterp spec fn toml_document(text: Seq<char>) -> Result<TomlDoc, Seq<char>>;

/// A parse result with its message as characters.
pub open spec fn doc_view(r: Result<TomlDoc, String>) -> Result<TomlDoc, Seq<char>> {
    match r {
        Ok(d) => Ok(d),
        Err(e) => Err(e@),
    }
}

/// `toml::from_str::<toml::Table>`, with the document converted value by
/// value into [`TomlDoc`]. Claimed of it: the result is the named parse of
/// the text.
#[verifier::external_body]
fn parse_toml(text: &str) -> (r: Result<TomlDoc, String>)
    ensures
        doc_view(r) == toml_document(text@),
{
    let scalar = |v: toml::Value| match v {
        toml::Value::String(s) => TomlScalar::Str(s),
        toml::Value::Integer(i) => TomlScalar::Int(i),
        toml::Value::Boolean(b) => TomlScalar::Bool(b),
        _ => TomlScalar::Other,
    };
    let root = toml::from_str::<toml::Table>(text).map_err(|e| e.to_string())?;
    Ok(TomlDoc { entries: root.into_iter().map(|(k, v)| match v {
        toml::Value::Table(t) => (k, TomlItem::Table(t.into_iter().map(|(k, v)| (k, scalar(v))).collect())),
        v => (k, TomlItem::Scalar(scalar(v))),
    }).collect() })
}

/// The first entry of `entries` named `key`.
pub open spec fn lookup<T>(entries: Seq<(String, T)>, key: Seq<char>) -> Option<T>
    decreases entries.len(),
{
    if entries.len() == 0 {
        None
    } else if entries[0].0@ == key {
        Some(entries[0].1)
    } else {
        lookup(entries.drop_first(), key)
    }
}

/// Find `key` among `entries`.
fn find_entry<T>(entries: &Vec<(String, T)>, key: &str) -> (r: Option<usize>)
    ensures
        r matches Some(i) ==> i < entries@.len() && lookup(entries@, key@) == Some(entries@[i as int].1),
        r is None ==> lookup(entries@, key@) is None,
{
    let mut i: usize = 0;
    assert(entries@.subrange(0, entries@.len() as int) =~= entries@);
    while i < entries.len()
        invariant
            i <= entries@.len(),
            lookup(entries@, key@) == lookup(entries@.subrange(i as int, entries@.len() as int), key@),
        decreases entries@.len() - i,
    {
        let ghost rest = entries@.subrange(i as int, entries@.len() as int);
        assert(rest[0] == entries@[i as int]);
        if str_eq(entries[i].0.as_str(), key) {
            return Some(i);
        }
        assert(rest.drop_first() =~= entries@.subrange(i + 1, entries@.len() as int));
        i = i + 1;
    }
    None
}


/* ------------------------------------------------------- the stored hash */

/// The `[auth]` section of `config/local.toml`, parsed: a per-install salt,
/// a PBKDF2-HMAC-SHA256 verifier, and the iteration count it was made with.
///
/// Nothing here ever hands out the salt or the hash except
/// [`StoredPassword::toml_pairs`], which writes them back to the file.
#[derive(Clone)]
pub struct StoredPassword {
    salt: Vec<u8>,
    hash: Vec<u8>,
    iterations: u32,
}

impl View for StoredPassword {
    type V = (Seq<u8>, Seq<u8>, u32);

    /// Salt, verifier, iteration count.
    closed spec fn view(&self) -> (Seq<u8>, Seq<u8>, u32) {
        (self.salt@, self.hash@, self.iterations)
    }
}

/// A salt, verifier and count that can be checked against: a salt that is
/// there and of a size the hash takes, a verifier of SHA-256's length, and a
/// count that is not zero.
pub open spec fn usable(v: (Seq<u8>, Seq<u8>, u32)) -> bool {
    &&& 0 < v.0.len() < SALT_LIMIT
    &&& v.1.len() == HASH_LEN
    &&& v.2 > 0
}

/// The refusal of a short password, which names the minimum.
pub open spec fn too_short_message(chars: nat) -> Seq<char> {
    "that password is "@ + crate::text::decimal(chars) + " characters. The minimum is 12 \u{2014} this one guards a desk that can stop a live book, and the lockout only buys time against a password worth guessing at."@
}

/// A base64 text field of `[auth]`: its text, or why there is none.
pub open spec fn b64_field(t: Seq<(String, TomlScalar)>, key: Seq<char>) -> Result<Seq<char>, Seq<char>> {
    match lookup(t, key) {
        None => Err("[auth] has no `"@ + key + "`. Run `fd-api --set-password`."@),
        Some(TomlScalar::Str(s)) => Ok(s@),
        Some(_) => Err("[auth]."@ + key + " must be a base64 string"@),
    }
}

/// The refusal of a salt too long for the hash to take.
pub open spec fn long_salt_message(len: nat) -> Seq<char> {
    "[auth].salt is "@ + crate::text::decimal(len) + " bytes, more than SHA-256 can take"@
}

/// The salt, verifier and count a non-empty `[auth]` table holds, read in
/// this order: the salt's text and its base64, the hash's text and its
/// base64, the salt not empty, the hash 32 bytes, and a count that is a
/// whole number from 1 to `u32::MAX`. The first that fails says why.
pub open spec fn table_reading(t: Seq<(String, TomlScalar)>) -> Result<(Seq<u8>, Seq<u8>, u32), Seq<char>> {
    match b64_field(t, "salt"@) {
        Err(m) => Err(m),
        Ok(st) => match b64_decoding(B64::Standard, st) {
            Err(e) => Err("[auth].salt is not base64: "@ + e),
            Ok(salt) => match b64_field(t, "hash"@) {
                Err(m) => Err(m),
                Ok(ht) => match b64_decoding(B64::Standard, ht) {
                    Err(e) => Err("[auth].hash is not base64: "@ + e),
                    Ok(hash) => if salt.len() == 0 {
                        Err("[auth].salt is empty"@)
                    } else if salt.len() >= SALT_LIMIT {
                        Err(long_salt_message(salt.len()))
                    } else if hash.len() != HASH_LEN {
                        Err("[auth].hash is "@ + crate::text::decimal(hash.len())
                            + " bytes; PBKDF2-HMAC-SHA256 produces 32"@)
                    } else {
                        match lookup(t, "pbkdf2_iterations"@) {
                            None => Err("[auth] has no `pbkdf2_iterations`. Run `fd-api --set-password`."@),
                            Some(TomlScalar::Int(n)) => if 0 < n <= u32::MAX {
                                Ok((salt, hash, n as u32))
                            } else {
                                Err("[auth].pbkdf2_iterations is "@ + crate::text::signed_decimal(n as int)
                                    + ", which is not a usable count"@)
                            },
                            Some(_) => Err("[auth].pbkdf2_iterations must be a whole number"@),
                        }
                    },
                },
            },
        },
    }
}

/// What a parsed `config/local.toml` says about the password: `Ok(None)`
/// for no `[auth]`, the verifier when `[auth]` holds a usable one, and
/// otherwise why not (an absent value is absent, never a default).
pub open spec fn doc_reading(doc: TomlDoc) -> Result<Option<(Seq<u8>, Seq<u8>, u32)>, Seq<char>> {
    match lookup(doc.entries@, "auth"@) {
        None => Ok(None),
        Some(TomlItem::Scalar(_)) => Err("[auth] is not a table"@),
        Some(TomlItem::Table(t)) => if t@.len() == 0 {
            Err("[auth] is empty. Run `fd-api --set-password`, or delete the section."@)
        } else {
            match table_reading(t@) {
                Ok(v) => Ok(Some(v)),
                Err(m) => Err(m),
            }
        },
    }
}

/// A parsed document whose `[auth]` table holds what
/// [`StoredPassword::toml_pairs`] writes for `v`: the salt and the verifier
/// as their standard base64 text, and the count as a whole number.
pub open spec fn holds_pairs(doc: TomlDoc, v: (Seq<u8>, Seq<u8>, u32)) -> bool {
    match lookup(doc.entries@, "auth"@) {
        Some(TomlItem::Table(t)) => {
            &&& lookup(t@, "salt"@) matches Some(TomlScalar::Str(s)) && s@ == b64_encoded(B64::Standard, v.0)
            &&& lookup(t@, "hash"@) matches Some(TomlScalar::Str(h)) && h@ == b64_encoded(B64::Standard, v.1)
            &&& lookup(t@, "pbkdf2_iterations"@) == Some(TomlScalar::Int(v.2 as i64))
        },
        _ => false,
    }
}

/// What the text of `config/local.toml` says about the password: as
/// [`doc_reading`] says of its parse, or the parser's message.
pub open spec fn stored_reading(text: Seq<char>) -> Result<Option<(Seq<u8>, Seq<u8>, u32)>, Seq<char>> {
    match toml_document(text) {
        Err(e) => Err("parsing: "@ + e),
        Ok(doc) => doc_reading(doc),
    }
}

/// `a` then `b`.
fn joined2(a: &str, b: &str) -> (s: String)
    ensures
        s@ == a@ + b@,
{
    let mut s = String::new();
    crate::text::push_str(&mut s, a);
    crate::text::push_str(&mut s, b);
    s
}

/// `a`, `b`, then `c`.
fn joined3(a: &str, b: &str, c: &str) -> (s: String)
    ensures
        s@ == a@ + b@ + c@,
{
    let mut s = joined2(a, b);
    crate::text::push_str(&mut s, c);
    s
}

/// A base64 text field of `[auth]`.
fn read_b64_field<'a>(t: &'a Vec<(String, TomlScalar)>, key: &str) -> (r: Result<&'a String, String>)
    ensures
        match b64_field(t@, key@) {
            Ok(v) => r matches Ok(s) && s@ == v,
            Err(m) => r matches Err(e) && e@ == m,
        },
{
    match find_entry(t, key) {
        None => Err(joined3("[auth] has no `", key, "`. Run `fd-api --set-password`.")),
        Some(i) => match &t[i].1 {
            TomlScalar::Str(s) => Ok(s),
            _ => Err(joined3("[auth].", key, " must be a base64 string")),
        },
    }
}

/// The refusal of a password `len` characters long.
fn short_refusal(len: usize) -> (e: String)
    ensures
        e@ == too_short_message(len as nat),
{
    let mut e = String::new();
    crate::text::push_str(&mut e, "that password is ");
    crate::text::push_decimal(&mut e, len as u64);
    crate::text::push_str(
        &mut e,
        " characters. The minimum is 12 \u{2014} this one guards a desk that can stop a live book, and the lockout only buys time against a password worth guessing at.",
    );
    assert(e@ =~= too_short_message(len as nat));
    e
}

impl StoredPassword {
    /// Is this a verifier that can be checked against?
    pub closed spec fn valid(&self) -> bool {
        usable(self@)
    }

    /// The iteration count the verifier was made with.
    pub fn iterations(&self) -> (n: u32)
        ensures
            n == self@.2,
    {
        self.iterations
    }

    /// Derive a verifier for `password` over a salt the caller has drawn.
    /// Refuses a password shorter than [`MIN_PASSWORD_LEN`] characters and
    /// says the minimum.
    pub fn create_with_salt(password: &str, salt: Vec<u8>) -> (r: Result<Self, String>)
        requires
            0 < salt@.len() < SALT_LIMIT,
            secret_fits(password),
        ensures
            r is Err <==> password@.len() < MIN_PASSWORD_LEN,
            r matches Err(e) ==> e@ == too_short_message(password@.len()),
            r matches Ok(p) ==> p.valid() && p@ == (salt@, pbkdf2_sha256(
                PBKDF2_ITERATIONS,
                salt@,
                password@,
                HASH_LEN as nat,
            ), PBKDF2_ITERATIONS),
    {
        // Counted in characters, not bytes: a passphrase with an accent in it
        // is as long as it reads.
        let len = chars_of(password).len();
        if len < MIN_PASSWORD_LEN {
            return Err(short_refusal(len));
        }
        let hash = pbkdf2_derive(PBKDF2_ITERATIONS, salt.as_slice(), password);
        Ok(StoredPassword { salt, hash, iterations: PBKDF2_ITERATIONS })
    }

    /// Derive a fresh verifier for `password`, with a new random salt of
    /// [`SALT_LEN`] bytes from the OS. Refuses a short password before asking
    /// for any randomness.
    pub fn create(password: &str) -> (r: Result<Self, String>)
        requires
            secret_fits(password),
        ensures
            password@.len() < MIN_PASSWORD_LEN ==> (r matches Err(e) && e@ == too_short_message(
                password@.len(),
            )),
            password@.len() >= MIN_PASSWORD_LEN && r is Err ==> (r matches Err(e) && e@
                == "the OS would not give us random bytes for a salt"@),
            r matches Ok(p) ==> {
                &&& password@.len() >= MIN_PASSWORD_LEN
                &&& p.valid()
                &&& p@.0.len() == SALT_LEN
                &&& p@.1 == pbkdf2_sha256(PBKDF2_ITERATIONS, p@.0, password@, HASH_LEN as nat)
                &&& p@.2 == PBKDF2_ITERATIONS
            },
    {
        let len = chars_of(password).len();
        if len < MIN_PASSWORD_LEN {
            return Err(short_refusal(len));
        }
        match random_bytes(SALT_LEN) {
            Some(salt) => Self::create_with_salt(password, salt),
            None => Err(crate::text::owned("the OS would not give us random bytes for a salt")),
        }
    }

    /// Is this the password? Re-derived and compared in constant time by
    /// `ring`, never by `==` on two byte slices.
    pub fn verify(&self, password: &str) -> (ok: bool)
        requires
            self.valid(),
            secret_fits(password),
        ensures
            ok == (pbkdf2_sha256(self@.2, self@.0, password@, HASH_LEN as nat) == self@.1),
    {
        pbkdf2_verify(self.iterations, self.salt.as_slice(), password, self.hash.as_slice())
    }

    /// Read `[auth]` out of a parsed `config/local.toml`: `Ok(None)` when
    /// there is no such section, `Err` saying why for a section that is
    /// there but incomplete or unreadable, and the verifier otherwise.
    pub fn from_doc(doc: &TomlDoc) -> (r: Result<Option<Self>, String>)
        ensures
            match doc_reading(*doc) {
                Ok(None) => r matches Ok(None),
                Ok(Some(v)) => r matches Ok(Some(p)) && p@ == v && p.valid(),
                Err(m) => r matches Err(e) && e@ == m,
            },
    {
        let at = match find_entry(&doc.entries, SECTION) {
            None => return Ok(None),
            Some(i) => i,
        };
        let table = match &doc.entries[at].1 {
            TomlItem::Table(t) => t,
            TomlItem::Scalar(_) => return Err(crate::text::owned("[auth] is not a table")),
        };
        if table.len() == 0 {
            return Err(
                crate::text::owned("[auth] is empty. Run `fd-api --set-password`, or delete the section."),
            );
        }
        let salt_text = read_b64_field(table, "salt")?;
        let salt = match b64_decode(B64::Standard, salt_text.as_str()) {
            Ok(v) => v,
            Err(e) => return Err(joined2("[auth].salt is not base64: ", e.as_str())),
        };
        let hash_text = read_b64_field(table, "hash")?;
        let hash = match b64_decode(B64::Standard, hash_text.as_str()) {
            Ok(v) => v,
            Err(e) => return Err(joined2("[auth].hash is not base64: ", e.as_str())),
        };
        if salt.len() == 0 {
            return Err(crate::text::owned("[auth].salt is empty"));
        }
        if salt.len() as u64 >= SALT_LIMIT {
            let mut m = crate::text::owned("[auth].salt is ");
            crate::text::push_decimal(&mut m, salt.len() as u64);
            crate::text::push_str(&mut m, " bytes, more than SHA-256 can take");
            return Err(m);
        }
        if hash.len() != HASH_LEN {
            let mut m = crate::text::owned("[auth].hash is ");
            crate::text::push_decimal(&mut m, hash.len() as u64);
            crate::text::push_str(&mut m, " bytes; PBKDF2-HMAC-SHA256 produces 32");
            return Err(m);
        }
        let raw = match find_entry(table, "pbkdf2_iterations") {
            None => return Err(
                crate::text::owned("[auth] has no `pbkdf2_iterations`. Run `fd-api --set-password`."),
            ),
            Some(i) => match &table[i].1 {
                TomlScalar::Int(n) => *n,
                _ => return Err(crate::text::owned("[auth].pbkdf2_iterations must be a whole number")),
            },
        };
        // Zero is not "use the default": a verifier that says zero iterations
        // is a corrupt verifier.
        if raw <= 0 || raw > 0xffff_ffff {
            let mut m = crate::text::owned("[auth].pbkdf2_iterations is ");
            crate::text::push_i64(&mut m, raw);
            crate::text::push_str(&mut m, ", which is not a usable count");
            return Err(m);
        }
        let p = StoredPassword { salt, hash, iterations: raw as u32 };
        Ok(Some(p))
    }

    /// Read `[auth]` out of the text of `config/local.toml`: as
    /// [`StoredPassword::from_doc`] reads its parse, or the parser's refusal.
    pub fn from_toml(text: &str) -> (r: Result<Option<Self>, String>)
        ensures
            match stored_reading(text@) {
                Ok(None) => r matches Ok(None),
                Ok(Some(v)) => r matches Ok(Some(p)) && p@ == v && p.valid(),
                Err(m) => r matches Err(e) && e@ == m,
            },
    {
        match parse_toml(text) {
            Ok(doc) => Self::from_doc(&doc),
            Err(e) => Err(joined2("parsing: ", e.as_str())),
        }
    }

    /// The three `key = value` pairs this writes into `[auth]`.
    pub fn toml_pairs(&self) -> (out: Vec<(&'static str, String)>)
        requires
            self.valid(),
            encodable(self@.0),
        ensures
            out@.len() == 3,
            out@[0].0@ == "pbkdf2_iterations"@,
            out@[0].1@ == crate::text::decimal(self@.2 as nat),
            out@[1].0@ == "salt"@,
            out@[1].1@ == seq!['"'] + b64_encoded(B64::Standard, self@.0) + seq!['"'],
            out@[2].0@ == "hash"@,
            out@[2].1@ == seq!['"'] + b64_encoded(B64::Standard, self@.1) + seq!['"'],
            forall|doc: TomlDoc| #[trigger] holds_pairs(doc, self@) ==> doc_reading(doc) == Ok::<
                Option<(Seq<u8>, Seq<u8>, u32)>,
                Seq<char>,
            >(Some(self@)),
    {
        let mut count = String::new();
        crate::text::push_decimal(&mut count, self.iterations as u64);
        assert(count@ =~= crate::text::decimal(self.iterations as nat));
        let mut salt = String::new();
        crate::text::push_char(&mut salt, '"');
        crate::text::push_str(&mut salt, b64_encode(B64::Standard, self.salt.as_slice()).as_str());
        crate::text::push_char(&mut salt, '"');
        let mut hash = String::new();
        crate::text::push_char(&mut hash, '"');
        crate::text::push_str(&mut hash, b64_encode(B64::Standard, self.hash.as_slice()).as_str());
        crate::text::push_char(&mut hash, '"');
        proof {
            assert forall|doc: TomlDoc| #[trigger] holds_pairs(doc, self@) implies doc_reading(doc) == Ok::<
                Option<(Seq<u8>, Seq<u8>, u32)>,
                Seq<char>,
            >(Some(self@)) by {
                if let Some(TomlItem::Table(t)) = lookup(doc.entries@, "auth"@) {
                    assert(t@.len() > 0);
                }
            }
            assert(salt@ =~= seq!['"'] + b64_encoded(B64::Standard, self@.0) + seq!['"']);
            assert(hash@ =~= seq!['"'] + b64_encoded(B64::Standard, self@.1) + seq!['"']);
        }
        let mut out: Vec<(&'static str, String)> = Vec::new();
        out.push(("pbkdf2_iterations", count));
        out.push(("salt", salt));
        out.push(("hash", hash));
        out
    }

    /// The new text of `config/local.toml`, holding `existing` with this
    /// verifier written into `[auth]` and every other line as it was; or a
    /// refusal when `gitignore` (the text of the repository's `.gitignore`,
    /// `None` when there is none) does not ignore the file. A verifier does
    /// not go in a tracked file.
    pub fn file_text(&self, repo_root: &str, gitignore: Option<&str>, existing: &str) -> (r: Result<String, String>)
        requires
            self.valid(),
            encodable(self@.0),
        ensures
            r is Ok <==> (gitignore matches Some(g) && ignores_local_toml(g@)),
            r matches Err(e) ==> e@ == "refusing to write: config/local.toml is not in "@ + repo_root@
                + "/.gitignore. Add it first \u{2014} a password verifier does not go in a tracked file."@,
            r matches Ok(text) ==> exists|pairs: Seq<(&str, &str)>| {
                &&& pairs.len() == 3
                &&& pairs[0].0@ == "pbkdf2_iterations"@
                &&& pairs[0].1@ == crate::text::decimal(self@.2 as nat)
                &&& pairs[1].0@ == "salt"@
                &&& pairs[1].1@ == seq!['"'] + b64_encoded(B64::Standard, self@.0) + seq!['"']
                &&& pairs[2].0@ == "hash"@
                &&& pairs[2].1@ == seq!['"'] + b64_encoded(B64::Standard, self@.1) + seq!['"']
                &&& text@ == section_written(existing@, "auth"@, pairs)
            },
    {
        let covered = match gitignore {
            Some(g) => gitignore_covers(g),
            None => false,
        };
        if !covered {
            return Err(joined3(
                "refusing to write: config/local.toml is not in ",
                repo_root,
                "/.gitignore. Add it first \u{2014} a password verifier does not go in a tracked file.",
            ));
        }
        let owned = self.toml_pairs();
        let mut refs: Vec<(&str, &str)> = Vec::new();
        let mut i: usize = 0;
        while i < owned.len()
            invariant
                i <= owned@.len(),
                refs@.len() == i,
                forall|k: int| 0 <= k < i ==> (#[trigger] refs@[k]).0@ == owned@[k].0@ && refs@[k].1@ == owned@[k].1@,
            decreases owned@.len() - i,
        {
            refs.push((owned[i].0, owned[i].1.as_str()));
            i = i + 1;
        }
        let text = set_section_keys(existing, SECTION, refs.as_slice());
        assert(refs@[0].0@ == "pbkdf2_iterations"@);
        Ok(text)
    }
}


/* ------------------------------------------------------------ the sessions */

/// A session as the contracts see it: its token's bytes and the clock
/// reading at which it stops being good.
pub type SessionView = (Seq<u8>, u64);

/// Everything one guess or one cookie touches.
pub struct AuthState {
    /// Salt, verifier and count of the stored password.
    pub password: (Seq<u8>, Seq<u8>, u32),
    /// The sessions held, oldest first.
    pub sessions: Seq<SessionView>,
    /// Consecutive failures since the last success. Reset by a success, never
    /// by time.
    pub failures: u32,
    /// Until when new attempts are refused, if they are.
    pub locked_until: Option<u64>,
    /// Whether an attempt is being checked right now.
    pub verifying: bool,
}

/// The sessions of `s` that `keep` accepts, in their order.
pub open spec fn kept(s: Seq<SessionView>, keep: spec_fn(SessionView) -> bool) -> Seq<SessionView>
    decreases s.len(),
{
    if s.len() == 0 {
        s
    } else if keep(s[0]) {
        seq![s[0]] + kept(s.drop_first(), keep)
    } else {
        kept(s.drop_first(), keep)
    }
}

/// A session that has not expired at `now`.
pub open spec fn alive(now: u64) -> spec_fn(SessionView) -> bool {
    |s: SessionView| s.1 > now
}

/// A session that has not expired at `now` and is not the one `token` names.
pub open spec fn alive_and_not(now: u64, token: Seq<u8>) -> spec_fn(SessionView) -> bool {
    |s: SessionView| s.1 > now && s.0 != token
}

/// Does some session hold `token` and outlive `now`?
pub open spec fn holds_session(sessions: Seq<SessionView>, token: Seq<u8>, now: u64) -> bool {
    exists|i: int| 0 <= i < sessions.len() && (#[trigger] sessions[i]).0 == token && sessions[i].1 > now
}

/// The token a `Cookie:` header presents: its `fd_session` value, decoded as
/// URL-safe base64.
pub open spec fn presented(header: Option<Seq<char>>) -> Option<Seq<u8>> {
    match header {
        None => None,
        Some(h) => match cookie_of(h, "fd_session"@) {
            None => None,
            Some(v) => b64_decoded(B64::UrlSafeNoPad, v),
        },
    }
}

/// Does this header carry a live session at `now`?
pub open spec fn authenticates(st: AuthState, header: Option<Seq<char>>, now: u64) -> bool {
    match presented(header) {
        Some(t) => t.len() == TOKEN_LEN && holds_session(st.sessions, t, now),
        None => false,
    }
}

/// The lockout, in seconds, after `failures` consecutive wrong answers:
/// none for the free attempts, then five seconds doubling each time, capped
/// at fifteen minutes.
pub open spec fn lockout_secs(failures: u32) -> Option<u64> {
    if failures <= FREE_ATTEMPTS {
        None
    } else {
        let over = (failures - FREE_ATTEMPTS - 1) as nat;
        let shift = if over < 20 { over } else { 20nat };
        let secs = 5 * doubling(shift);
        Some(if secs < 900 { secs as u64 } else { 900u64 })
    }
}

/// Two to the `k`.
pub open spec fn doubling(k: nat) -> nat
    decreases k,
{
    if k == 0 {
        1
    } else {
        2 * doubling((k - 1) as nat)
    }
}

/// One more failure, never wrapping.
pub open spec fn one_more(failures: u32) -> u32 {
    if failures < u32::MAX {
        (failures + 1) as u32
    } else {
        failures
    }
}

/// Whether attempts are refused at `now`, and for how many nanoseconds more.
pub open spec fn locked_for(st: AuthState, now: u64) -> Option<u64> {
    match st.locked_until {
        Some(until) => if until > now {
            Some((until - now) as u64)
        } else {
            None
        },
        None => None,
    }
}

/// The state after a wrong answer checked at `now`: one more failure, and
/// the lockout that count earns, if it earns one.
pub open spec fn after_failure(st: AuthState, now: u64) -> AuthState {
    let failures = one_more(st.failures);
    AuthState {
        failures,
        locked_until: match lockout_secs(failures) {
            Some(secs) => Some((now + secs * NANOS_PER_SEC) as u64),
            None => st.locked_until,
        },
        verifying: false,
        ..st
    }
}

/// The state after a right answer at `now`, before its session is added:
/// the count and the lock cleared, expired sessions gone.
pub open spec fn after_success(st: AuthState, now: u64) -> AuthState {
    AuthState {
        failures: 0,
        locked_until: None,
        verifying: false,
        sessions: kept(st.sessions, alive(now)),
        ..st
    }
}

/// `after` is `before` with a right answer recorded and a session minted:
/// the count and the lock cleared, the sessions expired when the attempt
/// `began` gone, and one new session on the end, good for
/// [`SESSION_TTL_NS`] from `now`, whose [`TOKEN_LEN`] bytes `token` carries
/// as [`TOKEN_TEXT_LEN`] characters of URL-safe base64.
pub open spec fn minted(before: AuthState, after: AuthState, token: Seq<char>, began: u64, now: u64) -> bool {
    let base = after_success(before, began);
    let session = after.sessions.last();
    &&& after == (AuthState { sessions: base.sessions.push(session), ..base })
    &&& session.1 == now + SESSION_TTL_NS
    &&& session.0.len() == TOKEN_LEN
    &&& token.len() == TOKEN_TEXT_LEN
    &&& token == b64_encoded(B64::UrlSafeNoPad, session.0)
    &&& b64_decoded(B64::UrlSafeNoPad, token) == Some(session.0)
    &&& forall|i: int| 0 <= i < token.len() ==> url_safe_char(#[trigger] token[i])
}

/// Why a login did not produce a session.
pub enum LoginError {
    /// Too many failures. Carries what is left to wait.
    LockedOut(Duration),
    /// Another attempt is being checked. Not a failure, and not counted.
    Busy,
    /// Wrong password, and nothing more specific than that.
    Wrong,
    /// The password was right but the OS gave no random bytes for a token.
    Unavailable,
}

/// One live session.
struct Session {
    token: Vec<u8>,
    expires: u64,
}

/// The authed listener's whole security state. The caller supplies the
/// clock, in nanoseconds on a monotonic scale.
pub struct Auth {
    password: StoredPassword,
    sessions: Vec<Session>,
    failures: u32,
    locked_until: Option<u64>,
    verifying: bool,
}

/// The contracts' view of a list of sessions.
spec fn sessions_view(s: Seq<Session>) -> Seq<SessionView> {
    s.map_values(|x: Session| (x.token@, x.expires))
}

impl View for Auth {
    type V = AuthState;

    closed spec fn view(&self) -> AuthState {
        AuthState {
            password: self.password@,
            sessions: sessions_view(self.sessions@),
            failures: self.failures,
            locked_until: self.locked_until,
            verifying: self.verifying,
        }
    }
}

/// Membership in what `kept` keeps is membership in the list and acceptance.
pub proof fn lemma_kept_holds(s: Seq<SessionView>, keep: spec_fn(SessionView) -> bool, x: SessionView)
    ensures
        kept(s, keep).contains(x) <==> (s.contains(x) && keep(x)),
    decreases s.len(),
{
    if s.len() > 0 {
        lemma_kept_holds(s.drop_first(), keep, x);
        let rest = kept(s.drop_first(), keep);
        if keep(s[0]) {
            assert((seq![s[0]] + rest)[0] == s[0]);
            if rest.contains(x) {
                let j = choose|j: int| 0 <= j < rest.len() && rest[j] == x;
                assert((seq![s[0]] + rest)[j + 1] == x);
            }
            if (seq![s[0]] + rest).contains(x) {
                let j = choose|j: int| 0 <= j < rest.len() + 1 && (seq![s[0]] + rest)[j] == x;
                if j > 0 {
                    assert(rest[j - 1] == x);
                }
            }
        }
        if s.drop_first().contains(x) {
            let j = choose|j: int| 0 <= j < s.len() - 1 && s.drop_first()[j] == x;
            assert(s[j + 1] == x);
        }
        if s.contains(x) && x != s[0] {
            let j = choose|j: int| 0 <= j < s.len() && s[j] == x;
            assert(s.drop_first()[j - 1] == x);
        }
    }
}

/// A live session holding `token` survives the sweep of expired ones.
pub proof fn lemma_sweep_keeps_live(s: Seq<SessionView>, token: Seq<u8>, now: u64)
    ensures
        holds_session(kept(s, alive(now)), token, now) == holds_session(s, token, now),
{
    let k = kept(s, alive(now));
    if holds_session(s, token, now) {
        let i = choose|i: int| 0 <= i < s.len() && (#[trigger] s[i]).0 == token && s[i].1 > now;
        assert(s.contains(s[i]));
        lemma_kept_holds(s, alive(now), s[i]);
        let j = choose|j: int| 0 <= j < k.len() && k[j] == s[i];
        assert(k[j].0 == token);
    }
    if holds_session(k, token, now) {
        let j = choose|j: int| 0 <= j < k.len() && (#[trigger] k[j]).0 == token && k[j].1 > now;
        assert(k.contains(k[j]));
        lemma_kept_holds(s, alive(now), k[j]);
        let i = choose|i: int| 0 <= i < s.len() && s[i] == k[j];
        assert(s[i].0 == token);
    }
}

impl Auth {
    /// A fresh state for a stored password: no sessions, no failures, no
    /// lock.
    pub fn new(password: StoredPassword) -> (a: Self)
        requires
            password.valid(),
        ensures
            a.valid(),
            a@ == (AuthState {
                password: password@,
                sessions: Seq::empty(),
                failures: 0,
                locked_until: None,
                verifying: false,
            }),
    {
        let a = Auth { password, sessions: Vec::new(), failures: 0, locked_until: None, verifying: false };
        assert(sessions_view(a.sessions@) =~= Seq::<SessionView>::empty());
        a
    }

    /// Is the stored password one that can be checked against?
    pub closed spec fn valid(&self) -> bool {
        self.password.valid()
    }

    /// The stored password, for checking an attempt outside any lock.
    pub fn password(&self) -> (p: &StoredPassword)
        ensures
            p@ == self@.password,
            self.valid() ==> p.valid(),
    {
        &self.password
    }

    /// The lockout after `failures` consecutive wrong answers: free up to
    /// [`FREE_ATTEMPTS`], then [`LOCKOUT_BASE_SECS`] doubling each time to
    /// [`LOCKOUT_MAX_SECS`].
    pub fn backoff(failures: u32) -> (d: Option<Duration>)
        ensures
            d == (match lockout_secs(failures) {
                Some(secs) => Some(duration_secs(secs)),
                None => None,
            }),
            d == (match lockout_secs(failures) {
                Some(secs) => Some(duration_nanos((secs * NANOS_PER_SEC) as u64)),
                None => None,
            }),
    {
        proof {
            lemma_lockout_shape(failures, failures);
        }
        match Self::backoff_secs(failures) {
            Some(secs) => Some(secs_duration(secs)),
            None => None,
        }
    }

    /// [`Auth::backoff`] in whole seconds.
    pub fn backoff_secs(failures: u32) -> (secs: Option<u64>)
        ensures
            secs == lockout_secs(failures),
    {
        if failures <= FREE_ATTEMPTS {
            return None;
        }
        let over = failures - FREE_ATTEMPTS - 1;
        let shift: u32 = if over < 20 { over } else { 20 };
        let mut secs: u64 = LOCKOUT_BASE_SECS;
        let mut k: u32 = 0;
        while k < shift
            invariant
                k <= shift <= 20,
                secs == (if 5 * doubling(k as nat) < 900 { 5 * doubling(k as nat) } else { 900 }),
            decreases shift - k,
        {
            assert(doubling((k + 1) as nat) == 2 * doubling(k as nat));
            secs = if secs * 2 < LOCKOUT_MAX_SECS { secs * 2 } else { LOCKOUT_MAX_SECS };
            k = k + 1;
        }
        Some(secs)
    }

    /// Open an attempt at `now`: refused while locked out, with what is left
    /// to wait, whatever the password; refused as busy while another attempt
    /// is being checked, changing nothing and counting nothing; otherwise
    /// marked as being checked.
    pub fn begin_attempt(&mut self, now: u64) -> (r: Result<(), LoginError>)
        ensures
            locked_for(old(self)@, now) matches Some(w) ==> (r == Err::<(), LoginError>(
                LoginError::LockedOut(duration_nanos(w)),
            ) && final(self)@ == old(self)@),
            locked_for(old(self)@, now) is None && old(self)@.verifying ==> (r == Err::<
                (),
                LoginError,
            >(LoginError::Busy) && final(self)@ == old(self)@),
            locked_for(old(self)@, now) is None && !old(self)@.verifying ==> (r is Ok
                && final(self)@ == (AuthState { verifying: true, ..old(self)@ })),
            final(self).valid() == old(self).valid(),
    {
        if let Some(until) = self.locked_until {
            if until > now {
                return Err(LoginError::LockedOut(nanos_duration(until - now)));
            }
        }
        if self.verifying {
            return Err(LoginError::Busy);
        }
        self.verifying = true;
        Ok(())
    }

    /// Close an attempt that `began` at one instant, with the outcome of
    /// the check, at `now`, once the check is done. A wrong answer counts one
    /// failure and arms, from `now`, the lockout it earns; a right one clears
    /// the count and the lock, sweeps the sessions expired when the attempt
    /// began, and mints a new one from [`TOKEN_LEN`] random bytes, good from
    /// `now`, handing back the token as URL-safe base64.
    pub fn finish_attempt(&mut self, ok: bool, began: u64, now: u64) -> (r: Result<String, LoginError>)
        requires
            now <= CLOCK_LIMIT,
        ensures
            final(self).valid() == old(self).valid(),
            !ok ==> (r == Err::<String, LoginError>(LoginError::Wrong) && final(self)@
                == after_failure(old(self)@, now)),
            ok ==> match r {
                Ok(token) => minted(old(self)@, final(self)@, token@, began, now),
                Err(e) => e == LoginError::Unavailable && final(self)@ == after_success(
                    old(self)@,
                    began,
                ),
            },
    {
        self.verifying = false;
        if !ok {
            self.failures = if self.failures < u32::MAX { self.failures + 1 } else { self.failures };
            if let Some(secs) = Self::backoff_secs(self.failures) {
                self.locked_until = Some(now + secs * NANOS_PER_SEC);
            }
            return Err(LoginError::Wrong);
        }
        self.failures = 0;
        self.locked_until = None;
        self.sweep(began, None);
        match random_bytes(TOKEN_LEN) {
            None => Err(LoginError::Unavailable),
            Some(token) => {
                let encoded = b64_encode(B64::UrlSafeNoPad, token.as_slice());
                proof {
                    assert forall|i: int| 0 <= i < encoded@.len() implies url_safe_char(
                        encoded@[i],
                    ) by {}
                }
                let ghost before = self.sessions@;
                self.sessions.push(Session { token, expires: now + SESSION_TTL_NS });
                assert(sessions_view(self.sessions@) =~= sessions_view(before).push(
                    sessions_view(self.sessions@).last(),
                ));
                Ok(encoded)
            },
        }
    }

    /// Check a password at `now` and, if it is right, mint a session.
    ///
    /// Refused while locked out, with what is left to wait, even when the
    /// password is right; refused as busy, uncounted, while another attempt
    /// is open. Otherwise a wrong password counts a failure and a right one
    /// clears the count and mints a session.
    pub fn login(&mut self, password: &str, now: u64) -> (r: Result<String, LoginError>)
        requires
            old(self).valid(),
            secret_fits(password),
            now <= CLOCK_LIMIT,
        ensures
            final(self).valid(),
            locked_for(old(self)@, now) matches Some(w) ==> (r == Err::<String, LoginError>(
                LoginError::LockedOut(duration_nanos(w)),
            ) && final(self)@ == old(self)@),
            locked_for(old(self)@, now) is None && old(self)@.verifying ==> (r == Err::<
                String,
                LoginError,
            >(LoginError::Busy) && final(self)@ == old(self)@),
            locked_for(old(self)@, now) is None && !old(self)@.verifying ==> {
                let pw = old(self)@.password;
                let right = pbkdf2_sha256(pw.2, pw.0, password@, HASH_LEN as nat) == pw.1;
                &&& !right ==> (r == Err::<String, LoginError>(LoginError::Wrong) && final(self)@
                    == after_failure(old(self)@, now))
                &&& right ==> match r {
                    Ok(token) => minted(old(self)@, final(self)@, token@, now, now),
                    Err(e) => e == LoginError::Unavailable && final(self)@ == after_success(
                        old(self)@,
                        now,
                    ),
                }
            },
    {
        self.begin_attempt(now)?;
        let ok = self.password.verify(password);
        self.finish_attempt(ok, now, now)
    }

    /// Drop every session expired at `now` and, when `except` is given, the
    /// one holding those bytes.
    fn sweep(&mut self, now: u64, except: Option<&Vec<u8>>)
        ensures
            final(self)@ == (AuthState {
                sessions: match except {
                    Some(t) => kept(old(self)@.sessions, alive_and_not(now, t@)),
                    None => kept(old(self)@.sessions, alive(now)),
                },
                ..old(self)@
            }),
            final(self).valid() == old(self).valid(),
    {
        let ghost keep = match except {
            Some(t) => alive_and_not(now, t@),
            None => alive(now),
        };
        let ghost initial = sessions_view(self.sessions@);
        let mut rest: Vec<Session> = Vec::new();
        std::mem::swap(&mut rest, &mut self.sessions);
        let mut out: Vec<Session> = Vec::new();
        assert(sessions_view(rest@) == initial);
        while rest.len() > 0
            invariant
                sessions_view(out@) + kept(sessions_view(rest@), keep) == kept(initial, keep),
                self.sessions@.len() == 0,
                keep == (match except {
                    Some(t) => alive_and_not(now, t@),
                    None => alive(now),
                }),
            decreases rest@.len(),
        {
            let ghost before_rest = sessions_view(rest@);
            let s = rest.remove(0);
            assert(sessions_view(rest@) =~= before_rest.drop_first());
            let keep_it = match except {
                Some(t) => s.expires > now && !same(s.token.as_slice(), t.as_slice()),
                None => s.expires > now,
            };
            assert(keep_it == keep(before_rest[0]));
            let ghost before_out = sessions_view(out@);
            if keep_it {
                out.push(s);
                assert(sessions_view(out@) =~= before_out + seq![before_rest[0]]);
                assert(sessions_view(out@) + kept(sessions_view(rest@), keep) =~= before_out + (
                seq![before_rest[0]] + kept(before_rest.drop_first(), keep)));
            }
        }
        assert(kept(sessions_view(rest@), keep) =~= Seq::<SessionView>::empty());
        assert(sessions_view(out@) =~= kept(initial, keep));
        self.sessions = out;
    }

    /// Does this `Cookie:` header carry a live session at `now`? Every
    /// session is compared, in constant time, and the loop does not stop at a
    /// match. When a well-formed token is presented, expired sessions are
    /// swept first.
    pub fn is_authenticated(&mut self, cookie_header: Option<&str>, now: u64) -> (r: bool)
        ensures
            r == authenticates(old(self)@, opt_view(cookie_header), now),
            final(self).valid() == old(self).valid(),
            final(self)@ == (match presented(opt_view(cookie_header)) {
                Some(t) => if t.len() == TOKEN_LEN {
                    AuthState { sessions: kept(old(self)@.sessions, alive(now)), ..old(self)@ }
                } else {
                    old(self)@
                },
                None => old(self)@,
            }),
    {
        let header = match cookie_header {
            Some(h) => h,
            None => return false,
        };
        let raw = match cookie_value(header, COOKIE) {
            Some(v) => v,
            None => return false,
        };
        let bytes = match b64_decode(B64::UrlSafeNoPad, raw.as_str()) {
            Ok(b) => b,
            Err(_) => return false,
        };
        if bytes.len() != TOKEN_LEN {
            return false;
        }
        self.sweep(now, None);
        proof {
            lemma_sweep_keeps_live(old(self)@.sessions, bytes@, now);
            let k = kept(old(self)@.sessions, alive(now));
            assert forall|j: int| 0 <= j < k.len() implies k[j].1 > now by {
                assert(k.contains(k[j]));
                lemma_kept_holds(old(self)@.sessions, alive(now), k[j]);
            }
        }
        let mut hit = false;
        let mut i: usize = 0;
        while i < self.sessions.len()
            invariant
                i <= self.sessions@.len(),
                hit == exists|j: int|
                    0 <= j < i && (#[trigger] sessions_view(self.sessions@)[j]).0 == bytes@,
                forall|j: int| 0 <= j < self.sessions@.len() ==> #[trigger] sessions_view(self.sessions@)[j].1 > now,
            decreases self.sessions@.len() - i,
        {
            let m = same(self.sessions[i].token.as_slice(), bytes.as_slice());
            assert(sessions_view(self.sessions@)[i as int].0 == self.sessions@[i as int].token@);
            // `m` is computed for every session before it is looked at, so the
            // work done does not depend on which session, if any, matched.
            hit = m || hit;
            i = i + 1;
        }
        hit
    }

    /// Drop the session this cookie names, if it names one; expired
    /// sessions go with it. Needs no password: it only ever removes the
    /// capability whose token the caller already holds.
    pub fn logout(&mut self, cookie_header: Option<&str>, now: u64)
        ensures
            final(self).valid() == old(self).valid(),
            final(self)@ == (match presented(opt_view(cookie_header)) {
                Some(t) => AuthState {
                    sessions: kept(old(self)@.sessions, alive_and_not(now, t)),
                    ..old(self)@
                },
                None => old(self)@,
            }),
    {
        let header = match cookie_header {
            Some(h) => h,
            None => return,
        };
        let raw = match cookie_value(header, COOKIE) {
            Some(v) => v,
            None => return,
        };
        let bytes = match b64_decode(B64::UrlSafeNoPad, raw.as_str()) {
            Ok(b) => b,
            Err(_) => return,
        };
        self.sweep(now, Some(&bytes));
    }

    /// How many sessions are live at `now`, sweeping the expired ones.
    pub fn session_count(&mut self, now: u64) -> (n: usize)
        ensures
            final(self).valid() == old(self).valid(),
            final(self)@ == (AuthState { sessions: kept(old(self)@.sessions, alive(now)), ..old(self)@ }),
            n == final(self)@.sessions.len(),
    {
        self.sweep(now, None);
        self.sessions.len()
    }
}

/// An optional text as optional characters.
pub open spec fn opt_view(s: Option<&str>) -> Option<Seq<char>> {
    match s {
        Some(t) => Some(t@),
        None => None,
    }
}


/* ------------------------------------------------- writing the section */

/// Does `line` assign `key`? `key = ...`, with whatever spacing.
pub open spec fn assigns(line: Seq<char>, key: Seq<char>) -> bool {
    let rest = trim_start(line);
    &&& crate::text::starts_with(rest, key)
    &&& trim_start(rest.subrange(key.len() as int, rest.len() as int)).len() > 0
    &&& trim_start(rest.subrange(key.len() as int, rest.len() as int))[0] == '='
}

/// [`assigns`] on characters.
fn assigns_chars(line: &Vec<char>, key: &Vec<char>) -> (r: bool)
    ensures
        r == assigns(line@, key@),
{
    let i = crate::text::skip_ws(line, 0);
    assert(line@.subrange(0, line@.len() as int) =~= line@);
    let ghost rest = line@.subrange(i as int, line@.len() as int);
    assert(trim_start(line@) == rest);
    let present = crate::text::has_at(line, i, key);
    proof {
        if key@.len() <= rest.len() {
            assert(rest.subrange(0, key@.len() as int) =~= line@.subrange(i as int, i + key@.len()));
        }
    }
    if !present {
        return false;
    }
    let n = line.len();
    assert(i + key@.len() <= n);
    let after = i + key.len();
    let j = crate::text::skip_ws(line, after);
    assert(rest.subrange(key@.len() as int, rest.len() as int) =~= line@.subrange(
        after as int,
        line@.len() as int,
    ));
    if j < line.len() {
        assert(line@.subrange(j as int, line@.len() as int)[0] == line@[j as int]);
        line[j] == '='
    } else {
        false
    }
}

/// Does this line assign `key`? `key = ...`, with whatever spacing.
pub fn is_assignment(line: &str, key: &str) -> (r: bool)
    ensures
        r == assigns(line@, key@),
{
    let l = chars_of(line);
    let k = chars_of(key);
    assigns_chars(&l, &k)
}

/// A trimmed line that opens a section: `[` first and `]` last.
pub open spec fn opens_section(t: Seq<char>) -> bool {
    t.len() > 0 && t[0] == '[' && t.last() == ']'
}

/// The line `key = value`.
pub open spec fn pair_line(key: Seq<char>, value: Seq<char>) -> Seq<char> {
    key + " = "@ + value
}

/// The keys and values of `pairs`.
pub open spec fn key_of(pairs: Seq<(&str, &str)>, i: int) -> Seq<char> {
    pairs[i].0@
}

pub open spec fn value_of(pairs: Seq<(&str, &str)>, i: int) -> Seq<char> {
    pairs[i].1@
}

/// The first pair, from `i` on, whose key `line` assigns.
pub open spec fn first_assigned(line: Seq<char>, pairs: Seq<(&str, &str)>, i: int) -> Option<int>
    decreases pairs.len() - i,
{
    if i < 0 || i >= pairs.len() {
        None
    } else if assigns(line, key_of(pairs, i)) {
        Some(i)
    } else {
        first_assigned(line, pairs, i + 1)
    }
}

/// Where an edit of the file has got to: the lines written so far, whether
/// the last section opened is the one being written, and which pairs have
/// been written.
pub struct Edit {
    pub out: Seq<Seq<char>>,
    pub inside: bool,
    pub written: Seq<bool>,
}

/// The lines for the pairs from `i` on that are not written yet.
pub open spec fn unwritten(pairs: Seq<(&str, &str)>, written: Seq<bool>, i: int) -> Seq<Seq<char>>
    decreases pairs.len() - i,
{
    if i < 0 || i >= pairs.len() {
        Seq::empty()
    } else if written[i] {
        unwritten(pairs, written, i + 1)
    } else {
        seq![pair_line(key_of(pairs, i), value_of(pairs, i))] + unwritten(pairs, written, i + 1)
    }
}

/// Every pair not yet written, appended in order, and all marked written.
pub open spec fn flushed(e: Edit, pairs: Seq<(&str, &str)>) -> Edit {
    Edit {
        out: e.out + unwritten(pairs, e.written, 0),
        inside: e.inside,
        written: Seq::new(e.written.len(), |i: int| true),
    }
}

/// One line of the old file through the edit: a section header closes the
/// section being written (flushing what it lacks) and is kept; inside the
/// section, a line assigning one of the keys gives way to the new pair the
/// first time and is dropped after; every other line is kept as it was.
pub open spec fn edit_step(e: Edit, line: Seq<char>, header: Seq<char>, pairs: Seq<(&str, &str)>) -> Edit {
    let t = trim(line);
    if opens_section(t) {
        let f = if e.inside { flushed(e, pairs) } else { e };
        Edit { out: f.out.push(line), inside: t == header, written: f.written }
    } else if e.inside && first_assigned(line, pairs, 0) is Some {
        let i = first_assigned(line, pairs, 0)->0;
        if !e.written[i] {
            Edit {
                out: e.out.push(pair_line(key_of(pairs, i), value_of(pairs, i))),
                inside: e.inside,
                written: e.written.update(i, true),
            }
        } else {
            e
        }
    } else {
        Edit { out: e.out.push(line), ..e }
    }
}

/// The edit after the first `lines.len()` lines.
pub open spec fn edit_run(lines: Seq<Seq<char>>, header: Seq<char>, pairs: Seq<(&str, &str)>) -> Edit
    decreases lines.len(),
{
    if lines.len() == 0 {
        Edit { out: Seq::empty(), inside: false, written: Seq::new(pairs.len(), |i: int| false) }
    } else {
        edit_step(edit_run(lines.drop_last(), header, pairs), lines.last(), header, pairs)
    }
}

/// The lines of the finished edit: the open section flushed, and when a
/// pair is still unwritten the section appended after a blank line.
pub open spec fn edit_lines(e: Edit, header: Seq<char>, pairs: Seq<(&str, &str)>) -> Seq<Seq<char>> {
    let f = section_closed(e, pairs);
    if !all_written(f.written) {
        let spaced = if f.out.len() > 0 && trim(f.out.last()).len() > 0 {
            f.out.push(Seq::empty())
        } else {
            f.out
        };
        flushed(Edit { out: spaced.push(header), ..f }, pairs).out
    } else {
        f.out
    }
}

/// The edit with the section being written, if any, given what it lacks.
pub open spec fn section_closed(e: Edit, pairs: Seq<(&str, &str)>) -> Edit {
    if e.inside {
        flushed(e, pairs)
    } else {
        e
    }
}

/// Has every pair been written?
pub open spec fn all_written(w: Seq<bool>) -> bool {
    forall|i: int| 0 <= i < w.len() ==> w[i]
}

/// Lines joined with `\n`.
pub open spec fn joined(lines: Seq<Seq<char>>) -> Seq<char>
    decreases lines.len(),
{
    if lines.len() == 0 {
        Seq::empty()
    } else if lines.len() == 1 {
        lines[0]
    } else {
        joined(lines.drop_last()) + seq!['\n'] + lines.last()
    }
}

/// `s` without its trailing newlines.
pub open spec fn without_trailing_newlines(s: Seq<char>) -> Seq<char>
    decreases s.len(),
{
    if s.len() > 0 && s.last() == '\n' {
        without_trailing_newlines(s.drop_last())
    } else {
        s
    }
}

/// The file after setting `pairs` inside `[section]`: every line run
/// through [`edit_step`], the section finished, the lines joined, and
/// exactly one newline at the end.
pub open spec fn section_written(existing: Seq<char>, section: Seq<char>, pairs: Seq<(&str, &str)>) -> Seq<char> {
    let header = seq!['['] + section + seq![']'];
    let lines = edit_lines(edit_run(crate::text::lines(existing), header, pairs), header, pairs);
    without_trailing_newlines(joined(lines)).push('\n')
}

/// `key = value` as characters.
fn pair_chars(key: &Vec<char>, value: &Vec<char>) -> (r: Vec<char>)
    ensures
        r@ == pair_line(key@, value@),
{
    let mut r: Vec<char> = Vec::new();
    let mut i: usize = 0;
    while i < key.len()
        invariant
            i <= key@.len(),
            r@ == key@.subrange(0, i as int),
        decreases key@.len() - i,
    {
        r.push(key[i]);
        i = i + 1;
        assert(r@ =~= key@.subrange(0, i as int));
    }
    r.push(' ');
    r.push('=');
    r.push(' ');
    let ghost head = r@;
    let mut j: usize = 0;
    while j < value.len()
        invariant
            j <= value@.len(),
            r@ == head + value@.subrange(0, j as int),
        decreases value@.len() - j,
    {
        r.push(value[j]);
        j = j + 1;
        assert(r@ =~= head + value@.subrange(0, j as int));
    }
    proof {
        reveal_strlit(" = ");
        assert(key@.subrange(0, key@.len() as int) =~= key@);
        assert(value@.subrange(0, value@.len() as int) =~= value@);
        assert(r@ =~= pair_line(key@, value@));
    }
    r
}

/// The lines of an edit in progress, as the contracts see them.
spec fn lines_view(v: Seq<Vec<char>>) -> Seq<Seq<char>> {
    v.map_values(|l: Vec<char>| l@)
}

/// Append every pair not yet written, in order, and mark them all written.
fn flush(
    out: &mut Vec<Vec<char>>,
    written: &mut Vec<bool>,
    keys: &Vec<Vec<char>>,
    values: &Vec<Vec<char>>,
    Ghost(pairs): Ghost<Seq<(&str, &str)>>,
)
    requires
        old(written)@.len() == pairs.len(),
        keys@.len() == pairs.len(),
        values@.len() == pairs.len(),
        forall|i: int| 0 <= i < pairs.len() ==> (#[trigger] keys@[i])@ == key_of(pairs, i),
        forall|i: int| 0 <= i < pairs.len() ==> (#[trigger] values@[i])@ == value_of(pairs, i),
    ensures
        lines_view(final(out)@) == lines_view(old(out)@) + unwritten(pairs, old(written)@, 0),
        final(written)@ == Seq::new(pairs.len(), |i: int| true),
{
    let ghost start = lines_view(out@);
    let ghost was = written@;
    let mut i: usize = 0;
    while i < written.len()
        invariant
            i <= pairs.len(),
            written@.len() == pairs.len(),
            keys@.len() == pairs.len(),
            values@.len() == pairs.len(),
            forall|k: int| 0 <= k < pairs.len() ==> (#[trigger] keys@[k])@ == key_of(pairs, k),
            forall|k: int| 0 <= k < pairs.len() ==> (#[trigger] values@[k])@ == value_of(pairs, k),
            forall|k: int| 0 <= k < i ==> written@[k],
            forall|k: int| i <= k < pairs.len() ==> written@[k] == was[k],
            lines_view(out@) + unwritten(pairs, was, i as int) == start + unwritten(pairs, was, 0),
        decreases pairs.len() - i,
    {
        if !written[i] {
            let line = pair_chars(&keys[i], &values[i]);
            let ghost before = lines_view(out@);
            out.push(line);
            assert(lines_view(out@) =~= before.push(pair_line(key_of(pairs, i as int), value_of(pairs, i as int))));
            assert(unwritten(pairs, was, i as int) == seq![pair_line(key_of(pairs, i as int), value_of(pairs, i as int))] + unwritten(pairs, was, i + 1));
            assert(lines_view(out@) + unwritten(pairs, was, i + 1) =~= before + unwritten(pairs, was, i as int));
            written.set(i, true);
        }
        i = i + 1;
    }
    assert(unwritten(pairs, was, pairs.len() as int) == Seq::<Seq<char>>::empty());
    assert(lines_view(out@) =~= start + unwritten(pairs, was, 0));
    assert(written@ =~= Seq::new(pairs.len(), |i: int| true));
}

/// The first pair whose key `line` assigns.
fn first_assigned_in(line: &Vec<char>, keys: &Vec<Vec<char>>, Ghost(pairs): Ghost<Seq<(&str, &str)>>) -> (r: Option<usize>)
    requires
        keys@.len() == pairs.len(),
        forall|i: int| 0 <= i < pairs.len() ==> (#[trigger] keys@[i])@ == key_of(pairs, i),
    ensures
        r matches Some(i) ==> i < pairs.len() && first_assigned(line@, pairs, 0) == Some(i as int),
        r is None ==> first_assigned(line@, pairs, 0) is None,
{
    let mut i: usize = 0;
    while i < keys.len()
        invariant
            i <= pairs.len(),
            keys@.len() == pairs.len(),
            forall|k: int| 0 <= k < pairs.len() ==> (#[trigger] keys@[k])@ == key_of(pairs, k),
            first_assigned(line@, pairs, 0) == first_assigned(line@, pairs, i as int),
        decreases pairs.len() - i,
    {
        if assigns_chars(line, &keys[i]) {
            return Some(i);
        }
        i = i + 1;
    }
    None
}

/// `[section]` as characters.
fn header_chars(section: &str) -> (h: Vec<char>)
    ensures
        h@ == seq!['['] + section@ + seq![']'],
{
    let mut header: Vec<char> = Vec::new();
    header.push('[');
    let sec = chars_of(section);
    let mut q: usize = 0;
    while q < sec.len()
        invariant
            q <= sec@.len(),
            header@ == seq!['['] + sec@.subrange(0, q as int),
        decreases sec@.len() - q,
    {
        header.push(sec[q]);
        q = q + 1;
        assert(header@ =~= seq!['['] + sec@.subrange(0, q as int));
    }
    header.push(']');
    assert(sec@.subrange(0, sec@.len() as int) =~= sec@);
    assert(header@ =~= seq!['['] + section@ + seq![']']);
    header
}

/// The keys and the values of `pairs`, as characters.
fn pair_parts(pairs: &[(&str, &str)]) -> (r: (Vec<Vec<char>>, Vec<Vec<char>>))
    ensures
        r.0@.len() == pairs@.len(),
        r.1@.len() == pairs@.len(),
        forall|i: int| 0 <= i < pairs@.len() ==> (#[trigger] r.0@[i])@ == key_of(pairs@, i),
        forall|i: int| 0 <= i < pairs@.len() ==> (#[trigger] r.1@[i])@ == value_of(pairs@, i),
{
    let mut keys: Vec<Vec<char>> = Vec::new();
    let mut values: Vec<Vec<char>> = Vec::new();
    let mut p: usize = 0;
    while p < pairs.len()
        invariant
            p <= pairs@.len(),
            keys@.len() == p,
            values@.len() == p,
            forall|i: int| 0 <= i < p ==> (#[trigger] keys@[i])@ == key_of(pairs@, i),
            forall|i: int| 0 <= i < p ==> (#[trigger] values@[i])@ == value_of(pairs@, i),
        decreases pairs@.len() - p,
    {
        keys.push(chars_of(pairs[p].0));
        values.push(chars_of(pairs[p].1));
        p = p + 1;
    }
    (keys, values)
}

/// One line through the edit, as [`edit_step`] says.
fn edit_one(
    out: &mut Vec<Vec<char>>,
    inside: &mut bool,
    written: &mut Vec<bool>,
    line: &Vec<char>,
    header: &Vec<char>,
    keys: &Vec<Vec<char>>,
    values: &Vec<Vec<char>>,
    Ghost(pairs): Ghost<Seq<(&str, &str)>>,
)
    requires
        old(written)@.len() == pairs.len(),
        keys@.len() == pairs.len(),
        values@.len() == pairs.len(),
        forall|i: int| 0 <= i < pairs.len() ==> (#[trigger] keys@[i])@ == key_of(pairs, i),
        forall|i: int| 0 <= i < pairs.len() ==> (#[trigger] values@[i])@ == value_of(pairs, i),
    ensures
        final(written)@.len() == pairs.len(),
        (Edit { out: lines_view(final(out)@), inside: *final(inside), written: final(written)@ })
            == edit_step(
            Edit { out: lines_view(old(out)@), inside: *old(inside), written: old(written)@ },
            line@,
            header@,
            pairs,
        ),
{
    let t = slice_trimmed(line, 0, line.len());
    assert(line@.subrange(0, line@.len() as int) =~= line@);
    let opens = t.len() > 0 && t[0] == '[' && t[t.len() - 1] == ']';
    if opens {
        if *inside {
            flush(out, written, keys, values, Ghost(pairs));
        }
        let ghost before = lines_view(out@);
        out.push(line.clone());
        assert(lines_view(out@) =~= before.push(line@));
        *inside = same_chars(&t, header);
    } else if *inside {
        match first_assigned_in(line, keys, Ghost(pairs)) {
            Some(i) => {
                if !written[i] {
                    let ghost before = lines_view(out@);
                    out.push(pair_chars(&keys[i], &values[i]));
                    assert(lines_view(out@) =~= before.push(
                        pair_line(key_of(pairs, i as int), value_of(pairs, i as int)),
                    ));
                    written.set(i, true);
                }
            },
            None => {
                let ghost before = lines_view(out@);
                out.push(line.clone());
                assert(lines_view(out@) =~= before.push(line@));
            },
        }
    } else {
        let ghost before = lines_view(out@);
        out.push(line.clone());
        assert(lines_view(out@) =~= before.push(line@));
    }
}

/// Finish the edit as [`edit_lines`] says.
fn edit_finish(
    out: &mut Vec<Vec<char>>,
    inside: bool,
    written: &mut Vec<bool>,
    header: &Vec<char>,
    keys: &Vec<Vec<char>>,
    values: &Vec<Vec<char>>,
    Ghost(pairs): Ghost<Seq<(&str, &str)>>,
)
    requires
        old(written)@.len() == pairs.len(),
        keys@.len() == pairs.len(),
        values@.len() == pairs.len(),
        forall|i: int| 0 <= i < pairs.len() ==> (#[trigger] keys@[i])@ == key_of(pairs, i),
        forall|i: int| 0 <= i < pairs.len() ==> (#[trigger] values@[i])@ == value_of(pairs, i),
    ensures
        lines_view(final(out)@) == edit_lines(
            Edit { out: lines_view(old(out)@), inside, written: old(written)@ },
            header@,
            pairs,
        ),
{
    let ghost e = Edit { out: lines_view(out@), inside, written: written@ };
    if inside {
        flush(out, written, keys, values, Ghost(pairs));
    }
    let ghost f = Edit { out: lines_view(out@), inside, written: written@ };
    assert(f == section_closed(e, pairs));
    let mut missing = false;
    let mut m: usize = 0;
    while m < written.len()
        invariant
            m <= written@.len(),
            written@ == f.written,
            lines_view(out@) == f.out,
            missing == exists|i: int| 0 <= i < m && !written@[i],
        decreases written@.len() - m,
    {
        if !written[m] {
            missing = true;
        }
        m = m + 1;
    }
    assert(missing == !all_written(f.written));
    if missing {
        let ghost spaced = if f.out.len() > 0 && trim(f.out.last()).len() > 0 {
            f.out.push(Seq::empty())
        } else {
            f.out
        };
        if out.len() > 0 {
            let last = &out[out.len() - 1];
            let lt = slice_trimmed(last, 0, last.len());
            assert(last@.subrange(0, last@.len() as int) =~= last@);
            assert(lines_view(out@).last() == last@);
            if lt.len() > 0 {
                let ghost before = lines_view(out@);
                out.push(Vec::new());
                assert(lines_view(out@) =~= before.push(Seq::<char>::empty()));
            }
        }
        assert(lines_view(out@) == spaced);
        let ghost before = lines_view(out@);
        out.push(header.clone());
        assert(lines_view(out@) =~= before.push(header@));
        flush(out, written, keys, values, Ghost(pairs));
        assert(lines_view(out@) == flushed(Edit { out: spaced.push(header@), ..f }, pairs).out);
        assert(lines_view(out@) == edit_lines(e, header@, pairs));
    } else {
        assert(lines_view(out@) == edit_lines(e, header@, pairs));
    }
}

/// `lines` joined with `\n`, as characters.
fn join_lines(out: &Vec<Vec<char>>) -> (text: Vec<char>)
    ensures
        text@ == joined(lines_view(out@)),
{
    let ghost all = lines_view(out@);
    let mut text: Vec<char> = Vec::new();
    let mut r: usize = 0;
    while r < out.len()
        invariant
            r <= out@.len(),
            all == lines_view(out@),
            text@ == joined(all.take(r as int)),
        decreases out@.len() - r,
    {
        assert(all.take(r + 1).drop_last() =~= all.take(r as int));
        assert(all.take(r + 1).last() == out@[r as int]@);
        if r > 0 {
            text.push('\n');
        }
        let line = &out[r];
        let mut c: usize = 0;
        let ghost mid = text@;
        while c < line.len()
            invariant
                c <= line@.len(),
                text@ == mid + line@.subrange(0, c as int),
            decreases line@.len() - c,
        {
            text.push(line[c]);
            c = c + 1;
            assert(text@ =~= mid + line@.subrange(0, c as int));
        }
        assert(line@.subrange(0, line@.len() as int) =~= line@);
        if r == 0 {
            assert(all.take(1) =~= seq![line@]);
        }
        assert(text@ =~= joined(all.take(r + 1)));
        r = r + 1;
    }
    assert(all.take(out@.len() as int) =~= all);
    text
}

/// `text` with its trailing newlines replaced by exactly one.
fn one_final_newline(text: &Vec<char>) -> (r: Vec<char>)
    ensures
        r@ == without_trailing_newlines(text@).push('\n'),
{
    let mut end = text.len();
    assert(text@.subrange(0, text@.len() as int) =~= text@);
    while end > 0 && text[end - 1] == '\n'
        invariant
            end <= text@.len(),
            without_trailing_newlines(text@) == without_trailing_newlines(
                text@.subrange(0, end as int),
            ),
        decreases end,
    {
        assert(text@.subrange(0, end as int).drop_last() =~= text@.subrange(0, end - 1));
        end = end - 1;
    }
    let mut r = slice(text, 0, end);
    r.push('\n');
    r
}

/// Set several keys inside `[section]`, leaving every other line as it was.
///
/// A key already in the section is replaced where it stands (a second line
/// for the same key is dropped); a key that is missing is appended at the
/// end of the section; a section that does not exist is appended to the
/// file, after a blank line. The result ends in exactly one newline.
pub fn set_section_keys(existing: &str, section: &str, pairs: &[(&str, &str)]) -> (text: String)
    ensures
        text@ == section_written(existing@, section@, pairs@),
{
    let ghost ps = pairs@;
    let header = header_chars(section);
    let (keys, values) = pair_parts(pairs);
    let all = chars_of(existing);
    let lines = crate::text::split_lines(&all);
    let ghost ls = crate::text::lines(existing@);
    let mut out: Vec<Vec<char>> = Vec::new();
    let mut inside = false;
    let mut written: Vec<bool> = Vec::new();
    let mut w: usize = 0;
    while w < pairs.len()
        invariant
            w <= ps.len(),
            ps == pairs@,
            written@ == Seq::new(w as nat, |i: int| false),
        decreases ps.len() - w,
    {
        written.push(false);
        w = w + 1;
        assert(written@ =~= Seq::new(w as nat, |i: int| false));
    }
    assert(lines_view(out@) =~= Seq::<Seq<char>>::empty());
    assert(ls.take(0) =~= Seq::<Seq<char>>::empty());
    let mut k: usize = 0;
    while k < lines.len()
        invariant
            k <= lines@.len(),
            lines@.len() == ls.len(),
            forall|i: int| 0 <= i < lines@.len() ==> (#[trigger] lines@[i])@ == ls[i],
            ps.len() == keys@.len(),
            ps.len() == values@.len(),
            forall|i: int| 0 <= i < ps.len() ==> (#[trigger] keys@[i])@ == key_of(ps, i),
            forall|i: int| 0 <= i < ps.len() ==> (#[trigger] values@[i])@ == value_of(ps, i),
            (Edit { out: lines_view(out@), inside, written: written@ }) == edit_run(
                ls.take(k as int),
                header@,
                ps,
            ),
            written@.len() == ps.len(),
        decreases lines@.len() - k,
    {
        assert(ls.take(k + 1).drop_last() =~= ls.take(k as int));
        assert(ls.take(k + 1).last() == lines@[k as int]@);
        edit_one(&mut out, &mut inside, &mut written, &lines[k], &header, &keys, &values, Ghost(ps));
        k = k + 1;
    }
    assert(ls.take(lines@.len() as int) =~= ls);
    edit_finish(&mut out, inside, &mut written, &header, &keys, &values, Ghost(ps));
    let joined_text = join_lines(&out);
    let r = one_final_newline(&joined_text);
    string_of(&r)
}

/* ---------------------------------------- whether to open the listener */

/// Does a `.gitignore` with this text ignore `config/local.toml`? The same
/// text match the advisor setup makes: a line that trims to
/// `config/local.toml` or `/config/local.toml`.
pub open spec fn ignores_local_toml(text: Seq<char>) -> bool {
    exists|i: int|
        0 <= i < crate::text::lines(text).len() && (trim(#[trigger] crate::text::lines(text)[i])
            == "config/local.toml"@ || trim(crate::text::lines(text)[i]) == "/config/local.toml"@)
}

/// Is `config/local.toml` ignored by a `.gitignore` reading `text`?
pub fn gitignore_covers(text: &str) -> (r: bool)
    ensures
        r == ignores_local_toml(text@),
{
    let all = chars_of(text);
    let lines = crate::text::split_lines(&all);
    let a = chars_of("config/local.toml");
    let b = chars_of("/config/local.toml");
    let mut i: usize = 0;
    while i < lines.len()
        invariant
            i <= lines@.len(),
            lines@.len() == crate::text::lines(text@).len(),
            forall|k: int| 0 <= k < lines@.len() ==> (#[trigger] lines@[k])@ == crate::text::lines(text@)[k],
            a@ == "config/local.toml"@,
            b@ == "/config/local.toml"@,
            forall|k: int| 0 <= k < i ==> !(trim(#[trigger] crate::text::lines(text@)[k]) == "config/local.toml"@
                || trim(crate::text::lines(text@)[k]) == "/config/local.toml"@),
        decreases lines@.len() - i,
    {
        let line = &lines[i];
        let t = slice_trimmed(line, 0, line.len());
        assert(line@.subrange(0, line@.len() as int) =~= line@);
        if same_chars(&t, &a) || same_chars(&t, &b) {
            assert(trim(crate::text::lines(text@)[i as int]) == "config/local.toml"@ || trim(
                crate::text::lines(text@)[i as int],
            ) == "/config/local.toml"@);
            return true;
        }
        i = i + 1;
    }
    false
}

/// What `[auth].enabled` and `[auth].port` say: absent means off, and no
/// port; either of the wrong type is refused, never read as absent.
pub open spec fn switch_reading(text: Seq<char>) -> Result<(bool, Option<u16>), Seq<char>> {
    match toml_document(text) {
        Err(e) => Err("parsing: "@ + e),
        Ok(doc) => match lookup(doc.entries@, "auth"@) {
            Some(TomlItem::Table(t)) => {
                let enabled = match lookup(t@, "enabled"@) {
                    None => Some(false),
                    Some(TomlScalar::Bool(b)) => Some(b),
                    Some(_) => None,
                };
                let port = match lookup(t@, "port"@) {
                    None => Some(None::<u16>),
                    Some(TomlScalar::Int(n)) => if 0 < n <= 65535 {
                        Some(Some(n as u16))
                    } else {
                        None
                    },
                    Some(_) => None,
                };
                match (enabled, port) {
                    (None, _) => Err("[auth].enabled must be true or false"@),
                    (Some(_), None) => Err("[auth].port must be a port number"@),
                    (Some(e), Some(p)) => Ok((e, p)),
                }
            },
            _ => Ok((false, None)),
        },
    }
}

/// `[auth].enabled` and `[auth].port`, if they are there. Neither may be the
/// wrong type quietly: `enabled = "yes"` is somebody who meant `true`.
pub fn switches(text: &str) -> (r: Result<(bool, Option<u16>), String>)
    ensures
        match switch_reading(text@) {
            Ok(v) => r == Ok::<(bool, Option<u16>), String>(v),
            Err(m) => r matches Err(e) && e@ == m,
        },
{
    let doc = match parse_toml(text) {
        Ok(d) => d,
        Err(e) => return Err(joined2("parsing: ", e.as_str())),
    };
    let table = match find_entry(&doc.entries, SECTION) {
        Some(i) => match &doc.entries[i].1 {
            TomlItem::Table(t) => t,
            TomlItem::Scalar(_) => return Ok((false, None)),
        },
        None => return Ok((false, None)),
    };
    let enabled = match find_entry(table, "enabled") {
        None => false,
        Some(i) => match &table[i].1 {
            TomlScalar::Bool(b) => *b,
            _ => return Err(crate::text::owned("[auth].enabled must be true or false")),
        },
    };
    let port = match find_entry(table, "port") {
        None => None,
        Some(i) => match &table[i].1 {
            TomlScalar::Int(n) => if 0 < *n && *n <= 65535 {
                Some(*n as u16)
            } else {
                return Err(crate::text::owned("[auth].port must be a port number"));
            },
            _ => return Err(crate::text::owned("[auth].port must be a port number")),
        },
    };
    Ok((enabled, port))
}

/// What reading `config/local.toml` gave.
pub enum ConfigRead {
    /// The file's text.
    Text(String),
    /// There is no such file: read as empty.
    Missing,
    /// The file is there and could not be read; carries why.
    Unreadable(String),
}

/// What `main` should do about the second listener. There is no outcome
/// that opens it without a password.
pub enum Tunnel {
    /// Nobody asked for it.
    Off,
    /// Asked for, and ready to serve.
    Ready { port: u16, auth: Auth },
    /// Asked for and not ready: the listener must not be opened.
    Refused { port: u16, why: String },
}

/// The text a read stands for: a missing file is an empty one.
pub open spec fn read_text(read: ConfigRead) -> Seq<char> {
    match read {
        ConfigRead::Text(t) => t@,
        _ => Seq::empty(),
    }
}

/// The port a listener asked for would use: the command line, then the
/// file, then [`DEFAULT_AUTH_PORT`].
pub open spec fn chosen_port(cli_port: Option<u16>, config_port: Option<u16>) -> u16 {
    match cli_port {
        Some(p) => p,
        None => match config_port {
            Some(p) => p,
            None => DEFAULT_AUTH_PORT,
        },
    }
}

/// Decide about the second listener from what reading the config gave and
/// the command line. Requested means an explicit switch: `--auth`,
/// `--auth-port=N`, or `enabled = true` in `[auth]`; setting a password does
/// not by itself open a port. Asked for without a usable password, it is
/// refused, never opened.
pub fn tunnel_decision(path: &str, read: ConfigRead, cli_port: Option<u16>, cli_flag: bool) -> (t: Tunnel)
    ensures
        ({
            let asked = cli_flag || cli_port is Some;
            let text = read_text(read);
            &&& read matches ConfigRead::Unreadable(e) ==> (if asked {
                t matches Tunnel::Refused { port, why } && port == chosen_port(cli_port, None) && why@
                    == "reading "@ + path@ + ": "@ + e@
            } else {
                t is Off
            })
            &&& !(read is Unreadable) ==> match switch_reading(text) {
                Err(m) => t matches Tunnel::Refused { port, why } && port == chosen_port(cli_port, None)
                    && why@ == path@ + ": "@ + m,
                Ok((enabled, config_port)) => if !asked && !enabled {
                    t is Off
                } else {
                    let port_asked = chosen_port(cli_port, config_port);
                    match stored_reading(text) {
                        Ok(Some(v)) => t matches Tunnel::Ready { port, auth } && port == port_asked
                            && auth.valid() && auth@.password == v && auth@.sessions.len() == 0,
                        Ok(None) => t matches Tunnel::Refused { port, why } && port == port_asked && why@
                            == path@ + " has no [auth] password. Set one with `fd-api --set-password`."@,
                        Err(m) => t matches Tunnel::Refused { port, why } && port == port_asked && why@
                            == path@ + ": "@ + m,
                    }
                },
            }
        }),
        t matches Tunnel::Ready { auth, .. } ==> stored_reading(read_text(read)) == Ok::<
            Option<(Seq<u8>, Seq<u8>, u32)>,
            Seq<char>,
        >(Some(auth@.password)),
{
    let asked = cli_flag || cli_port.is_some();
    let fallback = match cli_port {
        Some(p) => p,
        None => DEFAULT_AUTH_PORT,
    };
    let text = match read {
        ConfigRead::Text(t) => t,
        ConfigRead::Missing => String::new(),
        ConfigRead::Unreadable(e) => {
            return if asked {
                let mut why = joined3("reading ", path, ": ");
                crate::text::push_str(&mut why, e.as_str());
                Tunnel::Refused { port: fallback, why }
            } else {
                Tunnel::Off
            };
        },
    };
    let (enabled, config_port) = match switches(text.as_str()) {
        Ok(pair) => pair,
        Err(m) => {
            return Tunnel::Refused { port: fallback, why: joined3(path, ": ", m.as_str()) };
        },
    };
    let port = match cli_port {
        Some(p) => p,
        None => match config_port {
            Some(p) => p,
            None => DEFAULT_AUTH_PORT,
        },
    };
    if !asked && !enabled {
        return Tunnel::Off;
    }
    match StoredPassword::from_toml(text.as_str()) {
        Ok(Some(password)) => Tunnel::Ready { port, auth: Auth::new(password) },
        Ok(None) => Tunnel::Refused {
            port,
            why: joined2(path, " has no [auth] password. Set one with `fd-api --set-password`."),
        },
        Err(m) => Tunnel::Refused { port, why: joined3(path, ": ", m.as_str()) },
    }
}

/* ------------------------------------------ what writing the section keeps */

/// Line `j` of the old file is one the edit keeps as it was: a section
/// header, or any line outside the section being written, or a line inside
/// it that assigns none of the keys.
pub open spec fn kept_line(lines: Seq<Seq<char>>, j: int, header: Seq<char>, pairs: Seq<(&str, &str)>) -> bool {
    ||| opens_section(trim(lines[j]))
    ||| !edit_run(lines.take(j), header, pairs).inside
    ||| first_assigned(lines[j], pairs, 0) is None
}

/// What [`first_assigned`] finds lies in range.
proof fn lemma_first_assigned_range(line: Seq<char>, pairs: Seq<(&str, &str)>, k: int)
    requires
        0 <= k,
    ensures
        first_assigned(line, pairs, k) matches Some(i) ==> k <= i < pairs.len(),
    decreases pairs.len() - k,
{
    if k < pairs.len() && !assigns(line, key_of(pairs, k)) {
        lemma_first_assigned_range(line, pairs, k + 1);
    }
}

/// The unwritten pairs' lines include every pair not yet written, from `k`.
proof fn lemma_unwritten_has(pairs: Seq<(&str, &str)>, w: Seq<bool>, k: int, i: int)
    requires
        0 <= k <= i < pairs.len(),
        i < w.len(),
        !w[i],
    ensures
        unwritten(pairs, w, k).contains(pair_line(key_of(pairs, i), value_of(pairs, i))),
    decreases i - k,
{
    let line = pair_line(key_of(pairs, i), value_of(pairs, i));
    if k == i {
        assert(unwritten(pairs, w, k)[0] == line);
    } else {
        lemma_unwritten_has(pairs, w, k + 1, i);
        let rest = unwritten(pairs, w, k + 1);
        let j = choose|j: int| 0 <= j < rest.len() && rest[j] == line;
        if !w[k] {
            assert(unwritten(pairs, w, k)[j + 1] == line);
        }
    }
}

/// What a step of the edit writes, it only ever adds to; and every pair
/// marked written is among the lines.
proof fn lemma_step_grows(e: Edit, line: Seq<char>, header: Seq<char>, pairs: Seq<(&str, &str)>)
    requires
        e.written.len() == pairs.len(),
        forall|i: int| 0 <= i < pairs.len() && #[trigger] e.written[i] ==> e.out.contains(
            pair_line(key_of(pairs, i), value_of(pairs, i)),
        ),
    ensures
        e.out.is_prefix_of(edit_step(e, line, header, pairs).out),
        edit_step(e, line, header, pairs).written.len() == pairs.len(),
        forall|i: int| 0 <= i < pairs.len() && #[trigger] edit_step(e, line, header, pairs).written[i]
            ==> edit_step(e, line, header, pairs).out.contains(pair_line(key_of(pairs, i), value_of(pairs, i))),
{
    let n = edit_step(e, line, header, pairs);
    lemma_flush_grows(e, pairs);
    lemma_first_assigned_range(line, pairs, 0);
    assert forall|i: int| 0 <= i < pairs.len() && #[trigger] n.written[i] implies n.out.contains(
        pair_line(key_of(pairs, i), value_of(pairs, i)),
    ) by {
        let pl = pair_line(key_of(pairs, i), value_of(pairs, i));
        let t = trim(line);
        if opens_section(t) {
            let f = if e.inside { flushed(e, pairs) } else { e };
            let j = choose|j: int| 0 <= j < f.out.len() && f.out[j] == pl;
            assert(n.out[j] == pl);
        } else if e.written[i] {
            let j = choose|j: int| 0 <= j < e.out.len() && e.out[j] == pl;
            assert(n.out[j] == pl);
        } else {
            // Only the pair this line assigns can have become written.
            assert(e.inside && first_assigned(line, pairs, 0) is Some);
            let k = first_assigned(line, pairs, 0)->0;
            lemma_first_assigned_range(line, pairs, 0);
            assert(!e.written[k]);
            assert(k == i);
            assert(n.out[n.out.len() - 1] == pl);
        }
    }
    assert(e.out.is_prefix_of(n.out)) by {
        let t = trim(line);
        if opens_section(t) && e.inside {
            assert(flushed(e, pairs).out.is_prefix_of(n.out));
        }
    }
}

/// Flushing only adds lines, and leaves every pair written and among them.
proof fn lemma_flush_grows(e: Edit, pairs: Seq<(&str, &str)>)
    requires
        e.written.len() == pairs.len(),
        forall|i: int| 0 <= i < pairs.len() && #[trigger] e.written[i] ==> e.out.contains(
            pair_line(key_of(pairs, i), value_of(pairs, i)),
        ),
    ensures
        e.out.is_prefix_of(flushed(e, pairs).out),
        flushed(e, pairs).written.len() == pairs.len(),
        forall|i: int| 0 <= i < pairs.len() ==> flushed(e, pairs).out.contains(
            #[trigger] pair_line(key_of(pairs, i), value_of(pairs, i)),
        ),
{
    let f = flushed(e, pairs);
    assert forall|i: int| 0 <= i < pairs.len() implies f.out.contains(
        #[trigger] pair_line(key_of(pairs, i), value_of(pairs, i)),
    ) by {
        let pl = pair_line(key_of(pairs, i), value_of(pairs, i));
        if e.written[i] {
            let j = choose|j: int| 0 <= j < e.out.len() && e.out[j] == pl;
            assert(f.out[j] == pl);
        } else {
            lemma_unwritten_has(pairs, e.written, 0, i);
            let u = unwritten(pairs, e.written, 0);
            let j = choose|j: int| 0 <= j < u.len() && u[j] == pl;
            assert(f.out[e.out.len() + j] == pl);
        }
    }
}

/// Through the first `k` lines: every kept line is among the lines written,
/// and so is every pair marked written.
proof fn lemma_run_keeps(lines: Seq<Seq<char>>, k: int, header: Seq<char>, pairs: Seq<(&str, &str)>)
    requires
        0 <= k <= lines.len(),
    ensures
        edit_run(lines.take(k), header, pairs).written.len() == pairs.len(),
        forall|i: int| 0 <= i < pairs.len() && #[trigger] edit_run(lines.take(k), header, pairs).written[i]
            ==> edit_run(lines.take(k), header, pairs).out.contains(
            pair_line(key_of(pairs, i), value_of(pairs, i)),
        ),
        forall|j: int| 0 <= j < k && kept_line(lines, j, header, pairs) ==> edit_run(
            lines.take(k),
            header,
            pairs,
        ).out.contains(#[trigger] lines[j]),
    decreases k,
{
    if k > 0 {
        lemma_run_keeps(lines, k - 1, header, pairs);
        let e = edit_run(lines.take(k - 1), header, pairs);
        assert(lines.take(k).drop_last() =~= lines.take(k - 1));
        assert(lines.take(k).last() == lines[k - 1]);
        let n = edit_run(lines.take(k), header, pairs);
        assert(n == edit_step(e, lines[k - 1], header, pairs));
        lemma_step_grows(e, lines[k - 1], header, pairs);
        assert forall|j: int| 0 <= j < k && kept_line(lines, j, header, pairs) implies n.out.contains(
            #[trigger] lines[j],
        ) by {
            if j < k - 1 {
                let x = choose|x: int| 0 <= x < e.out.len() && e.out[x] == lines[j];
                assert(n.out[x] == lines[j]);
            } else {
                assert(n.out[n.out.len() - 1] == lines[j]);
            }
        }
    } else {
        assert(lines.take(0) =~= Seq::<Seq<char>>::empty());
    }
}

/// The whole edit of a file's lines.
pub open spec fn edit_all(lines: Seq<Seq<char>>, header: Seq<char>, pairs: Seq<(&str, &str)>) -> Seq<Seq<char>> {
    edit_lines(edit_run(lines, header, pairs), header, pairs)
}

/// Each pair's own line is read back as that pair's, and opens no section.
pub open spec fn pairs_read_back(pairs: Seq<(&str, &str)>) -> bool {
    forall|i: int|
        0 <= i < pairs.len() ==> first_assigned(#[trigger] pair_line(key_of(pairs, i), value_of(pairs, i)), pairs, 0)
            == Some(i) && !opens_section(trim(pair_line(key_of(pairs, i), value_of(pairs, i))))
}

/// Marks `w` written below `j`.
spec fn marked(w: Seq<bool>, j: int) -> Seq<bool> {
    Seq::new(w.len(), |i: int| if i < j { true } else { w[i] })
}

/// Two lists of pairs with the same keys, in the same order.
pub open spec fn same_keys(p: Seq<(&str, &str)>, q: Seq<(&str, &str)>) -> bool {
    p.len() == q.len() && forall|i: int| 0 <= i < p.len() ==> key_of(p, i) == key_of(q, i)
}

/// Two runs of written lines line for line: each line the same, or both
/// with something on them besides whitespace.
spec fn alike(a: Seq<Seq<char>>, b: Seq<Seq<char>>) -> bool {
    a.len() == b.len() && forall|k: int|
        0 <= k < a.len() ==> (#[trigger] a[k] == b[k] || (trim(a[k]).len() > 0 && trim(b[k]).len() > 0))
}

/// Which key a line assigns depends on the keys alone.
proof fn lemma_first_assigned_keys(line: Seq<char>, p: Seq<(&str, &str)>, q: Seq<(&str, &str)>, k: int)
    requires
        same_keys(p, q),
        0 <= k,
    ensures
        first_assigned(line, p, k) == first_assigned(line, q, k),
    decreases p.len() - k,
{
    if k < p.len() {
        lemma_first_assigned_keys(line, p, q, k + 1);
    }
}

/// What is left of a line after its leading whitespace starts with
/// something else.
proof fn lemma_trim_start_first(s: Seq<char>)
    ensures
        trim_start(s).len() > 0 ==> !crate::text::is_ws(trim_start(s)[0]),
    decreases s.len(),
{
    if s.len() > 0 && crate::text::is_ws(s[0]) {
        lemma_trim_start_first(s.drop_first());
    }
}

/// Trailing whitespace never takes a first character that is not
/// whitespace.
proof fn lemma_trim_end_keeps(r: Seq<char>)
    requires
        r.len() > 0,
        !crate::text::is_ws(r[0]),
    ensures
        crate::text::trim_end(r).len() > 0,
    decreases r.len(),
{
    if r.len() > 1 && crate::text::is_ws(r.last()) {
        lemma_trim_end_keeps(r.drop_last());
    }
}

/// A pair's own line has something on it.
proof fn lemma_pair_line_shows(pairs: Seq<(&str, &str)>, i: int)
    requires
        pairs_read_back(pairs),
        0 <= i < pairs.len(),
    ensures
        trim(pair_line(key_of(pairs, i), value_of(pairs, i))).len() > 0,
{
    let pl = pair_line(key_of(pairs, i), value_of(pairs, i));
    assert(first_assigned(pl, pairs, 0) == Some(i));
    lemma_first_assigned_hit(pl, pairs, 0);
    lemma_trim_start_first(pl);
    lemma_trim_end_keeps(trim_start(pl));
}

/// The pair that [`first_assigned`] names is assigned by the line.
proof fn lemma_first_assigned_hit(line: Seq<char>, pairs: Seq<(&str, &str)>, k: int)
    requires
        0 <= k,
    ensures
        first_assigned(line, pairs, k) matches Some(i) ==> assigns(line, key_of(pairs, i)),
    decreases pairs.len() - k,
{
    if k < pairs.len() && !assigns(line, key_of(pairs, k)) {
        lemma_first_assigned_hit(line, pairs, k + 1);
    }
}

/// The lines still to flush for two lists of the same keys are alike.
proof fn lemma_unwritten_alike(p: Seq<(&str, &str)>, q: Seq<(&str, &str)>, w: Seq<bool>, j: int)
    requires
        same_keys(p, q),
        pairs_read_back(p),
        pairs_read_back(q),
        0 <= j,
    ensures
        alike(unwritten(p, w, j), unwritten(q, w, j)),
    decreases p.len() - j,
{
    if j < p.len() {
        lemma_unwritten_alike(p, q, w, j + 1);
        if !w[j] {
            lemma_pair_line_shows(p, j);
            lemma_pair_line_shows(q, j);
            let a = unwritten(p, w, j);
            let b = unwritten(q, w, j);
            let ra = unwritten(p, w, j + 1);
            let rb = unwritten(q, w, j + 1);
            assert forall|k: int| 0 <= k < a.len() implies (#[trigger] a[k] == b[k] || (trim(a[k]).len() > 0
                && trim(b[k]).len() > 0)) by {
                if k > 0 {
                    assert(a[k] == ra[k - 1] && b[k] == rb[k - 1]);
                }
            }
        }
    }
}

/// Alike runs stay alike with alike lines added on.
proof fn lemma_alike_concat(a: Seq<Seq<char>>, b: Seq<Seq<char>>, c: Seq<Seq<char>>, d: Seq<Seq<char>>)
    requires
        alike(a, b),
        alike(c, d),
    ensures
        alike(a + c, b + d),
{
    assert forall|k: int| 0 <= k < (a + c).len() implies (#[trigger] (a + c)[k] == (b + d)[k] || (trim((a + c)[k]).len()
        > 0 && trim((b + d)[k]).len() > 0)) by {
        if k < a.len() {
            assert((a + c)[k] == a[k] && (b + d)[k] == b[k]);
        } else {
            assert((a + c)[k] == c[k - a.len()] && (b + d)[k] == d[k - a.len()]);
        }
    }
}

/// Running the edit for `q` over the lines of a flush of `p`, inside the
/// section, writes `q`'s lines in their place and marks every pair written.
proof fn lemma_replay_flush(
    o: Seq<Seq<char>>,
    oq: Seq<Seq<char>>,
    w: Seq<bool>,
    j: int,
    header: Seq<char>,
    p: Seq<(&str, &str)>,
    q: Seq<(&str, &str)>,
)
    requires
        0 <= j <= p.len(),
        w.len() == p.len(),
        pairs_read_back(p),
        same_keys(p, q),
        edit_run(o, header, q) == (Edit { out: oq, inside: true, written: marked(w, j) }),
    ensures
        edit_run(o + unwritten(p, w, j), header, q) == (Edit {
            out: oq + unwritten(q, w, j),
            inside: true,
            written: Seq::new(w.len(), |i: int| true),
        }),
    decreases p.len() - j,
{
    if j == p.len() {
        assert(unwritten(p, w, j) =~= Seq::<Seq<char>>::empty());
        assert(unwritten(q, w, j) =~= Seq::<Seq<char>>::empty());
        assert(o + unwritten(p, w, j) =~= o);
        assert(oq + unwritten(q, w, j) =~= oq);
        assert(marked(w, j) =~= Seq::new(w.len(), |i: int| true));
    } else if w[j] {
        assert(marked(w, j) =~= marked(w, j + 1));
        lemma_replay_flush(o, oq, w, j + 1, header, p, q);
    } else {
        let pl = pair_line(key_of(p, j), value_of(p, j));
        let ql = pair_line(key_of(q, j), value_of(q, j));
        let o2 = o.push(pl);
        assert(o2.drop_last() =~= o);
        assert(first_assigned(pl, p, 0) == Some(j));
        lemma_first_assigned_keys(pl, p, q, 0);
        assert(edit_run(o2, header, q) == edit_step(edit_run(o, header, q), pl, header, q));
        assert(marked(w, j).update(j, true) =~= marked(w, j + 1));
        lemma_replay_flush(o2, oq.push(ql), w, j + 1, header, p, q);
        assert(o2 + unwritten(p, w, j + 1) =~= o + unwritten(p, w, j));
        assert(oq.push(ql) + unwritten(q, w, j + 1) =~= oq + unwritten(q, w, j));
    }
}

/// Running the edit for `q` over what the edit for `p` wrote gives what the
/// edit for `q` writes over the same lines, when the two have the same keys:
/// the two edits stand in the same section with the same pairs written, line
/// for line alike.
proof fn lemma_replay_run(lines: Seq<Seq<char>>, header: Seq<char>, p: Seq<(&str, &str)>, q: Seq<(&str, &str)>)
    requires
        pairs_read_back(p),
        pairs_read_back(q),
        same_keys(p, q),
    ensures
        edit_run(edit_run(lines, header, p).out, header, q) == edit_run(lines, header, q),
        edit_run(lines, header, p).inside == edit_run(lines, header, q).inside,
        edit_run(lines, header, p).written == edit_run(lines, header, q).written,
        edit_run(lines, header, p).written.len() == p.len(),
        alike(edit_run(lines, header, p).out, edit_run(lines, header, q).out),
    decreases lines.len(),
{
    if lines.len() == 0 {
        assert(edit_run(Seq::<Seq<char>>::empty(), header, p).out =~= Seq::<Seq<char>>::empty());
        assert(edit_run(lines, header, p).written =~= edit_run(lines, header, q).written);
    } else {
        let rest = lines.drop_last();
        let line = lines.last();
        lemma_replay_run(rest, header, p, q);
        let e = edit_run(rest, header, p);
        let eq = edit_run(rest, header, q);
        let n = edit_step(e, line, header, p);
        let nq = edit_step(eq, line, header, q);
        let t = trim(line);
        lemma_first_assigned_keys(line, p, q, 0);
        if opens_section(t) {
            let f = if e.inside { flushed(e, p) } else { e };
            let fq = if eq.inside { flushed(eq, q) } else { eq };
            if e.inside {
                assert(marked(e.written, 0) =~= e.written);
                lemma_replay_flush(e.out, eq.out, e.written, 0, header, p, q);
                assert(f.written =~= Seq::new(e.written.len(), |i: int| true));
                lemma_unwritten_alike(p, q, e.written, 0);
                lemma_alike_concat(e.out, eq.out, unwritten(p, e.written, 0), unwritten(q, e.written, 0));
            }
            assert(edit_run(f.out, header, q) == fq);
            let fl = flushed(fq, q);
            if e.inside {
                assert forall|i: int| 0 <= i < q.len() implies fq.written[i] by {}
                assert(unwritten(q, fq.written, 0) =~= Seq::<Seq<char>>::empty()) by {
                    lemma_unwritten_none(q, fq.written, 0);
                }
                assert(fl.out =~= fq.out);
                assert(fl.written =~= fq.written);
            }
            assert(n.out.drop_last() =~= f.out);
            lemma_alike_concat(f.out, fq.out, seq![line], seq![line]);
            assert(f.out + seq![line] =~= n.out);
            assert(fq.out + seq![line] =~= nq.out);
        } else if e.inside && first_assigned(line, p, 0) is Some {
            let i = first_assigned(line, p, 0)->0;
            lemma_first_assigned_range(line, p, 0);
            if !e.written[i] {
                let pl = pair_line(key_of(p, i), value_of(p, i));
                let ql = pair_line(key_of(q, i), value_of(q, i));
                assert(n.out.drop_last() =~= e.out);
                assert(first_assigned(pl, p, 0) == Some(i));
                lemma_first_assigned_keys(pl, p, q, 0);
                lemma_pair_line_shows(p, i);
                lemma_pair_line_shows(q, i);
                lemma_alike_concat(e.out, eq.out, seq![pl], seq![ql]);
                assert(e.out + seq![pl] =~= n.out);
                assert(eq.out + seq![ql] =~= nq.out);
            }
        } else {
            assert(n.out.drop_last() =~= e.out);
            lemma_alike_concat(e.out, eq.out, seq![line], seq![line]);
            assert(e.out + seq![line] =~= n.out);
            assert(eq.out + seq![line] =~= nq.out);
        }
    }
}

/// With every pair written there is nothing left to flush.
proof fn lemma_unwritten_none(pairs: Seq<(&str, &str)>, w: Seq<bool>, j: int)
    requires
        0 <= j,
        w.len() == pairs.len(),
        forall|i: int| 0 <= i < pairs.len() ==> w[i],
    ensures
        unwritten(pairs, w, j) == Seq::<Seq<char>>::empty(),
    decreases pairs.len() - j,
{
    if j < pairs.len() {
        lemma_unwritten_none(pairs, w, j + 1);
    }
}

/// A second write with other values replaces the first: writing `first`
/// into a section and then `second`, with the same keys, gives the very
/// lines that writing `second` alone gives. The second write finds each key
/// where the first one put it and puts its own value there. It holds
/// whenever each pair's own line reads back as that pair's and opens no
/// section.
pub proof fn lemma_second_write_replaces(
    lines: Seq<Seq<char>>,
    section: Seq<char>,
    first: Seq<(&str, &str)>,
    second: Seq<(&str, &str)>,
)
    requires
        pairs_read_back(first),
        pairs_read_back(second),
        same_keys(first, second),
    ensures
        ({
            let header = seq!['['] + section + seq![']'];
            edit_all(edit_all(lines, header, first), header, second) == edit_all(lines, header, second)
        }),
{
    let p = first;
    let q = second;
    let header = seq!['['] + section + seq![']'];
    assert(!crate::text::is_ws(header[0]));
    assert(trim_start(header) == header);
    assert(!crate::text::is_ws(header.last()));
    assert(trim(header) == header);
    assert(opens_section(header));
    lemma_replay_run(lines, header, p, q);
    let e = edit_run(lines, header, p);
    let eq = edit_run(lines, header, q);
    let f = section_closed(e, p);
    let fq = section_closed(eq, q);
    if e.inside {
        assert(marked(e.written, 0) =~= e.written);
        lemma_replay_flush(e.out, eq.out, e.written, 0, header, p, q);
        lemma_unwritten_alike(p, q, e.written, 0);
        lemma_alike_concat(e.out, eq.out, unwritten(p, e.written, 0), unwritten(q, e.written, 0));
    }
    assert(edit_run(f.out, header, q) == fq);
    assert(alike(f.out, fq.out));
    assert(f.written == fq.written);
    assert(f.written.len() == p.len());
    let o1 = edit_all(lines, header, p);
    if all_written(f.written) {
        assert(o1 == f.out);
        lemma_unwritten_none(q, fq.written, 0);
        assert(flushed(fq, q).out =~= fq.out);
    } else {
        assert(!f.inside) by {
            if e.inside {
                assert(all_written(f.written));
            }
        }
        let spaced = if f.out.len() > 0 && trim(f.out.last()).len() > 0 {
            f.out.push(Seq::empty())
        } else {
            f.out
        };
        let spaced_q = if fq.out.len() > 0 && trim(fq.out.last()).len() > 0 {
            fq.out.push(Seq::empty())
        } else {
            fq.out
        };
        if f.out.len() > 0 {
            assert(f.out.last() == f.out[f.out.len() - 1]);
            assert(fq.out.last() == fq.out[fq.out.len() - 1]);
        }
        assert((spaced != f.out) == (spaced_q != fq.out));
        let blank: Seq<char> = Seq::empty();
        assert(trim_start(blank) == blank);
        assert(!opens_section(trim(blank)));
        if spaced != f.out {
            assert(spaced.drop_last() =~= f.out);
        }
        assert(edit_run(spaced, header, q) == (Edit { out: spaced_q, ..fq }));
        let sh = spaced.push(header);
        let shq = spaced_q.push(header);
        assert(sh.drop_last() =~= spaced);
        assert(edit_run(sh, header, q) == (Edit { out: shq, inside: true, written: f.written }));
        assert(marked(f.written, 0) =~= f.written);
        lemma_replay_flush(sh, shq, f.written, 0, header, p, q);
        let h = flushed(Edit { out: sh, ..f }, p);
        let hq = flushed(Edit { out: shq, ..fq }, q);
        assert(o1 == h.out);
        assert(edit_all(lines, header, q) == hq.out);
        assert(edit_run(o1, header, q) == (Edit { out: hq.out, inside: true, written: hq.written }));
        lemma_unwritten_none(q, hq.written, 0);
        assert(flushed(Edit { out: hq.out, inside: true, written: hq.written }, q).out =~= hq.out);
        assert(all_written(flushed(Edit { out: hq.out, inside: true, written: hq.written }, q).written));
    }
}

/// Writing the same pairs into the same section a second time changes no
/// line: the second write finds each key where the first one put it and
/// replaces it by itself, so nothing is duplicated and nothing moves. It
/// holds whenever each pair's own line reads back as that pair's and opens
/// no section.
pub proof fn lemma_second_write_changes_nothing(lines: Seq<Seq<char>>, section: Seq<char>, pairs: Seq<(&str, &str)>)
    requires
        pairs_read_back(pairs),
    ensures
        ({
            let header = seq!['['] + section + seq![']'];
            edit_all(edit_all(lines, header, pairs), header, pairs) == edit_all(lines, header, pairs)
        }),
{
    lemma_second_write_replaces(lines, section, pairs, pairs);
}

/// Writing the section leaves every other line alone: every header of the
/// old file, every line outside the section being written, and every line
/// inside it that assigns none of the keys, is a line of the new file; and
/// every pair is written into it.
pub proof fn lemma_section_write_keeps(existing: Seq<char>, section: Seq<char>, pairs: Seq<(&str, &str)>)
    ensures
        ({
            let header = seq!['['] + section + seq![']'];
            let lines = crate::text::lines(existing);
            let result = edit_lines(edit_run(lines, header, pairs), header, pairs);
            &&& forall|j: int| 0 <= j < lines.len() && kept_line(lines, j, header, pairs)
                ==> result.contains(#[trigger] lines[j])
            &&& forall|i: int| 0 <= i < pairs.len() ==> result.contains(
                #[trigger] pair_line(key_of(pairs, i), value_of(pairs, i)),
            )
        }),
{
    let header = seq!['['] + section + seq![']'];
    let lines = crate::text::lines(existing);
    lemma_run_keeps(lines, lines.len() as int, header, pairs);
    assert(lines.take(lines.len() as int) =~= lines);
    let e = edit_run(lines, header, pairs);
    let f = section_closed(e, pairs);
    lemma_flush_grows(e, pairs);
    let result = edit_lines(e, header, pairs);
    assert(f.written.len() == pairs.len());
    assert(forall|i: int| 0 <= i < pairs.len() && #[trigger] f.written[i] ==> f.out.contains(
        pair_line(key_of(pairs, i), value_of(pairs, i)),
    ));
    let spaced = if f.out.len() > 0 && trim(f.out.last()).len() > 0 {
        f.out.push(Seq::empty())
    } else {
        f.out
    };
    let g = Edit { out: spaced.push(header), ..f };
    assert(f.out.is_prefix_of(g.out));
    assert(forall|i: int| 0 <= i < pairs.len() && #[trigger] g.written[i] ==> g.out.contains(
        pair_line(key_of(pairs, i), value_of(pairs, i)),
    )) by {
        assert forall|i: int| 0 <= i < pairs.len() && #[trigger] g.written[i] implies g.out.contains(
            pair_line(key_of(pairs, i), value_of(pairs, i)),
        ) by {
            let pl = pair_line(key_of(pairs, i), value_of(pairs, i));
            let j = choose|j: int| 0 <= j < f.out.len() && f.out[j] == pl;
            assert(g.out[j] == pl);
        }
    }
    lemma_flush_grows(g, pairs);
    assert(e.out.is_prefix_of(result));
    assert forall|j: int| 0 <= j < lines.len() && kept_line(lines, j, header, pairs) implies result.contains(
        #[trigger] lines[j],
    ) by {
        let x = choose|x: int| 0 <= x < e.out.len() && e.out[x] == lines[j];
        assert(result[x] == lines[j]);
    }
    assert forall|i: int| 0 <= i < pairs.len() implies result.contains(
        #[trigger] pair_line(key_of(pairs, i), value_of(pairs, i)),
    ) by {
        if all_written(f.written) {
            assert(f.written[i]);
        }
    }
}

/* ------------------------------------------------------------ the laws */

/// A character of the URL-safe alphabet is neither whitespace, nor `;`, nor
/// `=`.
proof fn lemma_url_safe_plain(c: char)
    requires
        url_safe_char(c),
    ensures
        !crate::text::is_ws(c),
        c != ';',
        c != '=',
{
}

/// The cookie a login sets is read back whole: `fd_session=<token>`, for a
/// token of URL-safe characters, presents exactly the token.
pub proof fn lemma_cookie_reads_back(token: Seq<char>)
    requires
        forall|i: int| 0 <= i < token.len() ==> url_safe_char(#[trigger] token[i]),
    ensures
        cookie_of("fd_session="@ + token, "fd_session"@) == Some(token),
{
    reveal_strlit("fd_session=");
    reveal_strlit("fd_session");
    let h = "fd_session="@ + token;
    assert forall|i: int| 0 <= i < token.len() implies token[i] != ';' && token[i] != '='
        && !crate::text::is_ws(token[i]) by {
        lemma_url_safe_plain(token[i]);
    }
    assert forall|i: int| 0 <= i < h.len() implies h[i] != ';' by {
        if i >= 11 {
            assert(h[i] == token[i - 11]);
        }
    }
    crate::text::lemma_find_absent(h, ';', 0);
    assert(pieces(h, ';') == seq![h.subrange(0, h.len() as int)]);
    assert(h.subrange(0, h.len() as int) =~= h);
    crate::text::lemma_find_at(h, '=', 0, 10);
    let key = h.subrange(0, 10);
    assert(key =~= "fd_session"@);
    crate::text::lemma_trim_plain(key);
    let value = h.subrange(11, h.len() as int);
    assert(value =~= token);
    crate::text::lemma_trim_plain(value);
}

/// A session is good from the moment it is minted until it expires: a
/// header carrying the token a successful login handed out, in the cookie
/// that login sets, authenticates at every instant before the session's
/// expiry, in any state that still holds that session.
pub proof fn lemma_minted_token_authenticates(st: AuthState, token: Seq<char>, session: SessionView, now: u64)
    requires
        st.sessions.contains(session),
        session.0.len() == TOKEN_LEN,
        b64_decoded(B64::UrlSafeNoPad, token) == Some(session.0),
        forall|i: int| 0 <= i < token.len() ==> url_safe_char(#[trigger] token[i]),
        now < session.1,
    ensures
        authenticates(st, Some("fd_session="@ + token), now),
{
    lemma_cookie_reads_back(token);
    let i = choose|i: int| 0 <= i < st.sessions.len() && st.sessions[i] == session;
    assert(st.sessions[i].0 == session.0);
}

/// What a successful login mints is good at once and for the whole of its
/// lifetime: in the state the login leaves, the cookie it sets
/// authenticates at every instant from the login to twelve hours after.
pub proof fn lemma_login_session_authenticates(
    before: AuthState,
    after: AuthState,
    token: Seq<char>,
    began: u64,
    minted_at: u64,
    now: u64,
)
    requires
        minted(before, after, token, began, minted_at),
        minted_at <= now < minted_at + SESSION_TTL_NS,
    ensures
        authenticates(after, Some("fd_session="@ + token), now),
{
    let session = after.sessions.last();
    assert(after.sessions[after.sessions.len() - 1] == session);
    lemma_minted_token_authenticates(after, token, session, now);
}

/// A session never outlives its expiry: at or after the expiry of every
/// session a state holds, no header authenticates.
pub proof fn lemma_expired_sessions_refuse(st: AuthState, header: Option<Seq<char>>, now: u64)
    requires
        forall|i: int| 0 <= i < st.sessions.len() ==> (#[trigger] st.sessions[i]).1 <= now,
    ensures
        !authenticates(st, header, now),
{
}

/// Logging out ends that session and only that one: afterwards the token
/// that was logged out authenticates nowhere, and any other token that was
/// live still is.
pub proof fn lemma_logout_drops_only_that_session(st: AuthState, token: Seq<u8>, other: Seq<u8>, now: u64)
    requires
        other != token,
    ensures
        !holds_session(kept(st.sessions, alive_and_not(now, token)), token, now),
        holds_session(kept(st.sessions, alive_and_not(now, token)), other, now) == holds_session(
            st.sessions,
            other,
            now,
        ),
{
    let k = kept(st.sessions, alive_and_not(now, token));
    if holds_session(k, token, now) {
        let j = choose|j: int| 0 <= j < k.len() && (#[trigger] k[j]).0 == token && k[j].1 > now;
        assert(k.contains(k[j]));
        lemma_kept_holds(st.sessions, alive_and_not(now, token), k[j]);
    }
    if holds_session(st.sessions, other, now) {
        let i = choose|i: int| 0 <= i < st.sessions.len() && (#[trigger] st.sessions[i]).0 == other && st.sessions[i].1 > now;
        assert(st.sessions.contains(st.sessions[i]));
        lemma_kept_holds(st.sessions, alive_and_not(now, token), st.sessions[i]);
        let j = choose|j: int| 0 <= j < k.len() && k[j] == st.sessions[i];
        assert(k[j].0 == other);
    }
    if holds_session(k, other, now) {
        let j = choose|j: int| 0 <= j < k.len() && (#[trigger] k[j]).0 == other && k[j].1 > now;
        assert(k.contains(k[j]));
        lemma_kept_holds(st.sessions, alive_and_not(now, token), k[j]);
        let i = choose|i: int| 0 <= i < st.sessions.len() && st.sessions[i] == k[j];
        assert(st.sessions[i].0 == other);
    }
}

/// The lockout only grows with the count of failures, starts after the
/// free attempts, and never exceeds fifteen minutes.
pub proof fn lemma_lockout_shape(a: u32, b: u32)
    requires
        a <= b,
    ensures
        a <= FREE_ATTEMPTS ==> lockout_secs(a) is None,
        a > FREE_ATTEMPTS ==> (lockout_secs(a) matches Some(s) && LOCKOUT_BASE_SECS <= s <= LOCKOUT_MAX_SECS),
        lockout_secs(a) is Some ==> (lockout_secs(b) is Some && lockout_secs(a)->0 <= lockout_secs(b)->0),
{
    if a > FREE_ATTEMPTS {
        let ka = (if ((a - FREE_ATTEMPTS - 1) as nat) < 20 { (a - FREE_ATTEMPTS - 1) as nat } else { 20nat });
        let kb = (if ((b - FREE_ATTEMPTS - 1) as nat) < 20 { (b - FREE_ATTEMPTS - 1) as nat } else { 20nat });
        lemma_doubling_grows(ka, kb);
        lemma_doubling_grows(0, ka);
    }
}

/// The state after wrong answers checked at each of `times`, in order.
pub open spec fn failed_at(st: AuthState, times: Seq<u64>) -> AuthState
    decreases times.len(),
{
    if times.len() == 0 {
        st
    } else {
        after_failure(failed_at(st, times.drop_last()), times.last())
    }
}

/// Wrong answers that stay within the free attempts count one each and arm
/// no lock.
proof fn lemma_free_failures(st: AuthState, times: Seq<u64>)
    requires
        st.locked_until is None,
        !st.verifying,
        st.failures + times.len() <= FREE_ATTEMPTS,
    ensures
        failed_at(st, times).failures == st.failures + times.len(),
        failed_at(st, times).locked_until is None,
        !failed_at(st, times).verifying,
    decreases times.len(),
{
    if times.len() > 0 {
        lemma_free_failures(st, times.drop_last());
    }
}

/// A success resets the failure count: after a right answer, whether or not
/// a session could be minted for it, each of the next [`FREE_ATTEMPTS`] wrong
/// answers meets no lockout and no attempt in flight, so it is answered as
/// wrong, and the count starts again from zero.
pub proof fn lemma_success_resets_the_count(
    before: AuthState,
    after: AuthState,
    token: Seq<char>,
    began: u64,
    now: u64,
    times: Seq<u64>,
)
    requires
        minted(before, after, token, began, now) || after == after_success(before, began),
        times.len() <= FREE_ATTEMPTS,
    ensures
        after.failures == 0,
        forall|k: int|
            0 <= k < times.len() ==> {
                let st = #[trigger] failed_at(after, times.take(k));
                &&& locked_for(st, times[k]) is None
                &&& !st.verifying
                &&& st.failures == k
            },
        failed_at(after, times).failures == times.len(),
        failed_at(after, times).locked_until is None,
{
    lemma_free_failures(after, times);
    assert forall|k: int| 0 <= k < times.len() implies {
        let st = #[trigger] failed_at(after, times.take(k));
        &&& locked_for(st, times[k]) is None
        &&& !st.verifying
        &&& st.failures == k
    } by {
        lemma_free_failures(after, times.take(k));
    }
}

/// The lockout holds against the right password too: counted from a clean
/// slate (no failures, no lock, no attempt in flight), the free attempts and
/// one more wrong answer lock the door for [`LOCKOUT_BASE_SECS`] from that
/// last answer, so every attempt in those seconds, whatever its password,
/// meets a lock with more than nothing and at most that long left to wait.
pub proof fn lemma_lockout_holds_after_the_free_attempts(st: AuthState, times: Seq<u64>, t: u64)
    requires
        st.failures == 0,
        st.locked_until is None,
        !st.verifying,
        times.len() == FREE_ATTEMPTS + 1,
        times.last() <= CLOCK_LIMIT,
        times.last() <= t < times.last() + LOCKOUT_BASE_SECS * NANOS_PER_SEC,
    ensures
        failed_at(st, times).failures == FREE_ATTEMPTS + 1,
        lockout_secs((FREE_ATTEMPTS + 1) as u32) == Some(LOCKOUT_BASE_SECS),
        locked_for(failed_at(st, times), t) matches Some(w) && 0 < w <= LOCKOUT_BASE_SECS * NANOS_PER_SEC,
{
    lemma_free_failures(st, times.drop_last());
    assert(doubling(0) == 1);
}

/// Two to a larger power is no smaller.
proof fn lemma_doubling_grows(i: nat, j: nat)
    requires
        i <= j,
    ensures
        1 <= doubling(i) <= doubling(j),
    decreases j,
{
    if j > 0 {
        if i < j {
            lemma_doubling_grows(i, (j - 1) as nat);
        } else {
            lemma_doubling_grows((i - 1) as nat, (j - 1) as nat);
        }
    }
}

} // verus!
