//! Text as sequences of characters: the conversions and the small string
//! operations the rest of the crate states its contracts over.
use vstd::prelude::*;
use vstd::std_specs::iter::IteratorSpec;

verus! {

broadcast use vstd::string::group_string_axioms;

/* ------------------------------------------------------------ conversions */

/// The characters of `s`, in order.
pub fn chars_of(s: &str) -> (v: Vec<char>)
    ensures
        v@ == s@,
{
    let mut it = s.chars();
    let mut v: Vec<char> = Vec::new();
    loop
        invariant
            v@ + it.remaining() == s@,
            it.obeys_prophetic_iter_laws(),
            it.decrease() is Some,
        decreases it.decrease()->0,
    {
        match it.next() {
            Some(c) => {
                v.push(c);
                assert(v@ + it.remaining() =~= s@);
            },
            None => {
                assert(v@ =~= s@);
                return v;
            },
        }
    }
}

/// `String::push`: one character on the end.
#[verifier::external_body]
pub(crate) fn push_char(s: &mut String, c: char)
    ensures
        final(s)@ == old(s)@.push(c),
{
    s.push(c);
}

/// Every character of `t`, in order, on the end of `s`.
pub(crate) fn push_chars(s: &mut String, t: &Vec<char>)
    ensures
        final(s)@ == old(s)@ + t@,
{
    let mut i: usize = 0;
    while i < t.len()
        invariant
            i <= t@.len(),
            s@ == old(s)@ + t@.subrange(0, i as int),
        decreases t@.len() - i,
    {
        push_char(s, t[i]);
        i = i + 1;
        assert(t@.subrange(0, i as int) =~= t@.subrange(0, i - 1).push(t@[i - 1]));
    }
    assert(t@.subrange(0, t@.len() as int) =~= t@);
}

/// `s` followed by the text of `t`.
pub fn push_str(s: &mut String, t: &str)
    ensures
        final(s)@ == old(s)@ + t@,
{
    let v = chars_of(t);
    push_chars(s, &v);
}

/// A `String` holding exactly these characters.
pub fn string_of(v: &Vec<char>) -> (s: String)
    ensures
        s@ == v@,
{
    let mut s = String::new();
    push_chars(&mut s, v);
    assert(s@ =~= v@);
    s
}

/// An owned copy of `t`.
pub fn owned(t: &str) -> (s: String)
    ensures
        s@ == t@,
{
    let mut s = String::new();
    push_str(&mut s, t);
    assert(s@ =~= t@);
    s
}

/* ------------------------------------------------------------ whitespace */

/// Unicode `White_Space`, the set `char::is_whitespace` tests.
pub open spec fn is_ws(c: char) -> bool {
    ||| ('\u{9}' <= c && c <= '\u{d}')
    ||| c == ' '
    ||| c == '\u{85}'
    ||| c == '\u{a0}'
    ||| c == '\u{1680}'
    ||| ('\u{2000}' <= c && c <= '\u{200a}')
    ||| c == '\u{2028}'
    ||| c == '\u{2029}'
    ||| c == '\u{202f}'
    ||| c == '\u{205f}'
    ||| c == '\u{3000}'
}

pub fn is_whitespace(c: char) -> (b: bool)
    ensures
        b == is_ws(c),
{
    ('\u{9}' <= c && c <= '\u{d}') || c == ' ' || c == '\u{85}' || c == '\u{a0}' || c == '\u{1680}'
        || ('\u{2000}' <= c && c <= '\u{200a}') || c == '\u{2028}' || c == '\u{2029}'
        || c == '\u{202f}' || c == '\u{205f}' || c == '\u{3000}'
}

/// `s` without its leading whitespace.
pub open spec fn trim_start(s: Seq<char>) -> Seq<char>
    decreases s.len(),
{
    if s.len() > 0 && is_ws(s[0]) {
        trim_start(s.drop_first())
    } else {
        s
    }
}

/// `s` without its trailing whitespace.
pub open spec fn trim_end(s: Seq<char>) -> Seq<char>
    decreases s.len(),
{
    if s.len() > 0 && is_ws(s.last()) {
        trim_end(s.drop_last())
    } else {
        s
    }
}

/// `s` without whitespace at either end: what `str::trim` gives.
pub open spec fn trim(s: Seq<char>) -> Seq<char> {
    trim_end(trim_start(s))
}

/// Where the leading whitespace of `v[lo..]` ends.
pub fn skip_ws(v: &Vec<char>, lo: usize) -> (i: usize)
    requires
        lo <= v@.len(),
    ensures
        lo <= i <= v@.len(),
        trim_start(v@.subrange(lo as int, v@.len() as int)) == v@.subrange(i as int, v@.len() as int),
{
    let mut i = lo;
    while i < v.len() && is_whitespace(v[i])
        invariant
            lo <= i <= v@.len(),
            trim_start(v@.subrange(lo as int, v@.len() as int)) == trim_start(
                v@.subrange(i as int, v@.len() as int),
            ),
        decreases v@.len() - i,
    {
        assert(v@.subrange(i as int, v@.len() as int).drop_first() =~= v@.subrange(
            i + 1,
            v@.len() as int,
        ));
        i = i + 1;
    }
    i
}

/// Where `v[lo..hi]` ends once its trailing whitespace is gone.
pub fn skip_ws_back(v: &Vec<char>, lo: usize, hi: usize) -> (j: usize)
    requires
        lo <= hi <= v@.len(),
    ensures
        lo <= j <= hi,
        trim_end(v@.subrange(lo as int, hi as int)) == v@.subrange(lo as int, j as int),
{
    let mut j = hi;
    while j > lo && is_whitespace(v[j - 1])
        invariant
            lo <= j <= hi,
            hi <= v@.len(),
            trim_end(v@.subrange(lo as int, hi as int)) == trim_end(v@.subrange(lo as int, j as int)),
        decreases j,
    {
        assert(v@.subrange(lo as int, j as int).drop_last() =~= v@.subrange(lo as int, j - 1));
        j = j - 1;
    }
    j
}

/// The characters of `s`, trimmed.
pub fn trimmed(s: &str) -> (v: Vec<char>)
    ensures
        v@ == trim(s@),
{
    let all = chars_of(s);
    assert(all@.subrange(0, all@.len() as int) =~= all@);
    slice_trimmed(&all, 0, all.len())
}

/// `v[lo..hi]`, trimmed.
pub fn slice_trimmed(v: &Vec<char>, lo: usize, hi: usize) -> (w: Vec<char>)
    requires
        lo <= hi <= v@.len(),
    ensures
        w@ == trim(v@.subrange(lo as int, hi as int)),
{
    let ghost part = v@.subrange(lo as int, hi as int);
    // Trim the slice by skipping inside [lo, hi).
    let mut i = lo;
    while i < hi && is_whitespace(v[i])
        invariant
            lo <= i <= hi <= v@.len(),
            trim_start(part) == trim_start(v@.subrange(i as int, hi as int)),
        decreases hi - i,
    {
        assert(v@.subrange(i as int, hi as int).drop_first() =~= v@.subrange(i + 1, hi as int));
        i = i + 1;
    }
    assert(trim_start(v@.subrange(i as int, hi as int)) == v@.subrange(i as int, hi as int));
    let j = skip_ws_back(v, i, hi);
    slice(v, i, j)
}

/// `v[lo..hi]` as a new vector.
pub fn slice(v: &Vec<char>, lo: usize, hi: usize) -> (w: Vec<char>)
    requires
        lo <= hi <= v@.len(),
    ensures
        w@ == v@.subrange(lo as int, hi as int),
{
    let mut w: Vec<char> = Vec::new();
    let mut k = lo;
    while k < hi
        invariant
            lo <= k <= hi <= v@.len(),
            w@ == v@.subrange(lo as int, k as int),
        decreases hi - k,
    {
        w.push(v[k]);
        k = k + 1;
        assert(w@ =~= v@.subrange(lo as int, k as int));
    }
    w
}

/* ------------------------------------------------------------ comparison */

/// Are `a` and `b` the same characters?
pub fn same_chars(a: &Vec<char>, b: &Vec<char>) -> (r: bool)
    ensures
        r == (a@ == b@),
{
    if a.len() != b.len() {
        return false;
    }
    let mut i: usize = 0;
    while i < a.len()
        invariant
            a@.len() == b@.len(),
            i <= a@.len(),
            forall|k: int| 0 <= k < i ==> a@[k] == b@[k],
        decreases a@.len() - i,
    {
        if a[i] != b[i] {
            return false;
        }
        i = i + 1;
    }
    assert(a@ =~= b@);
    true
}

/// Does `v` hold `p` starting at `at`?
pub fn has_at(v: &Vec<char>, at: usize, p: &Vec<char>) -> (r: bool)
    requires
        at <= v@.len(),
    ensures
        r == (at + p@.len() <= v@.len() && v@.subrange(at as int, at + p@.len()) == p@),
{
    let n = v.len();
    if p.len() > n - at {
        return false;
    }
    let mut i: usize = 0;
    while i < p.len()
        invariant
            n == v@.len(),
            at + p@.len() <= n,
            i <= p@.len(),
            forall|k: int| 0 <= k < i ==> v@[at + k] == p@[k],
        decreases p@.len() - i,
    {
        if v[at + i] != p[i] {
            assert(v@.subrange(at as int, at + p@.len())[i as int] != p@[i as int]);
            return false;
        }
        i = i + 1;
    }
    assert(v@.subrange(at as int, at + p@.len()) =~= p@);
    true
}

/* ------------------------------------------------------------- numbers */

/// The decimal digit for `d < 10`.
pub open spec fn digit(d: nat) -> char {
    if d == 0 { '0' }
    else if d == 1 { '1' }
    else if d == 2 { '2' }
    else if d == 3 { '3' }
    else if d == 4 { '4' }
    else if d == 5 { '5' }
    else if d == 6 { '6' }
    else if d == 7 { '7' }
    else if d == 8 { '8' }
    else { '9' }
}

/// `n` written in decimal, with no leading zeros.
pub open spec fn decimal(n: nat) -> Seq<char>
    decreases n,
{
    if n < 10 {
        seq![digit(n)]
    } else {
        decimal(n / 10).push(digit(n % 10))
    }
}

/// `s` padded on the left with zeros to at least `width` characters: what
/// `{:0width$}` does to a number's digits.
pub open spec fn zero_pad(s: Seq<char>, width: nat) -> Seq<char> {
    if s.len() >= width {
        s
    } else {
        Seq::new((width - s.len()) as nat, |i: int| '0') + s
    }
}

fn digit_char(d: u64) -> (c: char)
    requires
        d < 10,
    ensures
        c == digit(d as nat),
{
    if d == 0 { '0' }
    else if d == 1 { '1' }
    else if d == 2 { '2' }
    else if d == 3 { '3' }
    else if d == 4 { '4' }
    else if d == 5 { '5' }
    else if d == 6 { '6' }
    else if d == 7 { '7' }
    else if d == 8 { '8' }
    else { '9' }
}

/// `n`'s decimal digits on the end of `s`.
pub fn push_decimal(s: &mut String, n: u64)
    ensures
        final(s)@ == old(s)@ + decimal(n as nat),
    decreases n,
{
    if n < 10 {
        push_char(s, digit_char(n));
        assert(final(s)@ =~= old(s)@ + decimal(n as nat)) by {
            assert(decimal(n as nat) == seq![digit(n as nat)]);
        }
    } else {
        push_decimal(s, n / 10);
        push_char(s, digit_char(n % 10));
        assert(decimal(n as nat) == decimal((n / 10) as nat).push(digit((n % 10) as nat)));
        assert(final(s)@ =~= old(s)@ + decimal(n as nat));
    }
}

/// `n`'s decimal digits.
pub fn decimal_chars(n: u64) -> (v: Vec<char>)
    ensures
        v@ == decimal(n as nat),
    decreases n,
{
    if n < 10 {
        let mut v = Vec::new();
        v.push(digit_char(n));
        assert(v@ =~= decimal(n as nat));
        v
    } else {
        let mut v = decimal_chars(n / 10);
        v.push(digit_char(n % 10));
        assert(v@ =~= decimal(n as nat));
        v
    }
}

/// `n`'s decimal digits, zero-padded to `width`, on the end of `s`.
pub fn push_padded(s: &mut String, n: u64, width: usize)
    ensures
        final(s)@ == old(s)@ + zero_pad(decimal(n as nat), width as nat),
{
    let digits = decimal_chars(n);
    let len = digits.len();
    let ghost start = s@;
    let mut k: usize = len;
    while k < width
        invariant
            len == digits@.len(),
            len <= k,
            k <= width || k == len,
            s@ == start + Seq::new((k - len) as nat, |i: int| '0'),
        decreases width - k,
    {
        push_char(s, '0');
        k = k + 1;
        assert(s@ =~= start + Seq::new((k - len) as nat, |i: int| '0'));
    }
    push_chars(s, &digits);
    if len >= width {
        assert(s@ =~= start + zero_pad(decimal(n as nat), width as nat));
    } else {
        assert(k == width);
        assert(s@ =~= start + zero_pad(decimal(n as nat), width as nat));
    }
}

/* ------------------------------------------------------------- parsing */

pub open spec fn is_digit(c: char) -> bool {
    '0' <= c && c <= '9'
}

pub open spec fn digit_value(c: char) -> int {
    (c as int) - ('0' as int)
}

pub open spec fn all_digits(s: Seq<char>) -> bool {
    forall|i: int| 0 <= i < s.len() ==> #[trigger] is_digit(s[i])
}

/// The number a run of decimal digits spells.
pub open spec fn digits_value(s: Seq<char>) -> int
    decreases s.len(),
{
    if s.len() == 0 {
        0
    } else {
        digits_value(s.drop_last()) * 10 + digit_value(s.last())
    }
}

/// What `str::parse::<i64>` gives: an optional `+` or `-`, then at least one
/// ASCII digit and nothing else, and a value that fits.
pub open spec fn parsed_i64(s: Seq<char>) -> Option<int> {
    let neg = s.len() > 0 && s[0] == '-';
    let body = if s.len() > 0 && (s[0] == '-' || s[0] == '+') { s.drop_first() } else { s };
    let v = if neg { -digits_value(body) } else { digits_value(body) };
    if body.len() > 0 && all_digits(body) && i64::MIN <= v <= i64::MAX {
        Some(v)
    } else {
        None
    }
}

proof fn lemma_digits_value_nonneg(s: Seq<char>)
    requires
        all_digits(s),
    ensures
        digits_value(s) >= 0,
    decreases s.len(),
{
    if s.len() > 0 {
        assert(all_digits(s.drop_last())) by {
            assert forall|i: int| 0 <= i < s.drop_last().len() implies #[trigger] is_digit(
                s.drop_last()[i],
            ) by {
                assert(is_digit(s[i]));
            }
        }
        lemma_digits_value_nonneg(s.drop_last());
        assert(is_digit(s[s.len() - 1]));
    }
}

/// A longer run of digits never spells a smaller number than its prefix.
proof fn lemma_digits_prefix_le(s: Seq<char>, i: int)
    requires
        all_digits(s),
        0 <= i <= s.len(),
    ensures
        digits_value(s.subrange(0, i)) <= digits_value(s),
    decreases s.len() - i,
{
    if i < s.len() {
        lemma_digits_prefix_le(s, i + 1);
        let p = s.subrange(0, i + 1);
        assert(p.drop_last() =~= s.subrange(0, i));
        assert(all_digits(s.subrange(0, i))) by {
            assert forall|k: int| 0 <= k < i implies #[trigger] is_digit(s.subrange(0, i)[k]) by {
                assert(is_digit(s[k]));
            }
        }
        lemma_digits_value_nonneg(s.subrange(0, i));
        assert(is_digit(s[i]));
    } else {
        assert(s.subrange(0, i) =~= s);
    }
}

/// `str::parse::<i64>`, written out.
pub fn parse_i64(s: &str) -> (r: Option<i64>)
    ensures
        match r {
            Some(v) => parsed_i64(s@) == Some(v as int),
            None => parsed_i64(s@) is None,
        },
{
    let v = chars_of(s);
    let n = v.len();
    let neg = n > 0 && v[0] == '-';
    let start: usize = if n > 0 && (v[0] == '-' || v[0] == '+') { 1 } else { 0 };
    let ghost body = if s@.len() > 0 && (s@[0] == '-' || s@[0] == '+') {
        s@.drop_first()
    } else {
        s@
    };
    assert(body =~= v@.subrange(start as int, n as int));
    if start >= n {
        return None;
    }
    let mut acc: i128 = 0;
    let mut i = start;
    while i < n
        invariant
            start <= i <= n,
            n == v@.len(),
            v@ == s@,
            body == v@.subrange(start as int, n as int),
            body == (if s@.len() > 0 && (s@[0] == '-' || s@[0] == '+') {
                s@.drop_first()
            } else {
                s@
            }),
            all_digits(body.subrange(0, i - start)),
            acc == digits_value(body.subrange(0, i - start)),
            0 <= acc <= 9223372036854775808,
        decreases n - i,
    {
        let c = v[i];
        if !('0' <= c && c <= '9') {
            assert(!is_digit(body[i - start]));
            assert(!all_digits(body));
            return None;
        }
        let d = (c as u32 - '0' as u32) as i128;
        assert(body.subrange(0, i + 1 - start).drop_last() =~= body.subrange(0, i - start));
        assert(all_digits(body.subrange(0, i + 1 - start))) by {
            assert forall|k: int| 0 <= k < i + 1 - start implies #[trigger] is_digit(
                body.subrange(0, i + 1 - start)[k],
            ) by {
                if k < i - start {
                    assert(is_digit(body.subrange(0, i - start)[k]));
                }
            }
        }
        assert(body.subrange(0, i + 1 - start).last() == c);
        assert(digit_value(c) == d as int);
        acc = acc * 10 + d;
        i = i + 1;
        assert(acc == digits_value(body.subrange(0, i - start)));
        if acc > 9223372036854775808 {
            proof {
                if all_digits(body) {
                    lemma_digits_prefix_le(body, (i - start) as int);
                    assert(digits_value(body) > 9223372036854775808);
                }
            }
            return None;
        }
    }
    assert(body.subrange(0, n - start) =~= body);
    if neg {
        Some((0 - acc) as i64)
    } else if acc <= 9223372036854775807 {
        Some(acc as i64)
    } else {
        None
    }
}

/* --------------------------------------------------------------- lines */

/// The index of the first `c` in `s` at or after `from`, or `s.len()`.
pub open spec fn find_from(s: Seq<char>, c: char, from: int) -> int
    decreases s.len() - from,
{
    if from >= s.len() {
        s.len() as int
    } else if s[from] == c {
        from
    } else {
        find_from(s, c, from + 1)
    }
}

/// `piece` without one trailing carriage return.
pub open spec fn strip_cr(piece: Seq<char>) -> Seq<char> {
    if piece.len() > 0 && piece.last() == '\r' {
        piece.drop_last()
    } else {
        piece
    }
}

/// The lines of `s` from position `from`, as `str::lines` yields them: split at
/// each `\n`, a `\r` just before it dropped, and no empty line after a final
/// `\n`.
pub open spec fn lines_from(s: Seq<char>, from: int) -> Seq<Seq<char>>
    decreases s.len() - from,
{
    if from >= s.len() {
        Seq::empty()
    } else {
        let nl = find_from(s, '\n', from);
        proof {
            lemma_find_from_bounds(s, '\n', from);
        }
        if nl >= s.len() {
            seq![s.subrange(from, s.len() as int)]
        } else {
            seq![strip_cr(s.subrange(from, nl))] + lines_from(s, nl + 1)
        }
    }
}

pub open spec fn lines(s: Seq<char>) -> Seq<Seq<char>> {
    lines_from(s, 0)
}

pub proof fn lemma_find_from_bounds(s: Seq<char>, c: char, from: int)
    ensures
        from <= s.len() ==> from <= find_from(s, c, from) <= s.len(),
        find_from(s, c, from) < s.len() ==> s[find_from(s, c, from)] == c,
        forall|k: int| from <= k < find_from(s, c, from) ==> s[k] != c,
    decreases s.len() - from,
{
    if from < s.len() && s[from] != c {
        lemma_find_from_bounds(s, c, from + 1);
    }
}

/// Where the next `c` is in `v` at or after `from`.
pub fn find_char(v: &Vec<char>, c: char, from: usize) -> (i: usize)
    requires
        from <= v@.len(),
    ensures
        i == find_from(v@, c, from as int),
        from <= i <= v@.len(),
{
    proof {
        lemma_find_from_bounds(v@, c, from as int);
    }
    let mut i = from;
    while i < v.len() && v[i] != c
        invariant
            from <= i <= v@.len(),
            find_from(v@, c, from as int) == find_from(v@, c, i as int),
        decreases v@.len() - i,
    {
        i = i + 1;
    }
    i
}

/// The lines of `v`, as `str::lines` yields them.
pub fn split_lines(v: &Vec<char>) -> (out: Vec<Vec<char>>)
    ensures
        out@.len() == lines(v@).len(),
        forall|i: int| 0 <= i < out@.len() ==> #[trigger] out@[i]@ == lines(v@)[i],
{
    let mut out: Vec<Vec<char>> = Vec::new();
    let mut from: usize = 0;
    while from < v.len()
        invariant
            from <= v@.len(),
            out@.len() + lines_from(v@, from as int).len() == lines(v@).len(),
            forall|i: int| 0 <= i < out@.len() ==> #[trigger] out@[i]@ == lines(v@)[i],
            forall|i: int|
                0 <= i < lines_from(v@, from as int).len() ==> lines(v@)[out@.len() + i]
                    == #[trigger] lines_from(v@, from as int)[i],
        decreases v@.len() - from,
    {
        let nl = find_char(v, '\n', from);
        let ghost rest = lines_from(v@, from as int);
        if nl >= v.len() {
            let piece = slice(v, from, v.len());
            assert(rest =~= seq![v@.subrange(from as int, v@.len() as int)]);
            assert(lines(v@)[out@.len() as int] == rest[0]);
            out.push(piece);
            from = v.len();
            assert(lines_from(v@, from as int) =~= Seq::<Seq<char>>::empty());
        } else {
            let mut end = nl;
            if end > from && v[end - 1] == '\r' {
                end = end - 1;
            }
            let piece = slice(v, from, end);
            assert(piece@ == strip_cr(v@.subrange(from as int, nl as int))) by {
                if nl > from && v@[nl - 1] == '\r' {
                    assert(v@.subrange(from as int, nl as int).drop_last() =~= v@.subrange(
                        from as int,
                        nl - 1,
                    ));
                }
            }
            assert(rest =~= seq![strip_cr(v@.subrange(from as int, nl as int))] + lines_from(
                v@,
                nl + 1,
            ));
            assert(lines(v@)[out@.len() as int] == rest[0]);
            let ghost before = out@.len();
            out.push(piece);
            from = nl + 1;
            assert forall|i: int| 0 <= i < lines_from(v@, from as int).len() implies lines(
                v@,
            )[out@.len() + i] == #[trigger] lines_from(v@, from as int)[i] by {
                assert(lines_from(v@, from as int)[i] == rest[i + 1]);
            }
        }
    }
    out
}


/// Do `a` and `b` hold the same text?
pub fn str_eq(a: &str, b: &str) -> (r: bool)
    ensures
        r == (a@ == b@),
{
    let x = chars_of(a);
    let y = chars_of(b);
    same_chars(&x, &y)
}

/// The pieces of `s` between the occurrences of `c`, from `from` on: what
/// `str::split(c)` yields. There is always at least one piece.
pub open spec fn pieces_from(s: Seq<char>, c: char, from: int) -> Seq<Seq<char>>
    decreases s.len() + 1 - from,
{
    if from < 0 || from > s.len() {
        Seq::empty()
    } else {
        let e = find_from(s, c, from);
        proof {
            lemma_find_from_bounds(s, c, from);
        }
        if e >= s.len() {
            seq![s.subrange(from, s.len() as int)]
        } else {
            seq![s.subrange(from, e)] + pieces_from(s, c, e + 1)
        }
    }
}

/// `str::split(c)` of the whole of `s`.
pub open spec fn pieces(s: Seq<char>, c: char) -> Seq<Seq<char>> {
    pieces_from(s, c, 0)
}

/// `s.split(c)`, each piece its own characters.
pub fn split_chars(v: &Vec<char>, c: char) -> (out: Vec<Vec<char>>)
    ensures
        out@.len() == pieces(v@, c).len(),
        forall|k: int| 0 <= k < out@.len() ==> (#[trigger] out@[k])@ == pieces(v@, c)[k],
{
    let mut out: Vec<Vec<char>> = Vec::new();
    let mut from: usize = 0;
    while from <= v.len()
        invariant
            from <= v@.len() + 1,
            out@.len() + pieces_from(v@, c, from as int).len() == pieces(v@, c).len(),
            forall|k: int| 0 <= k < out@.len() ==> (#[trigger] out@[k])@ == pieces(v@, c)[k],
            forall|k: int| 0 <= k < pieces_from(v@, c, from as int).len() ==> pieces(v@, c)[out@.len() + k]
                == #[trigger] pieces_from(v@, c, from as int)[k],
        decreases v@.len() + 1 - from,
    {
        let end = find_char(v, c, from);
        proof {
            lemma_find_from_bounds(v@, c, from as int);
        }
        let ghost rest = pieces_from(v@, c, from as int);
        let piece = slice(v, from, end);
        assert(rest[0] == piece@);
        let ghost before = out@.len();
        out.push(piece);
        if end >= v.len() {
            assert(rest.len() == 1);
            return out;
        }
        assert(rest.drop_first() =~= pieces_from(v@, c, end + 1));
        assert forall|k: int| 0 <= k < pieces_from(v@, c, end + 1).len() implies pieces(v@, c)[out@.len() + k]
            == #[trigger] pieces_from(v@, c, end + 1)[k] by {
            assert(pieces_from(v@, c, end + 1)[k] == rest[k + 1]);
        }
        from = end + 1;
    }
    out
}

/// Does `s` begin with `p`?
pub open spec fn starts_with(s: Seq<char>, p: Seq<char>) -> bool {
    p.len() <= s.len() && s.subrange(0, p.len() as int) == p
}

/// Does `s` end with `p`?
pub open spec fn ends_with(s: Seq<char>, p: Seq<char>) -> bool {
    p.len() <= s.len() && s.subrange(s.len() - p.len(), s.len() as int) == p
}


/// With no `c` in `s[from..]`, the search runs to the end.
pub proof fn lemma_find_absent(s: Seq<char>, c: char, from: int)
    requires
        0 <= from <= s.len(),
        forall|i: int| from <= i < s.len() ==> s[i] != c,
    ensures
        find_from(s, c, from) == s.len(),
    decreases s.len() - from,
{
    if from < s.len() {
        lemma_find_absent(s, c, from + 1);
    }
}

/// With the first `c` of `s[from..]` at `k`, the search stops there.
pub proof fn lemma_find_at(s: Seq<char>, c: char, from: int, k: int)
    requires
        0 <= from <= k < s.len(),
        s[k] == c,
        forall|i: int| from <= i < k ==> s[i] != c,
    ensures
        find_from(s, c, from) == k,
    decreases k - from,
{
    if from < k {
        lemma_find_at(s, c, from + 1, k);
    }
}

/// Text with no whitespace in it is its own trim.
pub proof fn lemma_trim_plain(s: Seq<char>)
    requires
        forall|i: int| 0 <= i < s.len() ==> !is_ws(#[trigger] s[i]),
    ensures
        trim(s) == s,
{
    if s.len() > 0 {
        assert(!is_ws(s[0]));
        assert(!is_ws(s.last()));
    }
    assert(trim_start(s) == s);
}


/* ------------------------------------------------------------ ASCII case */

/// `c` in ASCII upper case: what `char::to_ascii_uppercase` gives.
pub open spec fn upper(c: char) -> char {
    if 'a' <= c && c <= 'z' {
        ((c as u32) - 32) as char
    } else {
        c
    }
}

/// `c` in ASCII lower case: what `char::to_ascii_lowercase` gives.
pub open spec fn lower(c: char) -> char {
    if 'A' <= c && c <= 'Z' {
        ((c as u32) + 32) as char
    } else {
        c
    }
}

/// `char::to_ascii_uppercase`.
pub fn to_upper(c: char) -> (u: char)
    ensures
        u == upper(c),
{
    if 'a' <= c && c <= 'z' {
        let b = (c as u32 - 32) as u8;
        b as char
    } else {
        c
    }
}

/// `char::to_ascii_lowercase`.
pub fn to_lower(c: char) -> (l: char)
    ensures
        l == lower(c),
{
    if 'A' <= c && c <= 'Z' {
        let b = (c as u32 + 32) as u8;
        b as char
    } else {
        c
    }
}

/// `s` in ASCII upper case.
pub open spec fn upper_all(s: Seq<char>) -> Seq<char> {
    s.map_values(|c: char| upper(c))
}

/// `s` in ASCII lower case.
pub open spec fn lower_all(s: Seq<char>) -> Seq<char> {
    s.map_values(|c: char| lower(c))
}

/// `str::to_ascii_uppercase`, as characters.
pub fn upper_chars(v: &Vec<char>) -> (r: Vec<char>)
    ensures
        r@ == upper_all(v@),
{
    let mut r: Vec<char> = Vec::new();
    let mut i: usize = 0;
    while i < v.len()
        invariant
            i <= v@.len(),
            r@ == upper_all(v@.subrange(0, i as int)),
        decreases v@.len() - i,
    {
        r.push(to_upper(v[i]));
        i = i + 1;
        assert(r@ =~= upper_all(v@.subrange(0, i as int)));
    }
    assert(v@.subrange(0, v@.len() as int) =~= v@);
    r
}

/// `str::to_ascii_lowercase`, as characters.
pub fn lower_chars(v: &Vec<char>) -> (r: Vec<char>)
    ensures
        r@ == lower_all(v@),
{
    let mut r: Vec<char> = Vec::new();
    let mut i: usize = 0;
    while i < v.len()
        invariant
            i <= v@.len(),
            r@ == lower_all(v@.subrange(0, i as int)),
        decreases v@.len() - i,
    {
        r.push(to_lower(v[i]));
        i = i + 1;
        assert(r@ =~= lower_all(v@.subrange(0, i as int)));
    }
    assert(v@.subrange(0, v@.len() as int) =~= v@);
    r
}

/// `n` in decimal with a leading `-` when negative: what `{}` prints for an
/// `i64`.
pub open spec fn signed_decimal(n: int) -> Seq<char> {
    if n < 0 {
        seq!['-'] + decimal((-n) as nat)
    } else {
        decimal(n as nat)
    }
}

/// `n` as `{}` prints it, on the end of `s`.
pub fn push_i64(s: &mut String, n: i64)
    ensures
        final(s)@ == old(s)@ + signed_decimal(n as int),
{
    if n < 0 {
        push_char(s, '-');
        let m: u64 = if n == i64::MIN { 9223372036854775808u64 } else { (-n) as u64 };
        push_decimal(s, m);
        assert(final(s)@ =~= old(s)@ + signed_decimal(n as int));
    } else {
        push_decimal(s, n as u64);
    }
}


/// Ten to the `k`.
pub open spec fn pow10(k: nat) -> nat
    decreases k,
{
    if k == 0 {
        1
    } else {
        10 * pow10((k - 1) as nat)
    }
}

/// A decimal numeral is at least one digit long, every character a digit,
/// and no longer than `k` digits for a number under ten to the `k`.
pub proof fn lemma_decimal_shape(n: nat, k: nat)
    requires
        k >= 1,
        n < pow10(k),
    ensures
        1 <= decimal(n).len() <= k,
        forall|i: int| 0 <= i < decimal(n).len() ==> is_digit(#[trigger] decimal(n)[i]),
    decreases n,
{
    if n >= 10 {
        assert(k >= 2) by {
            if k == 1 {
                assert(pow10(0) == 1);
                assert(pow10(1) == 10 * pow10(0));
            }
        }
        assert(n / 10 < pow10((k - 1) as nat)) by {
            assert(pow10(k) == 10 * pow10((k - 1) as nat));
        }
        lemma_decimal_shape(n / 10, (k - 1) as nat);
        let d = decimal(n);
        assert(d == decimal(n / 10).push(digit(n % 10)));
        assert forall|i: int| 0 <= i < d.len() implies is_digit(#[trigger] d[i]) by {
            if i < d.len() - 1 {
                assert(d[i] == decimal(n / 10)[i]);
            }
        }
    }
}

/* ------------------------------------------------ words and patterns */

/// Where the run of characters other than whitespace from `i` ends.
pub open spec fn word_end(s: Seq<char>, i: int) -> int
    decreases s.len() - i,
{
    if i < 0 || i >= s.len() || is_ws(s[i]) {
        i
    } else {
        word_end(s, i + 1)
    }
}

pub proof fn lemma_word_end_bounds(s: Seq<char>, i: int)
    requires
        0 <= i <= s.len(),
    ensures
        i <= word_end(s, i) <= s.len(),
        i < s.len() && !is_ws(s[i]) ==> word_end(s, i) > i,
    decreases s.len() - i,
{
    if i < s.len() && !is_ws(s[i]) {
        lemma_word_end_bounds(s, i + 1);
    }
}

/// The words of `s` from `from` on: what `str::split_whitespace` yields,
/// the runs of characters between whitespace, none of them empty.
pub open spec fn words_from(s: Seq<char>, from: int) -> Seq<Seq<char>>
    decreases s.len() - from,
{
    if from < 0 || from >= s.len() {
        Seq::empty()
    } else if is_ws(s[from]) {
        words_from(s, from + 1)
    } else {
        let e = word_end(s, from);
        proof {
            lemma_word_end_bounds(s, from);
        }
        seq![s.subrange(from, e)] + words_from(s, e)
    }
}

pub open spec fn words(s: Seq<char>) -> Seq<Seq<char>> {
    words_from(s, 0)
}

/// The texts of a list of character vectors.
pub open spec fn char_texts(v: Seq<Vec<char>>) -> Seq<Seq<char>> {
    v.map_values(|w: Vec<char>| w@)
}

/// The words of `v`, as `str::split_whitespace` yields them.
pub fn split_words(v: &Vec<char>) -> (out: Vec<Vec<char>>)
    ensures
        char_texts(out@) == words(v@),
{
    let mut out: Vec<Vec<char>> = Vec::new();
    let mut from: usize = 0;
    while from < v.len()
        invariant
            from <= v@.len(),
            char_texts(out@) + words_from(v@, from as int) == words(v@),
        decreases v@.len() - from,
    {
        if is_whitespace(v[from]) {
            from = from + 1;
        } else {
            let mut e = from;
            proof {
                lemma_word_end_bounds(v@, from as int);
            }
            while e < v.len() && !is_whitespace(v[e])
                invariant
                    from <= e <= v@.len(),
                    word_end(v@, from as int) == word_end(v@, e as int),
                decreases v@.len() - e,
            {
                e = e + 1;
            }
            let w = slice(v, from, e);
            let ghost before = char_texts(out@);
            out.push(w);
            assert(char_texts(out@) =~= before + seq![w@]);
            assert(words_from(v@, from as int) == seq![v@.subrange(from as int, e as int)] + words_from(v@, e as int));
            assert(char_texts(out@) + words_from(v@, e as int) =~= before + words_from(v@, from as int));
            from = e;
        }
    }
    assert(words_from(v@, from as int) =~= Seq::<Seq<char>>::empty());
    assert(char_texts(out@) + Seq::<Seq<char>>::empty() =~= char_texts(out@));
    out
}

/// Does `p` occur in `s` at `i`?
pub open spec fn occurs_at(s: Seq<char>, p: Seq<char>, i: int) -> bool {
    0 <= i && i + p.len() <= s.len() && s.subrange(i, i + p.len()) == p
}

/// Where `p` first occurs in `s` at or after `from`, or `s.len()`.
pub open spec fn find_str_from(s: Seq<char>, p: Seq<char>, from: int) -> int
    decreases s.len() - from,
{
    if from < 0 || from >= s.len() || from + p.len() > s.len() {
        s.len() as int
    } else if occurs_at(s, p, from) {
        from
    } else {
        find_str_from(s, p, from + 1)
    }
}

pub proof fn lemma_find_str_bounds(s: Seq<char>, p: Seq<char>, from: int)
    requires
        0 <= from <= s.len(),
    ensures
        find_str_from(s, p, from) == s.len() || (from <= find_str_from(s, p, from) && occurs_at(
            s,
            p,
            find_str_from(s, p, from),
        )),
    decreases s.len() - from,
{
    if from < s.len() && from + p.len() <= s.len() && !occurs_at(s, p, from) {
        lemma_find_str_bounds(s, p, from + 1);
    }
}

/// Where `p` first occurs in `v` at or after `from`, or `v.len()`.
pub fn find_str(v: &Vec<char>, p: &Vec<char>, from: usize) -> (i: usize)
    requires
        from <= v@.len(),
    ensures
        i == find_str_from(v@, p@, from as int),
{
    let mut i = from;
    while i < v.len() && p.len() <= v.len() - i && !has_at(v, i, p)
        invariant
            from <= i <= v@.len(),
            find_str_from(v@, p@, from as int) == find_str_from(v@, p@, i as int),
        decreases v@.len() - i,
    {
        i = i + 1;
    }
    if i >= v.len() || p.len() > v.len() - i {
        v.len()
    } else {
        i
    }
}

/// The pieces of `s` between the occurrences of a non-empty `p`, from
/// `from` on: what `str::split` yields for a text pattern.
pub open spec fn split_str_from(s: Seq<char>, p: Seq<char>, from: int) -> Seq<Seq<char>>
    decreases s.len() - from,
{
    if from < 0 || from > s.len() {
        Seq::empty()
    } else {
        let f = find_str_from(s, p, from);
        proof {
            lemma_find_str_bounds(s, p, from);
        }
        if p.len() == 0 || f >= s.len() {
            seq![s.subrange(from, s.len() as int)]
        } else {
            seq![s.subrange(from, f)] + split_str_from(s, p, f + p.len())
        }
    }
}

pub open spec fn split_str(s: Seq<char>, p: Seq<char>) -> Seq<Seq<char>> {
    split_str_from(s, p, 0)
}

/// The pieces of `v` between the occurrences of `p`.
pub fn split_on(v: &Vec<char>, p: &Vec<char>) -> (out: Vec<Vec<char>>)
    requires
        p@.len() > 0,
    ensures
        char_texts(out@) == split_str(v@, p@),
{
    let mut out: Vec<Vec<char>> = Vec::new();
    let mut from: usize = 0;
    loop
        invariant
            from <= v@.len(),
            p@.len() > 0,
            char_texts(out@) + split_str_from(v@, p@, from as int) == split_str(v@, p@),
        decreases v@.len() - from,
    {
        let f = find_str(v, p, from);
        proof {
            lemma_find_str_bounds(v@, p@, from as int);
        }
        let ghost before = char_texts(out@);
        if f >= v.len() {
            let w = slice(v, from, v.len());
            out.push(w);
            assert(char_texts(out@) =~= before + seq![w@]);
            assert(split_str_from(v@, p@, from as int) == seq![w@]);
            return out;
        }
        let w = slice(v, from, f);
        out.push(w);
        assert(char_texts(out@) =~= before + seq![w@]);
        let next = f + p.len();
        assert(split_str_from(v@, p@, from as int) == seq![w@] + split_str_from(v@, p@, next as int));
        assert(char_texts(out@) + split_str_from(v@, p@, next as int) =~= before + split_str_from(
            v@,
            p@,
            from as int,
        ));
        from = next;
    }
}

/// Words joined with one space between each two.
pub open spec fn spaced(ws: Seq<Seq<char>>) -> Seq<char>
    decreases ws.len(),
{
    if ws.len() == 0 {
        Seq::empty()
    } else if ws.len() == 1 {
        ws[0]
    } else {
        spaced(ws.drop_last()) + seq![' '] + ws.last()
    }
}

/// `ws[lo..]` joined with single spaces.
pub fn join_spaced(ws: &Vec<Vec<char>>, lo: usize) -> (s: String)
    requires
        lo <= ws@.len(),
    ensures
        s@ == spaced(char_texts(ws@).subrange(lo as int, ws@.len() as int)),
{
    let mut s = String::new();
    let mut i = lo;
    while i < ws.len()
        invariant
            lo <= i <= ws@.len(),
            s@ == spaced(char_texts(ws@).subrange(lo as int, i as int)),
        decreases ws@.len() - i,
    {
        let ghost part = char_texts(ws@).subrange(lo as int, i + 1);
        assert(part.drop_last() =~= char_texts(ws@).subrange(lo as int, i as int));
        assert(part.last() == ws@[i as int]@);
        if i > lo {
            push_char(&mut s, ' ');
        } else {
            assert(part.len() == 1);
        }
        push_chars(&mut s, &ws[i]);
        i = i + 1;
    }
    s
}

/// What `str::parse::<usize>` gives: an optional `+`, then at least one
/// ASCII digit and nothing else, and a value that fits.
pub open spec fn parsed_usize(s: Seq<char>) -> Option<nat> {
    let body = if s.len() > 0 && s[0] == '+' { s.drop_first() } else { s };
    if body.len() > 0 && all_digits(body) && digits_value(body) <= usize::MAX {
        Some(digits_value(body) as nat)
    } else {
        None
    }
}

/// `str::parse::<usize>`, written out.
pub fn parse_usize(v: &Vec<char>) -> (r: Option<usize>)
    ensures
        match r {
            Some(n) => parsed_usize(v@) == Some(n as nat),
            None => parsed_usize(v@) is None,
        },
{
    let n = v.len();
    let start: usize = if n > 0 && v[0] == '+' { 1 } else { 0 };
    let ghost body = if v@.len() > 0 && v@[0] == '+' { v@.drop_first() } else { v@ };
    assert(body =~= v@.subrange(start as int, n as int));
    if start >= n {
        return None;
    }
    let mut acc: u128 = 0;
    let mut i = start;
    while i < n
        invariant
            start <= i <= n,
            n == v@.len(),
            body == v@.subrange(start as int, n as int),
            body == (if v@.len() > 0 && v@[0] == '+' { v@.drop_first() } else { v@ }),
            all_digits(body.subrange(0, i - start)),
            acc == digits_value(body.subrange(0, i - start)),
            acc <= usize::MAX,
        decreases n - i,
    {
        let c = v[i];
        if !('0' <= c && c <= '9') {
            assert(!is_digit(body[i - start]));
            assert(!all_digits(body));
            return None;
        }
        let d = (c as u32 - '0' as u32) as u128;
        assert(body.subrange(0, i + 1 - start).drop_last() =~= body.subrange(0, i - start));
        assert(all_digits(body.subrange(0, i + 1 - start))) by {
            assert forall|k: int| 0 <= k < i + 1 - start implies #[trigger] is_digit(
                body.subrange(0, i + 1 - start)[k],
            ) by {
                if k < i - start {
                    assert(is_digit(body.subrange(0, i - start)[k]));
                }
            }
        }
        assert(body.subrange(0, i + 1 - start).last() == c);
        assert(digit_value(c) == d as int);
        acc = acc * 10 + d;
        i = i + 1;
        assert(acc == digits_value(body.subrange(0, i - start)));
        if acc > usize::MAX as u128 {
            proof {
                if all_digits(body) {
                    lemma_digits_prefix_le(body, (i - start) as int);
                }
            }
            return None;
        }
    }
    assert(body.subrange(0, n - start) =~= body);
    Some(acc as usize)
}

} // verus!
