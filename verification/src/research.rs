//! What the research loop is doing, read from the files it writes: the
//! backlog, the scouting proposals and the status each one has earned, and
//! the headings of hypotheses and decision records.
//!
//! The status of a proposal is derived here from its verdicts and never read
//! from its file, so that no role can promote its own work.
use vstd::prelude::*;

use crate::text::{
    char_texts, chars_of, has_at, lines, push_chars, push_str, same_chars, slice, slice_trimmed, spaced, split_lines,
    split_on, split_str, split_words, str_eq, string_of, trim, trim_start, trim_end, upper_all, lower_all, words,
};

verus! {

broadcast use vstd::string::group_string_axioms;

/// One idea, before it is a hypothesis, as the scouting team wrote it.
pub struct Proposal {
    pub id: String,
    pub title: String,
    pub proposed_at: i64,
    pub scout: ScoutFields,
    pub verdicts: Vec<Verdict>,
    /// Derived here from the verdicts, never read from the file.
    pub status: String,
    pub registered_as: Option<String>,
    pub file: String,
}

/// What the scout said about an idea.
pub struct ScoutFields {
    pub mechanism: String,
    pub why_unarbitraged: String,
    pub data_needed: Vec<String>,
    pub falsifier_sketch: String,
    pub closest_known: String,
}

/// One role's verdict on a proposal.
pub struct Verdict {
    pub role: String,
    pub verdict: String,
    pub at: i64,
    pub note: String,
    pub evidence: Vec<String>,
    /// Feasibility fills these; the others leave them empty.
    pub instrument: String,
    pub sample: String,
}

/// One hypothesis of a batch file.
pub struct BatchEntry {
    pub label: String,
    pub base: String,
    pub why: String,
}

/// The backlog, split into what is open and what is closed.
pub struct Backlog {
    pub open: Vec<BacklogItem>,
    pub closed: Vec<BacklogItem>,
}

/// One backlog line: its bold title and the note after it.
#[derive(PartialEq, Eq)]
pub struct BacklogItem {
    pub title: String,
    pub note: String,
}

/// A decision record: its file, the date its name starts with, its title.
pub struct Decision {
    pub file: String,
    pub date: String,
    pub title: String,
}

/* ------------------------------------------------------------- verdicts */

/// A verdict that kills a proposal outright, whoever said it.
pub open spec fn fatal(v: Seq<char>) -> bool {
    let up = upper_all(v);
    up == "CLOSED"@ || up == "BLOCKED"@ || up == "BROKEN"@
}

/// Is this verdict fatal? `CLOSED`, `BLOCKED` or `BROKEN`, in any case.
pub fn is_fatal(v: &str) -> (r: bool)
    ensures
        r == fatal(v@),
{
    let up = string_of(&crate::text::upper_chars(&chars_of(v)));
    str_eq(up.as_str(), "CLOSED") || str_eq(up.as_str(), "BLOCKED") || str_eq(up.as_str(), "BROKEN")
}

/// Do `a` and `b` read the same ignoring ASCII case?
pub open spec fn same_ignoring_case(a: Seq<char>, b: Seq<char>) -> bool {
    lower_all(a) == lower_all(b)
}

/// Has the role `role` given any verdict?
pub open spec fn has_spoken(verdicts: Seq<Verdict>, role: Seq<char>) -> bool {
    exists|i: int| 0 <= i < verdicts.len() && same_ignoring_case((#[trigger] verdicts[i]).role@, role)
}

/// Has anyone given a fatal verdict?
pub open spec fn any_fatal(verdicts: Seq<Verdict>) -> bool {
    exists|i: int| 0 <= i < verdicts.len() && fatal((#[trigger] verdicts[i]).verdict@)
}

/// A proposal's status, from its verdicts alone: registered once it has a
/// hypothesis; rejected by one fatal verdict however many approvals it had;
/// shortlisted only when both gates have spoken and neither objected; else
/// proposed.
pub open spec fn status_named(p: &Proposal) -> Seq<char> {
    if p.registered_as matches Some(r) && r@.len() > 0 {
        "registered"@
    } else if any_fatal(p.verdicts@) {
        "rejected"@
    } else if has_spoken(p.verdicts@, "historian"@) && has_spoken(p.verdicts@, "feasibility"@) {
        "shortlisted"@
    } else {
        "proposed"@
    }
}

/// A verdict is fatal exactly when it reads `CLOSED`, `BLOCKED` or `BROKEN`
/// ignoring case: any spelling whose upper case is one of the three.
pub proof fn lemma_fatal_in_any_case(v: Seq<char>)
    ensures
        fatal(v) == (upper_all(v) =~= "CLOSED"@ || upper_all(v) =~= "BLOCKED"@ || upper_all(v) =~= "BROKEN"@),
{
}

/// A proposal's status, from its verdicts alone. A hypothesis registered for
/// it makes it registered, whatever was said. Otherwise one fatal verdict, at
/// any position and whoever gave it, rejects it however many approvals it
/// has. Shortlisted means no verdict was fatal and both the historian and
/// feasibility have spoken; proposed, that no verdict was fatal and one of
/// the two has not.
pub proof fn lemma_status_law(p: &Proposal)
    ensures
        ({
            let registered = p.registered_as is Some && p.registered_as->0@.len() > 0;
            let vs = p.verdicts@;
            let status = status_named(p);
            &&& registered ==> status == "registered"@
            &&& forall|i: int|
                0 <= i < vs.len() && !registered && fatal((#[trigger] vs[i]).verdict@) ==> status == "rejected"@
            &&& status == "rejected"@ ==> !registered && exists|i: int|
                0 <= i < vs.len() && fatal((#[trigger] vs[i]).verdict@)
            &&& status == "shortlisted"@ ==> {
                &&& !registered
                &&& forall|i: int| 0 <= i < vs.len() ==> !fatal((#[trigger] vs[i]).verdict@)
                &&& exists|i: int| 0 <= i < vs.len() && lower_all((#[trigger] vs[i]).role@) =~= lower_all("historian"@)
                &&& exists|i: int|
                    0 <= i < vs.len() && lower_all((#[trigger] vs[i]).role@) =~= lower_all("feasibility"@)
            }
            &&& status == "proposed"@ ==> {
                &&& !registered
                &&& forall|i: int| 0 <= i < vs.len() ==> !fatal((#[trigger] vs[i]).verdict@)
                &&& !((exists|i: int|
                    0 <= i < vs.len() && lower_all((#[trigger] vs[i]).role@) =~= lower_all("historian"@))
                    && (exists|i: int|
                    0 <= i < vs.len() && lower_all((#[trigger] vs[i]).role@) =~= lower_all("feasibility"@)))
            }
            &&& status == "registered"@ || status == "rejected"@ || status == "shortlisted"@ || status == "proposed"@
        }),
{
    reveal_strlit("registered");
    reveal_strlit("rejected");
    reveal_strlit("shortlisted");
    reveal_strlit("proposed");
    assert("registered"@[2] != "rejected"@[2]);
    assert("registered"@[0] != "shortlisted"@[0]);
    assert("registered"@[0] != "proposed"@[0]);
    assert("rejected"@[0] != "shortlisted"@[0]);
    assert("rejected"@[0] != "proposed"@[0]);
    assert("shortlisted"@[0] != "proposed"@[0]);
}

/// Has the role `role` spoken among `verdicts`?
fn spoken(verdicts: &Vec<Verdict>, role: &str) -> (r: bool)
    ensures
        r == has_spoken(verdicts@, role@),
{
    let want = crate::text::lower_chars(&chars_of(role));
    let mut i: usize = 0;
    while i < verdicts.len()
        invariant
            i <= verdicts@.len(),
            want@ == lower_all(role@),
            forall|k: int| 0 <= k < i ==> !same_ignoring_case((#[trigger] verdicts@[k]).role@, role@),
        decreases verdicts@.len() - i,
    {
        let got = crate::text::lower_chars(&chars_of(verdicts[i].role.as_str()));
        if same_chars(&got, &want) {
            return true;
        }
        i = i + 1;
    }
    false
}

/// The status of a proposal: derived, never read from its file, so no role
/// can promote its own work.
pub fn status_of(p: &Proposal) -> (s: String)
    ensures
        s@ == status_named(p),
{
    if let Some(r) = &p.registered_as {
        if chars_of(r.as_str()).len() > 0 {
            return crate::text::owned("registered");
        }
    }
    let mut i: usize = 0;
    while i < p.verdicts.len()
        invariant
            i <= p.verdicts@.len(),
            !(p.registered_as matches Some(r) && r@.len() > 0),
            forall|k: int| 0 <= k < i ==> !fatal((#[trigger] p.verdicts@[k]).verdict@),
        decreases p.verdicts@.len() - i,
    {
        if is_fatal(p.verdicts[i].verdict.as_str()) {
            return crate::text::owned("rejected");
        }
        i = i + 1;
    }
    if spoken(&p.verdicts, "historian") && spoken(&p.verdicts, "feasibility") {
        return crate::text::owned("shortlisted");
    }
    crate::text::owned("proposed")
}

/// Where a status sorts on the screen: live work first, then the
/// graveyard.
pub fn rank(status: &str) -> (r: u8)
    ensures
        r == (if status@ == "shortlisted"@ {
            0u8
        } else if status@ == "registered"@ {
            1u8
        } else if status@ == "proposed"@ {
            2u8
        } else {
            3u8
        }),
{
    if str_eq(status, "shortlisted") {
        0
    } else if str_eq(status, "registered") {
        1
    } else if str_eq(status, "proposed") {
        2
    } else {
        3
    }
}

/* -------------------------------------------------------------- backlog */

/// `s` with every `pat` taken out, scanning from the left: what
/// `str::replace(pat, "")` gives.
pub open spec fn without(s: Seq<char>, pat: Seq<char>) -> Seq<char>
    decreases s.len(),
{
    if pat.len() == 0 || s.len() == 0 {
        s
    } else if crate::text::starts_with(s, pat) {
        without(s.subrange(pat.len() as int, s.len() as int), pat)
    } else {
        seq![s[0]] + without(s.drop_first(), pat)
    }
}

/// `s` without any number of leading `pat`: `str::trim_start_matches`.
pub open spec fn strip_leading(s: Seq<char>, pat: Seq<char>) -> Seq<char>
    decreases s.len(),
{
    if pat.len() > 0 && crate::text::starts_with(s, pat) {
        strip_leading(s.subrange(pat.len() as int, s.len() as int), pat)
    } else {
        s
    }
}

/// `s` without trailing `c`s: `str::trim_end_matches(c)`.
pub open spec fn strip_trailing(s: Seq<char>, c: char) -> Seq<char>
    decreases s.len(),
{
    if s.len() > 0 && s.last() == c {
        strip_trailing(s.drop_last(), c)
    } else {
        s
    }
}

/// Where `pat` first occurs in `s` at or after `from`, or `s.len()`.
pub open spec fn find_pat(s: Seq<char>, pat: Seq<char>, from: int) -> int
    decreases s.len() + 1 - from,
{
    if from < 0 || from + pat.len() > s.len() {
        s.len() as int
    } else if s.subrange(from, from + pat.len()) == pat {
        from
    } else {
        find_pat(s, pat, from + 1)
    }
}

/// Backlog text as it reads: strike-through, code ticks and bold taken out,
/// and trimmed.
pub open spec fn plain(t: Seq<char>) -> Seq<char> {
    trim(without(without(without(t, "~~"@), "`"@), "**"@))
}

/// What one backlog line says, if it is an item: whether it is open (and
/// not withdrawn), its title and its note.
pub open spec fn backlog_line(line: Seq<char>) -> Option<(bool, Seq<char>, Seq<char>)> {
    let t = trim_start(line);
    let marked = if crate::text::starts_with(t, "- [ ] "@) {
        Some(true)
    } else if crate::text::starts_with(t, "- [x] "@) {
        Some(false)
    } else {
        None
    };
    match marked {
        None => None,
        Some(open) => {
            let rest = t.subrange(6, t.len() as int);
            let withdrawn = crate::text::starts_with(rest, "~~"@);
            let bare = strip_leading(rest, "~~"@);
            let inner = bare.subrange(2, bare.len() as int);
            let k = find_pat(inner, "**"@, 0);
            if crate::text::starts_with(bare, "**"@) && k < inner.len() {
                Some((
                    open && !withdrawn,
                    strip_trailing(plain(inner.subrange(0, k)), '.'),
                    plain(inner.subrange(k + 2, inner.len() as int)),
                ))
            } else {
                Some((open && !withdrawn, plain(rest), Seq::empty()))
            }
        },
    }
}

/// The open and the closed items of the backlog's first lines, in order.
pub open spec fn backlog_of(lines: Seq<Seq<char>>) -> (Seq<(Seq<char>, Seq<char>)>, Seq<(Seq<char>, Seq<char>)>)
    decreases lines.len(),
{
    if lines.len() == 0 {
        (Seq::empty(), Seq::empty())
    } else {
        let before = backlog_of(lines.drop_last());
        match backlog_line(lines.last()) {
            None => before,
            Some((open, title, note)) => if open {
                (before.0.push((title, note)), before.1)
            } else {
                (before.0, before.1.push((title, note)))
            },
        }
    }
}

/// The items as the contracts see them.
pub open spec fn items_view(items: Seq<BacklogItem>) -> Seq<(Seq<char>, Seq<char>)> {
    items.map_values(|i: BacklogItem| (i.title@, i.note@))
}

/// [`without`] on characters.
fn without_chars(v: &Vec<char>, pat: &Vec<char>) -> (r: Vec<char>)
    requires
        pat@.len() > 0,
    ensures
        r@ == without(v@, pat@),
{
    let mut out: Vec<char> = Vec::new();
    let mut i: usize = 0;
    let n = v.len();
    assert(v@.subrange(0, v@.len() as int) =~= v@);
    assert(out@ + v@ =~= v@);
    while i < v.len()
        invariant
            i <= v@.len(),
            n == v@.len(),
            pat@.len() > 0,
            out@ + without(v@.subrange(i as int, v@.len() as int), pat@) == without(v@, pat@),
        decreases v@.len() - i,
    {
        let ghost rest = v@.subrange(i as int, v@.len() as int);
        if crate::text::has_at(v, i, pat) {
            assert(rest.subrange(0, pat@.len() as int) =~= v@.subrange(i as int, i + pat@.len()));
            assert(rest.subrange(pat@.len() as int, rest.len() as int) =~= v@.subrange(i + pat@.len(), v@.len() as int));
            assert(i + pat@.len() <= n);
            i = i + pat.len();
        } else {
            proof {
                if pat@.len() <= rest.len() {
                    assert(rest.subrange(0, pat@.len() as int) =~= v@.subrange(i as int, i + pat@.len()));
                }
            }
            assert(rest.drop_first() =~= v@.subrange(i + 1, v@.len() as int));
            let ghost before = out@;
            out.push(v[i]);
            assert(out@ + without(v@.subrange(i + 1, v@.len() as int), pat@) =~= before + (seq![rest[0]] + without(rest.drop_first(), pat@)));
            i = i + 1;
        }
    }
    assert(v@.subrange(v@.len() as int, v@.len() as int) =~= Seq::<char>::empty());
    assert(out@ + Seq::<char>::empty() =~= out@);
    out
}

/// [`strip_leading`] on characters, from `lo`: where the leading `pat`s end.
fn skip_leading(v: &Vec<char>, lo: usize, pat: &Vec<char>) -> (i: usize)
    requires
        lo <= v@.len(),
        pat@.len() > 0,
    ensures
        lo <= i <= v@.len(),
        strip_leading(v@.subrange(lo as int, v@.len() as int), pat@) == v@.subrange(i as int, v@.len() as int),
{
    let mut i = lo;
    let n = v.len();
    assert(v@.subrange(lo as int, v@.len() as int) == v@.subrange(i as int, v@.len() as int));
    while crate::text::has_at(v, i, pat)
        invariant
            lo <= i <= v@.len(),
            n == v@.len(),
            pat@.len() > 0,
            strip_leading(v@.subrange(lo as int, v@.len() as int), pat@) == strip_leading(v@.subrange(i as int, v@.len() as int), pat@),
        decreases v@.len() - i,
    {
        let ghost rest = v@.subrange(i as int, v@.len() as int);
        assert(rest.subrange(0, pat@.len() as int) =~= v@.subrange(i as int, i + pat@.len()));
        assert(rest.subrange(pat@.len() as int, rest.len() as int) =~= v@.subrange(i + pat@.len(), v@.len() as int));
        assert(i + pat@.len() <= n);
        i = i + pat.len();
    }
    proof {
        let rest = v@.subrange(i as int, v@.len() as int);
        if pat@.len() <= rest.len() {
            assert(rest.subrange(0, pat@.len() as int) =~= v@.subrange(i as int, i + pat@.len()));
        }
    }
    i
}

/// [`find_pat`] on characters.
fn find_pat_in(v: &Vec<char>, pat: &Vec<char>) -> (k: usize)
    ensures
        k == find_pat(v@, pat@, 0),
        k <= v@.len(),
{
    let mut k: usize = 0;
    if pat.len() > v.len() {
        return v.len();
    }
    let last = v.len() - pat.len();
    loop
        invariant
            k <= last,
            last + pat@.len() == v@.len(),
            find_pat(v@, pat@, 0) == find_pat(v@, pat@, k as int),
        decreases last - k,
    {
        if crate::text::has_at(v, k, pat) {
            return k;
        }
        if k == last {
            assert(find_pat(v@, pat@, k + 1) == v@.len());
            return v.len();
        }
        k = k + 1;
    }
}

/// [`plain`] on characters.
fn plain_chars(v: &Vec<char>) -> (r: Vec<char>)
    ensures
        r@ == plain(v@),
{
    proof {
        reveal_strlit("~~");
        reveal_strlit("`");
        reveal_strlit("**");
    }
    let a = without_chars(v, &chars_of("~~"));
    let b = without_chars(&a, &chars_of("`"));
    let c = without_chars(&b, &chars_of("**"));
    let r = crate::text::slice_trimmed(&c, 0, c.len());
    assert(c@.subrange(0, c@.len() as int) =~= c@);
    r
}

/// [`strip_trailing`] of `.` on characters.
fn strip_dots(v: &Vec<char>) -> (r: Vec<char>)
    ensures
        r@ == strip_trailing(v@, '.'),
{
    let mut j = v.len();
    assert(v@.subrange(0, v@.len() as int) =~= v@);
    while j > 0 && v[j - 1] == '.'
        invariant
            j <= v@.len(),
            strip_trailing(v@, '.') == strip_trailing(v@.subrange(0, j as int), '.'),
        decreases j,
    {
        assert(v@.subrange(0, j as int).drop_last() =~= v@.subrange(0, j - 1));
        j = j - 1;
    }
    crate::text::slice(v, 0, j)
}

/// One backlog line, read as [`backlog_line`] says.
fn read_backlog_line(line: &Vec<char>) -> (r: Option<(bool, BacklogItem)>)
    ensures
        match backlog_line(line@) {
            None => r is None,
            Some((open, title, note)) => r matches Some((o, item)) && o == open && item.title@ == title
                && item.note@ == note,
        },
{
    let s = crate::text::skip_ws(line, 0);
    let ghost t = line@.subrange(s as int, line@.len() as int);
    assert(line@.subrange(0, line@.len() as int) =~= line@);
    let open_mark = chars_of("- [ ] ");
    let done_mark = chars_of("- [x] ");
    proof {
        reveal_strlit("- [ ] ");
        reveal_strlit("- [x] ");
        reveal_strlit("~~");
        reveal_strlit("**");
    }
    let n = line.len();
    let open = if crate::text::has_at(line, s, &open_mark) {
        assert(t.subrange(0, 6) =~= line@.subrange(s as int, s + 6));
        true
    } else if crate::text::has_at(line, s, &done_mark) {
        assert(t.subrange(0, 6) =~= line@.subrange(s as int, s + 6));
        assert(!crate::text::starts_with(t, "- [ ] "@)) by {
            if t.len() >= 6 {
                assert(t.subrange(0, 6) =~= line@.subrange(s as int, s + 6));
            }
        }
        false
    } else {
        proof {
            if t.len() >= 6 {
                assert(t.subrange(0, 6) =~= line@.subrange(s as int, s + 6));
            }
        }
        return None;
    };
    assert(s + 6 <= n);
    let start = s + 6;
    let rest = crate::text::slice(line, start, line.len());
    assert(rest@ =~= t.subrange(6, t.len() as int));
    let tilde = chars_of("~~");
    let stars = chars_of("**");
    let withdrawn = crate::text::has_at(&rest, 0, &tilde);
    let b = skip_leading(&rest, 0, &tilde);
    assert(rest@.subrange(0, rest@.len() as int) =~= rest@);
    let bare = crate::text::slice(&rest, b, rest.len());
    let bold = crate::text::has_at(&bare, 0, &stars);
    if bold {
        let inner = crate::text::slice(&bare, 2, bare.len());
        let k = find_pat_in(&inner, &stars);
        proof {
            lemma_find_pat_fits(inner@, stars@, 0);
        }
        if k < inner.len() {
            let title = strip_dots(&plain_chars(&crate::text::slice(&inner, 0, k)));
            let note = plain_chars(&crate::text::slice(&inner, k + 2, inner.len()));
            return Some((open && !withdrawn, BacklogItem { title: string_of(&title), note: string_of(&note) }));
        }
    }
    let title = plain_chars(&rest);
    Some((open && !withdrawn, BacklogItem { title: string_of(&title), note: String::new() }))
}

/// A found pattern lies inside the text.
proof fn lemma_find_pat_fits(s: Seq<char>, pat: Seq<char>, from: int)
    requires
        0 <= from,
    ensures
        find_pat(s, pat, from) < s.len() ==> find_pat(s, pat, from) + pat.len() <= s.len(),
    decreases s.len() + 1 - from,
{
    if from + pat.len() <= s.len() && s.subrange(from, from + pat.len()) != pat {
        lemma_find_pat_fits(s, pat, from + 1);
    }
}

/// `- [ ] **title.** note` and `- [x] **title.** note`, line by line. An
/// item struck through (`~~`) reads as closed however it is ticked.
pub fn parse_backlog(text: &str) -> (b: Backlog)
    ensures
        items_view(b.open@) == backlog_of(crate::text::lines(text@)).0,
        items_view(b.closed@) == backlog_of(crate::text::lines(text@)).1,
{
    let all = chars_of(text);
    let lines = crate::text::split_lines(&all);
    let ghost ls = crate::text::lines(text@);
    let mut open: Vec<BacklogItem> = Vec::new();
    let mut closed: Vec<BacklogItem> = Vec::new();
    let mut k: usize = 0;
    assert(ls.take(0) =~= Seq::<Seq<char>>::empty());
    assert(items_view(open@) =~= Seq::<(Seq<char>, Seq<char>)>::empty());
    assert(items_view(closed@) =~= Seq::<(Seq<char>, Seq<char>)>::empty());
    while k < lines.len()
        invariant
            k <= lines@.len(),
            lines@.len() == ls.len(),
            forall|q: int| 0 <= q < lines@.len() ==> (#[trigger] lines@[q])@ == ls[q],
            items_view(open@) == backlog_of(ls.take(k as int)).0,
            items_view(closed@) == backlog_of(ls.take(k as int)).1,
        decreases lines@.len() - k,
    {
        assert(ls.take(k + 1).drop_last() =~= ls.take(k as int));
        assert(ls.take(k + 1).last() == lines@[k as int]@);
        let ghost before_open = items_view(open@);
        let ghost before_closed = items_view(closed@);
        match read_backlog_line(&lines[k]) {
            None => {},
            Some((is_open, item)) => {
                if is_open {
                    open.push(item);
                    assert(items_view(open@) =~= before_open.push((open@.last().title@, open@.last().note@)));
                } else {
                    closed.push(item);
                    assert(items_view(closed@) =~= before_closed.push((closed@.last().title@, closed@.last().note@)));
                }
            },
        }
        k = k + 1;
    }
    assert(ls.take(lines@.len() as int) =~= ls);
    Backlog { open, closed }
}

/* ----------------------------------------------- headings of the records */

/// A heading line read as text: its leading `#`s and surrounding space gone.
pub open spec fn heading(line: Seq<char>) -> Seq<char> {
    trim(strip_leading(line, "#"@))
}

/// [`heading`] on characters.
fn heading_chars(line: &Vec<char>) -> (r: Vec<char>)
    ensures
        r@ == heading(line@),
{
    proof {
        reveal_strlit("#");
    }
    let hash = chars_of("#");
    let i = skip_leading(line, 0, &hash);
    assert(line@.subrange(0, line@.len() as int) =~= line@);
    crate::text::slice_trimmed(line, i, line.len())
}

/// A decision record's title: its first line as a heading, when it has a
/// first line.
pub fn decision_title(text: &str) -> (t: Option<String>)
    ensures
        crate::text::lines(text@).len() == 0 ==> t is None,
        crate::text::lines(text@).len() > 0 ==> (t matches Some(s) && s@ == heading(
            crate::text::lines(text@)[0],
        )),
{
    let lines = crate::text::split_lines(&chars_of(text));
    if lines.len() == 0 {
        return None;
    }
    Some(string_of(&heading_chars(&lines[0])))
}

/// A hypothesis's claim: its first line as a heading, after the first `:`
/// when there is one.
pub open spec fn claim_of(text: Seq<char>) -> Seq<char> {
    let first = if crate::text::lines(text).len() > 0 {
        heading(crate::text::lines(text)[0])
    } else {
        Seq::empty()
    };
    let colon = crate::text::find_from(first, ':', 0);
    if colon < first.len() {
        trim(first.subrange(colon + 1, first.len() as int))
    } else {
        first
    }
}

/// The claim a hypothesis file states in its first line.
pub fn hypothesis_claim(text: &str) -> (c: String)
    ensures
        c@ == claim_of(text@),
{
    let lines = crate::text::split_lines(&chars_of(text));
    let first = if lines.len() > 0 {
        heading_chars(&lines[0])
    } else {
        Vec::new()
    };
    let colon = crate::text::find_char(&first, ':', 0);
    if colon < first.len() {
        string_of(&crate::text::slice_trimmed(&first, colon + 1, first.len()))
    } else {
        string_of(&first)
    }
}

/// What a `**Name:**` line of a hypothesis says: the text after the marker
/// on the first line that starts with it (once trimmed), up to the first
/// ` — `, trimmed; empty when no line has the marker.
pub open spec fn field_in(lines: Seq<Seq<char>>, marker: Seq<char>) -> Seq<char>
    decreases lines.len(),
{
    if lines.len() == 0 {
        Seq::empty()
    } else {
        let t = trim(lines[0]);
        if crate::text::starts_with(t, marker) {
            let v = t.subrange(marker.len() as int, t.len() as int);
            let cut = find_pat(v, " \u{2014} "@, 0);
            trim(v.subrange(0, if cut < v.len() { cut } else { v.len() as int }))
        } else {
            field_in(lines.drop_first(), marker)
        }
    }
}

/// The `**<name>:**` field of a hypothesis file.
pub fn hypothesis_field(text: &str, name: &str) -> (v: String)
    ensures
        v@ == field_in(crate::text::lines(text@), "**"@ + name@ + ":**"@),
{
    let lines = crate::text::split_lines(&chars_of(text));
    let ghost ls = crate::text::lines(text@);
    let mut marker = String::new();
    push_str(&mut marker, "**");
    push_str(&mut marker, name);
    push_str(&mut marker, ":**");
    let m = chars_of(marker.as_str());
    assert(m@ =~= "**"@ + name@ + ":**"@);
    let dash = chars_of(" \u{2014} ");
    let mut i: usize = 0;
    assert(ls.subrange(0, ls.len() as int) =~= ls);
    while i < lines.len()
        invariant
            i <= lines@.len(),
            lines@.len() == ls.len(),
            forall|q: int| 0 <= q < lines@.len() ==> (#[trigger] lines@[q])@ == ls[q],
            field_in(ls, m@) == field_in(ls.subrange(i as int, ls.len() as int), m@),
            dash@ == " \u{2014} "@,
            m@ == "**"@ + name@ + ":**"@,
            ls == crate::text::lines(text@),
        decreases lines@.len() - i,
    {
        let ghost rest = ls.subrange(i as int, ls.len() as int);
        assert(rest[0] == lines@[i as int]@);
        let line = &lines[i];
        let t = crate::text::slice_trimmed(line, 0, line.len());
        assert(line@.subrange(0, line@.len() as int) =~= line@);
        if crate::text::has_at(&t, 0, &m) {
            assert(t@.subrange(0, m@.len() as int) == m@);
            let v = crate::text::slice(&t, m.len(), t.len());
            let cut = find_pat_in(&v, &dash);
            let end = if cut < v.len() { cut } else { v.len() };
            let r = crate::text::slice_trimmed(&v, 0, end);
            assert(crate::text::starts_with(trim(rest[0]), m@));
            assert(field_in(rest, m@) == r@);
            return string_of(&r);
        }
        proof {
            if m@.len() <= t@.len() {
                assert(t@.subrange(0, m@.len() as int) == t@.subrange(0, m@.len() as int));
            }
        }
        assert(rest.drop_first() =~= ls.subrange(i + 1, ls.len() as int));
        i = i + 1;
    }
    String::new()
}

/* ------------------------------------------------------- the listing order */

/// Where a hypothesis sorts: in flight (0) before decided (1), by its
/// `Status:` line.
pub fn hypothesis_rank(status: &str) -> (r: u8)
    ensures
        r == (if crate::text::starts_with(status@, "decided"@) {
            1u8
        } else {
            0u8
        }),
{
    let s = chars_of(status);
    let p = chars_of("decided");
    let done = crate::text::has_at(&s, 0, &p);
    if done {
        1
    } else {
        0
    }
}

/// Key `a` sorts strictly before key `b`: a lower rank, or the same rank and
/// a later time.
pub open spec fn sooner(a: (u8, i64), b: (u8, i64)) -> bool {
    a.0 < b.0 || (a.0 == b.0 && a.1 > b.1)
}

/// Item `x` is listed before item `y`: its key sorts sooner, or the two keys
/// tie and `x` came first. The order of a stable sort by key.
pub open spec fn listed_before(keys: Seq<(u8, i64)>, x: int, y: int) -> bool {
    sooner(keys[x], keys[y]) || (keys[x] == keys[y] && x < y)
}

/// `order` lists every item of `keys` once, in the order of a stable sort
/// by rank, then newest first.
pub open spec fn is_listing(keys: Seq<(u8, i64)>, order: Seq<usize>) -> bool {
    &&& order.len() == keys.len()
    &&& forall|k: int| 0 <= k < order.len() ==> (#[trigger] order[k]) < keys.len()
    &&& forall|a: int, b: int| 0 <= a < b < order.len() ==> listed_before(keys, #[trigger] order[a] as int, #[trigger] order[b] as int)
}

/// The order the research screen lists items in, given each item's rank
/// and time: lower rank first, newest first within a rank, and the order
/// they were read in where both tie. Returned as positions into `keys`.
pub fn listing_order(keys: &Vec<(u8, i64)>) -> (order: Vec<usize>)
    ensures
        is_listing(keys@, order@),
        forall|x: usize| x < keys@.len() ==> #[trigger] order@.contains(x),
{
    let ghost ks = keys@;
    let mut order: Vec<usize> = Vec::new();
    let mut i: usize = 0;
    while i < keys.len()
        invariant
            ks == keys@,
            i <= ks.len(),
            order@.len() == i,
            forall|k: int| 0 <= k < order@.len() ==> (#[trigger] order@[k]) < i,
            forall|x: usize| x < i ==> #[trigger] order@.contains(x),
            forall|a: int, b: int|
                0 <= a < b < order@.len() ==> listed_before(ks, #[trigger] order@[a] as int, #[trigger] order@[b] as int),
        decreases ks.len() - i,
    {
        let ki = keys[i];
        let mut p: usize = 0;
        while p < order.len()
            invariant
                ks == keys@,
                i < ks.len(),
                ki == ks[i as int],
                p <= order@.len(),
                forall|k: int| 0 <= k < order@.len() ==> (#[trigger] order@[k]) < i,
                forall|q: int| 0 <= q < p ==> !sooner(ki, ks[#[trigger] order@[q] as int]),
            ensures
                p <= order@.len(),
                p < order@.len() ==> sooner(ki, ks[order@[p as int] as int]),
                forall|q: int| 0 <= q < p ==> !sooner(ki, ks[#[trigger] order@[q] as int]),
            decreases order@.len() - p,
        {
            let kq = keys[order[p]];
            if ki.0 < kq.0 || (ki.0 == kq.0 && ki.1 > kq.1) {
                break;
            }
            p = p + 1;
        }
        proof {
            // Keys sorted by the order: sooner-or-tied along it.
            assert forall|q: int| p <= q < order@.len() implies sooner(ki, ks[#[trigger] order@[q] as int]) by {
                if q > p {
                    assert(listed_before(ks, order@[p as int] as int, order@[q] as int));
                }
            }
        }
        let ghost before = order@;
        order.insert(p, i);
        proof {
            let u = order@;
            assert(u =~= before.insert(p as int, i));
            assert forall|k: int| 0 <= k < u.len() implies (#[trigger] u[k]) < i + 1 by {
                if k < p {
                    assert(u[k] == before[k]);
                } else if k > p {
                    assert(u[k] == before[k - 1]);
                }
            }
            assert forall|x: usize| x < i + 1 implies #[trigger] u.contains(x) by {
                if x < i {
                    assert(before.contains(x));
                    let k = choose|k: int| 0 <= k < before.len() && before[k] == x;
                    if k < p {
                        assert(u[k] == before[k]);
                    } else {
                        assert(u[k + 1] == before[k]);
                    }
                } else {
                    assert(u[p as int] == i);
                }
            }
            assert forall|a: int, b: int| 0 <= a < b < u.len() implies listed_before(
                ks,
                #[trigger] u[a] as int,
                #[trigger] u[b] as int,
            ) by {
                if b < p {
                    assert(u[a] == before[a] && u[b] == before[b]);
                } else if b == p {
                    assert(u[a] == before[a]);
                    assert(!sooner(ki, ks[before[a] as int]));
                } else if a < p {
                    assert(u[a] == before[a] && u[b] == before[b - 1]);
                    assert(!sooner(ki, ks[before[a] as int]));
                    assert(sooner(ki, ks[before[b - 1] as int]));
                } else if a == p {
                    assert(u[b] == before[b - 1]);
                    assert(sooner(ki, ks[before[b - 1] as int]));
                } else {
                    assert(u[a] == before[a - 1] && u[b] == before[b - 1]);
                }
            }
        }
        i = i + 1;
    }
    order
}

/* ------------------------------------------------------- a run receipt */

/// One row of a `--mode=hypotheses` table, its figures still as written.
pub struct RowText {
    pub label: String,
    pub base: String,
    pub trades: usize,
    pub profit_factor: String,
    pub expectancy: String,
    pub null_p50: String,
    pub null_p95: String,
    pub percentile: String,
    pub verdict: String,
}

/// A run receipt read: its table rows, the survivors the verdict line
/// names, and whether that line has been printed yet.
pub struct RunText {
    pub rows: Vec<RowText>,
    pub survivors: Vec<String>,
    pub concluded: bool,
}

/// Where reading a receipt has got to, as the contracts see it: whether the
/// table has begun, each row's columns with its trade count, the
/// survivors, and whether the run concluded.
pub struct RunRead {
    pub in_table: bool,
    pub rows: Seq<(Seq<Seq<char>>, nat)>,
    pub survivors: Seq<Seq<char>>,
    pub concluded: bool,
}

/// The survivors a `Survivors: ` line names: what comes before its ` — `,
/// split at `, `, each trimmed.
pub open spec fn survivors_of(rest: Seq<char>) -> Seq<Seq<char>> {
    split_str(split_str(rest, " \u{2014} "@)[0], ", "@).map_values(|p: Seq<char>| trim(p))
}

/// One line of a receipt: the `hypothesis` header opens the table; a
/// `Survivors: ` line names the survivors and concludes the run, as does
/// `Nothing survived`; before the table, and for blank or indented lines,
/// nothing; otherwise a line of at least ten columns whose third is a count
/// is a row.
pub open spec fn run_step(st: RunRead, line: Seq<char>) -> RunRead {
    if crate::text::starts_with(line, "hypothesis "@) {
        RunRead { in_table: true, ..st }
    } else if crate::text::starts_with(line, "Survivors: "@) {
        RunRead {
            survivors: survivors_of(line.subrange("Survivors: "@.len() as int, line.len() as int)),
            concluded: true,
            ..st
        }
    } else if crate::text::starts_with(line, "Nothing survived"@) {
        RunRead { concluded: true, ..st }
    } else if !st.in_table || trim(line).len() == 0 || crate::text::starts_with(line, " "@) {
        st
    } else {
        let cols = words(line);
        if cols.len() < 10 {
            st
        } else {
            match crate::text::parsed_usize(cols[2]) {
                None => st,
                Some(n) => RunRead { rows: st.rows.push((cols, n)), ..st },
            }
        }
    }
}

/// A receipt's lines read in order.
pub open spec fn run_read(ls: Seq<Seq<char>>) -> RunRead
    decreases ls.len(),
{
    if ls.len() == 0 {
        RunRead { in_table: false, rows: Seq::empty(), survivors: Seq::empty(), concluded: false }
    } else {
        run_step(run_read(ls.drop_last()), ls.last())
    }
}

/// A row holds the columns it was read from: label, base, count, profit
/// factor, expectancy, the null's median and 95th, the percentile (the
/// ninth column) and, joined by single spaces, the verdict after it.
pub open spec fn row_is(r: RowText, c: (Seq<Seq<char>>, nat)) -> bool {
    &&& r.label@ == c.0[0]
    &&& r.base@ == c.0[1]
    &&& r.trades == c.1
    &&& r.profit_factor@ == c.0[3]
    &&& r.expectancy@ == c.0[4]
    &&& r.null_p50@ == c.0[5]
    &&& r.null_p95@ == c.0[6]
    &&& r.percentile@ == c.0[8]
    &&& r.verdict@ == spaced(c.0.subrange(9, c.0.len() as int))
}

/// A read receipt holds what reading its lines found.
pub open spec fn run_text_is(r: RunText, st: RunRead) -> bool {
    &&& r.rows@.len() == st.rows.len()
    &&& forall|i: int| 0 <= i < r.rows@.len() ==> row_is(#[trigger] r.rows@[i], st.rows[i])
    &&& r.survivors@.map_values(|s: String| s@) == st.survivors
    &&& r.concluded == st.concluded
}

/// The survivors a `Survivors: ` line names, from what follows the prefix.
fn read_survivors(rest: &Vec<char>) -> (out: Vec<String>)
    ensures
        out@.map_values(|s: String| s@) == survivors_of(rest@),
{
    let dash = chars_of(" \u{2014} ");
    let comma = chars_of(", ");
    proof {
        reveal_strlit(" \u{2014} ");
        reveal_strlit(", ");
    }
    let pieces = split_on(rest, &dash);
    assert(char_texts(pieces@).len() > 0);
    let parts = split_on(&pieces[0], &comma);
    let ghost want = survivors_of(rest@);
    let ghost ps = char_texts(parts@);
    assert(ps == split_str(split_str(rest@, " \u{2014} "@)[0], ", "@));
    let mut out: Vec<String> = Vec::new();
    let mut i: usize = 0;
    while i < parts.len()
        invariant
            i <= parts@.len(),
            ps == char_texts(parts@),
            want == ps.map_values(|p: Seq<char>| trim(p)),
            out@.map_values(|s: String| s@) == want.subrange(0, i as int),
        decreases parts@.len() - i,
    {
        let w = slice_trimmed(&parts[i], 0, parts[i].len());
        assert(parts@[i as int]@.subrange(0, parts@[i as int]@.len() as int) =~= parts@[i as int]@);
        let ghost before = out@.map_values(|s: String| s@);
        out.push(string_of(&w));
        assert(out@.map_values(|s: String| s@) =~= before.push(want[i as int]));
        assert(want.subrange(0, i + 1) =~= want.subrange(0, i as int).push(want[i as int]));
        i = i + 1;
    }
    assert(want.subrange(0, parts@.len() as int) =~= want);
    out
}

/// Read a `--mode=hypotheses` receipt: the rows of its table, its
/// survivors and whether it concluded. The figures are handed back as
/// written, for the caller to read as numbers.
pub fn parse_run(text: &str) -> (r: RunText)
    ensures
        run_text_is(r, run_read(lines(text@))),
{
    let all = chars_of(text);
    let ls = split_lines(&all);
    let ghost lv = lines(text@);
    let header = chars_of("hypothesis ");
    let surv = chars_of("Survivors: ");
    let nothing = chars_of("Nothing survived");
    let space = chars_of(" ");
    let mut in_table = false;
    let mut rows: Vec<RowText> = Vec::new();
    let mut survivors: Vec<String> = Vec::new();
    let mut concluded = false;
    let mut k: usize = 0;
    assert(lv.take(0) =~= Seq::<Seq<char>>::empty());
    assert(survivors@.map_values(|s: String| s@) =~= Seq::<Seq<char>>::empty());
    while k < ls.len()
        invariant
            k <= ls@.len(),
            ls@.len() == lv.len(),
            forall|i: int| 0 <= i < ls@.len() ==> #[trigger] ls@[i]@ == lv[i],
            header@ == "hypothesis "@,
            surv@ == "Survivors: "@,
            nothing@ == "Nothing survived"@,
            space@ == " "@,
            ({
                let st = run_read(lv.take(k as int));
                &&& in_table == st.in_table
                &&& run_text_is(RunText { rows, survivors, concluded }, st)
            }),
        decreases ls@.len() - k,
    {
        let line = &ls[k];
        let ghost st = run_read(lv.take(k as int));
        assert(lv.take(k + 1).drop_last() =~= lv.take(k as int));
        assert(lv.take(k + 1).last() == line@);
        let ghost next = run_step(st, line@);
        if has_at(line, 0, &header) {
            assert(line@.subrange(0, header@.len() as int) == header@);
            in_table = true;
        } else if has_at(line, 0, &surv) {
            let rest = slice(line, surv.len(), line.len());
            survivors = read_survivors(&rest);
            concluded = true;
        } else if has_at(line, 0, &nothing) {
            concluded = true;
        } else {
            let t = slice_trimmed(line, 0, line.len());
            assert(line@.subrange(0, line@.len() as int) =~= line@);
            if in_table && t.len() > 0 && !has_at(line, 0, &space) {
                let cols = split_words(line);
                if cols.len() >= 10 {
                    match crate::text::parse_usize(&cols[2]) {
                        None => {},
                        Some(n) => {
                            let ghost cv = char_texts(cols@);
                            assert(cv[2] == cols@[2]@);
                            let row = RowText {
                                label: string_of(&cols[0]),
                                base: string_of(&cols[1]),
                                trades: n,
                                profit_factor: string_of(&cols[3]),
                                expectancy: string_of(&cols[4]),
                                null_p50: string_of(&cols[5]),
                                null_p95: string_of(&cols[6]),
                                percentile: string_of(&cols[8]),
                                verdict: crate::text::join_spaced(&cols, 9),
                            };
                            assert(row_is(row, (cv, n as nat)));
                            let ghost before = rows@;
                            rows.push(row);
                            assert forall|i: int| 0 <= i < rows@.len() implies row_is(
                                #[trigger] rows@[i],
                                next.rows[i],
                            ) by {
                                if i < before.len() {
                                    assert(rows@[i] == before[i]);
                                }
                            }
                        },
                    }
                }
            }
        }
        k = k + 1;
    }
    assert(lv.take(ls@.len() as int) =~= lv);
    RunText { rows, survivors, concluded }
}

/* --------------------------------------------- a direction-null receipt */

/// Which line or column a direction receipt is searched for.
pub enum Pick {
    /// The line that reports the actual profit factor: `actual:` after any
    /// indentation.
    Actual,
    /// The header line of a direction control.
    Control,
    /// A column that ends like an ordinal: `th`, `st`, `nd` or `rd`.
    Ordinal,
}

/// Does `pick` accept `l`?
pub open spec fn picks(pick: Pick, l: Seq<char>) -> bool {
    match pick {
        Pick::Actual => crate::text::starts_with(trim_start(l), "actual:"@),
        Pick::Control => crate::text::starts_with(l, "== direction control"@),
        Pick::Ordinal => {
            ||| crate::text::ends_with(l, "th"@)
            ||| crate::text::ends_with(l, "st"@)
            ||| crate::text::ends_with(l, "nd"@)
            ||| crate::text::ends_with(l, "rd"@)
        },
    }
}

/// The first of `items` that `pick` accepts.
pub open spec fn first_where(items: Seq<Seq<char>>, pick: Pick) -> Option<Seq<char>>
    decreases items.len(),
{
    if items.len() == 0 {
        None
    } else if picks(pick, items[0]) {
        Some(items[0])
    } else {
        first_where(items.drop_first(), pick)
    }
}

/// The trade count a direction control's header gives: the first word of
/// what follows its first `, `, when that is a count.
pub open spec fn control_trades(text: Seq<char>) -> Option<nat> {
    control_trades_of(lines(text))
}

/// A `--mode=null-dir` receipt, its figures still as written: the actual
/// profit factor, the column that gives its percentile, the trade count,
/// and whether the actual fell outside its own null.
pub struct DirectionText {
    pub actual_pf: String,
    pub percentile: String,
    pub trades: Option<usize>,
    pub outside: bool,
}

/// What a direction receipt says, when it says enough: the second column of
/// its `actual:` line, the first column of that line that ends like an
/// ordinal, the control's trade count, and whether the receipt says the
/// actual is `Outside its own null`.
pub open spec fn direction_read(text: Seq<char>) -> Option<(Seq<char>, Seq<char>, Option<nat>, bool)> {
    match first_where(lines(text), Pick::Actual) {
        None => None,
        Some(l) => {
            let cols = words(l);
            if cols.len() < 2 {
                None
            } else {
                match first_where(cols, Pick::Ordinal) {
                    None => None,
                    Some(p) => Some((
                        cols[1],
                        p,
                        control_trades(text),
                        crate::text::find_str_from(text, "Outside its own null"@, 0) < text.len(),
                    )),
                }
            }
        },
    }
}

/// Skipping items `pick` refuses leaves the search where it was.
proof fn lemma_first_where_at(items: Seq<Seq<char>>, pick: Pick, k: int)
    requires
        0 <= k <= items.len(),
        forall|i: int| 0 <= i < k ==> !picks(pick, #[trigger] items[i]),
    ensures
        k < items.len() && picks(pick, items[k]) ==> first_where(items, pick) == Some(items[k]),
        k == items.len() ==> first_where(items, pick) is None,
    decreases k,
{
    if k > 0 {
        let rest = items.drop_first();
        assert forall|i: int| 0 <= i < k - 1 implies !picks(pick, #[trigger] rest[i]) by {
            assert(rest[i] == items[i + 1]);
        }
        assert(!picks(pick, items[0]));
        lemma_first_where_at(rest, pick, k - 1);
        if k < items.len() {
            assert(rest[k - 1] == items[k]);
        }
    }
}

/// The first of `items` that `pick` accepts, by position: `items.len()`
/// when there is none.
fn find_pick(items: &Vec<Vec<char>>, pick: Pick) -> (k: usize)
    ensures
        k <= items@.len(),
        k < items@.len() ==> first_where(char_texts(items@), pick) == Some(items@[k as int]@),
        k == items@.len() ==> first_where(char_texts(items@), pick) is None,
{
    let ghost iv = char_texts(items@);
    let actual = chars_of("actual:");
    let control = chars_of("== direction control");
    let th = chars_of("th");
    let st = chars_of("st");
    let nd = chars_of("nd");
    let rd = chars_of("rd");
    let mut k: usize = 0;
    while k < items.len()
        invariant
            k <= items@.len(),
            iv == char_texts(items@),
            actual@ == "actual:"@,
            control@ == "== direction control"@,
            th@ == "th"@,
            st@ == "st"@,
            nd@ == "nd"@,
            rd@ == "rd"@,
            forall|i: int| 0 <= i < k ==> !picks(pick, #[trigger] iv[i]),
        ensures
            k <= items@.len(),
            k < items@.len() ==> picks(pick, iv[k as int]),
            forall|i: int| 0 <= i < k ==> !picks(pick, #[trigger] iv[i]),
        decreases items@.len() - k,
    {
        let item = &items[k];
        assert(iv[k as int] == item@);
        let hit = match pick {
            Pick::Actual => {
                let i = crate::text::skip_ws(item, 0);
                assert(item@.subrange(0, item@.len() as int) =~= item@);
                let h = has_at(item, i, &actual);
                proof {
                    let r = item@.subrange(i as int, item@.len() as int);
                    if actual@.len() <= r.len() {
                        assert(r.subrange(0, actual@.len() as int) =~= item@.subrange(
                            i as int,
                            i + actual@.len(),
                        ));
                    }
                }
                h
            },
            Pick::Control => has_at(item, 0, &control),
            Pick::Ordinal => ends_with_chars(item, &th) || ends_with_chars(item, &st) || ends_with_chars(
                item,
                &nd,
            ) || ends_with_chars(item, &rd),
        };
        if hit {
            break;
        }
        k = k + 1;
    }
    proof {
        lemma_first_where_at(iv, pick, k as int);
    }
    k
}

/// Does `v` end with `p`?
fn ends_with_chars(v: &Vec<char>, p: &Vec<char>) -> (r: bool)
    ensures
        r == crate::text::ends_with(v@, p@),
{
    if p.len() > v.len() {
        return false;
    }
    let at = v.len() - p.len();
    has_at(v, at, p)
}

/// The trade count of a direction receipt's control header.
fn read_control_trades(ls: &Vec<Vec<char>>) -> (r: Option<usize>)
    ensures
        r == (match control_trades_of(char_texts(ls@)) {
            Some(n) => Some(n as usize),
            None => None::<usize>,
        }),
{
    let c = find_pick(ls, Pick::Control);
    if c >= ls.len() {
        return None;
    }
    let comma = chars_of(", ");
    proof {
        reveal_strlit(", ");
    }
    let parts = split_on(&ls[c], &comma);
    if parts.len() < 2 {
        return None;
    }
    let ws = split_words(&parts[1]);
    assert(char_texts(parts@)[1] == parts@[1]@);
    if ws.len() == 0 {
        return None;
    }
    assert(char_texts(ws@)[0] == ws@[0]@);
    crate::text::parse_usize(&ws[0])
}

/// The trade count the control header among a receipt's lines gives.
pub open spec fn control_trades_of(ls: Seq<Seq<char>>) -> Option<nat> {
    match first_where(ls, Pick::Control) {
        None => None,
        Some(l) => {
            let parts = split_str(l, ", "@);
            if parts.len() < 2 || words(parts[1]).len() == 0 {
                None
            } else {
                crate::text::parsed_usize(words(parts[1])[0])
            }
        },
    }
}

/// Read a `--mode=null-dir` receipt: `None` when it has no `actual:` line
/// with a second column and a column that ends like an ordinal.
pub fn read_direction(text: &str) -> (r: Option<DirectionText>)
    ensures
        match direction_read(text@) {
            None => r is None,
            Some((pf, pct, trades, outside)) => r matches Some(d) && d.actual_pf@ == pf && d.percentile@ == pct
                && d.trades == (match trades {
                Some(n) => Some(n as usize),
                None => None::<usize>,
            }) && d.outside == outside,
        },
{
    let all = chars_of(text);
    let ls = split_lines(&all);
    assert(char_texts(ls@) =~= lines(text@)) by {
        assert forall|i: int| 0 <= i < ls@.len() implies char_texts(ls@)[i] == lines(text@)[i] by {}
    }
    let a = find_pick(&ls, Pick::Actual);
    if a >= ls.len() {
        return None;
    }
    let cols = split_words(&ls[a]);
    if cols.len() < 2 {
        return None;
    }
    let p = find_pick(&cols, Pick::Ordinal);
    if p >= cols.len() {
        return None;
    }
    assert(char_texts(cols@)[1] == cols@[1]@);
    let trades = read_control_trades(&ls);
    let pat = chars_of("Outside its own null");
    let at = crate::text::find_str(&all, &pat, 0);
    Some(DirectionText {
        actual_pf: string_of(&cols[1]),
        percentile: string_of(&cols[p]),
        trades,
        outside: at < all.len(),
    })
}

} // verus!
