//! The broker accounts behind the paper books, folded from what each book's
//! executor last reported.
//!
//! Every book that mirrors to a broker leaves a snapshot of the account it
//! trades on. Several books can share one account, a configured account can
//! have no book running, and a book left behind by a stopped executor still
//! has its last snapshot on disk. The fold decides, per account, which
//! snapshots describe it now, which one's figures win, whether it is sending
//! real orders, and which books mirror it.
use vstd::prelude::*;

use crate::text::chars_of;

verus! {

broadcast use vstd::string::group_string_axioms;

/* ------------------------------------------------- the order of run ids */

/// `a` sorts at or before `b`: code point by code point, a prefix first.
/// The order of `String`'s `Ord`, since UTF-8 keeps code point order.
pub open spec fn lex_le(a: Seq<char>, b: Seq<char>) -> bool
    decreases a.len(),
{
    if a.len() == 0 {
        true
    } else if b.len() == 0 {
        false
    } else if a[0] != b[0] {
        a[0] < b[0]
    } else {
        lex_le(a.drop_first(), b.drop_first())
    }
}

/// Any two ids are ordered one way or the other.
pub proof fn lemma_lex_total(a: Seq<char>, b: Seq<char>)
    ensures
        lex_le(a, b) || lex_le(b, a),
    decreases a.len(),
{
    if a.len() > 0 && b.len() > 0 && a[0] == b[0] {
        lemma_lex_total(a.drop_first(), b.drop_first());
    }
}

/// Every id sorts at or before itself.
pub proof fn lemma_lex_refl(a: Seq<char>)
    ensures
        lex_le(a, a),
    decreases a.len(),
{
    if a.len() > 0 {
        lemma_lex_refl(a.drop_first());
    }
}

/// Two ids that each sort at or before the other are the same.
pub proof fn lemma_lex_antisym(a: Seq<char>, b: Seq<char>)
    requires
        lex_le(a, b),
        lex_le(b, a),
    ensures
        a == b,
    decreases a.len(),
{
    if a.len() > 0 && b.len() > 0 {
        lemma_lex_antisym(a.drop_first(), b.drop_first());
        assert(a =~= seq![a[0]] + a.drop_first());
        assert(b =~= seq![b[0]] + b.drop_first());
    }
}

/// The order is transitive.
pub proof fn lemma_lex_trans(a: Seq<char>, b: Seq<char>, c: Seq<char>)
    requires
        lex_le(a, b),
        lex_le(b, c),
    ensures
        lex_le(a, c),
    decreases a.len(),
{
    if a.len() > 0 && b.len() > 0 && c.len() > 0 && a[0] == b[0] && b[0] == c[0] {
        lemma_lex_trans(a.drop_first(), b.drop_first(), c.drop_first());
    }
}

/// Ids in order.
pub open spec fn sorted_ids(s: Seq<Seq<char>>) -> bool {
    forall|i: int, j: int| 0 <= i < j < s.len() ==> lex_le(#[trigger] s[i], #[trigger] s[j])
}

/// The texts of a list of strings.
pub open spec fn texts(v: Seq<String>) -> Seq<Seq<char>> {
    v.map_values(|s: String| s@)
}

/// Does `a` sort at or before `b`?
pub(crate) fn lex_le_chars(a: &Vec<char>, b: &Vec<char>) -> (r: bool)
    ensures
        r == lex_le(a@, b@),
{
    let mut i: usize = 0;
    assert(a@.subrange(0, a@.len() as int) =~= a@);
    assert(b@.subrange(0, b@.len() as int) =~= b@);
    while i < a.len() && i < b.len() && a[i] == b[i]
        invariant
            i <= a@.len(),
            i <= b@.len(),
            lex_le(a@, b@) == lex_le(a@.subrange(i as int, a@.len() as int), b@.subrange(i as int, b@.len() as int)),
        decreases a@.len() - i,
    {
        let ghost sa = a@.subrange(i as int, a@.len() as int);
        let ghost sb = b@.subrange(i as int, b@.len() as int);
        assert(sa.drop_first() =~= a@.subrange(i + 1, a@.len() as int));
        assert(sb.drop_first() =~= b@.subrange(i + 1, b@.len() as int));
        i = i + 1;
    }
    let ghost sa = a@.subrange(i as int, a@.len() as int);
    let ghost sb = b@.subrange(i as int, b@.len() as int);
    if i == a.len() {
        assert(sa.len() == 0);
        true
    } else if i == b.len() {
        assert(sb.len() == 0 && sa.len() > 0);
        false
    } else {
        assert(sa[0] == a@[i as int] && sb[0] == b@[i as int]);
        a[i] < b[i]
    }
}

/// Put `id` into the ordered list `ids`, keeping it ordered.
fn insert_sorted(ids: &mut Vec<String>, id: String)
    requires
        sorted_ids(texts(old(ids)@)),
    ensures
        sorted_ids(texts(final(ids)@)),
        texts(final(ids)@).to_multiset() == texts(old(ids)@).to_multiset().insert(id@),
{
    let x = chars_of(id.as_str());
    let mut p: usize = 0;
    while p < ids.len() && lex_le_chars(&chars_of(ids[p].as_str()), &x)
        invariant
            p <= ids@.len(),
            x@ == id@,
            forall|k: int| 0 <= k < p ==> lex_le(#[trigger] texts(ids@)[k], id@),
        decreases ids@.len() - p,
    {
        p = p + 1;
    }
    let ghost before = texts(ids@);
    proof {
        if p < ids@.len() {
            assert(!lex_le(before[p as int], id@));
            lemma_lex_total(before[p as int], id@);
            assert forall|k: int| p <= k < before.len() implies lex_le(id@, #[trigger] before[k]) by {
                if k > p {
                    lemma_lex_trans(id@, before[p as int], before[k]);
                }
            }
        }
    }
    ids.insert(p, id);
    proof {
        let after = texts(ids@);
        assert(after =~= before.insert(p as int, id@));
        vstd::seq_lib::to_multiset_insert(before, p as int, id@);
        assert forall|i: int, j: int| 0 <= i < j < after.len() implies lex_le(#[trigger] after[i], #[trigger] after[j]) by {
            if i < p && j < p {
                assert(after[i] == before[i] && after[j] == before[j]);
            } else if i < p && j == p {
            } else if i < p {
                assert(after[i] == before[i] && after[j] == before[j - 1]);
                lemma_lex_trans(before[i], id@, before[j - 1]);
            } else if i == p {
                assert(after[j] == before[j - 1]);
            } else {
                assert(after[i] == before[i - 1] && after[j] == before[j - 1]);
            }
        }
    }
}

/* ------------------------------------------------------------ the fold */

/// How far behind the freshest snapshot on an account a book's snapshot may
/// be and still describe the account as it is now.
pub const MIRROR_LAG_MS: i64 = 60_000;

/// One book's last snapshot of its broker account, as far as the fold reads
/// it.
pub struct Seen {
    /// The book (run id) that wrote it.
    pub run: String,
    /// The account's login, when the executor reported one.
    pub login: Option<i64>,
    /// Epoch ms it was taken.
    pub at: i64,
    /// Whether the executor is only watching, when it said.
    pub dry_run: Option<bool>,
    /// Whether the book holds a position on the broker.
    pub holding: bool,
    /// The broker server, when reported.
    pub server: Option<String>,
}

/// An account from the registry of configured accounts.
pub struct Configured {
    pub login: i64,
    pub server: Option<String>,
    /// The registry's intent: only watching, or sending real orders.
    pub dry_run: bool,
}

/// One account as the fold leaves it. The figures it reports (balance,
/// equity and the rest) are those of snapshot `numbers_from`.
pub struct Account {
    pub login: i64,
    /// The registry entry that configures it, if any.
    pub registry: Option<usize>,
    /// The first snapshot that names it, if any.
    pub first_seen: Option<usize>,
    /// The snapshot whose figures the account shows, if any.
    pub numbers_from: Option<usize>,
    pub server: Option<String>,
    /// Epoch ms of the snapshot the figures are from; 0 for none.
    pub at: i64,
    /// Only watching: every book reporting now is a dry run.
    pub dry_run: bool,
    /// The books reporting now, by id, in order.
    pub mirroring: Vec<String>,
    /// How many of them hold a position.
    pub positions: usize,
}

/// The text of an optional string.
pub open spec fn opt_text(s: Option<String>) -> Option<Seq<char>> {
    match s {
        Some(t) => Some(t@),
        None => None,
    }
}

/// The newest stamp among `seen[..k]` on account `login`.
pub open spec fn newest_in(seen: Seq<Seen>, login: i64, k: int) -> Option<i64>
    decreases k,
{
    if k <= 0 {
        None
    } else {
        let r = newest_in(seen, login, k - 1);
        if seen[k - 1].login == Some(login) {
            match r {
                Some(m) => Some(if seen[k - 1].at > m { seen[k - 1].at } else { m }),
                None => Some(seen[k - 1].at),
            }
        } else {
            r
        }
    }
}

/// The newest stamp on account `login`, 0 when nothing names it.
pub open spec fn newest(seen: Seq<Seen>, login: i64) -> int {
    match newest_in(seen, login, seen.len() as int) {
        Some(m) => m as int,
        None => 0,
    }
}

/// Every account's newest stamp less the lag is still a stamp.
pub open spec fn lags_fit(seen: Seq<Seen>) -> bool {
    forall|i: int|
        0 <= i < seen.len() && (#[trigger] seen[i]).login is Some ==> newest(seen, seen[i].login->0)
            >= i64::MIN + MIRROR_LAG_MS
}

/// Snapshot `i` is of account `login` and describes it as it is now: it is
/// no more than the lag behind the account's freshest.
pub open spec fn describes_now(seen: Seq<Seen>, i: int, login: i64) -> bool {
    seen[i].login == Some(login) && seen[i].at >= newest(seen, login) - MIRROR_LAG_MS
}

/// What the snapshots of one account say, read in order.
pub struct Tally {
    /// The stamp of the freshest so far (0 before any).
    pub at: int,
    /// The first snapshot with that stamp.
    pub freshest: Option<int>,
    /// Whether every one so far is a dry run; `None` before any.
    pub dry_run: Option<bool>,
    pub positions: nat,
    pub ids: Seq<Seq<char>>,
    /// The server: the one it started with, else that of the first snapshot
    /// to become the freshest while none was known.
    pub server: Option<Seq<char>>,
}

/// The tally of `seen[..k]` for `login`, from server `start`. Snapshots that
/// do not describe the account now are passed over; a snapshot's figures win
/// only when they are newer than the ones held; one book sending real orders
/// makes the account live, however many others only watch.
pub open spec fn tally(seen: Seq<Seen>, login: i64, start: Option<Seq<char>>, k: int) -> Tally
    decreases k,
{
    if k <= 0 {
        Tally { at: 0, freshest: None, dry_run: None, positions: 0, ids: Seq::empty(), server: start }
    } else {
        let t = tally(seen, login, start, k - 1);
        let s = seen[k - 1];
        if !describes_now(seen, k - 1, login) {
            t
        } else {
            let fresher = s.at > t.at;
            Tally {
                at: if fresher { s.at as int } else { t.at },
                freshest: if fresher { Some(k - 1) } else { t.freshest },
                dry_run: Some(
                    (match t.dry_run {
                        Some(d) => d,
                        None => true,
                    }) && (match s.dry_run {
                        Some(d) => d,
                        None => false,
                    }),
                ),
                positions: if s.holding { t.positions + 1 } else { t.positions },
                ids: t.ids.push(s.run@),
                server: if fresher && t.server is None { opt_text(s.server) } else { t.server },
            }
        }
    }
}

/// The first registry entry among `reg[..k]` for `login`.
pub open spec fn first_configured(reg: Seq<Configured>, login: i64, k: int) -> Option<int>
    decreases k,
{
    if k <= 0 {
        None
    } else {
        match first_configured(reg, login, k - 1) {
            Some(i) => Some(i),
            None => if reg[k - 1].login == login { Some(k - 1) } else { None },
        }
    }
}

/// The first snapshot among `seen[..k]` naming `login`.
pub open spec fn first_naming(seen: Seq<Seen>, login: i64, k: int) -> Option<int>
    decreases k,
{
    if k <= 0 {
        None
    } else {
        match first_naming(seen, login, k - 1) {
            Some(i) => Some(i),
            None => if seen[k - 1].login == Some(login) { Some(k - 1) } else { None },
        }
    }
}

/// An account the registry configures or a snapshot names.
pub open spec fn known(reg: Seq<Configured>, seen: Seq<Seen>, login: i64) -> bool {
    (exists|i: int| 0 <= i < reg.len() && (#[trigger] reg[i]).login == login) || (exists|i: int|
        0 <= i < seen.len() && (#[trigger] seen[i]).login == Some(login))
}

/// The server an account starts from: the registry's, or for an account the
/// registry does not know, its first snapshot's.
pub open spec fn start_server(reg: Seq<Configured>, seen: Seq<Seen>, login: i64) -> Option<Seq<char>> {
    match first_configured(reg, login, reg.len() as int) {
        Some(i) => opt_text(reg[i].server),
        None => match first_naming(seen, login, seen.len() as int) {
            Some(j) => opt_text(seen[j].server),
            None => None,
        },
    }
}

/// `a` is what the fold makes of account `a.login`.
pub open spec fn is_account(reg: Seq<Configured>, seen: Seq<Seen>, a: Account) -> bool {
    let r = first_configured(reg, a.login, reg.len() as int);
    let f = first_naming(seen, a.login, seen.len() as int);
    let t = tally(seen, a.login, start_server(reg, seen, a.login), seen.len() as int);
    &&& a.registry == (match r {
        Some(i) => Some(i as usize),
        None => None::<usize>,
    })
    &&& a.first_seen == (match f {
        Some(i) => Some(i as usize),
        None => None::<usize>,
    })
    &&& a.numbers_from == (match t.freshest {
        Some(i) => Some(i as usize),
        None => if r is None {
            a.first_seen
        } else {
            None
        },
    })
    &&& opt_text(a.server) == t.server
    &&& a.at == t.at
    &&& a.dry_run == (match t.dry_run {
        Some(d) => d,
        None => match r {
            Some(i) => reg[i].dry_run,
            None => true,
        },
    })
    &&& a.positions == t.positions
    &&& sorted_ids(texts(a.mirroring@))
    &&& texts(a.mirroring@).to_multiset() == t.ids.to_multiset()
}

/// A stamp on `login` among `seen[..k]` is at most the newest.
proof fn lemma_newest_covers(seen: Seq<Seen>, login: i64, k: int, i: int)
    requires
        0 <= i < k <= seen.len(),
        seen[i].login == Some(login),
    ensures
        newest_in(seen, login, k) matches Some(m) && m >= seen[i].at,
    decreases k,
{
    if i < k - 1 {
        lemma_newest_covers(seen, login, k - 1, i);
    }
}

/// The searches find indices inside what they search.
proof fn lemma_found_inside(reg: Seq<Configured>, seen: Seq<Seen>, login: i64, st: Option<Seq<char>>, k: int, j: int)
    requires
        0 <= k <= reg.len(),
        0 <= j <= seen.len(),
    ensures
        first_configured(reg, login, k) matches Some(i) ==> 0 <= i < k && reg[i].login == login,
        first_naming(seen, login, j) matches Some(i) ==> 0 <= i < j && seen[i].login == Some(login),
        tally(seen, login, st, j).freshest matches Some(i) ==> 0 <= i < j,
    decreases k + j,
{
    if k > 0 {
        lemma_found_inside(reg, seen, login, st, k - 1, j);
    }
    if j > 0 {
        lemma_found_inside(reg, seen, login, st, k, j - 1);
    }
}

/// The text of a copy of an optional string.
fn copy_opt(s: &Option<String>) -> (r: Option<String>)
    ensures
        opt_text(r) == opt_text(*s),
{
    match s {
        Some(t) => Some(t.clone()),
        None => None,
    }
}

/// Is `login` what this optional login says?
fn names(l: Option<i64>, login: i64) -> (r: bool)
    ensures
        r == (l == Some(login)),
{
    match l {
        Some(x) => x == login,
        None => false,
    }
}

/// The newest stamp on `login`.
fn newest_of(seen: &Vec<Seen>, login: i64) -> (r: Option<i64>)
    ensures
        r == newest_in(seen@, login, seen@.len() as int),
{
    let mut r: Option<i64> = None;
    let mut i: usize = 0;
    while i < seen.len()
        invariant
            i <= seen@.len(),
            r == newest_in(seen@, login, i as int),
        decreases seen@.len() - i,
    {
        if names(seen[i].login, login) {
            let at = seen[i].at;
            r = match r {
                Some(m) => Some(if at > m { at } else { m }),
                None => Some(at),
            };
        }
        i = i + 1;
    }
    r
}

/// What the fold makes of account `login`.
fn account_of(reg: &Vec<Configured>, seen: &Vec<Seen>, login: i64) -> (a: Account)
    requires
        lags_fit(seen@),
    ensures
        a.login == login,
        is_account(reg@, seen@, a),
{
    let mut r: Option<usize> = None;
    let mut i: usize = 0;
    while i < reg.len()
        invariant
            i <= reg@.len(),
            r == (match first_configured(reg@, login, i as int) {
                Some(k) => Some(k as usize),
                None => None::<usize>,
            }),
            r matches Some(k) ==> k < i,
        decreases reg@.len() - i,
    {
        if r.is_none() && reg[i].login == login {
            r = Some(i);
        }
        i = i + 1;
    }
    let mut f: Option<usize> = None;
    let mut i: usize = 0;
    while i < seen.len()
        invariant
            i <= seen@.len(),
            f == (match first_naming(seen@, login, i as int) {
                Some(k) => Some(k as usize),
                None => None::<usize>,
            }),
            f matches Some(k) ==> k < i,
        decreases seen@.len() - i,
    {
        if f.is_none() && names(seen[i].login, login) {
            f = Some(i);
        }
        i = i + 1;
    }
    let start: Option<String> = match r {
        Some(k) => copy_opt(&reg[k].server),
        None => match f {
            Some(j) => copy_opt(&seen[j].server),
            None => None,
        },
    };
    let ghost st = opt_text(start);
    proof {
        lemma_found_inside(reg@, seen@, login, st, reg@.len() as int, seen@.len() as int);
    }
    assert(st == start_server(reg@, seen@, login));
    let newest = newest_of(seen, login);
    let mut at: i64 = 0;
    let mut freshest: Option<usize> = None;
    let mut dry: Option<bool> = None;
    let mut positions: usize = 0;
    let mut ids: Vec<String> = Vec::new();
    let mut server: Option<String> = start;
    assert(texts(ids@) =~= Seq::<Seq<char>>::empty());
    let mut i: usize = 0;
    while i < seen.len()
        invariant
            i <= seen@.len(),
            lags_fit(seen@),
            newest == newest_in(seen@, login, seen@.len() as int),
            ({
                let t = tally(seen@, login, st, i as int);
                &&& at == t.at
                &&& freshest == (match t.freshest {
                    Some(k) => Some(k as usize),
                    None => None::<usize>,
                })
                &&& dry == t.dry_run
                &&& positions == t.positions
                &&& opt_text(server) == t.server
                &&& sorted_ids(texts(ids@))
                &&& texts(ids@).to_multiset() == t.ids.to_multiset()
            }),
            positions <= i,
            at >= 0,
            freshest matches Some(k) ==> k < i,
        decreases seen@.len() - i,
    {
        let ghost t = tally(seen@, login, st, i as int);
        let s = &seen[i];
        let mut now = false;
        if names(s.login, login) {
            proof {
                lemma_newest_covers(seen@, login, seen@.len() as int, i as int);
                assert(seen@[i as int].login is Some);
            }
            match newest {
                Some(n) => {
                    now = s.at >= n - MIRROR_LAG_MS;
                },
                None => {},
            }
        }
        assert(now == describes_now(seen@, i as int, login));
        if now {
            let fresher = s.at > at;
            if fresher {
                at = s.at;
                freshest = Some(i);
                if server.is_none() {
                    server = copy_opt(&s.server);
                }
            }
            let was = match dry {
                Some(d) => d,
                None => true,
            };
            let this = match s.dry_run {
                Some(d) => d,
                None => false,
            };
            dry = Some(was && this);
            if s.holding {
                positions = positions + 1;
            }
            let ghost before = texts(ids@);
            insert_sorted(&mut ids, s.run.clone());
            proof {
                vstd::seq_lib::to_multiset_build(t.ids, s.run@);
            }
        }
        i = i + 1;
    }
    proof {
        lemma_found_inside(reg@, seen@, login, st, reg@.len() as int, seen@.len() as int);
    }
    let numbers_from = match freshest {
        Some(k) => Some(k),
        None => if r.is_none() {
            f
        } else {
            None
        },
    };
    let dry_run = match dry {
        Some(d) => d,
        None => match r {
            Some(k) => reg[k].dry_run,
            None => true,
        },
    };
    Account { login, registry: r, first_seen: f, numbers_from, server, at, dry_run, mirroring: ids, positions }
}

/// `l` comes after `last` (anything does, after nothing).
pub open spec fn after(last: Option<i64>, l: i64) -> bool {
    match last {
        Some(m) => l > m,
        None => true,
    }
}

/// The least known login after `last`, if there is one.
fn next_login(reg: &Vec<Configured>, seen: &Vec<Seen>, last: Option<i64>) -> (r: Option<i64>)
    ensures
        r matches Some(l) ==> known(reg@, seen@, l) && after(last, l) && forall|x: i64|
            known(reg@, seen@, x) && after(last, x) ==> l <= x,
        r is None ==> forall|x: i64| known(reg@, seen@, x) ==> !after(last, x),
{
    let mut best: Option<i64> = None;
    let mut i: usize = 0;
    while i < reg.len()
        invariant
            i <= reg@.len(),
            best matches Some(b) ==> known(reg@, seen@, b) && after(last, b),
            forall|j: int| 0 <= j < i && after(last, (#[trigger] reg@[j]).login) ==> (best matches Some(b) && b
                <= reg@[j].login),
        decreases reg@.len() - i,
    {
        let l = reg[i].login;
        let later = match last {
            Some(m) => l > m,
            None => true,
        };
        let better = match best {
            Some(b) => l < b,
            None => true,
        };
        if later && better {
            assert(reg@[i as int].login == l);
            best = Some(l);
        }
        i = i + 1;
    }
    let mut i: usize = 0;
    while i < seen.len()
        invariant
            i <= seen@.len(),
            best matches Some(b) ==> known(reg@, seen@, b) && after(last, b),
            forall|j: int| 0 <= j < reg@.len() && after(last, (#[trigger] reg@[j]).login) ==> (best matches Some(b)
                && b <= reg@[j].login),
            forall|j: int|
                0 <= j < i && (#[trigger] seen@[j]).login is Some && after(last, seen@[j].login->0) ==> (best matches Some(
                    b,
                ) && b <= seen@[j].login->0),
        decreases seen@.len() - i,
    {
        match seen[i].login {
            Some(l) => {
                let later = match last {
                    Some(m) => l > m,
                    None => true,
                };
                let better = match best {
                    Some(b) => l < b,
                    None => true,
                };
                if later && better {
                    assert(seen@[i as int].login == Some(l));
                    best = Some(l);
                }
            },
            None => {},
        }
        i = i + 1;
    }
    proof {
        assert forall|x: i64| known(reg@, seen@, x) && after(last, x) implies (best matches Some(b) && b <= x) by {
            if exists|j: int| 0 <= j < reg@.len() && (#[trigger] reg@[j]).login == x {
                let j = choose|j: int| 0 <= j < reg@.len() && (#[trigger] reg@[j]).login == x;
                assert(after(last, reg@[j].login));
            } else {
                let j = choose|j: int| 0 <= j < seen@.len() && (#[trigger] seen@[j]).login == Some(x);
                assert(seen@[j].login is Some && after(last, seen@[j].login->0));
            }
        }
    }
    best
}

/// The accounts, by login ascending: every account the registry configures
/// or a snapshot names, once, each as the fold makes it. A configured
/// account appears whether or not a book reports on it; a snapshot's numbers
/// never change what the registry intends.
pub fn fold_accounts(reg: &Vec<Configured>, seen: &Vec<Seen>) -> (out: Vec<Account>)
    requires
        lags_fit(seen@),
    ensures
        forall|i: int, j: int| 0 <= i < j < out@.len() ==> (#[trigger] out@[i]).login < (#[trigger] out@[j]).login,
        forall|i: int|
            0 <= i < out@.len() ==> known(reg@, seen@, (#[trigger] out@[i]).login) && is_account(
                reg@,
                seen@,
                out@[i],
            ),
        forall|l: i64| known(reg@, seen@, l) ==> exists|i: int| 0 <= i < out@.len() && (#[trigger] out@[i]).login == l,
{
    let mut out: Vec<Account> = Vec::new();
    let mut last: Option<i64> = None;
    loop
        invariant
            lags_fit(seen@),
            forall|i: int, j: int| 0 <= i < j < out@.len() ==> (#[trigger] out@[i]).login < (#[trigger] out@[j]).login,
            forall|i: int|
                0 <= i < out@.len() ==> known(reg@, seen@, (#[trigger] out@[i]).login) && is_account(
                    reg@,
                    seen@,
                    out@[i],
                ),
            last matches Some(m) ==> out@.len() > 0 && out@.last().login == m,
            last is None ==> out@.len() == 0,
            forall|l: i64| known(reg@, seen@, l) && !after(last, l) ==> exists|i: int| 0 <= i < out@.len() && (#[trigger] out@[i]).login == l,
        ensures
            forall|i: int, j: int| 0 <= i < j < out@.len() ==> (#[trigger] out@[i]).login < (#[trigger] out@[j]).login,
            forall|i: int|
                0 <= i < out@.len() ==> known(reg@, seen@, (#[trigger] out@[i]).login) && is_account(
                    reg@,
                    seen@,
                    out@[i],
                ),
            forall|l: i64| known(reg@, seen@, l) ==> exists|i: int| 0 <= i < out@.len() && (#[trigger] out@[i]).login == l,
        decreases (match last {
            Some(m) => i64::MAX - m,
            None => i64::MAX as int - i64::MIN as int + 1,
        }),
    {
        match next_login(reg, seen, last) {
            None => {
                proof {
                    assert forall|x: i64| known(reg@, seen@, x) implies exists|i: int|
                        0 <= i < out@.len() && (#[trigger] out@[i]).login == x by {
                        assert(!after(last, x));
                    }
                }
                break;
            },
            Some(l) => {
                let a = account_of(reg, seen, l);
                let ghost before = out@;
                out.push(a);
                proof {
                    assert forall|x: i64| known(reg@, seen@, x) && !after(Some(l), x) implies exists|i: int|
                        0 <= i < out@.len() && (#[trigger] out@[i]).login == x by {
                        if after(last, x) {
                            assert(x == l);
                            assert(out@[out@.len() - 1].login == x);
                        } else {
                            let i = choose|i: int| 0 <= i < before.len() && (#[trigger] before[i]).login == x;
                            assert(out@[i].login == x);
                        }
                    }
                }
                last = Some(l);
            },
        }
    }
    out
}

/* ------------------------------------------------------------ the laws */

/// The newest stamp is some snapshot's stamp.
proof fn lemma_newest_attained(seen: Seq<Seen>, login: i64, k: int)
    requires
        0 <= k <= seen.len(),
    ensures
        newest_in(seen, login, k) matches Some(m) ==> exists|i: int|
            0 <= i < k && (#[trigger] seen[i]).login == Some(login) && seen[i].at == m,
    decreases k,
{
    if k > 0 {
        lemma_newest_attained(seen, login, k - 1);
        if seen[k - 1].login == Some(login) {
            let m = newest_in(seen, login, k).unwrap();
            if m != seen[k - 1].at {
                let i = choose|i: int| 0 <= i < k - 1 && (#[trigger] seen[i]).login == Some(login) && seen[i].at == m;
                assert(seen[i].login == Some(login) && seen[i].at == m);
            }
        }
    }
}

/// The tally's stamp is the greatest of the snapshots that count, and its
/// freshest snapshot carries it.
proof fn lemma_tally_max(seen: Seq<Seen>, login: i64, st: Option<Seq<char>>, k: int)
    requires
        0 <= k <= seen.len(),
    ensures
        forall|i: int| 0 <= i < k && describes_now(seen, i, login) ==> seen[i].at <= #[trigger] tally(seen, login, st, k).at,
        tally(seen, login, st, k).freshest matches Some(j) ==> 0 <= j < k && describes_now(seen, j, login)
            && seen[j].at == tally(seen, login, st, k).at,
        tally(seen, login, st, k).freshest is None ==> tally(seen, login, st, k).at == 0,
    decreases k,
{
    if k > 0 {
        lemma_tally_max(seen, login, st, k - 1);
    }
}

/// Whether the snapshots that count are all dry runs.
proof fn lemma_tally_dry(seen: Seq<Seen>, login: i64, st: Option<Seq<char>>, k: int)
    requires
        0 <= k <= seen.len(),
    ensures
        tally(seen, login, st, k).dry_run is None <==> !exists|i: int| 0 <= i < k && #[trigger] describes_now(seen, i, login),
        tally(seen, login, st, k).dry_run matches Some(d) ==> (d <==> forall|i: int|
            0 <= i < k && #[trigger] describes_now(seen, i, login) ==> seen[i].dry_run == Some(true)),
    decreases k,
{
    if k > 0 {
        lemma_tally_dry(seen, login, st, k - 1);
        let t = tally(seen, login, st, k);
        if describes_now(seen, k - 1, login) {
            assert(exists|i: int| 0 <= i < k && #[trigger] describes_now(seen, i, login));
        } else {
            assert forall|i: int| 0 <= i < k && #[trigger] describes_now(seen, i, login) implies i < k - 1 by {}
        }
    }
}

/// The figures an account shows are those of its newest snapshot, when
/// that snapshot is stamped after the epoch: no older book's remembered
/// figures win over a newer one's.
pub proof fn lemma_figures_come_from_the_newest(reg: Seq<Configured>, seen: Seq<Seen>, a: Account)
    requires
        is_account(reg, seen, a),
        seen.len() <= usize::MAX,
        newest_in(seen, a.login, seen.len() as int) is Some,
        newest(seen, a.login) > 0,
    ensures
        a.numbers_from matches Some(i) && seen[i as int].login == Some(a.login) && seen[i as int].at == newest(
            seen,
            a.login,
        ),
{
    let login = a.login;
    let st = start_server(reg, seen, login);
    let n = seen.len() as int;
    lemma_newest_attained(seen, login, n);
    let m = newest_in(seen, login, n).unwrap();
    let w = choose|i: int| 0 <= i < n && (#[trigger] seen[i]).login == Some(login) && seen[i].at == m;
    assert(describes_now(seen, w, login));
    lemma_tally_max(seen, login, st, n);
    let t = tally(seen, login, st, n);
    assert(seen[w].at <= t.at);
    assert(t.freshest is Some);
    let j = t.freshest.unwrap();
    assert(0 <= j < n && describes_now(seen, j, login) && seen[j].at == t.at);
    lemma_newest_covers(seen, login, n, j);
    assert(seen[j].at == m);
    assert(a.numbers_from == Some(j as usize));
    assert((j as usize) as int == j);
}

/// An account is only watching exactly when every book reporting on it now
/// is a dry run: one book sending real orders makes it live. With no book
/// reporting now, the registry's intent stands.
pub proof fn lemma_live_if_any_book_is(reg: Seq<Configured>, seen: Seq<Seen>, a: Account)
    requires
        is_account(reg, seen, a),
    ensures
        (exists|i: int| 0 <= i < seen.len() && #[trigger] describes_now(seen, i, a.login)) ==> (a.dry_run
            <==> forall|i: int|
            0 <= i < seen.len() && #[trigger] describes_now(seen, i, a.login) ==> seen[i].dry_run == Some(true)),
        !(exists|i: int| 0 <= i < seen.len() && #[trigger] describes_now(seen, i, a.login)) ==> a.dry_run == (
        match first_configured(reg, a.login, reg.len() as int) {
            Some(r) => reg[r].dry_run,
            None => true,
        }),
{
    lemma_tally_dry(seen, a.login, start_server(reg, seen, a.login), seen.len() as int);
}

} // verus!
