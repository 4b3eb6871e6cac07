//! One-minute bars folded from the tick feed: the rules that decide what a
//! tick is and where it lands, apart from the prices it carries.
//!
//! A tick is refused when it carries no quote or is stamped before the last
//! accepted one (the clock stepped back, and a minute already served must
//! not grow); it is a duplicate when its quote is the last accepted quote
//! again, under whatever stamp; otherwise it is folded into the minute its
//! stamp falls in.
use vstd::prelude::*;

use crate::error::ApiError;
use crate::text::push_str;

verus! {

/// A minute, in milliseconds.
pub const MINUTE_MS: i64 = 60_000;

/// Complete minutes kept: twelve hours.
pub const RING_MINUTES: usize = 720;

/// Complete minutes sent when a query does not say.
pub const DEFAULT_N: usize = 60;

/// What became of one tick.
#[derive(Clone, Copy, PartialEq, Eq, Structural)]
pub enum Fold {
    /// Folded into the forming minute, or opened a new one.
    Folded,
    /// The same quote again: not counted, not an error.
    Duplicate,
    /// Refused: older than the last accepted tick, or posted without a quote.
    Dropped,
}

/// `GET /api/paper/m1`'s query.
pub struct M1Query {
    pub market: String,
    /// Complete minutes wanted, newest `n`.
    pub n: Option<usize>,
}

/// What a tick stamped `at` is, given whether it carries a quote, the stamp
/// of the last accepted tick, and whether its quote is that tick's quote.
pub open spec fn fold_of(has_quote: bool, last_at: Option<i64>, at: i64, same_quote: bool) -> Fold {
    if !has_quote {
        Fold::Dropped
    } else {
        match last_at {
            Some(l) => if at < l {
                Fold::Dropped
            } else if same_quote {
                Fold::Duplicate
            } else {
                Fold::Folded
            },
            None => Fold::Folded,
        }
    }
}

/// Judge one tick: refused without a quote or out of order, a duplicate
/// when its quote is the last accepted one, folded otherwise. An equal stamp
/// is in order.
pub fn judge_tick(has_quote: bool, last_at: Option<i64>, at: i64, same_quote: bool) -> (f: Fold)
    ensures
        f == fold_of(has_quote, last_at, at, same_quote),
{
    if !has_quote {
        return Fold::Dropped;
    }
    match last_at {
        Some(l) => if at < l {
            Fold::Dropped
        } else if same_quote {
            Fold::Duplicate
        } else {
            Fold::Folded
        },
        None => Fold::Folded,
    }
}

/// The minute a stamp falls in: its start, rounding down, negative stamps
/// included.
pub fn minute_of(at: i64) -> (m: i64)
    requires
        at >= i64::MIN + MINUTE_MS,
    ensures
        m == (at as int) / (MINUTE_MS as int) * (MINUTE_MS as int),
{
    let a = at as i128;
    let q: i128 = if a >= 0 { a / 60_000 } else { 0 - ((0 - a + 59_999) / 60_000) };
    proof {
        if a < 0 {
            let b = 0 - a;
            assert(q == -((b + 59_999) / 60_000));
            assert((at as int) / 60_000 == q) by (nonlinear_arith)
                requires
                    b == -(at as int),
                    b > 0,
                    q == -((b + 59_999) / 60_000);
        } else {
            assert(q == (at as int) / 60_000);
        }
        assert(at - 60_000 < q * 60_000 <= at) by (nonlinear_arith)
            requires
                q == (at as int) / 60_000;
    }
    (q * 60_000) as i64
}

/// How many complete minutes a query gets: its `n`, or [`DEFAULT_N`];
/// refused beyond what is kept.
pub fn minutes_wanted(n: Option<usize>) -> (r: Result<usize, ApiError>)
    ensures
        ({
            let asked = match n {
                Some(k) => k,
                None => DEFAULT_N,
            };
            &&& asked <= RING_MINUTES ==> r == Ok::<usize, ApiError>(asked)
            &&& asked > RING_MINUTES ==> (r matches Err(ApiError::BadRequest(m)) && m@ == "n="@
                + crate::text::decimal(asked as nat)
                + ": at most 720 complete minutes are kept (twelve hours, in memory); ask for 720 or fewer"@)
        }),
{
    let asked = match n {
        Some(k) => k,
        None => DEFAULT_N,
    };
    if asked > RING_MINUTES {
        let mut m = String::new();
        push_str(&mut m, "n=");
        crate::text::push_decimal(&mut m, asked as u64);
        push_str(&mut m, ": at most 720 complete minutes are kept (twelve hours, in memory); ask for 720 or fewer");
        return Err(ApiError::BadRequest(m));
    }
    Ok(asked)
}

/// What a tick is, by its quote and its stamp alone: without a quote it is
/// dropped; older than the last accepted tick it is dropped; at or after it,
/// the last accepted quote again is a duplicate whatever its stamp, and any
/// other quote is folded; with nothing accepted yet, every quoted tick is
/// folded.
pub proof fn lemma_a_tick_is_judged_by_its_quote(has_quote: bool, last_at: Option<i64>, at: i64, same_quote: bool)
    ensures
        !has_quote ==> fold_of(has_quote, last_at, at, same_quote) == Fold::Dropped,
        has_quote && last_at is None ==> fold_of(has_quote, last_at, at, same_quote) == Fold::Folded,
        has_quote && (last_at matches Some(l) && at < l) ==> fold_of(has_quote, last_at, at, same_quote)
            == Fold::Dropped,
        has_quote && same_quote && (last_at matches Some(l) && at >= l) ==> fold_of(has_quote, last_at, at, same_quote)
            == Fold::Duplicate,
        has_quote && !same_quote && (last_at matches Some(l) && at >= l) ==> fold_of(has_quote, last_at, at, same_quote)
            == Fold::Folded,
{
}

/// The stamp only orders: the same tick judged at two stamps that are both
/// in order, equal to the last accepted one or later, is judged alike.
pub proof fn lemma_the_stamp_only_orders(has_quote: bool, last: i64, a: i64, b: i64, same_quote: bool)
    requires
        a >= last,
        b >= last,
    ensures
        fold_of(has_quote, Some(last), a, same_quote) == fold_of(has_quote, Some(last), b, same_quote),
{
}

} // verus!
