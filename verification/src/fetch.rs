//! The time-windowed activity-retrieval protocol.
//!
//! The remote trade-history endpoint rejects ranges much longer than a month,
//! so the span from the account's start to "now" is walked in fixed windows
//! of `MAX_QUERY_DURATION_DAYS` days. A `Fetcher` owns that walk: it hands
//! out the next window to query, accepts each decoded page of records, and
//! keeps only buys and sells, in the order received. The caller performs the
//! network requests and the JSON decoding; "now" is captured once, at
//! construction, so a slow walk cannot chase the wall clock.

use vstd::prelude::*;

use crate::dates::parse_utc_epoch;
use crate::dates::utc_epoch_of;
use crate::records::AccountActivities;
use crate::records::AccountActivity;
use crate::records::TradeAction;

verus! {

/// Length of one range query, in days: the remote API rejects ranges over
/// about 31 days.
pub const MAX_QUERY_DURATION_DAYS: i64 = 30;

/// Length of one range query, in seconds.
pub const MAX_QUERY_DURATION_SECONDS: i64 = MAX_QUERY_DURATION_DAYS * 86400;

/// The window length as a mathematical integer.
#[verifier::inline]
pub open spec fn window_len() -> int {
    2592000int
}

/// Why a retrieval failed. Every failure aborts the whole fetch; there is no
/// partial output and no retry.
#[derive(Clone, Copy, Debug, PartialEq, Eq, Structural)]
pub enum FetchError {
    /// The account-start timestamp could not be parsed.
    InvalidTimestamp,
    /// A window's network request failed (reported by the transport shim).
    TransportError,
    /// A window's response body was not the expected JSON shape (reported by
    /// the decoding shim).
    DecodeError,
}

/// One `[start, end)` range query, in epoch seconds. The final window of a
/// walk may extend past "now"; the remote service tolerates that by
/// returning only what exists.
#[derive(Clone, Copy, Debug, PartialEq, Eq, Structural)]
pub struct ActivityWindow {
    pub start: i64,
    pub end: i64,
}

/// The windows a walk from `since` to `now` must query: consecutive spans of
/// `window_len()` seconds starting at `since`, one per index, the last one
/// being the first to reach `now`.
pub open spec fn windows_planned(ws: Seq<ActivityWindow>, since: int, now: int) -> bool {
    &&& (forall|k: int|
        0 <= k < ws.len() ==> (#[trigger] ws[k]).start as int == since + k * window_len()
            && ws[k].end as int == since + (k + 1) * window_len())
    &&& (forall|k: int| 0 <= k < ws.len() ==> ((#[trigger] ws[k]).start as int) < now)
    &&& (since >= now ==> ws.len() == 0)
    &&& (since < now ==> ws.len() >= 1 && since + ws.len() * window_len() >= now)
}

/// Compute the window sequence for a walk from `since` to `now`.
pub fn plan_windows(since: i64, now: i64) -> (ws: Vec<ActivityWindow>)
    requires
        now <= i64::MAX - MAX_QUERY_DURATION_SECONDS,
    ensures
        windows_planned(ws@, since as int, now as int),
{
    let mut ws: Vec<ActivityWindow> = Vec::new();
    let mut start: i64 = since;
    while start < now
        invariant
            now <= i64::MAX - MAX_QUERY_DURATION_SECONDS,
            start as int == since as int + ws@.len() * window_len(),
            ws@.len() >= 1 ==> since as int + (ws@.len() - 1) * window_len() < now as int,
            forall|k: int|
                0 <= k < ws@.len() ==> (#[trigger] ws@[k]).start as int == since as int + k
                    * window_len() && ws@[k].end as int == since as int + (k + 1) * window_len(),
        decreases now + MAX_QUERY_DURATION_SECONDS - start,
    {
        let end: i64 = start + MAX_QUERY_DURATION_SECONDS;
        ws.push(ActivityWindow { start, end });
        start = end;
    }
    proof {
        assert forall|k: int| 0 <= k < ws@.len() implies ((#[trigger] ws@[k]).start as int)
            < now as int by {
            assert(since + (ws@.len() - 1) * window_len() < now);
            assert(k * window_len() <= (ws@.len() - 1) * window_len());
        }
    }
    ws
}

/// Law: the planned windows cover the whole span. For any instant `t` with
/// `since <= t < now`, some window contains `t`; consecutive windows share a
/// boundary, so there are no gaps; and window starts strictly increase.
pub proof fn lemma_window_coverage(ws: Seq<ActivityWindow>, since: int, now: int, t: int)
    requires
        windows_planned(ws, since, now),
        since <= t < now,
    ensures
        exists|k: int|
            0 <= k < ws.len() && ((#[trigger] ws[k]).start as int) <= t < ws[k].end as int,
        forall|k: int| 0 <= k && k + 1 < ws.len() ==> (#[trigger] ws[k]).end == ws[k + 1].start,
        forall|k: int, m: int|
            0 <= k < m < ws.len() ==> (#[trigger] ws[k]).start < (#[trigger] ws[m]).start,
{
    let w = window_len();
    let i = (t - since) / w;
    vstd::arithmetic::div_mod::lemma_fundamental_div_mod(t - since, w);
    vstd::arithmetic::div_mod::lemma_mod_bound(t - since, w);
    assert(w * i <= t - since < w * (i + 1));
    broadcast use vstd::arithmetic::div_mod::lemma_div_basics_4;

    assert(0 <= i);
    assert(i < ws.len()) by {
        if i >= ws.len() {
            assert(w * i >= w * ws.len()) by (nonlinear_arith)
                requires
                    i >= ws.len(),
                    w > 0,
            ;
            assert(t - since < ws.len() * w);
        }
    }
    assert((ws[i].start as int) <= t < ws[i].end as int) by {
        assert(ws[i].start as int == since + i * w);
        assert(ws[i].end as int == since + (i + 1) * w);
    }
    assert forall|k: int|
        0 <= k && k + 1 < ws.len() implies (#[trigger] ws[k]).end == ws[k + 1].start by {
        assert(ws[k].end as int == since + (k + 1) * w);
        assert(ws[k + 1].start as int == since + (k + 1) * w);
    }
    assert forall|k: int, m: int|
        0 <= k < m < ws.len() implies (#[trigger] ws[k]).start < (#[trigger] ws[m]).start by {
        assert(k * w < m * w) by (nonlinear_arith)
            requires
                k < m,
                w > 0,
        ;
    }
}

/// A record the ledger can consume: a buy or a sell.
pub open spec fn is_trade(a: AccountActivity) -> bool {
    a.action is Buy || a.action is Sell
}

/// The subsequence of buys and sells, in the order given.
pub open spec fn trades_of(s: Seq<AccountActivity>) -> Seq<AccountActivity>
    decreases s.len(),
{
    if s.len() == 0 {
        Seq::empty()
    } else {
        let rest = trades_of(s.drop_last());
        if is_trade(s.last()) {
            rest.push(s.last())
        } else {
            rest
        }
    }
}

/// Law: only buys and sells appear in the fetcher's output. If everything
/// collected so far is a trade, everything collected after accepting one
/// more filtered page still is.
pub proof fn lemma_only_trades_collected(acc: Seq<AccountActivity>, page: Seq<AccountActivity>)
    requires
        forall|i: int| 0 <= i < acc.len() ==> is_trade(#[trigger] acc[i]),
    ensures
        forall|i: int|
            0 <= i < (acc + trades_of(page)).len() ==> is_trade(#[trigger] (acc + trades_of(
                page,
            ))[i]),
{
    lemma_trades_of_only_trades(page);
    assert forall|i: int| 0 <= i < (acc + trades_of(page)).len() implies is_trade(
        #[trigger] (acc + trades_of(page))[i],
    ) by {
        if i >= acc.len() {
            assert((acc + trades_of(page))[i] == trades_of(page)[i - acc.len()]);
        }
    }
}

/// Every element of `trades_of(s)` is a trade.
pub proof fn lemma_trades_of_only_trades(s: Seq<AccountActivity>)
    ensures
        forall|i: int| 0 <= i < trades_of(s).len() ==> is_trade(#[trigger] trades_of(s)[i]),
    decreases s.len(),
{
    if s.len() > 0 {
        lemma_trades_of_only_trades(s.drop_last());
        let rest = trades_of(s.drop_last());
        assert forall|i: int| 0 <= i < trades_of(s).len() implies is_trade(
            #[trigger] trades_of(s)[i],
        ) by {
            if is_trade(s.last()) {
                assert(trades_of(s) == rest.push(s.last()));
                if i < rest.len() {
                    assert(trades_of(s)[i] == rest[i]);
                } else {
                    assert(trades_of(s)[i] == s.last());
                }
            } else {
                assert(trades_of(s) == rest);
            }
        }
    }
}

/// One activity-retrieval walk: the windows still to query and the trades
/// collected from the pages accepted so far.
///
/// The caller loops: take the next window, query the endpoint for it, decode
/// the page, and hand the page back; the fetcher keeps only buys and sells,
/// appended in the order received, so ascending window order is preserved.
#[derive(Debug)]
pub struct Fetcher {
    pub windows: Vec<ActivityWindow>,
    pub cursor: usize,
    pub collected: Vec<AccountActivity>,
}

impl Fetcher {
    /// Start a walk at the account-start timestamp `since`, against the
    /// present instant `now` (epoch seconds), captured here once.
    ///
    /// Fails with `InvalidTimestamp` exactly when `since` does not parse.
    pub fn new(since: &str, now: i64) -> (r: Result<Fetcher, FetchError>)
        requires
            now <= i64::MAX - MAX_QUERY_DURATION_SECONDS,
        ensures
            r is Ok <==> utc_epoch_of(since@) is Some,
            r is Err ==> r == Err::<Fetcher, FetchError>(FetchError::InvalidTimestamp),
            r matches Ok(f) ==> {
                &&& utc_epoch_of(since@) matches Some(ep) && windows_planned(
                    f.windows@,
                    ep,
                    now as int,
                )
                &&& f.cursor == 0
                &&& f.collected@ == Seq::<AccountActivity>::empty()
            },
    {
        match parse_utc_epoch(since) {
            Some(ep) => Ok(
                Fetcher { windows: plan_windows(ep, now), cursor: 0, collected: Vec::new() },
            ),
            None => Err(FetchError::InvalidTimestamp),
        }
    }

    /// The next window to query, advancing the walk; `None` when the walk
    /// has reached the window that covers "now".
    pub fn next_window(&mut self) -> (w: Option<ActivityWindow>)
        ensures
            final(self).windows == old(self).windows,
            final(self).collected == old(self).collected,
            match w {
                Some(win) => old(self).cursor < old(self).windows@.len() && win == old(
                    self,
                ).windows@[old(self).cursor as int] && final(self).cursor == old(self).cursor + 1,
                None => old(self).cursor >= old(self).windows@.len() && final(self).cursor == old(
                    self,
                ).cursor,
            },
    {
        if self.cursor < self.windows.len() {
            let win = self.windows[self.cursor];
            self.cursor = self.cursor + 1;
            Some(win)
        } else {
            None
        }
    }

    /// Accept one decoded page for the window last handed out: its buys and
    /// sells are appended to the collected output in the order received;
    /// everything else is discarded.
    pub fn accept_page(&mut self, page: Vec<AccountActivity>)
        ensures
            final(self).windows == old(self).windows,
            final(self).cursor == old(self).cursor,
            final(self).collected@ == old(self).collected@ + trades_of(page@),
    {
        let ghost collected0 = self.collected@;
        let mut i: usize = 0;
        while i < page.len()
            invariant
                i <= page.len(),
                self.windows == old(self).windows,
                self.cursor == old(self).cursor,
                self.collected@ == collected0 + trades_of(page@.take(i as int)),
            decreases page.len() - i,
        {
            let a = &page[i];
            proof {
                assert(page@.take(i + 1).drop_last() =~= page@.take(i as int));
                assert(page@.take(i + 1).last() == page@[i as int]);
            }
            if a.action == TradeAction::Buy || a.action == TradeAction::Sell {
                self.collected.push(a.clone());
                proof {
                    assert(self.collected@ =~= collected0 + trades_of(page@.take(i + 1)));
                }
            }
            i = i + 1;
        }
        proof {
            assert(page@.take(page@.len() as int) =~= page@);
        }
    }

    /// End the walk, yielding everything collected, in order.
    pub fn into_activities(self) -> (r: AccountActivities)
        ensures
            r.activities == self.collected,
    {
        AccountActivities { activities: self.collected }
    }
}

} // verus!
