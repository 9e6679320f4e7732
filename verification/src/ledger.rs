//! The adjusted-cost-base (ACB) ledger.
//!
//! The ledger consumes trade records in chronological order. Per symbol it
//! tracks one position: the running quantity held and the running amount paid
//! for it. A sell realizes a gain of
//! `quantity * (amount / position_quantity + net_amount / quantity)` — the
//! held cost per unit plus the sale's own per-unit proceeds, each an integer
//! division truncated toward zero — and the gain is added to the bucket of
//! the sale's settlement year. After the sell (and after every buy) the
//! position is updated by the record's own quantity and net amount, resetting
//! the amount to zero once the position is emptied. A sell against a symbol
//! with no tracked position is a data anomaly and is skipped whole.
//!
//! The spec functions `ledger_step` and `ledger_run` are the ledger's
//! mathematical model; `calculate_capital_gains` is proved to return exactly
//! what `ledger_run` says.

use vstd::prelude::*;

use crate::dates::rfc3339_year;
use crate::dates::settlement_year;
use crate::records::AccountActivities;
use crate::records::AccountActivity;
use crate::records::TradeAction;

verus! {

/// Why a gain computation failed. Either failure aborts the whole
/// computation; there are no partial results.
#[derive(Clone, Copy, Debug, PartialEq, Eq, Structural)]
pub enum LedgerError {
    /// A sell record's settlement date is not a valid RFC 3339 date-time.
    MalformedDate,
    /// A running quantity, amount or gain left the 64-bit range.
    Overflow,
}

/// The state of one symbol's position: units held and total cost of holding
/// them, in the fixed-point scale of the records.
#[verifier::ext_equal]
pub struct PositionView {
    pub quantity: int,
    pub amount: int,
}

/// The whole ledger state: one position per symbol seen, and the realized
/// gain accumulated per settlement year.
#[verifier::ext_equal]
pub struct LedgerView {
    pub positions: Map<Seq<char>, PositionView>,
    pub gains: Map<int, int>,
}

/// The state before any record: no positions, no gains.
pub open spec fn initial_ledger() -> LedgerView {
    LedgerView { positions: Map::empty(), gains: Map::empty() }
}

/// The tracked position of a symbol, `{0, 0}` when none is tracked yet.
pub open spec fn pos_or_default(m: Map<Seq<char>, PositionView>, sym: Seq<char>) -> PositionView {
    if m.dom().contains(sym) {
        m[sym]
    } else {
        PositionView { quantity: 0, amount: 0 }
    }
}

/// Integer division truncated toward zero, as the machine's signed division
/// behaves.
pub open spec fn div_trunc(x: int, d: int) -> int
    recommends
        d != 0,
{
    if x == 0 {
        0
    } else if x > 0 && d > 0 {
        x / d
    } else if x < 0 && d < 0 {
        (x * -1) / (d * -1)
    } else if x < 0 {
        ((x * -1) / d) * -1
    } else {
        (x / (d * -1)) * -1
    }
}

/// The realized gain of one sale against the position held before it.
pub open spec fn sell_gain(pos: PositionView, quantity: int, net_amount: int) -> int
    recommends
        pos.quantity != 0,
        quantity != 0,
{
    quantity * (div_trunc(pos.amount, pos.quantity) + div_trunc(net_amount, quantity))
}

/// A year's accumulated gain, zero when the year has no bucket yet.
pub open spec fn gain_or_zero(gains: Map<int, int>, year: int) -> int {
    if gains.dom().contains(year) {
        gains[year]
    } else {
        0
    }
}

/// Whether a value fits the 64-bit signed range the ledger computes in.
pub open spec fn fits_i64(x: int) -> bool {
    (i64::MIN as int) <= x <= (i64::MAX as int)
}

/// The gains map after one sell against position `pos`. The settlement date
/// must parse, else the whole computation fails with `MalformedDate`; a sell
/// of zero units has no per-unit price and records no gain; otherwise the
/// sale's gain joins the bucket of the settlement year, failing with
/// `Overflow` if the gain or the bucket leaves the 64-bit range.
pub open spec fn gains_after_sell(
    gains: Map<int, int>,
    pos: PositionView,
    a: AccountActivity,
) -> Result<Map<int, int>, LedgerError> {
    match rfc3339_year(a.settlement_date@) {
        Option::None => Result::Err(LedgerError::MalformedDate),
        Option::Some(year) => {
            if a.quantity == 0 {
                Result::Ok(gains)
            } else {
                let g = sell_gain(pos, a.quantity as int, a.net_amount as int);
                let total = gain_or_zero(gains, year) + g;
                if fits_i64(g) && fits_i64(total) {
                    Result::Ok(gains.insert(year, total))
                } else {
                    Result::Err(LedgerError::Overflow)
                }
            }
        },
    }
}

/// One record applied to the ledger state.
///
/// A sell with no tracked position is skipped whole: no gain, no state
/// change. Every other record first settles its gain (sells only), then
/// updates the symbol's position by its own quantity and net amount; when the
/// new quantity is below one unit the position is closed and its amount reset
/// to zero.
pub open spec fn ledger_step(st: LedgerView, a: AccountActivity) -> Result<
    LedgerView,
    LedgerError,
> {
    let pos = pos_or_default(st.positions, a.symbol@);
    if a.action is Sell && pos.quantity == 0 {
        Result::Ok(st)
    } else {
        let gains2 = if a.action is Sell {
            gains_after_sell(st.gains, pos, a)
        } else {
            Result::Ok(st.gains)
        };
        match gains2 {
            Result::Err(e) => Result::Err(e),
            Result::Ok(gs) => {
                let new_quantity = pos.quantity + a.quantity as int;
                let new_amount = if new_quantity < 1 {
                    0
                } else {
                    pos.amount + a.net_amount as int
                };
                if fits_i64(new_quantity) && fits_i64(new_amount) {
                    Result::Ok(
                        LedgerView {
                            positions: st.positions.insert(
                                a.symbol@,
                                PositionView { quantity: new_quantity, amount: new_amount },
                            ),
                            gains: gs,
                        },
                    )
                } else {
                    Result::Err(LedgerError::Overflow)
                }
            },
        }
    }
}

/// The ledger state after a whole record sequence, or the first failure.
pub open spec fn ledger_run(rs: Seq<AccountActivity>) -> Result<LedgerView, LedgerError>
    decreases rs.len(),
{
    if rs.len() == 0 {
        Result::Ok(initial_ledger())
    } else {
        match ledger_run(rs.drop_last()) {
            Result::Err(e) => Result::Err(e),
            Result::Ok(st) => ledger_step(st, rs.last()),
        }
    }
}

/// Law: the ledger is a pure function of its input. Two runs over the same
/// record sequence end in the same result; no state survives a run.
pub proof fn lemma_replay_idempotent(
    rs: Seq<AccountActivity>,
    r1: Result<LedgerView, LedgerError>,
    r2: Result<LedgerView, LedgerError>,
)
    requires
        r1 == ledger_run(rs),
        r2 == ledger_run(rs),
    ensures
        r1 == r2,
{
}

/// Law: a sell against a symbol with no tracked position changes nothing —
/// no gain bucket is touched and no position is created.
pub proof fn lemma_anomalous_sell_skipped(st: LedgerView, a: AccountActivity)
    requires
        a.action is Sell,
        pos_or_default(st.positions, a.symbol@).quantity == 0,
    ensures
        ledger_step(st, a) == Result::Ok::<LedgerView, LedgerError>(st),
{
}

/// Law: a record that empties its position resets the stored amount to
/// exactly zero. Whenever a step goes through (it is not an anomalous sell)
/// and the new quantity falls below one unit, the symbol's stored amount
/// afterwards is zero.
pub proof fn lemma_close_resets_amount(st: LedgerView, a: AccountActivity)
    requires
        !(a.action is Sell && pos_or_default(st.positions, a.symbol@).quantity == 0),
        pos_or_default(st.positions, a.symbol@).quantity + (a.quantity as int) < 1,
        ledger_step(st, a) is Ok,
    ensures
        ledger_step(st, a)->Ok_0.positions.dom().contains(a.symbol@),
        ledger_step(st, a)->Ok_0.positions[a.symbol@].amount == 0,
        ledger_step(st, a)->Ok_0.positions[a.symbol@].quantity == pos_or_default(
            st.positions,
            a.symbol@,
        ).quantity + a.quantity as int,
{
}

/// An error already reached is the run's result: later records cannot undo
/// it.
pub proof fn lemma_error_persists(rs: Seq<AccountActivity>, k: int)
    requires
        0 <= k <= rs.len(),
        ledger_run(rs.take(k)) is Err,
    ensures
        ledger_run(rs) == ledger_run(rs.take(k)),
    decreases rs.len() - k,
{
    if k == rs.len() {
        assert(rs.take(k) =~= rs);
    } else {
        assert(rs.take(k + 1).drop_last() =~= rs.take(k));
        lemma_error_persists(rs, k + 1);
    }
}

/// Truncated division never grows in magnitude.
pub proof fn lemma_div_trunc_bound(x: int, d: int)
    requires
        d != 0,
    ensures
        div_trunc(x, d) <= vstd::math::abs(x),
        -vstd::math::abs(x) <= div_trunc(x, d),
{
    if x == 0 {
    } else if x > 0 && d > 0 {
        vstd::arithmetic::div_mod::lemma_div_basics_4(x, d);
        vstd::arithmetic::div_mod::lemma_div_basics_5(x, d);
    } else if x < 0 && d < 0 {
        vstd::arithmetic::div_mod::lemma_div_basics_4(x * -1, d * -1);
        vstd::arithmetic::div_mod::lemma_div_basics_5(x * -1, d * -1);
    } else if x < 0 {
        vstd::arithmetic::div_mod::lemma_div_basics_4(x * -1, d);
        vstd::arithmetic::div_mod::lemma_div_basics_5(x * -1, d);
    } else {
        vstd::arithmetic::div_mod::lemma_div_basics_4(x, d * -1);
        vstd::arithmetic::div_mod::lemma_div_basics_5(x, d * -1);
    }
}

/// One symbol's tracked position in executable form.
#[derive(Debug)]
pub struct Position {
    pub symbol: String,
    pub quantity: i64,
    pub amount: i64,
}

/// The position as the model sees it.
pub open spec fn pos_view(p: Position) -> PositionView {
    PositionView { quantity: p.quantity as int, amount: p.amount as int }
}

/// One settlement year's accumulated realized gain.
#[derive(Clone, Copy, Debug, PartialEq, Eq, Structural)]
pub struct YearGain {
    pub year: i32,
    pub gain: i64,
}

/// No symbol appears twice.
pub open spec fn distinct_symbols(ps: Seq<Position>) -> bool {
    forall|i: int, j: int| 0 <= i < j < ps.len() ==> ps[i].symbol@ != ps[j].symbol@
}

/// No year appears twice.
pub open spec fn distinct_years(gs: Seq<YearGain>) -> bool {
    forall|i: int, j: int| 0 <= i < j < gs.len() ==> gs[i].year != gs[j].year
}

/// The symbol-to-position map a position table denotes.
pub open spec fn position_map(ps: Seq<Position>) -> Map<Seq<char>, PositionView>
    decreases ps.len(),
{
    if ps.len() == 0 {
        Map::empty()
    } else {
        position_map(ps.drop_last()).insert(ps.last().symbol@, pos_view(ps.last()))
    }
}

/// The year-to-gain map a gain table denotes.
pub open spec fn year_map(gs: Seq<YearGain>) -> Map<int, int>
    decreases gs.len(),
{
    if gs.len() == 0 {
        Map::empty()
    } else {
        year_map(gs.drop_last()).insert(gs.last().year as int, gs.last().gain as int)
    }
}

/// A tracked symbol's map entry is its table row.
proof fn lemma_position_lookup(ps: Seq<Position>, j: int)
    requires
        distinct_symbols(ps),
        0 <= j < ps.len(),
    ensures
        position_map(ps).dom().contains(ps[j].symbol@),
        position_map(ps)[ps[j].symbol@] == pos_view(ps[j]),
    decreases ps.len(),
{
    if j < ps.len() - 1 {
        assert(distinct_symbols(ps.drop_last()));
        assert(ps.drop_last()[j] == ps[j]);
        lemma_position_lookup(ps.drop_last(), j);
        assert(ps[j].symbol@ != ps.last().symbol@);
    }
}

/// A symbol in no table row is in no map entry.
proof fn lemma_position_absent(ps: Seq<Position>, s: Seq<char>)
    requires
        forall|i: int| 0 <= i < ps.len() ==> (#[trigger] ps[i]).symbol@ != s,
    ensures
        !position_map(ps).dom().contains(s),
    decreases ps.len(),
{
    if ps.len() > 0 {
        lemma_position_absent(ps.drop_last(), s);
    }
}

/// Replacing a row in place, keeping its symbol, is a map insert.
proof fn lemma_position_update(ps: Seq<Position>, j: int, p: Position)
    requires
        distinct_symbols(ps),
        0 <= j < ps.len(),
        p.symbol@ == ps[j].symbol@,
    ensures
        distinct_symbols(ps.update(j, p)),
        position_map(ps.update(j, p)) == position_map(ps).insert(p.symbol@, pos_view(p)),
    decreases ps.len(),
{
    let ps2 = ps.update(j, p);
    assert forall|i1: int, i2: int| 0 <= i1 < i2 < ps2.len() implies ps2[i1].symbol@
        != ps2[i2].symbol@ by {
        assert(ps[i1].symbol@ != ps[i2].symbol@);
    }
    if j == ps.len() - 1 {
        assert(ps2.drop_last() =~= ps.drop_last());
        assert(position_map(ps2) == position_map(ps.drop_last()).insert(p.symbol@, pos_view(p)));
        assert(position_map(ps).insert(p.symbol@, pos_view(p)) == position_map(
            ps.drop_last(),
        ).insert(ps.last().symbol@, pos_view(ps.last())).insert(p.symbol@, pos_view(p)));
        assert(position_map(ps.drop_last()).insert(ps.last().symbol@, pos_view(ps.last())).insert(
            p.symbol@,
            pos_view(p),
        ) =~= position_map(ps.drop_last()).insert(p.symbol@, pos_view(p)));
    } else {
        assert(distinct_symbols(ps.drop_last()));
        assert(ps.drop_last()[j] == ps[j]);
        lemma_position_update(ps.drop_last(), j, p);
        assert(ps2.drop_last() =~= ps.drop_last().update(j, p));
        assert(ps2.last() == ps.last());
        assert(position_map(ps2) == position_map(ps.drop_last()).insert(
            p.symbol@,
            pos_view(p),
        ).insert(ps.last().symbol@, pos_view(ps.last())));
        assert(p.symbol@ != ps.last().symbol@);
        assert(position_map(ps.drop_last()).insert(p.symbol@, pos_view(p)).insert(
            ps.last().symbol@,
            pos_view(ps.last()),
        ) =~= position_map(ps).insert(p.symbol@, pos_view(p)));
    }
}

/// A gain bucket's map entry is its table row.
proof fn lemma_year_lookup(gs: Seq<YearGain>, j: int)
    requires
        distinct_years(gs),
        0 <= j < gs.len(),
    ensures
        year_map(gs).dom().contains(gs[j].year as int),
        year_map(gs)[gs[j].year as int] == gs[j].gain as int,
    decreases gs.len(),
{
    if j < gs.len() - 1 {
        assert(distinct_years(gs.drop_last()));
        assert(gs.drop_last()[j] == gs[j]);
        lemma_year_lookup(gs.drop_last(), j);
        assert(gs[j].year != gs.last().year);
    }
}

/// A year in no table row is in no map entry.
proof fn lemma_year_absent(gs: Seq<YearGain>, y: int)
    requires
        forall|i: int| 0 <= i < gs.len() ==> (#[trigger] gs[i]).year as int != y,
    ensures
        !year_map(gs).dom().contains(y),
    decreases gs.len(),
{
    if gs.len() > 0 {
        lemma_year_absent(gs.drop_last(), y);
    }
}

/// Replacing a bucket in place, keeping its year, is a map insert.
proof fn lemma_year_update(gs: Seq<YearGain>, j: int, g: YearGain)
    requires
        distinct_years(gs),
        0 <= j < gs.len(),
        g.year == gs[j].year,
    ensures
        distinct_years(gs.update(j, g)),
        year_map(gs.update(j, g)) == year_map(gs).insert(g.year as int, g.gain as int),
    decreases gs.len(),
{
    let gs2 = gs.update(j, g);
    assert forall|i1: int, i2: int| 0 <= i1 < i2 < gs2.len() implies gs2[i1].year
        != gs2[i2].year by {
        assert(gs[i1].year != gs[i2].year);
    }
    if j == gs.len() - 1 {
        assert(gs2.drop_last() =~= gs.drop_last());
        assert(year_map(gs2) == year_map(gs.drop_last()).insert(g.year as int, g.gain as int));
        assert(year_map(gs.drop_last()).insert(gs.last().year as int, gs.last().gain as int).insert(
            g.year as int,
            g.gain as int,
        ) =~= year_map(gs.drop_last()).insert(g.year as int, g.gain as int));
    } else {
        assert(distinct_years(gs.drop_last()));
        assert(gs.drop_last()[j] == gs[j]);
        lemma_year_update(gs.drop_last(), j, g);
        assert(gs2.drop_last() =~= gs.drop_last().update(j, g));
        assert(gs2.last() == gs.last());
        assert(year_map(gs2) == year_map(gs.drop_last()).insert(g.year as int, g.gain as int).insert(
            gs.last().year as int,
            gs.last().gain as int,
        ));
        assert(g.year as int != gs.last().year as int);
        assert(year_map(gs.drop_last()).insert(g.year as int, g.gain as int).insert(
            gs.last().year as int,
            gs.last().gain as int,
        ) =~= year_map(gs).insert(g.year as int, g.gain as int));
    }
}

/// The realized gains of a run, one bucket per settlement year that saw a
/// sale.
#[derive(Debug)]
pub struct GainsByYear {
    pub entries: Vec<YearGain>,
}

impl View for GainsByYear {
    type V = Map<int, int>;

    open spec fn view(&self) -> Map<int, int> {
        year_map(self.entries@)
    }
}

impl GainsByYear {
    /// Every year owns exactly one bucket.
    pub open spec fn wf(&self) -> bool {
        distinct_years(self.entries@)
    }

    /// The accumulated gain of one year, `None` when no sale settled in it.
    pub fn gain_for(&self, year: i32) -> (r: Option<i64>)
        requires
            self.wf(),
        ensures
            match r {
                Option::Some(g) => self@.dom().contains(year as int) && self@[year as int]
                    == g as int,
                Option::None => !self@.dom().contains(year as int),
            },
    {
        let mut i: usize = 0;
        while i < self.entries.len()
            invariant
                i <= self.entries@.len(),
                self.wf(),
                forall|k: int| 0 <= k < i ==> (#[trigger] self.entries@[k]).year != year,
            decreases self.entries@.len() - i,
        {
            if self.entries[i].year == year {
                proof {
                    lemma_year_lookup(self.entries@, i as int);
                }
                return Some(self.entries[i].gain);
            }
            i = i + 1;
        }
        proof {
            lemma_year_absent(self.entries@, year as int);
        }
        None
    }
}

/// One in-progress gains computation: the tracked positions and the gain
/// buckets filled so far.
#[derive(Debug)]
pub struct Ledger {
    pub positions: Vec<Position>,
    pub gains: Vec<YearGain>,
}

impl View for Ledger {
    type V = LedgerView;

    open spec fn view(&self) -> LedgerView {
        LedgerView { positions: position_map(self.positions@), gains: year_map(self.gains@) }
    }
}

/// Index of the row tracking `sym`, if any.
fn find_position(ps: &Vec<Position>, sym: &String) -> (r: Option<usize>)
    ensures
        match r {
            Option::Some(j) => j < ps@.len() && ps@[j as int].symbol@ == sym@,
            Option::None => forall|i: int| 0 <= i < ps@.len() ==> (#[trigger] ps@[i]).symbol@
                != sym@,
        },
{
    let mut i: usize = 0;
    while i < ps.len()
        invariant
            i <= ps@.len(),
            forall|k: int| 0 <= k < i ==> (#[trigger] ps@[k]).symbol@ != sym@,
        decreases ps@.len() - i,
    {
        if ps[i].symbol.eq(sym) {
            return Some(i);
        }
        i = i + 1;
    }
    None
}

/// Index of the bucket for `year`, if any.
fn find_year(gs: &Vec<YearGain>, year: i32) -> (r: Option<usize>)
    ensures
        match r {
            Option::Some(j) => j < gs@.len() && gs@[j as int].year == year,
            Option::None => forall|i: int| 0 <= i < gs@.len() ==> (#[trigger] gs@[i]).year != year,
        },
{
    let mut i: usize = 0;
    while i < gs.len()
        invariant
            i <= gs@.len(),
            forall|k: int| 0 <= k < i ==> (#[trigger] gs@[k]).year != year,
        decreases gs@.len() - i,
    {
        if gs[i].year == year {
            return Some(i);
        }
        i = i + 1;
    }
    None
}

impl Ledger {
    /// One symbol per row, one year per bucket.
    pub open spec fn wf(&self) -> bool {
        distinct_symbols(self.positions@) && distinct_years(self.gains@)
    }

    /// A fresh ledger holding the initial state.
    pub fn new() -> (l: Ledger)
        ensures
            l.wf(),
            l@ == initial_ledger(),
    {
        let l = Ledger { positions: Vec::new(), gains: Vec::new() };
        proof {
            assert(l@.positions =~= initial_ledger().positions);
            assert(l@.gains =~= initial_ledger().gains);
            assert(l@ =~= initial_ledger());
        }
        l
    }

    /// Apply one record: exactly the model's `ledger_step`. On an error the
    /// ledger is left untouched.
    pub fn apply(&mut self, activity: &AccountActivity) -> (r: Result<(), LedgerError>)
        requires
            old(self).wf(),
        ensures
            final(self).wf(),
            match r {
                Result::Ok(()) => ledger_step(old(self)@, *activity) == Result::Ok::<
                    LedgerView,
                    LedgerError,
                >(final(self)@),
                Result::Err(e) => ledger_step(old(self)@, *activity) == Result::Err::<
                    LedgerView,
                    LedgerError,
                >(e) && *final(self) == *old(self),
            },
    {
        let pos_idx = find_position(&self.positions, &activity.symbol);
        let (pos_q, pos_a): (i64, i64) = match pos_idx {
            Some(j) => (self.positions[j].quantity, self.positions[j].amount),
            None => (0, 0),
        };
        proof {
            match pos_idx {
                Option::Some(j) => lemma_position_lookup(self.positions@, j as int),
                Option::None => lemma_position_absent(self.positions@, activity.symbol@),
            }
            assert(pos_or_default(self@.positions, activity.symbol@) == (PositionView {
                quantity: pos_q as int,
                amount: pos_a as int,
            }));
        }
        let is_sell = activity.action == TradeAction::Sell;
        if is_sell && pos_q == 0 {
            return Ok(());
        }
        // Settle the sale's gain first, as the model does, mutating nothing
        // until no failure remains possible.
        let mut gain_bucket: Option<(Option<usize>, i32, i64)> = None;
        if is_sell {
            let year = match settlement_year(activity.settlement_date.as_str()) {
                Some(y) => y,
                None => {
                    return Err(LedgerError::MalformedDate);
                },
            };
            if activity.quantity != 0 {
                let amt128: i128 = pos_a as i128;
                let q128: i128 = pos_q as i128;
                proof {
                    lemma_div_trunc_bound(pos_a as int, pos_q as int);
                    lemma_div_trunc_bound(activity.net_amount as int, activity.quantity as int);
                }
                let acb128: i128 = amt128.checked_div(q128).unwrap();
                let per_unit128: i128 = (activity.net_amount as i128).checked_div(
                    activity.quantity as i128,
                ).unwrap();
                proof {
                    assert(acb128 as int == div_trunc(pos_a as int, pos_q as int));
                    assert(per_unit128 as int == div_trunc(
                        activity.net_amount as int,
                        activity.quantity as int,
                    ));
                }
                let gain128: i128 = match (activity.quantity as i128).checked_mul(
                    acb128 + per_unit128,
                ) {
                    Some(g) => g,
                    None => {
                        return Err(LedgerError::Overflow);
                    },
                };
                if gain128 > i64::MAX as i128 || gain128 < i64::MIN as i128 {
                    return Err(LedgerError::Overflow);
                }
                let gain: i64 = gain128 as i64;
                let year_idx = find_year(&self.gains, year);
                let current: i64 = match year_idx {
                    Some(j) => self.gains[j].gain,
                    None => 0,
                };
                proof {
                    match year_idx {
                        Option::Some(j) => lemma_year_lookup(self.gains@, j as int),
                        Option::None => lemma_year_absent(self.gains@, year as int),
                    }
                    assert(current as int == gain_or_zero(self@.gains, year as int));
                }
                let total: i64 = match current.checked_add(gain) {
                    Some(t) => t,
                    None => {
                        return Err(LedgerError::Overflow);
                    },
                };
                gain_bucket = Some((year_idx, year, total));
            }
        }
        // The position update, still without mutating.
        let new_quantity: i64 = match pos_q.checked_add(activity.quantity) {
            Some(q) => q,
            None => {
                return Err(LedgerError::Overflow);
            },
        };
        let new_amount: i64 = if new_quantity < 1 {
            0
        } else {
            match pos_a.checked_add(activity.net_amount) {
                Some(a) => a,
                None => {
                    return Err(LedgerError::Overflow);
                },
            }
        };
        // No failure remains: commit the gain bucket and the position.
        if let Some((year_idx, year, total)) = gain_bucket {
            match year_idx {
                Some(j) => {
                    proof {
                        lemma_year_update(self.gains@, j as int, YearGain { year, gain: total });
                    }
                    let ghost gs0 = self.gains@;
                    self.gains.remove(j);
                    self.gains.insert(j, YearGain { year, gain: total });
                    proof {
                        assert(self.gains@ =~= gs0.update(
                            j as int,
                            YearGain { year, gain: total },
                        ));
                    }
                },
                None => {
                    let ghost gs0 = self.gains@;
                    self.gains.push(YearGain { year, gain: total });
                    proof {
                        assert(self.gains@.drop_last() =~= gs0);
                        assert forall|i1: int, i2: int|
                            0 <= i1 < i2 < self.gains@.len() implies self.gains@[i1].year
                            != self.gains@[i2].year by {
                            if i2 < self.gains@.len() - 1 {
                                assert(gs0[i1].year != gs0[i2].year);
                            }
                        }
                    }
                },
            }
        }
        let new_row = Position {
            symbol: activity.symbol.clone(),
            quantity: new_quantity,
            amount: new_amount,
        };
        match pos_idx {
            Some(j) => {
                proof {
                    lemma_position_update(self.positions@, j as int, new_row);
                }
                let ghost ps0 = self.positions@;
                self.positions.remove(j);
                self.positions.insert(j, new_row);
                proof {
                    assert(self.positions@ =~= ps0.update(j as int, new_row));
                }
            },
            None => {
                let ghost ps0 = self.positions@;
                self.positions.push(new_row);
                proof {
                    assert(self.positions@.drop_last() =~= ps0);
                    assert forall|i1: int, i2: int|
                        0 <= i1 < i2 < self.positions@.len() implies self.positions@[i1].symbol@
                        != self.positions@[i2].symbol@ by {
                        if i2 < self.positions@.len() - 1 {
                            assert(ps0[i1].symbol@ != ps0[i2].symbol@);
                        }
                    }
                }
            },
        }
        proof {
            assert(ledger_step(old(self)@, *activity) == Result::Ok::<LedgerView, LedgerError>(
                self@,
            )) by {
                assert(self@.positions =~= ledger_step(old(self)@, *activity)->Ok_0.positions);
                assert(self@.gains =~= ledger_step(old(self)@, *activity)->Ok_0.gains);
                assert(self@ =~= ledger_step(old(self)@, *activity)->Ok_0);
            }
        }
        Ok(())
    }

    /// The tracked position of a symbol, as `(quantity, amount)`.
    pub fn position(&self, symbol: &String) -> (r: Option<(i64, i64)>)
        requires
            self.wf(),
        ensures
            match r {
                Option::Some(qa) => self@.positions.dom().contains(symbol@)
                    && self@.positions[symbol@] == (PositionView {
                    quantity: qa.0 as int,
                    amount: qa.1 as int,
                }),
                Option::None => !self@.positions.dom().contains(symbol@),
            },
    {
        match find_position(&self.positions, symbol) {
            Some(j) => {
                proof {
                    lemma_position_lookup(self.positions@, j as int);
                }
                Some((self.positions[j].quantity, self.positions[j].amount))
            },
            None => {
                proof {
                    lemma_position_absent(self.positions@, symbol@);
                }
                None
            },
        }
    }

    /// End the run, yielding the gains accumulated per settlement year.
    pub fn into_gains(self) -> (g: GainsByYear)
        requires
            self.wf(),
        ensures
            g.wf(),
            g@ == self@.gains,
    {
        GainsByYear { entries: self.gains }
    }
}

/// Run the ledger over a chronologically ordered record sequence: exactly
/// the model's `ledger_run`, so the result is `Ok` precisely when every
/// sell's settlement date parses and every running value stays in range, and
/// then carries the model's year-to-gain mapping.
pub fn calculate_capital_gains(account_activities: AccountActivities) -> (r: Result<
    GainsByYear,
    LedgerError,
>)
    ensures
        match r {
            Result::Ok(g) => ledger_run(account_activities.activities@) is Ok && g.wf() && g@
                == ledger_run(account_activities.activities@)->Ok_0.gains,
            Result::Err(e) => ledger_run(account_activities.activities@) == Result::Err::<
                LedgerView,
                LedgerError,
            >(e),
        },
{
    let ghost all = account_activities.activities@;
    let mut ledger = Ledger::new();
    let mut i: usize = 0;
    proof {
        assert(all.take(0) =~= Seq::<AccountActivity>::empty());
    }
    while i < account_activities.activities.len()
        invariant
            i <= all.len(),
            account_activities.activities@ == all,
            ledger.wf(),
            ledger_run(all.take(i as int)) == Result::Ok::<LedgerView, LedgerError>(ledger@),
        decreases all.len() - i,
    {
        let a = &account_activities.activities[i];
        proof {
            assert(all.take(i + 1).drop_last() =~= all.take(i as int));
            assert(all.take(i + 1).last() == all[i as int]);
        }
        match ledger.apply(a) {
            Ok(()) => {},
            Err(e) => {
                proof {
                    lemma_error_persists(all, i + 1);
                }
                return Err(e);
            },
        }
        i = i + 1;
    }
    proof {
        assert(all.take(all.len() as int) =~= all);
    }
    Ok(ledger.into_gains())
}

} // verus!
