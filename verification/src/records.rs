//! The trade records that the fetcher collects and the ledger consumes,
//! and the credential bundle that the orchestrator supplies.

use vstd::prelude::*;

verus! {

/// How a record affects a position. Source data carries many activity kinds
/// (dividends, transfers, fees, ...); everything that is not a buy or a sell
/// is carried as `Other` and filtered out before the ledger runs.
#[derive(Clone, Copy, Debug, PartialEq, Eq, Structural)]
pub enum TradeAction {
    Buy,
    Sell,
    Other,
}

/// One executed trade.
///
/// `quantity` counts units traded and `net_amount` the signed cash movement
/// in minor currency units, both in whatever fixed-point scale the caller
/// chose; the ledger uses them exactly as supplied and assumes no sign
/// convention. `settlement_date` is an RFC 3339 timestamp with offset; its
/// calendar year, read in the record's own offset, is the tax year of any
/// gain the record realizes.
#[derive(Debug)]
pub struct AccountActivity {
    pub action: TradeAction,
    pub symbol: String,
    pub quantity: i64,
    pub net_amount: i64,
    pub settlement_date: String,
}

impl Clone for AccountActivity {
    fn clone(&self) -> (r: Self)
        ensures
            r == *self,
    {
        AccountActivity {
            action: self.action,
            symbol: self.symbol.clone(),
            quantity: self.quantity,
            net_amount: self.net_amount,
            settlement_date: self.settlement_date.clone(),
        }
    }
}

/// A batch of trade records in chronological fetch order.
#[derive(Debug)]
pub struct AccountActivities {
    pub activities: Vec<AccountActivity>,
}

/// The credential bundle the orchestrator obtains from the authorization
/// endpoint and hands to the fetcher: the API base URL, the bearer token for
/// requests against it, and the refresh token to persist for the next run.
#[derive(Debug)]
pub struct AuthorizationDetails {
    pub refresh_token: String,
    pub api_server: String,
    pub access_token: String,
}

impl Clone for AuthorizationDetails {
    fn clone(&self) -> (r: Self)
        ensures
            r == *self,
    {
        AuthorizationDetails {
            refresh_token: self.refresh_token.clone(),
            api_server: self.api_server.clone(),
            access_token: self.access_token.clone(),
        }
    }
}

} // verus!
