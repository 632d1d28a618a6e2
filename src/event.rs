//! The notifications the rewarder emits, in the order it emits them.

use vstd::prelude::*;

verus! {

#[allow(inconsistent_fields)]
#[derive(Clone, Debug, PartialEq, Eq)]
pub enum RewarderEvent {
    /// A reward transfer of `amount` tokens to `account_id` was issued;
    /// `token_id` is the account's primary position, if it had one.
    RewardSent { account_id: String, amount: u128, token_id: Option<String> },
    /// The score of `token_id` became `score`.
    ScoreRecorded { token_id: String, score: u128 },
    /// `account_id` staked `token_id`.
    NftStaked { account_id: String, token_id: String },
    /// `account_id` unstaked `token_id`.
    NftUnstaked { account_id: String, token_id: String },
    /// The score balance of `owner_id` grew by `amount`.
    FtMint { owner_id: String, amount: u128 },
}

/// An event as contracts see it, with strings as character sequences.
#[allow(inconsistent_fields)]
pub enum EventView {
    RewardSent { account_id: Seq<char>, amount: u128, token_id: Option<Seq<char>> },
    ScoreRecorded { token_id: Seq<char>, score: u128 },
    NftStaked { account_id: Seq<char>, token_id: Seq<char> },
    NftUnstaked { account_id: Seq<char>, token_id: Seq<char> },
    FtMint { owner_id: Seq<char>, amount: u128 },
}

pub open spec fn opt_view(o: Option<String>) -> Option<Seq<char>> {
    match o {
        Some(s) => Some(s@),
        None => None,
    }
}

impl RewarderEvent {
    pub open spec fn view(&self) -> EventView {
        match self {
            RewarderEvent::RewardSent { account_id, amount, token_id } => EventView::RewardSent {
                account_id: account_id@,
                amount: *amount,
                token_id: opt_view(*token_id),
            },
            RewarderEvent::ScoreRecorded { token_id, score } => EventView::ScoreRecorded {
                token_id: token_id@,
                score: *score,
            },
            RewarderEvent::NftStaked { account_id, token_id } => EventView::NftStaked {
                account_id: account_id@,
                token_id: token_id@,
            },
            RewarderEvent::NftUnstaked { account_id, token_id } => EventView::NftUnstaked {
                account_id: account_id@,
                token_id: token_id@,
            },
            RewarderEvent::FtMint { owner_id, amount } => EventView::FtMint {
                owner_id: owner_id@,
                amount: *amount,
            },
        }
    }
}

pub open spec fn events_of(v: Seq<RewarderEvent>) -> Seq<EventView> {
    v.map_values(|e: RewarderEvent| e.view())
}

} // verus!
