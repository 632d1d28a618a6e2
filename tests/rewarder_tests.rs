use rewarder::error::ContractError;
use rewarder::event::RewarderEvent;
use rewarder::rewarder::{Contract, RewardTransfer, RewarderSnapshot, StorageKey};

fn s(x: &str) -> String {
    x.to_string()
}

fn contract() -> Contract {
    Contract::new(s("dao"), s("operator"), vec![], s("reward_token"), s("nft"))
}

fn stake(c: &mut Contract, account: &str, token: &str) {
    assert_eq!(c.nft_on_transfer(&s("nft"), s("bob"), s(account), s(token), s("")), Ok(false));
}

#[test]
fn test_panic_non_operator_cannot_send_rewards() {
    let mut contract = contract();
    let amount = 1000 * 10_u128.pow(18);
    let r = contract.send_rewards(&s("alice.near"), s("alice.near"), amount);
    assert_eq!(r, Err(ContractError::Unauthorized));
    assert_eq!(contract.total_distribute(), 0);
    assert!(contract.events().is_empty());
}

#[test]
fn test_operator_can_send_reward() {
    let mut contract = contract();
    let amount = 1000 * 10_u128.pow(18);
    let r = contract.send_rewards(&s("operator"), s("alice.near"), amount);
    assert_eq!(
        r,
        Ok(RewardTransfer { receiver_id: s("alice.near"), amount, token_id: None })
    );
}

#[test]
fn lib_test_double_reward_nft_staker() {
    let mut contract = contract();
    let amount = 1000 * 10_u128.pow(18);
    stake(&mut contract, "alice.near", "1");
    contract.internal_record_score(s("1"), amount * 2).unwrap();
    assert_eq!(contract.score_of(s("1")), amount * 2);
}

#[test]
fn test_nft_ranking() {
    let mut contract = contract();
    let amount = 100 * 10_u128.pow(18);
    let fifty = 50 * 10_u128.pow(18);

    stake(&mut contract, "alice.near", "1");
    contract.internal_record_score(s("1"), (amount - fifty) * 2).unwrap();
    stake(&mut contract, "bob.near", "2");
    contract.internal_record_score(s("2"), (amount + fifty) * 2).unwrap();
    stake(&mut contract, "charlie.near", "3");
    contract.internal_record_score(s("3"), (amount - fifty) * 2).unwrap();
    stake(&mut contract, "dan.near", "4");
    contract.internal_record_score(s("4"), amount * 2).unwrap();

    let ranking = contract.get_leaderboard(Some(3));
    assert_eq!(
        ranking,
        vec![
            ((amount + fifty) * 2, vec![(s("2"), Some(s("bob.near")))]),
            (amount * 2, vec![(s("4"), Some(s("dan.near")))]),
            (
                (amount - fifty) * 2,
                vec![(s("1"), Some(s("alice.near"))), (s("3"), Some(s("charlie.near")))]
            ),
        ]
    );

    contract.internal_record_score(s("4"), fifty * 2).unwrap();

    let ranking = contract.get_leaderboard(None);
    assert_eq!(
        ranking,
        vec![
            (
                (amount + fifty) * 2,
                vec![(s("2"), Some(s("bob.near"))), (s("4"), Some(s("dan.near")))]
            ),
            (
                (amount - fifty) * 2,
                vec![(s("1"), Some(s("alice.near"))), (s("3"), Some(s("charlie.near")))]
            ),
        ]
    );
}

#[test]
fn test_nft_has_score_after_unstake() {
    let mut contract = contract();
    let amount = 1000 * 10_u128.pow(18);
    stake(&mut contract, "alice.near", "1");
    contract.internal_record_score(s("1"), amount * 2).unwrap();
    contract.on_unstake(s("alice.near"), s("1")).unwrap();
    let ranking = contract.get_leaderboard(None);
    assert_eq!(ranking, vec![(amount * 2, vec![(s("1"), None)])]);
}

#[test]
fn test_emit_reward_sent_event() {
    let mut contract = contract();
    let amount = 1000 * 10_u128.pow(18);
    contract.send_rewards(&s("operator"), s("alice.near"), amount).unwrap();
    let logs = contract.events();
    assert!(logs.len() == 1);
    assert_eq!(
        logs[0],
        RewarderEvent::RewardSent { account_id: s("alice.near"), amount, token_id: None }
    );
}

#[test]
fn nft_test_unstake() {
    let mut contract = contract();
    stake(&mut contract, "bob", "1");
    assert_eq!(contract.primary_nft_of(s("bob")), Some((s("1"), 0)));
    assert_eq!(contract.total_nft_staked(), 1);

    assert_eq!(contract.unstake(&s("bob")), Ok(s("1")));
    contract.on_unstake(s("bob"), s("1")).unwrap();
    assert_eq!(contract.primary_nft_of(s("bob")), None);
    assert_eq!(contract.total_nft_staked(), 0);
}

#[test]
fn test_query_staker_of_nft_correctly() {
    let mut contract = contract();
    stake(&mut contract, "bob", "1");
    assert_eq!(contract.primary_nft_of(s("bob")), Some((s("1"), 0)));
    assert_eq!(contract.staker_of(s("1")), Some(s("bob")));
}

#[test]
fn test_emit_nft_staked_event() {
    let mut contract = contract();
    stake(&mut contract, "bob", "1");
    assert_eq!(contract.primary_nft_of(s("bob")), Some((s("1"), 0)));
    assert_eq!(contract.total_nft_staked(), 1);
    let logs = contract.events();
    assert_eq!(logs.len(), 1);
    assert_eq!(logs[0], RewarderEvent::NftStaked { account_id: s("bob"), token_id: s("1") });
}

#[test]
fn test_emit_nft_unstaked_event() {
    let mut contract = contract();
    stake(&mut contract, "bob", "1");
    contract.on_unstake(s("bob"), s("1")).unwrap();
    assert_eq!(contract.primary_nft_of(s("bob")), None);
    assert_eq!(contract.total_nft_staked(), 0);
    let logs = contract.events();
    assert_eq!(logs.len(), 2);
    assert_eq!(logs[1], RewarderEvent::NftUnstaked { account_id: s("bob"), token_id: s("1") });
}

#[test]
fn test_ft_on_transfer_with_nft_quadruple_score() {
    let mut contract = contract();
    stake(&mut contract, "bob", "1");
    let amount = 1000 * 10_u128.pow(18);
    assert_eq!(contract.ft_on_transfer(&s("reward_token"), s("bob"), amount, s("")), Ok(0));
    assert_eq!(contract.total_donation(), amount);
    assert_eq!(contract.score_of(s("1")), amount * 4);
}

#[test]
fn test_nft_on_transfer_incorrect_nft() {
    let mut contract = contract();
    let r = contract.nft_on_transfer(&s("not_nft"), s("bob"), s("charlie"), s("token"), s(""));
    assert_eq!(r, Err(ContractError::Unauthorized));
    assert_eq!(contract.staker_of(s("token")), None);
}

#[test]
fn test_nft_on_transfer_record_correctly() {
    let mut contract = contract();
    stake(&mut contract, "bob", "1");
    assert_eq!(contract.primary_nft_of(s("bob")), Some((s("1"), 0)));
    assert_eq!(contract.total_nft_staked(), 1);
}

#[test]
fn test_nft_on_transfer_switch_primary_nft() {
    let mut contract = contract();
    stake(&mut contract, "bob", "1");
    let r = contract.nft_on_transfer(&s("nft"), s("alice"), s("bob"), s("2"), s(""));
    assert_eq!(r, Err(ContractError::AlreadyStaked));
    assert_eq!(contract.primary_nft_of(s("bob")), Some((s("1"), 0)));
    assert_eq!(contract.staker_of(s("2")), None);
}

#[test]
fn reward_to_staker_is_doubled_and_to_others_is_not() {
    let mut contract = contract();
    stake(&mut contract, "alice", "1");
    let transfer = contract.send_rewards(&s("operator"), s("alice"), 100).unwrap();
    assert_eq!(transfer, RewardTransfer { receiver_id: s("alice"), amount: 100, token_id: Some(s("1")) });
    contract.on_reward_sent(transfer.token_id, transfer.amount, true).unwrap();
    assert_eq!(contract.score_of(s("1")), 200);
    assert_eq!(contract.ft_balance_of(s("alice")), 200);
    assert_eq!(contract.ft_total_supply(), 200);
    assert_eq!(contract.total_distribute(), 100);

    let transfer = contract.send_rewards(&s("operator"), s("bob"), 100).unwrap();
    assert_eq!(transfer, RewardTransfer { receiver_id: s("bob"), amount: 100, token_id: None });
    contract.on_reward_sent(transfer.token_id, transfer.amount, true).unwrap();
    assert_eq!(contract.score_of(s("1")), 200);
    assert_eq!(contract.ft_balance_of(s("bob")), 0);
    assert_eq!(contract.ft_total_supply(), 200);
    assert_eq!(contract.total_distribute(), 200);
}

#[test]
fn failed_reward_transfer_credits_nothing() {
    let mut contract = contract();
    stake(&mut contract, "alice", "1");
    let transfer = contract.send_rewards(&s("operator"), s("alice"), 100).unwrap();
    let events_before = contract.events().len();
    assert_eq!(contract.on_reward_sent(transfer.token_id, transfer.amount, false), Ok(()));
    assert_eq!(contract.score_of(s("1")), 0);
    assert_eq!(contract.total_distribute(), 0);
    assert_eq!(contract.ft_total_supply(), 0);
    assert_eq!(contract.events().len(), events_before);
}

#[test]
fn donation_from_staker_credits_four_times() {
    let mut contract = contract();
    stake(&mut contract, "alice", "1");
    contract.ft_on_transfer(&s("reward_token"), s("alice"), 1000, s("gift")).unwrap();
    assert_eq!(contract.score_of(s("1")), 4000);
    assert_eq!(contract.total_donation(), 1000);
}

#[test]
fn donation_from_non_staker_changes_nothing() {
    let mut contract = contract();
    assert_eq!(contract.ft_on_transfer(&s("reward_token"), s("carol"), 1000, s("")), Ok(0));
    assert_eq!(contract.total_donation(), 0);
    assert_eq!(contract.ft_total_supply(), 0);
}

#[test]
fn donation_from_other_token_is_refused() {
    let mut contract = contract();
    stake(&mut contract, "alice", "1");
    let r = contract.ft_on_transfer(&s("fake_token"), s("alice"), 1000, s(""));
    assert_eq!(r, Err(ContractError::Unauthorized));
    assert_eq!(contract.score_of(s("1")), 0);
}

#[test]
fn recording_emits_mint_and_score() {
    let mut contract = contract();
    stake(&mut contract, "alice", "1");
    assert_eq!(contract.internal_record_score(s("1"), 5), Ok(5));
    assert_eq!(contract.internal_record_score(s("2"), 7), Ok(7));
    let logs = contract.events();
    assert_eq!(
        logs[1..].to_vec(),
        vec![
            RewarderEvent::FtMint { owner_id: s("alice"), amount: 5 },
            RewarderEvent::ScoreRecorded { token_id: s("1"), score: 5 },
            RewarderEvent::ScoreRecorded { token_id: s("2"), score: 7 },
        ]
    );
}

#[test]
fn scores_never_decrease_across_recordings() {
    let mut contract = contract();
    let mut last = 0;
    for delta in [0u128, 5, 0, 12, 3] {
        let score = contract.internal_record_score(s("1"), delta).unwrap();
        assert!(score >= last);
        assert_eq!(contract.score_of(s("1")), score);
        last = score;
    }
    assert_eq!(last, 20);
    assert_eq!(contract.ft_total_supply(), 20);
}

#[test]
fn ranking_holds_each_position_once_and_drops_empty_buckets() {
    let mut contract = contract();
    contract.internal_record_score(s("a"), 10).unwrap();
    contract.internal_record_score(s("b"), 10).unwrap();
    contract.internal_record_score(s("a"), 5).unwrap();
    contract.internal_record_score(s("b"), 5).unwrap();
    contract.internal_record_score(s("c"), 0).unwrap();
    assert_eq!(
        contract.get_leaderboard(None),
        vec![(15, vec![(s("a"), None), (s("b"), None)]), (0, vec![(s("c"), None)])]
    );
    assert_eq!(contract.get_leaderboard(Some(1)), vec![(15, vec![(s("a"), None), (s("b"), None)])]);
    assert_eq!(contract.get_leaderboard(Some(0)), vec![]);
}

#[test]
fn zero_delta_moves_position_to_end_of_its_bucket() {
    let mut contract = contract();
    contract.internal_record_score(s("a"), 10).unwrap();
    contract.internal_record_score(s("b"), 10).unwrap();
    contract.internal_record_score(s("a"), 0).unwrap();
    assert_eq!(contract.get_leaderboard(None), vec![(10, vec![(s("b"), None), (s("a"), None)])]);
}

#[test]
fn leaderboard_defaults_to_ten_buckets() {
    let mut contract = contract();
    for i in 0..12u128 {
        contract.internal_record_score(format!("t{}", i), i + 1).unwrap();
    }
    let board = contract.get_leaderboard(None);
    assert_eq!(board.len(), 10);
    assert_eq!(board[0], (12, vec![(s("t11"), None)]));
    assert_eq!(board[9], (3, vec![(s("t2"), None)]));
}

#[test]
fn record_overflow_is_refused_and_changes_nothing() {
    let mut contract = contract();
    contract.internal_record_score(s("1"), u128::MAX).unwrap();
    assert_eq!(contract.internal_record_score(s("1"), 1), Err(ContractError::ArithmeticOverflow));
    assert_eq!(contract.internal_record_score(s("2"), 1), Err(ContractError::ArithmeticOverflow));
    assert_eq!(contract.score_of(s("1")), u128::MAX);
    assert_eq!(contract.score_of(s("2")), 0);
}

#[test]
fn doubled_reward_overflow_is_refused() {
    let mut contract = contract();
    stake(&mut contract, "alice", "1");
    let r = contract.send_rewards(&s("operator"), s("alice"), u128::MAX / 2 + 1);
    assert_eq!(r, Err(ContractError::ArithmeticOverflow));
    assert!(contract.send_rewards(&s("operator"), s("bob"), u128::MAX).is_ok());
}

#[test]
fn one_position_per_account_and_per_token() {
    let mut contract = contract();
    stake(&mut contract, "alice", "1");
    assert_eq!(contract.on_stake(s("alice"), s("2")), Err(ContractError::AlreadyStaked));
    assert_eq!(contract.on_stake(s("bob"), s("1")), Err(ContractError::AlreadyStaked));
    assert_eq!(contract.staker_of(s("1")), Some(s("alice")));
    assert_eq!(contract.primary_nft_of(s("bob")), None);
    contract.on_unstake(s("alice"), s("1")).unwrap();
    assert_eq!(contract.on_stake(s("bob"), s("1")), Ok(()));
    assert_eq!(contract.staker_of(s("1")), Some(s("bob")));
}

#[test]
fn score_survives_unstake_and_restake() {
    let mut contract = contract();
    stake(&mut contract, "alice", "1");
    contract.internal_record_score(s("1"), 42).unwrap();
    contract.on_unstake(s("alice"), s("1")).unwrap();
    assert_eq!(contract.score_of(s("1")), 42);
    assert_eq!(contract.ft_balance_of(s("alice")), 0);
    stake(&mut contract, "bob", "1");
    assert_eq!(contract.ft_balance_of(s("bob")), 42);
}

#[test]
fn unstake_without_position_is_refused() {
    let mut contract = contract();
    assert_eq!(contract.unstake(&s("alice")), Err(ContractError::NothingStaked));
    stake(&mut contract, "alice", "1");
    assert_eq!(contract.on_unstake(s("alice"), s("2")), Err(ContractError::NothingStaked));
    assert_eq!(contract.total_nft_staked(), 1);
}

#[test]
fn only_whitelisted_callers_track_scores() {
    let mut contract = contract();
    assert_eq!(contract.on_track_score(&s("meme"), s("1"), 10), Err(ContractError::Unauthorized));
    assert_eq!(contract.whitelist(&s("alice"), s("meme")), Err(ContractError::Unauthorized));
    contract.whitelist(&s("dao"), s("meme")).unwrap();
    assert_eq!(contract.on_track_score(&s("meme"), s("1"), 10), Ok(10));
    assert_eq!(contract.remove_from_whitelist(&s("meme"), s("meme")), Err(ContractError::Unauthorized));
    contract.remove_from_whitelist(&s("dao"), s("meme")).unwrap();
    assert_eq!(contract.on_track_score(&s("meme"), s("1"), 10), Err(ContractError::Unauthorized));
    assert_eq!(contract.score_of(s("1")), 10);
}

#[test]
fn only_owner_may_upgrade() {
    let mut contract = contract();
    assert_eq!(contract.upgrade(&s("dao")), Ok(()));
    assert_eq!(contract.upgrade(&s("operator")), Err(ContractError::Unauthorized));
    contract.migrate();
    assert_eq!(contract.ft_total_supply(), 0);
}

#[test]
fn storage_prefixes_follow_declaration_order() {
    assert_eq!(StorageKey::PrimaryNFT.prefix(), 0);
    assert_eq!(StorageKey::Scores.prefix(), 3);
    assert_eq!(StorageKey::DonorRanking.prefix(), 5);
}

#[test]
fn snapshot_and_restore_keep_the_state() {
    let mut contract = contract();
    stake(&mut contract, "alice", "1");
    stake(&mut contract, "bob", "2");
    contract.internal_record_score(s("1"), 10).unwrap();
    contract.internal_record_score(s("3"), 10).unwrap();
    contract.internal_record_score(s("2"), 30).unwrap();
    contract.whitelist(&s("dao"), s("meme")).unwrap();
    let transfer = contract.send_rewards(&s("operator"), s("carol"), 5).unwrap();
    contract.on_reward_sent(transfer.token_id, transfer.amount, true).unwrap();

    let snapshot = contract.snapshot();
    assert_eq!(snapshot.stakes, vec![(s("alice"), s("1")), (s("bob"), s("2"))]);
    assert_eq!(snapshot.ranking, vec![(30, vec![s("2")]), (10, vec![s("1"), s("3")])]);
    let restored = Contract::restore(snapshot.clone()).unwrap();
    assert_eq!(restored.snapshot(), snapshot);
    assert_eq!(restored.get_leaderboard(None), contract.get_leaderboard(None));
    assert_eq!(restored.ft_total_supply(), 50);
    assert_eq!(restored.total_distribute(), 5);
    assert_eq!(restored.total_nft_staked(), 2);
    assert!(restored.events().is_empty());
}

fn snapshot_with(stakes: Vec<(String, String)>, ranking: Vec<(u128, Vec<String>)>) -> RewarderSnapshot {
    RewarderSnapshot {
        owner: s("dao"),
        operator: s("operator"),
        whitelisted_record_score_ids: vec![],
        reward_token: s("reward_token"),
        nft: s("nft"),
        stakes,
        ranking,
        total_distribute: 0,
        total_donation: 0,
    }
}

#[test]
fn restore_refuses_inconsistent_snapshots() {
    let twice_staked = snapshot_with(vec![(s("alice"), s("1")), (s("alice"), s("2"))], vec![]);
    assert!(Contract::restore(twice_staked).is_none());
    let token_twice = snapshot_with(vec![(s("alice"), s("1")), (s("bob"), s("1"))], vec![]);
    assert!(Contract::restore(token_twice).is_none());
    let ranked_twice = snapshot_with(vec![], vec![(5, vec![s("1")]), (3, vec![s("1")])]);
    assert!(Contract::restore(ranked_twice).is_none());
    let too_large = snapshot_with(vec![], vec![(u128::MAX, vec![s("1"), s("2")])]);
    assert!(Contract::restore(too_large).is_none());
    let fine = snapshot_with(vec![(s("alice"), s("1"))], vec![(u128::MAX, vec![s("1")])]);
    let restored = Contract::restore(fine).unwrap();
    assert_eq!(restored.ft_balance_of(s("alice")), u128::MAX);
}

#[test]
fn removing_from_whitelist_keeps_the_others_in_order() {
    let mut contract = contract();
    for id in ["a", "b", "a", "c"] {
        contract.whitelist(&s("dao"), s(id)).unwrap();
    }
    contract.remove_from_whitelist(&s("dao"), s("a")).unwrap();
    assert_eq!(contract.snapshot().whitelisted_record_score_ids, vec![s("b"), s("c")]);
}
