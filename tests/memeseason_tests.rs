use rewarder::error::ContractError;
use rewarder::memeseason::{Contract, FarmConfig, FarmerSeed, MemeseasonSnapshot, ScoreTrack, StorageKey, INTERVAL};

fn s(x: &str) -> String {
    x.to_string()
}

fn config(farm: &str, seed: &str, factor: u128, base: u128, cap: u128, decimals: u8) -> FarmConfig {
    FarmConfig { farm_id: s(farm), seed_id: s(seed), factor, base, cap, decimals }
}

fn configs() -> (FarmConfig, FarmConfig, FarmConfig) {
    (
        config("charlie", "seed1", 1000000000000000000000000, 100000000000000000000, 200000000000000000000, 18),
        config("danny", "seed2", 5000000000000000000000000, 50000000000000000000, 100000000000000000000, 18),
        config("eugene", "seed3", 10000000000000000000000, 50000000000000000000, 100000000000000000000, 24),
    )
}

fn contract() -> Contract {
    let (x, sh, lp) = configs();
    Contract::new(s("bob"), x, sh, lp)
}

#[test]
fn test_internal_calculate_staking_score() {
    let (xref_config, shitzu_config, lp_config) = configs();
    let contract = contract();
    let test_cases = vec![
        (100_000000000000000000, &xref_config, 110_000000000000000000),
        (0, &xref_config, 100_000000000000000000),
        (10_000_000_000_000_000_000_000, &shitzu_config, 70_000000000000000000),
        (0, &lp_config, 50_000000000000000000),
        (90000000000000000000000, &lp_config, 80_000000000000000000),
        (1_000_000_000_000_000_000_000_000, &lp_config, 100_000000000000000000),
    ];
    for (amount, config, expected_score) in test_cases {
        let score = contract.internal_calculate_staking_score(amount, config);
        assert_eq!(score, Ok(expected_score));
    }
}

#[test]
fn bonus_curve_floor_and_cap() {
    let contract = contract();
    let c = config("f", "s", 10_u128.pow(24), 100, 200, 18);
    assert_eq!(contract.internal_calculate_staking_score(0, &c), Ok(100));
    assert_eq!(contract.internal_calculate_staking_score(10_u128.pow(22), &c), Ok(200));
    assert_eq!(contract.internal_calculate_staking_score(u128::MAX, &c), Ok(200));
}

#[test]
fn bonus_curve_between_floor_and_cap() {
    let contract = contract();
    // sqrt(50 * 10^18) = 7071067811, divided by 10^24 / 10^24
    let c = config("f", "s", 10_u128.pow(24), 100, u128::MAX, 18);
    assert_eq!(contract.internal_calculate_staking_score(50, &c), Ok(100 + 7071067811));
    // base above cap: the cap wins
    let c = config("f", "s", 10_u128.pow(24), 300, 200, 18);
    assert_eq!(contract.internal_calculate_staking_score(0, &c), Ok(200));
}

#[test]
fn bonus_curve_refuses_what_cannot_be_evaluated() {
    let contract = contract();
    let low_decimals = config("f", "s", 10_u128.pow(24), 100, 200, 17);
    let zero_factor = config("f", "s", 0, 100, 200, 18);
    let huge = config("f", "s", 10_u128.pow(24), 100, 200, 77);
    assert_eq!(contract.internal_calculate_staking_score(1, &low_decimals), Err(ContractError::ArithmeticOverflow));
    assert_eq!(contract.internal_calculate_staking_score(1, &zero_factor), Err(ContractError::ArithmeticOverflow));
    assert_eq!(contract.internal_calculate_staking_score(u128::MAX, &huge), Err(ContractError::ArithmeticOverflow));
    assert_eq!(contract.internal_calculate_staking_score(0, &huge), Ok(100));
}

#[test]
fn claim_forwards_sum_and_sets_checkpoint() {
    let mut contract = contract();
    let request = contract.claim_ref_memeseason(&s("alice"), 1_000).unwrap();
    assert_eq!(request.claimer, s("alice"));
    assert_eq!(request.rewarder, s("bob"));
    assert_eq!(request.lp.farm_id, s("eugene"));
    assert_eq!(request.lp.seed_id, s("seed3"));
    let track = contract
        .on_claim_ref_memeseason(
            s("alice"),
            Some((s("7"), 0)),
            Some(FarmerSeed { free_amount: 100_000000000000000000 }),
            None,
            Some(FarmerSeed { free_amount: 90000000000000000000000 }),
            1_000,
        )
        .unwrap();
    assert_eq!(
        track,
        ScoreTrack { rewarder: s("bob"), token_id: s("7"), amount: 110_000000000000000000 + 80_000000000000000000 }
    );
    assert_eq!(contract.get_user_checkpoint(s("alice")), Some(1_000));
    assert_eq!(contract.get_user_checkpoint(s("carol")), None);
}

#[test]
fn claim_within_interval_is_too_soon() {
    let mut contract = contract();
    contract.on_claim_ref_memeseason(s("alice"), Some((s("7"), 0)), None, None, None, 5).unwrap();
    assert_eq!(contract.claim_ref_memeseason(&s("alice"), 5 + INTERVAL), Err(ContractError::TooSoon));
    assert_eq!(contract.claim_ref_memeseason(&s("alice"), 4), Err(ContractError::TooSoon));
    assert!(contract.claim_ref_memeseason(&s("alice"), 5 + INTERVAL + 1).is_ok());
    assert!(contract.claim_ref_memeseason(&s("bob"), 6).is_ok());
    let again = contract.on_claim_ref_memeseason(s("alice"), Some((s("7"), 0)), None, None, None, 6);
    assert_eq!(again, Err(ContractError::TooSoon));
    assert_eq!(contract.get_user_checkpoint(s("alice")), Some(5));
}

#[test]
fn claim_without_position_aborts_without_checkpoint() {
    let mut contract = contract();
    let r = contract.on_claim_ref_memeseason(s("alice"), None, None, None, None, 5);
    assert_eq!(r, Err(ContractError::NoPrimaryPosition));
    assert_eq!(contract.get_user_checkpoint(s("alice")), None);
}

#[test]
fn claim_with_unusable_config_aborts() {
    let mut contract = contract();
    let (x, sh, _) = configs();
    let bad = config("eugene", "seed3", 0, 1, 2, 24);
    contract.change_farm_configs(&s("meme"), &s("meme"), x, sh, bad).unwrap();
    let seed = Some(FarmerSeed { free_amount: 1 });
    let r = contract.on_claim_ref_memeseason(s("alice"), Some((s("7"), 0)), None, None, seed, 5);
    assert_eq!(r, Err(ContractError::ArithmeticOverflow));
    assert_eq!(contract.get_user_checkpoint(s("alice")), None);
}

#[test]
fn farm_configs_change_all_at_once_and_only_by_the_contract() {
    let mut contract = contract();
    let (x, sh, lp) = configs();
    let new_lp = config("fargo", "seed4", 1, 2, 3, 24);
    let r = contract.change_farm_configs(&s("alice"), &s("meme"), x.clone(), sh.clone(), new_lp.clone());
    assert_eq!(r, Err(ContractError::Unauthorized));
    assert_eq!(contract.get_farm_configs(), (x.clone(), sh.clone(), lp));
    contract.change_farm_configs(&s("meme"), &s("meme"), x.clone(), sh.clone(), new_lp.clone()).unwrap();
    assert_eq!(contract.get_farm_configs(), (x, sh, new_lp));
}

#[test]
fn checkpoint_prefix_is_zero() {
    assert_eq!(StorageKey::Checkpoint.prefix(), 0);
}

#[test]
fn snapshot_and_restore_keep_checkpoints() {
    let mut contract = contract();
    contract.on_claim_ref_memeseason(s("alice"), Some((s("7"), 0)), None, None, None, 5).unwrap();
    contract.on_claim_ref_memeseason(s("carol"), Some((s("8"), 0)), None, None, None, 9).unwrap();
    let snapshot = contract.snapshot();
    assert_eq!(snapshot.checkpoints, vec![(s("alice"), 5), (s("carol"), 9)]);
    let restored = Contract::restore(snapshot.clone()).unwrap();
    assert_eq!(restored.snapshot(), snapshot);
    assert_eq!(restored.claim_ref_memeseason(&s("carol"), 10), Err(ContractError::TooSoon));
}

#[test]
fn restore_refuses_two_checkpoints_for_one_account() {
    let (xref, shitzu, lp) = configs();
    let snapshot = MemeseasonSnapshot {
        rewarder: s("bob"),
        xref,
        shitzu,
        lp,
        checkpoints: vec![(s("alice"), 1), (s("alice"), 2)],
    };
    assert!(Contract::restore(snapshot).is_none());
}
