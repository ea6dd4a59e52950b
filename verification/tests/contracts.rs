use deep_tek::{
    AcceptContractError, ClaimContractError, Contract, ContractBoard, ContractCompany,
    ContractExportResult, ContractId, ContractProgressResult, ContractReward, CorporationProgress,
    FurnitureObject, ItemId, MAX_ACTIVE_CONTRACTS, MAX_CORPORATION_LEVEL,
    apply_export_to_contracts, built_in_contracts,
};

#[test]
fn built_in_contracts_cover_each_company() {
    let contracts = built_in_contracts();
    for company in [
        ContractCompany::DeepTekIndustries,
        ContractCompany::VanguardDefence,
        ContractCompany::AstraSurveyCorp,
    ] {
        assert!(contracts.iter().any(|contract| contract.company == company));
    }
    assert!(
        contracts
            .iter()
            .all(|contract| { !contract.requirement.is_empty() && contract.reward > 0 })
    );
}

#[test]
fn exports_progress_matching_contracts_without_double_counting_items() {
    let mut contracts = vec![
        Contract::export_items(
            "FIRST",
            100,
            ContractCompany::DeepTekIndustries,
            ItemId::STONE_BLOCK,
            5,
        ),
        Contract::export_items(
            "SECOND",
            200,
            ContractCompany::AstraSurveyCorp,
            ItemId::STONE_BLOCK,
            10,
        ),
    ];

    assert_eq!(
        apply_export_to_contracts(&mut contracts, ItemId::STONE_BLOCK, 8),
        ContractExportResult {
            contributed: 8,
            completed_contracts: 1,
        }
    );
    assert_eq!(contracts[0].export_progress().unwrap().exported, 5);
    assert_eq!(contracts[1].export_progress().unwrap().exported, 3);
    assert_eq!(
        apply_export_to_contracts(&mut contracts, ItemId::STONE_BLOCK, 7),
        ContractExportResult {
            contributed: 7,
            completed_contracts: 1,
        }
    );
    assert!(contracts[1].export_progress().unwrap().is_complete());

    assert_eq!(
        apply_export_to_contracts(&mut contracts, ItemId::STONE_BLOCK, 10),
        ContractExportResult::default()
    );
}

#[test]
fn unrelated_exports_do_not_change_contract_progress() {
    let mut contracts = built_in_contracts();
    let before = contracts[0].export_progress().unwrap();
    assert_eq!(
        apply_export_to_contracts(&mut contracts, ItemId::CHEST, 50),
        ContractExportResult::default()
    );
    assert_eq!(contracts[0].export_progress(), Some(before));
}

#[test]
fn board_accepts_at_most_four_contracts() {
    let mut board = ContractBoard::with_built_ins();
    for _ in 0..MAX_ACTIVE_CONTRACTS {
        assert_eq!(board.accept(0), Ok(()));
    }
    assert_eq!(
        board.accept(0),
        Err(AcceptContractError::ActiveLimitReached)
    );
    assert_eq!(board.active().len(), MAX_ACTIVE_CONTRACTS);
}

#[test]
fn completed_reward_can_only_be_claimed_once() {
    let mut board = ContractBoard::new(vec![Contract::export_items(
        "STONE",
        250,
        ContractCompany::DeepTekIndustries,
        ItemId::STONE_BLOCK,
        2,
    )]);
    board.accept(0).unwrap();
    assert_eq!(board.claim_reward(0), Err(ClaimContractError::Incomplete));
    assert_eq!(
        board
            .apply_export(ItemId::STONE_BLOCK, 2)
            .completed_contracts,
        1
    );
    assert_eq!(
        board.claim_reward(0),
        Ok(ContractReward {
            money: 250,
            company: ContractCompany::DeepTekIndustries,
            experience: 100,
        })
    );
    assert_eq!(
        board.claim_reward(0),
        Err(ClaimContractError::InvalidContract)
    );
}

#[test]
fn corporation_experience_levels_and_caps_at_five() {
    let mut progress = CorporationProgress::default();
    let company = ContractCompany::AstraSurveyCorp;

    assert_eq!(progress.level(company), 0);
    assert_eq!(progress.award(company, 249), 249);
    assert_eq!(progress.level(company), 1);
    assert_eq!(progress.next_level_experience(company), Some(250));
    assert_eq!(progress.award(company, 10_000), 1_251);
    assert_eq!(progress.experience(company), 1_500);
    assert_eq!(progress.level(company), MAX_CORPORATION_LEVEL);
    assert_eq!(progress.next_level_experience(company), None);
    assert_eq!(progress.award(company, 100), 0);
}

#[test]
fn mining_contract_counts_only_its_requested_item() {
    let mut board = ContractBoard::new(Vec::new());
    board.add_active(Contract::mine_items(
        "MINE STONE",
        100,
        ContractCompany::DeepTekIndustries,
        ItemId::STONE_BLOCK,
        2,
    ));
    assert_eq!(
        board.apply_mined(ItemId::DIRT_BLOCK, 10),
        ContractProgressResult::default()
    );
    assert_eq!(
        board
            .apply_mined(ItemId::STONE_BLOCK, 2)
            .completed_contracts,
        1
    );
    assert!(board.active()[0].is_complete());
}

#[test]
fn build_and_export_contract_requires_every_placement_and_the_shipment() {
    let mut board = ContractBoard::new(Vec::new());
    board.add_active(Contract::build_and_export(
        "BUILD AND EXPORT",
        100,
        ContractCompany::DeepTekIndustries,
        vec![
            FurnitureObject::ORBITAL_EXPORT_LAUNCHER,
            FurnitureObject::SOLAR_ARRAY,
            FurnitureObject::PYLON,
        ],
        ItemId::STONE_BLOCK,
        2,
    ));
    for object_type in [
        FurnitureObject::ORBITAL_EXPORT_LAUNCHER,
        FurnitureObject::SOLAR_ARRAY,
        FurnitureObject::PYLON,
    ] {
        board.apply_placement(object_type);
    }
    assert!(!board.active()[0].is_complete());
    board.apply_export(ItemId::STONE_BLOCK, 2);
    assert!(board.active()[0].is_complete());
}

#[test]
fn repeated_placements_count_once_per_required_object() {
    let mut board = ContractBoard::new(Vec::new());
    board.add_active(Contract::build_and_export(
        "TWO PYLONS",
        100,
        ContractCompany::VanguardDefence,
        vec![FurnitureObject::PYLON, FurnitureObject::PYLON],
        ItemId::DIRT_BLOCK,
        1,
    ));
    assert_eq!(board.apply_placement(FurnitureObject::PYLON).contributed, 1);
    assert_eq!(board.apply_placement(FurnitureObject::PYLON).contributed, 1);
    assert_eq!(
        board.apply_placement(FurnitureObject::PYLON),
        ContractProgressResult::default()
    );
    assert_eq!(
        board.active()[0].build_and_export_progress().unwrap().placed,
        2
    );
    let result = board.apply_export(ItemId::DIRT_BLOCK, 5);
    assert_eq!(result.contributed, 1);
    assert_eq!(result.completed_contracts, 1);
}

#[test]
fn programme_progress_only_rises_and_completes_once() {
    let mut board = ContractBoard::new(Vec::new());
    board.add_active(Contract::program_mission(
        ContractId::BreakingGround,
        "MISSION",
        10,
        20,
        3,
    ));
    assert!(!board.set_program_progress(ContractId::BreakingGround, 2, 3));
    assert!(!board.set_program_progress(ContractId::BreakingGround, 1, 3));
    assert_eq!(
        board.active()[0].program_progress().unwrap().completed,
        2
    );
    assert!(!board.set_program_progress(ContractId::BreakingGround, 5, 4));
    assert!(board.set_program_progress(ContractId::BreakingGround, 9, 3));
    assert_eq!(
        board.active()[0].program_progress().unwrap().completed,
        3
    );
    assert!(!board.set_program_progress(ContractId::BreakingGround, 3, 3));
    assert!(board.contains_active(ContractId::BreakingGround));
    assert!(!board.set_program_progress(ContractId::Depth100, 1, 1));
}

#[test]
fn a_programme_mission_is_added_only_once() {
    let mut board = ContractBoard::new(Vec::new());
    let mission = Contract::program_mission(ContractId::Depth100, "DEPTH", 1, 1, 1);
    board.add_active(mission.clone());
    board.add_active(mission);
    assert_eq!(board.active().len(), 1);
    assert!(board.active_contract(ContractId::Depth100).is_some());
    assert!(board.active_contract(ContractId::Depth250).is_none());
}

#[test]
fn accepting_an_invalid_index_is_rejected() {
    let mut board = ContractBoard::new(Vec::new());
    assert_eq!(board.accept(0), Err(AcceptContractError::InvalidContract));
}

#[test]
fn saved_boards_with_repeated_missions_are_rejected() {
    let mission = Contract::program_mission(ContractId::Depth100, "DEPTH", 1, 1, 1);
    assert!(ContractBoard::from_saved(Vec::new(), vec![mission.clone(), mission.clone()]).is_none());
    assert!(ContractBoard::from_saved(Vec::new(), vec![mission]).is_some());
}

#[test]
fn saved_objectives_round_trip_and_invalid_progress_is_refused() {
    let contract = Contract::mine_items("MINE", 5, ContractCompany::AstraSurveyCorp, ItemId::IRON_ORE, 4);
    let saved = contract.saved_objective();
    let restored = Contract::from_saved(
        None,
        contract.requirement.clone(),
        contract.reward,
        contract.company,
        contract.experience_reward,
        saved,
    );
    assert_eq!(restored, Some(contract));
    assert!(
        Contract::from_saved(
            None,
            String::from("BAD"),
            1,
            ContractCompany::DeepTekIndustries,
            1,
            deep_tek::contracts::SavedContractObjective::ExportItems {
                item: ItemId::DIRT_BLOCK,
                exported: 5,
                required: 4,
            },
        )
        .is_none()
    );
}

#[test]
fn corporation_levels_follow_the_thresholds() {
    let progress = CorporationProgress::from_experience([99, 500, 5_000]);
    assert_eq!(progress.level(ContractCompany::DeepTekIndustries), 0);
    assert_eq!(progress.level(ContractCompany::VanguardDefence), 3);
    assert_eq!(progress.experience(ContractCompany::AstraSurveyCorp), 1_500);
    assert_eq!(progress.next_level_experience(ContractCompany::VanguardDefence), Some(900));
    assert_eq!(ContractCompany::VanguardDefence.short_name(), "VANGUARD");
    assert_eq!(ContractCompany::AstraSurveyCorp.display_name(), "ASTRA SURVEY CORP");
    assert_eq!(ContractCompany::AstraSurveyCorp.index(), 2);
}

#[test]
fn shipment_before_placements_does_not_count_as_completed() {
    let mut board = ContractBoard::new(Vec::new());
    board.add_active(Contract::build_and_export(
        "TWO PYLONS",
        100,
        ContractCompany::VanguardDefence,
        vec![FurnitureObject::PYLON, FurnitureObject::PYLON],
        ItemId::DIRT_BLOCK,
        1,
    ));
    let shipped = board.apply_export(ItemId::DIRT_BLOCK, 5);
    assert_eq!(shipped.contributed, 1);
    assert_eq!(shipped.completed_contracts, 0);
    assert!(!board.active()[0].is_complete());
    assert_eq!(board.apply_placement(FurnitureObject::PYLON).completed_contracts, 0);
    assert_eq!(
        board.apply_placement(FurnitureObject::PYLON),
        ContractProgressResult { contributed: 1, completed_contracts: 1 }
    );
    assert!(board.active()[0].is_complete());
}
