use deep_tek::{
    ContractCompany, CorporationProgress, DELIVERY_DELAY_NANOS, DeliveryCrate, DeliverySystem, ItemId,
    MACHINE_OFFERS, MAX_CORPORATION_LEVEL, MAX_PENDING_DELIVERIES, PROGRAM_DELIVERY_DELAY_NANOS,
    PurchaseError, ScheduleDeliveryError, Wallet, machine_offer,
};

#[test]
fn machine_catalogue_has_offers_from_every_corporation() {
    let offers = MACHINE_OFFERS();
    for company in ContractCompany::ALL {
        assert!(offers.iter().any(|offer| offer.company == company));
    }
    assert!(offers.iter().all(|offer| offer.price > 0));
    assert!(offers.iter().all(|offer| offer.minimum_company_level <= MAX_CORPORATION_LEVEL));
    assert!(machine_offer(ItemId::RED_SHAFT_BORE).is_some_and(|offer| offer.minimum_company_level >= 3));
}

#[test]
fn purchase_charges_once_and_delivers_after_fifteen_seconds() {
    let mut system = DeliverySystem::new();
    let mut wallet = Wallet::new(2_000);
    assert_eq!(
        system.purchase(ItemId::LASER_BORE, &mut wallet, CorporationProgress::default()),
        Ok(())
    );
    assert_eq!(wallet.money(), 500);
    assert_eq!(system.pending_count(), 1);
    assert!(system.take_due(DELIVERY_DELAY_NANOS - 100_000_000).is_empty());
    let due = system.take_due(100_000_000);
    assert_eq!(due, vec![(ItemId::LASER_BORE, 0)]);
    assert_eq!(system.pending_count(), 0);
}

#[test]
fn rejected_purchase_never_charges_or_enters_the_queue() {
    let mut system = DeliverySystem::new();
    let mut wallet = Wallet::new(100);
    assert_eq!(
        system.purchase(ItemId::LASER_BORE, &mut wallet, CorporationProgress::default()),
        Err(PurchaseError::InsufficientFunds)
    );
    assert_eq!(wallet.money(), 100);
    assert_eq!(system.pending_count(), 0);
    assert_eq!(
        system.purchase(ItemId::PICKAXE, &mut wallet, CorporationProgress::default()),
        Err(PurchaseError::ItemNotOffered)
    );
}

#[test]
fn program_batch_is_atomic_and_uses_the_standard_delivery_delay() {
    let mut system = DeliverySystem::new();
    let mut wallet = Wallet::new(2_000);
    system
        .purchase(ItemId::LASER_BORE, &mut wallet, CorporationProgress::default())
        .unwrap();
    let items = [ItemId::ORBITAL_EXPORT_LAUNCHER, ItemId::SOLAR_ARRAY, ItemId::PYLON];
    system.schedule_batch(&items, PROGRAM_DELIVERY_DELAY_NANOS).unwrap();
    assert_eq!(
        system.pending_items(),
        vec![
            ItemId::LASER_BORE,
            ItemId::ORBITAL_EXPORT_LAUNCHER,
            ItemId::SOLAR_ARRAY,
            ItemId::PYLON,
        ]
    );
    assert_eq!(system.take_due(PROGRAM_DELIVERY_DELAY_NANOS - 100_000_000).len(), 0);
    assert_eq!(system.take_due(100_000_000).len(), 4);
    assert_eq!(system.pending_count(), 0);
}

#[test]
fn corporation_locked_offer_stays_unpurchased_until_the_required_level() {
    let mut system = DeliverySystem::new();
    let mut wallet = Wallet::new(10_000);
    assert_eq!(
        system.purchase(ItemId::RED_SHAFT_BORE, &mut wallet, CorporationProgress::default()),
        Err(PurchaseError::CorporationLevelRequired)
    );
    assert_eq!(wallet.money(), 10_000);
    assert_eq!(system.pending_count(), 0);

    let level_three = CorporationProgress::from_experience([0, 0, 500]);
    assert_eq!(system.purchase(ItemId::RED_SHAFT_BORE, &mut wallet, level_three), Ok(()));
}

#[test]
fn batches_that_do_not_fit_are_refused_whole() {
    let mut system = DeliverySystem::new();
    let items = vec![ItemId::PYLON; MAX_PENDING_DELIVERIES];
    assert_eq!(system.schedule_batch(&items, 0), Ok(()));
    assert_eq!(
        system.schedule_batch(&[ItemId::BED], 0),
        Err(ScheduleDeliveryError::QueueFull)
    );
    let mut wallet = Wallet::new(5_000);
    assert_eq!(
        system.purchase(ItemId::LASER_BORE, &mut wallet, CorporationProgress::default()),
        Err(PurchaseError::QueueFull)
    );
    assert_eq!(wallet.money(), 5_000);
}

#[test]
fn later_arrivals_queue_behind_earlier_ones() {
    let mut system = DeliverySystem::new();
    system.schedule_batch(&[ItemId::DOOR], 50).unwrap();
    system.schedule_batch(&[ItemId::BED], 10).unwrap();
    system.schedule_batch(&[ItemId::BATTERY], 50).unwrap();
    assert_eq!(system.pending_items(), vec![ItemId::BED, ItemId::DOOR, ItemId::BATTERY]);
    assert_eq!(system.nanos_until_next(), Some(10));
    let due = system.take_due(60);
    assert_eq!(due, vec![(ItemId::BED, 0), (ItemId::DOOR, 1), (ItemId::BATTERY, 2)]);
    assert_eq!(system.nanos_until_next(), None);
}

#[test]
fn saved_queues_round_trip_and_reject_bad_orders() {
    let mut system = DeliverySystem::new();
    system.schedule_batch(&[ItemId::DOOR, ItemId::BED], 30).unwrap();
    let (elapsed, sequence, pending) = system.saved_state();
    let restored = DeliverySystem::from_saved(elapsed, sequence, pending).unwrap();
    assert_eq!(restored, system);
    assert!(DeliverySystem::from_saved(40, 0, vec![(ItemId::DOOR, 30)]).is_none());
    assert!(DeliverySystem::from_saved(0, 0, vec![(ItemId::DOOR, 30), (ItemId::BED, 20)]).is_none());
}

#[test]
fn offers_unlock_with_the_sellers_level() {
    let offer = machine_offer(ItemId::LASER_BORE).unwrap();
    assert!(offer.is_unlocked(CorporationProgress::default()));
    assert!(offer.can_purchase(CorporationProgress::default(), 1_500));
    assert!(!offer.can_purchase(CorporationProgress::default(), 1_499));
    assert_eq!(DeliveryCrate::new(ItemId::TURRET).item(), ItemId::TURRET);
}
