use deep_tek::{Energy, Health, Wallet};

#[test]
fn energy_never_overfills_or_spends_more_than_available() {
    let mut energy = Energy::new(100);
    assert!(energy.spend(35));
    assert!(!energy.spend(66));
    assert_eq!(energy.current(), 65);
    assert_eq!(energy.recharge(80), 35);
    assert_eq!(energy.current(), 100);
}

#[test]
fn wallet_changes_are_checked_and_deposits_saturate() {
    let mut wallet = Wallet::new(25);
    assert!(!wallet.withdraw(26));
    assert!(wallet.withdraw(10));
    wallet.deposit(u64::MAX);
    assert_eq!(wallet.money(), u64::MAX);
}

#[test]
fn health_heals_and_damages_within_its_bounds() {
    let mut health = Health::new(50);
    assert_eq!(health.damage(70), 50);
    assert_eq!(health.current(), 0);
    assert_eq!(health.heal(20), 20);
    assert_eq!(health.heal(40), 30);
    assert_eq!(health.current(), 50);
    assert_eq!(health.maximum(), 50);
}

#[test]
fn withdrawing_exactly_the_balance_empties_the_wallet() {
    let mut wallet = Wallet::new(40);
    assert!(wallet.withdraw(40));
    assert_eq!(wallet.money(), 0);
    assert!(!wallet.withdraw(1));
}
