use vstd::prelude::*;

verus! {

/// Hit points of an entity, never above the maximum it was created with.
#[derive(Clone, Copy, Debug, PartialEq, Eq)]
pub struct Health {
    current: u16,
    maximum: u16,
}

impl Health {
    pub closed spec fn wf(self) -> bool {
        self.current <= self.maximum
    }

    pub closed spec fn spec_current(self) -> u16 {
        self.current
    }

    pub closed spec fn spec_maximum(self) -> u16 {
        self.maximum
    }

    /// A full health pool of the given size.
    pub fn new(maximum: u16) -> (health: Self)
        ensures
            health.wf(),
            health.spec_current() == maximum,
            health.spec_maximum() == maximum,
    {
        Health { current: maximum, maximum }
    }

    pub fn current(self) -> (current: u16)
        ensures
            current == self.spec_current(),
    {
        self.current
    }

    pub fn maximum(self) -> (maximum: u16)
        ensures
            maximum == self.spec_maximum(),
    {
        self.maximum
    }

    /// Restores at most the missing health and returns how much was restored.
    pub fn heal(&mut self, amount: u16) -> (healed: u16)
        requires
            old(self).wf(),
        ensures
            final(self).wf(),
            final(self).spec_maximum() == old(self).spec_maximum(),
            healed == vstd::math::min(
                amount as int,
                old(self).spec_maximum() - old(self).spec_current(),
            ),
            final(self).spec_current() == old(self).spec_current() + healed,
    {
        let missing = self.maximum - self.current;
        let healed = if amount < missing {
            amount
        } else {
            missing
        };
        self.current = self.current + healed;
        healed
    }

    /// Removes at most the remaining health and returns how much was removed.
    pub fn damage(&mut self, amount: u16) -> (damage: u16)
        requires
            old(self).wf(),
        ensures
            final(self).wf(),
            final(self).spec_maximum() == old(self).spec_maximum(),
            damage == vstd::math::min(amount as int, old(self).spec_current() as int),
            final(self).spec_current() == old(self).spec_current() - damage,
    {
        let damage = if amount < self.current {
            amount
        } else {
            self.current
        };
        self.current = self.current - damage;
        damage
    }
}

/// A rechargeable energy pool, never above its maximum.
#[derive(Clone, Copy, Debug, PartialEq, Eq)]
pub struct Energy {
    current: u16,
    maximum: u16,
}

impl Energy {
    pub closed spec fn wf(self) -> bool {
        self.current <= self.maximum
    }

    pub closed spec fn spec_current(self) -> u16 {
        self.current
    }

    pub closed spec fn spec_maximum(self) -> u16 {
        self.maximum
    }

    /// A full energy pool of the given size.
    pub fn new(maximum: u16) -> (energy: Self)
        ensures
            energy.wf(),
            energy.spec_current() == maximum,
            energy.spec_maximum() == maximum,
    {
        Energy { current: maximum, maximum }
    }

    pub fn current(self) -> (current: u16)
        ensures
            current == self.spec_current(),
    {
        self.current
    }

    pub fn maximum(self) -> (maximum: u16)
        ensures
            maximum == self.spec_maximum(),
    {
        self.maximum
    }

    /// Restores at most the missing energy and returns how much was restored.
    pub fn recharge(&mut self, amount: u16) -> (restored: u16)
        requires
            old(self).wf(),
        ensures
            final(self).wf(),
            final(self).spec_maximum() == old(self).spec_maximum(),
            restored == vstd::math::min(
                amount as int,
                old(self).spec_maximum() - old(self).spec_current(),
            ),
            final(self).spec_current() == old(self).spec_current() + restored,
    {
        let missing = self.maximum - self.current;
        let restored = if amount < missing {
            amount
        } else {
            missing
        };
        self.current = self.current + restored;
        restored
    }

    /// Spends the whole amount when it is available; otherwise spends nothing.
    pub fn spend(&mut self, amount: u16) -> (spent: bool)
        requires
            old(self).wf(),
        ensures
            final(self).wf(),
            final(self).spec_maximum() == old(self).spec_maximum(),
            spent == (amount <= old(self).spec_current()),
            spent ==> final(self).spec_current() == old(self).spec_current() - amount,
            !spent ==> *final(self) == *old(self),
    {
        if amount > self.current {
            return false;
        }
        self.current = self.current - amount;
        true
    }
}

/// A player's money balance.
#[derive(Clone, Copy, Debug, Default, PartialEq, Eq)]
pub struct Wallet {
    money: u64,
}

impl Wallet {
    pub closed spec fn spec_money(self) -> u64 {
        self.money
    }

    pub fn new(money: u64) -> (wallet: Self)
        ensures
            wallet.spec_money() == money,
    {
        Wallet { money }
    }

    pub fn money(self) -> (money: u64)
        ensures
            money == self.spec_money(),
    {
        self.money
    }

    /// Adds money, saturating at the largest representable balance.
    pub fn deposit(&mut self, amount: u64)
        ensures
            final(self).spec_money() == vstd::math::min(
                old(self).spec_money() + amount,
                u64::MAX as int,
            ),
    {
        self.money = self.money.saturating_add(amount);
    }

    /// Withdraws the whole amount when the balance covers it; otherwise
    /// leaves the balance unchanged.
    pub fn withdraw(&mut self, amount: u64) -> (withdrawn: bool)
        ensures
            withdrawn == (amount <= old(self).spec_money()),
            withdrawn ==> final(self).spec_money() == old(self).spec_money() - amount,
            !withdrawn ==> final(self).spec_money() == old(self).spec_money(),
    {
        match self.money.checked_sub(amount) {
            Some(remaining) => {
                self.money = remaining;
                true
            },
            None => false,
        }
    }
}

} // verus!
