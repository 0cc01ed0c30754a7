use vstd::prelude::*;
use crate::judge::Judgement;

verus! {

/// The combo-heal health mode: health is restored once every `combo_for_heal`
/// healing judgements.
#[derive(Clone, Copy, Debug, PartialEq, Eq, Structural)]
pub struct ComboHealConfig {
    pub combo_for_heal: usize,
}

impl Default for ComboHealConfig {
    fn default() -> (r: ComboHealConfig)
        ensures
            r.combo_for_heal == 10,
    {
        ComboHealConfig { combo_for_heal: 10 }
    }
}

/// One healing judgement in combo-heal mode: the combo counter after it, and
/// whether health is restored now.
pub open spec fn combo_step(combo_for_heal: nat, cumulative: nat) -> (nat, bool) {
    if cumulative + 1 >= combo_for_heal {
        (0, true)
    } else {
        (cumulative + 1, false)
    }
}

impl ComboHealConfig {
    /// Counts one healing judgement: the counter goes up by one, and when it
    /// reaches `combo_for_heal` health is restored and the counter starts over.
    pub fn tick(&self, cumulative: usize) -> (r: (usize, bool))
        requires
            cumulative < usize::MAX,
        ensures
            (r.0 as nat, r.1) == combo_step(self.combo_for_heal as nat, cumulative as nat),
    {
        let next = cumulative + 1;
        if next >= self.combo_for_heal {
            (0, true)
        } else {
            (next, false)
        }
    }
}

/// The counter and the number of restorations after `n` healing judgements in a
/// row, starting from counter `c`.
pub open spec fn combo_run(k: nat, c: nat, n: nat) -> (nat, nat)
    decreases n,
{
    if n == 0 {
        (c, 0)
    } else {
        let s = combo_step(k, c);
        let rest = combo_run(k, s.0, (n - 1) as nat);
        (rest.0, rest.1 + if s.1 { 1nat } else { 0nat })
    }
}

/// In combo-heal mode, `n` healing judgements in a row from a counter below
/// `combo_for_heal` restore health once for each full `combo_for_heal` of them,
/// counting the ones already on the counter, and leave the rest on the counter.
pub proof fn law_combo_heal_cycle(combo_for_heal: nat, start: nat, n: nat)
    requires
        start < combo_for_heal,
    ensures
        combo_run(combo_for_heal, start, n) == ((start + n) % combo_for_heal, (start + n)
            / combo_for_heal),
    decreases n,
{
    let k = combo_for_heal;
    if n == 0 {
        assert(start % k == start) by (nonlinear_arith)
            requires
                start < k,
        ;
        assert(start / k == 0) by (nonlinear_arith)
            requires
                start < k,
        ;
    } else {
        let m = (n - 1) as nat;
        if start + 1 >= k {
            law_combo_heal_cycle(k, 0, m);
            assert((start + n) % k == m % k && (start + n) / k == m / k + 1) by (nonlinear_arith)
                requires
                    start + 1 == k,
                    m + 1 == n,
                    k > 0,
            {
                assert(start + n == k + m);
            }
        } else {
            law_combo_heal_cycle(k, start + 1, m);
            assert(start + 1 + m == start + n);
        }
    }
}

/// Which configured factor a judgement applies.
#[derive(Clone, Copy, Debug, PartialEq, Eq, Structural)]
pub enum FactorSlot {
    Perfect,
    Good,
    Bad,
}

/// What a judgement does to health: heal or damage by the factor of a slot.
#[derive(Clone, Copy, Debug, PartialEq, Eq, Structural)]
pub enum HealthReaction {
    Heal(FactorSlot),
    Damage(FactorSlot),
}

/// Which judgements heal; the others damage.
#[derive(Clone, Copy, Debug, PartialEq, Eq, Structural)]
pub struct HealRules {
    pub perfect_heal: bool,
    pub good_heal: bool,
    pub bad_heal: bool,
}

pub open spec fn reaction_of(rules: HealRules, judge: Judgement) -> HealthReaction {
    match judge {
        Judgement::Perfect => if rules.perfect_heal {
            HealthReaction::Heal(FactorSlot::Perfect)
        } else {
            HealthReaction::Damage(FactorSlot::Perfect)
        },
        Judgement::Good => if rules.good_heal {
            HealthReaction::Heal(FactorSlot::Good)
        } else {
            HealthReaction::Damage(FactorSlot::Good)
        },
        _ => if rules.bad_heal {
            HealthReaction::Heal(FactorSlot::Bad)
        } else {
            HealthReaction::Damage(FactorSlot::Bad)
        },
    }
}

impl HealRules {
    /// The reaction of health to a judgement: a perfect uses the perfect factor, a
    /// good the good one, a bad or a miss the bad one; each heals when its flag is
    /// set and damages otherwise.
    pub fn reaction(&self, judge: Judgement) -> (r: HealthReaction)
        ensures
            r == reaction_of(*self, judge),
    {
        match judge {
            Judgement::Perfect => if self.perfect_heal {
                HealthReaction::Heal(FactorSlot::Perfect)
            } else {
                HealthReaction::Damage(FactorSlot::Perfect)
            },
            Judgement::Good => if self.good_heal {
                HealthReaction::Heal(FactorSlot::Good)
            } else {
                HealthReaction::Damage(FactorSlot::Good)
            },
            _ => if self.bad_heal {
                HealthReaction::Heal(FactorSlot::Bad)
            } else {
                HealthReaction::Damage(FactorSlot::Bad)
            },
        }
    }
}

} // verus!

verus! {

/// Health reacts to a judgement by its own factor: a perfect by the perfect one, a
/// good by the good one, and a bad or a miss alike by the bad one; it heals exactly
/// when that judgement's flag is set.
pub proof fn law_reaction_by_judgement(rules: HealRules, judge: Judgement)
    ensures
        reaction_of(rules, Judgement::Bad) == reaction_of(rules, Judgement::Miss),
        ({
            let (heals, slot) = match reaction_of(rules, judge) {
                HealthReaction::Heal(s) => (true, s),
                HealthReaction::Damage(s) => (false, s),
            };
            &&& judge == Judgement::Perfect ==> slot == FactorSlot::Perfect && heals == rules.perfect_heal
            &&& judge == Judgement::Good ==> slot == FactorSlot::Good && heals == rules.good_heal
            &&& (judge == Judgement::Bad || judge == Judgement::Miss) ==> slot == FactorSlot::Bad && heals
                == rules.bad_heal
        }),
{
}

} // verus!
