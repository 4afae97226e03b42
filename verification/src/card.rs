//! Static card definitions, read from the immutable card database.

use vstd::prelude::*;

use crate::effect::{Effect, EffectTrigger};
use crate::ids::CardId;

verus! {

/// What playing or activating a card costs, as a quantity per resource class
/// plus a class-free quantity.
#[derive(Debug, Clone, Copy, PartialEq, Eq, Structural, Default)]
pub struct Cost {
    pub corp1_scrip: u64,
    pub corp2_scrip: u64,
    pub corp3_scrip: u64,
    pub corp4_scrip: u64,
    pub corp5_scrip: u64,
    pub any_scrip: u64,
}

/// One kind tag of a card.
#[derive(Debug, Clone, Copy, PartialEq, Eq, Structural)]
pub struct CardKind {
    pub kind: BaseCardKind,
}

#[derive(Debug, Clone, Copy, PartialEq, Eq, Structural)]
pub enum AgentSubKind {
    Mercenary,
}

#[derive(Debug, Clone, Copy, PartialEq, Eq, Structural)]
pub enum BuildingSubKind {
    Generic,
}

#[derive(Debug, Clone, Copy, PartialEq, Eq, Structural)]
pub enum AgentPower {
    Fixed(u64),
    Special,
}

#[derive(Debug, Clone, Copy, PartialEq, Eq, Structural)]
pub enum AgentToughness {
    Fixed(u64),
    Special,
}

#[derive(Debug, Clone, Copy, PartialEq, Eq, Structural)]
pub enum BaseCardKind {
    Agent { subkind: AgentSubKind, power: AgentPower, toughness: AgentToughness },
    Building { subkind: BuildingSubKind },
    Quickhack,
    Program,
}

/// An effect group that fires when its trigger happens.
#[derive(Debug, Clone)]
pub struct TriggeredCardEffect {
    pub trigger: EffectTrigger,
    pub effects: Vec<Effect>,
}

/// An effect group a player may pay to activate.
#[derive(Debug, Clone)]
pub struct ActivatedCardEffect {
    pub cost: Cost,
    pub effect: Vec<Effect>,
}

/// An effect that holds as long as the card is in play.
#[derive(Debug, Clone)]
pub struct StaticCardEffect {
    pub effect: Effect,
}

#[derive(Debug, Clone)]
pub enum CardEffect {
    Triggered(TriggeredCardEffect),
    Activated(ActivatedCardEffect),
    Static(StaticCardEffect),
}

/// Everything a card does: its cost, kinds, and effects.
#[derive(Debug, Clone)]
pub struct CardBehaviour {
    pub cost: Option<Cost>,
    pub kind: Vec<CardKind>,
    pub effects: Vec<CardEffect>,
}

/// An immutable static card definition.
#[derive(Debug, Clone)]
pub struct Card {
    pub id: CardId,
    pub behaviour: CardBehaviour,
}

/// The mathematical shape of one card effect.
pub enum CardEffectModel {
    Triggered { trigger: EffectTrigger, effects: Seq<Effect> },
    Activated { cost: Cost, effects: Seq<Effect> },
    Static { effect: Effect },
}

/// The mathematical shape of one card.
pub struct CardModel {
    pub id: CardId,
    pub cost: Option<Cost>,
    pub kinds: Seq<CardKind>,
    pub effects: Seq<CardEffectModel>,
}

impl View for CardEffect {
    type V = CardEffectModel;

    open spec fn view(&self) -> CardEffectModel {
        match self {
            CardEffect::Triggered(t) => CardEffectModel::Triggered {
                trigger: t.trigger,
                effects: t.effects@,
            },
            CardEffect::Activated(a) => CardEffectModel::Activated {
                cost: a.cost,
                effects: a.effect@,
            },
            CardEffect::Static(s) => CardEffectModel::Static { effect: s.effect },
        }
    }
}

impl View for Card {
    type V = CardModel;

    open spec fn view(&self) -> CardModel {
        CardModel {
            id: self.id,
            cost: self.behaviour.cost,
            kinds: self.behaviour.kind@,
            effects: Seq::new(
                self.behaviour.effects@.len(),
                |i: int| self.behaviour.effects@[i]@,
            ),
        }
    }
}

/// The cards of a database, as their mathematical shapes.
pub open spec fn view_cards(s: Seq<Card>) -> Seq<CardModel> {
    Seq::new(s.len(), |i: int| s[i]@)
}

/// The effects that run when a card on the stack resolves: the concatenation,
/// in card order, of the effect lists of its on-resolve triggered groups.
pub open spec fn on_resolve_effects(effects: Seq<CardEffectModel>) -> Seq<Effect>
    decreases effects.len(),
{
    if effects.len() == 0 {
        Seq::empty()
    } else {
        on_resolve_effects(effects.drop_last()) + (match effects.last() {
            CardEffectModel::Triggered { trigger: EffectTrigger::OnResolve, effects: e } => e,
            _ => Seq::empty(),
        })
    }
}

impl Card {
    /// Collects this card's on-resolve effects, in order.
    pub fn collect_on_resolve_effects(&self) -> (r: Vec<Effect>)
        ensures
            r@ == on_resolve_effects(self@.effects),
    {
        let mut out: Vec<Effect> = Vec::new();
        let n = self.behaviour.effects.len();
        let mut i: usize = 0;
        while i < n
            invariant
                n == self.behaviour.effects@.len(),
                i <= n,
                out@ == on_resolve_effects(self@.effects.take(i as int)),
            decreases n - i,
        {
            match &self.behaviour.effects[i] {
                CardEffect::Triggered(t) => {
                    match t.trigger {
                        EffectTrigger::OnResolve => {
                            let m = t.effects.len();
                            let mut j: usize = 0;
                            while j < m
                                invariant
                                    m == t.effects@.len(),
                                    j <= m,
                                    out@ == on_resolve_effects(self@.effects.take(i as int))
                                        + t.effects@.take(j as int),
                                decreases m - j,
                            {
                                out.push(t.effects[j]);
                                assert(t.effects@.take(j + 1int)
                                    == t.effects@.take(j as int).push(t.effects@[j as int]));
                                j += 1;
                            }
                            assert(t.effects@.take(m as int) == t.effects@);
                        },
                        _ => {
                            assert(out@ + Seq::<Effect>::empty() == out@);
                        },
                    }
                },
                _ => {
                    assert(out@ + Seq::<Effect>::empty() == out@);
                },
            }
            proof {
                let evs = self@.effects;
                assert(evs.take(i + 1int).drop_last() == evs.take(i as int));
                assert(evs.take(i + 1int).last() == evs[i as int]);
            }
            i += 1;
        }
        proof {
            assert(self@.effects.take(n as int) == self@.effects);
        }
        out
    }
}

} // verus!
