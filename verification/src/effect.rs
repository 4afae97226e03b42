//! Effect handlers: what a card does when it resolves.
//!
//! An instant effect declares which named pieces of information it needs
//! (gathered from the outside while the card is being played) and, given that
//! information, produces the atoms that carry it out.

use vstd::prelude::*;

use crate::atom::AtomModel;
use crate::atom::GameAtom;
use crate::game::{spec_controller_of, Game};
use crate::ids::{ObjectId, TargetId};
use crate::state::StateModel;

verus! {

/// When a triggered effect group fires.
#[derive(Debug, Clone, Copy, PartialEq, Eq, Structural)]
pub enum EffectTrigger {
    /// The 'main' card effects, run when the card resolves from the stack.
    ///
    /// For cards staying on the battlefield this is for example usually
    /// empty.
    OnResolve,
    /// Fires whenever a card is played onto the stack.
    OnPlay,
    /// Fires whenever a player draws a card.
    ///
    /// Note: this does not fire when something merely moves between zones.
    OnDraw,
}

/// An instant effect, run synchronously during resolution.
#[derive(Debug, Clone, Copy, PartialEq, Eq, Structural)]
pub enum InstantEffect {
    /// Deal the given amount of damage to one chosen target.
    DealDamage(usize),
    /// The controller of the source draws the given number of cards.
    DrawCards(usize),
}

/// A continuous effect; reserved, the core loop does not run these yet.
#[derive(Debug, Clone, Copy, PartialEq, Eq, Structural)]
pub enum ContinuousEffect {
    Reserved,
}

/// One effect handler of a card.
#[derive(Debug, Clone, Copy, PartialEq, Eq, Structural)]
pub enum Effect {
    Instant(InstantEffect),
    Continuous(ContinuousEffect),
}

/// One piece of information an effect asks for before it can run.
#[derive(Debug, Clone, Copy, PartialEq, Eq)]
pub enum EffectInfoRequest {
    /// A single target, optionally restricted. Only unrestricted targeting is
    /// implemented; the restriction carrier is reserved.
    SingleTarget { restriction: Option<()> },
}

/// One piece of information an effect was given.
#[derive(Debug, Clone, Copy, PartialEq, Eq, Structural)]
pub enum EffectInfo {
    SingleTarget(TargetId),
}

/// Why an effect handler could not run.
#[derive(Debug, Clone)]
pub enum ExecuteFailure {
    /// A required piece of information was missing or of the wrong shape.
    InvalidEffectInfo { name: String },
    /// The source object has no controller, but the effect needs one.
    NoControllerFound,
}

/// The mathematical shape of an execute failure.
pub enum ExecuteFailureModel {
    InvalidEffectInfo { name: Seq<char> },
    NoControllerFound,
}

impl View for ExecuteFailure {
    type V = ExecuteFailureModel;

    open spec fn view(&self) -> ExecuteFailureModel {
        match self {
            ExecuteFailure::InvalidEffectInfo { name } => ExecuteFailureModel::InvalidEffectInfo {
                name: name@,
            },
            ExecuteFailure::NoControllerFound => ExecuteFailureModel::NoControllerFound,
        }
    }
}

/// The information requests an instant effect declares, by name.
pub open spec fn spec_required_info(e: InstantEffect) -> Seq<(Seq<char>, EffectInfoRequest)> {
    match e {
        InstantEffect::DealDamage(_) => seq![
            ("target"@, EffectInfoRequest::SingleTarget { restriction: None }),
        ],
        InstantEffect::DrawCards(_) => Seq::empty(),
    }
}

/// The first piece of information recorded under a name, if any.
pub open spec fn info_lookup(info: Seq<(Seq<char>, EffectInfo)>, name: Seq<char>) -> Option<
    EffectInfo,
>
    decreases info.len(),
{
    if info.len() == 0 {
        None
    } else if info[0].0 == name {
        Some(info[0].1)
    } else {
        info_lookup(info.skip(1), name)
    }
}

/// `info_lookup` finds the first matching entry.
pub proof fn lemma_info_lookup_first(info: Seq<(Seq<char>, EffectInfo)>, name: Seq<char>, i: int)
    requires
        0 <= i < info.len(),
        info[i].0 == name,
        forall|k: int| 0 <= k < i ==> info[k].0 != name,
    ensures
        info_lookup(info, name) == Some(info[i].1),
    decreases info.len(),
{
    if i > 0 {
        lemma_info_lookup_first(info.skip(1), name, i - 1);
    }
}

/// A name that occurs nowhere finds nothing.
pub proof fn lemma_info_lookup_absent(info: Seq<(Seq<char>, EffectInfo)>, name: Seq<char>)
    requires
        forall|k: int| 0 <= k < info.len() ==> info[k].0 != name,
    ensures
        info_lookup(info, name) is None,
    decreases info.len(),
{
    if info.len() > 0 {
        lemma_info_lookup_absent(info.skip(1), name);
    }
}

/// The information entries of a list, as their mathematical shapes.
pub open spec fn view_info(s: Seq<(String, EffectInfo)>) -> Seq<(Seq<char>, EffectInfo)> {
    Seq::new(s.len(), |i: int| (s[i].0@, s[i].1))
}

/// The atoms an instant effect produces, given its gathered information and
/// the snapshot it reads: damage goes to the chosen target; drawing goes to
/// the controller of the source object.
pub open spec fn spec_execute(
    e: InstantEffect,
    info: Seq<(Seq<char>, EffectInfo)>,
    source: ObjectId,
    s: StateModel,
) -> Result<Seq<AtomModel>, ExecuteFailureModel> {
    match e {
        InstantEffect::DealDamage(amount) => match info_lookup(info, "target"@) {
            Some(EffectInfo::SingleTarget(target)) => Ok(
                seq![AtomModel::DealDamage { amount: amount as int, source, target }],
            ),
            None => Err(ExecuteFailureModel::InvalidEffectInfo { name: "target"@ }),
        },
        InstantEffect::DrawCards(count) => match spec_controller_of(s, source) {
            Some(player) => Ok(seq![AtomModel::DrawCards { player, count: count as int }]),
            None => Err(ExecuteFailureModel::NoControllerFound),
        },
    }
}

impl InstantEffect {
    /// Runs this effect: reads the given information and the latest snapshot
    /// of the game, and produces the atoms that carry the effect out.
    pub fn execute(
        &self,
        info: &Vec<(String, EffectInfo)>,
        source: ObjectId,
        game: &Game,
    ) -> (r: Result<Vec<GameAtom>, ExecuteFailure>)
        requires
            crate::game::game_wf(game@),
        ensures
            match r {
                Ok(atoms) => spec_execute(
                    *self,
                    view_info(info@),
                    source,
                    game@.game_states.last(),
                ) == Ok::<Seq<AtomModel>, ExecuteFailureModel>(crate::atom::view_atoms(atoms@)),
                Err(e) => spec_execute(
                    *self,
                    view_info(info@),
                    source,
                    game@.game_states.last(),
                ) == Err::<Seq<AtomModel>, ExecuteFailureModel>(e@),
            },
    {
        match self {
            InstantEffect::DealDamage(amount) => {
                let name: String = "target".to_owned();
                let n = info.len();
                let mut i: usize = 0;
                while i < n
                    invariant
                        n == info@.len(),
                        i <= n,
                        name@ == "target"@,
                        *self == InstantEffect::DealDamage(*amount),
                        forall|k: int| 0 <= k < i ==> view_info(info@)[k].0 != "target"@,
                    decreases n - i,
                {
                    if info[i].0 == name {
                        proof {
                            assert(view_info(info@)[i as int].0 == "target"@);
                            lemma_info_lookup_first(view_info(info@), "target"@, i as int);
                            assert(info_lookup(view_info(info@), "target"@) == Some(
                                info@[i as int].1,
                            ));
                        }
                        match info[i].1 {
                            EffectInfo::SingleTarget(target) => {
                                proof {
                                    assert(info@[i as int].1 == EffectInfo::SingleTarget(
                                        target,
                                    ));
                                }
                                let mut atoms: Vec<GameAtom> = Vec::new();
                                atoms.push(
                                    GameAtom::DealDamage { amount: *amount, source, target },
                                );
                                proof {
                                    assert(crate::atom::view_atoms(atoms@) =~= seq![
                                        AtomModel::DealDamage {
                                            amount: *amount as int,
                                            source,
                                            target,
                                        },
                                    ]);
                                    assert(*self == InstantEffect::DealDamage(*amount));
                                    assert(spec_execute(
                                        *self,
                                        view_info(info@),
                                        source,
                                        game@.game_states.last(),
                                    ) == Ok::<Seq<AtomModel>, ExecuteFailureModel>(
                                        crate::atom::view_atoms(atoms@),
                                    ));
                                }
                                return Ok(atoms);
                            },
                        }
                    }
                    i += 1;
                }
                proof {
                    lemma_info_lookup_absent(view_info(info@), "target"@);
                }
                Err(ExecuteFailure::InvalidEffectInfo { name })
            },
            InstantEffect::DrawCards(count) => {
                match game.get_controller_of(source) {
                    Some(player) => {
                        let mut atoms: Vec<GameAtom> = Vec::new();
                        atoms.push(GameAtom::DrawCards { player, count: *count });
                        proof {
                            assert(crate::atom::view_atoms(atoms@) =~= seq![
                                AtomModel::DrawCards { player, count: *count as int },
                            ]);
                        }
                        Ok(atoms)
                    },
                    None => Err(ExecuteFailure::NoControllerFound),
                }
            },
        }
    }

    /// Declares which named pieces of information this effect needs.
    pub fn get_required_info(&self) -> (r: Vec<(String, EffectInfoRequest)>)
        ensures
            r@.len() == spec_required_info(*self).len(),
            forall|i: int| 0 <= i < r@.len() ==> (
                #[trigger] r@[i].0@,
                r@[i].1,
            ) == spec_required_info(*self)[i],
    {
        match self {
            InstantEffect::DealDamage(_) => {
                let name: String = "target".to_owned();
                let mut out: Vec<(String, EffectInfoRequest)> = Vec::new();
                out.push((name, EffectInfoRequest::SingleTarget { restriction: None }));
                out
            },
            InstantEffect::DrawCards(_) => Vec::new(),
        }
    }
}

} // verus!
