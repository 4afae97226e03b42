//! Atoms: the only way game state changes.
//!
//! The canonical form of a game transition is a list of atoms. The spec
//! function [`spec_apply_atom`] is the mathematical meaning of one atom:
//! a function of the players, the snapshot and the generator state, so that
//! the same atoms applied to the same snapshot always yield the same
//! successor. The executable [`apply_atom_once`] is proved to compute exactly
//! that function.

use vstd::prelude::*;

use crate::effect::{ExecuteFailure, ExecuteFailureModel};
use crate::ids::{CardId, ObjectId, PlayerId, TargetId};
use crate::rng::{apply_perm, rng_words, shuffle_objects, shuffle_perm, words_after_shuffle};
use crate::state::{
    lemma_object_index_of_absent, lemma_object_index_of_first, object_index_of, player_ids,
    view_players, zone_index_of,
};
use crate::state::{GameStage, GameState, Player, PlayerModel, StageModel, StateModel};
use crate::zone::{view_choices, ChoiceEntry, ChoiceModel, GameObject, ObjectModel, ZoneId};

verus! {

/// One unit of game-state mutation.
#[derive(Debug, Clone, PartialEq)]
pub enum GameAtom {
    /// Starts the game; only valid while the mulligan stage is open.
    StartGame,
    /// Records that a player keeps their opening hand.
    KeepHand { player: PlayerId },
    /// Moves the player's whole hand into their library and shuffles it.
    ShuffleHandIntoLibrary { player: PlayerId },
    /// Moves up to `count` objects from the top of the player's library into
    /// their hand, keeping their relative order.
    DrawCards { player: PlayerId, count: usize },
    /// Deals damage from a source object to a target player; recorded on the
    /// target's damage ledger. Damage to objects is not implemented.
    DealDamage { amount: usize, source: ObjectId, target: TargetId },
    /// The player at the head of the unpassed list passes priority.
    PassPriority { player: PlayerId },
    /// Moves an object out of a zone onto the stack, giving it a controller
    /// and the gathered choices.
    PlayerPlayCard { player: PlayerId, from: ZoneId, object: ObjectId, choices: Vec<ChoiceEntry> },
    /// Restores the unpassed list to the full turn order.
    ResetPriority,
    /// Removes the topmost object of the stack, if any.
    PopStack,
}

/// The mathematical shape of one atom.
pub enum AtomModel {
    StartGame,
    KeepHand { player: PlayerId },
    ShuffleHandIntoLibrary { player: PlayerId },
    DrawCards { player: PlayerId, count: int },
    DealDamage { amount: int, source: ObjectId, target: TargetId },
    PassPriority { player: PlayerId },
    PlayerPlayCard { player: PlayerId, from: ZoneId, object: ObjectId, choices: Seq<ChoiceModel> },
    ResetPriority,
    PopStack,
}

impl View for GameAtom {
    type V = AtomModel;

    open spec fn view(&self) -> AtomModel {
        match self {
            GameAtom::StartGame => AtomModel::StartGame,
            GameAtom::KeepHand { player } => AtomModel::KeepHand { player: *player },
            GameAtom::ShuffleHandIntoLibrary { player } => AtomModel::ShuffleHandIntoLibrary {
                player: *player,
            },
            GameAtom::DrawCards { player, count } => AtomModel::DrawCards {
                player: *player,
                count: *count as int,
            },
            GameAtom::DealDamage { amount, source, target } => AtomModel::DealDamage {
                amount: *amount as int,
                source: *source,
                target: *target,
            },
            GameAtom::PassPriority { player } => AtomModel::PassPriority { player: *player },
            GameAtom::PlayerPlayCard { player, from, object, choices } => AtomModel::PlayerPlayCard {
                player: *player,
                from: *from,
                object: *object,
                choices: view_choices(choices@),
            },
            GameAtom::ResetPriority => AtomModel::ResetPriority,
            GameAtom::PopStack => AtomModel::PopStack,
        }
    }
}

/// Why a step of the engine failed.
#[derive(Debug, Clone)]
pub enum GameError {
    /// A start-game atom arrived while the game was already running.
    GameAlreadyRunning,
    /// A keep-hand atom arrived during normal game running.
    KeepHandDuringGame,
    /// The outside selected an action index outside the offered list.
    InvalidAction { list_length: usize, selected_action: usize },
    /// The named object could not be found in the named zone.
    ObjectNotFoundInZone { zone: ZoneId, object: ObjectId },
    /// A player passed although it is not their moment to pass.
    InvalidPlayerPassing { player: PlayerId },
    /// An object was expected to carry an underlying card, but did not.
    NoUnderlyingCard { object: ObjectId },
    /// A card id was given without an existing card underneath.
    CardNotFound { card: CardId },
    /// A choice response held more or fewer answers than required.
    InvalidChoiceAmount { expected: usize, received: usize },
    /// An effect handler failed to execute.
    EffectExecuteFailure { failure: ExecuteFailure },
    /// A card was not implemented correctly.
    InvalidCardState,
}

/// The mathematical shape of one engine failure.
pub enum ErrorModel {
    GameAlreadyRunning,
    KeepHandDuringGame,
    InvalidAction { list_length: int, selected_action: int },
    ObjectNotFoundInZone { zone: ZoneId, object: ObjectId },
    InvalidPlayerPassing { player: PlayerId },
    NoUnderlyingCard { object: ObjectId },
    CardNotFound { card: CardId },
    InvalidChoiceAmount { expected: int, received: int },
    EffectExecuteFailure { failure: ExecuteFailureModel },
    InvalidCardState,
}

impl View for GameError {
    type V = ErrorModel;

    open spec fn view(&self) -> ErrorModel {
        match self {
            GameError::GameAlreadyRunning => ErrorModel::GameAlreadyRunning,
            GameError::KeepHandDuringGame => ErrorModel::KeepHandDuringGame,
            GameError::InvalidAction { list_length, selected_action } => ErrorModel::InvalidAction {
                list_length: *list_length as int,
                selected_action: *selected_action as int,
            },
            GameError::ObjectNotFoundInZone { zone, object } => ErrorModel::ObjectNotFoundInZone {
                zone: *zone,
                object: *object,
            },
            GameError::InvalidPlayerPassing { player } => ErrorModel::InvalidPlayerPassing {
                player: *player,
            },
            GameError::NoUnderlyingCard { object } => ErrorModel::NoUnderlyingCard {
                object: *object,
            },
            GameError::CardNotFound { card } => ErrorModel::CardNotFound { card: *card },
            GameError::InvalidChoiceAmount { expected, received } => ErrorModel::InvalidChoiceAmount {
                expected: *expected as int,
                received: *received as int,
            },
            GameError::EffectExecuteFailure { failure } => ErrorModel::EffectExecuteFailure {
                failure: failure@,
            },
            GameError::InvalidCardState => ErrorModel::InvalidCardState,
        }
    }
}

/// The data an atom acts on: the player ledger, the latest snapshot, and the
/// generator state.
pub struct Snap {
    pub players: Seq<PlayerModel>,
    pub state: StateModel,
    pub words: Seq<u64>,
}

/// The first position of a player id in the ledger, or -1 if absent.
pub open spec fn player_index_of(players: Seq<PlayerModel>, id: PlayerId) -> int
    decreases players.len(),
{
    if players.len() == 0 {
        -1
    } else if players[0].id == id {
        0
    } else {
        let r = player_index_of(players.skip(1), id);
        if r < 0 {
            -1
        } else {
            r + 1
        }
    }
}

/// `player_index_of` finds the first matching position.
pub proof fn lemma_player_index_of_first(players: Seq<PlayerModel>, id: PlayerId, i: int)
    requires
        0 <= i < players.len(),
        players[i].id == id,
        forall|k: int| 0 <= k < i ==> players[k].id != id,
    ensures
        player_index_of(players, id) == i,
    decreases players.len(),
{
    if i > 0 {
        lemma_player_index_of_first(players.skip(1), id, i - 1);
    }
}

/// The found position is in range and carries the id.
pub proof fn lemma_player_index_of_found(players: Seq<PlayerModel>, id: PlayerId)
    ensures
        player_index_of(players, id) == -1 || 0 <= player_index_of(players, id) < players.len(),
        player_index_of(players, id) >= 0 ==> players[player_index_of(players, id)].id == id,
    decreases players.len(),
{
    if players.len() > 0 && players[0].id != id {
        lemma_player_index_of_found(players.skip(1), id);
    }
}

/// A player id that occurs somewhere is found.
pub proof fn lemma_player_index_of_present(players: Seq<PlayerModel>, id: PlayerId)
    requires
        exists|i: int| 0 <= i < players.len() && (#[trigger] players[i]).id == id,
    ensures
        player_index_of(players, id) >= 0,
    decreases players.len(),
{
    if players.len() > 0 && players[0].id != id {
        let w = choose|w: int| 0 <= w < players.len() && (#[trigger] players[w]).id == id;
        assert(players.skip(1)[w - 1].id == id);
        lemma_player_index_of_present(players.skip(1), id);
    }
}

/// A player id that occurs nowhere is not found.
pub proof fn lemma_player_index_of_absent(players: Seq<PlayerModel>, id: PlayerId)
    requires
        forall|k: int| 0 <= k < players.len() ==> players[k].id != id,
    ensures
        player_index_of(players, id) == -1,
    decreases players.len(),
{
    if players.len() > 0 {
        lemma_player_index_of_absent(players.skip(1), id);
    }
}

/// Whether an atom can be applied at all. Atoms outside this predicate have
/// no defined behaviour (the zones or players they name do not exist, or they
/// reach the unimplemented damage-to-object branch) and the engine never
/// emits them.
pub open spec fn atom_admissible(players: Seq<PlayerModel>, s: StateModel, a: AtomModel) -> bool {
    match a {
        AtomModel::StartGame => true,
        AtomModel::KeepHand { player } => player_index_of(players, player) >= 0,
        AtomModel::ShuffleHandIntoLibrary { player } => zone_index_of(s.zones, ZoneId::Hand(player))
            >= 0 && zone_index_of(s.zones, ZoneId::Library(player)) >= 0,
        AtomModel::DrawCards { player, .. } => zone_index_of(s.zones, ZoneId::Hand(player)) >= 0
            && zone_index_of(s.zones, ZoneId::Library(player)) >= 0,
        AtomModel::DealDamage { target, .. } => match target {
            TargetId::Player(p) => player_index_of(players, p) >= 0,
            TargetId::Object(_) => false,
        },
        AtomModel::PassPriority { .. } => true,
        AtomModel::PlayerPlayCard { from, .. } => from != ZoneId::Stack && zone_index_of(
            s.zones,
            from,
        ) >= 0 && zone_index_of(s.zones, ZoneId::Stack) >= 0,
        AtomModel::ResetPriority => true,
        AtomModel::PopStack => zone_index_of(s.zones, ZoneId::Stack) >= 0,
    }
}

/// Whether every atom of a batch is admissible against the snapshot the batch
/// starts from. Atoms never add, remove or reorder zones or players, so
/// admissibility against the starting snapshot carries to every intermediate
/// snapshot.
pub open spec fn atoms_admissible(sn: Snap, atoms: Seq<AtomModel>) -> bool {
    forall|i: int| 0 <= i < atoms.len() ==> atom_admissible(
        sn.players,
        sn.state,
        #[trigger] atoms[i],
    )
}

/// The damage ledger after adding `amount`, saturating at the top of the
/// ledger's range.
pub open spec fn damage_add(taken: u64, amount: int) -> u64 {
    if taken + amount > u64::MAX {
        u64::MAX
    } else {
        (taken + amount) as u64
    }
}

/// The meaning of one atom: either the successor data or the error that
/// stops the batch. A function of its arguments alone, so replaying the same
/// atoms over the same data always rebuilds the same successor.
pub open spec fn spec_apply_atom(sn: Snap, a: AtomModel) -> Result<Snap, ErrorModel> {
    match a {
        AtomModel::StartGame => match sn.state.game_stage {
            StageModel::GameRunning => Err(ErrorModel::GameAlreadyRunning),
            StageModel::KeepHand { .. } => Ok(
                Snap {
                    state: StateModel { game_stage: StageModel::GameRunning, ..sn.state },
                    ..sn
                },
            ),
        },
        AtomModel::KeepHand { player } => match sn.state.game_stage {
            StageModel::GameRunning => Err(ErrorModel::KeepHandDuringGame),
            StageModel::KeepHand { players_keeping } => Ok(
                Snap {
                    state: StateModel {
                        game_stage: StageModel::KeepHand {
                            players_keeping: if players_keeping.contains(player) {
                                players_keeping
                            } else {
                                players_keeping.push(player)
                            },
                        },
                        ..sn.state
                    },
                    ..sn
                },
            ),
        },
        AtomModel::ShuffleHandIntoLibrary { player } => {
            let hi = zone_index_of(sn.state.zones, ZoneId::Hand(player));
            let li = zone_index_of(sn.state.zones, ZoneId::Library(player));
            if hi < 0 || li < 0 {
                Ok(sn)
            } else {
                let combined = sn.state.zones[li].1 + sn.state.zones[hi].1;
                let shuffled = apply_perm(
                    shuffle_perm(sn.words, combined.len() as int),
                    combined,
                );
                Ok(
                    Snap {
                        state: StateModel {
                            zones: sn.state.zones.update(
                                hi,
                                (ZoneId::Hand(player), Seq::empty()),
                            ).update(li, (ZoneId::Library(player), shuffled)),
                            ..sn.state
                        },
                        words: words_after_shuffle(sn.words, combined.len() as int),
                        ..sn
                    },
                )
            }
        },
        AtomModel::DrawCards { player, count } => {
            let hi = zone_index_of(sn.state.zones, ZoneId::Hand(player));
            let li = zone_index_of(sn.state.zones, ZoneId::Library(player));
            if hi < 0 || li < 0 {
                Ok(sn)
            } else {
                let lib = sn.state.zones[li].1;
                let moved = if count < 0 {
                    0
                } else if count <= lib.len() {
                    count
                } else {
                    lib.len() as int
                };
                let keep = lib.len() - moved;
                Ok(
                    Snap {
                        state: StateModel {
                            zones: sn.state.zones.update(
                                li,
                                (ZoneId::Library(player), lib.take(keep)),
                            ).update(
                                hi,
                                (
                                    ZoneId::Hand(player),
                                    sn.state.zones[hi].1 + lib.skip(keep),
                                ),
                            ),
                            ..sn.state
                        },
                        ..sn
                    },
                )
            }
        },
        AtomModel::DealDamage { amount, target, .. } => match target {
            TargetId::Object(_) => Ok(sn),
            TargetId::Player(p) => {
                let pi = player_index_of(sn.players, p);
                if pi < 0 {
                    Ok(sn)
                } else {
                    let old_p = sn.players[pi];
                    Ok(
                        Snap {
                            players: sn.players.update(
                                pi,
                                PlayerModel {
                                    damage_taken: damage_add(old_p.damage_taken, amount),
                                    ..old_p
                                },
                            ),
                            ..sn
                        },
                    )
                }
            },
        },
        AtomModel::PassPriority { player } => {
            if sn.state.unpassed_players.len() > 0 && sn.state.unpassed_players[0] == player {
                Ok(
                    Snap {
                        state: StateModel {
                            unpassed_players: sn.state.unpassed_players.skip(1),
                            ..sn.state
                        },
                        ..sn
                    },
                )
            } else {
                Err(ErrorModel::InvalidPlayerPassing { player })
            }
        },
        AtomModel::PlayerPlayCard { player, from, object, choices } => {
            let fi = zone_index_of(sn.state.zones, from);
            let si = zone_index_of(sn.state.zones, ZoneId::Stack);
            if fi < 0 || si < 0 || fi == si {
                Ok(sn)
            } else {
                let zone = sn.state.zones[fi].1;
                let oi = object_index_of(zone, object);
                if oi < 0 {
                    Err(ErrorModel::ObjectNotFoundInZone { zone: from, object })
                } else {
                    let obj = ObjectModel {
                        controller: Some(player),
                        choices,
                        ..zone[oi]
                    };
                    Ok(
                        Snap {
                            state: StateModel {
                                zones: sn.state.zones.update(
                                    fi,
                                    (from, zone.take(oi) + zone.skip(oi + 1)),
                                ).update(
                                    si,
                                    (ZoneId::Stack, sn.state.zones[si].1.push(obj)),
                                ),
                                ..sn.state
                            },
                            ..sn
                        },
                    )
                }
            }
        },
        AtomModel::ResetPriority => Ok(
            Snap {
                state: StateModel {
                    unpassed_players: sn.state.active_player_order,
                    ..sn.state
                },
                ..sn
            },
        ),
        AtomModel::PopStack => {
            let si = zone_index_of(sn.state.zones, ZoneId::Stack);
            if si < 0 || sn.state.zones[si].1.len() == 0 {
                Ok(sn)
            } else {
                Ok(
                    Snap {
                        state: StateModel {
                            zones: sn.state.zones.update(
                                si,
                                (ZoneId::Stack, sn.state.zones[si].1.drop_last()),
                            ),
                            ..sn.state
                        },
                        ..sn
                    },
                )
            }
        },
    }
}

/// The meaning of a batch of atoms, folded left to right, failing fast.
pub open spec fn spec_apply_atoms(sn: Snap, atoms: Seq<AtomModel>) -> Result<Snap, ErrorModel>
    decreases atoms.len(),
{
    if atoms.len() == 0 {
        Ok(sn)
    } else {
        match spec_apply_atoms(sn, atoms.drop_last()) {
            Err(e) => Err(e),
            Ok(sn2) => spec_apply_atom(sn2, atoms.last()),
        }
    }
}

/// An atom never adds, removes or reorders zones or players, and never
/// touches the turn order.
pub proof fn lemma_apply_atom_stable(sn: Snap, a: AtomModel)
    ensures
        spec_apply_atom(sn, a) matches Ok(sn2) ==> {
            &&& crate::state::zone_keys(sn2.state.zones) =~= crate::state::zone_keys(
                sn.state.zones,
            )
            &&& player_ids(sn2.players) =~= player_ids(sn.players)
            &&& sn2.state.active_player_order == sn.state.active_player_order
        },
{
    if spec_apply_atom(sn, a) is Ok {
        let sn2 = spec_apply_atom(sn, a)->Ok_0;
        match a {
            AtomModel::ShuffleHandIntoLibrary { player } => {
                crate::state::lemma_zone_index_of_found(sn.state.zones, ZoneId::Hand(player));
                crate::state::lemma_zone_index_of_found(sn.state.zones, ZoneId::Library(player));
                assert(crate::state::zone_keys(sn2.state.zones) =~= crate::state::zone_keys(
                    sn.state.zones,
                ));
            },
            AtomModel::DrawCards { player, .. } => {
                crate::state::lemma_zone_index_of_found(sn.state.zones, ZoneId::Hand(player));
                crate::state::lemma_zone_index_of_found(sn.state.zones, ZoneId::Library(player));
                assert(crate::state::zone_keys(sn2.state.zones) =~= crate::state::zone_keys(
                    sn.state.zones,
                ));
            },
            AtomModel::PlayerPlayCard { from, .. } => {
                crate::state::lemma_zone_index_of_found(sn.state.zones, from);
                crate::state::lemma_zone_index_of_found(sn.state.zones, ZoneId::Stack);
                assert(crate::state::zone_keys(sn2.state.zones) =~= crate::state::zone_keys(
                    sn.state.zones,
                ));
            },
            AtomModel::PopStack => {
                crate::state::lemma_zone_index_of_found(sn.state.zones, ZoneId::Stack);
                assert(crate::state::zone_keys(sn2.state.zones) =~= crate::state::zone_keys(
                    sn.state.zones,
                ));
            },
            AtomModel::DealDamage { target, .. } => {
                match target {
                    TargetId::Player(p) => lemma_player_index_of_found(sn.players, p),
                    TargetId::Object(_) => (),
                }
                assert(sn2.players.len() == sn.players.len());
                assert forall|i: int|
                    0 <= i < sn2.players.len() implies #[trigger] sn2.players[i].id
                    == sn.players[i].id by {}
                assert forall|i: int|
                    0 <= i < player_ids(sn2.players).len() implies #[trigger] player_ids(
                    sn2.players,
                )[i] == player_ids(sn.players)[i] by {
                    assert(player_ids(sn2.players)[i] == sn2.players[i].id);
                    assert(player_ids(sn.players)[i] == sn.players[i].id);
                }
                assert(player_ids(sn2.players) =~= player_ids(sn.players));
            },
            _ => {},
        }
        assert(crate::state::zone_keys(sn2.state.zones) =~= crate::state::zone_keys(
            sn.state.zones,
        ));
        assert(player_ids(sn2.players) =~= player_ids(sn.players));
    }
}

/// Admissibility against the starting snapshot carries along a batch.
pub proof fn lemma_admissible_carries(sn: Snap, sn2: Snap, a: AtomModel)
    requires
        crate::state::zone_keys(sn2.state.zones) == crate::state::zone_keys(sn.state.zones),
        player_ids(sn2.players) == player_ids(sn.players),
        atom_admissible(sn.players, sn.state, a),
    ensures
        atom_admissible(sn2.players, sn2.state, a),
{
    lemma_zone_index_same_keys(sn.state.zones, sn2.state.zones);
    lemma_player_index_same_ids(sn.players, sn2.players);
}

/// A batch of atoms, as their mathematical shapes.
pub open spec fn view_atoms(s: Seq<GameAtom>) -> Seq<AtomModel> {
    Seq::new(s.len(), |i: int| s[i]@)
}

/// One admissible atom keeps a well-formed snapshot well-formed.
pub proof fn lemma_apply_atom_wf(sn: Snap, a: AtomModel)
    requires
        crate::state::state_wf(player_ids(sn.players), sn.state),
        atom_admissible(sn.players, sn.state, a),
    ensures
        spec_apply_atom(sn, a) matches Ok(sn2) ==> crate::state::state_wf(
            player_ids(sn.players),
            sn2.state,
        ),
{
    let ids = player_ids(sn.players);
    lemma_apply_atom_stable(sn, a);
    if spec_apply_atom(sn, a) is Ok {
        let sn2 = spec_apply_atom(sn, a)->Ok_0;
        assert(crate::state::zone_keys(sn2.state.zones) == crate::state::zone_keys(
            sn.state.zones,
        ));
        match a {
            AtomModel::StartGame => {},
            AtomModel::KeepHand { player } => {
                match sn.state.game_stage {
                    StageModel::KeepHand { players_keeping } => {
                        lemma_player_index_of_found(sn.players, player);
                        assert(ids[player_index_of(sn.players, player)] == player);
                        assert(ids.contains(player));
                        if !players_keeping.contains(player) {
                            let kp2 = players_keeping.push(player);
                            assert forall|x: int, y: int|
                                0 <= x < y < kp2.len() implies kp2[x] != kp2[y] by {
                                if y < players_keeping.len() {
                                } else {
                                    assert(kp2[y] == player);
                                    assert(players_keeping[x] == kp2[x]);
                                    if kp2[x] == player {
                                        assert(players_keeping.contains(player));
                                    }
                                }
                            }
                            assert(kp2.no_duplicates());
                        }
                    },
                    StageModel::GameRunning => {},
                }
            },
            AtomModel::ShuffleHandIntoLibrary { player } => {
                crate::state::lemma_zone_index_of_found(sn.state.zones, ZoneId::Hand(player));
                crate::state::lemma_zone_index_of_found(
                    sn.state.zones,
                    ZoneId::Library(player),
                );
                let zs = sn.state.zones;
                let zs2 = sn2.state.zones;
                let hi = zone_index_of(zs, ZoneId::Hand(player));
                let li = zone_index_of(zs, ZoneId::Library(player));
                let combined = zs[li].1 + zs[hi].1;
                assert(forall|t: int| 0 <= t < combined.len() ==> (
                #[trigger] combined[t].controller) is None);
                assert forall|i: int, j: int|
                    0 <= i < zs2.len() && 0 <= j < zs2[i].1.len() implies (((
                #[trigger] zs2[i].1[j].controller) is Some) <==> !crate::state::is_player_pile(
                    zs2[i].0,
                )) by {
                    if i == li {
                        let perm = shuffle_perm(sn.words, combined.len() as int);
                        assert(zs2[i].1 == apply_perm(perm, combined));
                        if 0 <= perm[j] < combined.len() {
                            assert(zs2[i].1[j] == combined[perm[j]]);
                        } else {
                            assert(zs2[i].1[j] == combined[j]);
                        }
                    }
                }
            },
            AtomModel::DrawCards { player, count } => {
                crate::state::lemma_zone_index_of_found(sn.state.zones, ZoneId::Hand(player));
                crate::state::lemma_zone_index_of_found(
                    sn.state.zones,
                    ZoneId::Library(player),
                );
                let zs = sn.state.zones;
                let zs2 = sn2.state.zones;
                let hi = zone_index_of(zs, ZoneId::Hand(player));
                let li = zone_index_of(zs, ZoneId::Library(player));
                let lib = zs[li].1;
                let moved = if count < 0 {
                    0
                } else if count <= lib.len() {
                    count
                } else {
                    lib.len() as int
                };
                let keep = lib.len() - moved;
                assert forall|i: int, j: int|
                    0 <= i < zs2.len() && 0 <= j < zs2[i].1.len() implies (((
                #[trigger] zs2[i].1[j].controller) is Some) <==> !crate::state::is_player_pile(
                    zs2[i].0,
                )) by {
                    if i == hi {
                        assert(zs2[i].1 == zs[hi].1 + lib.skip(keep));
                        if j < zs[hi].1.len() {
                            assert(zs2[i].1[j] == zs[hi].1[j]);
                        } else {
                            assert(zs2[i].1[j] == lib.skip(keep)[j - zs[hi].1.len()]);
                            assert(lib.skip(keep)[j - zs[hi].1.len()] == lib[keep + (j - zs[hi].1.len())]);
                        }
                    } else if i == li {
                        assert(zs2[i].1 == lib.take(keep));
                        assert(zs2[i].1[j] == lib.take(keep)[j]);
                        assert(lib.take(keep)[j] == lib[j]);
                    }
                }
            },
            AtomModel::DealDamage { .. } => {},
            AtomModel::PassPriority { .. } => {
                let ord = sn.state.active_player_order;
                let up = sn.state.unpassed_players;
                if up.len() > 0 {
                    assert(sn2.state.unpassed_players =~= ord.skip(
                        ord.len() - (up.len() - 1),
                    ));
                }
            },
            AtomModel::PlayerPlayCard { player, from, object, choices } => {
                crate::state::lemma_zone_index_of_found(sn.state.zones, from);
                crate::state::lemma_zone_index_of_found(sn.state.zones, ZoneId::Stack);
                let zs = sn.state.zones;
                let zs2 = sn2.state.zones;
                let fi = zone_index_of(zs, from);
                let si = zone_index_of(zs, ZoneId::Stack);
                let zone = zs[fi].1;
                let oi = object_index_of(zone, object);
                if oi >= 0 {
                    crate::state::lemma_object_index_of_found(zone, object);
                    assert forall|i: int, j: int|
                        0 <= i < zs2.len() && 0 <= j < zs2[i].1.len() implies (((
                    #[trigger] zs2[i].1[j].controller) is Some) <==> !crate::state::is_player_pile(
                        zs2[i].0,
                    )) by {
                        if i == fi {
                            assert(zs2[i].1 == zone.take(oi) + zone.skip(oi + 1));
                            if j < oi {
                                assert(zs2[i].1[j] == zone[j]);
                            } else {
                                assert(zs2[i].1[j] == zone[j + 1]);
                            }
                        } else if i == si {
                            if j < zs[si].1.len() {
                                assert(zs2[i].1[j] == zs[si].1[j]);
                            }
                        }
                    }
                }
            },
            AtomModel::ResetPriority => {
                let ord = sn.state.active_player_order;
                assert(sn2.state.unpassed_players =~= ord.skip(ord.len() - ord.len()));
            },
            AtomModel::PopStack => {
                crate::state::lemma_zone_index_of_found(sn.state.zones, ZoneId::Stack);
                let zs = sn.state.zones;
                let zs2 = sn2.state.zones;
                let si = zone_index_of(zs, ZoneId::Stack);
                assert forall|i: int, j: int|
                    0 <= i < zs2.len() && 0 <= j < zs2[i].1.len() implies (((
                #[trigger] zs2[i].1[j].controller) is Some) <==> !crate::state::is_player_pile(
                    zs2[i].0,
                )) by {
                    if i == si && zs[si].1.len() > 0 {
                        assert(zs2[i].1[j] == zs[si].1[j]);
                    }
                }
            },
        }
    }
}

/// A batch of admissible atoms keeps a well-formed snapshot well-formed, and
/// never changes the zone keys, the player ids or the turn order.
pub proof fn lemma_apply_atoms_ok(sn: Snap, atoms: Seq<AtomModel>)
    requires
        crate::state::state_wf(player_ids(sn.players), sn.state),
        atoms_admissible(sn, atoms),
    ensures
        spec_apply_atoms(sn, atoms) matches Ok(sn2) ==> {
            &&& crate::state::state_wf(player_ids(sn.players), sn2.state)
            &&& crate::state::zone_keys(sn2.state.zones) == crate::state::zone_keys(
                sn.state.zones,
            )
            &&& player_ids(sn2.players) == player_ids(sn.players)
            &&& sn2.state.active_player_order == sn.state.active_player_order
        },
    decreases atoms.len(),
{
    if atoms.len() > 0 {
        assert(atoms_admissible(sn, atoms.drop_last())) by {
            assert(forall|i: int| 0 <= i < atoms.len() - 1 ==> atoms.drop_last()[i]
                == atoms[i]);
        }
        lemma_apply_atoms_ok(sn, atoms.drop_last());
        if spec_apply_atoms(sn, atoms.drop_last()) is Ok {
            let sn2 = spec_apply_atoms(sn, atoms.drop_last())->Ok_0;
            assert(atom_admissible(sn.players, sn.state, atoms.last()));
            lemma_admissible_carries(sn, sn2, atoms.last());
            assert(player_ids(sn2.players) == player_ids(sn.players));
            lemma_apply_atom_wf(sn2, atoms.last());
            lemma_apply_atom_stable(sn2, atoms.last());
        }
    }
}

/// Two zone maps with the same keys find every key at the same position.
pub proof fn lemma_zone_index_same_keys(
    zs1: Seq<(ZoneId, Seq<ObjectModel>)>,
    zs2: Seq<(ZoneId, Seq<ObjectModel>)>,
)
    requires
        crate::state::zone_keys(zs1) == crate::state::zone_keys(zs2),
    ensures
        forall|id: ZoneId| #[trigger] zone_index_of(zs2, id) == zone_index_of(zs1, id),
    decreases zs1.len(),
{
    assert(crate::state::zone_keys(zs1).len() == zs1.len());
    assert(crate::state::zone_keys(zs2).len() == zs2.len());
    if zs1.len() > 0 {
        assert(crate::state::zone_keys(zs1.skip(1)) =~= crate::state::zone_keys(zs1).skip(1));
        assert(crate::state::zone_keys(zs2.skip(1)) =~= crate::state::zone_keys(zs2).skip(1));
        lemma_zone_index_same_keys(zs1.skip(1), zs2.skip(1));
        assert forall|id: ZoneId| #[trigger] zone_index_of(zs2, id) == zone_index_of(
            zs1,
            id,
        ) by {
            assert(zs1[0].0 == crate::state::zone_keys(zs1)[0]);
            assert(zs2[0].0 == crate::state::zone_keys(zs2)[0]);
            assert(zone_index_of(zs2.skip(1), id) == zone_index_of(zs1.skip(1), id));
        }
    }
}

/// Whether a list of players mentions the given id.
pub fn vec_contains_player(v: &Vec<PlayerId>, p: PlayerId) -> (r: bool)
    ensures
        r == v@.contains(p),
{
    let n = v.len();
    let mut i: usize = 0;
    while i < n
        invariant
            n == v@.len(),
            i <= n,
            forall|k: int| 0 <= k < i ==> v@[k] != p,
        decreases n - i,
    {
        if v[i] == p {
            return true;
        }
        i += 1;
    }
    false
}

/// An exact copy of a choice list, at the level of the mathematical shape.
pub fn dup_choices(v: &Vec<ChoiceEntry>) -> (r: Vec<ChoiceEntry>)
    ensures
        r@ == v@,
{
    let mut out: Vec<ChoiceEntry> = Vec::new();
    let n = v.len();
    let mut i: usize = 0;
    while i < n
        invariant
            n == v@.len(),
            i <= n,
            out@.len() == i,
            forall|k: int| 0 <= k < i ==> out@[k] == v@[k],
        decreases n - i,
    {
        out.push(v[i].duplicate());
        i += 1;
    }
    proof {
        assert(out@ =~= v@);
    }
    out
}

/// Finds the position of a player in the ledger, scanning in order.
pub fn player_find(players: &Vec<Player>, id: PlayerId) -> (r: Option<usize>)
    ensures
        match r {
            Some(i) => 0 <= i < players@.len() && player_index_of(view_players(players@), id)
                == i,
            None => player_index_of(view_players(players@), id) == -1,
        },
{
    let n = players.len();
    let mut i: usize = 0;
    while i < n
        invariant
            n == players@.len(),
            i <= n,
            forall|k: int| 0 <= k < i ==> view_players(players@)[k].id != id,
        decreases n - i,
    {
        if players[i].id == id {
            proof {
                lemma_player_index_of_first(view_players(players@), id, i as int);
            }
            return Some(i);
        }
        i += 1;
    }
    proof {
        lemma_player_index_of_absent(view_players(players@), id);
    }
    None
}

/// Finds the position of an object in a zone, scanning in order.
pub fn object_find(objs: &Vec<GameObject>, id: ObjectId) -> (r: Option<usize>)
    ensures
        match r {
            Some(i) => 0 <= i < objs@.len() && object_index_of(
                crate::zone::view_objects(objs@),
                id,
            ) == i,
            None => object_index_of(crate::zone::view_objects(objs@), id) == -1,
        },
{
    let n = objs.len();
    let mut i: usize = 0;
    while i < n
        invariant
            n == objs@.len(),
            i <= n,
            forall|k: int| 0 <= k < i ==> crate::zone::view_objects(objs@)[k].id != id,
        decreases n - i,
    {
        if objs[i].id == id {
            proof {
                lemma_object_index_of_first(crate::zone::view_objects(objs@), id, i as int);
            }
            return Some(i);
        }
        i += 1;
    }
    proof {
        lemma_object_index_of_absent(crate::zone::view_objects(objs@), id);
    }
    None
}

/// Whether an atom can be applied, decided at run time; see
/// [`atom_admissible`].
pub fn atom_admissible_check(players: &Vec<Player>, state: &GameState, atom: &GameAtom) -> (r:
    bool)
    ensures
        r == atom_admissible(view_players(players@), state@, atom@),
{
    match atom {
        GameAtom::StartGame => true,
        GameAtom::KeepHand { player } => player_find(players, *player).is_some(),
        GameAtom::ShuffleHandIntoLibrary { player } => state.zone_find(
            ZoneId::Hand(*player),
        ).is_some() && state.zone_find(ZoneId::Library(*player)).is_some(),
        GameAtom::DrawCards { player, .. } => state.zone_find(ZoneId::Hand(*player)).is_some()
            && state.zone_find(ZoneId::Library(*player)).is_some(),
        GameAtom::DealDamage { target, .. } => match target {
            TargetId::Player(p) => player_find(players, *p).is_some(),
            TargetId::Object(_) => false,
        },
        GameAtom::PassPriority { .. } => true,
        GameAtom::PlayerPlayCard { from, .. } => {
            let from_is_stack = match from {
                ZoneId::Stack => true,
                _ => false,
            };
            !from_is_stack && state.zone_find(*from).is_some() && state.zone_find(
                ZoneId::Stack,
            ).is_some()
        },
        GameAtom::ResetPriority => true,
        GameAtom::PopStack => state.zone_find(ZoneId::Stack).is_some(),
    }
}

/// No atom but the one that starts the game leaves the mulligan stage.
pub proof fn lemma_atoms_keep_stage(sn: Snap, atoms: Seq<AtomModel>)
    requires
        sn.state.game_stage is KeepHand,
        forall|i: int| 0 <= i < atoms.len() ==> !((#[trigger] atoms[i]) is StartGame),
    ensures
        spec_apply_atoms(sn, atoms) matches Ok(sn2) ==> sn2.state.game_stage is KeepHand,
    decreases atoms.len(),
{
    if atoms.len() > 0 {
        assert(forall|i: int| 0 <= i < atoms.len() - 1 ==> atoms.drop_last()[i] == atoms[i]);
        lemma_atoms_keep_stage(sn, atoms.drop_last());
    }
}

/// During the mulligan, a batch of keep, shuffle and draw atoms never fails.
pub proof fn lemma_mulligan_batch_ok(sn: Snap, atoms: Seq<AtomModel>)
    requires
        sn.state.game_stage is KeepHand,
        forall|i: int| 0 <= i < atoms.len() ==> ((#[trigger] atoms[i]) is KeepHand || atoms[i]
            is ShuffleHandIntoLibrary || atoms[i] is DrawCards),
    ensures
        spec_apply_atoms(sn, atoms) is Ok,
        spec_apply_atoms(sn, atoms)->Ok_0.state.game_stage is KeepHand,
    decreases atoms.len(),
{
    if atoms.len() > 0 {
        assert(forall|i: int| 0 <= i < atoms.len() - 1 ==> atoms.drop_last()[i] == atoms[i]);
        lemma_mulligan_batch_ok(sn, atoms.drop_last());
    }
}

/// Every atom except the shuffle keeps each object id in at most one place:
/// the objects of the successor zones are the objects of the prior zones,
/// moved injectively. The shuffle is handled where it is applied, from what
/// the shuffling itself guarantees.
pub proof fn lemma_apply_atom_unique(sn: Snap, a: AtomModel)
    requires
        !(a is ShuffleHandIntoLibrary),
        crate::state::objects_unique(sn.state),
    ensures
        spec_apply_atom(sn, a) matches Ok(sn2) ==> crate::state::objects_unique(sn2.state),
{
    if spec_apply_atom(sn, a) is Ok {
        let sn2 = spec_apply_atom(sn, a)->Ok_0;
        let zs = sn.state.zones;
        let zs2 = sn2.state.zones;
        match a {
            AtomModel::DrawCards { player, count } => {
                let hi = zone_index_of(zs, ZoneId::Hand(player));
                let li = zone_index_of(zs, ZoneId::Library(player));
                if hi >= 0 && li >= 0 {
                    crate::state::lemma_zone_index_of_found(zs, ZoneId::Hand(player));
                    crate::state::lemma_zone_index_of_found(zs, ZoneId::Library(player));
                    let lib = zs[li].1;
                    let hand = zs[hi].1;
                    let moved = if count < 0 {
                        0
                    } else if count <= lib.len() {
                        count
                    } else {
                        lib.len() as int
                    };
                    let keep = lib.len() - moved;
                    assert forall|i1: int, j1: int, i2: int, j2: int|
                        0 <= i1 < zs2.len() && 0 <= j1 < zs2[i1].1.len() && 0 <= i2
                            < zs2.len() && 0 <= j2 < zs2[i2].1.len() && (i1 != i2 || j1
                            != j2) implies (#[trigger] zs2[i1].1[j1].id) != (
                    #[trigger] zs2[i2].1[j2].id) by {
                        let s1 = source_of_draw(zs, hi, li, keep, i1, j1);
                        let s2 = source_of_draw(zs, hi, li, keep, i2, j2);
                        assert(zs2[i1].1[j1] == zs[s1.0].1[s1.1]);
                        assert(zs2[i2].1[j2] == zs[s2.0].1[s2.1]);
                        assert(s1 != s2);
                    }
                }
            },
            AtomModel::PlayerPlayCard { player, from, object, choices } => {
                let fi = zone_index_of(zs, from);
                let si = zone_index_of(zs, ZoneId::Stack);
                if fi >= 0 && si >= 0 && fi != si {
                    let zone = zs[fi].1;
                    let oi = object_index_of(zone, object);
                    if oi >= 0 {
                        crate::state::lemma_zone_index_of_found(zs, from);
                        crate::state::lemma_zone_index_of_found(zs, ZoneId::Stack);
                        crate::state::lemma_object_index_of_found(zone, object);
                        assert forall|i1: int, j1: int, i2: int, j2: int|
                            0 <= i1 < zs2.len() && 0 <= j1 < zs2[i1].1.len() && 0 <= i2
                                < zs2.len() && 0 <= j2 < zs2[i2].1.len() && (i1 != i2 || j1
                                != j2) implies (#[trigger] zs2[i1].1[j1].id) != (
                        #[trigger] zs2[i2].1[j2].id) by {
                            let s1 = source_of_play(zs, fi, si, oi, i1, j1);
                            let s2 = source_of_play(zs, fi, si, oi, i2, j2);
                            assert(zs2[i1].1[j1].id == zs[s1.0].1[s1.1].id);
                            assert(zs2[i2].1[j2].id == zs[s2.0].1[s2.1].id);
                            assert(s1 != s2);
                        }
                    }
                }
            },
            AtomModel::PopStack => {
                let si = zone_index_of(zs, ZoneId::Stack);
                if si >= 0 && zs[si].1.len() > 0 {
                    crate::state::lemma_zone_index_of_found(zs, ZoneId::Stack);
                    assert forall|i1: int, j1: int, i2: int, j2: int|
                        0 <= i1 < zs2.len() && 0 <= j1 < zs2[i1].1.len() && 0 <= i2
                            < zs2.len() && 0 <= j2 < zs2[i2].1.len() && (i1 != i2 || j1
                            != j2) implies (#[trigger] zs2[i1].1[j1].id) != (
                    #[trigger] zs2[i2].1[j2].id) by {
                        assert(zs2[i1].1[j1] == zs[i1].1[j1]);
                        assert(zs2[i2].1[j2] == zs[i2].1[j2]);
                    }
                }
            },
            _ => {
                assert(zs2 == zs);
            },
        }
    }
}

/// Which prior position a drawn successor position took its object from.
pub open spec fn source_of_draw(
    zs: Seq<(ZoneId, Seq<ObjectModel>)>,
    hi: int,
    li: int,
    keep: int,
    i: int,
    j: int,
) -> (int, int) {
    if i == hi {
        if j < zs[hi].1.len() {
            (hi, j)
        } else {
            (li, keep + (j - zs[hi].1.len()))
        }
    } else {
        (i, j)
    }
}

/// Which prior position a successor position took its object from when a
/// card was played onto the stack.
pub open spec fn source_of_play(
    zs: Seq<(ZoneId, Seq<ObjectModel>)>,
    fi: int,
    si: int,
    oi: int,
    i: int,
    j: int,
) -> (int, int) {
    if i == fi {
        if j < oi {
            (fi, j)
        } else {
            (fi, j + 1)
        }
    } else if i == si && j == zs[si].1.len() {
        (fi, oi)
    } else {
        (i, j)
    }
}

/// A batch of one atom means just that atom.
pub proof fn lemma_single_atom(sn: Snap, a: AtomModel)
    ensures
        spec_apply_atoms(sn, seq![a]) == spec_apply_atom(sn, a),
{
    assert(seq![a].drop_last() =~= Seq::<AtomModel>::empty());
    assert(spec_apply_atoms(sn, seq![a].drop_last()) == Ok::<Snap, ErrorModel>(sn));
    assert(seq![a].last() == a);
}

/// Applies one atom in place, computing exactly [`spec_apply_atom`]: on
/// success the players, the snapshot and the generator hold the successor
/// data; on an error nothing has changed.
pub fn apply_atom_once(
    players: &mut Vec<Player>,
    state: &mut GameState,
    rng: &mut rand_xoshiro::Xoshiro256StarStar,
    atom: &GameAtom,
) -> (r: Result<(), GameError>)
    requires
        atom_admissible(view_players(old(players)@), old(state)@, atom@),
    ensures
        ({
            let pre = Snap {
                players: view_players(old(players)@),
                state: old(state)@,
                words: rng_words(*old(rng)),
            };
            let post = Snap {
                players: view_players(final(players)@),
                state: final(state)@,
                words: rng_words(*final(rng)),
            };
            match r {
                Ok(_) => spec_apply_atom(pre, atom@) == Ok::<Snap, ErrorModel>(post),
                Err(e) => spec_apply_atom(pre, atom@) == Err::<Snap, ErrorModel>(e@) && post
                    == pre,
            }
        }),
        crate::state::objects_unique(old(state)@) && r is Ok
            ==> crate::state::objects_unique(final(state)@),
{
    let ghost pre = Snap {
        players: view_players(players@),
        state: state@,
        words: rng_words(*rng),
    };
    match atom {
        GameAtom::StartGame => {
            match &state.game_stage {
                GameStage::GameRunning => Err(GameError::GameAlreadyRunning),
                GameStage::KeepHand { .. } => {
                    state.game_stage = GameStage::GameRunning;
                    proof {
                        let post = Snap {
                            players: view_players(players@),
                            state: state@,
                            words: rng_words(*rng),
                        };
                        assert(spec_apply_atom(pre, atom@)->Ok_0 =~~= post);
                        if crate::state::objects_unique(pre.state) {
                            lemma_apply_atom_unique(pre, atom@);
                        }
                    }
                    Ok(())
                },
            }
        },
        GameAtom::KeepHand { player } => {
            let mut stage = GameStage::GameRunning;
            core::mem::swap(&mut stage, &mut state.game_stage);
            match stage {
                GameStage::GameRunning => {
                    state.game_stage = GameStage::GameRunning;
                    proof {
                        assert(state@ =~~= pre.state);
                    }
                    Err(GameError::KeepHandDuringGame)
                },
                GameStage::KeepHand { players_keeping } => {
                    let mut keeping = players_keeping;
                    if !vec_contains_player(&keeping, *player) {
                        keeping.push(*player);
                    }
                    state.game_stage = GameStage::KeepHand { players_keeping: keeping };
                    proof {
                        let post = Snap {
                            players: view_players(players@),
                            state: state@,
                            words: rng_words(*rng),
                        };
                        assert(spec_apply_atom(pre, atom@)->Ok_0 =~~= post);
                        if crate::state::objects_unique(pre.state) {
                            lemma_apply_atom_unique(pre, atom@);
                        }
                    }
                    Ok(())
                },
            }
        },
        GameAtom::ShuffleHandIntoLibrary { player } => {
            let hi = state.zone_find(ZoneId::Hand(*player)).unwrap();
            let li = state.zone_find(ZoneId::Library(*player)).unwrap();
            proof {
                crate::state::lemma_zone_index_of_found(pre.state.zones, ZoneId::Hand(*player));
                crate::state::lemma_zone_index_of_found(
                    pre.state.zones,
                    ZoneId::Library(*player),
                );
            }
            let ghost zs0 = state.zones@;
            let ghost hand0e = state.zones@[hi as int].zone.objects.0@;
            let ghost lib0e = state.zones@[li as int].zone.objects.0@;
            let hand_len = state.zones[hi].zone.objects.0.len();
            let mut k: usize = 0;
            while k < hand_len
                invariant
                    hi < state.zones@.len(),
                    li < state.zones@.len(),
                    hi != li,
                    k <= hand_len,
                    hand_len == hand0e.len(),
                    state.zones@[hi as int].id == zs0[hi as int].id,
                    state.zones@[li as int].id == zs0[li as int].id,
                    state.zones@[hi as int].zone.objects.0@ =~= hand0e.skip(k as int),
                    state.zones@[li as int].zone.objects.0@ =~= lib0e + hand0e.take(k as int),
                    state.zones@.len() == zs0.len(),
                    forall|t: int| 0 <= t < zs0.len() && t != hi && t != li
                        ==> state.zones@[t] == zs0[t],
                    state.active_player_order == old(state).active_player_order,
                    state.unpassed_players == old(state).unpassed_players,
                    state.game_stage == old(state).game_stage,
                    rng_words(*rng) == pre.words,
                    players == old(players),
                decreases hand_len - k,
            {
                let obj = state.zones[hi].zone.objects.0.remove(0);
                state.zones[li].zone.objects.0.push(obj);
                proof {
                    assert(state.zones@[hi as int].zone.objects.0@ =~= hand0e.skip(k + 1int));
                    assert(state.zones@[li as int].zone.objects.0@ =~= lib0e + hand0e.take(
                        k + 1int,
                    ));
                }
                k += 1;
            }
            proof {
                assert(hand0e.take(hand_len as int) =~= hand0e);
                assert(state.zones@[li as int].zone.objects.0@ =~= lib0e + hand0e);
            }
            shuffle_objects(rng, &mut state.zones[li].zone.objects.0);
            proof {
                let combined = pre.state.zones[li as int].1 + pre.state.zones[hi as int].1;
                let perm = shuffle_perm(pre.words, combined.len() as int);
                assert(combined =~= crate::zone::view_objects(lib0e + hand0e));
                assert(crate::zone::view_objects(
                    apply_perm(perm, lib0e + hand0e),
                ) =~= apply_perm(perm, crate::zone::view_objects(lib0e + hand0e)));
                assert(state.zones@[li as int].zone.objects.0@ == apply_perm(
                    perm,
                    lib0e + hand0e,
                ));
                let post = Snap {
                    players: view_players(players@),
                    state: state@,
                    words: rng_words(*rng),
                };
                assert(post.state.zones[li as int].1 =~= apply_perm(perm, combined));
                assert(post.state.zones[hi as int].1 =~= Seq::<ObjectModel>::empty());
                assert(spec_apply_atom(pre, atom@)->Ok_0.state.zones =~= post.state.zones);
                assert(spec_apply_atom(pre, atom@)->Ok_0 =~~= post);
                if crate::state::objects_unique(pre.state) {
                    let zs = pre.state.zones;
                    let zs2 = post.state.zones;
                    let combined_e = lib0e + hand0e;
                    let shuffled_e = state.zones@[li as int].zone.objects.0@;
                    assert(shuffled_e == apply_perm(
                        shuffle_perm(pre.words, combined_e.len() as int),
                        combined_e,
                    ));
                    assert(zs[li as int].1 =~= crate::zone::view_objects(lib0e));
                    assert(zs[hi as int].1 =~= crate::zone::view_objects(hand0e));
                    assert forall|a: int, b: int|
                        0 <= a < b < combined_e.len() implies (
                    #[trigger] combined_e[a])@.id != (#[trigger] combined_e[b])@.id by {
                        let ll = lib0e.len() as int;
                        if a < ll && b < ll {
                            assert(zs[li as int].1[a].id != zs[li as int].1[b].id);
                        } else if a < ll {
                            assert(zs[li as int].1[a].id != zs[hi as int].1[b - ll].id);
                        } else {
                            assert(zs[hi as int].1[a - ll].id != zs[hi as int].1[b - ll].id);
                        }
                    }
                    assert(combined_e.no_duplicates()) by {
                        assert forall|a: int, b: int|
                            0 <= a < b < combined_e.len() implies combined_e[a]
                            != combined_e[b] by {
                            assert(combined_e[a]@.id != combined_e[b]@.id);
                        }
                    }
                    combined_e.lemma_multiset_has_no_duplicates();
                    assert(shuffled_e.to_multiset() == combined_e.to_multiset());
                    shuffled_e.lemma_multiset_has_no_duplicates_conv();
                    assert(shuffled_e.no_duplicates());
                    let sp = shuffle_perm(pre.words, combined_e.len() as int);
                    assert forall|a: int, b: int|
                        0 <= a < b < shuffled_e.len() implies (
                    #[trigger] shuffled_e[a])@.id != (#[trigger] shuffled_e[b])@.id by {
                        let pa = if 0 <= sp[a] < combined_e.len() {
                            sp[a]
                        } else {
                            a
                        };
                        let pb = if 0 <= sp[b] < combined_e.len() {
                            sp[b]
                        } else {
                            b
                        };
                        assert(shuffled_e[a] == combined_e[pa]);
                        assert(shuffled_e[b] == combined_e[pb]);
                        if shuffled_e[a]@.id == shuffled_e[b]@.id {
                            assert(pa == pb);
                            assert(shuffled_e[a] == shuffled_e[b]);
                        }
                    }
                    assert forall|i1: int, j1: int, i2: int, j2: int|
                        0 <= i1 < zs2.len() && 0 <= j1 < zs2[i1].1.len() && 0 <= i2
                            < zs2.len() && 0 <= j2 < zs2[i2].1.len() && (i1 != i2 || j1
                            != j2) implies (#[trigger] zs2[i1].1[j1].id) != (
                    #[trigger] zs2[i2].1[j2].id) by {
                        let ll = lib0e.len() as int;
                        if i1 == li && i2 == li {
                            assert(zs2[i1].1[j1] == shuffled_e[j1]@);
                            assert(zs2[i2].1[j2] == shuffled_e[j2]@);
                        } else if i1 == li {
                            let pa = if 0 <= sp[j1] < combined_e.len() {
                                sp[j1]
                            } else {
                                j1
                            };
                            assert(zs2[i1].1[j1] == combined_e[pa]@);
                            assert(zs2[i2].1[j2] == zs[i2].1[j2]);
                            if pa < ll {
                                assert(combined_e[pa]@ == zs[li as int].1[pa]);
                                assert(zs[li as int].1[pa].id != zs[i2].1[j2].id);
                            } else {
                                assert(combined_e[pa]@ == zs[hi as int].1[pa - ll]);
                                assert(zs[hi as int].1[pa - ll].id != zs[i2].1[j2].id);
                            }
                        } else if i2 == li {
                            let pb = if 0 <= sp[j2] < combined_e.len() {
                                sp[j2]
                            } else {
                                j2
                            };
                            assert(zs2[i2].1[j2] == combined_e[pb]@);
                            assert(zs2[i1].1[j1] == zs[i1].1[j1]);
                            if pb < ll {
                                assert(combined_e[pb]@ == zs[li as int].1[pb]);
                                assert(zs[i1].1[j1].id != zs[li as int].1[pb].id);
                            } else {
                                assert(combined_e[pb]@ == zs[hi as int].1[pb - ll]);
                                assert(zs[i1].1[j1].id != zs[hi as int].1[pb - ll].id);
                            }
                        } else {
                            assert(zs2[i1].1[j1] == zs[i1].1[j1]);
                            assert(zs2[i2].1[j2] == zs[i2].1[j2]);
                        }
                    }
                    assert(crate::state::objects_unique(post.state));
                }
            }
            Ok(())
        },
        GameAtom::DrawCards { player, count } => {
            let hi = state.zone_find(ZoneId::Hand(*player)).unwrap();
            let li = state.zone_find(ZoneId::Library(*player)).unwrap();
            proof {
                crate::state::lemma_zone_index_of_found(pre.state.zones, ZoneId::Hand(*player));
                crate::state::lemma_zone_index_of_found(
                    pre.state.zones,
                    ZoneId::Library(*player),
                );
            }
            let ghost zs0 = state.zones@;
            let ghost hand0e = state.zones@[hi as int].zone.objects.0@;
            let ghost lib0e = state.zones@[li as int].zone.objects.0@;
            let lib_len = state.zones[li].zone.objects.0.len();
            let moved = if *count <= lib_len {
                *count
            } else {
                lib_len
            };
            let keep = lib_len - moved;
            let mut k: usize = 0;
            while k < moved
                invariant
                    hi < state.zones@.len(),
                    li < state.zones@.len(),
                    hi != li,
                    k <= moved,
                    keep + moved == lib_len,
                    lib_len == lib0e.len(),
                    state.zones@[hi as int].id == zs0[hi as int].id,
                    state.zones@[li as int].id == zs0[li as int].id,
                    state.zones@[li as int].zone.objects.0@ =~= lib0e.take(keep as int)
                        + lib0e.skip(keep + k as int),
                    state.zones@[hi as int].zone.objects.0@ =~= hand0e + lib0e.subrange(
                        keep as int,
                        keep + k as int,
                    ),
                    state.zones@.len() == zs0.len(),
                    forall|t: int| 0 <= t < zs0.len() && t != hi && t != li
                        ==> state.zones@[t] == zs0[t],
                    state.active_player_order == old(state).active_player_order,
                    state.unpassed_players == old(state).unpassed_players,
                    state.game_stage == old(state).game_stage,
                    rng_words(*rng) == pre.words,
                    players == old(players),
                decreases moved - k,
            {
                let obj = state.zones[li].zone.objects.0.remove(keep);
                state.zones[hi].zone.objects.0.push(obj);
                proof {
                    assert((lib0e.take(keep as int) + lib0e.skip(keep + k as int))[keep as int]
                        == lib0e[keep + k as int]);
                    assert(state.zones@[li as int].zone.objects.0@ =~= lib0e.take(keep as int)
                        + lib0e.skip(keep + (k + 1int)));
                    assert(state.zones@[hi as int].zone.objects.0@ =~= hand0e + lib0e.subrange(
                        keep as int,
                        keep + (k + 1int),
                    ));
                }
                k += 1;
            }
            proof {
                assert(state.zones@[li as int].zone.objects.0@ =~= lib0e.take(keep as int));
                assert(lib0e.subrange(keep as int, keep + moved as int) =~= lib0e.skip(
                    keep as int,
                ));
                let post = Snap {
                    players: view_players(players@),
                    state: state@,
                    words: rng_words(*rng),
                };
                assert(post.state.zones[li as int].1 =~= pre.state.zones[li as int].1.take(
                    keep as int,
                ));
                assert(post.state.zones[hi as int].1 =~= pre.state.zones[hi as int].1
                    + pre.state.zones[li as int].1.skip(keep as int));
                assert(spec_apply_atom(pre, atom@)->Ok_0.state.zones =~= post.state.zones);
                assert(spec_apply_atom(pre, atom@)->Ok_0 =~~= post);
                        if crate::state::objects_unique(pre.state) {
                            lemma_apply_atom_unique(pre, atom@);
                        }
            }
            Ok(())
        },
        GameAtom::DealDamage { amount, source: _, target } => {
            match target {
                TargetId::Object(_) => {
                    proof {
                        assert(false);
                    }
                    Ok(())
                },
                TargetId::Player(p) => {
                    let pi = player_find(players, *p).unwrap();
                    let cur = players[pi].damage_taken;
                    let amt = *amount as u64;
                    let newv = if cur > u64::MAX - amt {
                        u64::MAX
                    } else {
                        cur + amt
                    };
                    players[pi].damage_taken = newv;
                    proof {
                        let post = Snap {
                            players: view_players(players@),
                            state: state@,
                            words: rng_words(*rng),
                        };
                        assert(view_players(players@) =~= spec_apply_atom(
                            pre,
                            atom@,
                        )->Ok_0.players);
                        assert(spec_apply_atom(pre, atom@)->Ok_0 =~~= post);
                        if crate::state::objects_unique(pre.state) {
                            lemma_apply_atom_unique(pre, atom@);
                        }
                    }
                    Ok(())
                },
            }
        },
        GameAtom::PassPriority { player } => {
            if state.unpassed_players.len() > 0 && state.unpassed_players[0] == *player {
                state.unpassed_players.remove(0);
                proof {
                    let post = Snap {
                        players: view_players(players@),
                        state: state@,
                        words: rng_words(*rng),
                    };
                    assert(pre.state.unpassed_players.remove(0)
                        =~= pre.state.unpassed_players.skip(1));
                    assert(spec_apply_atom(pre, atom@)->Ok_0 =~~= post);
                        if crate::state::objects_unique(pre.state) {
                            lemma_apply_atom_unique(pre, atom@);
                        }
                }
                Ok(())
            } else {
                Err(GameError::InvalidPlayerPassing { player: *player })
            }
        },
        GameAtom::PlayerPlayCard { player, from, object, choices } => {
            let fi = state.zone_find(*from).unwrap();
            let si = state.zone_find(ZoneId::Stack).unwrap();
            proof {
                crate::state::lemma_zone_index_of_found(pre.state.zones, *from);
                crate::state::lemma_zone_index_of_found(pre.state.zones, ZoneId::Stack);
            }
            let oi = match object_find(&state.zones[fi].zone.objects.0, *object) {
                Some(oi) => oi,
                None => {
                    return Err(GameError::ObjectNotFoundInZone { zone: *from, object: *object });
                },
            };
            let mut obj = state.zones[fi].zone.objects.0.remove(oi);
            obj.controller = Some(*player);
            obj.choices = dup_choices(choices);
            state.zones[si].zone.objects.0.push(obj);
            proof {
                let zone0 = pre.state.zones[fi as int].1;
                let oi = oi as int;
                assert(crate::zone::view_objects(state.zones@[fi as int].zone.objects.0@)
                    =~= zone0.take(oi) + zone0.skip(oi + 1));
                let post = Snap {
                    players: view_players(players@),
                    state: state@,
                    words: rng_words(*rng),
                };
                assert(spec_apply_atom(pre, atom@)->Ok_0.state.zones[si as int].1
                    =~= post.state.zones[si as int].1);
                assert(spec_apply_atom(pre, atom@)->Ok_0.state.zones =~~= post.state.zones);
                assert(spec_apply_atom(pre, atom@)->Ok_0 =~~= post);
                        if crate::state::objects_unique(pre.state) {
                            lemma_apply_atom_unique(pre, atom@);
                        }
            }
            Ok(())
        },
        GameAtom::ResetPriority => {
            let mut unpassed: Vec<PlayerId> = Vec::new();
            let n = state.active_player_order.len();
            let mut i: usize = 0;
            while i < n
                invariant
                    n == state.active_player_order@.len(),
                    i <= n,
                    unpassed@ == state.active_player_order@.take(i as int),
                    state@ == pre.state,
                    view_players(players@) == pre.players,
                    rng_words(*rng) == pre.words,
                decreases n - i,
            {
                unpassed.push(state.active_player_order[i]);
                assert(state.active_player_order@.take(i + 1int)
                    == state.active_player_order@.take(i as int).push(
                    state.active_player_order@[i as int]));
                i += 1;
            }
            state.unpassed_players = unpassed;
            proof {
                assert(pre.state.active_player_order.take(n as int)
                    == pre.state.active_player_order);
                let post = Snap {
                    players: view_players(players@),
                    state: state@,
                    words: rng_words(*rng),
                };
                assert(spec_apply_atom(pre, atom@)->Ok_0 =~~= post);
                        if crate::state::objects_unique(pre.state) {
                            lemma_apply_atom_unique(pre, atom@);
                        }
            }
            Ok(())
        },
        GameAtom::PopStack => {
            let si = state.zone_find(ZoneId::Stack).unwrap();
            proof {
                crate::state::lemma_zone_index_of_found(pre.state.zones, ZoneId::Stack);
            }
            if state.zones[si].zone.objects.0.len() > 0 {
                state.zones[si].zone.objects.0.pop();
                proof {
                    let stack0 = pre.state.zones[si as int].1;
                    assert(crate::zone::view_objects(state.zones@[si as int].zone.objects.0@)
                        =~= stack0.drop_last());
                    let post = Snap {
                        players: view_players(players@),
                        state: state@,
                        words: rng_words(*rng),
                    };
                    assert(spec_apply_atom(pre, atom@)->Ok_0.state.zones =~~= post.state.zones);
                    assert(spec_apply_atom(pre, atom@)->Ok_0 =~~= post);
                        if crate::state::objects_unique(pre.state) {
                            lemma_apply_atom_unique(pre, atom@);
                        }
                }
            } else {
                proof {
                    let post = Snap {
                        players: view_players(players@),
                        state: state@,
                        words: rng_words(*rng),
                    };
                    assert(spec_apply_atom(pre, atom@)->Ok_0 =~~= post);
                        if crate::state::objects_unique(pre.state) {
                            lemma_apply_atom_unique(pre, atom@);
                        }
                }
            }
            Ok(())
        },
    }
}

/// Two player ledgers with the same ids find every id at the same position.
pub proof fn lemma_player_index_same_ids(ps1: Seq<PlayerModel>, ps2: Seq<PlayerModel>)
    requires
        player_ids(ps1) == player_ids(ps2),
    ensures
        forall|id: PlayerId| #[trigger] player_index_of(ps2, id) == player_index_of(ps1, id),
    decreases ps1.len(),
{
    assert(player_ids(ps1).len() == ps1.len());
    assert(player_ids(ps2).len() == ps2.len());
    if ps1.len() > 0 {
        assert(player_ids(ps1.skip(1)) =~= player_ids(ps1).skip(1));
        assert(player_ids(ps2.skip(1)) =~= player_ids(ps2).skip(1));
        lemma_player_index_same_ids(ps1.skip(1), ps2.skip(1));
        assert forall|id: PlayerId| #[trigger] player_index_of(ps2, id) == player_index_of(
            ps1,
            id,
        ) by {
            assert(ps1[0].id == player_ids(ps1)[0]);
            assert(ps2[0].id == player_ids(ps2)[0]);
            assert(player_index_of(ps2.skip(1), id) == player_index_of(ps1.skip(1), id));
        }
    }
}

} // verus!
