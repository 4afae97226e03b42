//! The game itself: its card database, players, generator, snapshot history
//! and atom log, with the event-sourced update model and the step functions
//! the engine loop is built from.

use vstd::prelude::*;

use crate::atom::{
    atom_admissible, atoms_admissible, lemma_admissible_carries, lemma_apply_atoms_ok,
    player_index_of, spec_apply_atom, spec_apply_atoms, view_atoms, AtomModel, ErrorModel,
    GameAtom, GameError, Snap,
};
use crate::atom::apply_atom_once;
use crate::card::{view_cards, Card, CardModel};
use crate::ids::{CardId, GameId, ObjectId, PlayerId};
use crate::rng::{rng_clone, rng_words};
use crate::state::{
    canonical_player_zones, canonical_zone_keys, initial_player_zones, initial_state,
    new_game_state_with, player_ids, seeded_objects, state_wf, view_players, zone_keys,
    zone_objects, GameStage, GameState, Player, PlayerModel, StageModel, StateModel,
};
use crate::state::{object_index_of, zone_index_of};
use crate::effect::{
    spec_execute, spec_required_info, Effect, EffectInfo, EffectInfoRequest, ExecuteFailureModel,
};
use crate::ids::TargetId;
use crate::zone::{view_choices, ChoiceEntry, ChoiceModel, ObjectModel, ZoneId};

verus! {

/// One recorded transition: the index of the snapshot it started from, and
/// the atoms that were applied.
#[derive(Debug, Clone, PartialEq)]
pub struct HistoryEntry {
    pub prior: usize,
    pub atoms: Vec<GameAtom>,
}

/// The mathematical shape of one recorded transition.
pub struct HistoryModel {
    pub prior: int,
    pub atoms: Seq<AtomModel>,
}

impl View for HistoryEntry {
    type V = HistoryModel;

    open spec fn view(&self) -> HistoryModel {
        HistoryModel { prior: self.prior as int, atoms: view_atoms(self.atoms@) }
    }
}

/// A problem found when checking a game's decks against the card database.
#[derive(Debug, Clone, Copy, PartialEq, Eq, Structural)]
pub enum VerificationError {
    PlayerInvalidCard { id: PlayerId, card: CardId },
}

/// The mathematical shape of a whole game.
pub struct GameModel {
    pub cards: Seq<CardModel>,
    pub id: GameId,
    pub players: Seq<PlayerModel>,
    pub words: Seq<u64>,
    pub game_states: Seq<StateModel>,
    pub history: Seq<HistoryModel>,
}

/// One running game: the immutable card database, the players, the seeded
/// generator, the snapshot history and the atom log. Snapshots are only ever
/// appended, and only by applying atoms.
#[derive(Debug)]
pub struct Game {
    cards: Vec<Card>,
    id: GameId,
    players: Vec<Player>,
    rand: rand_xoshiro::Xoshiro256StarStar,
    game_states: Vec<GameState>,
    history: Vec<HistoryEntry>,
}

impl View for Game {
    type V = GameModel;

    closed spec fn view(&self) -> GameModel {
        GameModel {
            cards: view_cards(self.cards@),
            id: self.id,
            players: view_players(self.players@),
            words: rng_words(self.rand),
            game_states: Seq::new(self.game_states@.len(), |i: int| self.game_states@[i]@),
            history: Seq::new(self.history@.len(), |i: int| self.history@[i]@),
        }
    }
}

/// The controller of an object: its controller field where the object sits
/// on the battlefield or the stack (battlefield searched first), and nothing
/// otherwise.
pub open spec fn spec_controller_of(s: StateModel, object: ObjectId) -> Option<PlayerId> {
    let chain = zone_objects(s.zones, ZoneId::Battlefield) + zone_objects(s.zones, ZoneId::Stack);
    let i = object_index_of(chain, object);
    if i < 0 {
        None
    } else {
        chain[i].controller
    }
}

/// The data the next atom batch acts on: the latest snapshot, the player
/// ledger and the generator state.
pub open spec fn snap_of(g: GameModel) -> Snap {
    Snap { players: g.players, state: g.game_states.last(), words: g.words }
}

/// The well-formedness every game the engine builds maintains: one more
/// snapshot than log entries, distinct player ids, every snapshot structured
/// over exactly this game's zones, and a log whose entries each start from
/// the snapshot recorded just before them.
pub open spec fn game_wf(g: GameModel) -> bool {
    &&& g.game_states.len() == g.history.len() + 1
    &&& player_ids(g.players).no_duplicates()
    &&& forall|i: int| 0 <= i < g.game_states.len() ==> state_wf(
        player_ids(g.players),
        #[trigger] g.game_states[i],
    )
    &&& forall|i: int| 0 <= i < g.history.len() ==> (#[trigger] g.history[i]).prior == i
}

/// Where a replay of an atom log ends: the snapshots it rebuilt, the player
/// ledger and the generator state it reaches.
pub struct ReplayEnd {
    pub states: Seq<StateModel>,
    pub players: Seq<PlayerModel>,
    pub words: Seq<u64>,
}

/// Replays an atom log from a first snapshot, a player ledger and a
/// generator state. Yields nothing if the log's bookkeeping does not line up
/// or some batch fails.
pub open spec fn replay_from(
    players0: Seq<PlayerModel>,
    s0: StateModel,
    w0: Seq<u64>,
    hist: Seq<HistoryModel>,
) -> Option<ReplayEnd>
    decreases hist.len(),
{
    if hist.len() == 0 {
        Some(ReplayEnd { states: seq![s0], players: players0, words: w0 })
    } else {
        match replay_from(players0, s0, w0, hist.drop_last()) {
            None => None,
            Some(re) => {
                let e = hist.last();
                if e.prior == hist.len() - 1 {
                    match spec_apply_atoms(
                        Snap { players: re.players, state: re.states.last(), words: re.words },
                        e.atoms,
                    ) {
                        Ok(sn) => Some(
                            ReplayEnd {
                                states: re.states.push(sn.state),
                                players: sn.players,
                                words: sn.words,
                            },
                        ),
                        Err(_) => None,
                    }
                } else {
                    None
                }
            },
        }
    }
}

/// Whether replaying the game's own log from its first snapshot with the
/// given starting ledger and generator state rebuilds exactly its recorded
/// snapshots, its ledger and its generator state.
pub open spec fn replays(g: GameModel, players0: Seq<PlayerModel>, w0: Seq<u64>) -> bool {
    &&& g.game_states.len() >= 1
    &&& replay_from(players0, g.game_states[0], w0, g.history) == Some(
        ReplayEnd { states: g.game_states, players: g.players, words: g.words },
    )
}

/// Replaying a game's history rebuilds its latest snapshot, its player
/// ledger and its generator state exactly. This is the content of the
/// replay predicate that `Game::new` establishes and `Game::apply_atoms`
/// preserves.
pub proof fn lemma_replay_reconstructs(g: GameModel, players0: Seq<PlayerModel>, w0: Seq<u64>)
    requires
        replays(g, players0, w0),
    ensures
        ({
            let re = replay_from(players0, g.game_states[0], w0, g.history)->Some_0;
            &&& re.states.last() == g.game_states.last()
            &&& re.players == g.players
            &&& re.words == g.words
        }),
{
}

/// A failed batch never reaches a later snapshot: once some prefix fails,
/// the whole batch fails the same way.
pub proof fn lemma_apply_atoms_err_stays(sn: Snap, atoms: Seq<AtomModel>, k: int)
    requires
        0 <= k <= atoms.len(),
        spec_apply_atoms(sn, atoms.take(k)) is Err,
    ensures
        spec_apply_atoms(sn, atoms) == spec_apply_atoms(sn, atoms.take(k)),
    decreases atoms.len() - k,
{
    if k < atoms.len() {
        assert(atoms.take(k + 1).drop_last() =~= atoms.take(k));
        lemma_apply_atoms_err_stays(sn, atoms, k + 1);
    } else {
        assert(atoms.take(k) =~= atoms);
    }
}

/// The position of a card in the database, or -1 if absent.
pub open spec fn card_index_of(cards: Seq<CardModel>, id: CardId) -> int
    decreases cards.len(),
{
    if cards.len() == 0 {
        -1
    } else if cards[0].id == id {
        0
    } else {
        let r = card_index_of(cards.skip(1), id);
        if r < 0 {
            -1
        } else {
            r + 1
        }
    }
}

/// Whether the database holds a card with this id.
pub open spec fn card_exists(cards: Seq<CardModel>, id: CardId) -> bool {
    0 <= card_index_of(cards, id) < cards.len()
}

/// `card_index_of` finds the first matching position.
pub proof fn lemma_card_index_of_first(cards: Seq<CardModel>, id: CardId, i: int)
    requires
        0 <= i < cards.len(),
        cards[i].id == id,
        forall|k: int| 0 <= k < i ==> cards[k].id != id,
    ensures
        card_index_of(cards, id) == i,
    decreases cards.len(),
{
    if i > 0 {
        lemma_card_index_of_first(cards.skip(1), id, i - 1);
    }
}

/// A card id that occurs nowhere is not found.
pub proof fn lemma_card_index_of_absent(cards: Seq<CardModel>, id: CardId)
    requires
        forall|k: int| 0 <= k < cards.len() ==> cards[k].id != id,
    ensures
        card_index_of(cards, id) == -1,
    decreases cards.len(),
{
    if cards.len() > 0 {
        lemma_card_index_of_absent(cards.skip(1), id);
    }
}

/// Finds a card in a database, scanning in order.
pub fn card_find(cards: &Vec<Card>, id: CardId) -> (r: Option<usize>)
    ensures
        match r {
            Some(i) => 0 <= i < cards@.len() && card_index_of(view_cards(cards@), id) == i,
            None => card_index_of(view_cards(cards@), id) == -1,
        },
{
    let n = cards.len();
    let mut i: usize = 0;
    while i < n
        invariant
            n == cards@.len(),
            i <= n,
            forall|k: int| 0 <= k < i ==> view_cards(cards@)[k].id != id,
        decreases n - i,
    {
        if cards[i].id == id {
            proof {
                lemma_card_index_of_first(view_cards(cards@), id, i as int);
            }
            return Some(i);
        }
        i += 1;
    }
    proof {
        lemma_card_index_of_absent(view_cards(cards@), id);
    }
    None
}

/// An exact copy of the player ledger, at the level of the mathematical
/// shape.
fn dup_players(players: &Vec<Player>) -> (r: Vec<Player>)
    ensures
        view_players(r@) =~= view_players(players@),
{
    let mut out: Vec<Player> = Vec::new();
    let n = players.len();
    let mut i: usize = 0;
    while i < n
        invariant
            n == players@.len(),
            i <= n,
            out@.len() == i,
            forall|k: int| 0 <= k < i ==> #[trigger] out@[k]@ == players@[k]@,
        decreases n - i,
    {
        out.push(players[i].duplicate());
        i += 1;
    }
    out
}

/// The missing cards of one player's deck, in deck order.
pub open spec fn invalid_entries_for(p: PlayerModel, cards: Seq<CardModel>) -> Seq<
    VerificationError,
>
    decreases p.initial_cards.len(),
{
    if p.initial_cards.len() == 0 {
        Seq::empty()
    } else {
        invalid_entries_for(
            PlayerModel { initial_cards: p.initial_cards.drop_last(), ..p },
            cards,
        ) + if card_exists(cards, p.initial_cards.last()) {
            Seq::empty()
        } else {
            seq![
                VerificationError::PlayerInvalidCard { id: p.id, card: p.initial_cards.last() },
            ]
        }
    }
}

/// The missing cards over all players, in player order.
pub open spec fn invalid_entries(players: Seq<PlayerModel>, cards: Seq<CardModel>) -> Seq<
    VerificationError,
>
    decreases players.len(),
{
    if players.len() == 0 {
        Seq::empty()
    } else {
        invalid_entries(players.drop_last(), cards) + invalid_entries_for(
            players.last(),
            cards,
        )
    }
}

impl Game {
    /// Builds a game over the given players: the mulligan stage is open,
    /// both priority lists hold the given order, and each player's library
    /// is seeded with one object per card of their deck, drawing every
    /// identifier from the given generator.
    pub fn new(
        id: GameId,
        rand: rand_xoshiro::Xoshiro256StarStar,
        cards: Vec<Card>,
        players: Vec<Player>,
        order: Vec<PlayerId>,
    ) -> (g: Game)
        requires
            player_ids(view_players(players@)).no_duplicates(),
            order@.no_duplicates(),
            forall|i: int| 0 <= i < order@.len() ==> player_ids(view_players(players@)).contains(
                #[trigger] order@[i],
            ),
        ensures
            g@ == (GameModel {
                cards: view_cards(cards@),
                id,
                players: view_players(players@),
                words: crate::state::words_after_seeding(view_players(players@), rng_words(rand)),
                game_states: seq![
                    initial_state(view_players(players@), order@, rng_words(rand)),
                ],
                history: Seq::empty(),
            }),
            game_wf(g@),
            replays(g@, view_players(players@), g@.words),
    {
        let mut rand = rand;
        let ghost w0 = rng_words(rand);
        let first = new_game_state_with(&mut rand, &players, &order);
        let mut game_states: Vec<GameState> = Vec::new();
        game_states.push(first);
        let g = Game { cards, id, players, rand, game_states, history: Vec::new() };
        proof {
            let pm = view_players(g.players@);
            assert(g@.game_states =~= seq![initial_state(pm, order@, w0)]);
            assert(g@.history =~= Seq::<HistoryModel>::empty());
            assert(g@ == (GameModel {
                cards: view_cards(g.cards@),
                id,
                players: pm,
                words: crate::state::words_after_seeding(pm, w0),
                game_states: seq![initial_state(pm, order@, w0)],
                history: Seq::empty(),
            }));
            lemma_initial_state_wf(pm, order@, w0);
            assert(game_wf(g@));
            assert(replays(g@, pm, g@.words));
        }
        g
    }

    /// The identifier of this game.
    pub fn id(&self) -> (r: GameId)
        ensures
            r == self@.id,
    {
        self.id
    }

    /// The players of this game, in their fixed order.
    pub fn players(&self) -> (r: &Vec<Player>)
        ensures
            view_players(r@) == self@.players,
    {
        proof {
            assert(view_players(self.players@) =~= self@.players);
        }
        &self.players
    }

    /// The card database of this game.
    pub fn cards(&self) -> (r: &Vec<Card>)
        ensures
            view_cards(r@) == self@.cards,
    {
        proof {
            assert(view_cards(self.cards@) =~= self@.cards);
        }
        &self.cards
    }

    /// The recorded snapshots, the initial one first.
    pub fn game_states(&self) -> (r: &Vec<GameState>)
        ensures
            r@.len() == self@.game_states.len(),
            forall|i: int| 0 <= i < r@.len() ==> #[trigger] r@[i]@ == self@.game_states[i],
    {
        &self.game_states
    }

    /// The atom log, oldest entry first.
    pub fn history(&self) -> (r: &Vec<HistoryEntry>)
        ensures
            r@.len() == self@.history.len(),
            forall|i: int| 0 <= i < r@.len() ==> #[trigger] r@[i]@ == self@.history[i],
    {
        &self.history
    }

    /// The latest snapshot; every decision the engine takes reads this.
    pub fn latest_gamestate(&self) -> (r: &GameState)
        requires
            self@.game_states.len() >= 1,
        ensures
            r@ == self@.game_states.last(),
    {
        let i = self.game_states.len() - 1;
        &self.game_states[i]
    }

    /// The controller of an object, looked up on the battlefield first and
    /// then on the stack of the latest snapshot.
    pub fn get_controller_of(&self, object: ObjectId) -> (r: Option<PlayerId>)
        requires
            game_wf(self@),
        ensures
            r == spec_controller_of(self@.game_states.last(), object),
    {
        proof {
            crate::state::lemma_wf_zones_present(
                player_ids(self@.players),
                self@.game_states.last(),
            );
        }
        let state = self.latest_gamestate();
        let bi = state.zone_find(ZoneId::Battlefield).unwrap();
        let si = state.zone_find(ZoneId::Stack).unwrap();
        let ghost s = self@.game_states.last();
        let ghost bf = zone_objects(s.zones, ZoneId::Battlefield);
        let ghost st = zone_objects(s.zones, ZoneId::Stack);
        proof {
            crate::state::lemma_object_index_of_concat(bf, st, object);
        }
        match crate::atom::object_find(&state.zones[bi].zone.objects.0, object) {
            Some(i) => {
                proof {
                    assert((bf + st)[i as int] == bf[i as int]);
                }
                state.zones[bi].zone.objects.0[i].controller
            },
            None => {
                match crate::atom::object_find(&state.zones[si].zone.objects.0, object) {
                    Some(j) => {
                        proof {
                            assert((bf + st)[bf.len() + j as int] == st[j as int]);
                        }
                        state.zones[si].zone.objects.0[j].controller
                    },
                    None => None,
                }
            },
        }
    }

    /// Checks every player's deck against the card database; reports each
    /// missing card, in player and deck order.
    pub fn verify(&self) -> (r: Result<(), Vec<VerificationError>>)
        ensures
            match r {
                Ok(_) => invalid_entries(self@.players, self@.cards) =~= Seq::<
                    VerificationError,
                >::empty(),
                Err(v) => v@ =~= invalid_entries(self@.players, self@.cards) && v@.len() > 0,
            },
    {
        let mut errors: Vec<VerificationError> = Vec::new();
        let n = self.players.len();
        let mut i: usize = 0;
        while i < n
            invariant
                n == self.players@.len(),
                i <= n,
                errors@ =~= invalid_entries(
                    view_players(self.players@).take(i as int),
                    view_cards(self.cards@),
                ),
            decreases n - i,
        {
            let p = &self.players[i];
            let m = p.initial_cards.len();
            let mut j: usize = 0;
            while j < m
                invariant
                    m == p.initial_cards@.len(),
                    i < n,
                    n == self.players@.len(),
                    j <= m,
                    p == &self.players[i as int],
                    errors@ =~= invalid_entries(
                        view_players(self.players@).take(i as int),
                        view_cards(self.cards@),
                    ) + invalid_entries_for(
                        PlayerModel { initial_cards: p@.initial_cards.take(j as int), ..p@ },
                        view_cards(self.cards@),
                    ),
                decreases m - j,
            {
                if card_find(&self.cards, p.initial_cards[j]).is_none() {
                    errors.push(
                        VerificationError::PlayerInvalidCard {
                            id: p.id,
                            card: p.initial_cards[j],
                        },
                    );
                }
                proof {
                    let pj = PlayerModel {
                        initial_cards: p@.initial_cards.take(j + 1int),
                        ..p@
                    };
                    assert(pj.initial_cards.drop_last() =~= p@.initial_cards.take(j as int));
                    assert(pj.initial_cards.last() == p@.initial_cards[j as int]);
                    assert(errors@ =~= invalid_entries(
                        view_players(self.players@).take(i as int),
                        view_cards(self.cards@),
                    ) + invalid_entries_for(pj, view_cards(self.cards@)));
                }
                j += 1;
            }
            proof {
                let pv = view_players(self.players@);
                assert(p@.initial_cards.take(m as int) =~= p@.initial_cards);
                assert((PlayerModel { initial_cards: p@.initial_cards.take(m as int), ..p@ })
                    == p@);
                assert(pv.take(i + 1int).drop_last() =~= pv.take(i as int));
                assert(pv.take(i + 1int).last() == pv[i as int]);
                assert(errors@ =~= invalid_entries(pv.take(i + 1int), view_cards(self.cards@)));
            }
            i += 1;
        }
        proof {
            assert(view_players(self.players@).take(n as int) =~= view_players(self.players@));
            assert(view_players(self.players@) =~= self@.players);
            assert(view_cards(self.cards@) =~= self@.cards);
        }
        if errors.len() == 0 {
            Ok(())
        } else {
            Err(errors)
        }
    }

    /// Applies a batch of atoms: folds them left to right over a working
    /// copy of the latest snapshot, failing fast with nothing committed, and
    /// on success records the new snapshot and the batch. Computes exactly
    /// [`spec_apply_atoms`], so the same batch over the same game data
    /// always yields the same successor; keeps the game well-formed; keeps
    /// every object-id-uniqueness of the latest snapshot; and extends any
    /// replay of the log.
    pub fn apply_atoms(&mut self, atoms: Vec<GameAtom>) -> (r: Result<(), GameError>)
        requires
            game_wf(old(self)@),
            atoms_admissible(snap_of(old(self)@), view_atoms(atoms@)),
        ensures
            game_wf(final(self)@),
            match r {
                Ok(_) => ({
                    &&& spec_apply_atoms(snap_of(old(self)@), view_atoms(atoms@)) matches Ok(sn)
                    &&& final(self)@.game_states == old(self)@.game_states.push(
                        spec_apply_atoms(snap_of(old(self)@), view_atoms(atoms@))->Ok_0.state,
                    )
                    &&& final(self)@.players == spec_apply_atoms(
                        snap_of(old(self)@),
                        view_atoms(atoms@),
                    )->Ok_0.players
                    &&& final(self)@.words == spec_apply_atoms(
                        snap_of(old(self)@),
                        view_atoms(atoms@),
                    )->Ok_0.words
                    &&& final(self)@.history == old(self)@.history.push(
                        HistoryModel {
                            prior: old(self)@.history.len() as int,
                            atoms: view_atoms(atoms@),
                        },
                    )
                    &&& final(self)@.cards == old(self)@.cards
                    &&& final(self)@.id == old(self)@.id
                }),
                Err(e) => spec_apply_atoms(snap_of(old(self)@), view_atoms(atoms@)) == Err::<
                    Snap,
                    ErrorModel,
                >(e@) && final(self)@ == old(self)@,
            },
            forall|p0: Seq<PlayerModel>, w0: Seq<u64>| replays(old(self)@, p0, w0)
                ==> #[trigger] replays(final(self)@, p0, w0),
            crate::state::objects_unique(old(self)@.game_states.last()) && r is Ok
                ==> crate::state::objects_unique(final(self)@.game_states.last()),
    {
        let ghost pre = snap_of(self@);
        let ghost avs = view_atoms(atoms@);
        let mut next_players = dup_players(&self.players);
        let latest = self.game_states.len() - 1;
        let mut next_state = self.game_states[latest].duplicate();
        let mut next_rng = rng_clone(&self.rand);
        let n = atoms.len();
        let mut i: usize = 0;
        proof {
            assert(view_players(next_players@) == pre.players);
            assert(avs.take(0) =~= Seq::<AtomModel>::empty());
        }
        while i < n
            invariant
                n == atoms@.len(),
                i <= n,
                avs == view_atoms(atoms@),
                pre == snap_of(self@),
                game_wf(self@),
                atoms_admissible(pre, avs),
                *self == *old(self),
                spec_apply_atoms(pre, avs.take(i as int)) == Ok::<Snap, ErrorModel>(
                    Snap {
                        players: view_players(next_players@),
                        state: next_state@,
                        words: rng_words(next_rng),
                    },
                ),
                crate::state::objects_unique(pre.state) ==> crate::state::objects_unique(
                    next_state@,
                ),
            decreases n - i,
        {
            let ghost cur = Snap {
                players: view_players(next_players@),
                state: next_state@,
                words: rng_words(next_rng),
            };
            proof {
                assert(forall|k: int| 0 <= k < i ==> avs.take(i as int)[k] == avs[k]);
                assert(atoms_admissible(pre, avs.take(i as int)));
                lemma_apply_atoms_ok(pre, avs.take(i as int));
                assert(atom_admissible(pre.players, pre.state, avs[i as int]));
                lemma_admissible_carries(pre, cur, avs[i as int]);
                assert(atoms@[i as int]@ == avs[i as int]);
            }
            let step = apply_atom_once(&mut next_players, &mut next_state, &mut next_rng, &atoms[i]);
            match step {
                Ok(_) => {},
                Err(e) => {
                    proof {
                        assert(avs.take(i + 1int).drop_last() =~= avs.take(i as int));
                        assert(avs.take(i + 1int).last() == avs[i as int]);
                        assert(spec_apply_atoms(pre, avs.take(i + 1int)) == Err::<
                            Snap,
                            ErrorModel,
                        >(e@));
                        lemma_apply_atoms_err_stays(pre, avs, i + 1int);
                        assert(avs.take(n as int) =~= avs);
                    }
                    return Err(e);
                },
            }
            proof {
                assert(avs.take(i + 1int).drop_last() =~= avs.take(i as int));
                assert(avs.take(i + 1int).last() == avs[i as int]);
                assert(spec_apply_atoms(pre, avs.take(i + 1int)) == Ok::<Snap, ErrorModel>(
                    Snap {
                        players: view_players(next_players@),
                        state: next_state@,
                        words: rng_words(next_rng),
                    },
                ));
            }
            i += 1;
        }
        proof {
            assert(avs.take(n as int) =~= avs);
            lemma_apply_atoms_ok(pre, avs);
        }
        let prior = self.game_states.len() - 1;
        self.game_states.push(next_state);
        self.history.push(HistoryEntry { prior, atoms });
        self.players = next_players;
        self.rand = next_rng;
        proof {
            let sn = spec_apply_atoms(pre, avs)->Ok_0;
            assert(self@.game_states =~= old(self)@.game_states.push(sn.state));
            assert(self@.history =~= old(self)@.history.push(
                HistoryModel { prior: old(self)@.history.len() as int, atoms: avs },
            ));
            assert(self@.players =~= sn.players);
            assert(game_wf(self@)) by {
                assert(forall|k: int| 0 <= k < old(self)@.game_states.len()
                    ==> self@.game_states[k] == #[trigger] old(self)@.game_states[k]);
                assert(self@.game_states.last() == sn.state);
                assert(state_wf(player_ids(self@.players), sn.state)) by {
                    assert(player_ids(sn.players) =~= player_ids(pre.players));
                }
                assert(forall|k: int| 0 <= k < old(self)@.history.len()
                    ==> self@.history[k] == #[trigger] old(self)@.history[k]);
            }
            assert forall|p0: Seq<PlayerModel>, w0: Seq<u64>| replays(old(self)@, p0, w0)
                implies #[trigger] replays(self@, p0, w0) by {
                assert(self@.history.drop_last() =~= old(self)@.history);
                assert(self@.game_states[0] == old(self)@.game_states[0]);
                let re = replay_from(p0, old(self)@.game_states[0], w0, old(self)@.history)
                    ->Some_0;
                assert(re.states == old(self)@.game_states);
                assert(re.states.last() == pre.state);
                assert(self@.game_states =~= re.states.push(sn.state));
            }
        }
        Ok(())
    }
}

/// One action a player may take while holding priority.
#[derive(Debug, Clone, Copy, PartialEq, Eq, Structural)]
pub enum PlayerAction {
    PlayCard { from: ZoneId, object: ObjectId },
    PassPriority,
}

/// What kind of step the engine takes next, read off the latest snapshot.
#[derive(Debug, Clone, Copy, PartialEq, Eq, Structural)]
pub enum StepKind {
    /// The mulligan is open: compose forced keeps and redraws, then ask who
    /// keeps.
    KeepHand,
    /// Everyone has passed and the stack holds something: resolve its top.
    Resolve,
    /// Somebody still holds priority: ask them for an action.
    AskAction,
    /// Everyone has passed on an empty stack; turn and phase structure is
    /// not defined here, so the engine offers no function for this step.
    AdvanceTurn,
}

/// The players recorded as keeping their hands, when the mulligan is open.
pub open spec fn keeping_of(s: StateModel) -> Seq<PlayerId> {
    match s.game_stage {
        StageModel::KeepHand { players_keeping } => players_keeping,
        StageModel::GameRunning => Seq::empty(),
    }
}

/// Which step the engine takes next on this snapshot.
pub open spec fn spec_next_step(s: StateModel) -> StepKind {
    match s.game_stage {
        StageModel::KeepHand { .. } => StepKind::KeepHand,
        StageModel::GameRunning => if s.unpassed_players.len() > 0 {
            StepKind::AskAction
        } else if zone_objects(s.zones, ZoneId::Stack).len() > 0 {
            StepKind::Resolve
        } else {
            StepKind::AdvanceTurn
        },
    }
}

/// The mulligan atoms one player receives: a player who has committed gets
/// none; a hand of one is a forced keep; an empty hand draws the opening
/// seven; anything else is shuffled back and redrawn one card smaller.
pub open spec fn mulligan_atoms_for(p: PlayerId, keeping: Seq<PlayerId>, s: StateModel) -> Seq<
    AtomModel,
> {
    if keeping.contains(p) {
        Seq::empty()
    } else {
        let h = zone_objects(s.zones, ZoneId::Hand(p)).len();
        if h == 1 {
            seq![
                AtomModel::ShuffleHandIntoLibrary { player: p },
                AtomModel::KeepHand { player: p },
            ]
        } else if h == 0 {
            seq![AtomModel::DrawCards { player: p, count: 7 }]
        } else {
            seq![
                AtomModel::ShuffleHandIntoLibrary { player: p },
                AtomModel::DrawCards { player: p, count: h - 1 },
            ]
        }
    }
}

/// The mulligan atoms of all players, in player order.
pub open spec fn mulligan_atoms(
    players: Seq<PlayerModel>,
    keeping: Seq<PlayerId>,
    s: StateModel,
) -> Seq<AtomModel>
    decreases players.len(),
{
    if players.len() == 0 {
        Seq::empty()
    } else {
        mulligan_atoms(players.drop_last(), keeping, s) + mulligan_atoms_for(
            players.last().id,
            keeping,
            s,
        )
    }
}

/// The players who have not yet committed to keep, in player order.
pub open spec fn unkept_players(players: Seq<PlayerModel>, keeping: Seq<PlayerId>) -> Seq<
    PlayerId,
>
    decreases players.len(),
{
    if players.len() == 0 {
        Seq::empty()
    } else {
        unkept_players(players.drop_last(), keeping) + (if keeping.contains(players.last().id) {
            Seq::empty()
        } else {
            seq![players.last().id]
        })
    }
}

/// One keep atom per answered player that the game knows, in answer order.
pub open spec fn keep_atoms(players: Seq<PlayerModel>, answer: Seq<PlayerId>) -> Seq<AtomModel>
    decreases answer.len(),
{
    if answer.len() == 0 {
        Seq::empty()
    } else {
        keep_atoms(players, answer.drop_last()) + (if player_index_of(players, answer.last())
            >= 0 {
            seq![AtomModel::KeepHand { player: answer.last() }]
        } else {
            Seq::empty()
        })
    }
}

/// The engine around one game: the step functions the driving loop calls.
/// Each function performs one deterministic piece of a step; everything a
/// decision needs from the outside is a plain argument.
#[derive(Debug)]
pub struct GameImplV1 {
    pub game: Game,
}

impl View for GameImplV1 {
    type V = GameModel;

    open spec fn view(&self) -> GameModel {
        self.game@
    }
}

impl GameImplV1 {
    /// Builds the engine around a fresh game; see [`Game::new`].
    pub fn new(
        id: GameId,
        rand: rand_xoshiro::Xoshiro256StarStar,
        cards: Vec<Card>,
        players: Vec<Player>,
        order: Vec<PlayerId>,
    ) -> (r: GameImplV1)
        requires
            player_ids(view_players(players@)).no_duplicates(),
            order@.no_duplicates(),
            forall|i: int| 0 <= i < order@.len() ==> player_ids(view_players(players@)).contains(
                #[trigger] order@[i],
            ),
        ensures
            r@ == (GameModel {
                cards: view_cards(cards@),
                id,
                players: view_players(players@),
                words: crate::state::words_after_seeding(view_players(players@), rng_words(rand)),
                game_states: seq![
                    initial_state(view_players(players@), order@, rng_words(rand)),
                ],
                history: Seq::empty(),
            }),
            game_wf(r@),
            replays(r@, view_players(players@), r@.words),
    {
        GameImplV1 { game: Game::new(id, rand, cards, players, order) }
    }

    /// Checks the decks against the card database; see [`Game::verify`].
    pub fn verify(&self) -> (r: Result<(), Vec<VerificationError>>)
        ensures
            match r {
                Ok(_) => invalid_entries(self@.players, self@.cards) =~= Seq::<
                    VerificationError,
                >::empty(),
                Err(v) => v@ =~= invalid_entries(self@.players, self@.cards) && v@.len() > 0,
            },
    {
        self.game.verify()
    }

    /// The latest snapshot; see [`Game::latest_gamestate`].
    pub fn latest_gamestate(&self) -> (r: &GameState)
        requires
            self@.game_states.len() >= 1,
        ensures
            r@ == self@.game_states.last(),
    {
        self.game.latest_gamestate()
    }

    /// Applies a batch of atoms; see [`Game::apply_atoms`].
    pub fn apply_atoms(&mut self, atoms: Vec<GameAtom>) -> (r: Result<(), GameError>)
        requires
            game_wf(old(self)@),
            atoms_admissible(snap_of(old(self)@), view_atoms(atoms@)),
        ensures
            game_wf(final(self)@),
            match r {
                Ok(_) => ({
                    &&& spec_apply_atoms(snap_of(old(self)@), view_atoms(atoms@)) matches Ok(sn)
                    &&& final(self)@ == (GameModel {
                        game_states: old(self)@.game_states.push(
                            spec_apply_atoms(
                                snap_of(old(self)@),
                                view_atoms(atoms@),
                            )->Ok_0.state,
                        ),
                        players: spec_apply_atoms(
                            snap_of(old(self)@),
                            view_atoms(atoms@),
                        )->Ok_0.players,
                        words: spec_apply_atoms(
                            snap_of(old(self)@),
                            view_atoms(atoms@),
                        )->Ok_0.words,
                        history: old(self)@.history.push(
                            HistoryModel {
                                prior: old(self)@.history.len() as int,
                                atoms: view_atoms(atoms@),
                            },
                        ),
                        ..old(self)@
                    })
                }),
                Err(e) => spec_apply_atoms(snap_of(old(self)@), view_atoms(atoms@)) == Err::<
                    Snap,
                    ErrorModel,
                >(e@) && final(self)@ == old(self)@,
            },
            forall|p0: Seq<PlayerModel>, w0: Seq<u64>| replays(old(self)@, p0, w0)
                ==> #[trigger] replays(final(self)@, p0, w0),
            crate::state::objects_unique(old(self)@.game_states.last()) && r is Ok
                ==> crate::state::objects_unique(final(self)@.game_states.last()),
    {
        let r = self.game.apply_atoms(atoms);
        proof {
            if r is Ok {
                assert(final(self)@ =~~= (GameModel {
                    game_states: old(self)@.game_states.push(
                        spec_apply_atoms(snap_of(old(self)@), view_atoms(atoms@))->Ok_0.state,
                    ),
                    players: spec_apply_atoms(
                        snap_of(old(self)@),
                        view_atoms(atoms@),
                    )->Ok_0.players,
                    words: spec_apply_atoms(snap_of(old(self)@), view_atoms(atoms@))->Ok_0.words,
                    history: old(self)@.history.push(
                        HistoryModel {
                            prior: old(self)@.history.len() as int,
                            atoms: view_atoms(atoms@),
                        },
                    ),
                    ..old(self)@
                }));
            }
        }
        r
    }

    /// Which kind of step comes next, read off the latest snapshot.
    pub fn next_step(&self) -> (r: StepKind)
        requires
            game_wf(self@),
        ensures
            r == spec_next_step(self@.game_states.last()),
    {
        proof {
            crate::state::lemma_wf_zones_present(
                player_ids(self@.players),
                self@.game_states.last(),
            );
        }
        let latest = self.game.latest_gamestate();
        match &latest.game_stage {
            GameStage::KeepHand { .. } => StepKind::KeepHand,
            GameStage::GameRunning => {
                if latest.unpassed_players.len() > 0 {
                    StepKind::AskAction
                } else {
                    let si = latest.zone_find(ZoneId::Stack).unwrap();
                    if latest.zones[si].zone.objects.0.len() > 0 {
                        StepKind::Resolve
                    } else {
                        StepKind::AdvanceTurn
                    }
                }
            },
        }
    }

    /// The mulligan half-step that needs no outside answer: for every player
    /// who has not committed, composes the forced keep (hand of one), the
    /// opening draw (empty hand) or the shuffle-and-redraw (anything else),
    /// applies the batch, and returns the players to ask about keeping.
    pub fn keep_hand_prepare(&mut self) -> (r: Result<Vec<PlayerId>, GameError>)
        requires
            game_wf(old(self)@),
            spec_next_step(old(self)@.game_states.last()) == StepKind::KeepHand,
        ensures
            game_wf(final(self)@),
            forall|p0: Seq<PlayerModel>, w0: Seq<u64>| replays(old(self)@, p0, w0)
                ==> #[trigger] replays(final(self)@, p0, w0),
            crate::state::objects_unique(old(self)@.game_states.last())
                ==> crate::state::objects_unique(final(self)@.game_states.last()),
            r is Ok,
            match r {
                Ok(asked) => ({
                    let atoms = mulligan_atoms(
                        old(self)@.players,
                        keeping_of(old(self)@.game_states.last()),
                        old(self)@.game_states.last(),
                    );
                    &&& spec_apply_atoms(snap_of(old(self)@), atoms) matches Ok(sn)
                    &&& final(self)@ == (GameModel {
                        game_states: old(self)@.game_states.push(
                            spec_apply_atoms(snap_of(old(self)@), atoms)->Ok_0.state,
                        ),
                        players: spec_apply_atoms(snap_of(old(self)@), atoms)->Ok_0.players,
                        words: spec_apply_atoms(snap_of(old(self)@), atoms)->Ok_0.words,
                        history: old(self)@.history.push(
                            HistoryModel { prior: old(self)@.history.len() as int, atoms },
                        ),
                        ..old(self)@
                    })
                    &&& asked@ == unkept_players(
                        final(self)@.players,
                        keeping_of(final(self)@.game_states.last()),
                    )
                    &&& final(self)@.game_states.last().game_stage is KeepHand
                }),
                Err(_) => false,
            },
    {
        let ghost ids = player_ids(self@.players);
        let ghost last0 = self@.game_states.last();
        proof {
            crate::state::lemma_wf_zones_present(ids, last0);
        }
        let latest_idx = self.game.game_states.len() - 1;
        let keeping: Vec<PlayerId> = match &self.game.game_states[latest_idx].game_stage {
            GameStage::KeepHand { players_keeping } => {
                let mut ks: Vec<PlayerId> = Vec::new();
                let w = players_keeping.len();
                let mut t: usize = 0;
                while t < w
                    invariant
                        w == players_keeping@.len(),
                        t <= w,
                        ks@ == players_keeping@.take(t as int),
                    decreases w - t,
                {
                    ks.push(players_keeping[t]);
                    assert(players_keeping@.take(t + 1int) == players_keeping@.take(
                        t as int,
                    ).push(players_keeping@[t as int]));
                    t += 1;
                }
                proof {
                    assert(players_keeping@.take(w as int) == players_keeping@);
                }
                ks
            },
            GameStage::GameRunning => {
                proof {
                    assert(false);
                }
                Vec::new()
            },
        };
        proof {
            assert(keeping@ == keeping_of(last0));
        }
        let mut atoms: Vec<GameAtom> = Vec::new();
        let n = self.game.players.len();
        let mut i: usize = 0;
        while i < n
            invariant
                n == self.game.players@.len(),
                i <= n,
                *self == *old(self),
                game_wf(self@),
                ids == player_ids(self@.players),
                last0 == self@.game_states.last(),
                latest_idx == self.game.game_states@.len() - 1,
                keeping@ == keeping_of(last0),
                view_atoms(atoms@) =~= mulligan_atoms(
                    self@.players.take(i as int),
                    keeping@,
                    last0,
                ),
                forall|k: int| 0 <= k < atoms@.len() ==> crate::atom::atom_admissible(
                    self@.players,
                    last0,
                    #[trigger] view_atoms(atoms@)[k],
                ),
                forall|k: int| 0 <= k < atoms@.len() ==> ((#[trigger] view_atoms(atoms@)[k])
                    is KeepHand || view_atoms(atoms@)[k] is ShuffleHandIntoLibrary || view_atoms(
                    atoms@,
                )[k] is DrawCards),
            decreases n - i,
        {
            let p_id = self.game.players[i].id;
            proof {
                crate::state::lemma_wf_zones_present(ids, last0);
                assert(ids[i as int] == p_id);
                assert(ids.contains(p_id));
                crate::atom::lemma_player_index_of_present(self@.players, p_id);
            }
            if !crate::atom::vec_contains_player(&keeping, p_id) {
                let latest = &self.game.game_states[latest_idx];
                let hi = latest.zone_find(ZoneId::Hand(p_id)).unwrap();
                let h = latest.zones[hi].zone.objects.0.len();
                if h == 1 {
                    atoms.push(GameAtom::ShuffleHandIntoLibrary { player: p_id });
                    atoms.push(GameAtom::KeepHand { player: p_id });
                } else if h == 0 {
                    atoms.push(GameAtom::DrawCards { player: p_id, count: 7 });
                } else {
                    atoms.push(GameAtom::ShuffleHandIntoLibrary { player: p_id });
                    atoms.push(GameAtom::DrawCards { player: p_id, count: h - 1 });
                }
            }
            proof {
                let pv = self@.players;
                assert(pv.take(i + 1int).drop_last() =~= pv.take(i as int));
                assert(pv.take(i + 1int).last() == pv[i as int]);
                assert(view_atoms(atoms@) =~= mulligan_atoms(
                    pv.take(i + 1int),
                    keeping@,
                    last0,
                ));
            }
            i += 1;
        }
        proof {
            assert(self@.players.take(n as int) =~= self@.players);
            assert(view_atoms(atoms@) =~= mulligan_atoms(self@.players, keeping@, last0));
            crate::atom::lemma_mulligan_batch_ok(snap_of(self@), view_atoms(atoms@));
        }
        match self.apply_atoms(atoms) {
            Ok(_) => {},
            Err(e) => {
                proof {
                    assert(false);
                }
                return Err(e);
            },
        }
        let latest_idx2 = self.game.game_states.len() - 1;
        let keeping2: Vec<PlayerId> = match &self.game.game_states[latest_idx2].game_stage {
            GameStage::KeepHand { players_keeping } => {
                let mut ks: Vec<PlayerId> = Vec::new();
                let w = players_keeping.len();
                let mut t: usize = 0;
                while t < w
                    invariant
                        w == players_keeping@.len(),
                        t <= w,
                        ks@ == players_keeping@.take(t as int),
                    decreases w - t,
                {
                    ks.push(players_keeping[t]);
                    assert(players_keeping@.take(t + 1int) == players_keeping@.take(
                        t as int,
                    ).push(players_keeping@[t as int]));
                    t += 1;
                }
                proof {
                    assert(players_keeping@.take(w as int) == players_keeping@);
                }
                ks
            },
            GameStage::GameRunning => {
                proof {
                    assert(false);
                }
                Vec::new()
            },
        };
        proof {
            assert(keeping2@ == keeping_of(self@.game_states.last()));
        }
        let mut asked: Vec<PlayerId> = Vec::new();
        let n2 = self.game.players.len();
        let mut j: usize = 0;
        while j < n2
            invariant
                n2 == self.game.players@.len(),
                j <= n2,
                asked@ =~= unkept_players(
                    view_players(self.game.players@).take(j as int),
                    keeping2@,
                ),
            decreases n2 - j,
        {
            let p_id = self.game.players[j].id;
            if !crate::atom::vec_contains_player(&keeping2, p_id) {
                asked.push(p_id);
            }
            proof {
                let pv = view_players(self.game.players@);
                assert(pv.take(j + 1int).drop_last() =~= pv.take(j as int));
                assert(pv.take(j + 1int).last() == pv[j as int]);
                assert(asked@ =~= unkept_players(pv.take(j + 1int), keeping2@));
            }
            j += 1;
        }
        proof {
            assert(view_players(self.game.players@).take(n2 as int) =~= view_players(
                self.game.players@,
            ));
            assert(view_players(self.game.players@) =~= self@.players);
        }
        Ok(asked)
    }
}

impl GameImplV1 {
    /// Commits the outside's mulligan answer: records a keep for every
    /// answered player the game knows, and, once every player keeps, starts
    /// the game. Returns whether the game started. Answers naming unknown
    /// players are ignored. The game starts exactly when the recorded
    /// keepers reach the full player count, and then every player is
    /// recorded as keeping.
    pub fn keep_hand_commit(&mut self, keeping: &Vec<PlayerId>) -> (r: Result<
        bool,
        GameError,
    >)
        requires
            game_wf(old(self)@),
            spec_next_step(old(self)@.game_states.last()) == StepKind::KeepHand,
        ensures
            game_wf(final(self)@),
            forall|p0: Seq<PlayerModel>, w0: Seq<u64>| replays(old(self)@, p0, w0)
                ==> #[trigger] replays(final(self)@, p0, w0),
            crate::state::objects_unique(old(self)@.game_states.last())
                ==> crate::state::objects_unique(final(self)@.game_states.last()),
            r is Ok,
            match r {
                Ok(started) => ({
                    let katoms = keep_atoms(old(self)@.players, keeping@);
                    let sn1 = spec_apply_atoms(snap_of(old(self)@), katoms)->Ok_0;
                    let mid = GameModel {
                        game_states: old(self)@.game_states.push(sn1.state),
                        players: sn1.players,
                        words: sn1.words,
                        history: old(self)@.history.push(
                            HistoryModel {
                                prior: old(self)@.history.len() as int,
                                atoms: katoms,
                            },
                        ),
                        ..old(self)@
                    };
                    &&& spec_apply_atoms(snap_of(old(self)@), katoms) is Ok
                    &&& started == (keeping_of(sn1.state).len() == old(self)@.players.len())
                    &&& (!started ==> final(self)@ == mid
                        && final(self)@.game_states.last().game_stage is KeepHand)
                    &&& (started ==> final(self)@ == (GameModel {
                        game_states: mid.game_states.push(
                            StateModel { game_stage: StageModel::GameRunning, ..sn1.state },
                        ),
                        history: mid.history.push(
                            HistoryModel {
                                prior: mid.history.len() as int,
                                atoms: seq![AtomModel::StartGame],
                            },
                        ),
                        ..mid
                    }) && final(self)@.game_states.last().game_stage is GameRunning)
                    &&& (started ==> forall|p: PlayerId| player_ids(
                        old(self)@.players,
                    ).contains(p) ==> keeping_of(sn1.state).contains(p))
                }),
                Err(_) => false,
            },
    {
        let ghost ids = player_ids(self@.players);
        let mut katoms: Vec<GameAtom> = Vec::new();
        let n = keeping.len();
        let mut i: usize = 0;
        while i < n
            invariant
                n == keeping@.len(),
                i <= n,
                *self == *old(self),
                game_wf(self@),
                ids == player_ids(self@.players),
                view_atoms(katoms@) =~= keep_atoms(self@.players, keeping@.take(i as int)),
                forall|k: int| 0 <= k < katoms@.len() ==> crate::atom::atom_admissible(
                    self@.players,
                    self@.game_states.last(),
                    #[trigger] view_atoms(katoms@)[k],
                ),
                forall|k: int| 0 <= k < katoms@.len() ==> (#[trigger] view_atoms(katoms@)[k])
                    is KeepHand,
            decreases n - i,
        {
            let pid = keeping[i];
            if crate::atom::player_find(&self.game.players, pid).is_some() {
                katoms.push(GameAtom::KeepHand { player: pid });
            }
            proof {
                assert(keeping@.take(i + 1int).drop_last() =~= keeping@.take(i as int));
                assert(keeping@.take(i + 1int).last() == keeping@[i as int]);
                assert(view_atoms(katoms@) =~= keep_atoms(
                    self@.players,
                    keeping@.take(i + 1int),
                ));
            }
            i += 1;
        }
        proof {
            assert(keeping@.take(n as int) =~= keeping@);
            assert(view_atoms(katoms@) =~= keep_atoms(self@.players, keeping@));
            crate::atom::lemma_mulligan_batch_ok(snap_of(self@), view_atoms(katoms@));
        }
        match self.apply_atoms(katoms) {
            Ok(_) => {},
            Err(e) => {
                proof {
                    assert(false);
                }
                return Err(e);
            },
        }
        proof {
            crate::atom::lemma_apply_atoms_ok(
                snap_of(old(self)@),
                keep_atoms(old(self)@.players, keeping@),
            );
            assert(player_ids(self@.players).len() == player_ids(old(self)@.players).len());
            assert(self@.players.len() == old(self)@.players.len());
        }
        let latest_idx = self.game.game_states.len() - 1;
        let ghost lastm = self@.game_states.last();
        let keep_count: usize;
        match &self.game.game_states[latest_idx].game_stage {
            GameStage::KeepHand { players_keeping } => {
                keep_count = players_keeping.len();
                proof {
                    assert(keep_count == keeping_of(lastm).len());
                }
            },
            GameStage::GameRunning => {
                proof {
                    assert(false);
                }
                keep_count = 0;
            },
        }
        if keep_count == self.game.players.len() {
            proof {
                let ghost sn1 = snap_of(self@);
                let keeping2 = keeping_of(sn1.state);
                assert(crate::state::state_wf(ids, sn1.state));
                keeping2.unique_seq_to_set();
                ids.unique_seq_to_set();
                assert(keeping2.to_set().subset_of(ids.to_set())) by {
                    assert forall|p: PlayerId| keeping2.to_set().contains(p)
                        implies ids.to_set().contains(p) by {
                        assert(keeping2.contains(p));
                        let w = choose|w: int|
                            0 <= w < keeping2.len() && keeping2[w] == p;
                        assert(ids.contains(p));
                    }
                }
                vstd::set_lib::lemma_subset_equality(keeping2.to_set(), ids.to_set());
                assert forall|p: PlayerId| ids.contains(p) implies keeping2.contains(p) by {
                    assert(ids.to_set().contains(p));
                    assert(keeping2.to_set().contains(p));
                }
            }
            let mut satoms: Vec<GameAtom> = Vec::new();
            satoms.push(GameAtom::StartGame);
            proof {
                let katoms_m = keep_atoms(old(self)@.players, keeping@);
                let sn1 = spec_apply_atoms(snap_of(old(self)@), katoms_m)->Ok_0;
                assert(snap_of(self@).state == sn1.state);
                assert(sn1.state.game_stage is KeepHand);
                assert(view_atoms(satoms@) =~= seq![AtomModel::StartGame]);
                assert(seq![AtomModel::StartGame].drop_last() =~= Seq::<AtomModel>::empty());
                assert(spec_apply_atoms(snap_of(self@), Seq::<AtomModel>::empty()) == Ok::<
                    Snap,
                    ErrorModel,
                >(snap_of(self@)));
                assert(spec_apply_atoms(snap_of(self@), seq![AtomModel::StartGame].drop_last())
                    == Ok::<Snap, ErrorModel>(snap_of(self@)));
                assert(seq![AtomModel::StartGame].last() == AtomModel::StartGame);
                assert(spec_apply_atoms(snap_of(self@), seq![AtomModel::StartGame])
                    == spec_apply_atom(snap_of(self@), AtomModel::StartGame));
                assert(spec_apply_atoms(snap_of(self@), view_atoms(satoms@)) is Ok);
            }
            let ghost mid = self@;
            match self.apply_atoms(satoms) {
                Ok(_) => {},
                Err(e) => {
                    proof {
                        assert(false);
                    }
                    return Err(e);
                },
            }
            proof {
                let katoms_m = keep_atoms(old(self)@.players, keeping@);
                let sn1 = spec_apply_atoms(snap_of(old(self)@), katoms_m)->Ok_0;
                assert(spec_apply_atoms(snap_of(mid), seq![AtomModel::StartGame])->Ok_0.state
                    == (StateModel { game_stage: StageModel::GameRunning, ..sn1.state }));
                assert(final(self)@ =~~= (GameModel {
                    game_states: mid.game_states.push(
                        StateModel { game_stage: StageModel::GameRunning, ..sn1.state },
                    ),
                    history: mid.history.push(
                        HistoryModel {
                            prior: mid.history.len() as int,
                            atoms: seq![AtomModel::StartGame],
                        },
                    ),
                    ..mid
                }));
            }
            Ok(true)
        } else {
            Ok(false)
        }
    }
}

/// One piece of information a card being played still needs from the
/// outside: which effect handler asks, under which name, and what kind of
/// answer it wants.
#[derive(Debug, Clone, PartialEq)]
pub struct InfoQuery {
    pub effect_index: usize,
    pub name: String,
    pub request: EffectInfoRequest,
}

/// The mathematical shape of one pending information query.
pub struct InfoQueryModel {
    pub effect_index: int,
    pub name: Seq<char>,
    pub request: EffectInfoRequest,
}

impl View for InfoQuery {
    type V = InfoQueryModel;

    open spec fn view(&self) -> InfoQueryModel {
        InfoQueryModel {
            effect_index: self.effect_index as int,
            name: self.name@,
            request: self.request,
        }
    }
}

/// The pending queries of a list, as their mathematical shapes.
pub open spec fn view_queries(s: Seq<InfoQuery>) -> Seq<InfoQueryModel> {
    Seq::new(s.len(), |i: int| s[i]@)
}

/// One question to put to the outside: which player chooses, for which
/// source object and named information, out of which candidates, and how
/// many answers are expected.
#[derive(Debug, Clone, PartialEq)]
pub struct TargetQuery {
    pub player: PlayerId,
    pub source: ObjectId,
    pub name: String,
    pub choices: Vec<TargetId>,
    pub count: usize,
}

/// The card-play subroutine in flight: the chosen card, the queries still to
/// gather, and the decisions gathered so far.
#[derive(Debug, Clone, PartialEq)]
pub struct CardPlay {
    pub player: PlayerId,
    pub from: ZoneId,
    pub object: ObjectId,
    pub queries: Vec<InfoQuery>,
    pub next: usize,
    pub gathered: Vec<ChoiceEntry>,
}

/// The mathematical shape of a card play in flight.
pub struct CardPlayModel {
    pub player: PlayerId,
    pub from: ZoneId,
    pub object: ObjectId,
    pub queries: Seq<InfoQueryModel>,
    pub next: int,
    pub gathered: Seq<ChoiceModel>,
}

impl View for CardPlay {
    type V = CardPlayModel;

    open spec fn view(&self) -> CardPlayModel {
        CardPlayModel {
            player: self.player,
            from: self.from,
            object: self.object,
            queries: view_queries(self.queries@),
            next: self.next as int,
            gathered: view_choices(self.gathered@),
        }
    }
}

/// What choosing an action led to: a pass already applied, or a card play
/// awaiting its choices.
#[derive(Debug)]
pub enum ActionOutcome {
    Passed,
    Playing(CardPlay),
}

/// The actions the priority holder may take: passing, or playing any card
/// from their hand.
pub open spec fn spec_possible_actions(s: StateModel) -> Seq<PlayerAction> {
    let active = s.unpassed_players[0];
    seq![PlayerAction::PassPriority] + zone_objects(s.zones, ZoneId::Hand(active)).map_values(
        |o: ObjectModel| PlayerAction::PlayCard { from: ZoneId::Hand(active), object: o.id },
    )
}

/// The candidates an unrestricted single-target choice offers: every player,
/// then every object on the battlefield.
pub open spec fn spec_candidates(players: Seq<PlayerModel>, s: StateModel) -> Seq<TargetId> {
    player_ids(players).map_values(|p: PlayerId| TargetId::Player(p)) + zone_objects(
        s.zones,
        ZoneId::Battlefield,
    ).map_values(|o: ObjectModel| TargetId::Object(o.id))
}

/// The information queries a list of handlers asks, enumerated with the
/// handler's position; a continuous handler cannot be played and fails the
/// whole card.
pub open spec fn queries_of_effects(effects: Seq<Effect>) -> Result<
    Seq<InfoQueryModel>,
    ErrorModel,
>
    decreases effects.len(),
{
    if effects.len() == 0 {
        Ok(Seq::empty())
    } else {
        match queries_of_effects(effects.drop_last()) {
            Err(e) => Err(e),
            Ok(qs) => match effects.last() {
                Effect::Continuous(_) => Err(ErrorModel::InvalidCardState),
                Effect::Instant(ie) => Ok(
                    qs + Seq::new(
                        spec_required_info(ie).len(),
                        |k: int| InfoQueryModel {
                            effect_index: effects.len() - 1,
                            name: spec_required_info(ie)[k].0,
                            request: spec_required_info(ie)[k].1,
                        },
                    ),
                ),
            },
        }
    }
}

/// Identifying the card to play: find the object, its underlying card, the
/// card itself, and the information its on-resolve handlers ask for.
pub open spec fn spec_play_card_begin(
    cards: Seq<CardModel>,
    s: StateModel,
    from: ZoneId,
    object: ObjectId,
) -> Result<Seq<InfoQueryModel>, ErrorModel> {
    let zo = zone_objects(s.zones, from);
    let oi = object_index_of(zo, object);
    if zone_index_of(s.zones, from) < 0 || oi < 0 {
        Err(ErrorModel::ObjectNotFoundInZone { zone: from, object })
    } else {
        match zo[oi].underlying_card {
            None => Err(ErrorModel::NoUnderlyingCard { object }),
            Some(cid) => {
                let ci = card_index_of(cards, cid);
                if ci < 0 {
                    Err(ErrorModel::CardNotFound { card: cid })
                } else {
                    queries_of_effects(crate::card::on_resolve_effects(cards[ci].effects))
                }
            },
        }
    }
}

/// The atoms that commit a play: the card moves to the stack with its
/// gathered choices, and the player passes afterwards if they chose to.
pub open spec fn play_atoms(cp: CardPlayModel, passing: bool) -> Seq<AtomModel> {
    seq![
        AtomModel::PlayerPlayCard {
            player: cp.player,
            from: cp.from,
            object: cp.object,
            choices: cp.gathered,
        },
    ] + if passing {
        seq![AtomModel::PassPriority { player: cp.player }]
    } else {
        Seq::<AtomModel>::empty()
    }
}

/// The decisions recorded for one handler, keyed by name: the entries whose
/// handler position matches, in recorded order.
pub open spec fn choices_for(choices: Seq<ChoiceModel>, idx: int) -> Seq<(Seq<char>, EffectInfo)>
    decreases choices.len(),
{
    if choices.len() == 0 {
        Seq::empty()
    } else {
        choices_for(choices.drop_last(), idx) + (if choices.last().effect_index == idx {
            seq![(choices.last().name, choices.last().info)]
        } else {
            Seq::empty()
        })
    }
}

/// The atoms a resolving card's handlers produce, in handler order;
/// continuous handlers are skipped during resolution.
pub open spec fn effect_atoms(effects: Seq<Effect>, top: ObjectModel, s: StateModel) -> Result<
    Seq<AtomModel>,
    ExecuteFailureModel,
>
    decreases effects.len(),
{
    if effects.len() == 0 {
        Ok(Seq::empty())
    } else {
        match effect_atoms(effects.drop_last(), top, s) {
            Err(f) => Err(f),
            Ok(acc) => match effects.last() {
                Effect::Continuous(_) => Ok(acc),
                Effect::Instant(ie) => match spec_execute(
                    ie,
                    choices_for(top.choices, effects.len() - 1),
                    top.id,
                    s,
                ) {
                    Err(f) => Err(f),
                    Ok(a) => Ok(acc + a),
                },
            },
        }
    }
}

/// Resolving the top of the stack: run its card's on-resolve handlers on the
/// recorded choices, then pop the stack and reset priority.
pub open spec fn spec_resolve_atoms(cards: Seq<CardModel>, s: StateModel) -> Result<
    Seq<AtomModel>,
    ErrorModel,
> {
    let stack = zone_objects(s.zones, ZoneId::Stack);
    let top = stack.last();
    match top.underlying_card {
        None => Err(ErrorModel::NoUnderlyingCard { object: top.id }),
        Some(cid) => {
            let ci = card_index_of(cards, cid);
            if ci < 0 {
                Err(ErrorModel::CardNotFound { card: cid })
            } else {
                match effect_atoms(
                    crate::card::on_resolve_effects(cards[ci].effects),
                    top,
                    s,
                ) {
                    Err(f) => Err(ErrorModel::EffectExecuteFailure { failure: f }),
                    Ok(atoms) => Ok(
                        atoms + seq![AtomModel::PopStack, AtomModel::ResetPriority],
                    ),
                }
            }
        },
    }
}

impl GameImplV1 {
    /// The priority holder and the actions they may take: passing, or
    /// playing any card from their hand.
    pub fn possible_actions(&self) -> (r: (PlayerId, Vec<PlayerAction>))
        requires
            game_wf(self@),
            spec_next_step(self@.game_states.last()) == StepKind::AskAction,
        ensures
            r.0 == self@.game_states.last().unpassed_players[0],
            r.1@ == spec_possible_actions(self@.game_states.last()),
    {
        let ghost lastm = self@.game_states.last();
        let latest = self.game.latest_gamestate();
        let active = latest.unpassed_players[0];
        proof {
            assert(lastm.unpassed_players[0] == lastm.active_player_order[
                lastm.active_player_order.len() - lastm.unpassed_players.len()] );
            assert(player_ids(self@.players).contains(active));
            crate::state::lemma_wf_zones_present(player_ids(self@.players), lastm);
        }
        let mut actions: Vec<PlayerAction> = Vec::new();
        actions.push(PlayerAction::PassPriority);
        let hi = latest.zone_find(ZoneId::Hand(active)).unwrap();
        let hand = &latest.zones[hi].zone.objects.0;
        let n = hand.len();
        let mut i: usize = 0;
        while i < n
            invariant
                n == hand@.len(),
                i <= n,
                hand == &latest.zones@[zone_index_of(lastm.zones, ZoneId::Hand(active)) as int].zone.objects.0,
                0 <= zone_index_of(lastm.zones, ZoneId::Hand(active)) < lastm.zones.len(),
                latest@ == lastm,
                crate::zone::view_objects(hand@) == zone_objects(
                    lastm.zones,
                    ZoneId::Hand(active),
                ),
                actions@.len() == i + 1,
                actions@[0] == PlayerAction::PassPriority,
                forall|k: int| 0 <= k < i ==> actions@[k + 1] == (PlayerAction::PlayCard {
                    from: ZoneId::Hand(active),
                    object: zone_objects(lastm.zones, ZoneId::Hand(active))[k].id,
                }),
            decreases n - i,
        {
            actions.push(PlayerAction::PlayCard { from: ZoneId::Hand(active), object: hand[i].id });
            i += 1;
        }
        proof {
            assert(actions@ =~= spec_possible_actions(lastm));
        }
        (active, actions)
    }

    /// Identifies a card to play: finds the object, its card, and the
    /// information its on-resolve handlers need.
    fn play_card_begin(&self, from: ZoneId, object: ObjectId) -> (r: Result<
        Vec<InfoQuery>,
        GameError,
    >)
        requires
            game_wf(self@),
        ensures
            match r {
                Ok(qs) => spec_play_card_begin(
                    self@.cards,
                    self@.game_states.last(),
                    from,
                    object,
                ) == Ok::<Seq<InfoQueryModel>, ErrorModel>(view_queries(qs@)),
                Err(e) => spec_play_card_begin(
                    self@.cards,
                    self@.game_states.last(),
                    from,
                    object,
                ) == Err::<Seq<InfoQueryModel>, ErrorModel>(e@),
            },
    {
        let latest = self.game.latest_gamestate();
        let obj = match latest.get_object_from_zone(from, object) {
            Some(o) => o,
            None => {
                proof {
                    crate::state::lemma_zone_index_of_found(
                        self@.game_states.last().zones,
                        from,
                    );
                }
                return Err(GameError::ObjectNotFoundInZone { zone: from, object });
            },
        };
        let cid = match obj.underlying_card {
            Some(c) => c,
            None => {
                return Err(GameError::NoUnderlyingCard { object });
            },
        };
        let ci = match card_find(&self.game.cards, cid) {
            Some(i) => i,
            None => {
                return Err(GameError::CardNotFound { card: cid });
            },
        };
        let effects = self.game.cards[ci].collect_on_resolve_effects();
        let ghost lastm = self@.game_states.last();
        let ghost evs = crate::card::on_resolve_effects(self@.cards[ci as int].effects);
        proof {
            assert(self@.cards[ci as int] == self.game.cards@[ci as int]@);
            assert(effects@ == evs);
            assert(spec_play_card_begin(self@.cards, lastm, from, object)
                == queries_of_effects(evs));
        }
        let mut queries: Vec<InfoQuery> = Vec::new();
        proof {
            assert(evs.take(0) =~= Seq::<Effect>::empty());
            assert(view_queries(queries@) =~= Seq::<InfoQueryModel>::empty());
        }
        let n = effects.len();
        let mut idx: usize = 0;
        while idx < n
            invariant
                n == effects@.len(),
                idx <= n,
                effects@ == evs,
                spec_play_card_begin(self@.cards, self@.game_states.last(), from, object)
                    == queries_of_effects(evs),
                queries_of_effects(evs.take(idx as int)) == Ok::<Seq<InfoQueryModel>, ErrorModel>(
                    view_queries(queries@),
                ),
            decreases n - idx,
        {
            match effects[idx] {
                Effect::Continuous(_) => {
                    proof {
                        assert(evs.take(idx + 1int).drop_last() =~= evs.take(idx as int));
                        assert(evs.take(idx + 1int).last() == evs[idx as int]);
                        assert(queries_of_effects(evs.take(idx + 1int)) == Err::<
                            Seq<InfoQueryModel>,
                            ErrorModel,
                        >(ErrorModel::InvalidCardState));
                        lemma_queries_err_stays(evs, idx + 1int);
                    }
                    return Err(GameError::InvalidCardState);
                },
                Effect::Instant(ie) => {
                    let mut req = ie.get_required_info();
                    let ghost req0 = crate::effect::spec_required_info(ie);
                    let m = req.len();
                    let mut k: usize = 0;
                    while k < m
                        invariant
                            m == req0.len(),
                            k <= m,
                            req@.len() == m - k,
                            forall|t: int| 0 <= t < req@.len() ==> ((#[trigger] req@[t]).0@,
                                req@[t].1) == req0[k + t],
                            idx < n,
                            view_queries(queries@) =~= queries_of_effects(
                                evs.take(idx as int),
                            )->Ok_0 + Seq::new(
                                k as nat,
                                |t: int| InfoQueryModel {
                                    effect_index: idx as int,
                                    name: req0[t].0,
                                    request: req0[t].1,
                                },
                            ),
                            queries_of_effects(evs.take(idx as int)) is Ok,
                        decreases m - k,
                    {
                        let ghost pre_req = req@;
                        let entry = req.remove(0);
                        proof {
                            assert(entry == pre_req[0]);
                            assert((entry.0@, entry.1) == req0[k as int]);
                            assert(req@ =~= pre_req.skip(1));
                            assert(forall|t: int| 0 <= t < req@.len()
                                ==> #[trigger] req@[t] == pre_req[t + 1]);
                        }
                        proof {
                            assert(view_queries(queries@).len() == queries_of_effects(
                                evs.take(idx as int),
                            )->Ok_0.len() + k);
                        }
                        let ghost qpre = queries@;
                        queries.push(
                            InfoQuery { effect_index: idx, name: entry.0, request: entry.1 },
                        );
                        proof {
                            assert(view_queries(queries@).len() == queries@.len());
                            assert(queries@.last()@ == (InfoQueryModel {
                                effect_index: idx as int,
                                name: req0[k as int].0,
                                request: req0[k as int].1,
                            }));
                            let base = queries_of_effects(evs.take(idx as int))->Ok_0;
                            let fk = Seq::new(
                                k as nat,
                                |t: int| InfoQueryModel {
                                    effect_index: idx as int,
                                    name: req0[t].0,
                                    request: req0[t].1,
                                },
                            );
                            let f1 = Seq::new(
                                (k + 1) as nat,
                                |t: int| InfoQueryModel {
                                    effect_index: idx as int,
                                    name: req0[t].0,
                                    request: req0[t].1,
                                },
                            );
                            assert(view_queries(qpre) == base + fk);
                            assert(view_queries(queries@).len() == base.len() + k + 1);
                            assert forall|p: int|
                                0 <= p < base.len() + k + 1 implies view_queries(queries@)[p]
                                == (base + f1)[p] by {
                                assert(view_queries(queries@)[p] == queries@[p]@);
                                if p < base.len() + k {
                                    assert(queries@[p] == qpre[p]);
                                    assert(view_queries(qpre)[p] == qpre[p]@);
                                    assert(view_queries(qpre)[p] == (base + fk)[p]);
                                    if p >= base.len() {
                                        assert((base + fk)[p] == fk[p - base.len()]);
                                        assert((base + f1)[p] == f1[p - base.len()]);
                                        assert(fk[p - base.len()] == f1[p - base.len()]);
                                    }
                                } else {
                                    assert(queries@[p] == queries@.last());
                                    assert((base + f1)[p] == f1[k as int]);
                                }
                            }
                            assert(view_queries(queries@) =~= base + f1);
                        }
                        k += 1;
                    }
                    proof {
                        assert(evs.take(idx + 1int).drop_last() =~= evs.take(idx as int));
                        assert(evs.take(idx + 1int).last() == evs[idx as int]);
                        assert(Seq::new(
                            m as nat,
                            |t: int| InfoQueryModel {
                                effect_index: idx as int,
                                name: req0[t].0,
                                request: req0[t].1,
                            },
                        ) =~= Seq::new(
                            spec_required_info(ie).len(),
                            |t: int| InfoQueryModel {
                                effect_index: evs.take(idx + 1int).len() - 1,
                                name: spec_required_info(ie)[t].0,
                                request: spec_required_info(ie)[t].1,
                            },
                        ));
                        assert(queries_of_effects(evs.take(idx + 1int)) == Ok::<
                            Seq<InfoQueryModel>,
                            ErrorModel,
                        >(view_queries(queries@)));
                    }
                },
            }
            idx += 1;
        }
        proof {
            assert(evs.take(n as int) =~= evs);
        }
        Ok(queries)
    }

    /// Asks the outside which action the priority holder takes, given its
    /// answer: an index outside the offered list is rejected with the list
    /// length; passing is applied at once; playing a card identifies the
    /// card and opens the card-play subroutine without touching the state.
    pub fn choose_action(&mut self, action_idx: usize) -> (r: Result<ActionOutcome, GameError>)
        requires
            game_wf(old(self)@),
            spec_next_step(old(self)@.game_states.last()) == StepKind::AskAction,
            spec_possible_actions(old(self)@.game_states.last()).len() <= usize::MAX,
        ensures
            game_wf(final(self)@),
            forall|p0: Seq<PlayerModel>, w0: Seq<u64>| replays(old(self)@, p0, w0)
                ==> #[trigger] replays(final(self)@, p0, w0),
            crate::state::objects_unique(old(self)@.game_states.last())
                ==> crate::state::objects_unique(final(self)@.game_states.last()),
            ({
                let lastm = old(self)@.game_states.last();
                let actions = spec_possible_actions(lastm);
                let active = lastm.unpassed_players[0];
                match r {
                    Ok(out) => action_idx < actions.len() && match out {
                        ActionOutcome::Passed => ({
                            let pa = AtomModel::PassPriority { player: active };
                            &&& actions[action_idx as int] == PlayerAction::PassPriority
                            &&& spec_apply_atom(snap_of(old(self)@), pa) matches Ok(sn)
                            &&& final(self)@ == (GameModel {
                                game_states: old(self)@.game_states.push(
                                    spec_apply_atom(snap_of(old(self)@), pa)->Ok_0.state,
                                ),
                                players: spec_apply_atom(
                                    snap_of(old(self)@),
                                    pa,
                                )->Ok_0.players,
                                words: spec_apply_atom(snap_of(old(self)@), pa)->Ok_0.words,
                                history: old(self)@.history.push(
                                    HistoryModel {
                                        prior: old(self)@.history.len() as int,
                                        atoms: seq![pa],
                                    },
                                ),
                                ..old(self)@
                            })
                        }),
                        ActionOutcome::Playing(cp) => ({
                            &&& final(self)@ == old(self)@
                            &&& actions[action_idx as int] matches PlayerAction::PlayCard {
                                from,
                                object,
                            }
                            &&& cp@.player == active
                            &&& cp@.from == actions[action_idx as int]->from
                            &&& cp@.object == actions[action_idx as int]->object
                            &&& cp@.next == 0
                            &&& cp@.gathered == Seq::<ChoiceModel>::empty()
                            &&& spec_play_card_begin(
                                old(self)@.cards,
                                lastm,
                                cp@.from,
                                cp@.object,
                            ) == Ok::<Seq<InfoQueryModel>, ErrorModel>(cp@.queries)
                        }),
                    },
                    Err(e) => final(self)@ == old(self)@ && (if action_idx >= actions.len() {
                        e@ == (ErrorModel::InvalidAction {
                            list_length: actions.len() as int,
                            selected_action: action_idx as int,
                        })
                    } else {
                        actions[action_idx as int] matches PlayerAction::PlayCard {
                            from,
                            object,
                        } && spec_play_card_begin(old(self)@.cards, lastm, from, object)
                            == Err::<Seq<InfoQueryModel>, ErrorModel>(e@)
                    }),
                }
            }),
    {
        let ghost lastm = self@.game_states.last();
        let ghost actions = spec_possible_actions(lastm);
        let latest = self.game.latest_gamestate();
        let active = latest.unpassed_players[0];
        proof {
            assert(player_ids(self@.players).contains(active));
            crate::state::lemma_wf_zones_present(player_ids(self@.players), lastm);
        }
        let hi = latest.zone_find(ZoneId::Hand(active)).unwrap();
        let hand_len = latest.zones[hi].zone.objects.0.len();
        proof {
            assert(actions.len() == 1 + hand_len);
        }
        if action_idx >= 1 + hand_len {
            return Err(
                GameError::InvalidAction {
                    list_length: 1 + hand_len,
                    selected_action: action_idx,
                },
            );
        }
        if action_idx == 0 {
            proof {
                assert(actions[0] == PlayerAction::PassPriority);
            }
            let mut patoms: Vec<GameAtom> = Vec::new();
            patoms.push(GameAtom::PassPriority { player: active });
            proof {
                let pa = AtomModel::PassPriority { player: active };
                assert(view_atoms(patoms@) =~= seq![pa]);
                crate::atom::lemma_single_atom(snap_of(self@), pa);
                assert(lastm.unpassed_players[0] == active);
                assert(spec_apply_atom(snap_of(self@), pa) is Ok);
            }
            match self.apply_atoms(patoms) {
                Ok(_) => {},
                Err(e) => {
                    proof {
                        assert(false);
                    }
                    return Err(e);
                },
            }
            Ok(ActionOutcome::Passed)
        } else {
            let object = latest.zones[hi].zone.objects.0[action_idx - 1].id;
            proof {
                assert(actions[action_idx as int] == (PlayerAction::PlayCard {
                    from: ZoneId::Hand(active),
                    object: zone_objects(lastm.zones, ZoneId::Hand(active))[
                        action_idx - 1int].id,
                }));
            }
            match self.play_card_begin(ZoneId::Hand(active), object) {
                Ok(queries) => Ok(
                    ActionOutcome::Playing(
                        CardPlay {
                            player: active,
                            from: ZoneId::Hand(active),
                            object,
                            queries,
                            next: 0,
                            gathered: Vec::new(),
                        },
                    ),
                ),
                Err(e) => Err(e),
            }
        }
    }

    /// The candidates an unrestricted single-target choice offers right now.
    fn build_candidates(&self) -> (r: Vec<TargetId>)
        requires
            game_wf(self@),
        ensures
            r@ == spec_candidates(self@.players, self@.game_states.last()),
    {
        let ghost lastm = self@.game_states.last();
        proof {
            crate::state::lemma_wf_zones_present(player_ids(self@.players), lastm);
        }
        let mut out: Vec<TargetId> = Vec::new();
        let n = self.game.players.len();
        let mut i: usize = 0;
        while i < n
            invariant
                n == self.game.players@.len(),
                i <= n,
                out@.len() == i,
                forall|k: int| 0 <= k < i ==> out@[k] == TargetId::Player(
                    player_ids(view_players(self.game.players@))[k],
                ),
            decreases n - i,
        {
            out.push(TargetId::Player(self.game.players[i].id));
            i += 1;
        }
        let latest = self.game.latest_gamestate();
        let bi = latest.zone_find(ZoneId::Battlefield).unwrap();
        let bf = &latest.zones[bi].zone.objects.0;
        let m = bf.len();
        let mut j: usize = 0;
        while j < m
            invariant
                m == bf@.len(),
                j <= m,
                n == self.game.players@.len(),
                bf == &latest.zones@[zone_index_of(lastm.zones, ZoneId::Battlefield) as int].zone.objects.0,
                0 <= zone_index_of(lastm.zones, ZoneId::Battlefield) < lastm.zones.len(),
                latest@ == lastm,
                crate::zone::view_objects(bf@) == zone_objects(
                    lastm.zones,
                    ZoneId::Battlefield,
                ),
                out@.len() == n + j,
                forall|k: int| 0 <= k < n ==> out@[k] == TargetId::Player(
                    player_ids(view_players(self.game.players@))[k],
                ),
                forall|k: int| 0 <= k < j ==> out@[n + k] == TargetId::Object(
                    zone_objects(lastm.zones, ZoneId::Battlefield)[k].id,
                ),
            decreases m - j,
        {
            out.push(TargetId::Object(bf[j].id));
            j += 1;
        }
        proof {
            assert(view_players(self.game.players@) =~= self@.players);
            assert(out@ =~= spec_candidates(self@.players, lastm));
        }
        out
    }

    /// The next question to put to the outside for this card play, if any:
    /// an unrestricted single target out of every player and every
    /// battlefield object.
    pub fn play_card_next_query(&self, cp: &CardPlay) -> (r: Option<TargetQuery>)
        requires
            game_wf(self@),
        ensures
            match r {
                None => cp@.next >= cp@.queries.len(),
                Some(q) => ({
                    &&& cp@.next < cp@.queries.len()
                    &&& q.player == cp@.player
                    &&& q.source == cp@.object
                    &&& q.name@ == cp@.queries[cp@.next].name
                    &&& q.choices@ == spec_candidates(
                        self@.players,
                        self@.game_states.last(),
                    )
                    &&& q.count == 1
                }),
            },
    {
        if cp.next >= cp.queries.len() {
            return None;
        }
        let choices = self.build_candidates();
        Some(
            TargetQuery {
                player: cp.player,
                source: cp.object,
                name: cp.queries[cp.next].name.clone(),
                choices,
                count: 1,
            },
        )
    }

    /// Records the outside's answer to the pending query: exactly one index
    /// into the offered candidates is expected, and the chosen candidate is
    /// recorded under the query's handler position and name.
    pub fn play_card_give_choices(&self, cp: &mut CardPlay, answer: &Vec<usize>) -> (r: Result<
        (),
        GameError,
    >)
        requires
            game_wf(self@),
            old(cp)@.next < old(cp)@.queries.len(),
            answer@.len() == 1 ==> answer@[0] < spec_candidates(
                self@.players,
                self@.game_states.last(),
            ).len(),
        ensures
            match r {
                Ok(_) => ({
                    &&& answer@.len() == 1
                    &&& final(cp)@ == (CardPlayModel {
                        next: old(cp)@.next + 1,
                        gathered: old(cp)@.gathered.push(
                            ChoiceModel {
                                effect_index: old(cp)@.queries[old(cp)@.next].effect_index,
                                name: old(cp)@.queries[old(cp)@.next].name,
                                info: EffectInfo::SingleTarget(
                                    spec_candidates(
                                        self@.players,
                                        self@.game_states.last(),
                                    )[answer@[0] as int],
                                ),
                            },
                        ),
                        ..old(cp)@
                    })
                }),
                Err(e) => answer@.len() != 1 && e@ == (ErrorModel::InvalidChoiceAmount {
                    expected: 1,
                    received: answer@.len() as int,
                }) && final(cp)@ == old(cp)@,
            },
    {
        if answer.len() != 1 {
            return Err(GameError::InvalidChoiceAmount { expected: 1, received: answer.len() });
        }
        let ql = cp.queries.len();
        let next2 = cp.next + 1;
        let candidates = self.build_candidates();
        let chosen = candidates[answer[0]];
        let q = &cp.queries[cp.next];
        let entry = ChoiceEntry {
            effect_index: q.effect_index,
            name: q.name.clone(),
            info: EffectInfo::SingleTarget(chosen),
        };
        cp.gathered.push(entry);
        cp.next = next2;
        proof {
            assert(view_choices(cp.gathered@) =~= old(cp)@.gathered.push(
                ChoiceModel {
                    effect_index: old(cp)@.queries[old(cp)@.next].effect_index,
                    name: old(cp)@.queries[old(cp)@.next].name,
                    info: EffectInfo::SingleTarget(
                        spec_candidates(self@.players, self@.game_states.last())[
                            answer@[0] as int],
                    ),
                },
            ));
            assert(view_queries(cp.queries@) =~= old(cp)@.queries);
        }
        Ok(())
    }

    /// Commits the play: the card leaves its zone for the stack carrying the
    /// gathered choices, and the player passes priority afterwards if they
    /// elected to.
    pub fn play_card_commit(&mut self, cp: CardPlay, player_passing: bool) -> (r: Result<
        (),
        GameError,
    >)
        requires
            game_wf(old(self)@),
            cp@.from == ZoneId::Hand(cp@.player),
            player_ids(old(self)@.players).contains(cp@.player),
        ensures
            game_wf(final(self)@),
            forall|p0: Seq<PlayerModel>, w0: Seq<u64>| replays(old(self)@, p0, w0)
                ==> #[trigger] replays(final(self)@, p0, w0),
            crate::state::objects_unique(old(self)@.game_states.last())
                ==> crate::state::objects_unique(final(self)@.game_states.last()),
            ({
                let atoms = play_atoms(cp@, player_passing);
                match r {
                    Ok(_) => ({
                        &&& spec_apply_atoms(snap_of(old(self)@), atoms) matches Ok(sn)
                        &&& final(self)@ == (GameModel {
                            game_states: old(self)@.game_states.push(
                                spec_apply_atoms(snap_of(old(self)@), atoms)->Ok_0.state,
                            ),
                            players: spec_apply_atoms(
                                snap_of(old(self)@),
                                atoms,
                            )->Ok_0.players,
                            words: spec_apply_atoms(snap_of(old(self)@), atoms)->Ok_0.words,
                            history: old(self)@.history.push(
                                HistoryModel {
                                    prior: old(self)@.history.len() as int,
                                    atoms,
                                },
                            ),
                            ..old(self)@
                        })
                    }),
                    Err(e) => spec_apply_atoms(snap_of(old(self)@), atoms) == Err::<
                        Snap,
                        ErrorModel,
                    >(e@) && final(self)@ == old(self)@,
                }
            }),
    {
        proof {
            crate::state::lemma_wf_zones_present(
                player_ids(self@.players),
                self@.game_states.last(),
            );
        }
        let mut atoms: Vec<GameAtom> = Vec::new();
        let play_atom = GameAtom::PlayerPlayCard {
            player: cp.player,
            from: cp.from,
            object: cp.object,
            choices: cp.gathered,
        };
        atoms.push(play_atom);
        if player_passing {
            atoms.push(GameAtom::PassPriority { player: cp.player });
        }
        proof {
            assert(view_atoms(atoms@) =~= play_atoms(cp@, player_passing));
        }
        self.apply_atoms(atoms)
    }
}

impl GameImplV1 {
    /// The atoms resolving the top of the stack would apply.
    fn compute_resolve_atoms(&self) -> (r: Result<Vec<GameAtom>, GameError>)
        requires
            game_wf(self@),
            spec_next_step(self@.game_states.last()) == StepKind::Resolve,
        ensures
            match r {
                Ok(atoms) => spec_resolve_atoms(self@.cards, self@.game_states.last()) == Ok::<
                    Seq<AtomModel>,
                    ErrorModel,
                >(view_atoms(atoms@)),
                Err(e) => spec_resolve_atoms(self@.cards, self@.game_states.last()) == Err::<
                    Seq<AtomModel>,
                    ErrorModel,
                >(e@),
            },
    {
        let ghost lastm = self@.game_states.last();
        proof {
            crate::state::lemma_wf_zones_present(player_ids(self@.players), lastm);
        }
        let latest = self.game.latest_gamestate();
        let si = latest.zone_find(ZoneId::Stack).unwrap();
        let stack_len = latest.zones[si].zone.objects.0.len();
        let top = &latest.zones[si].zone.objects.0[stack_len - 1];
        let ghost topm = zone_objects(lastm.zones, ZoneId::Stack).last();
        proof {
            assert(top@ == topm);
        }
        let cid = match top.underlying_card {
            Some(c) => c,
            None => {
                return Err(GameError::NoUnderlyingCard { object: top.id });
            },
        };
        let ci = match card_find(&self.game.cards, cid) {
            Some(i) => i,
            None => {
                return Err(GameError::CardNotFound { card: cid });
            },
        };
        let effects = self.game.cards[ci].collect_on_resolve_effects();
        let ghost evs = crate::card::on_resolve_effects(self@.cards[ci as int].effects);
        proof {
            assert(self@.cards[ci as int] == self.game.cards@[ci as int]@);
            assert(effects@ == evs);
        }
        let mut atoms: Vec<GameAtom> = Vec::new();
        proof {
            assert(evs.take(0) =~= Seq::<Effect>::empty());
            assert(view_atoms(atoms@) =~= Seq::<AtomModel>::empty());
        }
        let n = effects.len();
        let mut idx: usize = 0;
        while idx < n
            invariant
                n == effects@.len(),
                idx <= n,
                effects@ == evs,
                game_wf(self@),
                lastm == self@.game_states.last(),
                topm == zone_objects(lastm.zones, ZoneId::Stack).last(),
                top@ == topm,
                spec_resolve_atoms(self@.cards, lastm) == (match effect_atoms(
                    evs,
                    topm,
                    lastm,
                ) {
                    Err(f) => Err::<Seq<AtomModel>, ErrorModel>(
                        ErrorModel::EffectExecuteFailure { failure: f },
                    ),
                    Ok(a) => Ok::<Seq<AtomModel>, ErrorModel>(
                        a + seq![AtomModel::PopStack, AtomModel::ResetPriority],
                    ),
                }),
                effect_atoms(evs.take(idx as int), topm, lastm) == Ok::<
                    Seq<AtomModel>,
                    ExecuteFailureModel,
                >(view_atoms(atoms@)),
            decreases n - idx,
        {
            match effects[idx] {
                Effect::Continuous(_) => {
                    proof {
                        assert(evs.take(idx + 1int).drop_last() =~= evs.take(idx as int));
                        assert(evs.take(idx + 1int).last() == evs[idx as int]);
                        assert(effect_atoms(evs.take(idx + 1int), topm, lastm) == Ok::<
                            Seq<AtomModel>,
                            ExecuteFailureModel,
                        >(view_atoms(atoms@)));
                    }
                },
                Effect::Instant(ie) => {
                    let mut info: Vec<(String, EffectInfo)> = Vec::new();
                    let cn = top.choices.len();
                    let mut t: usize = 0;
                    proof {
                        assert(view_choices(top.choices@).take(0)
                            =~= Seq::<ChoiceModel>::empty());
                        assert(crate::effect::view_info(info@)
                            =~= Seq::<(Seq<char>, EffectInfo)>::empty());
                    }
                    while t < cn
                        invariant
                            cn == top.choices@.len(),
                            t <= cn,
                            idx < n,
                            topm.choices == view_choices(top.choices@),
                            crate::effect::view_info(info@) =~= choices_for(
                                view_choices(top.choices@).take(t as int),
                                idx as int,
                            ),
                        decreases cn - t,
                    {
                        let c = &top.choices[t];
                        if c.effect_index == idx {
                            info.push((c.name.clone(), c.info));
                        }
                        proof {
                            let cv = view_choices(top.choices@);
                            assert(cv.take(t + 1int).drop_last() =~= cv.take(t as int));
                            assert(cv.take(t + 1int).last() == cv[t as int]);
                            assert(crate::effect::view_info(info@) =~= choices_for(
                                cv.take(t + 1int),
                                idx as int,
                            ));
                        }
                        t += 1;
                    }
                    proof {
                        assert(view_choices(top.choices@).take(cn as int) =~= view_choices(
                            top.choices@,
                        ));
                        assert(crate::effect::view_info(info@) =~= choices_for(
                            topm.choices,
                            idx as int,
                        ));
                    }
                    match ie.execute(&info, top.id, &self.game) {
                        Ok(mut a) => {
                            proof {
                                assert(evs.take(idx + 1int).drop_last() =~= evs.take(
                                    idx as int,
                                ));
                                assert(evs.take(idx + 1int).last() == evs[idx as int]);
                            }
                            let ghost apre = view_atoms(atoms@);
                            let ghost anew = view_atoms(a@);
                            atoms.append(&mut a);
                            proof {
                                assert(view_atoms(atoms@) =~= apre + anew);
                                assert(effect_atoms(evs.take(idx + 1int), topm, lastm) == Ok::<
                                    Seq<AtomModel>,
                                    ExecuteFailureModel,
                                >(view_atoms(atoms@)));
                            }
                        },
                        Err(f) => {
                            proof {
                                assert(evs.take(idx + 1int).drop_last() =~= evs.take(
                                    idx as int,
                                ));
                                assert(evs.take(idx + 1int).last() == evs[idx as int]);
                                assert(effect_atoms(evs.take(idx + 1int), topm, lastm)
                                    == Err::<Seq<AtomModel>, ExecuteFailureModel>(f@));
                                lemma_effect_atoms_err_stays(evs, topm, lastm, idx + 1int);
                            }
                            return Err(GameError::EffectExecuteFailure { failure: f });
                        },
                    }
                },
            }
            idx += 1;
        }
        proof {
            assert(evs.take(n as int) =~= evs);
        }
        let ghost apre = view_atoms(atoms@);
        atoms.push(GameAtom::PopStack);
        atoms.push(GameAtom::ResetPriority);
        proof {
            assert(view_atoms(atoms@) =~= apre + seq![
                AtomModel::PopStack,
                AtomModel::ResetPriority,
            ]);
        }
        Ok(atoms)
    }

    /// Whether the stack can be resolved right now: the next step is a
    /// resolution and every atom it would apply is admissible. Damage aimed
    /// at an object reaches the unimplemented branch and is refused here.
    pub fn resolve_ready(&self) -> (r: bool)
        requires
            game_wf(self@),
        ensures
            r == (spec_next_step(self@.game_states.last()) == StepKind::Resolve
                && (spec_resolve_atoms(self@.cards, self@.game_states.last()) matches Ok(atoms)
                ==> forall|i: int| 0 <= i < atoms.len() ==> atom_admissible(
                self@.players,
                self@.game_states.last(),
                #[trigger] atoms[i],
            ))),
    {
        let step = self.next_step();
        let is_resolve = match step {
            StepKind::Resolve => true,
            _ => false,
        };
        if !is_resolve {
            return false;
        }
        match self.compute_resolve_atoms() {
            Err(_) => true,
            Ok(atoms) => {
                let n = atoms.len();
                let mut i: usize = 0;
                while i < n
                    invariant
                        n == atoms@.len(),
                        i <= n,
                        game_wf(self@),
                        spec_next_step(self@.game_states.last()) == StepKind::Resolve,
                        spec_resolve_atoms(self@.cards, self@.game_states.last()) == Ok::<
                            Seq<AtomModel>,
                            ErrorModel,
                        >(view_atoms(atoms@)),
                        forall|k: int| 0 <= k < i ==> atom_admissible(
                            self@.players,
                            self@.game_states.last(),
                            #[trigger] view_atoms(atoms@)[k],
                        ),
                    decreases n - i,
                {
                    let latest = self.game.latest_gamestate();
                    if !crate::atom::atom_admissible_check(
                        &self.game.players,
                        latest,
                        &atoms[i],
                    ) {
                        proof {
                            assert(view_players(self.game.players@) =~= self@.players);
                            let pay = spec_resolve_atoms(
                                self@.cards,
                                self@.game_states.last(),
                            )->Ok_0;
                            assert(pay == view_atoms(atoms@));
                            assert(!atom_admissible(
                                self@.players,
                                self@.game_states.last(),
                                pay[i as int],
                            ));
                            assert(!(forall|k: int| 0 <= k < pay.len() ==> atom_admissible(
                                self@.players,
                                self@.game_states.last(),
                                #[trigger] pay[k],
                            )));
                        }
                        return false;
                    }
                    proof {
                        assert(view_players(self.game.players@) =~= self@.players);
                    }
                    i += 1;
                }
                true
            },
        }
    }

    /// Resolves the top of the stack: runs its card's on-resolve handlers on
    /// the recorded choices, applies their atoms, pops the resolved object
    /// and resets priority. On success the stack has lost exactly its top
    /// object; no resolution ever touches an empty stack.
    pub fn resolve_top(&mut self) -> (r: Result<(), GameError>)
        requires
            game_wf(old(self)@),
            spec_next_step(old(self)@.game_states.last()) == StepKind::Resolve,
            spec_resolve_atoms(old(self)@.cards, old(self)@.game_states.last()) matches Ok(atoms)
                ==> forall|i: int| 0 <= i < atoms.len() ==> atom_admissible(
                old(self)@.players,
                old(self)@.game_states.last(),
                #[trigger] atoms[i],
            ),
        ensures
            game_wf(final(self)@),
            forall|p0: Seq<PlayerModel>, w0: Seq<u64>| replays(old(self)@, p0, w0)
                ==> #[trigger] replays(final(self)@, p0, w0),
            crate::state::objects_unique(old(self)@.game_states.last())
                ==> crate::state::objects_unique(final(self)@.game_states.last()),
            ({
                let lastm = old(self)@.game_states.last();
                match r {
                    Ok(_) => ({
                        let atoms = spec_resolve_atoms(old(self)@.cards, lastm)->Ok_0;
                        &&& spec_resolve_atoms(old(self)@.cards, lastm) is Ok
                        &&& spec_apply_atoms(snap_of(old(self)@), atoms) matches Ok(sn)
                        &&& final(self)@ == (GameModel {
                            game_states: old(self)@.game_states.push(
                                spec_apply_atoms(snap_of(old(self)@), atoms)->Ok_0.state,
                            ),
                            players: spec_apply_atoms(
                                snap_of(old(self)@),
                                atoms,
                            )->Ok_0.players,
                            words: spec_apply_atoms(snap_of(old(self)@), atoms)->Ok_0.words,
                            history: old(self)@.history.push(
                                HistoryModel {
                                    prior: old(self)@.history.len() as int,
                                    atoms,
                                },
                            ),
                            ..old(self)@
                        })
                        &&& zone_objects(
                            final(self)@.game_states.last().zones,
                            ZoneId::Stack,
                        ) == zone_objects(lastm.zones, ZoneId::Stack).drop_last()
                    }),
                    Err(e) => final(self)@ == old(self)@ && (spec_resolve_atoms(
                        old(self)@.cards,
                        lastm,
                    ) == Err::<Seq<AtomModel>, ErrorModel>(e@) || (spec_resolve_atoms(
                        old(self)@.cards,
                        lastm,
                    ) is Ok && spec_apply_atoms(
                        snap_of(old(self)@),
                        spec_resolve_atoms(old(self)@.cards, lastm)->Ok_0,
                    ) == Err::<Snap, ErrorModel>(e@))),
                }
            }),
    {
        let ghost lastm = self@.game_states.last();
        let atoms = match self.compute_resolve_atoms() {
            Ok(a) => a,
            Err(e) => {
                return Err(e);
            },
        };
        proof {
            crate::state::lemma_wf_zones_present(player_ids(self@.players), lastm);
        }
        match self.apply_atoms(atoms) {
            Ok(_) => {
                proof {
                    let sn0 = snap_of(old(self)@);
                    let ratoms = spec_resolve_atoms(old(self)@.cards, lastm)->Ok_0;
                    let evs = crate::card::on_resolve_effects(
                        old(self)@.cards[card_index_of(
                            old(self)@.cards,
                            zone_objects(
                                lastm.zones,
                                ZoneId::Stack,
                            ).last().underlying_card->Some_0,
                        )].effects,
                    );
                    let topm = zone_objects(lastm.zones, ZoneId::Stack).last();
                    let benign = effect_atoms(evs, topm, lastm)->Ok_0;
                    lemma_effect_atoms_kinds(evs, topm, lastm);
                    assert(ratoms == benign + seq![
                        AtomModel::PopStack,
                        AtomModel::ResetPriority,
                    ]);
                    assert(ratoms.drop_last().drop_last() =~= benign);
                    assert(ratoms.drop_last().last() == AtomModel::PopStack);
                    assert(ratoms.last() == AtomModel::ResetPriority);
                    if spec_apply_atoms(sn0, benign) is Err {
                        assert(ratoms.take(ratoms.len() - 2) =~= benign);
                        lemma_apply_atoms_err_stays(sn0, ratoms, ratoms.len() - 2);
                        assert(false);
                    }
                    crate::state::lemma_wf_zones_present(
                        player_ids(old(self)@.players),
                        lastm,
                    );
                    lemma_benign_atoms_keep_stack(sn0, benign);
                    let sn1 = spec_apply_atoms(sn0, benign)->Ok_0;
                    assert(zone_objects(sn1.state.zones, ZoneId::Stack) == zone_objects(
                        lastm.zones,
                        ZoneId::Stack,
                    ));
                    let si = zone_index_of(sn1.state.zones, ZoneId::Stack);
                    crate::state::lemma_zone_index_of_found(sn1.state.zones, ZoneId::Stack);
                    assert(spec_apply_atoms(sn0, ratoms.drop_last()) == spec_apply_atom(
                        sn1,
                        AtomModel::PopStack,
                    ));
                    let sn2 = spec_apply_atom(sn1, AtomModel::PopStack)->Ok_0;
                    assert(crate::state::zone_keys(sn2.state.zones) =~= crate::state::zone_keys(
                        sn1.state.zones,
                    ));
                    crate::atom::lemma_zone_index_same_keys(sn1.state.zones, sn2.state.zones);
                    assert(zone_objects(sn2.state.zones, ZoneId::Stack) =~= zone_objects(
                        lastm.zones,
                        ZoneId::Stack,
                    ).drop_last());
                    let sn3 = spec_apply_atom(sn2, AtomModel::ResetPriority)->Ok_0;
                    assert(spec_apply_atoms(sn0, ratoms) == spec_apply_atom(
                        sn2,
                        AtomModel::ResetPriority,
                    ));
                    assert(zone_objects(sn3.state.zones, ZoneId::Stack) == zone_objects(
                        sn2.state.zones,
                        ZoneId::Stack,
                    ));
                }
                Ok(())
            },
            Err(e) => Err(e),
        }
    }
}

/// Running a resolving card's handlers fails the same way however much
/// further one looks.
pub proof fn lemma_effect_atoms_err_stays(
    effects: Seq<Effect>,
    top: ObjectModel,
    s: StateModel,
    k: int,
)
    requires
        0 <= k <= effects.len(),
        effect_atoms(effects.take(k), top, s) is Err,
    ensures
        effect_atoms(effects, top, s) == effect_atoms(effects.take(k), top, s),
    decreases effects.len() - k,
{
    if k < effects.len() {
        assert(effects.take(k + 1).drop_last() =~= effects.take(k));
        lemma_effect_atoms_err_stays(effects, top, s, k + 1);
    } else {
        assert(effects.take(k) =~= effects);
    }
}

/// A resolving card's handlers produce only damage and draw atoms.
pub proof fn lemma_effect_atoms_kinds(effects: Seq<Effect>, top: ObjectModel, s: StateModel)
    ensures
        effect_atoms(effects, top, s) matches Ok(atoms) ==> forall|i: int|
            0 <= i < atoms.len() ==> ((#[trigger] atoms[i]) is DealDamage || atoms[i]
                is DrawCards),
    decreases effects.len(),
{
    if effects.len() > 0 {
        lemma_effect_atoms_kinds(effects.drop_last(), top, s);
    }
}

/// Damage and draw atoms never change what sits on the stack.
pub proof fn lemma_benign_atoms_keep_stack(sn: Snap, atoms: Seq<AtomModel>)
    requires
        zone_index_of(sn.state.zones, ZoneId::Stack) >= 0,
    ensures
        (forall|i: int| 0 <= i < atoms.len() ==> ((#[trigger] atoms[i]) is DealDamage
            || atoms[i] is DrawCards)) ==> (spec_apply_atoms(sn, atoms) matches Ok(sn2) ==> (
        zone_objects(sn2.state.zones, ZoneId::Stack) == zone_objects(
            sn.state.zones,
            ZoneId::Stack,
        ) && zone_index_of(sn2.state.zones, ZoneId::Stack) == zone_index_of(
            sn.state.zones,
            ZoneId::Stack,
        ) && sn2.state.zones.len() == sn.state.zones.len())),
    decreases atoms.len(),
{
    if atoms.len() > 0 && (forall|i: int| 0 <= i < atoms.len() ==> ((#[trigger] atoms[i])
        is DealDamage || atoms[i] is DrawCards)) {
        assert(forall|i: int| 0 <= i < atoms.len() - 1 ==> atoms.drop_last()[i] == atoms[i]);
        lemma_benign_atoms_keep_stack(sn, atoms.drop_last());
        if spec_apply_atoms(sn, atoms.drop_last()) is Ok && spec_apply_atoms(sn, atoms)
            is Ok {
            let sn2 = spec_apply_atoms(sn, atoms.drop_last())->Ok_0;
            let sn3 = spec_apply_atoms(sn, atoms)->Ok_0;
            let si = zone_index_of(sn2.state.zones, ZoneId::Stack);
            crate::state::lemma_zone_index_of_found(sn2.state.zones, ZoneId::Stack);
            lemma_apply_atom_stable_zone(sn2, atoms.last(), si);
        }
    }
}

/// One damage or draw atom keeps every entry of a zone map whose key is not
/// one of the two piles it touches; in particular the stack entry.
proof fn lemma_apply_atom_stable_zone(sn: Snap, a: AtomModel, si: int)
    requires
        a is DealDamage || a is DrawCards,
        0 <= si < sn.state.zones.len(),
        sn.state.zones[si].0 == ZoneId::Stack,
        zone_index_of(sn.state.zones, ZoneId::Stack) == si,
    ensures
        spec_apply_atom(sn, a) matches Ok(sn2) ==> (sn2.state.zones.len()
            == sn.state.zones.len() && sn2.state.zones[si] == sn.state.zones[si]
            && zone_index_of(sn2.state.zones, ZoneId::Stack) == si),
{
    crate::atom::lemma_apply_atom_stable(sn, a);
    if spec_apply_atom(sn, a) is Ok {
        let sn2 = spec_apply_atom(sn, a)->Ok_0;
        crate::atom::lemma_zone_index_same_keys(sn.state.zones, sn2.state.zones);
        match a {
            AtomModel::DrawCards { player, .. } => {
                crate::state::lemma_zone_index_of_found(sn.state.zones, ZoneId::Hand(player));
                crate::state::lemma_zone_index_of_found(
                    sn.state.zones,
                    ZoneId::Library(player),
                );
            },
            _ => {},
        }
    }
}

/// Every step of the engine is a function of the game data and the outside's
/// answers alone: two games holding the same data compose the same atoms,
/// offer the same actions and reach the same successors for the same
/// answers. Together with the step functions' contracts, which pin each
/// result to these functions, two runs from the same seed with identical
/// outside answers produce identical snapshot histories.
pub proof fn lemma_steps_deterministic(
    g1: GameModel,
    g2: GameModel,
    answer: Seq<PlayerId>,
    atoms: Seq<AtomModel>,
)
    requires
        g1 == g2,
    ensures
        mulligan_atoms(g1.players, keeping_of(g1.game_states.last()), g1.game_states.last())
            == mulligan_atoms(
            g2.players,
            keeping_of(g2.game_states.last()),
            g2.game_states.last(),
        ),
        keep_atoms(g1.players, answer) == keep_atoms(g2.players, answer),
        spec_possible_actions(g1.game_states.last()) == spec_possible_actions(
            g2.game_states.last(),
        ),
        spec_candidates(g1.players, g1.game_states.last()) == spec_candidates(
            g2.players,
            g2.game_states.last(),
        ),
        spec_resolve_atoms(g1.cards, g1.game_states.last()) == spec_resolve_atoms(
            g2.cards,
            g2.game_states.last(),
        ),
        spec_apply_atoms(snap_of(g1), atoms) == spec_apply_atoms(snap_of(g2), atoms),
{
}

/// A player who has mulliganed down to a hand of one receives a forced
/// keep: their hand is shuffled back and they are recorded as keeping, so
/// they are never asked to redraw fewer cards.
pub proof fn lemma_mulligan_forced_keep(p: PlayerId, keeping: Seq<PlayerId>, s: StateModel)
    requires
        !keeping.contains(p),
        zone_objects(s.zones, ZoneId::Hand(p)).len() == 1,
    ensures
        mulligan_atoms_for(p, keeping, s) == seq![
            AtomModel::ShuffleHandIntoLibrary { player: p },
            AtomModel::KeepHand { player: p },
        ],
{
}

/// Drawing more cards than the library holds never fails: it moves every
/// remaining object to the hand, in order, and leaves the library empty.
pub proof fn lemma_draw_moves_all(sn: Snap, p: PlayerId, count: int)
    requires
        zone_index_of(sn.state.zones, ZoneId::Hand(p)) >= 0,
        zone_index_of(sn.state.zones, ZoneId::Library(p)) >= 0,
        count >= zone_objects(sn.state.zones, ZoneId::Library(p)).len(),
    ensures
        spec_apply_atom(sn, AtomModel::DrawCards { player: p, count }) is Ok,
        ({
            let sn2 = spec_apply_atom(sn, AtomModel::DrawCards { player: p, count })->Ok_0;
            &&& zone_objects(sn2.state.zones, ZoneId::Library(p)) =~= Seq::<
                ObjectModel,
            >::empty()
            &&& zone_objects(sn2.state.zones, ZoneId::Hand(p)) =~= zone_objects(
                sn.state.zones,
                ZoneId::Hand(p),
            ) + zone_objects(sn.state.zones, ZoneId::Library(p))
        }),
{
    let hi = zone_index_of(sn.state.zones, ZoneId::Hand(p));
    let li = zone_index_of(sn.state.zones, ZoneId::Library(p));
    crate::state::lemma_zone_index_of_found(sn.state.zones, ZoneId::Hand(p));
    crate::state::lemma_zone_index_of_found(sn.state.zones, ZoneId::Library(p));
    let sn2 = spec_apply_atom(sn, AtomModel::DrawCards { player: p, count })->Ok_0;
    assert(crate::state::zone_keys(sn2.state.zones) =~= crate::state::zone_keys(
        sn.state.zones,
    ));
    crate::atom::lemma_zone_index_same_keys(sn.state.zones, sn2.state.zones);
    let lib = sn.state.zones[li].1;
    assert(lib.take(0) =~= Seq::<ObjectModel>::empty());
    assert(lib.skip(0) =~= lib);
}

/// Identifying a card fails the same way however much further one looks.
pub proof fn lemma_queries_err_stays(effects: Seq<Effect>, k: int)
    requires
        0 <= k <= effects.len(),
        queries_of_effects(effects.take(k)) is Err,
    ensures
        queries_of_effects(effects) == queries_of_effects(effects.take(k)),
    decreases effects.len() - k,
{
    if k < effects.len() {
        assert(effects.take(k + 1).drop_last() =~= effects.take(k));
        lemma_queries_err_stays(effects, k + 1);
    } else {
        assert(effects.take(k) =~= effects);
    }
}

/// The initial snapshot of a game over players with distinct ids, and a turn
/// order of known players without repeats, is well-formed.
pub proof fn lemma_initial_state_wf(
    players: Seq<PlayerModel>,
    order: Seq<PlayerId>,
    w: Seq<u64>,
)
    requires
        player_ids(players).no_duplicates(),
        order.no_duplicates(),
        forall|i: int| 0 <= i < order.len() ==> player_ids(players).contains(#[trigger] order[i]),
    ensures
        state_wf(player_ids(players), initial_state(players, order, w)),
{
    let s = initial_state(players, order, w);
    lemma_initial_zones_shape(players, w);
    assert(zone_keys(s.zones) =~= canonical_zone_keys(player_ids(players)));
    assert forall|i: int, j: int|
        0 <= i < s.zones.len() && 0 <= j < s.zones[i].1.len() implies (((
    #[trigger] s.zones[i].1[j].controller) is Some) <==> !crate::state::is_player_pile(
        s.zones[i].0,
    )) by {
        lemma_initial_zones_controllers(players, w);
        let pz = initial_player_zones(players, w);
        if i < pz.len() {
            assert(s.zones[i] == pz[i]);
        } else {
            assert(s.zones[i].1.len() == 0);
        }
    }
    assert(s.unpassed_players =~= s.active_player_order.skip(
        s.active_player_order.len() - s.unpassed_players.len(),
    ));
}

/// The zone keys of the initial per-player zones are the canonical ones, and
/// every entry is a pile holding only controllerless objects.
pub proof fn lemma_initial_zones_shape(players: Seq<PlayerModel>, w: Seq<u64>)
    ensures
        zone_keys(initial_player_zones(players, w)) =~= canonical_player_zones(
            player_ids(players),
        ),
    decreases players.len(),
{
    if players.len() > 0 {
        lemma_initial_zones_shape(players.drop_last(), w);
        assert(player_ids(players).drop_last() =~= player_ids(players.drop_last()));
        assert(player_ids(players).last() == players.last().id);
    }
}

/// Every object of the initial per-player zones has no controller, and every
/// key is a player pile.
pub proof fn lemma_initial_zones_controllers(players: Seq<PlayerModel>, w: Seq<u64>)
    ensures
        forall|i: int, j: int|
            0 <= i < initial_player_zones(players, w).len() && 0 <= j < initial_player_zones(
                players,
                w,
            )[i].1.len() ==> (#[trigger] initial_player_zones(players, w)[i].1[j].controller)
                is None,
        forall|i: int| 0 <= i < initial_player_zones(players, w).len()
            ==> crate::state::is_player_pile(#[trigger] initial_player_zones(players, w)[i].0),
    decreases players.len(),
{
    if players.len() > 0 {
        lemma_initial_zones_controllers(players.drop_last(), w);
        lemma_seeded_objects_controller(
            players.last().initial_cards,
            crate::state::words_after_seeding(players.drop_last(), w),
        );
    }
}

/// Every seeded object starts without a controller.
pub proof fn lemma_seeded_objects_controller(cards: Seq<CardId>, w: Seq<u64>)
    ensures
        forall|j: int| 0 <= j < seeded_objects(cards, w).len() ==> (
        #[trigger] seeded_objects(cards, w)[j].controller) is None,
        seeded_objects(cards, w).len() == cards.len(),
    decreases cards.len(),
{
    if cards.len() > 0 {
        lemma_seeded_objects_controller(cards.drop_last(), w);
    }
}

} // verus!
