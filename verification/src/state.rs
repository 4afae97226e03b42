//! The per-game snapshot: players, zones, priority and stage.
//!
//! A [`GameState`] is one snapshot of a running game. Snapshots are immutable
//! once recorded: the engine derives a successor snapshot by applying atoms
//! and appends it to the game's history (see [`crate::game`]).

use vstd::prelude::*;

use crate::ids::{CardId, LibraryCardId, ObjectId, PlayerId};
use crate::rng::{id_drawn, rng_words, words_after_id};
use crate::zone::{GameObject, GameZone, ObjectModel, ZoneId};

verus! {

/// One participant of a game.
#[derive(Debug, Clone, PartialEq)]
pub struct Player {
    pub id: PlayerId,
    /// The cards of the player's starting deck.
    pub initial_cards: Vec<CardId>,
    /// The damage this player has taken so far, as a running ledger.
    pub damage_taken: u64,
}

/// The mathematical shape of one player.
pub struct PlayerModel {
    pub id: PlayerId,
    pub initial_cards: Seq<CardId>,
    pub damage_taken: u64,
}

impl View for Player {
    type V = PlayerModel;

    open spec fn view(&self) -> PlayerModel {
        PlayerModel {
            id: self.id,
            initial_cards: self.initial_cards@,
            damage_taken: self.damage_taken,
        }
    }
}

/// The players of a sequence, as their mathematical shapes.
pub open spec fn view_players(s: Seq<Player>) -> Seq<PlayerModel> {
    Seq::new(s.len(), |i: int| s[i]@)
}

/// The ids of a sequence of players, in order.
pub open spec fn player_ids(players: Seq<PlayerModel>) -> Seq<PlayerId> {
    players.map_values(|p: PlayerModel| p.id)
}

impl Player {
    /// An exact copy, at the level of the mathematical shape.
    pub fn duplicate(&self) -> (r: Player)
        ensures
            r@ == self@,
    {
        let mut initial_cards: Vec<CardId> = Vec::new();
        let n = self.initial_cards.len();
        let mut i: usize = 0;
        while i < n
            invariant
                n == self.initial_cards@.len(),
                i <= n,
                initial_cards@ == self.initial_cards@.take(i as int),
            decreases n - i,
        {
            initial_cards.push(self.initial_cards[i]);
            assert(self.initial_cards@.take(i + 1int)
                == self.initial_cards@.take(i as int).push(self.initial_cards@[i as int]));
            i += 1;
        }
        proof {
            assert(self.initial_cards@.take(n as int) == self.initial_cards@);
        }
        Player { id: self.id, initial_cards, damage_taken: self.damage_taken }
    }
}

/// One binding of a zone id to its zone.
#[derive(Debug, Clone, PartialEq)]
pub struct ZoneEntry {
    pub id: ZoneId,
    pub zone: GameZone,
}

/// Whether the pre-game mulligan is still open or the game proper runs.
#[derive(Debug, Clone, PartialEq)]
pub enum GameStage {
    /// Players are still deciding whether to keep their opening hands; those
    /// who committed are recorded here.
    KeepHand { players_keeping: Vec<PlayerId> },
    GameRunning,
}

/// The mathematical shape of the game stage.
pub enum StageModel {
    KeepHand { players_keeping: Seq<PlayerId> },
    GameRunning,
}

impl View for GameStage {
    type V = StageModel;

    open spec fn view(&self) -> StageModel {
        match self {
            GameStage::KeepHand { players_keeping } => StageModel::KeepHand {
                players_keeping: players_keeping@,
            },
            GameStage::GameRunning => StageModel::GameRunning,
        }
    }
}

/// One snapshot of a game.
#[derive(Debug, Clone, PartialEq)]
pub struct GameState {
    /// Every zone of the game, keyed by zone id; keys are unique.
    pub zones: Vec<ZoneEntry>,
    /// The turn order; index 0 is the active player of the current turn.
    pub active_player_order: Vec<PlayerId>,
    /// Players who have not yet passed priority since the last
    /// stack-modifying action; index 0 holds priority.
    pub unpassed_players: Vec<PlayerId>,
    pub game_stage: GameStage,
}

/// The mathematical shape of one snapshot: the zone bindings in their fixed
/// order, the two priority lists, and the stage.
pub struct StateModel {
    pub zones: Seq<(ZoneId, Seq<ObjectModel>)>,
    pub active_player_order: Seq<PlayerId>,
    pub unpassed_players: Seq<PlayerId>,
    pub game_stage: StageModel,
}

impl View for GameState {
    type V = StateModel;

    open spec fn view(&self) -> StateModel {
        StateModel {
            zones: Seq::new(self.zones@.len(), |i: int| (self.zones@[i].id, self.zones@[i].zone@)),
            active_player_order: self.active_player_order@,
            unpassed_players: self.unpassed_players@,
            game_stage: self.game_stage@,
        }
    }
}

/// The keys of a zone map, in order.
pub open spec fn zone_keys(zs: Seq<(ZoneId, Seq<ObjectModel>)>) -> Seq<ZoneId> {
    zs.map_values(|e: (ZoneId, Seq<ObjectModel>)| e.0)
}

/// The first position of a key in a zone map, or -1 if absent.
pub open spec fn zone_index_of(zs: Seq<(ZoneId, Seq<ObjectModel>)>, id: ZoneId) -> int
    decreases zs.len(),
{
    if zs.len() == 0 {
        -1
    } else if zs[0].0 == id {
        0
    } else {
        let r = zone_index_of(zs.skip(1), id);
        if r < 0 {
            -1
        } else {
            r + 1
        }
    }
}

/// Whether a zone map has a key.
pub open spec fn has_zone(zs: Seq<(ZoneId, Seq<ObjectModel>)>, id: ZoneId) -> bool {
    0 <= zone_index_of(zs, id) < zs.len()
}

/// The contents of a zone, looked up by key.
pub open spec fn zone_objects(zs: Seq<(ZoneId, Seq<ObjectModel>)>, id: ZoneId) -> Seq<ObjectModel> {
    zs[zone_index_of(zs, id)].1
}

/// `zone_index_of` finds the first matching position.
pub proof fn lemma_zone_index_of_first(zs: Seq<(ZoneId, Seq<ObjectModel>)>, id: ZoneId, i: int)
    requires
        0 <= i < zs.len(),
        zs[i].0 == id,
        forall|k: int| 0 <= k < i ==> zs[k].0 != id,
    ensures
        zone_index_of(zs, id) == i,
    decreases zs.len(),
{
    if i > 0 {
        lemma_zone_index_of_first(zs.skip(1), id, i - 1);
    }
}

/// A key that occurs nowhere is not found.
pub proof fn lemma_zone_index_of_absent(zs: Seq<(ZoneId, Seq<ObjectModel>)>, id: ZoneId)
    requires
        forall|k: int| 0 <= k < zs.len() ==> zs[k].0 != id,
    ensures
        zone_index_of(zs, id) == -1,
    decreases zs.len(),
{
    if zs.len() > 0 {
        lemma_zone_index_of_absent(zs.skip(1), id);
    }
}

/// The found position carries the key, and no earlier position does.
pub proof fn lemma_zone_index_of_found(zs: Seq<(ZoneId, Seq<ObjectModel>)>, id: ZoneId)
    ensures
        zone_index_of(zs, id) == -1 || 0 <= zone_index_of(zs, id) < zs.len(),
        zone_index_of(zs, id) >= 0 ==> zs[zone_index_of(zs, id)].0 == id,
        zone_index_of(zs, id) == -1 ==> forall|k: int| 0 <= k < zs.len() ==> zs[k].0 != id,
    decreases zs.len(),
{
    if zs.len() > 0 && zs[0].0 != id {
        lemma_zone_index_of_found(zs.skip(1), id);
        if zone_index_of(zs, id) == -1 {
            assert forall|k: int| 0 <= k < zs.len() implies zs[k].0 != id by {
                if k > 0 {
                    assert(zs.skip(1)[k - 1] == zs[k]);
                }
            }
        }
    }
}

/// The first position of an object id in a zone, or -1 if absent.
pub open spec fn object_index_of(objs: Seq<ObjectModel>, id: ObjectId) -> int
    decreases objs.len(),
{
    if objs.len() == 0 {
        -1
    } else if objs[0].id == id {
        0
    } else {
        let r = object_index_of(objs.skip(1), id);
        if r < 0 {
            -1
        } else {
            r + 1
        }
    }
}

/// `object_index_of` finds the first matching position.
pub proof fn lemma_object_index_of_first(objs: Seq<ObjectModel>, id: ObjectId, i: int)
    requires
        0 <= i < objs.len(),
        objs[i].id == id,
        forall|k: int| 0 <= k < i ==> objs[k].id != id,
    ensures
        object_index_of(objs, id) == i,
    decreases objs.len(),
{
    if i > 0 {
        lemma_object_index_of_first(objs.skip(1), id, i - 1);
    }
}

/// The found position is in range and carries the id.
pub proof fn lemma_object_index_of_found(objs: Seq<ObjectModel>, id: ObjectId)
    ensures
        object_index_of(objs, id) == -1 || 0 <= object_index_of(objs, id) < objs.len(),
        object_index_of(objs, id) >= 0 ==> objs[object_index_of(objs, id)].id == id,
    decreases objs.len(),
{
    if objs.len() > 0 && objs[0].id != id {
        lemma_object_index_of_found(objs.skip(1), id);
    }
}

/// An object id that occurs nowhere is not found.
pub proof fn lemma_object_index_of_absent(objs: Seq<ObjectModel>, id: ObjectId)
    requires
        forall|k: int| 0 <= k < objs.len() ==> objs[k].id != id,
    ensures
        object_index_of(objs, id) == -1,
    decreases objs.len(),
{
    if objs.len() > 0 {
        lemma_object_index_of_absent(objs.skip(1), id);
    }
}

impl GameState {
    /// Finds the position of a zone, scanning in order.
    pub fn zone_find(&self, id: ZoneId) -> (r: Option<usize>)
        ensures
            match r {
                Some(i) => 0 <= i < self@.zones.len() && zone_index_of(self@.zones, id) == i,
                None => zone_index_of(self@.zones, id) == -1,
            },
    {
        let n = self.zones.len();
        let mut i: usize = 0;
        while i < n
            invariant
                n == self.zones@.len(),
                i <= n,
                forall|k: int| 0 <= k < i ==> self@.zones[k].0 != id,
            decreases n - i,
        {
            if self.zones[i].id == id {
                proof {
                    lemma_zone_index_of_first(self@.zones, id, i as int);
                }
                return Some(i);
            }
            i += 1;
        }
        proof {
            lemma_zone_index_of_absent(self@.zones, id);
        }
        None
    }

    /// The player's hand; the zone must exist.
    pub fn get_hand(&self, p: PlayerId) -> (r: &GameZone)
        requires
            has_zone(self@.zones, ZoneId::Hand(p)),
        ensures
            r@ == zone_objects(self@.zones, ZoneId::Hand(p)),
    {
        let i = self.zone_find(ZoneId::Hand(p)).unwrap();
        &self.zones[i].zone
    }

    /// The shared stack; the zone must exist.
    pub fn get_stack(&self) -> (r: &GameZone)
        requires
            has_zone(self@.zones, ZoneId::Stack),
        ensures
            r@ == zone_objects(self@.zones, ZoneId::Stack),
    {
        let i = self.zone_find(ZoneId::Stack).unwrap();
        &self.zones[i].zone
    }

    /// The shared battlefield; the zone must exist.
    pub fn get_battlefield(&self) -> (r: &GameZone)
        requires
            has_zone(self@.zones, ZoneId::Battlefield),
        ensures
            r@ == zone_objects(self@.zones, ZoneId::Battlefield),
    {
        let i = self.zone_find(ZoneId::Battlefield).unwrap();
        &self.zones[i].zone
    }

    /// Finds an object in a given zone.
    pub fn get_object_from_zone(&self, from: ZoneId, obj: ObjectId) -> (r: Option<&GameObject>)
        ensures
            match r {
                Some(o) => {
                    &&& has_zone(self@.zones, from)
                    &&& object_index_of(zone_objects(self@.zones, from), obj) >= 0
                    &&& o@ == zone_objects(self@.zones, from)[object_index_of(
                        zone_objects(self@.zones, from),
                        obj,
                    )]
                },
                None => !has_zone(self@.zones, from) || object_index_of(
                    zone_objects(self@.zones, from),
                    obj,
                ) == -1,
            },
    {
        let zi = match self.zone_find(from) {
            Some(zi) => zi,
            None => {
                return None;
            },
        };
        let objs = &self.zones[zi].zone.objects.0;
        let n = objs.len();
        let mut i: usize = 0;
        while i < n
            invariant
                n == objs@.len(),
                i <= n,
                forall|k: int| 0 <= k < i ==> #[trigger] objs@[k]@.id != obj,
                objs == &self.zones@[zone_index_of(self@.zones, from)].zone.objects.0,
                0 <= zone_index_of(self@.zones, from) < self@.zones.len(),
            decreases n - i,
        {
            if objs[i].id == obj {
                proof {
                    assert(zone_objects(self@.zones, from)[i as int] == objs@[i as int]@);
                    lemma_object_index_of_first(zone_objects(self@.zones, from), obj, i as int);
                }
                return Some(&objs[i]);
            }
            i += 1;
        }
        proof {
            assert(forall|k: int| 0 <= k < n ==> zone_objects(self@.zones, from)[k]
                == #[trigger] objs@[k]@);
            lemma_object_index_of_absent(zone_objects(self@.zones, from), obj);
        }
        None
    }

    /// An exact copy, at the level of the mathematical shape.
    pub fn duplicate(&self) -> (r: GameState)
        ensures
            r@ == self@,
    {
        let mut zones: Vec<ZoneEntry> = Vec::new();
        let n = self.zones.len();
        let mut i: usize = 0;
        while i < n
            invariant
                n == self.zones@.len(),
                i <= n,
                zones@.len() == i,
                forall|k: int| 0 <= k < i ==> #[trigger] zones@[k].id == self.zones@[k].id
                    && zones@[k].zone@ == self.zones@[k].zone@,
            decreases n - i,
        {
            zones.push(ZoneEntry { id: self.zones[i].id, zone: self.zones[i].zone.duplicate() });
            i += 1;
        }
        let mut active_player_order: Vec<PlayerId> = Vec::new();
        let m = self.active_player_order.len();
        let mut j: usize = 0;
        while j < m
            invariant
                m == self.active_player_order@.len(),
                j <= m,
                active_player_order@ == self.active_player_order@.take(j as int),
            decreases m - j,
        {
            active_player_order.push(self.active_player_order[j]);
            assert(self.active_player_order@.take(j + 1int) == self.active_player_order@.take(
                j as int,
            ).push(self.active_player_order@[j as int]));
            j += 1;
        }
        let mut unpassed_players: Vec<PlayerId> = Vec::new();
        let u = self.unpassed_players.len();
        let mut k: usize = 0;
        while k < u
            invariant
                u == self.unpassed_players@.len(),
                k <= u,
                unpassed_players@ == self.unpassed_players@.take(k as int),
            decreases u - k,
        {
            unpassed_players.push(self.unpassed_players[k]);
            assert(self.unpassed_players@.take(k + 1int)
                == self.unpassed_players@.take(k as int).push(self.unpassed_players@[k as int]));
            k += 1;
        }
        let game_stage = match &self.game_stage {
            GameStage::GameRunning => GameStage::GameRunning,
            GameStage::KeepHand { players_keeping } => {
                let mut keeping: Vec<PlayerId> = Vec::new();
                let w = players_keeping.len();
                let mut t: usize = 0;
                while t < w
                    invariant
                        w == players_keeping@.len(),
                        t <= w,
                        keeping@ == players_keeping@.take(t as int),
                    decreases w - t,
                {
                    keeping.push(players_keeping[t]);
                    assert(players_keeping@.take(t + 1int)
                        == players_keeping@.take(t as int).push(players_keeping@[t as int]));
                    t += 1;
                }
                proof {
                    assert(players_keeping@.take(w as int) == players_keeping@);
                }
                GameStage::KeepHand { players_keeping: keeping }
            },
        };
        let r = GameState { zones, active_player_order, unpassed_players, game_stage };
        proof {
            assert(self.active_player_order@.take(m as int) == self.active_player_order@);
            assert(self.unpassed_players@.take(u as int) == self.unpassed_players@);
            assert(r@.zones =~= self@.zones);
            assert(r@ == self@);
        }
        r
    }
}

/// The three per-player zone keys of each player, in player order.
pub open spec fn canonical_player_zones(ids: Seq<PlayerId>) -> Seq<ZoneId>
    decreases ids.len(),
{
    if ids.len() == 0 {
        Seq::empty()
    } else {
        canonical_player_zones(ids.drop_last()) + seq![
            ZoneId::Hand(ids.last()),
            ZoneId::Library(ids.last()),
            ZoneId::Discard(ids.last()),
        ]
    }
}

/// The full set of zone keys a game over these players carries: three zones
/// per player, then the battlefield and the stack.
pub open spec fn canonical_zone_keys(ids: Seq<PlayerId>) -> Seq<ZoneId> {
    canonical_player_zones(ids) + seq![ZoneId::Battlefield, ZoneId::Stack]
}

/// Whether a zone key belongs to a single player's pile.
pub open spec fn is_player_pile(z: ZoneId) -> bool {
    match z {
        ZoneId::Hand(_) | ZoneId::Library(_) | ZoneId::Discard(_) => true,
        ZoneId::Battlefield | ZoneId::Stack => false,
    }
}

/// The structural well-formedness of a snapshot for a game over players with
/// the given ids, in their fixed order:
/// the zone map holds exactly the canonical keys; objects in a player pile
/// have no controller while objects on the stack or battlefield have one;
/// the unpassed players are a tail of the turn order; the turn order has no
/// repeats and only known players; and during the mulligan the committed
/// players are known and recorded once each.
pub open spec fn state_wf(ids: Seq<PlayerId>, s: StateModel) -> bool {
    &&& zone_keys(s.zones) == canonical_zone_keys(ids)
    &&& forall|i: int, j: int|
        0 <= i < s.zones.len() && 0 <= j < s.zones[i].1.len() ==> (((
        #[trigger] s.zones[i].1[j].controller) is Some) <==> !is_player_pile(s.zones[i].0))
    &&& s.unpassed_players == s.active_player_order.skip(
        s.active_player_order.len() - s.unpassed_players.len(),
    )
    &&& s.unpassed_players.len() <= s.active_player_order.len()
    &&& s.active_player_order.no_duplicates()
    &&& forall|i: int| 0 <= i < s.active_player_order.len() ==> ids.contains(
        #[trigger] s.active_player_order[i],
    )
    &&& match s.game_stage {
        StageModel::KeepHand { players_keeping } => players_keeping.no_duplicates()
            && forall|i: int| 0 <= i < players_keeping.len() ==> ids.contains(
            #[trigger] players_keeping[i],
        ),
        StageModel::GameRunning => true,
    }
}

/// A key is found exactly when it occurs among the zone keys.
pub proof fn lemma_zone_index_of_contains(zs: Seq<(ZoneId, Seq<ObjectModel>)>, id: ZoneId)
    ensures
        (zone_index_of(zs, id) >= 0) <==> zone_keys(zs).contains(id),
    decreases zs.len(),
{
    lemma_zone_index_of_found(zs, id);
    if zone_index_of(zs, id) >= 0 {
        assert(zone_keys(zs)[zone_index_of(zs, id)] == id);
    } else {
        if zone_keys(zs).contains(id) {
            let w = choose|w: int| 0 <= w < zone_keys(zs).len() && zone_keys(zs)[w] == id;
            assert(zs[w].0 == id);
        }
    }
}

/// The canonical per-player keys are three per player.
pub proof fn lemma_canonical_len(ids: Seq<PlayerId>)
    ensures
        canonical_player_zones(ids).len() == 3 * ids.len(),
    decreases ids.len(),
{
    if ids.len() > 0 {
        lemma_canonical_len(ids.drop_last());
    }
}

/// Each known player's three piles occur among the canonical keys.
pub proof fn lemma_canonical_contains(ids: Seq<PlayerId>, p: PlayerId)
    requires
        ids.contains(p),
    ensures
        canonical_player_zones(ids).contains(ZoneId::Hand(p)),
        canonical_player_zones(ids).contains(ZoneId::Library(p)),
        canonical_player_zones(ids).contains(ZoneId::Discard(p)),
    decreases ids.len(),
{
    lemma_canonical_len(ids);
    if ids.len() > 0 {
        if ids.last() == p {
            let c = canonical_player_zones(ids);
            lemma_canonical_len(ids.drop_last());
            assert(c[c.len() - 3] == ZoneId::Hand(p));
            assert(c[c.len() - 2] == ZoneId::Library(p));
            assert(c[c.len() - 1] == ZoneId::Discard(p));
        } else {
            assert(ids.drop_last().contains(p)) by {
                let w = choose|w: int| 0 <= w < ids.len() && ids[w] == p;
                assert(ids.drop_last()[w] == p);
            }
            lemma_canonical_contains(ids.drop_last(), p);
            let c0 = canonical_player_zones(ids.drop_last());
            let c = canonical_player_zones(ids);
            assert forall|z: ZoneId| c0.contains(z) implies c.contains(z) by {
                let w = choose|w: int| 0 <= w < c0.len() && c0[w] == z;
                assert(c[w] == z);
            }
        }
    }
}

/// The player a pile key belongs to; the shared zones have none.
pub open spec fn pile_owner(z: ZoneId) -> Option<PlayerId> {
    match z {
        ZoneId::Hand(p) => Some(p),
        ZoneId::Library(p) => Some(p),
        ZoneId::Discard(p) => Some(p),
        ZoneId::Battlefield | ZoneId::Stack => None,
    }
}

/// Every canonical per-player key is a pile owned by a listed player.
pub proof fn lemma_canonical_owners(ids: Seq<PlayerId>)
    ensures
        forall|k: int| 0 <= k < canonical_player_zones(ids).len() ==> is_player_pile(
            #[trigger] canonical_player_zones(ids)[k],
        ) && ids.contains(pile_owner(canonical_player_zones(ids)[k])->Some_0),
    decreases ids.len(),
{
    lemma_canonical_len(ids);
    if ids.len() > 0 {
        lemma_canonical_owners(ids.drop_last());
        lemma_canonical_len(ids.drop_last());
        assert forall|k: int|
            0 <= k < canonical_player_zones(ids).len() implies is_player_pile(
            #[trigger] canonical_player_zones(ids)[k],
        ) && ids.contains(pile_owner(canonical_player_zones(ids)[k])->Some_0) by {
            let c = canonical_player_zones(ids);
            let c0 = canonical_player_zones(ids.drop_last());
            if k < c0.len() {
                assert(c[k] == c0[k]);
                let q = pile_owner(c0[k])->Some_0;
                let w = choose|w: int| 0 <= w < ids.drop_last().len() && ids.drop_last()[w]
                    == q;
                assert(ids[w] == q);
            } else {
                assert(ids.contains(ids.last()));
            }
        }
    }
}

/// The canonical zone keys of distinct players are pairwise distinct.
pub proof fn lemma_canonical_no_dup(ids: Seq<PlayerId>)
    requires
        ids.no_duplicates(),
    ensures
        canonical_zone_keys(ids).no_duplicates(),
    decreases ids.len(),
{
    lemma_canonical_len(ids);
    lemma_canonical_owners(ids);
    if ids.len() == 0 {
        assert(canonical_zone_keys(ids) =~= seq![ZoneId::Battlefield, ZoneId::Stack]);
    } else {
        assert(ids.drop_last().no_duplicates());
        lemma_canonical_no_dup(ids.drop_last());
        lemma_canonical_len(ids.drop_last());
        lemma_canonical_owners(ids.drop_last());
        let c = canonical_zone_keys(ids);
        let c0 = canonical_zone_keys(ids.drop_last());
        let p = ids.last();
        assert forall|a: int, b: int| 0 <= a < b < c.len() implies c[a] != c[b] by {
            let cp = canonical_player_zones(ids);
            let cp0 = canonical_player_zones(ids.drop_last());
            if b < cp0.len() {
                assert(c0[a] == c[a] && c0[b] == c[b]);
            } else if a < cp0.len() && b < cp.len() {
                assert(pile_owner(c[b])->Some_0 == p);
                assert(ids.drop_last().contains(pile_owner(cp0[a])->Some_0));
                if c[a] == c[b] {
                    let q = pile_owner(cp0[a])->Some_0;
                    let w = choose|w: int|
                        0 <= w < ids.drop_last().len() && ids.drop_last()[w] == q;
                    assert(ids[w] == p && ids[ids.len() - 1] == p);
                }
            } else if a < cp.len() && b >= cp.len() {
                assert(is_player_pile(c[a]) && !is_player_pile(c[b]));
            } else if a >= cp0.len() && b < cp.len() {
                assert(c[a] == cp[a] && c[b] == cp[b]);
                assert(cp[cp.len() - 3] == ZoneId::Hand(p));
                assert(cp[cp.len() - 2] == ZoneId::Library(p));
                assert(cp[cp.len() - 1] == ZoneId::Discard(p));
            } else {
                assert(c[a] == ZoneId::Battlefield && c[b] == ZoneId::Stack);
            }
        }
    }
}

/// Every reachable snapshot holds exactly the game's zones: one hand, one
/// library and one discard per player, plus the shared battlefield and
/// stack, each exactly once.
pub proof fn lemma_zone_domain(ids: Seq<PlayerId>, s: StateModel)
    requires
        state_wf(ids, s),
        ids.no_duplicates(),
    ensures
        s.zones.len() == 3 * ids.len() + 2,
        zone_keys(s.zones).no_duplicates(),
        forall|p: PlayerId| ids.contains(p) ==> has_zone(s.zones, ZoneId::Hand(p)) && has_zone(
            s.zones,
            ZoneId::Library(p),
        ) && has_zone(s.zones, ZoneId::Discard(p)),
        has_zone(s.zones, ZoneId::Battlefield),
        has_zone(s.zones, ZoneId::Stack),
        forall|k: int| 0 <= k < s.zones.len() ==> (is_player_pile(#[trigger] s.zones[k].0)
            ==> ids.contains(pile_owner(s.zones[k].0)->Some_0)),
{
    lemma_wf_zones_present(ids, s);
    lemma_canonical_no_dup(ids);
    lemma_canonical_owners(ids);
    lemma_canonical_len(ids);
    assert forall|p: PlayerId| ids.contains(p) implies has_zone(s.zones, ZoneId::Hand(p))
        && has_zone(s.zones, ZoneId::Library(p)) && has_zone(s.zones, ZoneId::Discard(p)) by {
        crate::state::lemma_zone_index_of_found(s.zones, ZoneId::Hand(p));
        crate::state::lemma_zone_index_of_found(s.zones, ZoneId::Library(p));
        crate::state::lemma_zone_index_of_found(s.zones, ZoneId::Discard(p));
    }
    lemma_zone_index_of_found(s.zones, ZoneId::Battlefield);
    lemma_zone_index_of_found(s.zones, ZoneId::Stack);
    assert forall|k: int|
        0 <= k < s.zones.len() implies (is_player_pile(#[trigger] s.zones[k].0)
        ==> ids.contains(pile_owner(s.zones[k].0)->Some_0)) by {
        assert(s.zones[k].0 == zone_keys(s.zones)[k]);
        if k < canonical_player_zones(ids).len() {
            assert(zone_keys(s.zones)[k] == canonical_player_zones(ids)[k]);
        } else {
            assert(!is_player_pile(zone_keys(s.zones)[k]));
        }
    }
}

/// The unpassed players are a tail of the turn order, so they form a
/// subsequence of it, in order and without repeats.
pub proof fn lemma_unpassed_subsequence(ids: Seq<PlayerId>, s: StateModel)
    requires
        state_wf(ids, s),
    ensures
        s.unpassed_players.no_duplicates(),
        forall|j: int| 0 <= j < s.unpassed_players.len() ==> s.unpassed_players[j]
            == s.active_player_order[s.active_player_order.len() - s.unpassed_players.len()
            + j],
{
    let d = s.active_player_order.len() - s.unpassed_players.len();
    assert(s.unpassed_players == s.active_player_order.skip(d as int));
    assert forall|a: int, b: int|
        0 <= a < b < s.unpassed_players.len() implies s.unpassed_players[a]
        != s.unpassed_players[b] by {
        assert(s.unpassed_players[a] == s.active_player_order[d + a]);
        assert(s.unpassed_players[b] == s.active_player_order[d + b]);
    }
}

/// Objects in a player's hand, library or discard have no controller, and
/// objects on the stack or battlefield always have one.
pub proof fn lemma_controller_by_zone(ids: Seq<PlayerId>, s: StateModel)
    requires
        state_wf(ids, s),
    ensures
        forall|i: int, j: int|
            0 <= i < s.zones.len() && 0 <= j < s.zones[i].1.len() ==> (((
            #[trigger] s.zones[i].1[j].controller) is Some) <==> !is_player_pile(s.zones[i].0)),
{
}

/// In a well-formed snapshot every zone the engine addresses is present: the
/// battlefield, the stack, and each known player's three piles.
pub proof fn lemma_wf_zones_present(ids: Seq<PlayerId>, s: StateModel)
    requires
        state_wf(ids, s),
    ensures
        zone_index_of(s.zones, ZoneId::Battlefield) >= 0,
        zone_index_of(s.zones, ZoneId::Stack) >= 0,
        forall|p: PlayerId| ids.contains(p) ==> zone_index_of(s.zones, ZoneId::Hand(p)) >= 0
            && zone_index_of(s.zones, ZoneId::Library(p)) >= 0 && zone_index_of(
            s.zones,
            ZoneId::Discard(p),
        ) >= 0,
        s.zones.len() == 3 * ids.len() + 2,
{
    let keys = canonical_zone_keys(ids);
    lemma_canonical_len(ids);
    assert(keys[keys.len() - 2] == ZoneId::Battlefield);
    assert(keys[keys.len() - 1] == ZoneId::Stack);
    lemma_zone_index_of_contains(s.zones, ZoneId::Battlefield);
    lemma_zone_index_of_contains(s.zones, ZoneId::Stack);
    assert forall|p: PlayerId| ids.contains(p) implies zone_index_of(s.zones, ZoneId::Hand(p))
        >= 0 && zone_index_of(s.zones, ZoneId::Library(p)) >= 0 && zone_index_of(
        s.zones,
        ZoneId::Discard(p),
    ) >= 0 by {
        lemma_canonical_contains(ids, p);
        lemma_zone_index_of_contains(s.zones, ZoneId::Hand(p));
        lemma_zone_index_of_contains(s.zones, ZoneId::Library(p));
        lemma_zone_index_of_contains(s.zones, ZoneId::Discard(p));
        let cp = canonical_player_zones(ids);
        assert forall|z: ZoneId| cp.contains(z) implies keys.contains(z) by {
            let w = choose|w: int| 0 <= w < cp.len() && cp[w] == z;
            assert(keys[w] == z);
        }
    }
    assert(zone_keys(s.zones).len() == s.zones.len());
}

/// The first position of an object id in a concatenation: the left part is
/// searched first.
pub proof fn lemma_object_index_of_concat(a: Seq<ObjectModel>, b: Seq<ObjectModel>, id: ObjectId)
    ensures
        object_index_of(a + b, id) == if object_index_of(a, id) >= 0 {
            object_index_of(a, id)
        } else if object_index_of(b, id) >= 0 {
            a.len() + object_index_of(b, id)
        } else {
            -1int
        },
    decreases a.len(),
{
    lemma_object_index_of_found(a, id);
    lemma_object_index_of_found(b, id);
    if a.len() == 0 {
        assert(a + b =~= b);
    } else {
        assert((a + b).skip(1) =~= a.skip(1) + b);
        lemma_object_index_of_concat(a.skip(1), b, id);
    }
}

/// Whether every object id occurs in at most one place over all zones: any
/// two distinct positions hold objects with distinct ids.
pub open spec fn objects_unique(s: StateModel) -> bool {
    forall|i1: int, j1: int, i2: int, j2: int|
        0 <= i1 < s.zones.len() && 0 <= j1 < s.zones[i1].1.len() && 0 <= i2 < s.zones.len()
            && 0 <= j2 < s.zones[i2].1.len() && (i1 != i2 || j1 != j2) ==> (
        #[trigger] s.zones[i1].1[j1].id) != (#[trigger] s.zones[i2].1[j2].id)
}

/// The generator state after `n` identifier draws.
pub open spec fn words_after_ids(n: int, w: Seq<u64>) -> Seq<u64>
    decreases n,
{
    if n <= 0 {
        w
    } else {
        words_after_id(words_after_ids(n - 1, w))
    }
}

/// The objects seeding one player's library: one object per initial card, in
/// deck order, each with a fresh object id and library card id drawn in turn.
pub open spec fn seeded_objects(cards: Seq<CardId>, w: Seq<u64>) -> Seq<ObjectModel>
    decreases cards.len(),
{
    if cards.len() == 0 {
        Seq::empty()
    } else {
        seeded_objects(cards.drop_last(), w).push(
            ObjectModel {
                id: ObjectId { 0: id_drawn(words_after_ids(2 * (cards.len() - 1), w)) },
                library_card_id: Some(
                    LibraryCardId {
                        0: id_drawn(words_after_ids(2 * (cards.len() - 1) + 1, w)),
                    },
                ),
                underlying_card: Some(cards.last()),
                controller: None,
                choices: Seq::empty(),
            },
        )
    }
}

/// The generator state after seeding the libraries of these players.
pub open spec fn words_after_seeding(players: Seq<PlayerModel>, w: Seq<u64>) -> Seq<u64>
    decreases players.len(),
{
    if players.len() == 0 {
        w
    } else {
        words_after_ids(
            2 * players.last().initial_cards.len() as int,
            words_after_seeding(players.drop_last(), w),
        )
    }
}

/// The zone bindings the initial snapshot gives each player, in player order:
/// an empty hand, the seeded library, an empty discard.
pub open spec fn initial_player_zones(players: Seq<PlayerModel>, w: Seq<u64>) -> Seq<
    (ZoneId, Seq<ObjectModel>),
>
    decreases players.len(),
{
    if players.len() == 0 {
        Seq::empty()
    } else {
        initial_player_zones(players.drop_last(), w) + seq![
            (ZoneId::Hand(players.last().id), Seq::<ObjectModel>::empty()),
            (
                ZoneId::Library(players.last().id),
                seeded_objects(
                    players.last().initial_cards,
                    words_after_seeding(players.drop_last(), w),
                ),
            ),
            (ZoneId::Discard(players.last().id), Seq::<ObjectModel>::empty()),
        ]
    }
}

/// The initial snapshot of a game: the mulligan is open with nobody committed
/// yet, both priority lists hold the given order, and each player's library
/// holds one object per initial card.
pub open spec fn initial_state(
    players: Seq<PlayerModel>,
    order: Seq<PlayerId>,
    w: Seq<u64>,
) -> StateModel {
    StateModel {
        zones: initial_player_zones(players, w) + seq![
            (ZoneId::Battlefield, Seq::<ObjectModel>::empty()),
            (ZoneId::Stack, Seq::<ObjectModel>::empty()),
        ],
        active_player_order: order,
        unpassed_players: order,
        game_stage: StageModel::KeepHand { players_keeping: Seq::empty() },
    }
}

/// Builds the initial snapshot, drawing every object id from the generator.
pub fn new_game_state_with(
    rand: &mut rand_xoshiro::Xoshiro256StarStar,
    players: &Vec<Player>,
    order: &Vec<PlayerId>,
) -> (r: GameState)
    ensures
        r@ == initial_state(view_players(players@), order@, rng_words(*old(rand))),
        rng_words(*final(rand)) == words_after_seeding(
            view_players(players@),
            rng_words(*old(rand)),
        ),
{
    let w0 = Ghost(rng_words(*rand));
    let mut zones: Vec<ZoneEntry> = Vec::new();
    let n = players.len();
    let mut i: usize = 0;
    while i < n
        invariant
            n == players@.len(),
            i <= n,
            Seq::new(zones@.len(), |t: int| (zones@[t].id, zones@[t].zone@))
                =~= initial_player_zones(view_players(players@).take(i as int), w0@),
            rng_words(*rand) == words_after_seeding(view_players(players@).take(i as int), w0@),
        decreases n - i,
    {
        let p = &players[i];
        let mut objs: Vec<GameObject> = Vec::new();
        let m = p.initial_cards.len();
        let wp = Ghost(rng_words(*rand));
        let mut j: usize = 0;
        while j < m
            invariant
                m == p.initial_cards@.len(),
                j <= m,
                crate::zone::view_objects(objs@) =~= seeded_objects(
                    p.initial_cards@.take(j as int),
                    wp@,
                ),
                rng_words(*rand) == words_after_ids(2 * j as int, wp@),
            decreases m - j,
        {
            let obj = GameObject::from_card(rand, p.initial_cards[j]);
            objs.push(obj);
            proof {
                let cards = p.initial_cards@;
                assert(cards.take(j + 1int).drop_last() == cards.take(j as int));
                assert(cards.take(j + 1int).last() == cards[j as int]);
                assert(words_after_ids(2 * (j as int) + 1, wp@) == words_after_id(
                    words_after_ids(2 * (j as int), wp@),
                ));
                assert(words_after_ids(2 * (j + 1int), wp@) == words_after_id(
                    words_after_ids(2 * (j as int) + 1, wp@),
                ));
                assert(crate::zone::view_objects(objs@) =~= seeded_objects(
                    cards.take(j + 1int),
                    wp@,
                ));
            }
            j += 1;
        }
        proof {
            assert(p.initial_cards@.take(m as int) == p.initial_cards@);
        }
        zones.push(ZoneEntry { id: ZoneId::Hand(p.id), zone: GameZone::empty() });
        zones.push(ZoneEntry { id: ZoneId::Library(p.id), zone: GameZone::with(objs) });
        zones.push(ZoneEntry { id: ZoneId::Discard(p.id), zone: GameZone::empty() });
        proof {
            let pv = view_players(players@);
            assert(pv.take(i + 1int).drop_last() == pv.take(i as int));
            assert(pv.take(i + 1int).last() == pv[i as int]);
            assert(Seq::new(zones@.len(), |t: int| (zones@[t].id, zones@[t].zone@))
                =~= initial_player_zones(pv.take(i + 1int), w0@));
        }
        i += 1;
    }
    zones.push(ZoneEntry { id: ZoneId::Battlefield, zone: GameZone::empty() });
    zones.push(ZoneEntry { id: ZoneId::Stack, zone: GameZone::empty() });
    let mut active_player_order: Vec<PlayerId> = Vec::new();
    let mut unpassed_players: Vec<PlayerId> = Vec::new();
    let m = order.len();
    let mut j: usize = 0;
    while j < m
        invariant
            m == order@.len(),
            j <= m,
            active_player_order@ == order@.take(j as int),
            unpassed_players@ == order@.take(j as int),
        decreases m - j,
    {
        active_player_order.push(order[j]);
        unpassed_players.push(order[j]);
        assert(order@.take(j + 1int) == order@.take(j as int).push(order@[j as int]));
        j += 1;
    }
    let r = GameState {
        zones,
        active_player_order,
        unpassed_players,
        game_stage: GameStage::KeepHand { players_keeping: Vec::new() },
    };
    proof {
        assert(view_players(players@).take(n as int) == view_players(players@));
        assert(order@.take(m as int) == order@);
        assert(r@.zones =~= initial_state(view_players(players@), order@, w0@).zones);
        assert(r@ == initial_state(view_players(players@), order@, w0@));
    }
    r
}

} // verus!
