//! Zones and the game objects that live in them.
//!
//! Each zone holds an ordered sequence of game objects. The stack and each
//! player's hand, library and discard are distinct zones addressed by a
//! [`ZoneId`]. For the two ordered per-player piles, the end of the sequence
//! is the top: drawing takes objects from the end of the library.

use vstd::prelude::*;

use crate::effect::EffectInfo;
use crate::ids::{CardId, LibraryCardId, ObjectId, PlayerId};
use crate::rng::{get_seeded_uuid, id_drawn, rng_words, words_after_id};

verus! {

/// Addresses one zone of a game.
#[derive(Debug, Clone, Copy, PartialEq, Eq, Hash, Structural)]
pub enum ZoneId {
    Hand(PlayerId),
    Library(PlayerId),
    Discard(PlayerId),
    Battlefield,
    Stack,
}

impl ObjectId {
    /// Mints a fresh object id from the game's generator.
    pub fn new(rng: &mut rand_xoshiro::Xoshiro256StarStar) -> (r: ObjectId)
        ensures
            r == (ObjectId { 0: id_drawn(rng_words(*old(rng))) }),
            rng_words(*final(rng)) == words_after_id(rng_words(*old(rng))),
    {
        ObjectId(get_seeded_uuid(rng))
    }
}

impl LibraryCardId {
    /// Mints a fresh library card id from the game's generator.
    pub fn new(rng: &mut rand_xoshiro::Xoshiro256StarStar) -> (r: LibraryCardId)
        ensures
            r == (LibraryCardId { 0: id_drawn(rng_words(*old(rng))) }),
            rng_words(*final(rng)) == words_after_id(rng_words(*old(rng))),
    {
        LibraryCardId(get_seeded_uuid(rng))
    }
}

/// One decision recorded on an object: which information, for which effect
/// handler, received which answer.
#[derive(Debug, Clone, PartialEq)]
pub struct ChoiceEntry {
    /// The index of the effect handler the decision belongs to, counting the
    /// card's on-resolve handlers in order.
    pub effect_index: usize,
    /// The name under which the handler asked for the information.
    pub name: String,
    /// The decision itself.
    pub info: EffectInfo,
}

/// The mathematical shape of one recorded decision.
pub struct ChoiceModel {
    pub effect_index: int,
    pub name: Seq<char>,
    pub info: EffectInfo,
}

impl View for ChoiceEntry {
    type V = ChoiceModel;

    open spec fn view(&self) -> ChoiceModel {
        ChoiceModel { effect_index: self.effect_index as int, name: self.name@, info: self.info }
    }
}

impl ChoiceEntry {
    /// An exact copy.
    pub fn duplicate(&self) -> (r: ChoiceEntry)
        ensures
            r == *self,
    {
        ChoiceEntry { effect_index: self.effect_index, name: self.name.clone(), info: self.info }
    }
}

/// The recorded decisions of a sequence of entries, in order.
pub open spec fn view_choices(s: Seq<ChoiceEntry>) -> Seq<ChoiceModel> {
    Seq::new(s.len(), |i: int| s[i]@)
}

/// A transient per-zone instance of a card.
#[derive(Debug, Clone, PartialEq)]
pub struct GameObject {
    pub id: ObjectId,
    /// Tracks a card throughout the whole game; no two objects in the same
    /// game should have the same library card id.
    pub library_card_id: Option<LibraryCardId>,
    /// The card this object represents, if any; several objects may share a
    /// card id.
    pub underlying_card: Option<CardId>,
    /// Objects only have a controller on the stack and battlefield.
    pub controller: Option<PlayerId>,
    /// Any choices associated to the object.
    pub choices: Vec<ChoiceEntry>,
}

/// The mathematical shape of one game object.
pub struct ObjectModel {
    pub id: ObjectId,
    pub library_card_id: Option<LibraryCardId>,
    pub underlying_card: Option<CardId>,
    pub controller: Option<PlayerId>,
    pub choices: Seq<ChoiceModel>,
}

impl View for GameObject {
    type V = ObjectModel;

    open spec fn view(&self) -> ObjectModel {
        ObjectModel {
            id: self.id,
            library_card_id: self.library_card_id,
            underlying_card: self.underlying_card,
            controller: self.controller,
            choices: view_choices(self.choices@),
        }
    }
}

/// The objects of a sequence, as their mathematical shapes.
pub open spec fn view_objects(s: Seq<GameObject>) -> Seq<ObjectModel> {
    Seq::new(s.len(), |i: int| s[i]@)
}

impl GameObject {
    /// Builds the object that represents one card, with a fresh object id and
    /// a fresh library card id, drawn from the generator in that order.
    pub fn from_card(
        rand: &mut rand_xoshiro::Xoshiro256StarStar,
        underlying_card: CardId,
    ) -> (r: GameObject)
        ensures
            r@ == (ObjectModel {
                id: ObjectId { 0: id_drawn(rng_words(*old(rand))) },
                library_card_id: Some(
                    LibraryCardId { 0: id_drawn(words_after_id(rng_words(*old(rand)))) },
                ),
                underlying_card: Some(underlying_card),
                controller: None,
                choices: Seq::empty(),
            }),
            rng_words(*final(rand)) == words_after_id(words_after_id(rng_words(*old(rand)))),
    {
        let id = ObjectId::new(rand);
        let library_card_id = LibraryCardId::new(rand);
        let r = GameObject {
            id,
            library_card_id: Some(library_card_id),
            underlying_card: Some(underlying_card),
            controller: None,
            choices: Vec::new(),
        };
        proof {
            assert(view_choices(r.choices@) =~= Seq::<ChoiceModel>::empty());
        }
        r
    }

    /// An exact copy, at the level of the mathematical shape.
    pub fn duplicate(&self) -> (r: GameObject)
        ensures
            r@ == self@,
    {
        let mut choices: Vec<ChoiceEntry> = Vec::new();
        let n = self.choices.len();
        let mut i: usize = 0;
        while i < n
            invariant
                n == self.choices@.len(),
                i <= n,
                choices@.len() == i,
                forall|k: int| 0 <= k < i ==> choices@[k] == self.choices@[k],
            decreases n - i,
        {
            choices.push(self.choices[i].duplicate());
            i += 1;
        }
        let r = GameObject {
            id: self.id,
            library_card_id: self.library_card_id,
            underlying_card: self.underlying_card,
            controller: self.controller,
            choices,
        };
        proof {
            assert(view_choices(r.choices@) =~= view_choices(self.choices@));
        }
        r
    }
}

/// The ordered objects of one zone.
#[derive(Debug, Clone, PartialEq)]
pub struct Objects(pub Vec<GameObject>);

/// One zone of the game.
#[derive(Debug, Clone, PartialEq)]
pub struct GameZone {
    pub objects: Objects,
}

impl View for GameZone {
    type V = Seq<ObjectModel>;

    open spec fn view(&self) -> Seq<ObjectModel> {
        view_objects(self.objects.0@)
    }
}

impl GameZone {
    /// A zone with nothing in it.
    pub fn empty() -> (r: GameZone)
        ensures
            r@ =~= Seq::<ObjectModel>::empty(),
    {
        GameZone { objects: Objects(Vec::new()) }
    }

    /// A zone holding the given objects.
    pub fn with(objects: Vec<GameObject>) -> (r: GameZone)
        ensures
            r@ == view_objects(objects@),
    {
        GameZone { objects: Objects(objects) }
    }

    /// An exact copy, at the level of the mathematical shape.
    pub fn duplicate(&self) -> (r: GameZone)
        ensures
            r@ == self@,
    {
        let mut objects: Vec<GameObject> = Vec::new();
        let n = self.objects.0.len();
        let mut i: usize = 0;
        while i < n
            invariant
                n == self.objects.0@.len(),
                i <= n,
                objects@.len() == i,
                forall|k: int| 0 <= k < i ==> #[trigger] objects@[k]@ == self.objects.0@[k]@,
            decreases n - i,
        {
            objects.push(self.objects.0[i].duplicate());
            i += 1;
        }
        let r = GameZone { objects: Objects(objects) };
        proof {
            assert(r@ =~= self@);
        }
        r
    }
}

} // verus!
