//! Determinism and replay: the atom log, replayed over a fresh game with
//! the same seed, rebuilds the recorded snapshots; and two runs with the
//! same seed and the same answers agree on everything.

use technomancy::atom::{GameAtom, GameError};
use technomancy::card::{BaseCardKind, Card, CardBehaviour, CardEffect, CardKind, Cost,
    TriggeredCardEffect};
use technomancy::effect::{Effect, EffectInfoRequest, EffectTrigger, InstantEffect};
use technomancy::game::{ActionOutcome, GameImplV1, StepKind, VerificationError};
use technomancy::ids::{CardId, GameId, PlayerId, TargetId};
use technomancy::state::Player;
use technomancy::zone::ZoneId;
use rand_xoshiro::rand_core::SeedableRng;

const BLAST_CARD: u128 = 0x4abc_4619;
const DRAW_CARD: u128 = 0xddfb_f54b;
const P1: u128 = 0x1001;
const P2: u128 = 0x2002;

fn existing_cards() -> Vec<Card> {
    let blast = Card {
        id: CardId::with(BLAST_CARD),
        behaviour: CardBehaviour {
            cost: Some(Cost { corp1_scrip: 2, ..Default::default() }),
            kind: vec![CardKind { kind: BaseCardKind::Quickhack }],
            effects: vec![CardEffect::Triggered(TriggeredCardEffect {
                trigger: EffectTrigger::OnResolve,
                effects: vec![Effect::Instant(InstantEffect::DealDamage(3))],
            })],
        },
    };
    let draw = Card {
        id: CardId::with(DRAW_CARD),
        behaviour: CardBehaviour {
            cost: Some(Cost { corp1_scrip: 2, ..Default::default() }),
            kind: vec![CardKind { kind: BaseCardKind::Quickhack }],
            effects: vec![CardEffect::Triggered(TriggeredCardEffect {
                trigger: EffectTrigger::OnResolve,
                effects: vec![Effect::Instant(InstantEffect::DrawCards(3))],
            })],
        },
    };
    vec![blast, draw]
}

fn simple_deck() -> Vec<CardId> {
    vec![
        CardId::with(BLAST_CARD),
        CardId::with(BLAST_CARD),
        CardId::with(BLAST_CARD),
        CardId::with(BLAST_CARD),
        CardId::with(DRAW_CARD),
        CardId::with(DRAW_CARD),
        CardId::with(DRAW_CARD),
        CardId::with(DRAW_CARD),
    ]
}

fn playtesters() -> Vec<Player> {
    vec![
        Player { id: PlayerId(P1), initial_cards: simple_deck(), damage_taken: 0 },
        Player { id: PlayerId(P2), initial_cards: simple_deck(), damage_taken: 0 },
    ]
}

fn new_game(seed: u64) -> GameImplV1 {
    GameImplV1::new(
        GameId(0xabcd),
        rand_xoshiro::Xoshiro256StarStar::seed_from_u64(seed),
        existing_cards(),
        playtesters(),
        vec![PlayerId(P1), PlayerId(P2)],
    )
}

/// Drives one game a fixed distance: mulligan with everyone keeping, one
/// card played at the opponent, everyone passing, one resolution.
fn scripted_run(seed: u64) -> GameImplV1 {
    let mut g = new_game(seed);
    while !matches!(g.next_step(), StepKind::AskAction) {
        let asked = g.keep_hand_prepare().unwrap();
        g.keep_hand_commit(&asked).unwrap();
    }
    let (active, _) = g.possible_actions();
    let state = g.latest_gamestate();
    let hi = state.zone_find(ZoneId::Hand(active)).unwrap();
    let pos = state.zones[hi]
        .zone
        .objects
        .0
        .iter()
        .position(|o| o.underlying_card == Some(CardId::with(BLAST_CARD)))
        .unwrap();
    match g.choose_action(pos + 1).unwrap() {
        ActionOutcome::Playing(mut cp) => {
            while let Some(q) = g.play_card_next_query(&cp) {
                let t = q
                    .choices
                    .iter()
                    .position(|c| matches!(c, TargetId::Player(p) if *p != active))
                    .unwrap();
                g.play_card_give_choices(&mut cp, &vec![t]).unwrap();
            }
            g.play_card_commit(cp, true).unwrap();
        },
        ActionOutcome::Passed => panic!("expected a card play"),
    }
    while matches!(g.next_step(), StepKind::AskAction) {
        g.choose_action(0).unwrap();
    }
    assert!(g.resolve_ready());
    g.resolve_top().unwrap();
    g
}

#[test]
fn replay_rebuilds_every_snapshot() {
    let g1 = scripted_run(4242);
    // A fresh game from the same seed, fed the recorded atom batches,
    // rebuilds the exact same snapshots, ledger included.
    let mut g2 = new_game(4242);
    assert_eq!(g2.latest_gamestate(), &g1.game.game_states()[0]);
    for entry in g1.game.history() {
        g2.apply_atoms(entry.atoms.clone()).unwrap();
    }
    assert_eq!(g1.game.game_states(), g2.game.game_states());
    assert_eq!(g1.game.players(), g2.game.players());
    assert_eq!(g1.game.history(), g2.game.history());
}

#[test]
fn same_seed_same_answers_same_history() {
    let g1 = scripted_run(777);
    let g2 = scripted_run(777);
    assert_eq!(g1.game.history(), g2.game.history());
    assert_eq!(g1.game.game_states(), g2.game.game_states());
    assert_eq!(g1.game.players(), g2.game.players());
}

#[test]
fn different_seeds_shuffle_differently() {
    // Shuffling the whole deck back into the library must depend on the
    // generator: the same deck, shuffled under two seeds, ends up in
    // different orders (while holding the same cards).
    let order_under = |seed: u64| -> Vec<u128> {
        let mut g = new_game(seed);
        g.apply_atoms(vec![GameAtom::DrawCards { player: PlayerId(P1), count: 8 }]).unwrap();
        g.apply_atoms(vec![GameAtom::ShuffleHandIntoLibrary { player: PlayerId(P1) }])
            .unwrap();
        let state = g.latest_gamestate();
        let li = state.zone_find(ZoneId::Library(PlayerId(P1))).unwrap();
        state.zones[li].zone.objects.0.iter().map(|o| o.underlying_card.unwrap().0).collect()
    };
    let a = order_under(1);
    let b = order_under(2);
    let mut a_sorted = a.clone();
    let mut b_sorted = b.clone();
    a_sorted.sort();
    b_sorted.sort();
    // Same cards either way; some order differs between the two seeds.
    assert_eq!(a_sorted, b_sorted);
    assert_ne!(a, b);
}

#[test]
fn shuffle_keeps_the_same_objects() {
    let mut g = new_game(11);
    g.apply_atoms(vec![GameAtom::DrawCards { player: PlayerId(P2), count: 8 }]).unwrap();
    let ids_before: Vec<u128> = {
        let state = g.latest_gamestate();
        let hi = state.zone_find(ZoneId::Hand(PlayerId(P2))).unwrap();
        state.zones[hi].zone.objects.0.iter().map(|o| o.id.0).collect()
    };
    g.apply_atoms(vec![GameAtom::ShuffleHandIntoLibrary { player: PlayerId(P2) }]).unwrap();
    let ids_after: Vec<u128> = {
        let state = g.latest_gamestate();
        let li = state.zone_find(ZoneId::Library(PlayerId(P2))).unwrap();
        state.zones[li].zone.objects.0.iter().map(|o| o.id.0).collect()
    };
    let mut b = ids_before.clone();
    let mut a = ids_after.clone();
    b.sort();
    a.sort();
    assert_eq!(a, b);
    assert_eq!(ids_after.len(), 8);
}

#[test]
fn minted_identifiers_are_deterministic_and_distinct() {
    let g1 = new_game(31);
    let g2 = new_game(31);
    let ids = |g: &GameImplV1| -> Vec<u128> {
        let state = g.latest_gamestate();
        let li = state.zone_find(ZoneId::Library(PlayerId(P1))).unwrap();
        state.zones[li].zone.objects.0.iter().map(|o| o.id.0).collect()
    };
    let a = ids(&g1);
    let b = ids(&g2);
    assert_eq!(a, b);
    let mut s = a.clone();
    s.sort();
    s.dedup();
    assert_eq!(s.len(), a.len());
}

#[test]
fn object_ids_stay_unique_across_a_run() {
    let g = scripted_run(2024);
    for state in g.game.game_states() {
        let mut ids: Vec<u128> = Vec::new();
        for entry in &state.zones {
            for obj in &entry.zone.objects.0 {
                ids.push(obj.id.0);
            }
        }
        let total = ids.len();
        ids.sort();
        ids.dedup();
        assert_eq!(ids.len(), total, "an object id appeared in two places");
    }
}

#[test]
fn start_game_twice_is_rejected() {
    let mut g = new_game(5);
    g.apply_atoms(vec![GameAtom::StartGame]).unwrap();
    let err = g.apply_atoms(vec![GameAtom::StartGame]).unwrap_err();
    assert!(matches!(err, GameError::GameAlreadyRunning));
}

#[test]
fn keep_hand_during_game_is_rejected() {
    let mut g = new_game(5);
    g.apply_atoms(vec![GameAtom::StartGame]).unwrap();
    let err = g
        .apply_atoms(vec![GameAtom::KeepHand { player: PlayerId(P1) }])
        .unwrap_err();
    assert!(matches!(err, GameError::KeepHandDuringGame));
}

#[test]
fn wrong_player_passing_is_rejected() {
    let mut g = new_game(5);
    let states_before = g.game.game_states().len();
    let err = g
        .apply_atoms(vec![GameAtom::PassPriority { player: PlayerId(P2) }])
        .unwrap_err();
    assert!(matches!(err, GameError::InvalidPlayerPassing { player } if player == PlayerId(P2)));
    // Failing batches commit nothing.
    assert_eq!(g.game.game_states().len(), states_before);
}

#[test]
fn playing_a_missing_object_is_rejected() {
    let mut g = new_game(5);
    let err = g
        .apply_atoms(vec![GameAtom::PlayerPlayCard {
            player: PlayerId(P1),
            from: ZoneId::Hand(PlayerId(P1)),
            object: technomancy::ids::ObjectId(0xdead),
            choices: vec![],
        }])
        .unwrap_err();
    assert!(matches!(err, GameError::ObjectNotFoundInZone { .. }));
}

#[test]
fn verify_reports_unknown_cards() {
    let players = vec![Player {
        id: PlayerId(P1),
        initial_cards: vec![CardId::with(0x9999)],
        damage_taken: 0,
    }];
    let g = GameImplV1::new(
        GameId(1),
        rand_xoshiro::Xoshiro256StarStar::seed_from_u64(3),
        existing_cards(),
        players,
        vec![PlayerId(P1)],
    );
    let errs = g.verify().unwrap_err();
    assert_eq!(errs.len(), 1);
    let VerificationError::PlayerInvalidCard { id, card } = errs[0];
    assert_eq!(id, PlayerId(P1));
    assert_eq!(card, CardId::with(0x9999));
}

#[test]
fn verify_accepts_known_decks() {
    let g = new_game(3);
    assert!(g.verify().is_ok());
}

#[test]
fn required_info_by_effect() {
    let blast = InstantEffect::DealDamage(3);
    let req = blast.get_required_info();
    assert_eq!(req.len(), 1);
    assert_eq!(req[0].0, "target");
    assert!(matches!(req[0].1, EffectInfoRequest::SingleTarget { restriction: None }));
    let draw = InstantEffect::DrawCards(2);
    assert_eq!(draw.get_required_info().len(), 0);
}

#[test]
fn damage_ledger_saturates_at_its_top() {
    let mut g = new_game(5);
    g.apply_atoms(vec![GameAtom::StartGame]).unwrap();
    for _ in 0..3 {
        g.apply_atoms(vec![GameAtom::DealDamage {
            amount: usize::MAX,
            source: technomancy::ids::ObjectId(1),
            target: TargetId::Player(PlayerId(P1)),
        }])
        .unwrap();
    }
    let hurt = g.game.players().iter().find(|p| p.id == PlayerId(P1)).unwrap();
    assert_eq!(hurt.damage_taken, u64::MAX);
}
