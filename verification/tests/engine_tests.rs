//! End-to-end scenarios for the game engine, driven through the step
//! functions with scripted outside answers.

use technomancy::atom::{GameAtom, GameError};
use technomancy::card::{BaseCardKind, Card, CardBehaviour, CardEffect, CardKind, Cost,
    TriggeredCardEffect};
use technomancy::effect::{ContinuousEffect, Effect, EffectTrigger, InstantEffect};
use technomancy::game::{ActionOutcome, GameImplV1, PlayerAction, StepKind};
use technomancy::ids::{CardId, GameId, PlayerId, TargetId};
use technomancy::state::{GameStage, GameState, Player};
use technomancy::zone::ZoneId;
use rand_xoshiro::rand_core::SeedableRng;

const BLAST_CARD: u128 = 0x4abc_4619;
const DRAW_CARD: u128 = 0xddfb_f54b;
const P1: u128 = 0x1001;
const P2: u128 = 0x2002;

fn existing_cards() -> Vec<Card> {
    let blast = Card {
        id: CardId::with(BLAST_CARD),
        behaviour: CardBehaviour {
            cost: Some(Cost { corp1_scrip: 2, ..Default::default() }),
            kind: vec![CardKind { kind: BaseCardKind::Quickhack }],
            effects: vec![CardEffect::Triggered(TriggeredCardEffect {
                trigger: EffectTrigger::OnResolve,
                effects: vec![Effect::Instant(InstantEffect::DealDamage(3))],
            })],
        },
    };
    let draw = Card {
        id: CardId::with(DRAW_CARD),
        behaviour: CardBehaviour {
            cost: Some(Cost { corp1_scrip: 2, ..Default::default() }),
            kind: vec![CardKind { kind: BaseCardKind::Quickhack }],
            effects: vec![CardEffect::Triggered(TriggeredCardEffect {
                trigger: EffectTrigger::OnResolve,
                effects: vec![Effect::Instant(InstantEffect::DrawCards(3))],
            })],
        },
    };
    vec![blast, draw]
}

fn simple_deck() -> Vec<CardId> {
    vec![
        CardId::with(BLAST_CARD),
        CardId::with(BLAST_CARD),
        CardId::with(BLAST_CARD),
        CardId::with(BLAST_CARD),
        CardId::with(DRAW_CARD),
        CardId::with(DRAW_CARD),
        CardId::with(DRAW_CARD),
        CardId::with(DRAW_CARD),
    ]
}

fn playtesters() -> Vec<Player> {
    vec![
        Player { id: PlayerId(P1), initial_cards: simple_deck(), damage_taken: 0 },
        Player { id: PlayerId(P2), initial_cards: simple_deck(), damage_taken: 0 },
    ]
}

fn new_game(seed: u64) -> GameImplV1 {
    GameImplV1::new(
        GameId(0xabcd),
        rand_xoshiro::Xoshiro256StarStar::seed_from_u64(seed),
        existing_cards(),
        playtesters(),
        vec![PlayerId(P1), PlayerId(P2)],
    )
}

fn zone_len(state: &GameState, id: ZoneId) -> usize {
    let i = state.zone_find(id).expect("zone missing");
    state.zones[i].zone.objects.0.len()
}

/// One mulligan step: prepare, then commit the keepers the policy selects.
fn mulligan_step(g: &mut GameImplV1, keep: impl Fn(Vec<PlayerId>) -> Vec<PlayerId>) -> bool {
    let asked = g.keep_hand_prepare().unwrap();
    let keeps = keep(asked);
    g.keep_hand_commit(&keeps).unwrap()
}

#[test]
fn initial_zones_after_first_step() {
    let mut g = new_game(1337);
    let started = mulligan_step(&mut g, |asked| asked);
    assert!(started);
    let state = g.latest_gamestate();
    assert_eq!(state.zones.len(), 2 * 3 + 2);
    let lib = zone_len(state, ZoneId::Library(PlayerId(P1)));
    let hand = zone_len(state, ZoneId::Hand(PlayerId(P1)));
    assert_eq!(lib + hand, 8);
    assert_eq!(hand, 7);
}

#[test]
fn active_order_preserved() {
    let mut g = new_game(1337);
    mulligan_step(&mut g, |asked| asked);
    let state = g.latest_gamestate();
    assert_eq!(state.active_player_order, vec![PlayerId(P1), PlayerId(P2)]);
}

#[test]
fn mulligan_down_one_card() {
    let mut g = new_game(1337);
    let started = mulligan_step(&mut g, |asked| {
        asked.into_iter().filter(|p| *p != PlayerId(P1)).collect()
    });
    assert!(!started);
    let started = mulligan_step(&mut g, |asked| asked);
    assert!(started);
    let state = g.latest_gamestate();
    assert!(matches!(state.game_stage, GameStage::GameRunning));
    assert_eq!(zone_len(state, ZoneId::Hand(PlayerId(P1))), 6);
    assert_eq!(zone_len(state, ZoneId::Hand(PlayerId(P2))), 7);
}

#[test]
fn forced_keep_at_hand_of_one() {
    let mut g = new_game(7);
    // Bring the first player's hand to exactly one card before the mulligan
    // step runs.
    g.apply_atoms(vec![GameAtom::DrawCards { player: PlayerId(P1), count: 1 }]).unwrap();
    let asked = g.keep_hand_prepare().unwrap();
    // The forced keep means the player is no longer asked.
    assert!(!asked.contains(&PlayerId(P1)));
    assert!(asked.contains(&PlayerId(P2)));
    let state = g.latest_gamestate();
    // Their single card went back into the library; no smaller redraw.
    assert_eq!(zone_len(state, ZoneId::Hand(PlayerId(P1))), 0);
    assert_eq!(zone_len(state, ZoneId::Library(PlayerId(P1))), 8);
}

#[test]
fn draw_more_than_library_holds() {
    let mut g = new_game(7);
    g.apply_atoms(vec![GameAtom::DrawCards { player: PlayerId(P1), count: 100 }]).unwrap();
    let state = g.latest_gamestate();
    assert_eq!(zone_len(state, ZoneId::Library(PlayerId(P1))), 0);
    assert_eq!(zone_len(state, ZoneId::Hand(PlayerId(P1))), 8);
}

/// Runs the mulligan with everyone keeping, returning once the game runs.
fn reach_running(g: &mut GameImplV1) {
    while !matches!(g.next_step(), StepKind::AskAction) {
        mulligan_step(g, |asked| asked);
    }
}

/// Finds in the active player's hand an object backed by the given card and
/// returns the action index that plays it.
fn action_for_card(g: &GameImplV1, active: PlayerId, card: CardId) -> usize {
    let state = g.latest_gamestate();
    let hi = state.zone_find(ZoneId::Hand(active)).unwrap();
    let hand = &state.zones[hi].zone.objects.0;
    let pos = hand
        .iter()
        .position(|o| o.underlying_card == Some(card))
        .expect("no such card in hand");
    pos + 1
}

/// Plays one card for the priority holder: answers every target query with
/// the opponent, then commits with the given passing choice.
fn play_card(g: &mut GameImplV1, idx: usize, passing: bool) {
    let (active, _actions) = g.possible_actions();
    let outcome = g.choose_action(idx).unwrap();
    match outcome {
        ActionOutcome::Passed => panic!("expected a card play"),
        ActionOutcome::Playing(mut cp) => {
            while let Some(q) = g.play_card_next_query(&cp) {
                let target = q
                    .choices
                    .iter()
                    .position(|c| matches!(c, TargetId::Player(p) if *p != active))
                    .expect("no opponent among candidates");
                g.play_card_give_choices(&mut cp, &vec![target]).unwrap();
            }
            g.play_card_commit(cp, passing).unwrap();
        },
    }
}

#[test]
fn play_a_card_onto_the_stack() {
    let mut g = new_game(1234);
    reach_running(&mut g);
    let (active, actions) = g.possible_actions();
    assert_eq!(actions.len(), 8);
    assert!(matches!(actions[0], PlayerAction::PassPriority));
    let idx = action_for_card(&g, active, CardId::with(BLAST_CARD));
    play_card(&mut g, idx, true);
    let state = g.latest_gamestate();
    assert_eq!(zone_len(state, ZoneId::Stack), 1);
    assert!(!state.unpassed_players.contains(&active));
    // The stack object now has a controller.
    let si = state.zone_find(ZoneId::Stack).unwrap();
    let top = &state.zones[si].zone.objects.0[0];
    assert_eq!(top.controller, Some(active));
    assert_eq!(g.game.get_controller_of(top.id), Some(active));
}

#[test]
fn resolve_deals_damage() {
    let mut g = new_game(1234);
    reach_running(&mut g);
    let (active, _) = g.possible_actions();
    let idx = action_for_card(&g, active, CardId::with(BLAST_CARD));
    play_card(&mut g, idx, true);
    // Everyone else passes until priority is exhausted, then the top
    // resolves.
    while matches!(g.next_step(), StepKind::AskAction) {
        match g.choose_action(0).unwrap() {
            ActionOutcome::Passed => {},
            ActionOutcome::Playing(_) => panic!("expected a pass"),
        }
    }
    assert!(matches!(g.next_step(), StepKind::Resolve));
    assert!(g.resolve_ready());
    g.resolve_top().unwrap();
    let state = g.latest_gamestate();
    assert_eq!(zone_len(state, ZoneId::Stack), 0);
    // Priority was reset to the full turn order.
    assert_eq!(state.unpassed_players, state.active_player_order);
    // The opponent's damage ledger reflects the blast.
    let opponent = g.game.players().iter().find(|p| p.id != active).unwrap().clone();
    assert_eq!(opponent.damage_taken, 3);
    let shooter = g.game.players().iter().find(|p| p.id == active).unwrap().clone();
    assert_eq!(shooter.damage_taken, 0);
}

#[test]
fn resolve_draw_grows_hand() {
    let mut g = new_game(99);
    reach_running(&mut g);
    let (active, _) = g.possible_actions();
    let idx = action_for_card(&g, active, CardId::with(DRAW_CARD));
    let hand_before = zone_len(g.latest_gamestate(), ZoneId::Hand(active));
    let lib_before = zone_len(g.latest_gamestate(), ZoneId::Library(active));
    play_card(&mut g, idx, true);
    while matches!(g.next_step(), StepKind::AskAction) {
        g.choose_action(0).unwrap();
    }
    assert!(g.resolve_ready());
    g.resolve_top().unwrap();
    let state = g.latest_gamestate();
    // One card left the hand for the stack; the draw effect then moved up
    // to three cards, bounded by what the library still held.
    let drawn = lib_before.min(3);
    assert_eq!(zone_len(state, ZoneId::Hand(active)), hand_before - 1 + drawn);
    assert_eq!(zone_len(state, ZoneId::Library(active)), lib_before - drawn);
}

#[test]
fn invalid_action_index_rejected() {
    let mut g = new_game(1337);
    reach_running(&mut g);
    let states_before = g.game.game_states().len();
    let (_, actions) = g.possible_actions();
    let err = g.choose_action(actions.len()).unwrap_err();
    match err {
        GameError::InvalidAction { list_length, selected_action } => {
            assert_eq!(list_length, actions.len());
            assert_eq!(selected_action, actions.len());
        },
        other => panic!("unexpected error: {:?}", other),
    }
    // The state did not advance.
    assert_eq!(g.game.game_states().len(), states_before);
}

#[test]
fn empty_stack_never_resolves() {
    let mut g = new_game(1337);
    reach_running(&mut g);
    // Everyone passes on an empty stack: the engine reaches the undefined
    // turn-advance step and never offers a resolution.
    while matches!(g.next_step(), StepKind::AskAction) {
        match g.choose_action(0).unwrap() {
            ActionOutcome::Passed => {},
            ActionOutcome::Playing(_) => panic!("expected a pass"),
        }
    }
    assert_eq!(zone_len(g.latest_gamestate(), ZoneId::Stack), 0);
    assert!(matches!(g.next_step(), StepKind::AdvanceTurn));
    assert!(!g.resolve_ready());
}

#[test]
fn continuous_effect_cannot_be_played() {
    let odd_card = Card {
        id: CardId::with(0x77),
        behaviour: CardBehaviour {
            cost: None,
            kind: vec![CardKind { kind: BaseCardKind::Program }],
            effects: vec![CardEffect::Triggered(TriggeredCardEffect {
                trigger: EffectTrigger::OnResolve,
                effects: vec![Effect::Continuous(ContinuousEffect::Reserved)],
            })],
        },
    };
    let mut cards = existing_cards();
    cards.push(odd_card);
    let players = vec![Player {
        id: PlayerId(P1),
        initial_cards: vec![CardId::with(0x77)],
        damage_taken: 0,
    }];
    let mut g = GameImplV1::new(
        GameId(0xabcd),
        rand_xoshiro::Xoshiro256StarStar::seed_from_u64(8),
        cards,
        players,
        vec![PlayerId(P1)],
    );
    g.apply_atoms(vec![GameAtom::DrawCards { player: PlayerId(P1), count: 1 }]).unwrap();
    g.apply_atoms(vec![GameAtom::KeepHand { player: PlayerId(P1) }]).unwrap();
    g.apply_atoms(vec![GameAtom::StartGame]).unwrap();
    let (active, _) = g.possible_actions();
    let idx = action_for_card(&g, active, CardId::with(0x77));
    let err = g.choose_action(idx).unwrap_err();
    assert!(matches!(err, GameError::InvalidCardState));
}

#[test]
fn unknown_card_cannot_be_played() {
    let players = vec![Player {
        id: PlayerId(P1),
        initial_cards: vec![CardId::with(0x4444)],
        damage_taken: 0,
    }];
    let mut g = GameImplV1::new(
        GameId(0xabcd),
        rand_xoshiro::Xoshiro256StarStar::seed_from_u64(8),
        existing_cards(),
        players,
        vec![PlayerId(P1)],
    );
    g.apply_atoms(vec![GameAtom::DrawCards { player: PlayerId(P1), count: 1 }]).unwrap();
    g.apply_atoms(vec![GameAtom::KeepHand { player: PlayerId(P1) }]).unwrap();
    g.apply_atoms(vec![GameAtom::StartGame]).unwrap();
    let (active, _) = g.possible_actions();
    let idx = action_for_card(&g, active, CardId::with(0x4444));
    let err = g.choose_action(idx).unwrap_err();
    assert!(matches!(err, GameError::CardNotFound { card } if card == CardId::with(0x4444)));
}

#[test]
fn invalid_choice_amount_rejected() {
    let mut g = new_game(1234);
    reach_running(&mut g);
    let (active, _) = g.possible_actions();
    let idx = action_for_card(&g, active, CardId::with(BLAST_CARD));
    match g.choose_action(idx).unwrap() {
        ActionOutcome::Playing(mut cp) => {
            let err = g.play_card_give_choices(&mut cp, &vec![]).unwrap_err();
            assert!(matches!(
                err,
                GameError::InvalidChoiceAmount { expected: 1, received: 0 }
            ));
        },
        ActionOutcome::Passed => panic!("expected a card play"),
    }
}
