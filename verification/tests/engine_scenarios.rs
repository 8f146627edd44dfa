use uneven_waves::actors::{ResistanceAction, SuppressionAction};
use uneven_waves::round_manager::{IntakeError, RoundResult, RoundState};
use uneven_waves::tilemap::{CoordinateSystem, Tile};

fn claim(c: (i8, i8)) -> ResistanceAction {
    ResistanceAction {
        public_coord: c,
        private_coord: (5, -5),
    }
}

fn zone(cells: Vec<(i8, i8)>) -> SuppressionAction {
    SuppressionAction {
        suppression_zone: cells,
    }
}

/// Every cell has exactly the four neighbors North, East, South, West,
/// in that order.
#[test]
fn neighbors_exact_order() {
    assert_eq!(
        Tile::neighbors_of(&(2, -3)),
        vec![(2, -2), (3, -3), (2, -4), (1, -3)]
    );
}

/// A claim on a cell that is already temporary produces nothing new.
#[test]
fn claim_on_existing_temporary_yields_nothing() {
    let mut state = RoundState::default();
    state.resistance_temp_tiles.push(((0, 0), 3));
    let results = state.round_results(&claim((0, 0)), &zone(vec![(5, 5)]));
    assert_eq!(results.len(), 0);
    // The tile persists as-is: nothing was applied.
    assert_eq!(state.resistance_temp_tiles, vec![((0, 0), 3)]);
}

/// A resolved round stores the successful claim with a fresh timer,
/// already decremented once by the round's own timer step.
#[test]
fn successful_claim_sets_fresh_timer() {
    let mut state = RoundState::default();
    state
        .intake_suppression_action(zone(vec![(5, 5)]))
        .unwrap();
    state.intake_resistance_action(claim((0, 0))).unwrap();
    assert_eq!(state.resistance_temp_tiles, vec![((0, 0), 2)]);
    assert_eq!(state.current_turn, 1);
    assert_eq!(state.turn_history.len(), 1);
    assert!(state.turn_buffer.0.is_none());
    assert!(state.turn_buffer.1.is_none());
}

/// Resubmitting an action before the round resolves overwrites the
/// pending one: last write wins.
#[test]
fn redundant_intake_overwrites() {
    let mut state = RoundState::default();
    state.intake_resistance_action(claim((1, 1))).unwrap();
    state.intake_resistance_action(claim((2, 2))).unwrap();
    state
        .intake_suppression_action(zone(vec![(1, 1)]))
        .unwrap();
    assert!(state.resistance_temp_tiles.iter().any(|t| t.0 == (2, 2)));
    assert!(!state.resistance_temp_tiles.iter().any(|t| t.0 == (1, 1)));
    assert_eq!(state.turn_history[0].1.public_coord, (2, 2));
}

/// A temporary tile with no promotion expires after temp_turn_count
/// timer steps and never reappears without a fresh claim.
#[test]
fn timers_expire_and_never_return() {
    let mut state = RoundState::default();
    state
        .resistance_temp_tiles
        .push(((0, 0), state.temp_turn_count));
    state.decrement_timers();
    state.decrement_timers();
    assert!(state.resistance_temp_tiles.iter().any(|t| t.0 == (0, 0)));
    state.decrement_timers();
    assert!(!state.resistance_temp_tiles.iter().any(|t| t.0 == (0, 0)));
    state.decrement_timers();
    state.decrement_timers();
    assert!(!state.resistance_temp_tiles.iter().any(|t| t.0 == (0, 0)));
}

/// The turn counter advances by one per timer step until it reaches
/// the turn budget, where the game reads as over and intake is
/// rejected.
#[test]
fn turn_counter_stops_at_max_turns() {
    let mut state = RoundState::default();
    state.max_turns = 2;
    state.decrement_timers();
    assert_eq!(state.current_turn, 1);
    assert!(!state.game_over());
    state.decrement_timers();
    assert_eq!(state.current_turn, 2);
    assert!(state.game_over());
    state.decrement_timers();
    assert_eq!(state.current_turn, 2);
    assert_eq!(
        state.intake_resistance_action(claim((0, 0))),
        Err(IntakeError::GameAlreadyOver)
    );
}

/// End to end: a claim takes hold, its four neighbors are claimed over
/// the following rounds, and the enclosed cell is promoted to
/// permanent territory. The default three-round timer would let the
/// first claim expire before four more rounds pass, so this game is
/// configured with a longer one.
#[test]
fn full_enclosure_scenario() {
    let mut state = RoundState::default();
    state.temp_turn_count = 10;
    let claims = [(0, 0), (0, 1), (1, 0), (0, -1), (-1, 0)];
    let zones = [(5, 5), (6, 5), (7, 5), (8, 5), (9, 5)];
    for round in 0..5 {
        state
            .intake_suppression_action(zone(vec![zones[round]]))
            .unwrap();
        state
            .intake_resistance_action(claim(claims[round]))
            .unwrap();
    }
    assert_eq!(state.resistance_perm_tiles, vec![(0, 0)]);
    assert!(!state.resistance_temp_tiles.iter().any(|t| t.0 == (0, 0)));
    assert_eq!(state.resistance_temp_tiles.len(), 4);
    assert_eq!(state.current_turn, 5);
    assert_eq!(state.turn_history.len(), 5);
    assert_eq!(state.turn_history[4].1.public_coord, (-1, 0));
    assert!(state.turn_buffer.0.is_none());
    assert!(state.turn_buffer.1.is_none());
}

/// The round before the promotion emits exactly the promotion result
/// for the enclosed cell, not for its neighbors.
#[test]
fn enclosure_emits_single_promotion() {
    let mut state = RoundState::default();
    state.resistance_temp_tiles.push(((0, 0), 5));
    state.resistance_temp_tiles.push(((0, 1), 5));
    state.resistance_temp_tiles.push(((1, 0), 5));
    state.resistance_temp_tiles.push(((0, -1), 5));
    let results = state.round_results(&claim((-1, 0)), &zone(vec![(5, 5)]));
    assert_eq!(
        results,
        vec![
            RoundResult::ResistanceGainsTemporary((-1, 0)),
            RoundResult::ResistanceGainsPoint((0, 0)),
        ]
    );
}

/// Once the permanent tiles reach the win score, further intake is
/// rejected as post-terminal.
#[test]
fn win_score_rejects_further_intake() {
    let mut state = RoundState::default();
    for x in 10..15 {
        state.resistance_perm_tiles.push((x, 0));
    }
    assert!(state.game_over());
    assert_eq!(
        state.intake_suppression_action(zone(vec![(5, 5)])),
        Err(IntakeError::GameAlreadyOver)
    );
    assert_eq!(
        state.intake_resistance_action(claim((0, 0))),
        Err(IntakeError::GameAlreadyOver)
    );
    assert_eq!(state.turn_history.len(), 0);
    assert_eq!(state.current_turn, 0);
}
