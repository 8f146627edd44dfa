use uneven_waves::actors::{ResistanceAction, SuppressionAction};
use uneven_waves::round_manager::{RoundResult, RoundState};
use uneven_waves::tilemap::{Coord, CoordinateSystem, Tile};

/// Tests that round_results will not generate any results for successful suppression
#[test]
fn test_round_results_successful_suppression() {
    let mut state = RoundState::default();
    let resistance_action = ResistanceAction {
        public_coord: (0, 0),
        private_coord: (0, 1),
    };
    let suppression_action = SuppressionAction {
        suppression_zone: vec![(0, 0), (0, 1), (1, 0), (1, 1)],
    };
    let results = state.round_results(&resistance_action, &suppression_action);
    assert_eq!(results.len(), 0);
}

/// Tests whether round_results will generate the correct enum for a successful temp resistance
#[test]
fn test_round_results_successful_resistance_placement() {
    let mut state = RoundState::default();
    let resistance_action = ResistanceAction {
        public_coord: (0, 0),
        private_coord: (0, 1),
    };
    let suppression_action = SuppressionAction {
        suppression_zone: vec![(1, 1), (1, 1), (2, 0), (2, 2)],
    };
    let results = state.round_results(&resistance_action, &suppression_action);
    assert_eq!(results.len(), 1);
    if let RoundResult::ResistanceGainsTemporary(coord) = results.last().unwrap() {
        assert_eq!(coord, &resistance_action.public_coord)
    }
}

/// Tests that round_results will generate the correct results for surround a temp tile
#[test]
fn test_round_results_resistance_gains_point() {
    let mut state = RoundState::default();
    let control_coord = ((0, 0), state.temp_turn_count);
    let mut neighbors_of_control: Vec<(Coord, u32)> = Tile::neighbors_of(&control_coord.0)
        .iter()
        .map(|neighbor| (*neighbor, state.temp_turn_count))
        .collect();
    let final_neighbor = neighbors_of_control.pop().unwrap().0;
    state.resistance_temp_tiles.push(control_coord);
    state.resistance_temp_tiles.extend(neighbors_of_control.iter());
    let resistance_action = ResistanceAction {
        public_coord: final_neighbor,
        private_coord: (0, 0),
    };
    // Something clearly out of the way
    let suppression_action = SuppressionAction {
        suppression_zone: vec![(-10, -10), (-10, 9), (-9, -9), (-9, -10)],
    };
    let results = state.round_results(&resistance_action, &suppression_action);
    assert!(results
        .iter()
        .any(|result| *result == RoundResult::ResistanceGainsPoint(control_coord.0)));
}

/// Tests that process_results will create a temp tile with the correct timer
#[test]
fn test_process_results_resistance_gains_temp() {
    let mut state = RoundState::default();
    let control_coord = (0, 0);
    assert!(!state
        .resistance_temp_tiles
        .iter()
        .any(|coord| coord.0 == control_coord));
    let results: Vec<RoundResult> = vec![RoundResult::ResistanceGainsTemporary(control_coord)];
    state.process_results(results);
    assert!(state
        .resistance_temp_tiles
        .contains(&(control_coord, state.temp_turn_count)));
}

/// Tests that process_results will move a point from temp to perm given correct result
#[test]
fn test_process_results_resistance_gains_point() {
    let mut state = RoundState::default();
    let control_coord = (0, 0);
    state
        .resistance_temp_tiles
        .push((control_coord, state.temp_turn_count));
    let results: Vec<RoundResult> = vec![RoundResult::ResistanceGainsPoint(control_coord)];
    assert!(!state.resistance_perm_tiles.contains(&control_coord));
    state.process_results(results);
    assert!(!state
        .resistance_temp_tiles
        .iter()
        .any(|coord| coord.0 == control_coord));
    assert!(state.resistance_perm_tiles.contains(&control_coord));
}

/// Tests that decrement_timers progresses the turn count
#[test]
fn test_decrement_timers_progresses_turn() {
    let mut state = RoundState::default();
    state.decrement_timers();
    assert_eq!(1, state.current_turn)
}

/// Tests that decrement_timers removes timed out tiles
#[test]
fn test_decrement_timers_removes_timed_out_tiles() {
    let mut state = RoundState::default();
    let temp_tiles: Vec<(Coord, u32)> = vec![((0, 0), 1), ((0, 1), 2), ((0, 2), 3)];
    state.resistance_temp_tiles.extend(temp_tiles);
    state.decrement_timers();
    assert_eq!(state.resistance_temp_tiles.len(), 2);
    state.decrement_timers();
    assert_eq!(state.resistance_temp_tiles.len(), 1);
}
