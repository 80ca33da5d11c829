use el_farol::agent::Agent;
use el_farol::game::{Game, GameResult, THRESHOLD};
use el_farol::grid::AgentGrid;
use el_farol::policy::Policy;
use rand::rngs::StdRng;
use rand::SeedableRng;

fn seeded(seed: u64) -> StdRng {
    StdRng::seed_from_u64(seed)
}
use el_farol::ratio::SCALE;

fn one_row(policies: &[usize]) -> AgentGrid {
    let mut grid = AgentGrid::filled(1, policies.len(), Agent::new(0));
    for (c, p) in policies.iter().enumerate() {
        grid.set(0, c, Agent::new(*p));
    }
    grid
}

#[test]
fn test_game_creation() {
    let grid = one_row(&[0, 0]);
    let game = Game::new(grid, vec![Policy::AlwaysGo]);
    assert_eq!(game.get_attendance(), 0);
    assert!(game.get_history().is_empty());
}

#[test]
fn test_game_run() {
    // Both agents AlwaysGo: predict 0.0, both go.
    let grid = one_row(&[0, 0]);
    let mut game = Game::new(grid, vec![Policy::AlwaysGo]);
    let mut rng = seeded(11);
    let result = game.run(&mut rng);
    assert_eq!(result.total_attendance, 2);
    assert_eq!(result.total_agents, 2);
    assert_eq!(game.get_attendance(), 2);

    // Ratio 2 / 2 = 1.0; error |0.0 - 1.0| = 1.0; performance 0.
    assert_eq!(game.get_history(), &[SCALE][..]);
    for c in 0..2 {
        let agent = game.get_grid().get(0, c);
        assert_eq!(agent.performance_history.len(), 1);
        assert_eq!(agent.performance_history[0], SCALE);
        assert_eq!(agent.performance(), 0);
        assert_eq!(agent.last_prediction, Some(0));
    }
}

#[test]
fn ratio_is_count_over_agents() {
    // one goes (AlwaysGo), two stay (NeverGo): 1/3
    let grid = one_row(&[0, 1, 1]);
    let mut game = Game::new(grid, vec![Policy::AlwaysGo, Policy::NeverGo]);
    let mut rng = seeded(2);
    let result = game.run(&mut rng);
    assert_eq!(result.total_attendance, 1);
    assert_eq!(result.total_agents, 3);
    assert_eq!(result.attendance_ratio(), 333_333);
    assert_eq!(game.get_history(), &[333_333][..]);
    // the NeverGo agents were off by 1 - 1/3
    assert_eq!(game.get_grid().get(0, 1).performance_history, vec![SCALE - 333_333]);
}

#[test]
fn ratio_edge_cases() {
    assert_eq!(GameResult { total_attendance: 0, total_agents: 0 }.attendance_ratio(), 0);
    assert_eq!(GameResult { total_attendance: 0, total_agents: 7 }.attendance_ratio(), 0);
    assert_eq!(GameResult { total_attendance: 7, total_agents: 7 }.attendance_ratio(), SCALE);
    assert_eq!(GameResult { total_attendance: 3, total_agents: 5 }.attendance_ratio(), 600_000);
}

#[test]
fn empty_grid_round() {
    let grid = AgentGrid::filled(0, 0, Agent::new(0));
    let mut game = Game::new(grid, vec![Policy::AlwaysGo]);
    let mut rng = seeded(2);
    let result = game.run(&mut rng);
    assert_eq!(result.total_agents, 0);
    assert_eq!(game.get_history(), &[0][..]);
}

#[test]
fn predictions_use_history_before_the_round() {
    // Yesterday-predictors see the previous round's ratio, never the current one.
    let grid = one_row(&[0, 1]);
    let mut game = Game::new(grid, vec![Policy::PredictFromYesterday, Policy::NeverGo]);
    let mut rng = seeded(5);
    // round 1: history empty -> predicts 0.0 (goes); NeverGo stays: ratio 0.5
    game.run(&mut rng);
    assert_eq!(game.get_grid().get(0, 0).last_prediction, Some(0));
    // round 2: predicts 0.5 (< 0.6, goes): ratio 0.5 again
    game.run(&mut rng);
    assert_eq!(game.get_grid().get(0, 0).last_prediction, Some(500_000));
    assert_eq!(game.get_history(), &[500_000, 500_000][..]);
    assert!(500_000 < THRESHOLD);
}

#[test]
fn threshold_is_strict() {
    let grid = one_row(&[0]);
    let mut game = Game::new(grid, vec![Policy::Uniform(el_farol::policy::UniformPolicy::new(THRESHOLD, THRESHOLD))]);
    let mut rng = seeded(5);
    let result = game.run(&mut rng);
    assert_eq!(result.total_attendance, 0);
}

#[test]
fn set_grid_replaces_agents() {
    let mut game = Game::new(one_row(&[0, 0]), vec![Policy::AlwaysGo, Policy::NeverGo]);
    game.set_grid(one_row(&[1, 1]));
    let mut rng = seeded(5);
    assert_eq!(game.run(&mut rng).total_attendance, 0);
}
