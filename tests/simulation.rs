use el_farol::agent::Agent;
use el_farol::policy::Policy;
use el_farol::ratio::SCALE;
use el_farol::simulation::{Simulation, SimulationConfig};

fn config(policies: Vec<Policy>, grid_size: usize, retention: u64, start_random: bool) -> SimulationConfig {
    SimulationConfig {
        name: "test".to_string(),
        description: "test description".to_string(),
        grid_size,
        neighbor_distance: 1,
        temperature: SCALE,
        policy_retention_rate: retention,
        num_iterations: 10,
        rounds_per_update: 1,
        initial_strategies: policies,
        start_random,
    }
}

fn creation_scenario() {
    let config = config(vec![Policy::AlwaysGo, Policy::NeverGo], 2, 500_000, true);
    let simulation = Simulation::new(config, 7);
    assert_eq!(simulation.get_statistics().len(), 0);
}

#[test]
fn simulation_test_simulation_creation() {
    creation_scenario();
}

#[test]
fn mod_test_simulation_creation() {
    creation_scenario();
}

fn policy_ids(sim: &Simulation) -> Vec<usize> {
    let n = sim.grid_size;
    let mut ids = Vec::new();
    for r in 0..n {
        for c in 0..n {
            ids.push(sim.game.get_grid().get(r, c).policy);
        }
    }
    ids
}

#[test]
fn random_setup_uses_configured_policies() {
    let sim = Simulation::new(config(vec![Policy::AlwaysGo, Policy::NeverGo, Policy::Random], 6, 0, true), 3);
    let ids = policy_ids(&sim);
    assert_eq!(ids.len(), 36);
    assert!(ids.iter().all(|p| *p < 3));
}

#[test]
fn deterministic_setup_base_and_corners() {
    let policies = vec![
        Policy::AlwaysGo,
        Policy::NeverGo,
        Policy::Random,
        Policy::FullHistoryAverage,
        Policy::Drunkard,
    ];
    let sim = Simulation::new(config(policies, 3, 0, false), 3);
    // base is NeverGo (index 1); corners take 0, 2, 3, 4 in turn
    assert_eq!(policy_ids(&sim), vec![0, 1, 2, 1, 1, 1, 3, 1, 4]);
}

#[test]
fn deterministic_setup_few_others_wrap_around() {
    let sim = Simulation::new(config(vec![Policy::NeverGo, Policy::AlwaysGo], 2, 0, false), 3);
    assert_eq!(policy_ids(&sim), vec![1, 1, 1, 1]);
    let sim = Simulation::new(config(vec![Policy::AlwaysGo, Policy::Random], 3, 0, false), 3);
    // no NeverGo: base is the first policy
    assert_eq!(policy_ids(&sim), vec![1, 0, 1, 0, 0, 0, 1, 0, 1]);
    let sim = Simulation::new(config(vec![Policy::NeverGo], 2, 0, false), 3);
    assert_eq!(policy_ids(&sim), vec![0, 0, 0, 0]);
    let sim = Simulation::new(config(vec![Policy::NeverGo, Policy::Random], 1, 0, false), 3);
    assert_eq!(policy_ids(&sim), vec![1]);
}

#[test]
fn full_retention_never_changes_policies() {
    let policies = vec![Policy::AlwaysGo, Policy::NeverGo, Policy::PredictFromYesterday, Policy::Random];
    let mut sim = Simulation::new(config(policies, 5, SCALE, true), 21);
    let before = policy_ids(&sim);
    for _ in 0..20 {
        let frame = sim.run_iteration();
        assert_eq!(frame.policy_ids, before);
    }
}

#[test]
fn records_reset_then_grow_by_rounds_per_update() {
    let mut cfg = config(vec![Policy::AlwaysGo, Policy::NeverGo], 3, 0, true);
    cfg.rounds_per_update = 4;
    let mut sim = Simulation::new(cfg, 9);
    for iteration in 0..5 {
        sim.run_rounds();
        for r in 0..3 {
            for c in 0..3 {
                assert_eq!(sim.game.get_grid().get(r, c).performance_history.len(), 4);
            }
        }
        sim.adapt_strategies();
        for r in 0..3 {
            for c in 0..3 {
                assert_eq!(sim.game.get_grid().get(r, c).performance_history.len(), 0);
            }
        }
        assert_eq!(sim.game.get_history().len(), 4 * (iteration + 1));
    }
    assert_eq!(sim.get_statistics().len(), 20);
}

fn agent(policy: usize, error: u64) -> Agent {
    let mut a = Agent::new(policy);
    a.last_prediction = Some(0);
    a.update_performance(error);
    a
}

#[test]
fn adaptation_reads_the_snapshot_only() {
    // 2 x 2 grid, radius 1, greedy, no retention.
    // A = (0,0) perf 90, B = (0,1) perf 10, C = (1,0) perf 100, D = (1,1) perf 5.
    // A imitates C; B's best neighbour is A, and B must copy A's policy as it
    // was before the pass, not the policy A has just taken from C.
    let policies = vec![Policy::AlwaysGo, Policy::NeverGo, Policy::Random, Policy::Drunkard];
    let mut cfg = config(policies, 2, 0, false);
    cfg.temperature = 0;
    for seed in 0..20 {
        let mut sim = Simulation::new(cfg_clone(&cfg), seed);
        sim.game.grid.set(0, 0, agent(1, 100_000));
        sim.game.grid.set(0, 1, agent(0, 900_000));
        sim.game.grid.set(1, 0, agent(2, 0));
        sim.game.grid.set(1, 1, agent(3, 950_000));
        sim.adapt_strategies();
        assert_eq!(policy_ids(&sim), vec![2, 1, 2, 2]);
    }
}

fn cfg_clone(c: &SimulationConfig) -> SimulationConfig {
    SimulationConfig {
        name: c.name.clone(),
        description: c.description.clone(),
        grid_size: c.grid_size,
        neighbor_distance: c.neighbor_distance,
        temperature: c.temperature,
        policy_retention_rate: c.policy_retention_rate,
        num_iterations: c.num_iterations,
        rounds_per_update: c.rounds_per_update,
        initial_strategies: vec![Policy::AlwaysGo, Policy::NeverGo, Policy::Random, Policy::Drunkard],
        start_random: c.start_random,
    }
}

#[test]
fn greedy_adoption_is_certain() {
    // a strictly best neighbour is adopted whatever the draws
    let policies = vec![Policy::AlwaysGo, Policy::NeverGo];
    let mut cfg = config(policies, 2, 0, false);
    cfg.temperature = 0;
    cfg.neighbor_distance = 2;
    for seed in 0..30 {
        let mut c = SimulationConfig { initial_strategies: vec![Policy::AlwaysGo, Policy::NeverGo], ..cfg_clone(&cfg) };
        c.temperature = 0;
        let mut sim = Simulation::new(c, seed);
        sim.game.grid.set(0, 0, agent(0, 0));
        sim.game.grid.set(0, 1, agent(1, 500_000));
        sim.game.grid.set(1, 0, agent(1, 500_000));
        sim.game.grid.set(1, 1, agent(1, 600_000));
        sim.adapt_strategies();
        assert_eq!(policy_ids(&sim), vec![0, 0, 0, 0]);
    }
}

#[test]
fn frames_report_grid_and_last_ratio() {
    let mut sim = Simulation::new(config(vec![Policy::AlwaysGo, Policy::NeverGo], 3, SCALE, false), 1);
    // base NeverGo everywhere but the four corners (AlwaysGo): 4 of 9 go
    let frame = sim.frame();
    assert_eq!(frame.attendance_ratio, 0);
    assert_eq!(frame.predictions, vec![0; 9]);
    let frame = sim.run_iteration();
    assert_eq!(frame.policy_ids, vec![0, 1, 0, 1, 1, 1, 0, 1, 0]);
    assert_eq!(frame.predictions, vec![0, SCALE, 0, SCALE, SCALE, SCALE, 0, SCALE, 0]);
    assert_eq!(frame.attendance_ratio, 444_444);
    assert_eq!(sim.get_statistics().attendance_ratios, vec![444_444]);
    assert_eq!(sim.get_statistics().policy_counts, vec![vec![4, 5]]);
}

#[test]
fn policy_counts_of_a_grid() {
    let sim = Simulation::new(config(vec![Policy::AlwaysGo, Policy::NeverGo, Policy::Random], 4, 0, false), 1);
    // NeverGo base, corners AlwaysGo, Random, AlwaysGo, Random
    assert_eq!(el_farol::simulation::count_policies(sim.game.get_grid(), 3), vec![2, 12, 2]);
}

#[test]
fn run_hands_out_one_frame_per_iteration() {
    let mut sim = Simulation::new(config(vec![Policy::AlwaysGo, Policy::NeverGo], 3, 500_000, true), 4);
    let frames = sim.run();
    assert_eq!(frames.len(), 10);
    for f in frames {
        assert_eq!(f.policy_ids.len(), 9);
        assert_eq!(f.predictions.len(), 9);
        assert!(f.attendance_ratio <= SCALE);
    }
}
