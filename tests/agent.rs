use el_farol::agent::{choose_neighbor, decay_weight, Agent, Neighbor, INV_E, MAX_PERFORMANCE};
use rand::rngs::StdRng;
use rand::SeedableRng;

fn seeded(seed: u64) -> StdRng {
    StdRng::seed_from_u64(seed)
}
use el_farol::ratio::SCALE;

// Policy 0 of the table stands for AlwaysGo, which predicts 0.0.
const ALWAYS_GO: usize = 0;
const NEVER_GO: usize = 1;

fn check_performance_scenario() {
    let mut agent = Agent::new(ALWAYS_GO);

    // Round 1: predicts 0.0, actual 0.2, error 0.2.
    agent.last_prediction = Some(0);
    agent.update_performance(200_000);
    assert_eq!(agent.performance_history, vec![200_000]);
    // Performance = (1.0 - 0.2) * 100 = 80.
    assert_eq!(agent.performance(), 80 * SCALE);

    // Round 2: predicts 0.0, actual 0.7, error 0.7; mean error 0.45.
    agent.last_prediction = Some(0);
    agent.update_performance(700_000);
    assert_eq!(agent.performance_history, vec![200_000, 700_000]);
    assert_eq!(agent.performance(), 55 * SCALE);

    // Empty record.
    let agent_no_history = Agent::new(NEVER_GO);
    assert_eq!(agent_no_history.performance(), 0);

    // Largest error gives 0.
    let mut agent_max_error = Agent::new(ALWAYS_GO);
    agent_max_error.last_prediction = Some(0);
    agent_max_error.update_performance(SCALE);
    assert_eq!(agent_max_error.performance(), 0);

    // No error gives 100.
    let mut agent_zero_error = Agent::new(ALWAYS_GO);
    agent_zero_error.last_prediction = Some(0);
    agent_zero_error.update_performance(0);
    assert_eq!(agent_zero_error.performance(), 100 * SCALE);
    assert_eq!(agent_zero_error.performance(), MAX_PERFORMANCE);
}

#[test]
fn mod_test_agent_performance() {
    check_performance_scenario();
}

#[test]
fn agent_test_agent_performance() {
    check_performance_scenario();
}

#[test]
fn error_above_prediction_and_below() {
    let mut agent = Agent::new(ALWAYS_GO);
    agent.last_prediction = Some(900_000);
    agent.update_performance(400_000);
    agent.last_prediction = Some(100_000);
    agent.update_performance(400_000);
    assert_eq!(agent.performance_history, vec![500_000, 300_000]);
    // mean error 0.4 -> 60
    assert_eq!(agent.performance(), 60 * SCALE);
}

#[test]
fn error_above_one_scores_zero() {
    let mut agent = Agent::new(ALWAYS_GO);
    agent.last_prediction = Some(2 * SCALE);
    agent.update_performance(0);
    assert_eq!(agent.performance(), 0);
}

#[test]
fn decide_records_prediction() {
    let mut agent = Agent::new(NEVER_GO);
    let mut policy = el_farol::policy::Policy::NeverGo;
    let mut rng = seeded(1);
    let history: Vec<u64> = vec![];
    let p = agent.decide(&mut policy, &history, &mut rng);
    assert_eq!(p, SCALE);
    assert_eq!(agent.last_prediction, Some(SCALE));
}

#[test]
fn clear_and_duplicate() {
    let mut agent = Agent::new(3);
    agent.last_prediction = Some(10);
    agent.update_performance(20);
    let copy = agent.duplicate();
    assert_eq!(copy.performance_history, vec![10]);
    assert_eq!(copy.policy, 3);
    assert_eq!(copy.current_policy(), 3);
    agent.clear_performance_history();
    assert!(agent.performance_history.is_empty());
    assert_eq!(agent.last_prediction, Some(10));
}

#[test]
fn decay_weights() {
    assert_eq!(decay_weight(0, 100), SCALE);
    assert_eq!(decay_weight(100, 100), INV_E);
    assert_eq!(decay_weight(200, 100), INV_E * INV_E / SCALE);
    // half a temperature: straight line from 1 to e^-1
    assert_eq!(decay_weight(50, 100), SCALE - 50 * (SCALE - INV_E) / 100);
    // far gaps vanish
    assert_eq!(decay_weight(u64::MAX, 1), 0);
}

fn neighbors() -> Vec<Neighbor> {
    vec![
        Neighbor { policy: 4, performance: 10 * SCALE },
        Neighbor { policy: 7, performance: 90 * SCALE },
        Neighbor { policy: 5, performance: 50 * SCALE },
    ]
}

#[test]
fn greedy_picks_the_unique_best_every_time() {
    let ns = neighbors();
    for seed in 0..200 {
        let mut rng = seeded(seed);
        assert_eq!(choose_neighbor(&ns, 0, &mut rng), 1);
    }
}

#[test]
fn greedy_picks_among_ties() {
    let ns = vec![
        Neighbor { policy: 4, performance: 90 },
        Neighbor { policy: 7, performance: 10 },
        Neighbor { policy: 5, performance: 90 },
    ];
    let mut seen = [false; 3];
    for seed in 0..200 {
        let mut rng = seeded(seed);
        let j = choose_neighbor(&ns, 0, &mut rng);
        assert!(j == 0 || j == 2);
        seen[j] = true;
    }
    assert!(seen[0] && seen[2]);
}

#[test]
fn softmax_low_temperature_prefers_best() {
    // gap of 40 points at temperature 1 point: weights vanish but the best
    let ns = neighbors();
    for seed in 0..100 {
        let mut rng = seeded(seed);
        assert_eq!(choose_neighbor(&ns, SCALE, &mut rng), 1);
    }
}

#[test]
fn softmax_high_temperature_reaches_everyone() {
    let ns = neighbors();
    let mut seen = [false; 3];
    for seed in 0..300 {
        let mut rng = seeded(seed);
        seen[choose_neighbor(&ns, 1000 * SCALE, &mut rng)] = true;
    }
    assert!(seen[0] && seen[1] && seen[2]);
}

#[test]
fn adapt_with_full_retention_keeps_everything() {
    let ns = neighbors();
    for seed in 0..50 {
        let mut rng = seeded(seed);
        let mut agent = Agent::new(2);
        agent.last_prediction = Some(5);
        agent.update_performance(5);
        agent.adapt_strategy(&ns, 0, SCALE, &mut rng);
        assert_eq!(agent.policy, 2);
        assert_eq!(agent.performance_history, vec![0]);
    }
}

#[test]
fn adapt_greedy_without_retention_adopts_best() {
    let ns = neighbors();
    for seed in 0..50 {
        let mut rng = seeded(seed);
        let mut agent = Agent::new(2);
        agent.last_prediction = Some(5);
        agent.update_performance(5);
        agent.adapt_strategy(&ns, 0, 0, &mut rng);
        assert_eq!(agent.policy, 7);
        assert!(agent.performance_history.is_empty());
        assert_eq!(agent.last_prediction, Some(5));
    }
}

#[test]
fn adapt_without_neighbors_changes_nothing() {
    let mut rng = seeded(3);
    let mut agent = Agent::new(2);
    agent.last_prediction = Some(5);
    agent.update_performance(5);
    agent.adapt_strategy(&[], 0, 0, &mut rng);
    assert_eq!(agent.policy, 2);
    assert_eq!(agent.performance_history, vec![0]);
}

#[test]
fn retention_draw_decides_keeping() {
    let ns = neighbors();
    let mut rng = seeded(4);
    let mut agent = Agent::new(2);
    agent.last_prediction = Some(5);
    agent.update_performance(5);
    // a draw below the rate keeps everything
    agent.adapt_with_draw(&ns, 0, 500_000, 499_999, &mut rng);
    assert_eq!(agent.policy, 2);
    assert_eq!(agent.performance_history, vec![0]);
    // a draw at the rate or above imitates the best (greedy)
    agent.adapt_with_draw(&ns, 0, 500_000, 500_000, &mut rng);
    assert_eq!(agent.policy, 7);
    assert!(agent.performance_history.is_empty());
    assert_eq!(agent.last_prediction, Some(5));
}
