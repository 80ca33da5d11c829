use el_farol::game::GameResult;
use el_farol::policy::{
    AlwaysGo, ComplexFormulaPolicy, DrunkardPolicy, EvenHistoryAveragePolicy,
    ExponentialMovingAveragePolicy, FullHistoryAveragePolicy, GoIfLessThanSixty,
    MovingAveragePolicy, NeverGo, Policy, PredictFromDayBeforeYesterday, PredictFromYesterday,
    RandomPolicy, SlidingWeightedAveragePolicy, StupidNerdPolicy, UniformPolicy,
    WeightedHistoryPolicy, MAX_WEIGHT,
};
use el_farol::power_mean::GeneralizedMeanPolicy;
use rand::rngs::StdRng;
use rand::SeedableRng;

fn seeded(seed: u64) -> StdRng {
    StdRng::seed_from_u64(seed)
}
use el_farol::ratio::{isqrt, SCALE};

fn h() -> Vec<u64> {
    vec![200_000, 400_000, 600_000, 800_000]
}

#[test]
fn constant_policies() {
    assert_eq!(AlwaysGo.decide(&h()), 0);
    assert_eq!(NeverGo.decide(&h()), SCALE);
    assert_eq!(AlwaysGo.decide(&[]), 0);
    assert_eq!(NeverGo.decide(&[]), SCALE);
}

#[test]
fn yesterday_policies() {
    assert_eq!(PredictFromYesterday.decide(&h()), 800_000);
    assert_eq!(PredictFromYesterday.decide(&[]), 0);
    assert_eq!(PredictFromDayBeforeYesterday.decide(&h()), 600_000);
    assert_eq!(PredictFromDayBeforeYesterday.decide(&[300_000]), 300_000);
    assert_eq!(PredictFromDayBeforeYesterday.decide(&[]), 0);
}

#[test]
fn averages() {
    assert_eq!(MovingAveragePolicy::new(3).decide(&h()), 600_000);
    assert_eq!(MovingAveragePolicy::new(10).decide(&h()), 500_000);
    assert_eq!(MovingAveragePolicy::new(0).decide(&h()), 0);
    assert_eq!(MovingAveragePolicy::new(3).decide(&[]), 0);
    assert_eq!(FullHistoryAveragePolicy.decide(&h()), 500_000);
    assert_eq!(FullHistoryAveragePolicy.decide(&[]), 0);
    assert_eq!(EvenHistoryAveragePolicy.decide(&h()), 400_000);
    assert_eq!(EvenHistoryAveragePolicy.decide(&[100_000, 900_000, 400_000]), 250_000);
    assert_eq!(EvenHistoryAveragePolicy.decide(&[]), 0);
}

#[test]
fn complex_formula() {
    // (sqrt((0.8^2 + 0.6^2) / 2) + 0.4) / 2, with sqrt(0.5) = 0.707106
    assert_eq!(ComplexFormulaPolicy.decide(&h()), (707_106 + 400_000) / 2);
    assert_eq!(ComplexFormulaPolicy.decide(&[SCALE, SCALE]), 0);
    assert_eq!(ComplexFormulaPolicy.decide(&[SCALE, SCALE, SCALE]), SCALE);
}

#[test]
fn drunkard_and_nerd() {
    assert_eq!(DrunkardPolicy.decide(&h()), 450_000);
    assert_eq!(StupidNerdPolicy.decide(&h()), 550_000);
    assert_eq!(DrunkardPolicy.decide(&[]), 0);
    assert_eq!(StupidNerdPolicy.decide(&[]), 50_000);
    assert_eq!(DrunkardPolicy.decide(&[20_000]), 0);
    assert_eq!(StupidNerdPolicy.decide(&[980_000]), SCALE);
}

#[test]
fn random_policies_stay_in_range() {
    let mut rng = seeded(8);
    let u = UniformPolicy::new(250_000, 750_000);
    for _ in 0..500 {
        assert!(RandomPolicy.decide(&h(), &mut rng) <= SCALE);
        let x = u.decide(&h(), &mut rng);
        assert!(250_000 <= x && x <= 750_000);
    }
    let point = UniformPolicy::new(300_000, 300_000);
    assert_eq!(point.decide(&[], &mut rng), 300_000);
}

#[test]
fn weighted_history_with_known_weights() {
    let mut rng = seeded(8);
    let mut p = WeightedHistoryPolicy { weights: vec![SCALE, SCALE] };
    // (0.4 * 1 + 0.2 * 1) / 2
    assert_eq!(p.decide(&[200_000, 400_000], &mut rng), 300_000);
    let mut p = WeightedHistoryPolicy { weights: vec![1_500_000, 0] };
    // most recent entry meets the first weight: (0.4 * 1.5 + 0.2 * 0) / 2
    assert_eq!(p.decide(&[200_000, 400_000], &mut rng), 300_000);
    assert_eq!(p.weights.len(), 2);
}

#[test]
fn weighted_history_draws_weights_once() {
    let mut rng = seeded(8);
    let mut p = WeightedHistoryPolicy::new();
    assert_eq!(p.decide(&[], &mut rng), 0);
    let first = p.decide(&h(), &mut rng);
    assert_eq!(p.weights.len(), 4);
    let kept = p.weights.clone();
    assert!(kept.iter().all(|w| *w < MAX_WEIGHT));
    assert_eq!(p.decide(&h(), &mut rng), first);
    assert_eq!(p.weights, kept);
    p.decide(&[1, 2, 3, 4, 5, 6], &mut rng);
    assert_eq!(p.weights.len(), 6);
    assert_eq!(&p.weights[..4], &kept[..]);
}

#[test]
fn weighted_history_default_is_empty() {
    assert!(WeightedHistoryPolicy::default().weights.is_empty());
}

#[test]
fn sliding_weighted_average() {
    let p = SlidingWeightedAveragePolicy { weights: vec![1_500_000, 0, 0, 0, 0] };
    // window of 4 entries; only the most recent (0.8) has weight 1.5
    assert_eq!(p.decide(&h()), 300_000);
    assert_eq!(p.decide(&[]), 0);
    let mut rng = seeded(1);
    let q = SlidingWeightedAveragePolicy::new(&mut rng);
    assert_eq!(q.weights.len(), 5);
    assert!(q.weights.iter().all(|w| *w < MAX_WEIGHT));
    assert!(q.decide(&h()) < MAX_WEIGHT);
}

#[test]
fn exponential_moving_average() {
    let p = ExponentialMovingAveragePolicy::new(500_000);
    // (0.4 * 1 + 0.2 * 0.5) / 1.5
    assert_eq!(p.decide(&[200_000, 400_000]), 333_333);
    assert_eq!(p.decide(&[700_000]), 700_000);
    assert_eq!(p.decide(&[]), 0);
}

#[test]
fn generalized_mean_first_power_is_moving_average() {
    let gm = GeneralizedMeanPolicy::new(3, 1);
    assert_eq!(gm.decide(&h()), MovingAveragePolicy::new(3).decide(&h()));
    let gm = GeneralizedMeanPolicy::new(5, 1);
    assert_eq!(gm.decide(&[100_000, 200_000]), MovingAveragePolicy::new(5).decide(&[100_000, 200_000]));
}

#[test]
fn generalized_mean_minus_first_power_is_harmonic() {
    let gm = GeneralizedMeanPolicy::new(2, -1);
    // 2 / (1/0.6 + 1/0.8) = 0.685714...
    assert_eq!(gm.decide(&h()), 685_714);
    // a zero entry gives 0
    assert_eq!(gm.decide(&[0, 500_000]), 0);
}

#[test]
fn generalized_mean_other_powers() {
    // quadratic mean of 0.6 and 0.8: sqrt(0.5) = 0.7071067...
    assert_eq!(GeneralizedMeanPolicy::new(2, 2).decide(&h()), 707_107);
    assert_eq!(GeneralizedMeanPolicy::new(4, 3).decide(&[SCALE; 4]), SCALE);
    assert_eq!(GeneralizedMeanPolicy::new(4, -2).decide(&[SCALE; 4]), SCALE);
    assert_eq!(GeneralizedMeanPolicy::new(0, 2).decide(&h()), 0);
    assert_eq!(GeneralizedMeanPolicy::new(3, 2).decide(&[]), 0);
    // the exponent 0 resolves to the default
    assert_eq!(GeneralizedMeanPolicy { window: 3, exponent: 0 }.decide(&h()), 0);
}

#[test]
fn go_if_less_than_sixty() {
    let hist = vec![
        GameResult { total_attendance: 1, total_agents: 4 },
        GameResult { total_attendance: 3, total_agents: 4 },
    ];
    assert_eq!(GoIfLessThanSixty.decide(&hist), 750_000);
    assert_eq!(GoIfLessThanSixty.decide(&[]), 0);
    assert_eq!(GoIfLessThanSixty.decide(&[GameResult { total_attendance: 0, total_agents: 0 }]), 0);
}

#[test]
fn every_policy_respects_its_range() {
    let mut rng = seeded(12);
    let histories: Vec<Vec<u64>> = vec![vec![], vec![0], vec![SCALE; 7], h(), vec![1, 999_999, 0, SCALE, 3]];
    for hist in histories {
        let mut policies = vec![
            Policy::AlwaysGo,
            Policy::NeverGo,
            Policy::PredictFromYesterday,
            Policy::PredictFromDayBeforeYesterday,
            Policy::Random,
            Policy::MovingAverage(MovingAveragePolicy::new(3)),
            Policy::FullHistoryAverage,
            Policy::EvenHistoryAverage,
            Policy::ComplexFormula,
            Policy::Drunkard,
            Policy::StupidNerd,
            Policy::Uniform(UniformPolicy::new(100_000, 200_000)),
            Policy::WeightedHistory(WeightedHistoryPolicy::new()),
            Policy::SlidingWeightedAverage(SlidingWeightedAveragePolicy::new(&mut rng)),
            Policy::ExponentialMovingAverage(ExponentialMovingAveragePolicy::new(900_000)),
            Policy::GeneralizedMean(GeneralizedMeanPolicy::new(5, -1)),
        ];
        for p in policies.iter_mut() {
            let top = match p {
                Policy::WeightedHistory(_) | Policy::SlidingWeightedAverage(_) => MAX_WEIGHT,
                Policy::Uniform(_) => 200_000,
                _ => SCALE,
            };
            let r = p.decide(&hist, &mut rng);
            assert!(r <= top);
            if let Policy::Uniform(_) = p {
                assert!(r >= 100_000);
            }
            if hist.is_empty() {
                match p {
                    Policy::Random | Policy::Uniform(_) => {}
                    Policy::NeverGo => assert_eq!(r, SCALE),
                    Policy::StupidNerd => assert_eq!(r, 50_000),
                    _ => assert_eq!(r, 0),
                }
            }
        }
    }
}

#[test]
fn names() {
    assert_eq!(Policy::AlwaysGo.name(), "Always Go");
    assert_eq!(Policy::NeverGo.name(), "Never Go");
    assert_eq!(Policy::MovingAverage(MovingAveragePolicy::new(3)).name(), "Moving Average (3)");
    assert_eq!(Policy::GeneralizedMean(GeneralizedMeanPolicy::new(5, -1)).name(), "Generalized Mean (m=5, r=-1)");
    assert_eq!(Policy::GeneralizedMean(GeneralizedMeanPolicy::new(5, 2)).name(), "Generalized Mean (m=5, r=2)");
    assert_eq!(Policy::Uniform(UniformPolicy::new(1, 20)).name(), "Uniform [1..20]");
    assert_eq!(Policy::ExponentialMovingAverage(ExponentialMovingAveragePolicy::new(500_000)).name(), "Exponential Moving Average (a=500000)");
}

#[test]
fn same_policy_by_identity() {
    let a = Policy::MovingAverage(MovingAveragePolicy::new(3));
    let b = Policy::MovingAverage(MovingAveragePolicy::new(3));
    let c = Policy::MovingAverage(MovingAveragePolicy::new(4));
    assert!(a.is_same_policy(&b));
    assert!(!a.is_same_policy(&c));
    assert!(Policy::WeightedHistory(WeightedHistoryPolicy::new())
        .is_same_policy(&Policy::WeightedHistory(WeightedHistoryPolicy { weights: vec![1] })));
    assert!(!Policy::AlwaysGo.is_same_policy(&Policy::NeverGo));
}

#[test]
fn integer_square_root() {
    assert_eq!(isqrt(0), 0);
    assert_eq!(isqrt(15), 3);
    assert_eq!(isqrt(16), 4);
    assert_eq!(isqrt(500_000_000_000), 707_106);
    assert_eq!(isqrt(u64::MAX), 4_294_967_295);
}

#[test]
fn exponential_average_between_extremes() {
    let hist = vec![300_000, 900_000, 450_000, 600_000];
    for alpha in [1, 100_000, 500_000, 999_999] {
        let r = ExponentialMovingAveragePolicy::new(alpha).decide(&hist);
        assert!(300_000 <= r && r <= 900_000);
    }
}

#[test]
fn generalized_mean_at_least_smallest_entry() {
    let hist = vec![300_000, 900_000, 450_000, 600_000];
    for r in [1, 2, 3, 7] {
        assert!(GeneralizedMeanPolicy::new(4, r).decide(&hist) >= 300_000);
    }
}
