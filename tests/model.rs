use pid_playground::fixed::ONE;
use pid_playground::pid::{
    ConfigError, Environment, Model, PidController, Sample, DEFAULT_MAX_ACCEL,
};

fn env(damping: i64, applied_force: i64, timestep: i64, setpoint: i64) -> Environment {
    Environment::new(damping, applied_force, timestep, setpoint).unwrap()
}

#[test]
fn environment_default_values() {
    let e = Environment::default();
    assert_eq!(e.damping, ONE / 2);
    assert_eq!(e.applied_force, 0);
    assert_eq!(e.timestep, 16_000_000);
    assert_eq!(e.setpoint, 100 * ONE);
    assert_eq!(e.check(), Ok(()));
}

#[test]
fn environment_new_accepts_range_ends() {
    assert!(Environment::new(0, -10 * ONE, 1_000_000, 0).is_ok());
    assert!(Environment::new(100 * ONE, 10 * ONE, ONE, 150 * ONE).is_ok());
}

#[test]
fn environment_new_rejects_bad_timestep() {
    assert_eq!(Environment::new(0, 0, 0, 0), Err(ConfigError::TimestepOutOfRange));
    assert_eq!(Environment::new(0, 0, -16_000_000, 0), Err(ConfigError::TimestepOutOfRange));
    assert_eq!(Environment::new(0, 0, 999_999, 0), Err(ConfigError::TimestepOutOfRange));
    assert_eq!(Environment::new(0, 0, ONE + 1, 0), Err(ConfigError::TimestepOutOfRange));
}

#[test]
fn environment_new_rejects_negative_damping() {
    assert_eq!(Environment::new(-1, 0, 16_000_000, 0), Err(ConfigError::NegativeDamping));
    assert_eq!(Environment::new(-1, 0, 0, 0), Err(ConfigError::TimestepOutOfRange));
}

#[test]
fn controller_calculate_exact() {
    let mut c = PidController::default();
    c.k_p = 2 * ONE;
    c.k_i = ONE / 2;
    c.k_d = ONE / 10;
    assert_eq!(c.calculate(100 * ONE, 0, 16_000_000), 825_800_000_000);
    assert_eq!(c.prev_error(), 100 * ONE);
    assert_eq!(c.integral(), 1_600_000_000);
    assert_eq!(c.calculate(100 * ONE, 2 * ONE, 16_000_000), 185_084_000_000);
    assert_eq!(c.prev_error(), 98 * ONE);
    assert_eq!(c.integral(), 3_168_000_000);
}

#[test]
fn controller_reset_keeps_gains() {
    let mut c = PidController::default();
    c.k_p = ONE;
    c.k_i = 2;
    c.k_d = 3;
    c.calculate(5 * ONE, 0, 16_000_000);
    c.reset();
    assert_eq!(c.prev_error(), 0);
    assert_eq!(c.integral(), 0);
    assert_eq!((c.k_p, c.k_i, c.k_d), (ONE, 2, 3));
}

#[test]
fn model_new_is_at_rest() {
    let m = Model::new("Model 1", 7);
    assert_eq!(m.id, 7);
    assert_eq!(m.name, "Model 1");
    assert!(!m.dirty);
    assert_eq!((m.accel, m.vel, m.value, m.elapsed_time), (0, 0, 0, 0));
    assert_eq!(m.max_accel, DEFAULT_MAX_ACCEL);
    assert_eq!(m.controller, PidController::default());
}

#[test]
fn model_update_exact() {
    let mut m = Model::new("m", 0);
    m.controller.k_p = ONE;
    m.vel = 2 * ONE;
    m.value = 3 * ONE;
    m.update(&env(ONE / 2, ONE, 16_000_000, 100 * ONE), 16_000_000);
    assert_eq!(m.accel, 10 * ONE);
    assert_eq!(m.vel, 2_160_000_000);
    assert_eq!(m.value, 3_034_560_000);
    assert_eq!(m.elapsed_time, 16_000_000);
    assert_eq!(m.controller.prev_error(), 97 * ONE);
    assert_eq!(m.controller.integral(), 1_552_000_000);
}

#[test]
fn model_reset_keeps_tuning() {
    let mut m = Model::new("m", 3);
    m.controller.k_p = ONE;
    m.max_accel = 5 * ONE;
    m.update(&Environment::default(), 16_000_000);
    m.reset();
    assert_eq!((m.accel, m.vel, m.value, m.elapsed_time), (0, 0, 0, 0));
    assert_eq!((m.controller.prev_error(), m.controller.integral()), (0, 0));
    assert_eq!(m.controller.k_p, ONE);
    assert_eq!(m.max_accel, 5 * ONE);
    assert_eq!(m.id, 3);
}

#[test]
fn zero_gains_keep_model_at_rest() {
    let e = env(0, 0, 16_000_000, 100 * ONE);
    let mut m = Model::new("m", 0);
    m.value = 5 * ONE;
    for _ in 0..100 {
        m.update(&e, 16_000_000);
        assert_eq!(m.value, 5 * ONE);
        assert_eq!(m.vel, 0);
        assert_eq!(m.accel, 0);
    }
    assert_eq!(m.elapsed_time, 1_600_000_000);
}

#[test]
fn command_is_clamped_to_limit() {
    let e = env(0, 0, 16_000_000, 100 * ONE);
    let mut m = Model::new("m", 0);
    m.controller.k_p = 1_000 * ONE;
    m.update(&e, 16_000_000);
    assert_eq!(m.accel, m.max_accel);

    let low = env(0, 0, 16_000_000, 0);
    let mut n = Model::new("n", 1);
    n.controller.k_p = 1_000 * ONE;
    n.value = 100 * ONE;
    n.update(&low, 16_000_000);
    assert_eq!(n.accel, -n.max_accel);
}

#[test]
fn clamped_command_then_force_and_damping() {
    let e = env(ONE / 2, 2 * ONE, 16_000_000, 100 * ONE);
    let mut m = Model::new("m", 0);
    m.controller.k_p = 1_000 * ONE;
    m.vel = 4 * ONE;
    m.update(&e, 16_000_000);
    assert_eq!(m.accel, 10 * ONE - 2 * ONE + 2 * ONE);
}

#[test]
fn evaluate_default_horizon_length() {
    let mut m = Model::new("m", 0);
    let tr = m.evaluate(20 * ONE, &Environment::default());
    assert_eq!(tr.len(), 1250);
    assert_eq!(tr[0].time, 16_000_000);
    assert_eq!(tr[1249].time, 20 * ONE);
    assert_eq!(m.elapsed_time, 20 * ONE);
}

#[test]
fn evaluate_rounds_step_count_up() {
    let mut m = Model::new("m", 0);
    m.controller.k_p = ONE;
    let tr = m.evaluate(20 * ONE, &env(ONE / 2, 0, 300_000_000, 100 * ONE));
    assert_eq!(tr.len(), 67);
    assert_eq!(tr[66], Sample { time: 20_100_000_000, value: 100_351_075_395 });
}

#[test]
fn evaluate_empty_horizon() {
    let mut m = Model::new("m", 0);
    assert!(m.evaluate(0, &Environment::default()).is_empty());
    assert!(m.evaluate(-5, &Environment::default()).is_empty());
    assert_eq!(m.elapsed_time, 0);
    assert_eq!(m.value, 0);
}

#[test]
fn evaluate_continues_from_current_time() {
    let e = Environment::default();
    let mut m = Model::new("m", 0);
    m.controller.k_p = 2 * ONE;
    let first = m.evaluate(ONE, &e);
    let second = m.evaluate(ONE, &e);
    assert_eq!(first.len(), 63);
    assert_eq!(second[0].time, first[62].time + 16_000_000);
}

#[test]
fn reset_then_evaluate_is_deterministic() {
    let e = Environment::default();
    let mut a = Model::new("a", 0);
    let mut b = Model::new("b", 1);
    for m in [&mut a, &mut b] {
        m.controller.k_p = 2 * ONE;
        m.controller.k_i = ONE / 100;
        m.controller.k_d = 3 * ONE / 10;
    }
    b.update(&e, 16_000_000);
    b.update(&e, 16_000_000);
    a.reset();
    b.reset();
    let ta = a.evaluate(20 * ONE, &e);
    let tb = b.evaluate(20 * ONE, &e);
    assert_eq!(ta, tb);
}

/// Values of the same run computed in `f64`, the arithmetic this model approximates.
const REFERENCE: [(usize, f64); 7] = [
    (0, 0.00256),
    (1, 0.0076595199999999995),
    (2, 0.01527824384),
    (9, 0.13747426646420915),
    (99, 10.092105345914158),
    (499, 111.28156834810896),
    (1249, 99.46131468778852),
];

#[test]
fn end_to_end_proportional_response() {
    let e = env(ONE / 2, 0, 16_000_000, 100 * ONE);
    let mut m = Model::new("m", 0);
    m.controller.k_p = 2 * ONE;
    let tr = m.evaluate(20 * ONE, &e);
    assert_eq!(tr.len(), 1250);
    assert_eq!(tr[0], Sample { time: 16_000_000, value: 2_560_000 });
    assert_eq!(tr[1], Sample { time: 32_000_000, value: 7_659_520 });
    assert_eq!(tr[2], Sample { time: 48_000_000, value: 15_278_243 });
    assert_eq!(tr[9], Sample { time: 160_000_000, value: 137_474_262 });
    assert_eq!(tr[99], Sample { time: 1_600_000_000, value: 10_092_105_273 });
    assert_eq!(tr[499], Sample { time: 8 * ONE, value: 111_281_568_217 });
    assert_eq!(tr[1249], Sample { time: 20 * ONE, value: 99_461_314_719 });
    let peak = tr.iter().map(|s| s.value).max().unwrap();
    assert_eq!(peak, 111_731_638_432);
    assert!(tr[1249].value > 99 * ONE && tr[1249].value < 101 * ONE);
}

#[test]
fn end_to_end_matches_float_reference() {
    let e = env(ONE / 2, 0, 16_000_000, 100 * ONE);
    let mut m = Model::new("m", 0);
    m.controller.k_p = 2 * ONE;
    let tr = m.evaluate(20 * ONE, &e);
    let as_f64 = |x: i64| x as f64 / ONE as f64;
    assert!((as_f64(tr[0].value) - 0.00256).abs() < 1e-12);
    assert!((as_f64(tr[1].value) - 0.00765952).abs() < 1e-12);
    for (i, want) in REFERENCE {
        assert!((as_f64(tr[i].value) - want).abs() < 1e-6, "sample {}", i);
        assert!((as_f64(tr[i].time) - 0.016 * (i + 1) as f64).abs() < 1e-9);
    }
}

#[test]
fn evaluation_restarts_after_reset() {
    let e = Environment::default();
    let mut m = Model::new("m", 0);
    m.controller.k_p = 2 * ONE;
    m.controller.k_i = ONE / 100;
    let first = m.evaluate(20 * ONE, &e);
    m.reset();
    let second = m.evaluate(20 * ONE, &e);
    assert_eq!(first, second);
}

#[test]
fn controller_state_reads_through_getters() {
    let c = PidController::default();
    assert_eq!((c.k_p, c.k_i, c.k_d), (0, 0, 0));
    assert_eq!((c.prev_error(), c.integral()), (0, 0));
}
