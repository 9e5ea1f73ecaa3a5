use pid_playground::fixed::ONE;
use pid_playground::pid::{ConfigError, Environment, Sample, Tuning};
use pid_playground::registry::{fits_window, slide_history, Application, HORIZON, REALTIME_STEP};

fn tuning(k_p: i64, k_i: i64, k_d: i64, max_accel: i64) -> Tuning {
    Tuning { k_p, k_i, k_d, max_accel }
}

#[test]
fn new_registry_is_empty_and_paused() {
    let app = Application::default();
    assert!(app.models().is_empty());
    assert!(!app.is_realtime());
    assert_eq!(app.last_model_id(), 0);
    assert_eq!(app.environment(), Environment::default());
    assert!(app.history(0).is_none());
}

#[test]
fn add_model_assigns_fresh_ids() {
    let mut app = Application::new();
    let a = app.add_model("Model 0");
    let b = app.add_model("Model 1");
    assert_eq!((a, b), (0, 1));
    assert_eq!(app.last_model_id(), 2);
    assert_eq!(app.models().len(), 2);
    assert_eq!(app.models()[1].name, "Model 1");
    assert!(app.models()[1].dirty);
    assert_eq!(app.history(b).map(|h| h.len()), Some(0));
}

#[test]
fn ids_are_not_reused_after_removal() {
    let mut app = Application::new();
    let a = app.add_model("a");
    app.remove(a);
    let b = app.add_model("b");
    assert_ne!(a, b);
    assert_eq!(b, 1);
}

#[test]
fn tick_recomputes_dirty_models_and_clears_flags() {
    let mut app = Application::new();
    let id = app.add_model("m");
    app.set_tuning(id, tuning(2 * ONE, 0, 0, 10 * ONE)).unwrap();
    app.tick();
    let h = app.history(id).unwrap();
    assert_eq!(h.len(), 1250);
    assert_eq!(h[0], Sample { time: 16_000_000, value: 2_560_000 });
    assert_eq!(h[1249], Sample { time: 20 * ONE, value: 99_461_314_719 });
    assert!(!app.models()[0].dirty);
    assert_eq!(app.models()[0].elapsed_time, 20 * ONE);
}

#[test]
fn paused_clean_tick_changes_nothing() {
    let mut app = Application::new();
    let id = app.add_model("m");
    app.tick();
    let before = app.history(id).unwrap().clone();
    let value = app.models()[0].value;
    app.tick();
    assert_eq!(app.history(id).unwrap(), &before);
    assert_eq!(app.models()[0].value, value);
}

#[test]
fn duplicate_evaluates_like_source() {
    let mut app = Application::new();
    app.set_environment(Environment::new(ONE, 0, 100_000_000, 100 * ONE).unwrap()).unwrap();
    let id = app.add_model("orig");
    app.set_tuning(id, tuning(ONE, 0, 0, 10 * ONE)).unwrap();
    let copy = app.duplicate(id).unwrap();
    assert_eq!(copy, 1);
    assert_eq!(app.models()[1].name, "orig");
    assert!(app.models()[1].dirty);
    assert_eq!(app.history(copy).map(|h| h.len()), Some(0));
    app.tick();
    let a = app.history(id).unwrap().clone();
    let b = app.history(copy).unwrap().clone();
    assert_eq!(a.len(), 200);
    assert_eq!(a[0], Sample { time: 100_000_000, value: 100_000_000 });
    assert_eq!(a[99], Sample { time: 10 * ONE, value: 91_000_236_319 });
    assert_eq!(a[199], Sample { time: 20 * ONE, value: 100_055_516_032 });
    assert_eq!(a, b);
}

#[test]
fn duplicate_of_unknown_model_is_none() {
    let mut app = Application::new();
    app.add_model("m");
    assert_eq!(app.duplicate(42), None);
    assert_eq!(app.models().len(), 1);
    assert_eq!(app.last_model_id(), 1);
}

#[test]
fn remove_is_idempotent() {
    let mut app = Application::new();
    let a = app.add_model("a");
    let b = app.add_model("b");
    app.remove(a);
    assert!(app.models().iter().all(|m| m.id != a));
    assert!(app.history(a).is_none());
    assert_eq!(app.models().len(), 1);
    app.remove(a);
    assert_eq!(app.models().len(), 1);
    assert_eq!(app.models()[0].id, b);
    assert!(app.history(b).is_some());
}

#[test]
fn set_tuning_rejects_bad_input() {
    let mut app = Application::new();
    let id = app.add_model("m");
    assert_eq!(app.set_tuning(id, tuning(ONE, 0, 0, -1)), Err(ConfigError::NegativeAccelLimit));
    assert_eq!(app.set_tuning(9, tuning(ONE, 0, 0, ONE)), Err(ConfigError::UnknownModel));
    assert_eq!(app.models()[0].controller.k_p, 0);
}

#[test]
fn set_tuning_marks_dirty_only_on_change() {
    let mut app = Application::new();
    let id = app.add_model("m");
    app.tick();
    assert!(!app.models()[0].dirty);
    app.set_tuning(id, tuning(0, 0, 0, 10 * ONE)).unwrap();
    assert!(!app.models()[0].dirty);
    app.set_tuning(id, tuning(0, 0, 0, 5 * ONE)).unwrap();
    assert!(app.models()[0].dirty);
    assert_eq!(app.models()[0].max_accel, 5 * ONE);
}

#[test]
fn rename_model() {
    let mut app = Application::new();
    let id = app.add_model("m");
    assert_eq!(app.rename(id, "Renamed".to_string()), Ok(()));
    assert_eq!(app.models()[0].name, "Renamed");
    assert_eq!(app.rename(5, "x".to_string()), Err(ConfigError::UnknownModel));
}

#[test]
fn set_environment_rejects_bad_timestep() {
    let mut app = Application::new();
    let bad = Environment { damping: 0, applied_force: 0, timestep: 0, setpoint: 0 };
    assert_eq!(app.set_environment(bad), Err(ConfigError::TimestepOutOfRange));
    let neg = Environment { damping: -1, applied_force: 0, timestep: 16_000_000, setpoint: 0 };
    assert_eq!(app.set_environment(neg), Err(ConfigError::NegativeDamping));
    assert_eq!(app.environment(), Environment::default());
}

#[test]
fn environment_change_recomputes_every_model() {
    let mut app = Application::new();
    let id = app.add_model("m");
    app.set_tuning(id, tuning(ONE, 0, 0, 10 * ONE)).unwrap();
    app.tick();
    app.set_environment(Environment::new(2 * ONE, 0, 16_000_000, 100 * ONE).unwrap()).unwrap();
    app.tick();
    let h = app.history(id).unwrap();
    assert_eq!(h.len(), 1250);
    assert_eq!(h[1249], Sample { time: 20 * ONE, value: 96_129_418_185 });
}

#[test]
fn stopping_realtime_keeps_clock_and_history() {
    let mut app = Application::new();
    let id = app.add_model("m");
    app.set_tuning(id, tuning(2 * ONE, 0, 0, 10 * ONE)).unwrap();
    app.tick();
    app.set_realtime(true);
    app.tick();
    let h = app.history(id).unwrap().clone();
    assert_eq!(h.len(), 1250);
    assert_eq!(h[0].time, 16_000_000);
    assert_eq!(h[1249].time, 20 * ONE);
    assert_eq!(app.models()[0].elapsed_time, 20 * ONE);
    let value = app.models()[0].value;
    app.set_realtime(false);
    app.tick();
    assert_eq!(app.history(id).unwrap(), &h);
    assert_eq!(app.models()[0].elapsed_time, 20 * ONE);
    assert_eq!(app.models()[0].value, value);
}

#[test]
fn starting_realtime_keeps_fitting_history() {
    let mut app = Application::new();
    let id = app.add_model("m");
    app.tick();
    let h = app.history(id).unwrap().clone();
    app.set_realtime(true);
    assert!(app.is_realtime());
    assert_eq!(app.history(id).unwrap(), &h);
    assert_eq!(app.models()[0].elapsed_time, HORIZON);
}

#[test]
fn starting_realtime_empties_history_past_horizon() {
    let mut app = Application::new();
    app.set_environment(Environment::new(ONE / 2, 0, 300_000_000, 100 * ONE).unwrap()).unwrap();
    let id = app.add_model("m");
    app.tick();
    assert_eq!(app.models()[0].elapsed_time, 20_100_000_000);
    assert_eq!(app.history(id).unwrap().len(), 67);
    app.set_realtime(true);
    assert!(app.history(id).unwrap().is_empty());
    assert_eq!(app.models()[0].elapsed_time, HORIZON);
    for _ in 0..10 {
        app.tick();
        let h = app.history(id).unwrap();
        assert!(h.iter().all(|s| s.time > 0 && s.time <= HORIZON));
    }
    assert_eq!(app.history(id).unwrap().len(), 10);
}

#[test]
fn starting_realtime_empties_dense_history() {
    let mut app = Application::new();
    app.set_environment(Environment::new(ONE / 2, 0, 1_000_000, 100 * ONE).unwrap()).unwrap();
    let id = app.add_model("m");
    app.tick();
    assert_eq!(app.history(id).unwrap().len(), 20_000);
    app.set_realtime(true);
    assert!(app.history(id).unwrap().is_empty());
    app.tick();
    let h = app.history(id).unwrap();
    assert!(h.len() as i64 <= HORIZON / REALTIME_STEP + 1);
}

#[test]
fn reset_simulation_only_while_running() {
    let mut app = Application::new();
    let id = app.add_model("m");
    app.tick();
    app.reset_simulation();
    assert_eq!(app.history(id).unwrap().len(), 1250);
    app.set_realtime(true);
    app.reset_simulation();
    assert!(app.history(id).unwrap().is_empty());
    assert_eq!(app.models()[0].elapsed_time, 0);
}

#[test]
fn running_window_stays_bounded() {
    let mut app = Application::new();
    let id = app.add_model("m");
    app.set_tuning(id, tuning(2 * ONE, 0, 0, 10 * ONE)).unwrap();
    app.set_realtime(true);
    app.reset_simulation();
    for _ in 0..1250 {
        app.tick();
    }
    assert_eq!(app.history(id).unwrap().len(), 1250);
    assert_eq!(app.models()[0].elapsed_time, HORIZON);
    app.tick();
    let h = app.history(id).unwrap();
    assert_eq!(h.len(), 1250);
    assert_eq!(h[0].time, REALTIME_STEP);
    assert_eq!(h[1249].time, HORIZON);
    for _ in 0..700 {
        app.tick();
        let h = app.history(id).unwrap();
        assert!(h.len() as i64 <= HORIZON / REALTIME_STEP + 1);
        assert!(h.iter().all(|s| s.time > 0 && s.time <= HORIZON));
        assert!(h.windows(2).all(|w| w[0].time + REALTIME_STEP <= w[1].time));
    }
    assert_eq!(app.models()[0].elapsed_time, HORIZON);
}

#[test]
fn slide_history_shifts_and_drops() {
    let h = vec![
        Sample { time: 16_000_000, value: 1 },
        Sample { time: 32_000_000, value: 2 },
        Sample { time: 50_000_000, value: 3 },
    ];
    assert_eq!(
        slide_history(&h),
        vec![Sample { time: 16_000_000, value: 2 }, Sample { time: 34_000_000, value: 3 }]
    );
    assert!(slide_history(&Vec::new()).is_empty());
}

#[test]
fn fits_window_checks_range_and_spacing() {
    let spaced = vec![
        Sample { time: 16_000_000, value: 0 },
        Sample { time: 32_000_000, value: 0 },
    ];
    assert!(fits_window(&spaced, 32_000_000));
    assert!(!fits_window(&spaced, 20_000_000));
    assert!(!fits_window(&spaced, HORIZON + 1));
    assert!(!fits_window(&spaced, -1));
    let dense = vec![Sample { time: 16_000_000, value: 0 }, Sample { time: 17_000_000, value: 0 }];
    assert!(!fits_window(&dense, HORIZON));
    let at_zero = vec![Sample { time: 0, value: 0 }];
    assert!(!fits_window(&at_zero, HORIZON));
    assert!(fits_window(&Vec::new(), 0));
}
