use netero::window::{WindowAction, WindowEvent, Windower};

fn expect_batch(act: WindowAction) -> Vec<String> {
    match act {
        WindowAction::EmitBatch(b) => b,
        _ => panic!("expected an emitted batch"),
    }
}

fn expect_final(act: WindowAction) -> Vec<String> {
    match act {
        WindowAction::EmitFinal(b) => b,
        _ => panic!("expected the final batch"),
    }
}

#[test]
fn one_batch_per_period_in_arrival_order() {
    let mut w = Windower::new();
    assert!(matches!(w.step(WindowEvent::Value("a".to_string())), WindowAction::Continue));
    assert!(matches!(w.step(WindowEvent::Value("b".to_string())), WindowAction::Continue));
    let first = expect_batch(w.step(WindowEvent::PeriodElapsed));
    assert_eq!(first, vec!["a".to_string(), "b".to_string()]);
    assert!(matches!(w.step(WindowEvent::Value("c".to_string())), WindowAction::Continue));
    let second = expect_batch(w.step(WindowEvent::PeriodElapsed));
    assert_eq!(second, vec!["c".to_string()]);
}

#[test]
fn idle_periods_emit_empty_batches() {
    let mut w = Windower::new();
    assert!(expect_batch(w.step(WindowEvent::PeriodElapsed)).is_empty());
    assert!(expect_batch(w.step(WindowEvent::PeriodElapsed)).is_empty());
    assert!(matches!(w.step(WindowEvent::Value("x".to_string())), WindowAction::Continue));
    let third = expect_batch(w.step(WindowEvent::PeriodElapsed));
    assert_eq!(third, vec!["x".to_string()]);
}

#[test]
fn stream_end_flushes_the_final_batch() {
    let mut w = Windower::new();
    assert!(matches!(w.step(WindowEvent::Value("tail".to_string())), WindowAction::Continue));
    let last = expect_final(w.step(WindowEvent::StreamEnd));
    assert_eq!(last, vec!["tail".to_string()]);
}

#[test]
fn stream_end_on_idle_window_emits_empty_final_batch() {
    let mut w = Windower::new();
    assert!(expect_final(w.step(WindowEvent::StreamEnd)).is_empty());
}
