use rust_logger::rolling_window::RollingWindow;

#[test]
fn test_push_and_eviction() {
    let mut w: RollingWindow<i32> = RollingWindow::new(3);

    w.push(10);
    w.push(20);
    w.push(30);

    assert!(w.is_full());
    assert_eq!(w.values(), vec![10, 20, 30]);

    w.push(40);
    assert_eq!(w.values(), vec![20, 30, 40]);
    assert_eq!(w.len(), 3);
}

#[test]
fn rolling_window_starts_empty() {
    let w: RollingWindow<f64> = RollingWindow::new(2);
    assert!(w.is_empty());
    assert!(!w.is_full());
    assert_eq!(w.values(), Vec::<f64>::new());
}

#[test]
fn rolling_window_keeps_last_capacity_values() {
    let mut w: RollingWindow<u64> = RollingWindow::new(3);
    for i in 1..=7u64 {
        w.push(i);
    }
    assert_eq!(w.values(), vec![5, 6, 7]);
}
