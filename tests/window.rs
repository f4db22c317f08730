use osmpbf::window::may_send;
use osmpbf::OrderedWindow;

#[test]
fn parallel_identity_through_window() {
    let n: usize = 10_000;
    let capacity: usize = 8;
    let mut window: OrderedWindow<u64> = OrderedWindow::new(capacity);
    let mut out: Vec<u64> = Vec::new();
    let mut next_input: usize = 0;
    while out.len() < n {
        // produce the admitted inputs in reverse order, as slow workers might
        let mut batch: Vec<usize> = Vec::new();
        while next_input < n && may_send(window.delivered(), capacity, next_input) {
            batch.push(next_input);
            next_input += 1;
        }
        for i in batch.into_iter().rev() {
            assert!(window.accept(i, (i as u64) * (i as u64)));
        }
        while let Some(v) = window.take_ready() {
            out.push(v);
        }
    }
    let expected: Vec<u64> = (0..n as u64).map(|i| i * i).collect();
    assert_eq!(out, expected);
    assert_eq!(&out[..4], &[0, 1, 4, 9]);
}

#[test]
fn window_rejects_outside_and_duplicates() {
    let mut window: OrderedWindow<&str> = OrderedWindow::new(2);
    assert_eq!(window.capacity(), 2);
    assert!(!window.accept(2, "too far"));
    assert!(window.accept(1, "b"));
    assert!(!window.accept(1, "again"));
    assert_eq!(window.take_ready(), None);
    assert!(window.accept(0, "a"));
    assert_eq!(window.take_ready(), Some("a"));
    assert_eq!(window.take_ready(), Some("b"));
    assert_eq!(window.take_ready(), None);
    assert_eq!(window.delivered(), 2);
    assert!(!window.accept(1, "late"));
    assert!(window.accept(3, "d"));
}

#[test]
fn admission_bound() {
    assert!(may_send(0, 4, 3));
    assert!(!may_send(0, 4, 4));
    assert!(may_send(10, 4, 13));
    assert!(!may_send(10, 4, 14));
    assert!(may_send(10, 4, 2));
}
