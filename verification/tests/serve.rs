use httpfromtcp::serve::Serve;

#[test]
fn shutdown_drain_scenario() {
    let mut s = Serve::new();
    assert!(s.accepting);

    s.on_accept();
    s.on_accept();
    assert_eq!(s.tasks, 2);

    s.on_shutdown();
    assert!(!s.accepting);
    assert!(!s.may_finish());

    s.on_task_done();
    assert!(!s.may_finish());
    s.on_task_done();
    assert!(s.may_finish());
}

#[test]
fn serve_accept_counts() {
    let mut s = Serve::new();
    s.on_accept();
    assert_eq!(s.tasks, 1);
    s.on_task_done();
    assert_eq!(s.tasks, 0);
    assert!(s.accepting);
    assert!(!s.may_finish());
}
