use kinesis_aggregator::lifecycle::ShutdownOnce;

#[test]
fn the_shutdown_signal_is_taken_exactly_once() {
    let mut token = ShutdownOnce::new();
    assert!(token.take());
    assert!(!token.take());
    assert!(!token.take());
}
