use pyarraypool::mutex::SimpleSpinLock;

#[test]
fn test_mutex() {
    let mutex = SimpleSpinLock::new();

    assert!(!mutex.is_locked());

    {
        let _guard = mutex.lock();
        assert!(mutex.is_locked());
    }

    assert!(!mutex.is_locked());
}
