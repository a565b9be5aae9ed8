use tunnel::reverse_proxy::backend_uri;
use tunnel::reverse_proxy::BackendPool;

#[test]
fn round_robin_cycles_through_backends() {
    let mut pool = BackendPool::new(vec!["a:1".to_string(), "b:2".to_string(), "c:3".to_string()]);
    let picks: Vec<String> = (0..7).map(|_| pool.next_backend()).collect();
    assert_eq!(picks, vec!["a:1", "b:2", "c:3", "a:1", "b:2", "c:3", "a:1"]);
}

#[test]
fn single_backend_always_chosen() {
    let mut pool = BackendPool::new(vec!["only:80".to_string()]);
    for _ in 0..3 {
        assert_eq!(pool.next_backend(), "only:80");
    }
}

#[test]
fn uri_for_backend() {
    assert_eq!(backend_uri("127.0.0.1:3001", Some("/api?x=1")), "http://127.0.0.1:3001/api?x=1");
    assert_eq!(backend_uri("host", None), "http://host/");
}

#[test]
fn empty_pool_can_be_built() {
    let _pool = BackendPool::new(Vec::new());
}
