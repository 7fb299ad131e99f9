use lsp_transport::debounce::{Entry, Polled, UniqueStream};

fn entry(key: &str, version: u32) -> Entry<String, u32, u32> {
    Entry { key: key.to_string(), value: version * 10, version }
}

fn next(q: &mut UniqueStream<String, u32, u32>) -> Option<(String, u32, u32)> {
    match q.poll() {
        Polled::Ready(e) => Some((e.key, e.value, e.version)),
        Polled::NotReady => None,
        Polled::Finished => panic!("finished"),
    }
}

#[test]
fn keeps_highest_version_per_key() {
    let mut q = UniqueStream::new();
    q.receive(entry("doc1", 1));
    q.receive(entry("doc1", 3));
    q.receive(entry("doc1", 2));
    assert_eq!(next(&mut q), Some(("doc1".to_string(), 30, 3)));
    assert_eq!(next(&mut q), None);
}

#[test]
fn equal_version_keeps_first_entry() {
    let mut q = UniqueStream::new();
    q.receive(Entry { key: "a".to_string(), value: 1, version: 5 });
    q.receive(Entry { key: "a".to_string(), value: 2, version: 5 });
    assert_eq!(next(&mut q), Some(("a".to_string(), 1, 5)));
}

#[test]
fn keys_leave_in_first_seen_order() {
    let mut q = UniqueStream::new();
    q.receive(entry("a", 1));
    q.receive(entry("b", 1));
    q.receive(entry("c", 1));
    q.receive(entry("a", 4));
    q.receive(entry("b", 2));
    assert_eq!(next(&mut q), Some(("a".to_string(), 40, 4)));
    assert_eq!(next(&mut q), Some(("b".to_string(), 20, 2)));
    assert_eq!(next(&mut q), Some(("c".to_string(), 10, 1)));
    assert_eq!(next(&mut q), None);
}

#[test]
fn key_delivered_then_sent_again_is_queued_again() {
    let mut q = UniqueStream::new();
    q.receive(entry("a", 1));
    assert_eq!(next(&mut q), Some(("a".to_string(), 10, 1)));
    q.receive(entry("a", 2));
    assert_eq!(next(&mut q), Some(("a".to_string(), 20, 2)));
}

#[test]
fn not_ready_while_producers_remain() {
    let mut q: UniqueStream<String, u32, u32> = UniqueStream::new();
    assert!(matches!(q.poll(), Polled::NotReady));
    assert!(!q.is_closed());
}

#[test]
fn finished_after_close_and_stays_finished() {
    let mut q = UniqueStream::new();
    q.receive(entry("a", 1));
    q.close();
    assert!(q.is_closed());
    assert_eq!(next(&mut q), Some(("a".to_string(), 10, 1)));
    assert!(matches!(q.poll(), Polled::Finished));
    assert!(matches!(q.poll(), Polled::Finished));
    assert!(matches!(q.poll(), Polled::Finished));
}
