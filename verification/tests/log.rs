use request_shadow::{Divergence, DivergenceEntry, DivergenceLog};

fn entry(k: &[u8]) -> DivergenceEntry {
    DivergenceEntry {
        key: k.to_vec(),
        divergence: Divergence { status: Some((200, 500)), headers: None, body: None },
    }
}

#[test]
fn ring_buffer_drops_oldest_when_full() {
    let mut log = DivergenceLog::new(3);
    for k in [b"a", b"b", b"c", b"d", b"e"] {
        log.push(entry(k));
    }
    assert_eq!(log.len(), 3);
    let keys: Vec<Vec<u8>> = log.snapshot().into_iter().map(|e| e.key).collect();
    assert_eq!(keys, vec![b"c".to_vec(), b"d".to_vec(), b"e".to_vec()]);
}

#[test]
fn zero_capacity_disables_logging() {
    let mut log = DivergenceLog::new(0);
    log.push(entry(b"a"));
    assert!(log.is_empty());
    assert_eq!(log.len(), 0);
    assert!(log.snapshot().is_empty());
}

#[test]
fn default_log_holds_128() {
    let mut log = DivergenceLog::default();
    for i in 0..200u32 {
        log.push(entry(&i.to_be_bytes()));
    }
    assert_eq!(log.len(), 128);
    assert_eq!(log.snapshot()[0].key, 72u32.to_be_bytes().to_vec());
}

#[test]
fn snapshot_is_oldest_first_and_a_copy() {
    let mut log = DivergenceLog::new(5);
    log.push(entry(b"x"));
    log.push(entry(b"y"));
    let snap = log.snapshot();
    log.push(entry(b"z"));
    assert_eq!(snap.len(), 2);
    assert_eq!(snap[0].key, b"x".to_vec());
    assert_eq!(snap[1].divergence.status, Some((200, 500)));
    assert_eq!(log.len(), 3);
}
