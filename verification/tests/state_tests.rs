use quickshare_core::cancel::CancelFlags;
use quickshare_core::state::{
    activate_transfer, cancel_transfer, data_password, elapsed_ms, finish_receive, finish_transfer,
    is_discovery_probe, needs_restart, push_history, record_discovery_reply, register_incoming,
    register_transfer, remove_transfer, set_file_hash, AppSettings, DiscoveredDevice, HistoryEntry, SendOptions,
    TransferOutcome, TransferState, HISTORY_LIMIT,
};

fn two_transfers() -> Vec<TransferState> {
    let mut ts = Vec::new();
    register_transfer(&mut ts, "t1", "a.txt", 100, 5000);
    register_transfer(&mut ts, "t2", "dir (3 files)", 300, 6000);
    ts
}

#[test]
fn register_starts_active() {
    let ts = two_transfers();
    assert_eq!(ts.len(), 2);
    let t = &ts[1];
    assert_eq!((t.id.as_str(), t.file_name.as_str()), ("t2", "dir (3 files)"));
    assert_eq!((t.total, t.sent, t.started_at), (300, 0, 6000));
    assert_eq!(t.status, "active");
    assert_eq!(t.file_hash, "");
}

#[test]
fn incoming_request_is_pending() {
    let mut ts = Vec::new();
    register_incoming(&mut ts, "r1", "10.0.0.2:5000", "photo.jpg", 42);
    assert_eq!(ts[0].file_name, "来自 10.0.0.2:5000: photo.jpg");
    assert_eq!(ts[0].status, "pending");
    assert_eq!((ts[0].total, ts[0].sent, ts[0].started_at), (42, 0, 0));
    activate_transfer(&mut ts, "r1", 777);
    assert_eq!(ts[0].status, "active");
    assert_eq!(ts[0].started_at, 777);
}

#[test]
fn cancel_marks_only_that_transfer() {
    let mut ts = two_transfers();
    cancel_transfer(&mut ts, "t2");
    assert_eq!(ts[1].status, "cancelled");
    assert_eq!(ts[0].status, "active");
    cancel_transfer(&mut ts, "nope");
    assert_eq!(ts[0].status, "active");
}

#[test]
fn remove_drops_declined_requests() {
    let mut ts = two_transfers();
    register_incoming(&mut ts, "t1", "p", "dup", 1);
    remove_transfer(&mut ts, "t1");
    assert_eq!(ts.len(), 1);
    assert_eq!(ts[0].id, "t2");
}

fn stamp(t: &TransferState) -> u64 {
    t.started_at
}

fn entry(id: &str, name: &str, peer: &str, dir: &str, size: u64, status: &str, hash: &str) -> HistoryEntry {
    HistoryEntry {
        id: id.to_string(),
        file_name: name.to_string(),
        peer: peer.to_string(),
        direction: dir.to_string(),
        size,
        status: status.to_string(),
        file_hash: hash.to_string(),
    }
}

fn same_entry(a: &HistoryEntry, b: &HistoryEntry) -> bool {
    (&a.id, &a.file_name, &a.peer, &a.direction, a.size, &a.status, &a.file_hash)
        == (&b.id, &b.file_name, &b.peer, &b.direction, b.size, &b.status, &b.file_hash)
}

#[test]
fn finish_outcomes() {
    let mut ts = two_transfers();
    let mut hist: Vec<(HistoryEntry, u64)> = Vec::new();
    let mut flags = CancelFlags::new();
    flags.insert("t1".to_string(), 1u8);
    flags.insert("t2".to_string(), 2u8);
    ts[0].sent = 40;
    let o = finish_transfer(&mut ts, &mut hist, &mut flags, "t1", &Ok(()), stamp);
    assert_eq!(flags.get("t1"), None);
    assert_eq!(flags.get("t2"), Some(&2));
    assert_eq!(o, TransferOutcome::Completed);
    assert_eq!((ts[0].status.as_str(), ts[0].sent), ("completed", 100));
    assert!(same_entry(&hist[0].0, &entry("t1", "a.txt", "", "sent", 100, "completed", "")));
    assert_eq!(hist[0].1, 5000);
    ts[1].sent = 7;
    let o = finish_transfer(&mut ts, &mut hist, &mut flags, "t2", &Err("cancelled".to_string()), stamp);
    assert_eq!(flags.get("t2"), None);
    assert_eq!(o, TransferOutcome::Cancelled);
    assert_eq!(ts[1].sent, 7);
    assert_eq!(hist[0].0.status, "cancelled");
    let o = finish_transfer(&mut ts, &mut hist, &mut flags, "t2", &Err("连接失败: refused".to_string()), stamp);
    assert_eq!(o, TransferOutcome::Failed);
    assert_eq!(ts[1].status, "failed");
    assert_eq!(hist.len(), 3);
    let o = finish_transfer(&mut ts, &mut hist, &mut flags, "zz", &Ok(()), stamp);
    assert_eq!(o, TransferOutcome::Completed);
    assert_eq!(hist.len(), 3);
}

#[test]
fn finish_keeps_history_bounded() {
    let mut ts = two_transfers();
    let mut hist: Vec<(HistoryEntry, u64)> =
        (0..200).map(|i| (entry(&i.to_string(), "", "", "sent", 0, "failed", ""), 0)).collect();
    let mut flags: CancelFlags<bool> = CancelFlags::new();
    finish_transfer(&mut ts, &mut hist, &mut flags, "t1", &Ok(()), stamp);
    assert_eq!(hist.len(), 200);
    assert_eq!(hist[0].0.id, "t1");
    assert_eq!(hist[199].0.id, "198");
}

#[test]
fn finish_receive_sets_size() {
    let mut ts = Vec::new();
    let mut hist: Vec<(HistoryEntry, Option<(String, u64)>)> = Vec::new();
    let rec = |t: Option<&TransferState>| t.map(|t| (t.status.clone(), t.sent));
    register_incoming(&mut ts, "r", "peer", "f", 10);
    set_file_hash(&mut ts, "r", "beef");
    ts[0].sent = 3;
    finish_receive(&mut ts, &mut hist, "r", "peer", "f", 12, false, rec);
    assert_eq!((ts[0].status.as_str(), ts[0].total, ts[0].sent), ("failed", 12, 3));
    finish_receive(&mut ts, &mut hist, "r", "peer", "f", 12, true, rec);
    assert_eq!((ts[0].status.as_str(), ts[0].total, ts[0].sent), ("completed", 12, 12));
    finish_receive(&mut ts, &mut hist, "x", "other", "g", 1, true, rec);
    let extras: Vec<_> = hist.iter().map(|h| h.1.clone()).collect();
    assert_eq!(extras, vec![None, Some(("completed".to_string(), 12)), Some(("failed".to_string(), 3))]);
    assert!(same_entry(&hist[0].0, &entry("x", "g", "other", "received", 1, "completed", "")));
    assert!(same_entry(&hist[1].0, &entry("r", "f", "peer", "received", 12, "completed", "beef")));
    assert!(same_entry(&hist[2].0, &entry("r", "f", "peer", "received", 12, "failed", "beef")));
}

#[test]
fn file_hash_is_recorded() {
    let mut ts = two_transfers();
    set_file_hash(&mut ts, "t1", "abcd");
    assert_eq!(ts[0].file_hash, "abcd");
    assert_eq!(ts[1].file_hash, "");
}

#[test]
fn elapsed_is_at_least_one() {
    assert_eq!(elapsed_ms(1500, 1000), 500);
    assert_eq!(elapsed_ms(1000, 1000), 1);
    assert_eq!(elapsed_ms(900, 1000), 1);
}

#[test]
fn history_keeps_newest_first_and_bounded() {
    let mut h: Vec<u32> = Vec::new();
    for i in 0..205u32 {
        push_history(&mut h, i);
        assert!(h.len() <= HISTORY_LIMIT);
    }
    assert_eq!(h.len(), 200);
    assert_eq!(h[0], 204);
    assert_eq!(h[199], 5);
}

#[test]
fn default_settings() {
    let s = AppSettings::default();
    assert!(s.compress && s.bundle && s.notifications_enabled && !s.encrypted);
    assert_eq!(s.port, 8877);
    assert_eq!(s.password, "");
    let mut s2 = s.clone();
    assert!(!needs_restart(&s, &s2));
    s2.port = 9000;
    assert!(needs_restart(&s, &s2));
}

#[test]
fn password_only_when_encrypting() {
    let mut o = SendOptions {
        addr: "1.2.3.4:8877".into(),
        path: "/tmp/x".into(),
        compress: true,
        bundle: false,
        encrypted: false,
        password: "pw".into(),
    };
    assert_eq!(data_password(&o), "");
    o.encrypted = true;
    assert_eq!(data_password(&o), "pw");
}

#[test]
fn discovery_replies_are_deduplicated() {
    let ours = vec!["192.168.1.5".to_string()];
    let mut devs: Vec<DiscoveredDevice> = Vec::new();
    assert!(record_discovery_reply(&mut devs, &ours, "A", "192.168.1.9", Some(9000)));
    assert!(!record_discovery_reply(&mut devs, &ours, "A2", "192.168.1.9", None));
    assert!(!record_discovery_reply(&mut devs, &ours, "me", "192.168.1.5", None));
    assert!(!record_discovery_reply(&mut devs, &ours, "blank", "", None));
    assert!(record_discovery_reply(&mut devs, &ours, "B", "192.168.1.10", None));
    assert!(record_discovery_reply(&mut devs, &ours, "C", "192.168.1.11", Some(65536 + 80)));
    assert_eq!(devs.len(), 3);
    assert_eq!((devs[0].name.as_str(), devs[0].port), ("A", 9000));
    assert_eq!(devs[1].port, 8877);
    assert_eq!(devs[2].port, 80);
}

#[test]
fn probe_recognised() {
    assert!(is_discovery_probe(b"QUICKSHARE_DISCOVER"));
    assert!(!is_discovery_probe(b"QUICKSHARE_DISCOVE"));
    assert!(!is_discovery_probe(b"quickshare_discover"));
}

#[test]
fn cancel_flags_follow_inserts_and_removals() {
    let mut flags = CancelFlags::new();
    assert_eq!(flags.get("a"), None);
    flags.insert("a".to_string(), 1);
    flags.insert("b".to_string(), 2);
    flags.insert("a".to_string(), 3);
    assert_eq!(flags.get("a"), Some(&3));
    assert_eq!(flags.get("b"), Some(&2));
    flags.remove("a");
    assert_eq!(flags.get("a"), None);
    assert_eq!(flags.get("b"), Some(&2));
    flags.remove("zz");
    assert_eq!(flags.get("b"), Some(&2));
}
