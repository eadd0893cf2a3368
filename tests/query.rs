use strymon_pubsub::query::{QueryId, QueryParams};

fn params(hosts: &[&str]) -> QueryParams {
    QueryParams {
        id: QueryId(42),
        threads: 4,
        processes: 3,
        hostlist: hosts.iter().map(|h| h.to_string()).collect(),
    }
}

#[test]
fn query_id_from_integer() {
    assert_eq!(QueryId::from(7u64), QueryId(7));
    assert_eq!(QueryId::from(u64::MAX).0, u64::MAX);
}

#[test]
fn query_id_orders_by_value() {
    assert!(QueryId(1) < QueryId(2));
    assert_eq!(QueryId(5), QueryId(5));
}

#[test]
fn query_id_encodes_little_endian() {
    let mut out = vec![0xaa];
    QueryId(0x0102_0304_0506_0708).encode(&mut out);
    assert_eq!(out, vec![0xaa, 8, 7, 6, 5, 4, 3, 2, 1]);
}

#[test]
fn query_id_round_trip() {
    for v in [0u64, 1, 255, 256, 0x8000_0000_0000_0000, u64::MAX] {
        let mut out = Vec::new();
        QueryId(v).encode(&mut out);
        out.extend_from_slice(&[9, 9]);
        assert_eq!(QueryId::decode(&out), Some((QueryId(v), 8)));
    }
}

#[test]
fn query_id_decode_short_input() {
    assert_eq!(QueryId::decode(&[1, 2, 3, 4, 5, 6, 7]), None);
    assert_eq!(QueryId::decode(&[]), None);
}

#[test]
fn query_params_exact_bytes() {
    let mut out = Vec::new();
    params(&["ab"]).encode(&mut out);
    let mut expected = vec![42, 0, 0, 0, 0, 0, 0, 0];
    expected.extend_from_slice(&[4, 0, 0, 0, 0, 0, 0, 0]);
    expected.extend_from_slice(&[3, 0, 0, 0, 0, 0, 0, 0]);
    expected.extend_from_slice(&[1, 0, 0, 0, 0, 0, 0, 0]);
    expected.extend_from_slice(&[2, 0, 0, 0, 0, 0, 0, 0]);
    expected.extend_from_slice(b"ab");
    assert_eq!(out, expected);
}

#[test]
fn query_params_round_trip() {
    let p = QueryParams {
        id: QueryId(u64::MAX),
        threads: usize::MAX,
        processes: 0,
        hostlist: vec!["node-1".to_string(), "bêta.example".to_string(), String::new()],
    };
    let mut out = Vec::new();
    p.encode(&mut out);
    let len = out.len();
    out.push(0xff);
    let (q, used) = QueryParams::decode(&out).unwrap();
    assert_eq!(used, len);
    assert_eq!(q.id, p.id);
    assert_eq!(q.threads, p.threads);
    assert_eq!(q.processes, p.processes);
    assert_eq!(q.hostlist, p.hostlist);
}

#[test]
fn query_params_round_trip_empty_hostlist() {
    let p = params(&[]);
    let mut out = Vec::new();
    p.encode(&mut out);
    assert_eq!(out.len(), 32);
    let (q, used) = QueryParams::decode(&out).unwrap();
    assert_eq!(used, 32);
    assert!(q.hostlist.is_empty());
    assert_eq!(q.id, QueryId(42));
}

#[test]
fn query_params_decode_truncated() {
    let mut out = Vec::new();
    params(&["alpha", "beta"]).encode(&mut out);
    for cut in [0, 7, 31, 32, 40, out.len() - 1] {
        assert!(QueryParams::decode(&out[..cut]).is_none());
    }
}

#[test]
fn query_params_decode_invalid_utf8() {
    let mut out = Vec::new();
    params(&["ab"]).encode(&mut out);
    let n = out.len();
    out[n - 1] = 0xff;
    assert!(QueryParams::decode(&out).is_none());
}

#[test]
fn query_params_decode_keeps_host_text() {
    let mut bytes = vec![1, 0, 0, 0, 0, 0, 0, 0];
    bytes.extend_from_slice(&[2, 0, 0, 0, 0, 0, 0, 0]);
    bytes.extend_from_slice(&[3, 0, 0, 0, 0, 0, 0, 0]);
    bytes.extend_from_slice(&[1, 0, 0, 0, 0, 0, 0, 0]);
    bytes.extend_from_slice(&[3, 0, 0, 0, 0, 0, 0, 0]);
    bytes.extend_from_slice("xé".as_bytes());
    let (q, used) = QueryParams::decode(&bytes).unwrap();
    assert_eq!(used, bytes.len());
    assert_eq!(q.id, QueryId(1));
    assert_eq!(q.threads, 2);
    assert_eq!(q.processes, 3);
    assert_eq!(q.hostlist, vec!["xé".to_string()]);
}
