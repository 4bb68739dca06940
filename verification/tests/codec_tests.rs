use flashdir::codec::{
    decode_scan_result, encode_scan_result, BinaryPayload, OptimizedScanResult,
};
use flashdir::item::{Item, ScanResult, TimingInfo};

fn sample_result() -> ScanResult {
    ScanResult {
        items: vec![
            Item {
                path: "x".to_string(),
                name: "x".to_string(),
                size: 2048,
                size_formatted: "2.00 KB".to_string(),
                is_dir: false,
            },
            Item {
                path: "sub".to_string(),
                name: "sub".to_string(),
                size: 1024,
                size_formatted: "1.00 KB".to_string(),
                is_dir: true,
            },
        ],
        total_size: 3072,
        total_size_formatted: "3.00 KB".to_string(),
        scan_time_ms: 17,
        path: "/tree".to_string(),
        timing: Some(TimingInfo { scan_phase: 1, compute_phase: 2, format_phase: 3, total: 6 }),
        perf_metrics: None,
    }
}

#[test]
fn codec_round_trip() {
    let original = sample_result();
    let bytes = encode_scan_result(&original);
    let decoded = decode_scan_result(&bytes).expect("the encoding must decode");
    assert_eq!(decoded.path, original.path);
    assert_eq!(decoded.total_size, original.total_size);
    assert_eq!(decoded.total_size_formatted, original.total_size_formatted);
    assert_eq!(decoded.scan_time_ms, original.scan_time_ms);
    assert_eq!(decoded.items.len(), original.items.len());
    for (d, o) in decoded.items.iter().zip(original.items.iter()) {
        assert_eq!(d.path, o.path);
        assert_eq!(d.name, o.name);
        assert_eq!(d.size, o.size);
        assert_eq!(d.size_formatted, o.size_formatted);
        assert_eq!(d.is_dir, o.is_dir);
    }
    let t = decoded.timing.unwrap();
    assert_eq!((t.scan_phase, t.compute_phase, t.format_phase, t.total), (1, 2, 3, 6));
}

#[test]
fn codec_round_trip_without_timing() {
    let mut original = sample_result();
    original.timing = None;
    original.items.clear();
    let bytes = encode_scan_result(&original);
    let decoded = decode_scan_result(&bytes).expect("the encoding must decode");
    assert!(decoded.timing.is_none());
    assert!(decoded.items.is_empty());
}

#[test]
fn codec_round_trip_non_ascii_names() {
    let mut original = sample_result();
    original.items[0].path = "данные/файл".to_string();
    original.items[0].name = "файл".to_string();
    let bytes = encode_scan_result(&original);
    let decoded = decode_scan_result(&bytes).expect("the encoding must decode");
    assert_eq!(decoded.items[0].path, "данные/файл");
}

#[test]
fn codec_rejects_truncated_input() {
    let bytes = encode_scan_result(&sample_result());
    let cut = bytes[..bytes.len() - 1].to_vec();
    assert!(decode_scan_result(&cut).is_none());
}

#[test]
fn codec_rejects_trailing_garbage() {
    let mut bytes = encode_scan_result(&sample_result());
    bytes.push(0);
    assert!(decode_scan_result(&bytes).is_none());
}

#[test]
fn small_payload_ships_raw() {
    let opt = OptimizedScanResult::from_result(&sample_result());
    let payload = BinaryPayload::from_data(&opt, 1024 * 1024);
    assert!(!payload.compressed);
    assert_eq!(payload.data.len(), payload.original_size);
}

#[test]
fn large_repetitive_payload_is_compressed() {
    let mut r = sample_result();
    r.items = (0..5000)
        .map(|i| Item {
            path: format!("dir/file{}", i),
            name: format!("file{}", i),
            size: 1000,
            size_formatted: "1000 B".to_string(),
            is_dir: false,
        })
        .collect();
    let opt = OptimizedScanResult::from_result(&r);
    let payload = BinaryPayload::from_data(&opt, 1024);
    assert!(payload.compressed);
    assert!(payload.original_size > 1024);
    assert!((payload.data.len() as u64) * 10 < (payload.original_size as u64) * 8);
}

#[test]
fn optimized_result_carries_the_scalars() {
    let r = sample_result();
    let opt = OptimizedScanResult::from_result(&r);
    assert_eq!(opt.path, r.path);
    assert_eq!(opt.total_size, r.total_size);
    assert_eq!(opt.item_count, 2);
    assert!(opt.has_timing);
    assert_eq!(opt.timing_total_ms, 6);
    assert!(!opt.items_data.is_empty());
}
