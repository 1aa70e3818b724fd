use fault_tolerant_telemetry::encoding::{
    crc32_checksum, float_bits_eq, push_decimal, push_decimal_text,
};
use fault_tolerant_telemetry::telemetry::{
    ChannelStats, Quality, TelemetryBuffer, TelemetryChannel, TelemetryFrame,
};

fn reference_crc32(data: &[u8]) -> u32 {
    let mut crc: u32 = !0;
    for &byte in data {
        crc ^= byte as u32;
        for _ in 0..8 {
            crc = if crc & 1 == 1 { (crc >> 1) ^ 0xEDB8_8320 } else { crc >> 1 };
        }
    }
    !crc
}

fn reference_checksum(source: &str, ts: u64, seq: u64, value: f64) -> u32 {
    let data = format!("{}{}{}{}", source, ts, seq, value.to_bits());
    reference_crc32(data.as_bytes())
}

fn frame(source: &str, ts: u64, seq: u64, channel: TelemetryChannel, value: f64) -> TelemetryFrame {
    TelemetryFrame::from_parts(uuid::Uuid::nil(), source.to_string(), ts, seq, channel, value.to_bits())
}

#[test]
fn float_equality_on_bits() {
    let values = [0.0f64, -0.0, 1.25, -3.5, f64::INFINITY, f64::NEG_INFINITY, f64::NAN, 5e-324];
    for a in values {
        for b in values {
            assert_eq!(float_bits_eq(a.to_bits(), b.to_bits()), a == b, "{:?} {:?}", a, b);
        }
    }
}

#[test]
fn decimal_rendering() {
    for n in [0u64, 7, 10, 99, 100, 1234567890, u64::MAX] {
        let mut out = vec![b'x'];
        push_decimal(&mut out, n);
        assert_eq!(out, format!("x{}", n).into_bytes());
    }
}

#[test]
fn decimal_text_rendering() {
    for n in [0u64, 9, 10, 4096, u64::MAX] {
        let mut out = String::from("n=");
        push_decimal_text(&mut out, n);
        assert_eq!(out, format!("n={}", n));
    }
}

#[test]
fn crc32_known_values() {
    assert_eq!(crc32_checksum(b""), 0);
    assert_eq!(crc32_checksum(b"a"), 0xe8b7be43);
    assert_eq!(crc32_checksum(b"123456789"), 0xcbf43926);
    assert_eq!(crc32_checksum(b"falcon9"), reference_crc32(b"falcon9"));
}

#[test]
fn checksum_matches_reference() {
    let cases: [(&str, u64, u64, f64); 5] = [
        ("falcon9-s1", 1_700_000_000_000_000, 42, 3000.0),
        ("falcon9-stage1", 0, 0, -220.0),
        ("naïve-sensor", 12, 3, 810_000.7),
        ("", 1, 2, 0.03),
        ("x", u64::MAX, u64::MAX, f64::NAN),
    ];
    for (source, ts, seq, value) in cases {
        let f = frame(source, ts, seq, TelemetryChannel::AltitudeM, value);
        assert_eq!(f.compute_checksum(), reference_checksum(source, ts, seq, value));
        assert_eq!(f.checksum, reference_checksum(source, ts, seq, value));
        assert!(f.verify_checksum());
        assert_eq!(f.quality, Quality::Good);
    }
}

#[test]
fn tampered_frame_fails_verification() {
    let mut f = frame("falcon9-s1", 100, 7, TelemetryChannel::ThrustN, 810_000.0);
    assert!(f.verify_checksum());
    f.sequence_num = 8;
    assert!(!f.verify_checksum());
    let mut g = frame("falcon9-s1", 100, 7, TelemetryChannel::ThrustN, 810_000.0);
    g.checksum ^= 1;
    assert!(!g.verify_checksum());
}

#[test]
fn corrupted_value_fails_verification() {
    let f = frame("a", 1, 1, TelemetryChannel::AltitudeM, 1.25);
    let mut g = f.clone();
    g.value_bits = 1.75f64.to_bits();
    assert_ne!(g.compute_checksum(), f.compute_checksum());
    assert!(!g.verify_checksum());
    let mut h = f.clone();
    h.value_bits ^= 1;
    assert!(!h.verify_checksum());
}

#[test]
fn frames_compare_values_as_doubles() {
    let f = frame("a", 1, 1, TelemetryChannel::AltitudeM, 0.0);
    let mut g = f.clone();
    g.value_bits = (-0.0f64).to_bits();
    assert!(f == g);
    let n = frame("a", 1, 1, TelemetryChannel::AltitudeM, f64::NAN);
    assert!(n != n.clone());
    let mut other = f.clone();
    other.sequence_num = 2;
    assert!(f != other);
}

#[test]
fn quality_is_outside_the_checksum() {
    let f = frame("falcon9-s1", 5, 1, TelemetryChannel::PropellantKg, 8500.0);
    let checksum = f.checksum;
    let g = f.with_quality(Quality::Degraded);
    assert_eq!(g.quality, Quality::Degraded);
    assert_eq!(g.checksum, checksum);
    assert!(g.verify_checksum());
}

#[test]
fn new_frame_is_checksummed() {
    let f = TelemetryFrame::new("falcon9-s1", 9, TelemetryChannel::EngineTemp, 451.5f64.to_bits());
    assert!(f.verify_checksum());
    assert_eq!(f.source_id, "falcon9-s1");
    assert_eq!(f.sequence_num, 9);
    assert_eq!(f.channel, TelemetryChannel::EngineTemp);
    assert_eq!(f.value_bits, 451.5f64.to_bits());
    assert_eq!(f.quality, Quality::Good);
    assert_eq!(f.checksum, reference_checksum("falcon9-s1", f.timestamp_us, 9, 451.5));
}

#[test]
fn channel_identity() {
    let a = TelemetryChannel::Custom("lox".to_string());
    assert!(a.same_channel(&TelemetryChannel::Custom("lox".to_string())));
    assert!(!a.same_channel(&TelemetryChannel::Custom("rp1".to_string())));
    assert!(!a.same_channel(&TelemetryChannel::CpuLoad));
    assert!(TelemetryChannel::AltitudeM.same_channel(&TelemetryChannel::AltitudeM));
    assert!(!TelemetryChannel::AltitudeM.same_channel(&TelemetryChannel::ThrustN));
    assert_eq!(TelemetryChannel::CpuLoad.kind_index(), 9);
    assert_eq!(a.clone(), a);
}

#[test]
fn channel_stats_update() {
    let mut s = ChannelStats::new(TelemetryChannel::BatteryVoltage);
    assert_eq!(s.count, 0);
    assert_eq!(s.last_value_bits, 0.0f64.to_bits());
    s.update(&frame("b", 10, 1, TelemetryChannel::BatteryVoltage, 28.0));
    s.update(&frame("b", 20, 2, TelemetryChannel::BatteryVoltage, 27.5).with_quality(Quality::Bad));
    s.update(&frame("b", 30, 3, TelemetryChannel::BatteryVoltage, 27.0).with_quality(Quality::Degraded));
    assert_eq!(s.count, 3);
    assert_eq!(s.bad_count, 1);
    assert_eq!(s.last_ts_us, 30);
    assert_eq!(s.last_value_bits, 27.0f64.to_bits());
    assert_eq!(s.channel, TelemetryChannel::BatteryVoltage);
}

#[test]
fn buffer_keeps_latest_frames() {
    let mut b = TelemetryBuffer::new(3);
    assert!(b.is_empty());
    for seq in 0..5u64 {
        b.push(frame("s", seq, seq, TelemetryChannel::AltitudeM, seq as f64));
    }
    assert_eq!(b.len(), 3);
    let recent: Vec<u64> = b.recent(2).iter().map(|f| f.sequence_num).collect();
    assert_eq!(recent, vec![3, 4]);
    let all: Vec<u64> = b.recent(10).iter().map(|f| f.sequence_num).collect();
    assert_eq!(all, vec![2, 3, 4]);
    assert!(b.recent(0).is_empty());
}

#[test]
fn buffer_of_capacity_zero_keeps_nothing() {
    let mut b = TelemetryBuffer::new(0);
    b.push(frame("s", 1, 1, TelemetryChannel::CpuLoad, 0.5));
    b.push(frame("s", 2, 2, TelemetryChannel::CpuLoad, 0.6));
    assert_eq!(b.len(), 0);
    assert!(b.is_empty());
    assert!(b.recent(5).is_empty());
    assert_eq!(b.stats().len(), 1);
    assert_eq!(b.stats()[0].count, 0);
}

#[test]
fn buffer_keeps_a_window_per_channel() {
    let mut b = TelemetryBuffer::new(2);
    b.push(frame("x", 0, 0, TelemetryChannel::AltitudeM, 1.0));
    b.push(frame("x", 1, 1, TelemetryChannel::AltitudeM, 2.0));
    b.push(frame("x", 2, 2, TelemetryChannel::ThrustN, 3.0));
    assert_eq!(b.len(), 3);
    let seqs: Vec<u64> = b.recent(3).iter().map(|f| f.sequence_num).collect();
    assert_eq!(seqs, vec![0, 1, 2]);
    b.push(frame("x", 3, 3, TelemetryChannel::AltitudeM, 4.0));
    let seqs: Vec<u64> = b.recent(10).iter().map(|f| f.sequence_num).collect();
    assert_eq!(seqs, vec![1, 2, 3]);
}

#[test]
fn stats_cover_the_frames_held() {
    let mut b = TelemetryBuffer::new(1);
    b.push(frame("x", 0, 0, TelemetryChannel::AltitudeM, 1.0).with_quality(Quality::Bad));
    b.push(frame("x", 1, 1, TelemetryChannel::AltitudeM, 3.0));
    let stats = b.stats();
    assert_eq!(stats.len(), 1);
    assert_eq!(stats[0].count, 1);
    assert_eq!(stats[0].bad_count, 0);
    assert_eq!(stats[0].last_value_bits, 3.0f64.to_bits());
    assert_eq!(stats[0].last_ts_us, 1);
}

#[test]
fn buffer_stats_per_channel() {
    let mut b = TelemetryBuffer::new(2);
    b.push(frame("s", 1, 1, TelemetryChannel::AltitudeM, 1.0));
    b.push(frame("s", 2, 2, TelemetryChannel::Custom("lox".to_string()), 2.0));
    b.push(frame("s", 3, 3, TelemetryChannel::AltitudeM, 3.0).with_quality(Quality::Bad));
    b.push(frame("s", 4, 4, TelemetryChannel::AltitudeM, 4.0));
    b.push(frame("s", 5, 5, TelemetryChannel::Custom("lox".to_string()), 5.0));
    let stats = b.stats();
    assert_eq!(stats.len(), 2);
    assert_eq!(stats[0].channel, TelemetryChannel::AltitudeM);
    assert_eq!(stats[0].count, 2);
    assert_eq!(stats[0].bad_count, 1);
    assert_eq!(stats[0].last_ts_us, 4);
    assert_eq!(stats[1].channel, TelemetryChannel::Custom("lox".to_string()));
    assert_eq!(stats[1].count, 2);
    assert_eq!(stats[1].last_value_bits, 5.0f64.to_bits());
    assert_eq!(b.len(), 4);
    let seqs: Vec<u64> = b.recent(10).iter().map(|f| f.sequence_num).collect();
    assert_eq!(seqs, vec![2, 3, 4, 5]);
}
