use kiwi_store::{
    on_upstream_event, IngestAction, UpstreamEvent,
    classify_phase, delete_flight, deserialize_key, deserialize_value, flight_id_for, flight_key,
    keys_with_prefix, max_flight_number, parse_usize, serialize_key, serialize_value, starts_with,
    telem_key, telem_prefix, BorrowedEntry, DeserializationError, FlightSummary,
    FlightTracker, Key, Phase, PhaseSignals, Store, StoreError, TelemetryPacket, Value,
    HEADER_SIZE, PACKET_SIZE,
};

fn int_record(v: i64) -> Vec<u8> {
    let payload = v.to_le_bytes().to_vec();
    let mut out = Vec::new();
    out.extend_from_slice(&(payload.len() as u64).to_le_bytes());
    out.extend_from_slice(&crc32fast::hash(&payload).to_le_bytes());
    out.push(2);
    out.extend_from_slice(&payload);
    out
}

#[test]
fn int_record_layout_is_exact() {
    assert_eq!(serialize_value(&Value::Int(-5)), int_record(-5));
    assert_eq!(serialize_value(&Value::Int(1)).len(), 21);
}

#[test]
fn text_record_layout_is_exact() {
    let s = serialize_value(&Value::String("héllo".into()));
    let mut payload = Vec::new();
    payload.extend_from_slice(&6u64.to_le_bytes());
    payload.extend_from_slice("héllo".as_bytes());
    assert_eq!(&s[0..8], &(payload.len() as u64).to_le_bytes());
    assert_eq!(&s[8..12], &crc32fast::hash(&payload).to_le_bytes());
    assert_eq!(s[12], 1);
    assert_eq!(&s[HEADER_SIZE..], &payload[..]);
}

#[test]
fn record_round_trip_ignores_trailing_bytes() {
    let mut s = serialize_value(&Value::String("héllo".into()));
    let n = s.len();
    s.extend_from_slice(&[9, 9, 9]);
    let (e, used) = deserialize_value(&s).unwrap();
    assert_eq!(e, BorrowedEntry::Text("héllo"));
    assert_eq!(used, n);
    let min_record = serialize_value(&Value::Int(i64::MIN));
    let (e2, used2) = deserialize_value(&min_record).unwrap();
    assert_eq!(e2, BorrowedEntry::Int(i64::MIN));
    assert_eq!(used2, 21);
}

#[test]
fn checksum_mismatch_on_first_payload_byte() {
    let mut s = serialize_value(&Value::String("hello".into()));
    s[13] ^= 0x01;
    match deserialize_value(&s) {
        Err(DeserializationError::ChecksumMismatch { expected, actual }) => assert_ne!(expected, actual),
        other => panic!("unexpected {:?}", other),
    }
}

#[test]
fn every_single_bit_flip_in_payload_is_caught() {
    let s = serialize_value(&Value::String("abc".into()));
    for byte in HEADER_SIZE..s.len() {
        for bit in 0..8 {
            let mut t = s.clone();
            t[byte] ^= 1 << bit;
            assert!(matches!(deserialize_value(&t), Err(DeserializationError::ChecksumMismatch { .. })));
        }
    }
}

#[test]
fn short_buffers_are_reported() {
    assert!(matches!(
        deserialize_value(&[0u8; 5]),
        Err(DeserializationError::BufferTooShort { expected: 13, actual: 5 })
    ));
    let s = serialize_value(&Value::Int(3));
    assert!(matches!(
        deserialize_value(&s[..20]),
        Err(DeserializationError::BufferTooShort { expected: 21, actual: 20 })
    ));
}

#[test]
fn unknown_tag_and_bad_utf8_are_reported() {
    let mut s = int_record(7);
    s[12] = 9;
    assert!(matches!(deserialize_value(&s), Err(DeserializationError::UnknownTag(9))));

    let mut payload = Vec::new();
    payload.extend_from_slice(&2u64.to_le_bytes());
    payload.extend_from_slice(&[0xff, 0xfe]);
    let mut r = Vec::new();
    r.extend_from_slice(&(payload.len() as u64).to_le_bytes());
    r.extend_from_slice(&crc32fast::hash(&payload).to_le_bytes());
    r.push(1);
    r.extend_from_slice(&payload);
    assert!(matches!(deserialize_value(&r), Err(DeserializationError::InvalidUtf8)));
}

#[test]
fn key_round_trip_and_layout() {
    let k = Key::String("flight:flight_001".into());
    let b = serialize_key(&k);
    assert_eq!(b[0], 1);
    assert_eq!(&b[1..9], &17u64.to_le_bytes());
    assert_eq!(deserialize_key(&b).unwrap(), (k, 26));
    let b2 = serialize_key(&Key::Int(-2));
    assert_eq!(b2.len(), 9);
    assert_eq!(deserialize_key(&b2).unwrap(), (Key::Int(-2), 9));
    assert!(matches!(deserialize_key(&[]), Err(DeserializationError::BufferTooShort { expected: 1, actual: 0 })));
    assert!(matches!(deserialize_key(&[7]), Err(DeserializationError::UnknownTag(7))));
}

#[test]
fn compaction_reclaims_exactly_the_garbage() -> Result<(), StoreError> {
    let mut store = Store::new();
    store.put(Key::String("K1".into()), Value::Int(1));
    store.put(Key::String("K2".into()), Value::Int(2));
    store.put(Key::String("K3".into()), Value::Int(3));
    store.put(Key::String("K1".into()), Value::Int(100));
    store.delete(&Key::String("K2".into()))?;
    assert_eq!(store.data_len(), 84);
    assert_eq!(store.live_bytes(), 42);
    assert!(store.needs_compaction());
    assert_eq!(store.compact()?, 42);
    assert_eq!(store.data_len(), 42);
    assert_eq!(store.live_bytes(), 42);
    assert_eq!(store.get(&Key::String("K1".into()))?, BorrowedEntry::Int(100));
    assert_eq!(store.get(&Key::String("K3".into()))?, BorrowedEntry::Int(3));
    assert!(matches!(store.get(&Key::String("K2".into())), Err(StoreError::KeyNotFound(_))));
    Ok(())
}

#[test]
fn get_after_put_and_delete_keeps_others() -> Result<(), StoreError> {
    let mut store = Store::new();
    store.put(Key::Int(1), Value::String("one".into()));
    store.put(Key::Int(2), Value::String("two".into()));
    store.delete(&Key::Int(1))?;
    assert!(matches!(store.get(&Key::Int(1)), Err(StoreError::KeyNotFound(Key::Int(1)))));
    assert_eq!(store.get(&Key::Int(2))?, BorrowedEntry::Text("two"));
    assert_eq!(store.len(), 1);
    Ok(())
}

#[test]
fn buffer_walk_sees_garbage_records() {
    let mut store = Store::new();
    store.put(Key::Int(1), Value::Int(10));
    store.put(Key::Int(1), Value::Int(20));
    let mut it = store.buffer_iter();
    let mut seen = Vec::new();
    while let Some(e) = it.next() {
        seen.push(e.unwrap());
    }
    assert_eq!(seen, vec![BorrowedEntry::Int(10), BorrowedEntry::Int(20)]);
}

#[test]
fn buffer_walk_stops_after_an_error() {
    let mut data = serialize_value(&Value::Int(1));
    data.extend_from_slice(&[1, 2, 3]);
    let mut meta = Vec::new();
    meta.extend_from_slice(&1u32.to_le_bytes());
    meta.extend_from_slice(&crc32fast::hash(&[]).to_le_bytes());
    meta.extend_from_slice(&crc32fast::hash(&data).to_le_bytes());
    meta.extend_from_slice(&0u64.to_le_bytes());
    let store = Store::from_snapshot(None, &meta, &[], data).unwrap();
    let mut it = store.buffer_iter();
    assert!(matches!(it.next(), Some(Ok(BorrowedEntry::Int(1)))));
    assert!(matches!(
        it.next(),
        Some(Err(StoreError::InvalidData { cause: DeserializationError::BufferTooShort { expected: 13, actual: 3 } }))
    ));
    assert!(it.next().is_none());
}

#[test]
fn snapshot_round_trip_restores_the_mapping() -> Result<(), StoreError> {
    let mut store = Store::new();
    store.put(Key::String("key1".into()), Value::Int(42));
    store.put(Key::Int(100), Value::String("test".into()));
    let snap = store.snapshot()?;
    assert_eq!(snap.meta.len(), 20);
    assert_eq!(&snap.meta[0..4], &1u32.to_le_bytes());
    assert_eq!(&snap.meta[4..8], &crc32fast::hash(&snap.keys).to_le_bytes());
    assert_eq!(&snap.meta[12..20], &2u64.to_le_bytes());
    let loaded = Store::from_snapshot(Some("base".into()), &snap.meta, &snap.keys, snap.data.clone())?;
    assert_eq!(loaded.get(&Key::String("key1".into()))?, BorrowedEntry::Int(42));
    assert_eq!(loaded.get(&Key::Int(100))?, BorrowedEntry::Text("test"));
    assert_eq!(loaded.len(), 2);
    assert_eq!(loaded.path().map(|p| p.as_str()), Some("base"));
    Ok(())
}

#[test]
fn snapshot_compacts_a_fragmented_store() -> Result<(), StoreError> {
    let mut store = Store::new();
    store.put(Key::Int(1), Value::Int(1));
    store.put(Key::Int(1), Value::Int(2));
    store.put(Key::Int(1), Value::Int(3));
    let snap = store.snapshot()?;
    assert_eq!(snap.data.len(), 21);
    assert_eq!(store.data_len(), 21);
    Ok(())
}

#[test]
fn snapshot_load_errors() {
    let mut store = Store::new();
    store.put(Key::Int(1), Value::Int(1));
    let snap = store.snapshot().unwrap();

    let r = Store::from_snapshot(None, &snap.meta[..10], &snap.keys, snap.data.clone());
    assert!(matches!(r, Err(StoreError::InvalidData { cause: DeserializationError::BufferTooShort { expected: 20, actual: 10 } })));

    let mut meta = snap.meta.clone();
    meta[0] = 2;
    assert!(matches!(Store::from_snapshot(None, &meta, &snap.keys, snap.data.clone()), Err(StoreError::UnsupportedVersion(2))));

    let mut keys = snap.keys.clone();
    keys[5] ^= 1;
    assert!(matches!(Store::from_snapshot(None, &snap.meta, &keys, snap.data.clone()), Err(StoreError::FileCorrupted)));

    let mut data = snap.data.clone();
    data[0] ^= 1;
    assert!(matches!(Store::from_snapshot(None, &snap.meta, &snap.keys, data), Err(StoreError::FileCorrupted)));

    let mut meta2 = snap.meta.clone();
    meta2[12] = 5;
    assert!(matches!(Store::from_snapshot(None, &meta2, &snap.keys, snap.data.clone()), Err(StoreError::FileCorrupted)));

    let short_keys = snap.keys[..snap.keys.len() - 1].to_vec();
    let mut meta3 = snap.meta.clone();
    meta3[4..8].copy_from_slice(&crc32fast::hash(&short_keys).to_le_bytes());
    assert!(matches!(
        Store::from_snapshot(None, &meta3, &short_keys, snap.data.clone()),
        Err(StoreError::InvalidData { cause: DeserializationError::BufferTooShort { .. } })
    ));
}

#[test]
fn with_path_without_files_is_empty() {
    let store = Store::with_path("telemetry_data".into(), None).unwrap();
    assert_eq!(store.len(), 0);
    assert_eq!(store.path().map(|p| p.as_str()), Some("telemetry_data"));
}

#[test]
fn snapshot_paths_replace_the_extension() {
    assert_eq!(Store::keys_path("telemetry_data"), "telemetry_data.keys");
    assert_eq!(Store::data_path("/tmp/store"), "/tmp/store.data");
    assert_eq!(Store::meta_path("/tmp/a.b"), "/tmp/a.meta");
}

fn sample_packet() -> TelemetryPacket {
    TelemetryPacket {
        latitude_bits: 49.8728f64.to_bits(),
        longitude_bits: 8.6512f64.to_bits(),
        altitude_gps_bits: 20.0f32.to_bits(),
        ground_speed_bits: 25.0f32.to_bits(),
        heading_bits: 90.0f32.to_bits(),
        num_satellites: 9,
        gps_fix_type: 3,
        altitude_baro_bits: 19.5f32.to_bits(),
        vertical_speed_bits: 1.5f32.to_bits(),
        temperature_bits: 21.0f32.to_bits(),
        roll_bits: 0.1f32.to_bits(),
        pitch_bits: 0.2f32.to_bits(),
        yaw_bits: 0.3f32.to_bits(),
        gyro_x_bits: 1.0f32.to_bits(),
        gyro_y_bits: 2.0f32.to_bits(),
        gyro_z_bits: 3.0f32.to_bits(),
        accel_x_bits: 4.0f32.to_bits(),
        accel_y_bits: 5.0f32.to_bits(),
        accel_z_bits: 9.81f32.to_bits(),
        battery_voltage_bits: 16.8f32.to_bits(),
        battery_current_bits: 2.5f32.to_bits(),
        battery_power_bits: 42.0f32.to_bits(),
        battery_mah_used_bits: 120.0f32.to_bits(),
        rssi: -87,
        snr_bits: 7.5f32.to_bits(),
        timestamp: 123_456_789,
        packet_sequence: 77,
        system_status: 1,
    }
}

#[test]
fn frame_round_trip_and_layout() {
    let p = sample_packet();
    let b = p.to_bytes();
    assert_eq!(b.len(), PACKET_SIZE);
    assert_eq!(&b[0..8], &49.8728f64.to_le_bytes());
    assert_eq!(&b[94..96], &(-87i16).to_le_bytes());
    assert_eq!(&b[100..108], &123_456_789u64.to_le_bytes());
    assert_eq!(b[112], 1);
    assert_eq!(TelemetryPacket::from_bytes(&b), Ok(p));
    let mut longer = b.clone();
    longer.push(0xAA);
    assert_eq!(TelemetryPacket::from_bytes(&longer), Ok(p));
    assert!(TelemetryPacket::from_bytes(&b[..112]).is_err());
}

fn signals(alt_baro: f32, ground_speed: f32, vertical_speed: f32) -> PhaseSignals {
    PhaseSignals {
        on_ground: alt_baro < 2.0,
        moving: ground_speed >= 3.0,
        climbing: vertical_speed > 0.8,
        descending: vertical_speed < -0.8,
        below_20m: alt_baro < 20.0,
        above_20m: alt_baro > 20.0,
        below_cruise: alt_baro < 140.0,
        at_cruise: alt_baro >= 140.0,
    }
}

#[test]
fn phases_follow_the_rule_order() {
    assert_eq!(classify_phase(&signals(0.0, 0.0, 0.0)), Phase::OnGround);
    assert_eq!(classify_phase(&signals(1.0, 5.0, 0.0)), Phase::TakingOff);
    assert_eq!(classify_phase(&signals(10.0, 20.0, -2.0)), Phase::Landing);
    assert_eq!(classify_phase(&signals(50.0, 20.0, 2.0)), Phase::Ascent);
    assert_eq!(classify_phase(&signals(150.0, 20.0, 0.0)), Phase::Cruise);
    assert_eq!(classify_phase(&signals(100.0, 20.0, -2.0)), Phase::Descent);
    assert_eq!(classify_phase(&signals(150.0, 20.0, 2.0)), Phase::Ascent);
    assert_eq!(classify_phase(&signals(60.0, 20.0, 0.0)), Phase::Cruise);
    assert_eq!(classify_phase(&signals(f32::NAN, 0.0, 0.0)), Phase::Cruise);
    let names: Vec<&str> = [Phase::OnGround, Phase::TakingOff, Phase::Ascent, Phase::Cruise, Phase::Descent, Phase::Landing]
        .iter()
        .map(|p| p.name())
        .collect();
    assert_eq!(names, vec!["On Ground", "Taking Off", "Ascent", "Cruise", "Descent", "Landing"]);
}

#[test]
fn names_and_numbers() {
    assert_eq!(flight_id_for(1), "flight_001");
    assert_eq!(flight_id_for(42), "flight_042");
    assert_eq!(flight_id_for(1234), "flight_1234");
    assert_eq!(flight_key("flight_001"), "flight:flight_001");
    assert_eq!(telem_prefix("flight_001"), "telem:flight_001:");
    assert_eq!(telem_key("flight_001", 1500), "telem:flight_001:1500");
    assert_eq!(telem_key("f", 0), "telem:f:0");
    assert!(starts_with("flight:flight_7", "flight:"));
    assert!(!starts_with("telem:", "flight:"));
    assert_eq!(parse_usize("007"), Some(7));
    assert_eq!(parse_usize("+12"), Some(12));
    assert_eq!(parse_usize(""), None);
    assert_eq!(parse_usize("+"), None);
    assert_eq!(parse_usize("1a"), None);
    assert_eq!(parse_usize("-1"), None);
    assert_eq!(parse_usize("99999999999999999999999"), None);
    assert_eq!(parse_usize(&usize::MAX.to_string()), Some(usize::MAX));
}

#[test]
fn flight_numbers_come_from_live_keys() {
    let mut store = Store::new();
    assert_eq!(max_flight_number(&store), 0);
    store.put(Key::String("flight:flight_003".into()), Value::Int(0));
    store.put(Key::String("flight:flight_x".into()), Value::Int(0));
    store.put(Key::String("telem:flight_009:1".into()), Value::Int(0));
    assert_eq!(max_flight_number(&store), 3);
    let keys = keys_with_prefix(&store, "flight:");
    assert_eq!(keys.len(), 2);
}

fn feed(t: &mut FlightTracker, ts: u64, alt: f32, speed: f32) -> kiwi_store::Step {
    let on_ground = alt <= 5.0 && speed <= 2.0;
    let step = t.observe(ts, on_ground);
    if let Some(id) = &step.started {
        let key = Key::String(flight_key(id));
        t.store.put(key, Value::String(format!("{{\"flight_id\":\"{}\"}}", id)));
    }
    step
}

#[test]
fn takeoff_opens_first_flight() {
    let mut t = FlightTracker::new(Store::new());
    assert!(feed(&mut t, 0, 0.0, 0.0).current.is_none());
    assert!(feed(&mut t, 500, 0.0, 0.0).current.is_none());
    assert!(keys_with_prefix(&t.store, "flight:").is_empty());
    let c = feed(&mut t, 1000, 20.0, 25.0);
    assert_eq!(c.started.as_deref(), Some("flight_001"));
    assert_eq!(c.current.as_deref(), Some("flight_001"));
    assert!(!c.accumulate);
    assert_eq!(keys_with_prefix(&t.store, "flight:").len(), 1);
    let mut summary = FlightSummary::begin("flight_001".into(), 1000, "Ascent");
    summary.record(1000, "Ascent");
    assert_eq!(summary.start_time, 1000);
    assert_eq!(summary.packet_count, 1);
}

#[test]
fn landing_is_confirmed_after_five_seconds() {
    let mut t = FlightTracker::new(Store::new());
    feed(&mut t, 0, 0.0, 0.0);
    feed(&mut t, 500, 0.0, 0.0);
    feed(&mut t, 1000, 20.0, 25.0);
    let d = feed(&mut t, 1500, 15.0, 5.0);
    assert!(d.accumulate && d.landed.is_none());
    let e = feed(&mut t, 2000, 0.0, 0.0);
    assert!(e.landed.is_none());
    assert_eq!(e.current.as_deref(), Some("flight_001"));
    assert!(feed(&mut t, 4000, 0.0, 0.0).landed.is_none());
    assert!(feed(&mut t, 6000, 0.0, 0.0).landed.is_none());
    let h = feed(&mut t, 7500, 0.0, 0.0);
    assert_eq!(h.landed.as_deref(), Some("flight_001"));
    assert!(h.current.is_none());
    assert!(t.get_current_flight_id().is_none());
    let mut summary = FlightSummary::begin("flight_001".into(), 1000, "Ascent");
    summary.land();
    assert_eq!(summary.current_status, "Landed");
    assert!(summary.ended_normally);
}

#[test]
fn silence_closes_the_flight_catastrophically() {
    let mut t = FlightTracker::new(Store::new());
    feed(&mut t, 0, 0.0, 0.0);
    feed(&mut t, 1000, 20.0, 25.0);
    let s = feed(&mut t, 62_000, 0.0, 0.0);
    assert_eq!(s.aborted.as_deref(), Some("flight_001"));
    assert!(s.started.is_none());
    assert!(s.current.is_none());
    let again = feed(&mut t, 62_500, 30.0, 20.0);
    assert_eq!(again.started.as_deref(), Some("flight_002"));
    let mut summary = FlightSummary::begin("flight_001".into(), 1000, "Ascent");
    summary.abort();
    assert!(!summary.ended_normally);
    assert_eq!(summary.current_status, "Ascent");
}

#[test]
fn silence_then_airborne_frame_opens_a_new_flight_at_once() {
    let mut t = FlightTracker::new(Store::new());
    feed(&mut t, 0, 0.0, 0.0);
    feed(&mut t, 1000, 20.0, 25.0);
    let s = feed(&mut t, 61_001 + 1000, 40.0, 25.0);
    assert_eq!(s.aborted.as_deref(), Some("flight_001"));
    assert_eq!(s.started.as_deref(), Some("flight_002"));
}

#[test]
fn summary_counts_and_duration() {
    let mut s = FlightSummary::begin("flight_004".into(), 1000, "Taking Off");
    s.record(3500, "Ascent");
    s.record(12_999, "Cruise");
    assert_eq!(s.packet_count, 2);
    assert_eq!(s.end_time, 12_999);
    assert_eq!(s.duration_secs, 11);
    assert_eq!(s.current_status, "Cruise");
    s.record(500, "Cruise");
    assert_eq!(s.end_time, 1000);
    assert_eq!(s.duration_secs, 0);
    assert_eq!(s.packet_count, 3);
}

#[test]
fn deleting_a_flight_removes_its_keys() -> Result<(), StoreError> {
    let mut store = Store::new();
    store.put(Key::String("flight:flight_001".into()), Value::String("{}".into()));
    store.put(Key::String("telem:flight_001:1000".into()), Value::String("a".into()));
    store.put(Key::String("telem:flight_001:1500".into()), Value::String("b".into()));
    store.put(Key::String("flight:flight_002".into()), Value::String("{}".into()));
    store.put(Key::String("telem:flight_002:9".into()), Value::String("c".into()));
    delete_flight(&mut store, "flight_001")?;
    assert_eq!(store.len(), 2);
    assert_eq!(store.get(&Key::String("telem:flight_002:9".into()))?, BorrowedEntry::Text("c"));
    assert_eq!(store.live_bytes(), store.data_len());
    assert!(matches!(delete_flight(&mut store, "flight_001"), Err(StoreError::KeyNotFound(_))));
    Ok(())
}

#[test]
fn tracker_starts_on_ground() {
    let t = FlightTracker::new(Store::new());
    assert!(t.get_current_flight_id().is_none());
}

#[test]
fn upstream_events_map_to_actions() {
    let p = sample_packet();
    assert_eq!(on_upstream_event(&UpstreamEvent::Binary(p.to_bytes())), IngestAction::Store(p));
    assert_eq!(on_upstream_event(&UpstreamEvent::Binary(vec![0; 112])), IngestAction::Skip);
    assert_eq!(on_upstream_event(&UpstreamEvent::Other), IngestAction::Skip);
    assert_eq!(on_upstream_event(&UpstreamEvent::Closed), IngestAction::Reconnect);
    assert_eq!(on_upstream_event(&UpstreamEvent::Failed), IngestAction::Reconnect);
}

#[test]
fn keys_file_with_a_short_tail_is_refused() {
    let mut store = Store::new();
    store.put(Key::Int(1), Value::Int(1));
    let snap = store.snapshot().unwrap();
    let mut keys = snap.keys.clone();
    keys.extend_from_slice(&[0, 0]);
    let mut meta = snap.meta.clone();
    meta[4..8].copy_from_slice(&crc32fast::hash(&keys).to_le_bytes());
    let n = keys.len();
    assert!(matches!(
        Store::from_snapshot(None, &meta, &keys, snap.data.clone()),
        Err(StoreError::InvalidData { cause: DeserializationError::BufferTooShort { expected, actual } })
            if expected == n + 2 && actual == n
    ));
    let two = vec![0u8, 0];
    let mut meta2 = snap.meta.clone();
    meta2[4..8].copy_from_slice(&crc32fast::hash(&two).to_le_bytes());
    meta2[12..20].copy_from_slice(&0u64.to_le_bytes());
    assert!(matches!(
        Store::from_snapshot(None, &meta2, &two, snap.data.clone()),
        Err(StoreError::InvalidData { cause: DeserializationError::BufferTooShort { expected: 4, actual: 2 } })
    ));
}

#[test]
fn end_time_follows_the_latest_frame() {
    let mut s = FlightSummary::begin("flight_001".into(), 5000, "Ascent");
    s.record(4000, "Ascent");
    assert_eq!(s.end_time, 5000);
    assert_eq!(s.duration_secs, 0);
    assert_eq!(s.packet_count, 1);
    s.record(9000, "Cruise");
    assert_eq!(s.end_time, 9000);
    assert_eq!(s.duration_secs, 4);
    s.record(7000, "Cruise");
    assert_eq!(s.end_time, 7000);
    assert_eq!(s.duration_secs, 2);
    assert!(s.end_time >= s.start_time);
}

#[test]
fn compaction_reports_corruption() {
    let mut data = serialize_value(&Value::Int(1));
    data[HEADER_SIZE] ^= 1;
    let key = kiwi_store::serialize_key(&Key::Int(7));
    let mut keys = Vec::new();
    keys.extend_from_slice(&(key.len() as u32).to_le_bytes());
    keys.extend_from_slice(&key);
    keys.extend_from_slice(&0u64.to_le_bytes());
    let mut meta = Vec::new();
    meta.extend_from_slice(&1u32.to_le_bytes());
    meta.extend_from_slice(&crc32fast::hash(&keys).to_le_bytes());
    meta.extend_from_slice(&crc32fast::hash(&data).to_le_bytes());
    meta.extend_from_slice(&1u64.to_le_bytes());
    let mut store = Store::from_snapshot(None, &meta, &keys, data).unwrap();
    assert!(matches!(store.get(&Key::Int(7)), Err(StoreError::DataCorruption { .. })));
    assert!(matches!(store.compact(), Err(StoreError::DataCorruption { .. })));
    assert_eq!(store.len(), 1);
}

#[test]
fn frames_are_written_under_the_open_flight() {
    let mut t = FlightTracker::new(Store::new());
    assert!(!t.record_frame(10, "x".into()));
    assert_eq!(t.store.len(), 0);
    t.observe(0, true);
    let step = t.observe(1000, false);
    let id = step.started.unwrap();
    t.write_flight_record(&id, "{}".into());
    assert!(t.record_frame(1000, "frame".into()));
    assert_eq!(t.store.get(&Key::String("telem:flight_001:1000".into())).unwrap(), BorrowedEntry::Text("frame"));
    assert_eq!(t.store.get(&Key::String("flight:flight_001".into())).unwrap(), BorrowedEntry::Text("{}"));
}
