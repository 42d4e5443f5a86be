use plc_bridge::cache::{SmartCache, TagMapping};
use plc_bridge::parser::{parse_with_config, DataBlockConfig};
use plc_bridge::pool::{BufferClass, BufferPool, MAX_TOTAL_BUFFERS};
use plc_bridge::reader::{ConnectionResult, FrameReader, ReadEvent, ReadStep};
use plc_bridge::registry::{AcceptDecision, ConnectionRegistry};
use plc_bridge::store::{build_plc_structure, SchemaStore};
use plc_bridge::wsclients::WsClientRegistry;

const SEC: u64 = 1_000_000_000;

fn tag(name: &str, plc: &str, path: &str, mode: Option<&str>, interval: u32) -> TagMapping {
    TagMapping {
        tag_name: name.to_string(),
        plc_ip: plc.to_string(),
        variable_path: path.to_string(),
        description: None,
        unit: None,
        enabled: true,
        created_at: 0,
        collect_mode: mode.map(|m| m.to_string()),
        collect_interval_s: Some(interval),
    }
}

fn scenario_frame() -> Vec<plc_bridge::parser::PlcVariable> {
    let blocks = vec![
        DataBlockConfig { data_type: "WORD".to_string(), count: 2, name: "W".to_string() },
        DataBlockConfig { data_type: "REAL".to_string(), count: 1, name: "R".to_string() },
    ];
    parse_with_config(&[0x00, 0x05, 0x00, 0x0A, 0x3F, 0x80, 0x00, 0x00], &blocks)
}

#[test]
fn zero_length_read_ends_with_normal_total() {
    let mut reader = FrameReader::new(Some(8), 0);
    let step = reader.on_read(ReadEvent::Data(vec![1, 2, 3]), SEC);
    assert!(matches!(step, ReadStep::Continue));
    let step = reader.on_read(ReadEvent::Closed, 2 * SEC);
    match step {
        ReadStep::Exit(ConnectionResult::Normal(total)) => assert_eq!(total, 3),
        other => panic!("unexpected step {other:?}"),
    }
}

#[test]
fn exact_frame_parses_immediately_and_clears() {
    let mut reader = FrameReader::new(Some(8), 0);
    let frame: Vec<u8> = vec![0, 5, 0, 10, 0x3F, 0x80, 0, 0];
    let step = reader.on_read(ReadEvent::Data(frame.clone()), SEC);
    match step {
        ReadStep::Publish(bytes) => assert_eq!(bytes, frame),
        other => panic!("unexpected step {other:?}"),
    }
    assert_eq!(reader.accumulator.len(), 0);
    assert_eq!(reader.packet_count, 1);
}

#[test]
fn one_byte_fragments_parse_once_complete() {
    let mut reader = FrameReader::new(Some(8), 0);
    let frame: Vec<u8> = vec![0, 5, 0, 10, 0x3F, 0x80, 0, 0];
    let mut published: Option<Vec<u8>> = None;
    for (k, byte) in frame.iter().enumerate() {
        let step = reader.on_read(ReadEvent::Data(vec![*byte]), SEC + k as u64);
        match step {
            ReadStep::Continue => assert!(k < 7),
            ReadStep::Publish(bytes) => {
                assert_eq!(k, 7);
                published = Some(bytes);
            },
            other => panic!("unexpected step {other:?}"),
        }
    }
    assert_eq!(published.unwrap(), frame);
    assert_eq!(reader.accumulator.len(), 0);
}

#[test]
fn fragmented_frame_publishes_single_frame() {
    // the scenario frame delivered as five bytes then three
    let mut reader = FrameReader::new(Some(8), 0);
    let step = reader.on_read(ReadEvent::Data(vec![0x00, 0x05, 0x00, 0x0A, 0x3F]), SEC);
    assert!(matches!(step, ReadStep::Continue));
    let step = reader.on_read(ReadEvent::Data(vec![0x80, 0x00, 0x00]), SEC + 100_000_000);
    match step {
        ReadStep::Publish(bytes) => {
            assert_eq!(bytes, vec![0x00, 0x05, 0x00, 0x0A, 0x3F, 0x80, 0x00, 0x00]);
        },
        other => panic!("unexpected step {other:?}"),
    }
    assert_eq!(reader.packet_count, 1);
}

#[test]
fn accumulator_overflow_drops_and_recovers() {
    let mut reader = FrameReader::new(Some(100_000), 0);
    let step = reader.on_read(ReadEvent::Data(vec![0u8; 60_000]), SEC);
    assert!(matches!(step, ReadStep::Continue));
    let step = reader.on_read(ReadEvent::Data(vec![0u8; 10_000]), 2 * SEC);
    assert!(matches!(step, ReadStep::Dropped));
    assert_eq!(reader.accumulator.len(), 0);
    // the next read starts fresh
    let step = reader.on_read(ReadEvent::Data(vec![1, 2, 3]), 3 * SEC);
    assert!(matches!(step, ReadStep::Continue));
    assert_eq!(reader.accumulator, vec![1, 2, 3]);
}

#[test]
fn third_consecutive_timeout_ends_connection() {
    let mut reader = FrameReader::new(None, 0);
    assert!(matches!(reader.on_read(ReadEvent::TimedOut, SEC), ReadStep::Continue));
    assert!(matches!(reader.on_read(ReadEvent::TimedOut, 2 * SEC), ReadStep::Continue));
    match reader.on_read(ReadEvent::TimedOut, 3 * SEC) {
        ReadStep::Exit(ConnectionResult::Timeout(reason)) => {
            assert_eq!(reason, "3 consecutive read timeouts");
        },
        other => panic!("unexpected step {other:?}"),
    }
}

#[test]
fn inactivity_timeout_fires_after_fifteen_seconds() {
    let mut reader = FrameReader::new(Some(8), 0);
    assert!(reader.pre_read(false, 10 * SEC).is_none());
    match reader.pre_read(false, 16 * SEC) {
        Some(ConnectionResult::Timeout(reason)) => assert_eq!(reason, "no data for 16s"),
        other => panic!("unexpected result {other:?}"),
    }
}

#[test]
fn stale_fragment_is_discarded() {
    let mut reader = FrameReader::new(Some(8), 0);
    reader.on_read(ReadEvent::Data(vec![1, 2]), SEC);
    assert_eq!(reader.accumulator.len(), 2);
    assert!(reader.pre_read(false, 8 * SEC).is_none());
    assert_eq!(reader.accumulator.len(), 0);
}

#[test]
fn reconnect_preserves_id() {
    let mut reg = ConnectionRegistry::new();
    reg.start();
    let id1 = match reg.on_accept("A1", 0) {
        AcceptDecision::Accepted { conn_id, replaced_existing } => {
            assert!(!replaced_existing);
            conn_id
        },
        AcceptDecision::Rejected => panic!("rejected"),
    };
    assert_eq!(id1, 1);
    assert!(reg.on_disconnect("A1"));
    assert_eq!(reg.get_connection_stats(100).active_connections, 0);
    let id2 = match reg.on_accept("A1", 5 * SEC) {
        AcceptDecision::Accepted { conn_id, .. } => conn_id,
        AcceptDecision::Rejected => panic!("rejected"),
    };
    assert_eq!(id2, 1);
    let stats = reg.get_connection_stats(100);
    assert_eq!(stats.active_connections, 1);
    assert_eq!(stats.total_connections, 1);
}

#[test]
fn blacklist_rejects_until_allowed() {
    let mut reg = ConnectionRegistry::new();
    reg.start();
    match reg.on_accept("A1", 0) {
        AcceptDecision::Accepted { conn_id, .. } => assert_eq!(conn_id, 1),
        AcceptDecision::Rejected => panic!("rejected"),
    }
    assert!(reg.disconnect_client("A1"));
    assert!(matches!(reg.on_accept("A1", SEC), AcceptDecision::Rejected));
    assert!(reg.allow_reconnect("A1"));
    match reg.on_accept("A1", 2 * SEC) {
        AcceptDecision::Accepted { conn_id, .. } => assert_eq!(conn_id, 1),
        AcceptDecision::Rejected => panic!("still rejected"),
    }
}

#[test]
fn duplicate_connection_replaces_old() {
    let mut reg = ConnectionRegistry::new();
    reg.start();
    reg.on_accept("A1", 0);
    match reg.on_accept("A1", SEC) {
        AcceptDecision::Accepted { conn_id, replaced_existing } => {
            assert_eq!(conn_id, 1);
            assert!(replaced_existing);
        },
        AcceptDecision::Rejected => panic!("rejected"),
    }
    assert_eq!(reg.get_connection_stats(0).active_connections, 1);
}

#[test]
fn watchdog_kills_silent_connection() {
    let mut reg = ConnectionRegistry::new();
    reg.start();
    reg.on_accept("A1", 0);
    reg.record_data("A1", SEC, 8, 1);
    // sixteen seconds later the connection is dead
    let (dead, _slow) = reg.watchdog_scan(17 * SEC);
    assert_eq!(dead, vec!["A1".to_string()]);
    assert_eq!(reg.get_connection_stats(0).active_connections, 0);
    // the identity keeps its id for the next connect
    match reg.on_accept("A1", 18 * SEC) {
        AcceptDecision::Accepted { conn_id, .. } => assert_eq!(conn_id, 1),
        AcceptDecision::Rejected => panic!("rejected"),
    }
}

#[test]
fn watchdog_reports_slow_connection() {
    let mut reg = ConnectionRegistry::new();
    reg.start();
    reg.on_accept("A1", 0);
    let (dead, slow) = reg.watchdog_scan(9 * SEC);
    assert!(dead.is_empty());
    assert_eq!(slow, vec!["A1".to_string()]);
    assert_eq!(reg.get_connection_stats(0).active_connections, 1);
}

#[test]
fn bit_extraction_yields_bool_tags() {
    // the scenario frame: W[0] = 5 = 0b101
    let vars = scenario_frame();
    let mut cache = SmartCache::new(2000);
    let tags = vec![
        tag("T0", "P1", "W[0].0", None, 1),
        tag("T1", "P1", "W[0].1", None, 1),
    ];
    cache.update_from_tcp("P1", &vars, &tags, 0);
    assert_eq!(cache.tag_cache.len(), 2);
    assert_eq!(cache.tag_cache[0].tag_name, "T0");
    assert_eq!(cache.tag_cache[0].value, "TRUE");
    assert_eq!(cache.tag_cache[0].data_type, "BOOL");
    assert_eq!(cache.tag_cache[1].value, "FALSE");
    assert_eq!(cache.tag_cache[1].data_type, "BOOL");
}

#[test]
fn lword_bits_zero_and_sixty_three() {
    let blocks = vec![DataBlockConfig {
        data_type: "LWORD".to_string(),
        count: 1,
        name: "L".to_string(),
    }];
    // top and bottom bit set
    let value: u64 = 0x8000000000000001;
    let vars = parse_with_config(&value.to_be_bytes(), &blocks);
    let mut cache = SmartCache::new(2000);
    let tags = vec![
        tag("B0", "P1", "L[0].0", None, 1),
        tag("B63", "P1", "L[0].63", None, 1),
        tag("B1", "P1", "L[0].1", None, 1),
        tag("B62", "P1", "L[0].62", None, 1),
    ];
    cache.update_from_tcp("P1", &vars, &tags, 0);
    assert_eq!(cache.tag_cache[0].value, "TRUE");
    assert_eq!(cache.tag_cache[1].value, "TRUE");
    assert_eq!(cache.tag_cache[2].value, "FALSE");
    assert_eq!(cache.tag_cache[3].value, "FALSE");
}

#[test]
fn db_paths_are_opaque_names() {
    let mut vars = scenario_frame();
    vars.push(plc_bridge::parser::PlcVariable {
        name: "DB1.DBW0".to_string(),
        value: "77".to_string(),
        data_type: "WORD".to_string(),
        unit: None,
    });
    let mut cache = SmartCache::new(2000);
    let tags = vec![tag("T", "P1", "DB1.DBW0", None, 1)];
    cache.update_from_tcp("P1", &vars, &tags, 0);
    assert_eq!(cache.tag_cache[0].value, "77");
    assert_eq!(cache.tag_cache[0].data_type, "WORD");
}

#[test]
fn on_change_policy_emits_first_and_changed_values_only() {
    // W[0] = 5, 5, 7 delivered 200 ms apart: emit 5 once, later 7 once
    let mut cache = SmartCache::new(2000);
    let tags = vec![tag("T", "P1", "W[0]", Some("change"), 1)];
    let frame5 = scenario_frame();
    let blocks = vec![
        DataBlockConfig { data_type: "WORD".to_string(), count: 2, name: "W".to_string() },
        DataBlockConfig { data_type: "REAL".to_string(), count: 1, name: "R".to_string() },
    ];
    let frame7 = parse_with_config(&[0x00, 0x07, 0x00, 0x0A, 0x3F, 0x80, 0x00, 0x00], &blocks);

    cache.update_from_tcp("P1", &frame5, &tags, 0);
    let out = cache.get_tags_for_broadcast(0, 0);
    assert_eq!(out, vec![("T".to_string(), "5".to_string())]);

    cache.update_from_tcp("P1", &frame5, &tags, 200_000_000);
    let out = cache.get_tags_for_broadcast(0, 200_000_000);
    assert!(out.is_empty(), "duplicate value must not be re-emitted");

    cache.update_from_tcp("P1", &frame7, &tags, 400_000_000);
    let out = cache.get_tags_for_broadcast(0, 400_000_000);
    assert_eq!(out, vec![("T".to_string(), "7".to_string())]);
}

#[test]
fn interval_policy_never_fires_early() {
    let mut cache = SmartCache::new(2000);
    let tags = vec![tag("T", "P1", "W[0]", Some("interval"), 3)];
    let frame = scenario_frame();
    cache.update_from_tcp("P1", &frame, &tags, 0);
    // initial emission (last_sent starts at zero, three seconds in)
    let out = cache.get_tags_for_broadcast(3, 3 * SEC as u128);
    assert_eq!(out.len(), 1);
    // two seconds later: too early
    cache.update_from_tcp("P1", &frame, &tags, 5 * SEC as u128);
    let out = cache.get_tags_for_broadcast(3, 5 * SEC as u128);
    assert!(out.is_empty());
    // three seconds after the emission: due again
    let out = cache.get_tags_for_broadcast(3, 6 * SEC as u128);
    assert_eq!(out.len(), 1);
    // a different interval never matches this tag
    let out = cache.get_tags_for_broadcast(5, 20 * SEC as u128);
    assert!(out.is_empty());
}

#[test]
fn upserts_preserve_last_sent() {
    let mut cache = SmartCache::new(2000);
    let tags = vec![tag("T", "P1", "W[0]", Some("interval"), 1)];
    let frame = scenario_frame();
    cache.update_from_tcp("P1", &frame, &tags, 0);
    let _ = cache.get_tags_for_broadcast(1, 10 * SEC as u128);
    assert_eq!(cache.tag_cache[0].last_sent, 10 * SEC as u128);
    cache.update_from_tcp("P1", &frame, &tags, 11 * SEC as u128);
    assert_eq!(cache.tag_cache[0].last_sent, 10 * SEC as u128);
}

#[test]
fn cache_sweep_drops_fifth_of_entries() {
    let mut cache = SmartCache::new(9);
    let blocks = vec![DataBlockConfig {
        data_type: "WORD".to_string(),
        count: 1,
        name: "W".to_string(),
    }];
    let frame = parse_with_config(&[0x00, 0x01], &blocks);
    for k in 0..10 {
        let tags = vec![tag(&format!("T{k}"), "P1", "W[0]", None, 1)];
        cache.update_from_tcp("P1", &frame, &tags, k as u128);
    }
    assert_eq!(cache.tag_cache.len(), 10);
    cache.enforce_memory_bounds();
    assert_eq!(cache.tag_cache.len(), 8);
}

#[test]
fn definitions_cache_round_trip_and_invalidate() {
    let mut cache = SmartCache::new(2000);
    assert!(cache.get_cached_tags("P1").is_none());
    cache.load_tag_mappings("P1", vec![tag("T", "P1", "W[0]", None, 1)]);
    let tags = cache.get_cached_tags("P1").expect("cached");
    assert_eq!(tags.len(), 1);
    assert_eq!(tags[0].tag_name, "T");
    cache.invalidate_cache("P1");
    assert!(cache.get_cached_tags("P1").is_none());
}

#[test]
fn ws_admission_control_and_ids() {
    let mut reg = WsClientRegistry::new(2);
    let a = reg.try_accept("1.1.1.1:5".to_string(), 0).unwrap();
    let b = reg.try_accept("1.1.1.2:6".to_string(), 0).unwrap();
    assert_eq!((a, b), (1, 2));
    assert!(reg.try_accept("1.1.1.3:7".to_string(), 0).is_none());
    assert_eq!(reg.active_connections(), 2);
    assert!(reg.remove_client(a));
    assert_eq!(reg.active_connections(), 1);
    // ids keep climbing: never reused
    let c = reg.try_accept("1.1.1.4:8".to_string(), 0).unwrap();
    assert_eq!(c, 3);
}

#[test]
fn ws_subscription_filters_origins() {
    let mut reg = WsClientRegistry::new(10);
    let id = reg.try_accept("1.1.1.1:5".to_string(), 0).unwrap();
    // empty subscription means everything
    assert!(reg.client_admits(id, "10.0.0.5"));
    assert!(reg.set_subscription(id, vec!["10.0.0.5".to_string()]));
    assert!(reg.client_admits(id, "10.0.0.5"));
    assert!(!reg.client_admits(id, "10.0.0.9"));
    assert!(!reg.client_admits(99, "10.0.0.5"));
}

#[test]
fn buffer_pool_caps_live_buffers() {
    let mut pool = BufferPool::new();
    let mut held = Vec::new();
    for _ in 0..MAX_TOTAL_BUFFERS {
        held.push(pool.get_buffer(8192));
    }
    assert_eq!(pool.live_buffers, MAX_TOTAL_BUFFERS);
    // over the cap: degraded small buffer, count unchanged
    let extra = pool.get_buffer(65536);
    assert!(matches!(extra.class, BufferClass::Small));
    assert_eq!(pool.live_buffers, MAX_TOTAL_BUFFERS);
    pool.return_buffer(held.pop().unwrap());
    assert_eq!(pool.live_buffers, MAX_TOTAL_BUFFERS - 1);
}

#[test]
fn schema_store_round_trip() {
    let mut store = SchemaStore::new();
    let blocks = vec![
        DataBlockConfig { data_type: "WORD".to_string(), count: 2, name: "W".to_string() },
        DataBlockConfig { data_type: "REAL".to_string(), count: 1, name: "R".to_string() },
    ];
    let config = build_plc_structure("P1".to_string(), blocks, 123).unwrap();
    assert_eq!(config.total_size, 8);
    store.save_plc_structure(config);
    let loaded = store.load_plc_structure("P1").expect("stored");
    assert_eq!(loaded.total_size, 8);
    assert_eq!(loaded.last_updated, 123);
    assert_eq!(loaded.blocks.len(), 2);
    assert_eq!(loaded.blocks[0].data_type, "WORD");
    assert_eq!(loaded.blocks[0].count, 2);
    assert_eq!(loaded.blocks[0].name, "W");
    assert_eq!(loaded.blocks[1].data_type, "REAL");
    assert_eq!(store.list_configured_plcs(), vec!["P1".to_string()]);
    store.delete_plc_structure("P1");
    assert!(store.load_plc_structure("P1").is_none());
}

#[test]
fn build_plc_structure_rejects_unknown_type() {
    let blocks = vec![DataBlockConfig {
        data_type: "FLOAT".to_string(),
        count: 1,
        name: "F".to_string(),
    }];
    assert!(build_plc_structure("P1".to_string(), blocks, 0).is_err());
}

#[test]
fn tag_store_filters_active_tags() {
    let mut store = SchemaStore::new();
    let mut disabled = tag("T2", "P1", "W[1]", None, 1);
    disabled.enabled = false;
    store.save_tag_mapping(tag("T1", "P1", "W[0]", None, 1));
    store.save_tag_mapping(disabled);
    store.save_tag_mapping(tag("T3", "P2", "W[0]", None, 1));
    assert_eq!(store.load_tag_mappings("P1").len(), 2);
    let active = store.get_active_tags("P1");
    assert_eq!(active.len(), 1);
    assert_eq!(active[0].tag_name, "T1");
    store.delete_tag_mapping("P1", "W[0]");
    assert_eq!(store.load_tag_mappings("P1").len(), 1);
}

#[test]
fn scl_rows_resolve_types() {
    let vars = scenario_frame();
    let mappings = vec![
        tag("T", "P1", "W[0].0", None, 1),
        tag("U", "P1", "W[1]", None, 1),
        tag("V", "P1", "R[0].2", None, 1),
    ];
    let rows = plc_bridge::cache::get_scl_tags(&vars, &mappings);
    assert_eq!(rows.len(), 3);
    assert_eq!((rows[0].value.as_str(), rows[0].data_type.as_str()), ("TRUE", "BOOL"));
    assert_eq!((rows[1].value.as_str(), rows[1].data_type.as_str()), ("10", "WORD"));
    // the REAL text does not parse as an unsigned number: verbatim fallback
    assert_eq!((rows[2].value.as_str(), rows[2].data_type.as_str()), ("1.000000", "REAL"));
}

#[test]
fn real_time_values_skip_missing_variables() {
    let vars = scenario_frame();
    let mappings = vec![
        tag("A", "P1", "W[1]", None, 1),
        tag("B", "P1", "Missing[0]", None, 1),
    ];
    let pairs = plc_bridge::cache::get_real_time_tag_values(&vars, &mappings);
    assert_eq!(pairs, vec![("A".to_string(), "10".to_string())]);
}

#[test]
fn stop_request_ends_connection() {
    let mut reader = FrameReader::new(Some(8), 0);
    match reader.pre_read(true, SEC) {
        Some(ConnectionResult::ServerStopped) => {}
        other => panic!("unexpected result {other:?}"),
    }
}

#[test]
fn registry_stop_clears_connections_and_keeps_ids() {
    let mut reg = ConnectionRegistry::new();
    reg.start();
    reg.on_accept("A1", 0);
    reg.on_accept("A2", 0);
    reg.stop();
    assert_eq!(reg.get_connection_stats(0).active_connections, 0);
    reg.start();
    match reg.on_accept("A2", SEC) {
        AcceptDecision::Accepted { conn_id, .. } => assert_eq!(conn_id, 2),
        AcceptDecision::Rejected => panic!("rejected"),
    }
}

#[test]
fn harvest_batch_merges_its_intervals() {
    let mut cache = SmartCache::new(2000);
    let tags = vec![
        tag("T1", "P1", "W[0]", Some("interval"), 1),
        tag("T3", "P1", "W[1]", Some("interval"), 3),
        tag("T9", "P1", "R[0]", Some("interval"), 9),
    ];
    cache.update_from_tcp("P1", &scenario_frame(), &tags, 0);
    let fast = plc_bridge::wire::batch_intervals(plc_bridge::wire::HarvestBatch::Fast);
    let out = cache.harvest_batch(&fast, 10 * SEC as u128);
    assert_eq!(
        out,
        vec![("T1".to_string(), "5".to_string()), ("T3".to_string(), "10".to_string())]
    );
    // the slow batch picks up the nine-second tag, not the others
    let slow = plc_bridge::wire::batch_intervals(plc_bridge::wire::HarvestBatch::Slow);
    let out = cache.harvest_batch(&slow, 10 * SEC as u128);
    assert_eq!(out, vec![("T9".to_string(), "1.000000".to_string())]);
}

#[test]
fn distinct_identities_get_distinct_ids() {
    let mut reg = ConnectionRegistry::new();
    reg.start();
    let a = match reg.on_accept("A1", 0) {
        AcceptDecision::Accepted { conn_id, .. } => conn_id,
        AcceptDecision::Rejected => panic!("rejected"),
    };
    let b = match reg.on_accept("A2", 0) {
        AcceptDecision::Accepted { conn_id, .. } => conn_id,
        AcceptDecision::Rejected => panic!("rejected"),
    };
    assert_eq!((a, b), (1, 2));
    let stats = reg.get_connection_stats(9);
    assert_eq!(stats.active_connections, 2);
    assert_eq!(stats.total_connections, 2);
    assert_eq!(stats.last_data_time, 9);
    assert_eq!(stats.server_status, "running");
    assert_eq!(stats.plc_status, "connected");
    let known = reg.get_all_known_plcs();
    assert_eq!(known.len(), 2);
    assert_eq!(known[0].1, "connected");
}

#[test]
fn live_frame_store_keeps_latest_per_plc() {
    let mut store = plc_bridge::frames::LiveFrameStore::new();
    assert!(store.get_plc_data("P1").is_none());
    store.publish(plc_bridge::parser::parse_plc_data(&[0, 1], "P1", None, 1));
    store.publish(plc_bridge::parser::parse_plc_data(&[0, 2, 0, 3], "P2", None, 2));
    store.publish(plc_bridge::parser::parse_plc_data(&[0, 9], "P1", None, 3));
    assert_eq!(store.len(), 2);
    let p1 = store.get_plc_data("P1").expect("stored");
    assert_eq!(p1.timestamp, 3);
    assert_eq!(p1.raw_data, vec![0, 9]);
    let p2 = store.get_plc_data("P2").expect("stored");
    assert_eq!(p2.size, 4);
}

#[test]
fn configured_plcs_list_newest_update_first() {
    let mut store = SchemaStore::new();
    let wb = vec![DataBlockConfig {
        data_type: "WORD".to_string(),
        count: 1,
        name: "W".to_string(),
    }];
    store.save_plc_structure(build_plc_structure("P1".to_string(), wb.clone(), 5).unwrap());
    store.save_plc_structure(build_plc_structure("P2".to_string(), wb.clone(), 9).unwrap());
    store.save_plc_structure(build_plc_structure("P3".to_string(), wb.clone(), 7).unwrap());
    assert_eq!(
        store.list_configured_plcs(),
        vec!["P2".to_string(), "P3".to_string(), "P1".to_string()]
    );
    // re-saving bumps an identity to the front without duplicating it
    store.save_plc_structure(build_plc_structure("P1".to_string(), wb, 11).unwrap());
    assert_eq!(
        store.list_configured_plcs(),
        vec!["P1".to_string(), "P2".to_string(), "P3".to_string()]
    );
}

#[test]
fn per_plc_harvest_isolates_origins() {
    let mut cache = SmartCache::new(2000);
    let frame = scenario_frame();
    cache.update_from_tcp("P1", &frame, &[tag("A", "P1", "W[0]", Some("interval"), 1)], 0);
    cache.update_from_tcp("P2", &frame, &[tag("B", "P2", "W[1]", Some("interval"), 1)], 0);
    let plcs = cache.cached_plcs();
    assert_eq!(plcs, vec!["P1".to_string(), "P2".to_string()]);
    let out = cache.get_tags_for_plc_broadcast("P1", 1, SEC as u128);
    assert_eq!(out, vec![("A".to_string(), "5".to_string())]);
    // the other PLC's entry was not stamped: its own harvest still emits
    let out = cache.get_tags_for_plc_broadcast("P2", 1, SEC as u128);
    assert_eq!(out, vec![("B".to_string(), "10".to_string())]);
    // and nothing is due twice
    let out = cache.get_tags_for_plc_broadcast("P1", 1, SEC as u128);
    assert!(out.is_empty());
}

#[test]
fn read_errors_are_recorded_on_health() {
    let mut reg = ConnectionRegistry::new();
    reg.start();
    reg.on_accept("A1", 0);
    reg.mark_error("A1", "connection reset".to_string());
    assert_eq!(reg.health.len(), 1);
    assert!(!reg.health[0].is_alive);
    assert_eq!(reg.health[0].last_error.as_deref(), Some("connection reset"));
}
