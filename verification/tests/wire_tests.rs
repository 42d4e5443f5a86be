use std::collections::BTreeMap;

use plc_bridge::config::{
    default_network_interfaces, validate_database_name, validate_websocket_config, ConfigManager,
    WebSocketConfig,
};
use plc_bridge::panel::{process_plc_bits, should_show_videos, sort_bits_by_priority, BitConfig};
use plc_bridge::wire::{base64_encode, batch_intervals, batch_period_ms, make_broadcast_message, HarvestBatch};

#[test]
fn base64_known_vectors() {
    assert_eq!(base64_encode(b""), "");
    assert_eq!(base64_encode(b"M"), "TQ==");
    assert_eq!(base64_encode(b"Ma"), "TWE=");
    assert_eq!(base64_encode(b"Man"), "TWFu");
    assert_eq!(base64_encode(b"hello worlds"), "aGVsbG8gd29ybGRz");
    assert_eq!(base64_encode(&[0xFF, 0xEF, 0x00]), "/+8A");
}

fn decode_base64(text: &str) -> Vec<u8> {
    const CHARS: &[u8] = b"ABCDEFGHIJKLMNOPQRSTUVWXYZabcdefghijklmnopqrstuvwxyz0123456789+/";
    let mut out = Vec::new();
    let mut acc: u32 = 0;
    let mut bits = 0;
    for ch in text.bytes() {
        if ch == b'=' {
            break;
        }
        let v = CHARS.iter().position(|c| *c == ch).expect("base64 digit") as u32;
        acc = (acc << 6) | v;
        bits += 6;
        if bits >= 8 {
            bits -= 8;
            out.push((acc >> bits) as u8);
        }
    }
    out
}

#[test]
fn broadcast_message_is_msgpack_of_the_tag_map() {
    let pairs = vec![
        ("temp".to_string(), "21".to_string()),
        ("level".to_string(), "7".to_string()),
    ];
    // a message is always produced, and the compact form is preferred
    let message = make_broadcast_message(&pairs).expect("never drops");
    let payload = message.strip_prefix("MSGPACK:").expect("compact form preferred");
    let bytes = decode_base64(payload);
    let decoded: BTreeMap<String, String> = rmp_serde::from_slice(&bytes).expect("valid msgpack");
    let mut expected = BTreeMap::new();
    expected.insert("temp".to_string(), "21".to_string());
    expected.insert("level".to_string(), "7".to_string());
    assert_eq!(decoded, expected);
}

#[test]
fn harvest_schedule_matches_design() {
    assert_eq!(batch_intervals(HarvestBatch::Fast), vec![1, 2, 3]);
    assert_eq!(batch_intervals(HarvestBatch::Medium), vec![4, 5, 6, 7]);
    assert_eq!(batch_intervals(HarvestBatch::Slow), vec![8, 9, 10]);
    assert_eq!(batch_intervals(HarvestBatch::Change), vec![0]);
    assert_eq!(batch_period_ms(HarvestBatch::Fast), 500);
    assert_eq!(batch_period_ms(HarvestBatch::Medium), 2000);
    assert_eq!(batch_period_ms(HarvestBatch::Slow), 5000);
    assert_eq!(batch_period_ms(HarvestBatch::Change), 100);
}

#[test]
fn database_names_are_validated() {
    assert!(validate_database_name("plant_db").is_ok());
    assert!(validate_database_name("p123").is_ok());
    assert!(validate_database_name("").is_err());
    let long = "x".repeat(64);
    assert!(validate_database_name(&long).is_err());
    assert!(validate_database_name("9abc").is_err());
    assert!(validate_database_name("has-dash").is_err());
    assert!(validate_database_name("Postgres").is_err());
    assert!(validate_database_name("TEMPLATE0").is_err());
    assert!(validate_database_name("postgres_data").is_ok());
}

#[test]
fn websocket_config_defaults_and_validation() {
    let config = WebSocketConfig::default();
    assert_eq!(config.host, "0.0.0.0");
    assert_eq!(config.port, 8765);
    assert_eq!(config.max_clients, 100);
    assert_eq!(config.broadcast_interval_ms, 1000);
    assert!(!config.enabled);
    assert_eq!(config.bind_interfaces, vec!["0.0.0.0".to_string()]);
    assert!(validate_websocket_config(&config));
    let mut empty_list = config.clone();
    empty_list.bind_interfaces.clear();
    assert!(!validate_websocket_config(&empty_list));
    let mut empty_name = config.clone();
    empty_name.bind_interfaces.push(String::new());
    assert!(!validate_websocket_config(&empty_name));
}

#[test]
fn first_run_is_the_missing_config_file() {
    let fresh = ConfigManager::new("app_config.json".to_string(), false);
    assert!(fresh.is_first_run());
    let existing = ConfigManager::new("app_config.json".to_string(), true);
    assert!(!existing.is_first_run());
}

#[test]
fn default_interfaces_offer_loopback_and_wildcard() {
    let interfaces = default_network_interfaces();
    assert_eq!(interfaces.len(), 2);
    assert_eq!(interfaces[0].ip, "127.0.0.1");
    assert_eq!(interfaces[1].ip, "0.0.0.0");
}

fn bit_config(word: i32, bit: i32, priority: i32, enabled: bool) -> BitConfig {
    BitConfig {
        id: 0,
        word_index: word,
        bit_index: bit,
        name: format!("b{word}.{bit}"),
        message: "on".to_string(),
        message_off: "off".to_string(),
        enabled,
        priority,
        color: "#fff".to_string(),
        font_size: 12,
        position: "center".to_string(),
        font_family: "mono".to_string(),
        font_weight: "bold".to_string(),
        text_shadow: false,
        letter_spacing: 0,
        use_template: false,
        message_template: String::new(),
    }
}

#[test]
fn panel_bits_follow_the_words() {
    // word 0 = 0b101, word 1 = 0
    let words: Vec<u16> = vec![5, 0];
    let configs = vec![
        bit_config(0, 0, 1, true),
        bit_config(0, 1, 2, true),
        bit_config(1, 3, 3, true),
        bit_config(7, 0, 4, true),  // out of range: skipped
        bit_config(0, 2, 5, false), // disabled: skipped
    ];
    let evaluated = process_plc_bits(&words, &configs);
    assert_eq!(evaluated.len(), 3);
    assert!(evaluated[0].1);
    assert!(!evaluated[1].1);
    assert!(!evaluated[2].1);
    let sorted = sort_bits_by_priority(evaluated);
    assert_eq!(sorted[0].0.priority, 3);
    assert_eq!(sorted[1].0.priority, 2);
    assert_eq!(sorted[2].0.priority, 1);
}

#[test]
fn video_control_bit_gates_the_loop() {
    // word 5 with bit 3 set
    let mut words = vec![0u16; 6];
    words[5] = 0b1000;
    assert!(should_show_videos(&words, 5, 3));
    assert!(!should_show_videos(&words, 5, 2));
    assert!(!should_show_videos(&words, 9, 3));
    assert!(!should_show_videos(&words, -1, 3));
}

#[test]
fn json_message_is_the_object_of_the_tag_map() {
    let pairs = vec![
        ("temp".to_string(), "21".to_string()),
        ("level".to_string(), "7".to_string()),
        // a later pair with the same key wins
        ("temp".to_string(), "22".to_string()),
    ];
    let text = plc_bridge::wire::make_json_message(&pairs).expect("encodes");
    let decoded: BTreeMap<String, String> = serde_json::from_str(&text).expect("valid json");
    let mut expected = BTreeMap::new();
    expected.insert("temp".to_string(), "22".to_string());
    expected.insert("level".to_string(), "7".to_string());
    assert_eq!(decoded, expected);
}
