//! The secure key manager, the ciphertext format, the record-line codec and
//! the persisted-state passes, exercised with the real cipher.

use term_engine::persist::{
    compute_state_meta, decrypt_environments, encrypt_environments, PersistedEnvironmentV1,
    PersistedStateV1, SecureStorageModeV1,
};
use term_engine::recording::{
    build_input_line, build_meta_line, build_recording_index, load_recording, parse_input_line,
    parse_meta_line, prepare_recording_start, recording_meta_from_text, sanitize_recording_id,
    RecordingIndexEntryV1, RecordingMetaV1,
};
use term_engine::secure::{
    decrypt_string_with_key, encrypt_decrypt_round_trip, encrypt_string_with_key,
    get_or_create_master_key, is_encrypted_value, is_probably_encrypted_value,
    master_key_from_stored, reset_master_key_cache, MasterKeyCache, MasterKeyCacheState,
    SecretContext, SecureError,
};
use term_engine::textutil::str_chars;
use base64::Engine;
use std::collections::HashMap;

fn test_key() -> Vec<u8> {
    let mut k = Vec::new();
    for i in 0..32u8 {
        k.push(i.wrapping_mul(7).wrapping_add(3));
    }
    k
}

#[test]
fn ciphertext_round_trip() {
    // P3: decrypt(key, ctx, encrypt(key, ctx, m)) == m.
    let key = test_key();
    let msgs = ["", "hello", "échantillon ünïcode 🚀", "enc:v1:looks-like-one"];
    for m in msgs.iter() {
        let c = encrypt_string_with_key(&key, SecretContext::Recording, m).unwrap();
        assert!(c.starts_with("enc:v1:"));
        assert!(is_encrypted_value(&c));
        assert!(is_probably_encrypted_value(&c));
        let p = decrypt_string_with_key(&key, SecretContext::Recording, &c).unwrap();
        assert_eq!(&p, m);
    }
}

#[test]
fn round_trip_helper_returns_the_message() {
    let key = test_key();
    let p = encrypt_decrypt_round_trip(&key, SecretContext::State, "attesa ünïcode").unwrap();
    assert_eq!(p, "attesa ünïcode");
}

#[test]
fn fresh_nonces_make_distinct_ciphertexts() {
    let key = test_key();
    let a = encrypt_string_with_key(&key, SecretContext::State, "same").unwrap();
    let b = encrypt_string_with_key(&key, SecretContext::State, "same").unwrap();
    assert_ne!(a, b);
}

#[test]
fn decrypt_with_wrong_context_fails_authentication() {
    // P3: a ciphertext for one context never authenticates under another.
    let key = test_key();
    let c = encrypt_string_with_key(&key, SecretContext::Recording, "secret").unwrap();
    let r = decrypt_string_with_key(&key, SecretContext::State, &c);
    assert!(matches!(r, Err(SecureError::DecryptAuth)));
}

#[test]
fn decrypt_with_tampered_ciphertext_fails_authentication() {
    let key = test_key();
    let c = encrypt_string_with_key(&key, SecretContext::Recording, "secret message").unwrap();
    // Swap one base64 character in the middle of the blob for another.
    let mut chars: Vec<char> = c.chars().collect();
    let mid = 7 + (chars.len() - 7) / 2;
    chars[mid] = if chars[mid] == 'A' { 'B' } else { 'A' };
    let tampered: String = chars.iter().collect();
    let r = decrypt_string_with_key(&key, SecretContext::Recording, &tampered);
    assert!(matches!(r, Err(SecureError::DecryptAuth)));
}

#[test]
fn values_without_the_marker_pass_through() {
    let key = test_key();
    let r = decrypt_string_with_key(&key, SecretContext::State, "plain text").unwrap();
    assert_eq!(r, "plain text");
    // A value with the marker but no decodable blob also passes through.
    let r = decrypt_string_with_key(&key, SecretContext::State, "enc:v1:!!!not-base64!!!").unwrap();
    assert_eq!(r, "enc:v1:!!!not-base64!!!");
}

#[test]
fn probably_encrypted_heuristic() {
    assert!(!is_probably_encrypted_value("plain"));
    // The marker alone, or with too-short base64, is not enough.
    assert!(is_encrypted_value("enc:v1:hello"));
    assert!(!is_probably_encrypted_value("enc:v1:hello!"));
    assert!(!is_probably_encrypted_value("enc:v1:QUJD"));
    assert!(is_encrypted_value("  enc:v1:x"));
}

#[test]
fn master_key_cache_memoizes() {
    let mut cache = MasterKeyCache { state: MasterKeyCacheState::Ready(test_key()) };
    let k = get_or_create_master_key(&mut cache, "svc").unwrap();
    assert_eq!(k, test_key());
    let mut cache = MasterKeyCache { state: MasterKeyCacheState::Error("nope".to_string()) };
    let r = get_or_create_master_key(&mut cache, "svc");
    match r {
        Err(SecureError::KeyUnavailable(msg)) => assert_eq!(msg, "nope"),
        _ => panic!("expected the memoized error"),
    }
    // The memoized failure stays until an explicit reset.
    assert!(matches!(cache.state, MasterKeyCacheState::Error(_)));
    reset_master_key_cache(&mut cache);
    assert!(matches!(cache.state, MasterKeyCacheState::Uninitialized));
}

#[test]
fn recording_id_sanitization() {
    assert_eq!(sanitize_recording_id("  my rec/1  "), "my_rec_1");
    assert_eq!(sanitize_recording_id("   "), "recording");
    assert_eq!(sanitize_recording_id(""), "recording");
    assert_eq!(sanitize_recording_id("A-b_9"), "A-b_9");
    let long: String = std::iter::repeat('x').take(200).collect();
    assert_eq!(sanitize_recording_id(&long).len(), 120);
}

#[test]
fn input_line_format_is_exact_json() {
    let line: String = build_input_line(12, &str_chars("a\"b\\c\r"))
        .iter()
        .collect();
    assert_eq!(line, "{\"type\":\"input\",\"t\":12,\"data\":\"a\\\"b\\\\c\\r\"}");
    // serde_json agrees about what the line means.
    let v: serde_json::Value = serde_json::from_str(&line).unwrap();
    assert_eq!(v["type"], "input");
    assert_eq!(v["t"], 12);
    assert_eq!(v["data"], "a\"b\\c\r");
    // Control characters take the \u00xx form serde_json uses.
    let line: String = build_input_line(0, &str_chars("\u{1b}[A")).iter().collect();
    assert!(line.contains("\\u001b[A"));
}

fn sample_meta() -> RecordingMetaV1 {
    RecordingMetaV1 {
        schema_version: 1,
        created_at: 1234,
        name: Some("demo".to_string()),
        project_id: "p1".to_string(),
        session_persist_id: "s1".to_string(),
        cwd: None,
        effect_id: None,
        bootstrap_command: Some("make".to_string()),
        encrypted: Some(false),
    }
}

#[test]
fn meta_line_round_trips() {
    let m = sample_meta();
    let line = build_meta_line(&m);
    let line_str: String = line.iter().collect();
    let v: serde_json::Value = serde_json::from_str(&line_str).unwrap();
    assert_eq!(v["type"], "meta");
    assert_eq!(v["schemaVersion"], 1);
    assert_eq!(v["createdAt"], 1234);
    assert_eq!(v["name"], "demo");
    assert_eq!(v["cwd"], serde_json::Value::Null);
    assert_eq!(v["encrypted"], false);
    let parsed = parse_meta_line(&line).unwrap();
    assert_eq!(parsed.schema_version, 1);
    assert_eq!(parsed.created_at, 1234);
    assert_eq!(parsed.name.as_deref(), Some("demo"));
    assert_eq!(parsed.project_id, "p1");
    assert_eq!(parsed.bootstrap_command.as_deref(), Some("make"));
    assert_eq!(parsed.encrypted, Some(false));
}

#[test]
fn input_line_round_trips() {
    let line = build_input_line(987, &str_chars("echo hi\n"));
    let ev = parse_input_line(&line).unwrap();
    assert_eq!(ev.t, 987);
    assert_eq!(ev.data, "echo hi\n");
    // The parser accepts nothing but the writer's canonical shape.
    assert!(parse_input_line(&str_chars("{\"type\":\"input\",\"t\":01,\"data\":\"x\"}")).is_none());
    assert!(parse_input_line(&str_chars("{\"t\":1,\"type\":\"input\",\"data\":\"x\"}")).is_none());
}

#[test]
fn end_to_end_recording_scenario() {
    // P7: create an interactive-shell session, record "echo hi\n" as user
    // input with encryption disabled, stop, reload, and find exactly one
    // event with payload "echo hi\n" and a non-negative timestamp.
    let mut reg = term_engine::session::SessionRegistry::new();
    let req = term_engine::launch::validate_create_request(None, None, None).unwrap();
    let plan = term_engine::launch::resolve_launch_command("/bin/sh", &req, false);
    let info = reg.create_session(None, plan.shown_command.clone(), None, req.is_shell);
    let mut cache = MasterKeyCache { state: MasterKeyCacheState::Uninitialized };
    let start = prepare_recording_start(
        "rec-1",
        None,
        Some(false),
        &mut cache,
        "svc",
        "proj".to_string(),
        "persist".to_string(),
        None,
        None,
        None,
        1000,
        2000,
    )
    .unwrap();
    assert_eq!(start.safe_id, "rec-1");
    let mut log = String::new();
    log.push_str(&start.meta_line);
    log.push('\n');
    reg.start_session_recording(&info.id, start.state).unwrap();
    let out = reg
        .write_to_session(&info.id, "echo hi\n", true, 2500)
        .unwrap();
    assert!(out.forward);
    assert!(out.flush_recording);
    assert_eq!(out.record_lines.len(), 1);
    for l in &out.record_lines {
        log.push_str(l);
        log.push('\n');
    }
    let stopped = reg.stop_session_recording(&info.id).unwrap();
    assert_eq!(stopped.as_deref(), Some("rec-1"));
    let loaded = load_recording("rec-1", &log, true, &mut cache, "svc").unwrap();
    assert_eq!(loaded.recording_id, "rec-1");
    let meta = loaded.meta.unwrap();
    assert_eq!(meta.encrypted, Some(false));
    assert_eq!(meta.project_id, "proj");
    assert_eq!(loaded.events.len(), 1);
    assert_eq!(loaded.events[0].data, "echo hi\n");
    assert_eq!(loaded.events[0].t, 500);
}

#[test]
fn encrypted_recording_round_trips_through_the_log() {
    let key = test_key();
    let mut rec = term_engine::recording::new_recording_state(
        "r".to_string(),
        Some(key.clone()),
        0,
    );
    let (lines, _, _) =
        term_engine::recording::record_user_input(&mut rec, &str_chars("secret\n"), 10).unwrap();
    assert_eq!(lines.len(), 1);
    let mut log = String::new();
    log.push_str(&lines[0]);
    log.push('\n');
    let mut cache = MasterKeyCache { state: MasterKeyCacheState::Ready(key) };
    let loaded = load_recording("r", &log, true, &mut cache, "svc").unwrap();
    assert_eq!(loaded.events.len(), 1);
    assert_eq!(loaded.events[0].data, "secret\n");
    // The same log without decryption allowed is refused.
    let mut cache2 = MasterKeyCache { state: MasterKeyCacheState::Uninitialized };
    let r = load_recording("r", &log, false, &mut cache2, "svc");
    assert!(matches!(r, Err(term_engine::recording::LoadError::ReplayDisabled)));
}

#[test]
fn loader_truncates_at_the_first_bad_line() {
    let line1: String = build_input_line(1, &str_chars("a\n")).iter().collect();
    let line2: String = build_input_line(2, &str_chars("b\n")).iter().collect();
    let log = format!("{}\nthis is not a record\n{}\n", line1, line2);
    let mut cache = MasterKeyCache { state: MasterKeyCacheState::Uninitialized };
    let loaded = load_recording("x", &log, true, &mut cache, "svc").unwrap();
    assert_eq!(loaded.events.len(), 1);
    assert_eq!(loaded.events[0].data, "a\n");
}

#[test]
fn already_recording_is_an_error() {
    let mut reg = term_engine::session::SessionRegistry::new();
    let info = reg.create_session(None, "sh".to_string(), None, true);
    let s1 = term_engine::recording::new_recording_state("a".to_string(), None, 0);
    let s2 = term_engine::recording::new_recording_state("b".to_string(), None, 0);
    reg.start_session_recording(&info.id, s1).unwrap();
    let r = reg.start_session_recording(&info.id, s2);
    assert!(matches!(r, Err(term_engine::session::SessionError::AlreadyRecording)));
    // Stopping detaches and a second stop finds nothing.
    assert_eq!(reg.stop_session_recording(&info.id).unwrap().as_deref(), Some("a"));
    assert_eq!(reg.stop_session_recording(&info.id).unwrap(), None);
}

fn empty_state() -> PersistedStateV1 {
    PersistedStateV1 {
        schema_version: 1,
        secure_storage_mode: Some(SecureStorageModeV1::Keychain),
        projects: Vec::new(),
        active_project_id: String::new(),
        sessions: Vec::new(),
        active_session_by_project: HashMap::new(),
        prompts: Vec::new(),
        environments: Vec::new(),
        assets: Vec::new(),
        agent_shortcut_ids: None,
        asset_settings: None,
    }
}

fn env(id: &str, content: &str) -> PersistedEnvironmentV1 {
    PersistedEnvironmentV1 {
        id: id.to_string(),
        name: id.to_string(),
        content: content.to_string(),
        created_at: 7,
    }
}

#[test]
fn state_meta_counts_encrypted_environments() {
    let key = test_key();
    let cipher = encrypt_string_with_key(&key, SecretContext::State, "A=1").unwrap();
    let mut state = empty_state();
    state.environments.push(env("e1", "A=1"));
    state.environments.push(env("e2", &cipher));
    let meta = compute_state_meta(&state).unwrap();
    assert_eq!(meta.environment_count, 2);
    assert_eq!(meta.encrypted_environment_count, 1);
    state.schema_version = 2;
    assert!(compute_state_meta(&state).is_none());
}

#[test]
fn environment_passes_round_trip() {
    let key = test_key();
    let mut envs = vec![env("e1", "A=1"), env("e2", "B=2")];
    let mut cache = MasterKeyCache { state: MasterKeyCacheState::Ready(key.clone()) };
    encrypt_environments(&mut envs, &mut cache, "svc").unwrap();
    assert!(envs[0].content.starts_with("enc:v1:"));
    assert!(envs[1].content.starts_with("enc:v1:"));
    decrypt_environments(&mut envs, &Some(key));
    assert_eq!(envs[0].content, "A=1");
    assert_eq!(envs[1].content, "B=2");
    assert_eq!(envs[0].id, "e1");
}

fn index_entry(id: &str, created_at: Option<u64>) -> RecordingIndexEntryV1 {
    RecordingIndexEntryV1 {
        recording_id: id.to_string(),
        meta: created_at.map(|t| {
            let mut m = sample_meta();
            m.created_at = t;
            m
        }),
    }
}

#[test]
fn recording_index_sorts_newest_first() {
    let entries = vec![
        index_entry("a", Some(10)),
        index_entry("b", None),
        index_entry("c", Some(30)),
        index_entry("d", Some(20)),
        index_entry("e", Some(30)),
    ];
    let sorted = build_recording_index(entries);
    let ids: Vec<&str> = sorted.iter().map(|e| e.recording_id.as_str()).collect();
    assert_eq!(ids, vec!["c", "e", "d", "a", "b"]);
}

#[test]
fn meta_probe_finds_the_first_meta_record() {
    let m = sample_meta();
    let meta_line: String = build_meta_line(&m).iter().collect();
    let input_line: String = build_input_line(5, &str_chars("x\n")).iter().collect();
    let log = format!("\n{}\n{}\n", input_line, meta_line);
    let found = recording_meta_from_text(&log).unwrap();
    assert_eq!(found.created_at, m.created_at);
    assert_eq!(found.project_id, m.project_id);
    assert!(recording_meta_from_text("garbage line\n").is_none());
    assert!(recording_meta_from_text("").is_none());
}

#[test]
fn loader_surfaces_memoized_key_failures() {
    let key = test_key();
    let mut rec = term_engine::recording::new_recording_state(
        "r".to_string(),
        Some(key),
        0,
    );
    let (lines, _, _) =
        term_engine::recording::record_user_input(&mut rec, &str_chars("x\n"), 1).unwrap();
    let mut log = String::new();
    log.push_str(&lines[0]);
    log.push('\n');
    let mut cache = MasterKeyCache { state: MasterKeyCacheState::Error("locked".to_string()) };
    let r = load_recording("r", &log, true, &mut cache, "svc");
    match r {
        Err(term_engine::recording::LoadError::Secure(SecureError::KeyUnavailable(msg))) => {
            assert_eq!(msg, "locked")
        }
        _ => panic!("expected the memoized key failure"),
    }
}

#[test]
fn stored_key_decoding() {
    // A stored password is accepted exactly when it is base64 of 32 bytes.
    let key = test_key();
    let encoded = base64::engine::general_purpose::STANDARD.encode(&key);
    let decoded = master_key_from_stored(&format!("  {encoded}  ")).unwrap();
    assert_eq!(decoded, key);
    assert!(master_key_from_stored("not-base64!!").is_err());
    assert!(master_key_from_stored("QUJD").is_err());
}

#[test]
fn prepare_recording_start_honors_the_cache() {
    // A memoized key failure forces the error; encryption off never touches
    // the store.
    let mut cache = MasterKeyCache { state: MasterKeyCacheState::Error("locked".to_string()) };
    let r = prepare_recording_start(
        "rec",
        None,
        None,
        &mut cache,
        "svc",
        "p".to_string(),
        "s".to_string(),
        None,
        None,
        None,
        0,
        0,
    );
    assert!(matches!(r, Err(SecureError::KeyUnavailable(_))));
    let r = prepare_recording_start(
        "rec",
        None,
        Some(false),
        &mut cache,
        "svc",
        "p".to_string(),
        "s".to_string(),
        None,
        None,
        None,
        0,
        0,
    );
    assert!(r.is_ok());
    assert!(matches!(cache.state, MasterKeyCacheState::Error(_)));
}
