//! Registry lifecycle, keystroke scanning, launch resolution and the
//! persistent-session coordinator, exercised on concrete values.

use term_engine::coordinator::{
    agents_ui_zellij_session_name, collect_managed_sessions, dedup_sessions_by_name,
    delete_session_command, kill_persistent_session_plan, kill_session_command,
    parse_session_list, sort_persistent_sessions, CoordError, PersistentSessionInfo,
};
use term_engine::launch::{
    build_multiplexer_attach, resolve_launch_command, sanitize_env_vars, sh_single_quote,
    valid_env_key, validate_create_request, CreateError,
};
use term_engine::recording::{new_recording_state, parse_input_line, record_user_input};
use term_engine::session::{SessionError, SessionRegistry};
use term_engine::textutil::{str_chars, u64_to_string};

fn chars(s: &str) -> Vec<char> {
    str_chars(s)
}

#[test]
fn decimal_rendering() {
    assert_eq!(u64_to_string(0), "0");
    assert_eq!(u64_to_string(42), "42");
    assert_eq!(u64_to_string(u64::MAX), "18446744073709551615");
}

#[test]
fn session_ids_are_monotonic_and_names_deduplicated() {
    let mut reg = SessionRegistry::new();
    let a = reg.create_session(Some("work".to_string()), "sh -l".to_string(), None, true);
    let b = reg.create_session(Some("work".to_string()), "sh -l".to_string(), None, true);
    let c = reg.create_session(Some("work".to_string()), "sh -l".to_string(), None, true);
    assert_eq!(a.id, "0");
    assert_eq!(b.id, "1");
    assert_eq!(c.id, "2");
    assert_eq!(a.name, "work");
    assert_eq!(b.name, "work-2");
    assert_eq!(c.name, "work-3");
    // P1: every resulting name in the registry is unique.
    let infos = reg.list_sessions();
    for i in 0..infos.len() {
        for j in 0..infos.len() {
            if i != j {
                assert_ne!(infos[i].name, infos[j].name);
                assert_ne!(infos[i].id, infos[j].id);
            }
        }
    }
}

#[test]
fn default_names_and_blank_names() {
    let mut reg = SessionRegistry::new();
    let a = reg.create_session(None, "sh -l".to_string(), None, true);
    assert_eq!(a.name, "shell");
    let b = reg.create_session(None, "sh -lc x".to_string(), None, false);
    assert_eq!(b.name, "agent");
    let c = reg.create_session(Some("   ".to_string()), "sh -l".to_string(), None, true);
    assert_eq!(c.name, "session");
}

#[test]
fn close_session_is_idempotent() {
    let mut reg = SessionRegistry::new();
    let info = reg.create_session(None, "sh -l".to_string(), None, true);
    // P4: the first close kills; the second is a no-op with the same
    // observable state.
    assert!(reg.close_session(&info.id));
    let after_first = reg.list_sessions();
    assert!(!reg.close_session(&info.id));
    let after_second = reg.list_sessions();
    assert_eq!(after_first.len(), after_second.len());
    assert_eq!(after_first[0].id, after_second[0].id);
    assert_eq!(after_first[0].name, after_second[0].name);
    // Closing an unknown id is success (and kills nothing).
    assert!(!reg.close_session("no-such-id"));
}

#[test]
fn write_rejected_on_unknown_and_dropped_on_closing() {
    let mut reg = SessionRegistry::new();
    let r = reg.write_to_session("7", "x", false, 0);
    assert!(matches!(r, Err(SessionError::UnknownSession)));
    let info = reg.create_session(None, "sh -l".to_string(), None, true);
    let out = reg.write_to_session(&info.id, "x", false, 0).unwrap();
    assert!(out.forward);
    reg.close_session(&info.id);
    let out = reg.write_to_session(&info.id, "x", false, 0).unwrap();
    assert!(!out.forward);
    assert!(out.record_lines.is_empty());
}

#[test]
fn resize_and_detach_decisions() {
    let mut reg = SessionRegistry::new();
    let info = reg.create_session(None, "sh -l".to_string(), None, true);
    assert_eq!(reg.resize_session(&info.id, 120, 40).unwrap(), true);
    assert!(matches!(
        reg.resize_session("99", 120, 40),
        Err(SessionError::UnknownSession)
    ));
    let bytes = reg.detach_session(&info.id).unwrap();
    assert_eq!(bytes, vec![0x0f, 0x64]);
    assert!(reg.detach_session("99").is_none());
    reg.close_session(&info.id);
    assert_eq!(reg.resize_session(&info.id, 10, 10).unwrap(), false);
}

#[test]
fn remove_session_happens_once() {
    let mut reg = SessionRegistry::new();
    let info = reg.create_session(None, "sh -l".to_string(), None, true);
    assert!(reg.remove_session(&info.id));
    assert!(!reg.remove_session(&info.id));
    assert!(reg.list_sessions().is_empty());
}

#[test]
fn recording_line_reconstruction() {
    // P5: "ab\x7fc\r" records a single event whose payload is "ac\r".
    let mut rec = new_recording_state("r".to_string(), None, 1000);
    let input = chars("ab\u{7f}c\r");
    let (lines, flush, _) = record_user_input(&mut rec, &input, 1500).unwrap();
    assert!(flush);
    assert_eq!(lines.len(), 1);
    let parsed = parse_input_line(&str_chars(&lines[0])).unwrap();
    assert_eq!(parsed.t, 500);
    assert_eq!(parsed.data, "ac\r");
}

#[test]
fn scanner_control_sequences_and_editing() {
    let mut rec = new_recording_state("r".to_string(), None, 0);
    // Cursor-movement CSI, an OSC title sequence, a kill-line, and a tab
    // must not corrupt the reconstructed line.
    let input = chars("zap\u{15}a\u{1b}[2Db\u{1b}]0;title\u{7}c\td\u{8}\n");
    let (lines, _, _) = record_user_input(&mut rec, &input, 0).unwrap();
    assert_eq!(lines.len(), 1);
    let parsed = parse_input_line(&str_chars(&lines[0])).unwrap();
    assert_eq!(parsed.data, "abc\n");
    assert_eq!(parsed.t, 0);
}

#[test]
fn scanner_crlf_is_one_event_and_backspace_on_empty() {
    let mut rec = new_recording_state("r".to_string(), None, 0);
    let (lines, _, _) = record_user_input(&mut rec, &chars("\u{7f}hi\r\n"), 0).unwrap();
    assert_eq!(lines.len(), 1);
    let parsed = parse_input_line(&str_chars(&lines[0])).unwrap();
    assert_eq!(parsed.data, "hi\r");
}

#[test]
fn recording_flush_policy() {
    // A short buffered partial line alone does not flush...
    let mut rec = new_recording_state("r".to_string(), None, 0);
    let (lines, flush, _) = record_user_input(&mut rec, &chars("abc"), 100).unwrap();
    assert!(lines.is_empty());
    assert!(!flush);
    // ...but the 1.5-second timer does, even with no new event...
    let (lines, flush, _) = record_user_input(&mut rec, &chars(""), 1600).unwrap();
    assert!(lines.is_empty());
    assert!(flush);
    // ...and any emitted line flushes immediately.
    let (lines, flush, _) = record_user_input(&mut rec, &chars("\n"), 1700).unwrap();
    assert_eq!(lines.len(), 1);
    assert!(flush);
}

#[test]
fn unterminated_input_trips_the_size_flush() {
    // 20 KiB of input without any newline still demands a flush: the
    // incoming bytes count toward the 16 KiB threshold even though no
    // event line is emitted yet.
    let mut rec = new_recording_state("r".to_string(), None, 0);
    let mut big = String::new();
    for _ in 0..20 * 1024 {
        big.push('a');
    }
    let (lines, flush, _) = record_user_input(&mut rec, &chars(&big), 100).unwrap();
    assert!(lines.is_empty());
    assert!(flush);
    // The buffered line itself is still emitted whole on its terminator.
    let (lines, _, _) = record_user_input(&mut rec, &chars("\r"), 200).unwrap();
    assert_eq!(lines.len(), 1);
    let parsed = parse_input_line(&str_chars(&lines[0])).unwrap();
    assert_eq!(parsed.data.len(), 20 * 1024 + 1);
}

#[test]
fn validate_create_request_rules() {
    let r = validate_create_request(Some("  ls -la  ".to_string()), None, None).unwrap();
    assert_eq!(r.command, "ls -la");
    assert!(!r.is_shell);
    assert!(!r.persistent);
    let r = validate_create_request(None, Some(true), Some("p1".to_string())).unwrap();
    assert!(r.is_shell && r.persistent);
    assert_eq!(r.persist_id.as_deref(), Some("p1"));
    assert!(matches!(
        validate_create_request(Some("ls".to_string()), Some(true), Some("p".to_string())),
        Err(CreateError::PersistentRequiresEmptyCommand)
    ));
    assert!(matches!(
        validate_create_request(None, Some(true), Some("   ".to_string())),
        Err(CreateError::PersistentRequiresPersistId)
    ));
}

#[test]
fn launch_command_lines() {
    let req = validate_create_request(None, None, None).unwrap();
    let plan = resolve_launch_command("/bin/zsh", &req, false);
    assert_eq!(plan.program, "/bin/zsh");
    assert_eq!(plan.args, vec!["-l".to_string()]);
    assert_eq!(plan.shown_command, "/bin/zsh -l");
    let req = validate_create_request(Some("echo hi".to_string()), None, None).unwrap();
    let plan = resolve_launch_command("/bin/bash", &req, false);
    assert_eq!(plan.args, vec!["-lc".to_string(), "echo hi".to_string()]);
    assert_eq!(plan.shown_command, "/bin/bash -lc echo hi");
    let plan = resolve_launch_command("/bin/bash", &req, true);
    assert_eq!(plan.args, vec!["-c".to_string(), "echo hi".to_string()]);
    assert_eq!(plan.shown_command, "/bin/bash -c echo hi");
}

#[test]
fn multiplexer_attach_invocation() {
    let plan = build_multiplexer_attach(
        "/opt/bin/zellij",
        Some("/tmp/cfg.kdl".to_string()),
        "agents-ui-p1",
    );
    assert_eq!(plan.program, "/opt/bin/zellij");
    assert_eq!(
        plan.args,
        vec![
            "--config".to_string(),
            "/tmp/cfg.kdl".to_string(),
            "attach".to_string(),
            "-c".to_string(),
            "agents-ui-p1".to_string()
        ]
    );
    assert_eq!(
        plan.shown_command,
        "zellij --config /tmp/cfg.kdl attach -c agents-ui-p1"
    );
    let plan = build_multiplexer_attach("/opt/bin/zellij", None, "agents-ui-p1");
    assert_eq!(plan.shown_command, "zellij attach -c agents-ui-p1");
}

#[test]
fn env_key_validation_and_sanitation() {
    assert!(valid_env_key("PATH"));
    assert!(valid_env_key("_x1"));
    assert!(valid_env_key("  HOME  "));
    assert!(!valid_env_key(""));
    assert!(!valid_env_key("1ABC"));
    assert!(!valid_env_key("A-B"));
    let kept = sanitize_env_vars(vec![
        (" GOOD ".to_string(), "1".to_string()),
        ("9BAD".to_string(), "2".to_string()),
        ("ALSO_GOOD".to_string(), "3".to_string()),
    ]);
    assert_eq!(kept.len(), 2);
    assert_eq!(kept[0].0, "GOOD");
    assert_eq!(kept[0].1, "1");
    assert_eq!(kept[1].0, "ALSO_GOOD");
}

#[test]
fn single_quoting() {
    assert_eq!(sh_single_quote("abc"), "'abc'");
    assert_eq!(sh_single_quote("a'b"), "'a'\\''b'");
    assert_eq!(sh_single_quote(""), "''");
}

#[test]
fn managed_session_names() {
    assert_eq!(agents_ui_zellij_session_name("proj 1!"), "agents-ui-proj_1_");
    assert_eq!(agents_ui_zellij_session_name("a-b_c9"), "agents-ui-a-b_c9");
    assert_eq!(agents_ui_zellij_session_name(""), "agents-ui-session");
}

#[test]
fn kill_refuses_unmanaged_sessions() {
    // P8: a name lacking the managed prefix is rejected outright; no
    // multiplexer command is ever produced for it.
    assert!(matches!(
        kill_session_command("personal-session"),
        Err(CoordError::RefusedUnmanaged)
    ));
    assert!(matches!(
        delete_session_command("tmux-thing"),
        Err(CoordError::RefusedUnmanaged)
    ));
    let plan = kill_persistent_session_plan("  p1  ").unwrap();
    assert_eq!(plan.session_name, "agents-ui-p1");
    assert_eq!(plan.kill_args, vec!["kill-session".to_string(), "agents-ui-p1".to_string()]);
    assert_eq!(
        plan.delete_args,
        vec![
            "delete-session".to_string(),
            "--force".to_string(),
            "agents-ui-p1".to_string()
        ]
    );
    assert!(matches!(
        kill_persistent_session_plan("   "),
        Err(CoordError::MissingPersistId)
    ));
}

#[test]
fn managed_session_listing() {
    let names = parse_session_list("agents-ui-a\n\n  other  \nagents-ui-b \n");
    assert_eq!(names, vec!["agents-ui-a".to_string(), "other".to_string(), "agents-ui-b".to_string()]);
    let managed = collect_managed_sessions(&names);
    assert_eq!(managed.len(), 2);
    assert_eq!(managed[0].persist_id, "a");
    assert_eq!(managed[0].session_name, "agents-ui-a");
    assert_eq!(managed[1].persist_id, "b");
}

#[test]
fn partial_lines_carry_across_write_calls() {
    let mut rec = new_recording_state("r".to_string(), None, 0);
    let (lines, _, _) = record_user_input(&mut rec, &chars("ec"), 0).unwrap();
    assert!(lines.is_empty());
    let (lines, _, _) = record_user_input(&mut rec, &chars("ho"), 0).unwrap();
    assert!(lines.is_empty());
    let (lines, _, _) = record_user_input(&mut rec, &chars("\r"), 40).unwrap();
    assert_eq!(lines.len(), 1);
    let parsed = parse_input_line(&str_chars(&lines[0])).unwrap();
    assert_eq!(parsed.data, "echo\r");
    assert_eq!(parsed.t, 40);
}

fn psi(pid: &str) -> PersistentSessionInfo {
    PersistentSessionInfo {
        persist_id: pid.to_string(),
        session_name: format!("agents-ui-{pid}"),
    }
}

#[test]
fn session_listing_is_sorted_and_deduplicated() {
    let raw = vec![psi("c"), psi("a"), psi("c"), psi("b"), psi("a")];
    let sorted = sort_persistent_sessions(raw);
    let pids: Vec<&str> = sorted.iter().map(|p| p.persist_id.as_str()).collect();
    assert_eq!(pids, vec!["a", "a", "b", "c", "c"]);
    let deduped = dedup_sessions_by_name(sorted);
    let pids: Vec<&str> = deduped.iter().map(|p| p.persist_id.as_str()).collect();
    assert_eq!(pids, vec!["a", "b", "c"]);
}
