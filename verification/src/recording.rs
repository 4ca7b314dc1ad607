//! The recording subsystem's durable artifact: a newline-delimited log whose
//! first line is a metadata record and whose every further line is a
//! timestamped input event, possibly encrypted. This module owns the record
//! types, the filesystem-safe recording ids, and the exact line format.

use vstd::prelude::*;
use vstd::multiset::Multiset;
use crate::json::{
    json_quote, match_lit, parse_dec_u64, parse_json_string, push_json_quoted, push_lit,
};
use crate::textutil::{
    chars_to_string, dec_digits, push_dec_u64, spec_trim, str_chars, trim_chars,
};

verus! {

/// The metadata record written once, as the first line of every recording.
#[derive(Clone)]
pub struct RecordingMetaV1 {
    pub schema_version: u32,
    pub created_at: u64,
    pub name: Option<String>,
    pub project_id: String,
    pub session_persist_id: String,
    pub cwd: Option<String>,
    pub effect_id: Option<String>,
    pub bootstrap_command: Option<String>,
    pub encrypted: Option<bool>,
}

/// One recorded input event: a millisecond offset from the start of the
/// recording and the (possibly encrypted) line payload.
#[derive(Clone)]
pub struct RecordingEventV1 {
    pub t: u64,
    pub data: String,
}

/// A line of the recording log: exactly two variants.
#[derive(Clone)]
pub enum RecordingLineV1 {
    Meta(RecordingMetaV1),
    Input(RecordingEventV1),
}

/// A fully loaded recording.
#[derive(Clone)]
pub struct LoadedRecordingV1 {
    pub recording_id: String,
    pub meta: Option<RecordingMetaV1>,
    pub events: Vec<RecordingEventV1>,
}

/// One entry of the recording index: id plus the metadata record, when the
/// file had a readable one.
#[derive(Clone)]
pub struct RecordingIndexEntryV1 {
    pub recording_id: String,
    pub meta: Option<RecordingMetaV1>,
}

/// True for the characters a recording id may keep.
pub open spec fn is_id_char(c: char) -> bool {
    ('0' <= c && c <= '9') || ('a' <= c && c <= 'z') || ('A' <= c && c <= 'Z') || c == '-' || c
        == '_'
}

/// The replacement applied to each kept character of a recording id.
pub open spec fn sanitize_char(c: char) -> char {
    if is_id_char(c) {
        c
    } else {
        '_'
    }
}

/// The fallback id for blank input.
pub open spec fn fallback_id() -> Seq<char> {
    seq!['r', 'e', 'c', 'o', 'r', 'd', 'i', 'n', 'g']
}

/// What `sanitize_recording_id` returns: the trimmed input, cut to 120
/// characters, with everything but ASCII alphanumerics, `-` and `_` replaced
/// by `_`; or `recording` when nothing is left.
pub open spec fn spec_sanitize_recording_id(s: Seq<char>) -> Seq<char> {
    let t = spec_trim(s);
    if t.len() == 0 {
        fallback_id()
    } else {
        t.take(vstd::math::min(t.len() as int, 120)).map_values(|c: char| sanitize_char(c))
    }
}

/// Derives a filesystem-safe token from a requested recording id.
pub fn sanitize_recording_id(input: &str) -> (r: String)
    ensures
        r@ == spec_sanitize_recording_id(input@),
{
    let chars = str_chars(input);
    let t = trim_chars(&chars);
    if t.len() == 0 {
        let f = "recording";
        proof {
            reveal_strlit("recording");
            assert(f@ =~= fallback_id());
        }
        return f.to_owned();
    }
    let limit: usize = if t.len() > 120 {
        120
    } else {
        t.len()
    };
    let mut out: Vec<char> = Vec::new();
    let mut i: usize = 0;
    while i < limit
        invariant
            0 <= i <= limit <= t@.len(),
            out@ == t@.take(limit as int).map_values(|c: char| sanitize_char(c)).take(i as int),
        decreases limit - i,
    {
        let c = t[i];
        let keep = ('0' <= c && c <= '9') || ('a' <= c && c <= 'z') || ('A' <= c && c <= 'Z') || c
            == '-' || c == '_';
        out.push(if keep {
            c
        } else {
            '_'
        });
        proof {
            let mapped = t@.take(limit as int).map_values(|c: char| sanitize_char(c));
            assert(mapped[i as int] == sanitize_char(t@[i as int]));
            assert(out@ =~= mapped.take(i + 1));
        }
        i = i + 1;
    }
    proof {
        let mapped = t@.take(limit as int).map_values(|c: char| sanitize_char(c));
        assert(out@ =~= mapped);
        assert(limit as int == vstd::math::min(t@.len() as int, 120));
    }
    chars_to_string(&out)
}

/// The exact characters of an input-event line.
pub open spec fn input_line_spec(t: int, data: Seq<char>) -> Seq<char> {
    "{\"type\":\"input\",\"t\":"@ + dec_digits(t) + ",\"data\":"@ + json_quote(data) + "}"@
}

/// A JSON string or `null` for an optional field.
pub open spec fn json_opt_string(o: Option<String>) -> Seq<char> {
    match o {
        Option::None => "null"@,
        Option::Some(s) => json_quote(s@),
    }
}

/// The characters of a JSON boolean.
pub open spec fn json_bool(b: bool) -> Seq<char> {
    if b {
        "true"@
    } else {
        "false"@
    }
}

/// The exact characters of the metadata line.
pub open spec fn meta_line_spec(m: RecordingMetaV1) -> Seq<char> {
    "{\"type\":\"meta\",\"schemaVersion\":"@ + dec_digits(m.schema_version as int)
        + ",\"createdAt\":"@ + dec_digits(m.created_at as int) + ",\"name\":"@ + json_opt_string(
        m.name,
    ) + ",\"projectId\":"@ + json_quote(m.project_id@) + ",\"sessionPersistId\":"@ + json_quote(
        m.session_persist_id@,
    ) + ",\"cwd\":"@ + json_opt_string(m.cwd) + ",\"effectId\":"@ + json_opt_string(m.effect_id)
        + ",\"bootstrapCommand\":"@ + json_opt_string(m.bootstrap_command) + (match m.encrypted {
        Option::None => Seq::<char>::empty(),
        Option::Some(b) => ",\"encrypted\":"@ + json_bool(b),
    }) + "}"@
}

/// Builds the line for one input event.
pub fn build_input_line(t: u64, data: &Vec<char>) -> (line: Vec<char>)
    ensures
        line@ == input_line_spec(t as int, data@),
{
    let mut out: Vec<char> = Vec::new();
    push_lit(&mut out, "{\"type\":\"input\",\"t\":");
    push_dec_u64(&mut out, t);
    push_lit(&mut out, ",\"data\":");
    push_json_quoted(&mut out, data);
    push_lit(&mut out, "}");
    proof {
        assert(out@ =~= input_line_spec(t as int, data@));
    }
    out
}

/// Appends `null` or a quoted string for an optional field.
fn push_opt_string(out: &mut Vec<char>, o: &Option<String>)
    ensures
        final(out)@ == old(out)@ + json_opt_string(*o),
{
    match o {
        Option::None => {
            push_lit(out, "null");
        },
        Option::Some(s) => {
            let chars = str_chars(s.as_str());
            push_json_quoted(out, &chars);
        },
    }
}

/// Builds the metadata line.
pub fn build_meta_line(m: &RecordingMetaV1) -> (line: Vec<char>)
    ensures
        line@ == meta_line_spec(*m),
{
    let mut out: Vec<char> = Vec::new();
    push_lit(&mut out, "{\"type\":\"meta\",\"schemaVersion\":");
    push_dec_u64(&mut out, m.schema_version as u64);
    push_lit(&mut out, ",\"createdAt\":");
    push_dec_u64(&mut out, m.created_at);
    push_lit(&mut out, ",\"name\":");
    push_opt_string(&mut out, &m.name);
    push_lit(&mut out, ",\"projectId\":");
    let pid = str_chars(m.project_id.as_str());
    push_json_quoted(&mut out, &pid);
    push_lit(&mut out, ",\"sessionPersistId\":");
    let spid = str_chars(m.session_persist_id.as_str());
    push_json_quoted(&mut out, &spid);
    push_lit(&mut out, ",\"cwd\":");
    push_opt_string(&mut out, &m.cwd);
    push_lit(&mut out, ",\"effectId\":");
    push_opt_string(&mut out, &m.effect_id);
    push_lit(&mut out, ",\"bootstrapCommand\":");
    push_opt_string(&mut out, &m.bootstrap_command);
    match &m.encrypted {
        Option::None => {},
        Option::Some(b) => {
            push_lit(&mut out, ",\"encrypted\":");
            if *b {
                push_lit(&mut out, "true");
            } else {
                push_lit(&mut out, "false");
            }
        },
    }
    push_lit(&mut out, "}");
    proof {
        assert(out@ =~= meta_line_spec(*m));
    }
    out
}

/// How an input-event line decomposes around its two fields.
proof fn lemma_input_line_structure(line: Seq<char>, t2: u64, d2: Seq<char>)
    requires
        line == input_line_spec(t2 as int, d2),
    ensures
        ({
            let a = "{\"type\":\"input\",\"t\":"@;
            let dgs = dec_digits(t2 as int);
            let b = ",\"data\":"@;
            let q = json_quote(d2);
            &&& line.len() == a.len() + dgs.len() + b.len() + q.len() + 1
            &&& line.subrange(0, a.len() as int) == a
            &&& crate::json::dec_region_at(line, a.len() as int, t2)
            &&& line.subrange(
                a.len() as int + dgs.len(),
                a.len() as int + dgs.len() + b.len(),
            ) == b
            &&& crate::json::quote_region_at(line, a.len() as int + dgs.len() + b.len(), d2)
            &&& line.subrange(
                a.len() as int + dgs.len() + b.len() + q.len(),
                line.len() as int,
            ) == "}"@
        }),
{
    let a = "{\"type\":\"input\",\"t\":"@;
    let dgs = dec_digits(t2 as int);
    let b = ",\"data\":"@;
    let q = json_quote(d2);
    let tail = "}"@;
    assert(line.subrange(0, a.len() as int) =~= a);
    assert(line.subrange(a.len() as int, a.len() as int + dgs.len()) =~= dgs);
    assert(line.subrange(a.len() as int + dgs.len(), a.len() as int + dgs.len() + b.len()) =~= b);
    assert(line.subrange(
        a.len() as int + dgs.len() + b.len(),
        a.len() as int + dgs.len() + b.len() + q.len(),
    ) =~= q);
    assert(line.subrange(a.len() as int + dgs.len() + b.len() + q.len(), line.len() as int) =~= tail);
    // The character after the digits is the comma of the next field, so the
    // digit run ends exactly there.
    reveal_strlit(",\"data\":");
    reveal_strlit("}");
    assert(tail.len() == 1);
    assert(b[0] == ',');
    assert(line[a.len() as int + dgs.len()] == ',');
    assert(!crate::textutil::is_digit_char(','));
    assert(crate::json::dec_region_at(line, a.len() as int, t2));
    assert(crate::json::quote_region_at(line, a.len() as int + dgs.len() + b.len(), d2));
}

/// Reads an input-event line. Anything accepted re-encodes to exactly the
/// consumed characters, so parsed events are never inventions, and every
/// well-formed input-event line is accepted with its exact fields.
pub fn parse_input_line(line: &Vec<char>) -> (r: Option<RecordingEventV1>)
    ensures
        r matches Some(ev) ==> line@ == input_line_spec(ev.t as int, ev.data@),
        forall|t2: u64, d2: Seq<char>|
            #![trigger input_line_spec(t2 as int, d2)]
            line@ == input_line_spec(t2 as int, d2) ==> (r matches Some(ev) && ev.t == t2
                && ev.data@ == d2),
{
    let j0 = match match_lit(line, 0, "{\"type\":\"input\",\"t\":") {
        Some(j) => j,
        None => {
            proof {
                assert forall|t2: u64, d2: Seq<char>|
                    line@ == input_line_spec(t2 as int, d2) implies false by {
                    lemma_input_line_structure(line@, t2, d2);
                }
            }
            return None;
        },
    };
    let (t, j1) = match parse_dec_u64(line, j0) {
        Some(p) => p,
        None => {
            proof {
                assert forall|t2: u64, d2: Seq<char>|
                    line@ == input_line_spec(t2 as int, d2) implies false by {
                    lemma_input_line_structure(line@, t2, d2);
                }
            }
            return None;
        },
    };
    let j2 = match match_lit(line, j1, ",\"data\":") {
        Some(j) => j,
        None => {
            proof {
                assert forall|t2: u64, d2: Seq<char>|
                    line@ == input_line_spec(t2 as int, d2) implies false by {
                    lemma_input_line_structure(line@, t2, d2);
                }
            }
            return None;
        },
    };
    let (data, j3) = match parse_json_string(line, j2) {
        Some(p) => p,
        None => {
            proof {
                assert forall|t2: u64, d2: Seq<char>|
                    line@ == input_line_spec(t2 as int, d2) implies false by {
                    lemma_input_line_structure(line@, t2, d2);
                }
            }
            return None;
        },
    };
    let j4 = match match_lit(line, j3, "}") {
        Some(j) => j,
        None => {
            proof {
                assert forall|t2: u64, d2: Seq<char>|
                    line@ == input_line_spec(t2 as int, d2) implies false by {
                    lemma_input_line_structure(line@, t2, d2);
                }
            }
            return None;
        },
    };
    if j4 != line.len() {
        proof {
            assert forall|t2: u64, d2: Seq<char>|
                line@ == input_line_spec(t2 as int, d2) implies false by {
                lemma_input_line_structure(line@, t2, d2);
            }
        }
        return None;
    }
    proof {
        assert(line@ =~= line@.subrange(0, j0 as int) + line@.subrange(j0 as int, j1 as int)
            + line@.subrange(j1 as int, j2 as int) + line@.subrange(j2 as int, j3 as int)
            + line@.subrange(j3 as int, j4 as int));
        assert forall|t2: u64, d2: Seq<char>|
            line@ == input_line_spec(t2 as int, d2) implies t == t2 && data@ == d2 by {
            lemma_input_line_structure(line@, t2, d2);
        }
    }
    let data_s = chars_to_string(&data);
    Some(RecordingEventV1 { t, data: data_s })
}

/// Reads `null` or a quoted string for an optional field.
fn parse_opt_string(line: &Vec<char>, i: usize) -> (r: Option<(Option<String>, usize)>)
    requires
        i <= line@.len(),
    ensures
        r matches Some((o, j)) ==> i <= j <= line@.len() && line@.subrange(i as int, j as int)
            == json_opt_string(o),
{
    match match_lit(line, i, "null") {
        Some(j) => Some((None, j)),
        None => {
            match parse_json_string(line, i) {
                Some((data, j)) => {
                    let s = chars_to_string(&data);
                    Some((Some(s), j))
                },
                None => None,
            }
        },
    }
}

/// Reads the metadata line. Anything accepted re-encodes to exactly the
/// consumed characters.
#[verifier::rlimit(100)]
#[verifier::spinoff_prover]
pub fn parse_meta_line(line: &Vec<char>) -> (r: Option<RecordingMetaV1>)
    ensures
        r matches Some(m) ==> line@ == meta_line_spec(m),
{
    let j0 = match match_lit(line, 0, "{\"type\":\"meta\",\"schemaVersion\":") {
        Some(j) => j,
        None => {
            return None;
        },
    };
    let (sv, j1) = match parse_dec_u64(line, j0) {
        Some(p) => p,
        None => {
            return None;
        },
    };
    if sv > u32::MAX as u64 {
        return None;
    }
    let j2 = match match_lit(line, j1, ",\"createdAt\":") {
        Some(j) => j,
        None => {
            return None;
        },
    };
    let (created, j3) = match parse_dec_u64(line, j2) {
        Some(p) => p,
        None => {
            return None;
        },
    };
    let j4 = match match_lit(line, j3, ",\"name\":") {
        Some(j) => j,
        None => {
            return None;
        },
    };
    let (name, j5) = match parse_opt_string(line, j4) {
        Some(p) => p,
        None => {
            return None;
        },
    };
    let j6 = match match_lit(line, j5, ",\"projectId\":") {
        Some(j) => j,
        None => {
            return None;
        },
    };
    let (project_id, j7) = match parse_json_string(line, j6) {
        Some(p) => p,
        None => {
            return None;
        },
    };
    let j8 = match match_lit(line, j7, ",\"sessionPersistId\":") {
        Some(j) => j,
        None => {
            return None;
        },
    };
    let (spid, j9) = match parse_json_string(line, j8) {
        Some(p) => p,
        None => {
            return None;
        },
    };
    let j10 = match match_lit(line, j9, ",\"cwd\":") {
        Some(j) => j,
        None => {
            return None;
        },
    };
    let (cwd, j11) = match parse_opt_string(line, j10) {
        Some(p) => p,
        None => {
            return None;
        },
    };
    let j12 = match match_lit(line, j11, ",\"effectId\":") {
        Some(j) => j,
        None => {
            return None;
        },
    };
    let (effect_id, j13) = match parse_opt_string(line, j12) {
        Some(p) => p,
        None => {
            return None;
        },
    };
    let j14 = match match_lit(line, j13, ",\"bootstrapCommand\":") {
        Some(j) => j,
        None => {
            return None;
        },
    };
    let (bootstrap, j15) = match parse_opt_string(line, j14) {
        Some(p) => p,
        None => {
            return None;
        },
    };
    let ghost head = line@.subrange(0, j15 as int);
    proof {
        assert(head =~= line@.subrange(0, j0 as int) + line@.subrange(j0 as int, j1 as int)
            + line@.subrange(j1 as int, j2 as int) + line@.subrange(j2 as int, j3 as int)
            + line@.subrange(j3 as int, j4 as int) + line@.subrange(j4 as int, j5 as int)
            + line@.subrange(j5 as int, j6 as int) + line@.subrange(j6 as int, j7 as int)
            + line@.subrange(j7 as int, j8 as int) + line@.subrange(j8 as int, j9 as int)
            + line@.subrange(j9 as int, j10 as int) + line@.subrange(j10 as int, j11 as int)
            + line@.subrange(j11 as int, j12 as int) + line@.subrange(j12 as int, j13 as int)
            + line@.subrange(j13 as int, j14 as int) + line@.subrange(j14 as int, j15 as int));
    }
    // Tail: either a bare `}`, or `,"encrypted":` with a boolean and `}`.
    let (encrypted, j16) = match match_lit(line, j15, "}") {
        Some(j) => (None, j),
        None => {
            let ja = match match_lit(line, j15, ",\"encrypted\":true}") {
                Some(j) => j,
                None => {
                    match match_lit(line, j15, ",\"encrypted\":false}") {
                        Some(j) => {
                            let jb: usize = j;
                            proof {
                                assert(line@.subrange(j15 as int, jb as int)
                                    =~= ",\"encrypted\":"@ + json_bool(false) + "}"@) by {
                                    reveal_strlit(",\"encrypted\":false}");
                                    reveal_strlit(",\"encrypted\":");
                                    reveal_strlit("false");
                                    reveal_strlit("}");
                                }
                            }
                            if jb != line.len() {
                                return None;
                            }
                            let m = RecordingMetaV1 {
                                schema_version: sv as u32,
                                created_at: created,
                                name,
                                project_id: chars_to_string(&project_id),
                                session_persist_id: chars_to_string(&spid),
                                cwd,
                                effect_id,
                                bootstrap_command: bootstrap,
                                encrypted: Some(false),
                            };
                            proof {
                                assert(line@ =~= head + line@.subrange(j15 as int, jb as int));
                                assert(line@ =~= meta_line_spec(m));
                            }
                            return Some(m);
                        },
                        None => {
                            return None;
                        },
                    }
                },
            };
            proof {
                assert(line@.subrange(j15 as int, ja as int) =~= ",\"encrypted\":"@ + json_bool(
                    true,
                ) + "}"@) by {
                    reveal_strlit(",\"encrypted\":true}");
                    reveal_strlit(",\"encrypted\":");
                    reveal_strlit("true");
                    reveal_strlit("}");
                }
            }
            (Some(true), ja)
        },
    };
    if j16 != line.len() {
        return None;
    }
    let m = RecordingMetaV1 {
        schema_version: sv as u32,
        created_at: created,
        name,
        project_id: chars_to_string(&project_id),
        session_persist_id: chars_to_string(&spid),
        cwd,
        effect_id,
        bootstrap_command: bootstrap,
        encrypted,
    };
    proof {
        assert(line@ =~= head + line@.subrange(j15 as int, j16 as int));
        if m.encrypted is None {
            assert(line@.subrange(j15 as int, j16 as int) == "}"@);
        }
        assert(line@ =~= meta_line_spec(m));
    }
    Some(m)
}

/// `now - then`, or zero when the clock appears to have gone backwards.
pub open spec fn spec_elapsed(now: int, then: int) -> int {
    if now >= then {
        now - then
    } else {
        0
    }
}

/// The live state of one active recording attached to a session: the flush
/// counters, the logical-line buffer, and the optional encryption key.
pub struct RecordingState {
    /// The sanitized, filesystem-safe recording token.
    pub recording_id: String,
    /// The clock origin of this recording's timestamps, in milliseconds.
    pub started_at_ms: u64,
    /// When the log was last flushed, in milliseconds.
    pub last_flush_ms: u64,
    /// Bytes handed to the log since the last flush.
    pub unflushed_bytes: u64,
    /// Printable characters typed since the last line boundary.
    pub input_buffer: Vec<char>,
    /// The master key when the recording is encrypted; absent for cleartext.
    pub enc_key: Option<Vec<u8>>,
}

impl RecordingState {
    /// A held key is always 256 bits.
    pub open spec fn wf(&self) -> bool {
        self.enc_key matches Some(k) ==> k@.len() == 32
    }
}

/// A fresh recording attached at `now_ms`, with an empty line buffer and
/// nothing unflushed.
pub fn new_recording_state(recording_id: String, enc_key: Option<Vec<u8>>, now_ms: u64) -> (r:
    RecordingState)
    requires
        enc_key matches Some(k) ==> k@.len() == 32,
    ensures
        r.wf(),
        r.recording_id == recording_id,
        r.started_at_ms == now_ms,
        r.last_flush_ms == now_ms,
        r.unflushed_bytes == 0,
        r.input_buffer@ == Seq::<char>::empty(),
        r.enc_key == enc_key,
{
    RecordingState {
        recording_id,
        started_at_ms: now_ms,
        last_flush_ms: now_ms,
        unflushed_bytes: 0,
        input_buffer: Vec::new(),
        enc_key,
    }
}

/// Feeds one user-sourced chunk through the keystroke scanner: the line
/// buffer advances by [`crate::scan::scan`], each completed line becomes one
/// log line (encrypted when a key is attached) carrying the millisecond
/// offset from the recording's start, and the flush policy decides whether
/// the log must hit the disk now: after any emitted line, when more than
/// 16 KiB is unflushed, or 1.5 s after the previous flush.
pub fn record_user_input(rec: &mut RecordingState, data: &Vec<char>, now_ms: u64) -> (r: Result<
    (Vec<String>, bool, Ghost<Seq<Seq<char>>>),
    crate::secure::SecureError,
>)
    requires
        old(rec).wf(),
    ensures
        final(rec).wf(),
        final(rec).recording_id == old(rec).recording_id,
        final(rec).started_at_ms == old(rec).started_at_ms,
        final(rec).enc_key == old(rec).enc_key,
        r matches Ok((lines, flush, w)) ==> {
            let res = crate::scan::scan(old(rec).input_buffer@, data@);
            let t = spec_elapsed(now_ms as int, old(rec).started_at_ms as int);
            &&& final(rec).input_buffer@ == res.0
            &&& lines@.len() == res.1.len()
            &&& w@.len() == res.1.len()
            &&& (old(rec).enc_key is None ==> forall|i: int|
                0 <= i < lines@.len() ==> lines@[i]@ == input_line_spec(t, res.1[i]))
            &&& (old(rec).enc_key is Some ==> forall|i: int|
                #![trigger w@[i]]
                0 <= i < lines@.len() ==> crate::secure::enc_output(
                    w@[i],
                    old(rec).enc_key->Some_0@,
                    crate::secure::aad_spec(crate::secure::SecretContext::Recording),
                    res.1[i],
                ) && lines@[i]@ == input_line_spec(t, w@[i]))
            &&& flush == (res.1.len() > 0 || old(rec).unflushed_bytes
                + vstd::utf8::encode_utf8(data@).len() >= 16384 || spec_elapsed(
                now_ms as int,
                old(rec).last_flush_ms as int,
            ) >= 1500)
            &&& final(rec).unflushed_bytes as int == if flush {
                0int
            } else {
                old(rec).unflushed_bytes + vstd::utf8::encode_utf8(data@).len()
            }
            &&& final(rec).last_flush_ms as int == if flush {
                now_ms as int
            } else {
                old(rec).last_flush_ms as int
            }
        },
        r is Err ==> r->Err_0 is EncryptFailed,
        // A cleartext recording cannot fail, and an encrypted one fails
        // only when a line overruns the cipher's message limit.
        old(rec).enc_key is None ==> r is Ok,
        old(rec).enc_key is Some && 4 * (old(rec).input_buffer@.len() + data@.len())
            < crate::secure::seal_msg_max() ==> r is Ok,
{
    let ghost buf0 = rec.input_buffer@;
    let events = crate::scan::scan_input(&mut rec.input_buffer, data);
    let t: u64 = if now_ms >= rec.started_at_ms {
        now_ms - rec.started_at_ms
    } else {
        0
    };
    let ghost aad = crate::secure::aad_spec(crate::secure::SecretContext::Recording);
    let mut lines: Vec<String> = Vec::new();
    let ghost mut cips: Seq<Seq<char>> = Seq::empty();
    // The incoming user bytes count toward the flush threshold, so a long
    // unterminated line still reaches the disk.
    let data_bytes: u64 = crate::textutil::utf8_byte_len(data);
    let mut unflushed: u64 = if rec.unflushed_bytes > u64::MAX - data_bytes {
        u64::MAX
    } else {
        rec.unflushed_bytes + data_bytes
    };
    let ghost base_unflushed = unflushed;
    proof {
        assert(base_unflushed as int == vstd::math::min(
            old(rec).unflushed_bytes + vstd::utf8::encode_utf8(data@).len(),
            u64::MAX as int,
        ));
    }
    let mut i: usize = 0;
    while i < events.len()
        invariant
            0 <= i <= events@.len(),
            rec.wf(),
            rec.enc_key == old(rec).enc_key,
            rec.recording_id == old(rec).recording_id,
            rec.started_at_ms == old(rec).started_at_ms,
            rec.last_flush_ms == old(rec).last_flush_ms,
            rec.unflushed_bytes == old(rec).unflushed_bytes,
            buf0 == old(rec).input_buffer@,
            rec.input_buffer@ == crate::scan::scan(buf0, data@).0,
            events@.map_values(|v: Vec<char>| v@) == crate::scan::scan(buf0, data@).1,
            t as int == spec_elapsed(now_ms as int, old(rec).started_at_ms as int),
            aad == crate::secure::aad_spec(crate::secure::SecretContext::Recording),
            lines@.len() == i,
            cips.len() == i,
            i == 0 ==> unflushed == base_unflushed,
            base_unflushed as int == vstd::math::min(
                old(rec).unflushed_bytes + vstd::utf8::encode_utf8(data@).len(),
                u64::MAX as int,
            ),
            old(rec).enc_key is None ==> forall|j: int|
                0 <= j < i ==> lines@[j]@ == input_line_spec(t as int, events@[j]@),
            old(rec).enc_key is Some ==> forall|j: int|
                #![trigger cips[j]]
                0 <= j < i ==> crate::secure::enc_output(
                    cips[j],
                    old(rec).enc_key->Some_0@,
                    aad,
                    events@[j]@,
                ) && lines@[j]@ == input_line_spec(t as int, cips[j]),
        decreases events@.len() - i,
    {
        proof {
            assert(events@.map_values(|v: Vec<char>| v@)[i as int] == events@[i as int]@);
        }
        let ghost mut cip: Seq<char> = Seq::empty();
        let line_chars = match &rec.enc_key {
            None => build_input_line(t, &events[i]),
            Some(k) => {
                let payload = chars_to_string(&events[i]);
                match crate::secure::encrypt_string_with_key(
                    k,
                    crate::secure::SecretContext::Recording,
                    payload.as_str(),
                ) {
                    Ok(cipher) => {
                        let cipher_chars = str_chars(cipher.as_str());
                        proof {
                            cip = cipher@;
                        }
                        build_input_line(t, &cipher_chars)
                    },
                    Err(e) => {
                        proof {
                            // The cipher refused, so this line overruns the
                            // message limit and so does the stated bound.
                            crate::scan::lemma_scan_event_lens(buf0, data@);
                            crate::textutil::lemma_encode_utf8_len(events@[i as int]@);
                            assert(crate::scan::scan(buf0, data@).1[i as int]
                                == events@[i as int]@);
                            assert(crate::scan::scan(buf0, data@).1[i as int].len() <= buf0.len()
                                + data@.len());
                            assert(events@[i as int]@.len() <= buf0.len() + data@.len());
                            assert(buf0 == old(rec).input_buffer@);
                            assert(vstd::utf8::encode_utf8(events@[i as int]@).len()
                                >= crate::secure::seal_msg_max());
                            assert(vstd::utf8::encode_utf8(events@[i as int]@).len() <= 4
                                * events@[i as int]@.len());
                            assert(4 * (old(rec).input_buffer@.len() + data@.len())
                                >= crate::secure::seal_msg_max());
                        }
                        return Err(e);
                    },
                }
            },
        };
        let add = line_chars.len();
        let add64: u64 = add as u64;
        unflushed = if unflushed > u64::MAX - 1 || unflushed + 1 > u64::MAX - add64 {
            u64::MAX
        } else {
            unflushed + 1 + add64
        };
        lines.push(chars_to_string(&line_chars));
        proof {
            cips = cips.push(cip);
            if old(rec).enc_key is Some {
                assert(cips[i as int] == cip);
                assert(crate::secure::enc_output(
                    cip,
                    old(rec).enc_key->Some_0@,
                    aad,
                    events@[i as int]@,
                ));
                assert(lines@[i as int]@ == input_line_spec(t as int, cip));
            }
        }
        i = i + 1;
    }
    let wrote_any = lines.len() > 0;
    let elapsed: u64 = if now_ms >= rec.last_flush_ms {
        now_ms - rec.last_flush_ms
    } else {
        0
    };
    let flush = wrote_any || unflushed >= 16384 || elapsed >= 1500;
    if flush {
        rec.unflushed_bytes = 0;
        rec.last_flush_ms = now_ms;
    } else {
        rec.unflushed_bytes = unflushed;
    }
    proof {
        let res = crate::scan::scan(old(rec).input_buffer@, data@);
        let tt = spec_elapsed(now_ms as int, old(rec).started_at_ms as int);
        assert(res == crate::scan::scan(buf0, data@));
        assert(tt == t as int);
        assert(lines@.len() == res.1.len());
        assert forall|j: int| 0 <= j < lines@.len() implies res.1[j] == events@[j]@ by {
            assert(events@.map_values(|v: Vec<char>| v@)[j] == events@[j]@);
        }
        if old(rec).enc_key is Some {
            assert forall|j: int| #![trigger cips[j]] 0 <= j < lines@.len() implies
                crate::secure::enc_output(
                    cips[j],
                    old(rec).enc_key->Some_0@,
                    crate::secure::aad_spec(crate::secure::SecretContext::Recording),
                    res.1[j],
                ) && lines@[j]@ == input_line_spec(tt, cips[j]) by {
                assert(crate::secure::enc_output(
                    cips[j],
                    old(rec).enc_key->Some_0@,
                    aad,
                    events@[j]@,
                ) && lines@[j]@ == input_line_spec(t as int, cips[j]));
            }
        }
    }
    Ok((lines, flush, Ghost(cips)))
}

/// Errors of loading a recording log.
#[derive(Debug)]
pub enum LoadError {
    /// The log holds encrypted events and decryption was not allowed.
    ReplayDisabled,
    /// The key manager or the cipher failed.
    Secure(crate::secure::SecureError),
}

/// The trimmed name field of a new recording: absent when blank, cut to
/// 120 characters.
pub open spec fn normalized_name(v: Option<String>) -> Option<Seq<char>> {
    match v {
        Option::Some(s) => if spec_trim(s@).len() == 0 {
            Option::None
        } else {
            Option::Some(spec_trim(s@).take(vstd::math::min(spec_trim(s@).len() as int, 120)))
        },
        Option::None => Option::None,
    }
}

/// A trimmed optional field: absent when blank.
pub open spec fn normalized_opt(v: Option<String>) -> Option<Seq<char>> {
    match v {
        Option::Some(s) => if spec_trim(s@).len() == 0 {
            Option::None
        } else {
            Option::Some(spec_trim(s@))
        },
        Option::None => Option::None,
    }
}

fn normalize_opt_field(v: &Option<String>) -> (r: Option<String>)
    ensures
        match (r, normalized_opt(*v)) {
            (Option::Some(a), Option::Some(b)) => a@ == b,
            (Option::None, Option::None) => true,
            _ => false,
        },
{
    match v {
        Some(s) => {
            let t = trim_chars(&str_chars(s.as_str()));
            if t.len() == 0 {
                None
            } else {
                Some(chars_to_string(&t))
            }
        },
        None => None,
    }
}

fn normalize_name_field(v: &Option<String>) -> (r: Option<String>)
    ensures
        match (r, normalized_name(*v)) {
            (Option::Some(a), Option::Some(b)) => a@ == b,
            (Option::None, Option::None) => true,
            _ => false,
        },
{
    match v {
        Some(s) => {
            let t = trim_chars(&str_chars(s.as_str()));
            if t.len() == 0 {
                None
            } else {
                let limit: usize = if t.len() > 120 {
                    120
                } else {
                    t.len()
                };
                let mut out: Vec<char> = Vec::new();
                let mut i: usize = 0;
                while i < limit
                    invariant
                        0 <= i <= limit <= t@.len(),
                        out@ == t@.take(limit as int).take(i as int),
                    decreases limit - i,
                {
                    out.push(t[i]);
                    proof {
                        assert(out@ =~= t@.take(limit as int).take(i + 1));
                    }
                    i = i + 1;
                }
                proof {
                    assert(out@ =~= t@.take(limit as int));
                    assert(limit as int == vstd::math::min(t@.len() as int, 120));
                }
                Some(chars_to_string(&out))
            }
        },
        None => None,
    }
}

/// Everything a recording needs before its first byte: the sanitized id,
/// the metadata record with its serialized first line, and the initial
/// live state.
pub struct RecordingStart {
    /// The sanitized, filesystem-safe recording id.
    pub safe_id: String,
    /// The metadata record that becomes the file's first line.
    pub meta: RecordingMetaV1,
    /// The serialized metadata line (without the trailing newline).
    pub meta_line: String,
    /// The initial live recording state to attach to the session.
    pub state: RecordingState,
}

/// Resolves a start-recording request: sanitizes the id, fetches the
/// master key through the memoizing cache when encryption is on (the
/// default), normalizes the metadata fields, and produces the metadata
/// line that must be written, and flushed, before any event.
pub fn prepare_recording_start(
    recording_id: &str,
    recording_name: Option<String>,
    encrypt: Option<bool>,
    cache: &mut crate::secure::MasterKeyCache,
    service: &str,
    project_id: String,
    session_persist_id: String,
    cwd: Option<String>,
    effect_id: Option<String>,
    bootstrap_command: Option<String>,
    created_at_ms: u64,
    now_ms: u64,
) -> (r: Result<RecordingStart, crate::secure::SecureError>)
    requires
        old(cache).wf(),
    ensures
        final(cache).wf(),
        r is Err ==> r->Err_0 is KeyUnavailable && encrypt != Some(false),
        // Success is owed whenever the key decision cannot fail: with
        // encryption off, or with a key already memoized; a memoized
        // failure forces the error; the cache never moves backwards.
        encrypt == Some(false) ==> r is Ok && final(cache).state == old(cache).state,
        old(cache).state is Ready ==> r is Ok && final(cache).state == old(cache).state,
        old(cache).state is Error && encrypt != Some(false) ==> r is Err && final(cache).state
            == old(cache).state,
        r is Ok && encrypt != Some(false) ==> final(cache).state is Ready,
        r is Err ==> final(cache).state is Error,
        r matches Ok(st) ==> {
            &&& st.safe_id@ == spec_sanitize_recording_id(recording_id@)
            &&& st.meta.schema_version == 1
            &&& st.meta.created_at == created_at_ms
            &&& (match (st.meta.name, normalized_name(recording_name)) {
                (Option::Some(a), Option::Some(b)) => a@ == b,
                (Option::None, Option::None) => true,
                _ => false,
            })
            &&& st.meta.project_id == project_id
            &&& st.meta.session_persist_id == session_persist_id
            &&& st.meta.cwd == cwd
            &&& (match (st.meta.effect_id, normalized_opt(effect_id)) {
                (Option::Some(a), Option::Some(b)) => a@ == b,
                (Option::None, Option::None) => true,
                _ => false,
            })
            &&& (match (st.meta.bootstrap_command, normalized_opt(bootstrap_command)) {
                (Option::Some(a), Option::Some(b)) => a@ == b,
                (Option::None, Option::None) => true,
                _ => false,
            })
            &&& st.meta.encrypted == Some(encrypt != Some(false))
            &&& st.meta_line@ == meta_line_spec(st.meta)
            &&& st.state.wf()
            &&& st.state.recording_id == st.safe_id
            &&& st.state.started_at_ms == now_ms
            &&& st.state.last_flush_ms == now_ms
            &&& st.state.unflushed_bytes == 0
            &&& st.state.input_buffer@ == Seq::<char>::empty()
            &&& (st.state.enc_key is Some) == (encrypt != Some(false))
        },
{
    let safe_id = sanitize_recording_id(recording_id);
    let encrypt_enabled = match encrypt {
        Some(b) => b,
        None => true,
    };
    let enc_key: Option<Vec<u8>> = if encrypt_enabled {
        match crate::secure::get_or_create_master_key(cache, service) {
            Ok(k) => Some(k),
            Err(e) => {
                return Err(e);
            },
        }
    } else {
        None
    };
    let meta = RecordingMetaV1 {
        schema_version: 1,
        created_at: created_at_ms,
        name: normalize_name_field(&recording_name),
        project_id,
        session_persist_id,
        cwd,
        effect_id: normalize_opt_field(&effect_id),
        bootstrap_command: normalize_opt_field(&bootstrap_command),
        encrypted: Some(encrypt_enabled),
    };
    let meta_line_chars = build_meta_line(&meta);
    let meta_line = chars_to_string(&meta_line_chars);
    let state = new_recording_state(safe_id.clone(), enc_key, now_ms);
    Ok(RecordingStart { safe_id, meta, meta_line, state })
}

/// The optional key a cache exposes once resolved.
pub open spec fn cache_key_view(cache: crate::secure::MasterKeyCache) -> Option<Seq<u8>> {
    match cache.state {
        crate::secure::MasterKeyCacheState::Ready(k) => Option::Some(k@),
        _ => Option::None,
    }
}

/// The view of an optional key value.
pub open spec fn opt_key_view(key: Option<Vec<u8>>) -> Option<Seq<u8>> {
    match key {
        Option::Some(k) => Option::Some(k@),
        Option::None => Option::None,
    }
}

/// The event came from this log line: the line is the exact encoding of the
/// event's timestamp and some payload, and the event's data is either that
/// payload itself or its authentic decryption under the key.
pub open spec fn loaded_event_from_line(
    line: Seq<char>,
    key: Option<Seq<u8>>,
    ev: RecordingEventV1,
) -> bool {
    exists|raw: Seq<char>|
        #![trigger input_line_spec(ev.t as int, raw)]
        line == input_line_spec(ev.t as int, raw) && (raw == ev.data@ || (key matches Some(kk)
            && crate::secure::enc_output(
            crate::textutil::spec_trim_start(raw),
            kk,
            crate::secure::aad_spec(crate::secure::SecretContext::Recording),
            ev.data@,
        )))
}

/// The event came from some trimmed line of the log text.
pub open spec fn loaded_event_ok(
    content: Seq<char>,
    key: Option<Seq<u8>>,
    ev: RecordingEventV1,
) -> bool {
    exists|j: int|
        0 <= j < crate::textutil::split_lines(content).len() && loaded_event_from_line(
            spec_trim(#[trigger] crate::textutil::split_lines(content)[j]),
            key,
            ev,
        )
}

/// The metadata record re-encodes to some trimmed line of the log text.
pub open spec fn loaded_meta_ok(content: Seq<char>, m: RecordingMetaV1) -> bool {
    exists|j: int|
        0 <= j < crate::textutil::split_lines(content).len() && spec_trim(
            #[trigger] crate::textutil::split_lines(content)[j],
        ) == meta_line_spec(m)
}

/// Loads a recording log from its text: the first metadata line wins,
/// every parsed input line becomes an event (decrypted through the key
/// manager when its payload carries a plausible ciphertext), and the first
/// line that fails to parse truncates the log there instead of failing the
/// whole read. Every returned record re-encodes to a line of the text, so
/// nothing is invented.
pub fn load_recording(
    recording_id: &str,
    content: &str,
    decrypt_allowed: bool,
    cache: &mut crate::secure::MasterKeyCache,
    service: &str,
) -> (r: Result<LoadedRecordingV1, LoadError>)
    requires
        old(cache).wf(),
    ensures
        final(cache).wf(),
        r matches Ok(out) ==> {
            &&& out.recording_id@ == spec_sanitize_recording_id(recording_id@)
            &&& out.events@.len() <= crate::textutil::split_lines(content@).len()
            &&& (out.meta matches Some(m) ==> loaded_meta_ok(content@, m))
            &&& forall|k: int|
                #![trigger out.events@[k]]
                0 <= k < out.events@.len() ==> loaded_event_ok(
                    content@,
                    cache_key_view(*final(cache)),
                    out.events@[k],
                )
        },
        r matches Err(e) ==> (e is ReplayDisabled ==> !decrypt_allowed),
        // Success is owed on a log without encrypted payloads: nothing then
        // reaches the key manager or the cipher, and a malformed line only
        // truncates.
        (forall|j: int, t2: u64, d2: Seq<char>|
            #![trigger crate::textutil::split_lines(content@)[j], input_line_spec(t2 as int, d2)]
            0 <= j < crate::textutil::split_lines(content@).len() && spec_trim(
                crate::textutil::split_lines(content@)[j],
            ) == input_line_spec(t2 as int, d2) ==> !crate::secure::spec_probably_encrypted(d2))
            ==> r is Ok,
{
    let safe_id = sanitize_recording_id(recording_id);
    let chars = str_chars(content);
    let segments = crate::textutil::split_lines_exec(&chars);
    let mut meta: Option<RecordingMetaV1> = None;
    let mut events: Vec<RecordingEventV1> = Vec::new();
    let mut key: Option<Vec<u8>> = None;
    let mut i: usize = 0;
    while i < segments.len()
        invariant
            0 <= i <= segments@.len(),
            segments@.map_values(|v: Vec<char>| v@) == crate::textutil::split_lines(content@),
            events@.len() <= i,
            cache.wf(),
            key matches Some(k) ==> k@.len() == 32,
            // Once fetched, the key is exactly what the cache memoized.
            key matches Some(k) ==> cache_key_view(*cache) == Option::Some(k@),
            meta matches Some(m) ==> loaded_meta_ok(content@, m),
            forall|k2: int|
                #![trigger events@[k2]]
                0 <= k2 < events@.len() ==> loaded_event_ok(
                    content@,
                    opt_key_view(key),
                    events@[k2],
                ),
        decreases segments@.len() - i,
    {
        let t = trim_chars(&segments[i]);
        proof {
            assert(segments@.map_values(|v: Vec<char>| v@)[i as int] == segments@[i as int]@);
        }
        if t.len() == 0 {
            i = i + 1;
            continue ;
        }
        match parse_meta_line(&t) {
            Some(m) => {
                if meta.is_none() {
                    proof {
                        assert(spec_trim(crate::textutil::split_lines(content@)[i as int])
                            == meta_line_spec(m));
                    }
                    meta = Some(m);
                }
            },
            None => {
                match parse_input_line(&t) {
                    Some(ev) => {
                        let ghost raw0 = ev.data@;
                        let ghost tline = t@;
                        proof {
                            // This event's line is input-shaped, so under
                            // the all-cleartext hypothesis its payload is
                            // not encrypted-looking.
                            assert(spec_trim(crate::textutil::split_lines(content@)[i as int])
                                == input_line_spec(ev.t as int, ev.data@));
                        }
                        if crate::secure::is_probably_encrypted_value(ev.data.as_str()) {
                            if !decrypt_allowed {
                                return Err(LoadError::ReplayDisabled);
                            }
                            let ghost key_before = key;
                            if key.is_none() {
                                match crate::secure::get_or_create_master_key(cache, service) {
                                    Ok(k) => {
                                        key = Some(k);
                                    },
                                    Err(e) => {
                                        return Err(LoadError::Secure(e));
                                    },
                                }
                                proof {
                                    // Earlier events used no key, so their
                                    // lines carried their payloads verbatim;
                                    // that stays true under the new key.
                                    assert forall|k2: int|
                                        #![trigger events@[k2]]
                                        0 <= k2 < events@.len() implies loaded_event_ok(
                                        content@,
                                        opt_key_view(key),
                                        events@[k2],
                                    ) by {
                                        assert(loaded_event_ok(
                                            content@,
                                            opt_key_view(key_before),
                                            events@[k2],
                                        ));
                                        let ev2 = events@[k2];
                                        let j = choose|j: int|
                                            0 <= j < crate::textutil::split_lines(content@).len()
                                                && loaded_event_from_line(
                                                spec_trim(
                                                    crate::textutil::split_lines(content@)[j],
                                                ),
                                                opt_key_view(key_before),
                                                ev2,
                                            );
                                        let line = spec_trim(
                                            crate::textutil::split_lines(content@)[j],
                                        );
                                        let raw = choose|raw: Seq<char>|
                                            #![trigger input_line_spec(ev2.t as int, raw)]
                                            line == input_line_spec(ev2.t as int, raw) && (raw
                                                == ev2.data@ || (opt_key_view(key_before)
                                                matches Some(kk)
                                                && crate::secure::enc_output(
                                                crate::textutil::spec_trim_start(raw),
                                                kk,
                                                crate::secure::aad_spec(
                                                    crate::secure::SecretContext::Recording,
                                                ),
                                                ev2.data@,
                                            )));
                                        assert(loaded_event_from_line(
                                            line,
                                            opt_key_view(key),
                                            ev2,
                                        ));
                                    }
                                }
                            }
                            match &key {
                                Some(k) => {
                                    match crate::secure::decrypt_string_with_key(
                                        k,
                                        crate::secure::SecretContext::Recording,
                                        ev.data.as_str(),
                                    ) {
                                        Ok(plain) => {
                                            let ghost kview = opt_key_view(key);
                                            let new_ev = RecordingEventV1 { t: ev.t, data: plain };
                                            proof {
                                                assert(tline == input_line_spec(
                                                    new_ev.t as int,
                                                    raw0,
                                                ));
                                                assert(raw0 == new_ev.data@ || (
                                                kview matches Some(kk)
                                                    && crate::secure::enc_output(
                                                    crate::textutil::spec_trim_start(raw0),
                                                    kk,
                                                    crate::secure::aad_spec(
                                                        crate::secure::SecretContext::Recording,
                                                    ),
                                                    new_ev.data@,
                                                )));
                                                assert(loaded_event_from_line(
                                                    tline,
                                                    kview,
                                                    new_ev,
                                                ));
                                                assert(spec_trim(
                                                    crate::textutil::split_lines(
                                                        content@,
                                                    )[i as int],
                                                ) == tline);
                                                assert(loaded_event_ok(content@, kview, new_ev));
                                            }
                                            events.push(new_ev);
                                        },
                                        Err(e) => {
                                            return Err(LoadError::Secure(e));
                                        },
                                    }
                                },
                                None => {
                                    proof {
                                        assert(false);
                                    }
                                },
                            }
                        } else {
                            proof {
                                assert(tline == input_line_spec(ev.t as int, raw0));
                                assert(loaded_event_from_line(tline, opt_key_view(key), ev));
                                assert(spec_trim(crate::textutil::split_lines(content@)[i as int])
                                    == tline);
                                assert(loaded_event_ok(content@, opt_key_view(key), ev));
                            }
                            events.push(ev);
                        }
                    },
                    None => {
                        // Tolerate the malformed line by treating the file
                        // as truncated here.
                        break ;
                    },
                }
            },
        }
        i = i + 1;
    }
    proof {
        // Whatever was decrypted used the cache's memoized key; events read
        // verbatim hold under any key view.
        if key is Some {
            assert(opt_key_view(key) == cache_key_view(*cache));
        } else {
            assert forall|k2: int|
                #![trigger events@[k2]]
                0 <= k2 < events@.len() implies loaded_event_ok(
                content@,
                cache_key_view(*cache),
                events@[k2],
            ) by {
                assert(loaded_event_ok(content@, opt_key_view(key), events@[k2]));
                let ev2 = events@[k2];
                let j = choose|j: int|
                    0 <= j < crate::textutil::split_lines(content@).len()
                        && loaded_event_from_line(
                        spec_trim(crate::textutil::split_lines(content@)[j]),
                        opt_key_view(key),
                        ev2,
                    );
                let line = spec_trim(crate::textutil::split_lines(content@)[j]);
                let raw = choose|raw: Seq<char>|
                    #![trigger input_line_spec(ev2.t as int, raw)]
                    line == input_line_spec(ev2.t as int, raw) && (raw == ev2.data@ || (
                    opt_key_view(key) matches Some(kk) && crate::secure::enc_output(
                        crate::textutil::spec_trim_start(raw),
                        kk,
                        crate::secure::aad_spec(crate::secure::SecretContext::Recording),
                        ev2.data@,
                    )));
                assert(loaded_event_from_line(line, cache_key_view(*cache), ev2));
            }
        }
    }
    Ok(LoadedRecordingV1 { recording_id: safe_id, meta, events })
}

/// The sort key of an index entry: its creation time, zero when the file
/// had no readable metadata.
pub open spec fn entry_key(e: RecordingIndexEntryV1) -> int {
    match e.meta {
        Option::Some(m) => m.created_at as int,
        Option::None => 0,
    }
}

/// Newest-first ordering of index entries.
pub open spec fn sorted_newest_first(s: Seq<RecordingIndexEntryV1>) -> bool {
    forall|i: int, j: int| 0 <= i < j < s.len() ==> entry_key(s[i]) >= entry_key(s[j])
}

/// Orders the recording index newest first: the result is a permutation of
/// the entries, sorted by creation time descending.
pub fn build_recording_index(entries: Vec<RecordingIndexEntryV1>) -> (r: Vec<
    RecordingIndexEntryV1,
>)
    ensures
        r@.to_multiset() == entries@.to_multiset(),
        sorted_newest_first(r@),
{
    broadcast use vstd::seq_lib::group_to_multiset_ensures;
    broadcast use vstd::multiset::group_multiset_axioms;

    let ghost all = entries@;
    let mut work = entries;
    let mut out: Vec<RecordingIndexEntryV1> = Vec::new();
    proof {
        assert(out@.to_multiset().add(work@.to_multiset()) =~= all.to_multiset());
    }
    while work.len() > 0
        invariant
            out@.to_multiset().add(work@.to_multiset()) == all.to_multiset(),
            sorted_newest_first(out@),
            forall|oi: int, wi: int|
                0 <= oi < out@.len() && 0 <= wi < work@.len() ==> entry_key(out@[oi])
                    >= entry_key(work@[wi]),
        decreases work@.len(),
    {
        // The earliest entry with the greatest key, so equal keys keep
        // their original relative order.
        let mut m: usize = 0;
        let mut i: usize = 1;
        while i < work.len()
            invariant
                0 <= m < i <= work@.len(),
                work@.len() > 0,
                forall|j: int| 0 <= j < i ==> entry_key(work@[m as int]) >= entry_key(work@[j]),
            decreases work@.len() - i,
        {
            let better = match (&work[i].meta, &work[m].meta) {
                (Some(a), Some(b)) => a.created_at > b.created_at,
                (Some(a), None) => a.created_at > 0,
                (None, Some(b)) => 0 > b.created_at,
                (None, None) => false,
            };
            if better {
                m = i;
            }
            i = i + 1;
        }
        let ghost work0 = work@;
        let e = work.remove(m);
        let ghost out0 = out@;
        out.push(e);
        proof {
            vstd::seq_lib::to_multiset_remove(work0, m as int);
            vstd::seq_lib::to_multiset_build(out0, e);
            assert(work@ == work0.remove(m as int));
            assert(out@ == out0.push(e));
            assert(work@.to_multiset() =~= work0.to_multiset().remove(work0[m as int]));
            assert(out@.to_multiset() =~= out0.to_multiset().insert(e));
            assert(e == work0[m as int]);
            assert(work0.contains(e));
            vstd::seq_lib::to_multiset_contains(work0, e);
            assert(work0.to_multiset().count(e) > 0);
            assert(out@.to_multiset().add(work@.to_multiset()) =~= all.to_multiset());
            assert forall|oi: int, wi: int|
                0 <= oi < out@.len() && 0 <= wi < work@.len() implies entry_key(out@[oi])
                >= entry_key(work@[wi]) by {
                if wi < m {
                    assert(work@[wi] == work0[wi]);
                } else {
                    assert(work@[wi] == work0[wi + 1]);
                }
                if oi < out0.len() {
                    assert(out@[oi] == out0[oi]);
                } else {
                    assert(out@[oi] == e);
                }
            }
            assert(sorted_newest_first(out@)) by {
                assert forall|i2: int, j2: int|
                    0 <= i2 < j2 < out@.len() implies entry_key(out@[i2]) >= entry_key(
                    out@[j2],
                ) by {
                    if j2 < out0.len() {
                        assert(out@[i2] == out0[i2] && out@[j2] == out0[j2]);
                    } else {
                        assert(out@[i2] == out0[i2] && out@[j2] == e);
                        assert(entry_key(out0[i2]) >= entry_key(work0[m as int]));
                    }
                }
            }
        }
    }
    proof {
        assert(work@.to_multiset() =~= Multiset::<RecordingIndexEntryV1>::empty());
        assert(out@.to_multiset() =~= all.to_multiset());
    }
    out
}

/// Reads the metadata record out of a recording's text: the first metadata
/// line among the first 25 nonblank lines, skipping input events; absent
/// when a line fails to parse first. A returned record re-encodes to one of
/// the file's trimmed lines, so it is never an invention.
pub fn recording_meta_from_text(content: &str) -> (r: Option<RecordingMetaV1>)
    ensures
        r matches Some(m) ==> exists|j: int|
            0 <= j < crate::textutil::split_lines(content@).len() && spec_trim(
                #[trigger] crate::textutil::split_lines(content@)[j],
            ) == meta_line_spec(m),
{
    let chars = str_chars(content);
    let segments = crate::textutil::split_lines_exec(&chars);
    let mut i: usize = 0;
    let mut scanned: usize = 0;
    while i < segments.len() && scanned < 25
        invariant
            0 <= i <= segments@.len(),
            scanned <= i,
            segments@.map_values(|v: Vec<char>| v@) == crate::textutil::split_lines(content@),
        decreases segments@.len() - i,
    {
        let t = trim_chars(&segments[i]);
        proof {
            assert(segments@.map_values(|v: Vec<char>| v@)[i as int] == segments@[i as int]@);
        }
        scanned = scanned + 1;
        if t.len() == 0 {
            i = i + 1;
            continue ;
        }
        match parse_meta_line(&t) {
            Some(m) => {
                proof {
                    assert(spec_trim(crate::textutil::split_lines(content@)[i as int])
                        == meta_line_spec(m));
                }
                return Some(m);
            },
            None => {
                if parse_input_line(&t).is_none() {
                    return None;
                }
            },
        }
        i = i + 1;
    }
    None
}

} // verus!


