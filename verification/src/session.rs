//! The session registry: the shared mapping from session id to live session
//! state. Ids come from a monotonic counter and are never reused while the
//! registry holds any session; display names are deduplicated against all
//! currently registered sessions; a session whose `closing` latch is set
//! accepts no further writes or resizes.

use vstd::prelude::*;
use vstd::relations::injective_on;
use vstd::set_lib::{lemma_int_range, lemma_len_subset, lemma_map_size, set_int_range};
use crate::recording::RecordingState;
use crate::textutil::{chars_to_string, dec_digits, spec_trim, str_chars, trim_chars, u64_to_string,
};

verus! {

/// What a session looks like to the display surface.
#[derive(Clone)]
pub struct SessionInfo {
    pub id: String,
    pub name: String,
    pub command: String,
    pub cwd: Option<String>,
}

/// Errors of the registry operations.
#[derive(Clone, Copy, PartialEq, Eq, Structural, Debug)]
pub enum SessionError {
    /// The id names no currently registered session.
    UnknownSession,
    /// A recording is already active on this session.
    AlreadyRecording,
}

/// One live session under management. The OS handles (PTY master, writer,
/// child process) live with the caller, keyed by the same id; the registry
/// holds every field a decision depends on.
pub struct Session {
    /// The numeric form of the id, drawn from the registry counter.
    pub id_num: u64,
    /// The id as handed to the display surface: decimal digits of `id_num`.
    pub id: String,
    /// The deduplicated display name.
    pub name: String,
    /// The fully resolved command shown to the user.
    pub command: String,
    /// The working directory the session was started in, if any.
    pub cwd: Option<String>,
    /// Once set, writes and resizes are ignored and never honored again.
    pub closing: bool,
    /// The active recording, at most one.
    pub recording: Option<RecordingState>,
}

/// The lock-protected registry state.
pub struct SessionRegistry {
    /// The next id to assign; strictly above every id in the registry.
    pub next_id: u64,
    /// The registered sessions.
    pub sessions: Vec<Session>,
}

/// The display names of a session list.
pub open spec fn names_of(ss: Seq<Session>) -> Seq<Seq<char>> {
    ss.map_values(|s: Session| s.name@)
}

/// True when some listed name equals `cand`.
pub open spec fn name_taken(names: Seq<Seq<char>>, cand: Seq<char>) -> bool {
    exists|i: int| 0 <= i < names.len() && names[i] == cand
}

/// The n-th fallback name for a base: `base-n`.
pub open spec fn candidate_name(base: Seq<char>, n: int) -> Seq<char> {
    base + seq!['-'] + dec_digits(n)
}

/// True when some session carries this id.
pub open spec fn id_found(ss: Seq<Session>, id: Seq<char>) -> bool {
    exists|i: int| 0 <= i < ss.len() && ss[i].id@ == id
}

/// The name-deduplication contract: the result is the base itself when the
/// base is free, else `base-n` for the least free n at least 2.
pub open spec fn dedup_name_ok(names: Seq<Seq<char>>, base: Seq<char>, r: Seq<char>) -> bool {
    &&& !name_taken(names, r)
    &&& (!name_taken(names, base) ==> r == base)
    &&& (name_taken(names, base) ==> exists|n: int|
        2 <= n && r == candidate_name(base, n) && (forall|m: int|
            2 <= m < n ==> name_taken(names, candidate_name(base, m))))
}

impl SessionRegistry {
    /// Registry well-formedness: every id is below the counter and rendered
    /// from its number, and ids and names are unique across sessions.
    pub open spec fn wf(&self) -> bool {
        &&& forall|i: int|
            #![trigger self.sessions@[i]]
            0 <= i < self.sessions@.len() ==> {
                &&& self.sessions@[i].id_num < self.next_id
                &&& self.sessions@[i].id@ == dec_digits(self.sessions@[i].id_num as int)
                &&& (self.sessions@[i].recording matches Some(rec) ==> rec.wf())
            }
        &&& forall|i: int, j: int|
            #![trigger self.sessions@[i], self.sessions@[j]]
            0 <= i < j < self.sessions@.len() ==> self.sessions@[i].id_num
                != self.sessions@[j].id_num && self.sessions@[i].name@ != self.sessions@[j].name@
        &&& self.sessions@.len() <= self.next_id
    }

    /// An empty registry.
    pub fn new() -> (r: SessionRegistry)
        ensures
            r.wf(),
            r.sessions@.len() == 0,
            r.next_id == 0,
    {
        SessionRegistry { next_id: 0, sessions: Vec::new() }
    }

    /// The index of the session with this id, if any.
    fn find(&self, id: &str) -> (r: Option<usize>)
        ensures
            r matches Some(i) ==> i < self.sessions@.len() && self.sessions@[i as int].id@ == id@,
            r is None ==> !id_found(self.sessions@, id@),
    {
        let id_chars = str_chars(id);
        let id_string = chars_to_string(&id_chars);
        let mut i: usize = 0;
        while i < self.sessions.len()
            invariant
                0 <= i <= self.sessions@.len(),
                id_string@ == id@,
                forall|j: int| 0 <= j < i ==> self.sessions@[j].id@ != id@,
            decreases self.sessions@.len() - i,
        {
            if self.sessions[i].id.eq(&id_string) {
                return Some(i);
            }
            i = i + 1;
        }
        None
    }
}

/// Appending to a sequence of digits cannot collide for distinct numbers;
/// the concrete counting argument behind name deduplication.
proof fn lemma_candidate_injective(base: Seq<char>, m1: int, m2: int)
    requires
        m1 >= 0,
        m2 >= 0,
        candidate_name(base, m1) == candidate_name(base, m2),
    ensures
        m1 == m2,
{
    let c1 = candidate_name(base, m1);
    let c2 = candidate_name(base, m2);
    assert(dec_digits(m1) =~= c1.skip(base.len() as int + 1));
    assert(dec_digits(m2) =~= c2.skip(base.len() as int + 1));
    crate::textutil::lemma_dec_digits_injective(m1, m2);
}

/// If every fallback name `base-2` .. `base-(n-1)` is taken, the list holds
/// at least `n - 2` names: the pigeonhole bound that makes the search for a
/// free name terminate.
proof fn lemma_candidates_pigeonhole(names: Seq<Seq<char>>, base: Seq<char>, n: int)
    requires
        n >= 2,
        forall|m: int| 2 <= m < n ==> name_taken(names, candidate_name(base, m)),
    ensures
        n - 2 <= names.len(),
{
    let f = |m: int| choose|i: int| 0 <= i < names.len() && names[i] == candidate_name(base, m);
    let dom = set_int_range(2, n);
    lemma_int_range(2, n);
    assert forall|m: int| dom.contains(m) implies 0 <= f(m) < names.len() && names[f(m)]
        == candidate_name(base, m) by {
        assert(name_taken(names, candidate_name(base, m)));
    }
    assert(injective_on(f, dom)) by {
        assert forall|m1: int, m2: int|
            dom.contains(m1) && dom.contains(m2) && #[trigger] f(m1) == #[trigger] f(
                m2,
            ) implies m1 == m2 by {
            assert(names[f(m1)] == candidate_name(base, m1));
            assert(names[f(m2)] == candidate_name(base, m2));
            lemma_candidate_injective(base, m1, m2);
        }
    }
    let image = dom.map(f);
    lemma_map_size(dom, image, f);
    assert(image.subset_of(set_int_range(0, names.len() as int))) by {
        assert forall|x: int| image.contains(x) implies set_int_range(
            0,
            names.len() as int,
        ).contains(x) by {
            let m = choose|m: int| dom.contains(m) && f(m) == x;
            assert(0 <= f(m) < names.len());
        }
    }
    lemma_int_range(0, names.len() as int);
    lemma_len_subset(image, set_int_range(0, names.len() as int));
}

/// True when some session's name equals this string.
fn name_in_use(sessions: &Vec<Session>, cand: &String) -> (b: bool)
    ensures
        b == name_taken(names_of(sessions@), cand@),
{
    let mut i: usize = 0;
    while i < sessions.len()
        invariant
            0 <= i <= sessions@.len(),
            forall|j: int| 0 <= j < i ==> names_of(sessions@)[j] != cand@,
        decreases sessions@.len() - i,
    {
        proof {
            assert(names_of(sessions@)[i as int] == sessions@[i as int].name@);
        }
        if sessions[i].name.eq(cand) {
            proof {
                assert(name_taken(names_of(sessions@), cand@));
            }
            return true;
        }
        i = i + 1;
    }
    false
}

/// Deduplicates a display name against the registered sessions by appending
/// `-2`, `-3`, ... to the base until a free name is found.
pub fn unique_name(sessions: &Vec<Session>, base: &Vec<char>) -> (r: String)
    requires
        sessions@.len() + 2 <= u64::MAX,
    ensures
        dedup_name_ok(names_of(sessions@), base@, r@),
{
    let base_string = chars_to_string(base);
    if !name_in_use(sessions, &base_string) {
        return base_string;
    }
    let mut n: u64 = 2;
    loop
        invariant
            2 <= n,
            sessions@.len() + 2 <= u64::MAX,
            n - 2 <= sessions@.len(),
            name_taken(names_of(sessions@), base@),
            forall|m: int| 2 <= m < n ==> name_taken(names_of(sessions@), candidate_name(base@, m)),
        decreases sessions@.len() + 2 - n,
    {
        let mut cand_chars: Vec<char> = Vec::new();
        let mut base_copy = base.clone();
        cand_chars.append(&mut base_copy);
        cand_chars.push('-');
        crate::textutil::push_dec_u64(&mut cand_chars, n);
        proof {
            assert(cand_chars@ =~= candidate_name(base@, n as int));
        }
        let cand = chars_to_string(&cand_chars);
        if !name_in_use(sessions, &cand) {
            return cand;
        }
        proof {
            lemma_candidates_pigeonhole(names_of(sessions@), base@, n as int + 1);
            assert(names_of(sessions@).len() == sessions@.len());
            assert(n as int <= sessions@.len() + 1);
        }
        n = n + 1;
    }
}

/// The base display name for a creation request: the trimmed requested
/// name; `shell` or `agent` when none was given; `session` when the request
/// trimmed to nothing.
pub open spec fn base_name_spec(name: Option<String>, is_shell: bool) -> Seq<char> {
    let b = match name {
        Option::Some(n) => spec_trim(n@),
        Option::None => if is_shell {
            seq!['s', 'h', 'e', 'l', 'l']
        } else {
            seq!['a', 'g', 'e', 'n', 't']
        },
    };
    if b.len() == 0 {
        seq!['s', 'e', 's', 's', 'i', 'o', 'n']
    } else {
        b
    }
}

impl SessionRegistry {
    /// Registers a new session: assigns the next id from the monotonic
    /// counter, deduplicates the display name against every registered
    /// session, and inserts the session open (not closing) and without a
    /// recording. The caller spawns the PTY and its reader thread under the
    /// returned id.
    pub fn create_session(
        &mut self,
        name: Option<String>,
        shown_command: String,
        cwd: Option<String>,
        is_shell: bool,
    ) -> (info: SessionInfo)
        requires
            old(self).wf(),
            old(self).next_id + 2 <= u64::MAX,
        ensures
            final(self).wf(),
            final(self).next_id == old(self).next_id + 1,
            final(self).sessions@.len() == old(self).sessions@.len() + 1,
            final(self).sessions@.take(old(self).sessions@.len() as int) == old(self).sessions@,
            ({
                let s = final(self).sessions@.last();
                &&& s.id_num == old(self).next_id
                &&& s.id@ == dec_digits(old(self).next_id as int)
                &&& s.command == shown_command
                &&& s.cwd == cwd
                &&& s.closing == false
                &&& s.recording is None
                &&& info.id == s.id
                &&& info.name == s.name
                &&& info.command == s.command
                &&& info.cwd == s.cwd
            }),
            // Display-name uniqueness: the new name collides with no
            // registered session, and follows the `-2`, `-3`, ... policy.
            dedup_name_ok(names_of(old(self).sessions@), base_name_spec(name, is_shell), info.name@),
    {
        let base: Vec<char> = match &name {
            Some(n) => {
                let t = trim_chars(&str_chars(n.as_str()));
                if t.len() == 0 {
                    let mut v: Vec<char> = Vec::new();
                    v.push('s');
                    v.push('e');
                    v.push('s');
                    v.push('s');
                    v.push('i');
                    v.push('o');
                    v.push('n');
                    proof {
                        assert(v@ =~= base_name_spec(name, is_shell));
                    }
                    v
                } else {
                    t
                }
            },
            None => {
                let mut v: Vec<char> = Vec::new();
                if is_shell {
                    v.push('s');
                    v.push('h');
                    v.push('e');
                    v.push('l');
                    v.push('l');
                } else {
                    v.push('a');
                    v.push('g');
                    v.push('e');
                    v.push('n');
                    v.push('t');
                }
                proof {
                    assert(v@ =~= base_name_spec(name, is_shell));
                }
                v
            },
        };
        let final_name = unique_name(&self.sessions, &base);
        let id_num = self.next_id;
        self.next_id = self.next_id + 1;
        let id_string = u64_to_string(id_num);
        let info = SessionInfo {
            id: id_string.clone(),
            name: final_name.clone(),
            command: shown_command.clone(),
            cwd: clone_opt_string(&cwd),
        };
        let session = Session {
            id_num,
            id: id_string,
            name: final_name,
            command: shown_command,
            cwd,
            closing: false,
            recording: None,
        };
        self.sessions.push(session);
        proof {
            assert(final(self).sessions@.take(old(self).sessions@.len() as int) =~= old(self).sessions@);
            let fs = final(self).sessions@;
            assert forall|i: int, j: int|
                #![trigger fs[i], fs[j]]
                0 <= i < j < fs.len() implies fs[i].id_num != fs[j].id_num && fs[i].name@
                != fs[j].name@ by {
                if j == fs.len() - 1 {
                    assert(names_of(old(self).sessions@)[i] == old(self).sessions@[i].name@);
                    assert(!name_taken(names_of(old(self).sessions@), fs[j].name@));
                }
            }
            assert(final(self).wf());
        }
        info
    }

    /// Lists the registered sessions as the display surface sees them. The
    /// working directory is not tracked per live session and is reported as
    /// absent.
    pub fn list_sessions(&self) -> (r: Vec<SessionInfo>)
        ensures
            r@.len() == self.sessions@.len(),
            forall|i: int|
                #![trigger r@[i]]
                0 <= i < r@.len() ==> r@[i].id == self.sessions@[i].id && r@[i].name
                    == self.sessions@[i].name && r@[i].command == self.sessions@[i].command
                    && r@[i].cwd is None,
    {
        let mut out: Vec<SessionInfo> = Vec::new();
        let mut i: usize = 0;
        while i < self.sessions.len()
            invariant
                0 <= i <= self.sessions@.len(),
                out@.len() == i,
                forall|j: int|
                    #![trigger out@[j]]
                    0 <= j < i ==> out@[j].id == self.sessions@[j].id && out@[j].name
                        == self.sessions@[j].name && out@[j].command == self.sessions@[j].command
                        && out@[j].cwd is None,
            decreases self.sessions@.len() - i,
        {
            let s = &self.sessions[i];
            out.push(
                SessionInfo {
                    id: s.id.clone(),
                    name: s.name.clone(),
                    command: s.command.clone(),
                    cwd: None,
                },
            );
            i = i + 1;
        }
        out
    }
}

/// A field-for-field copy of an optional string.
fn clone_opt_string(o: &Option<String>) -> (r: Option<String>)
    ensures
        r == *o,
{
    match o {
        Some(s) => Some(s.clone()),
        None => None,
    }
}

/// What a write call asks the caller to do, beyond the registry bookkeeping
/// it already did.
pub struct WriteOutcome {
    /// Forward the bytes to the PTY writer; false exactly when the session
    /// is closing (the write is silently dropped, not an error).
    pub forward: bool,
    /// Record-log lines to append, in order.
    pub record_lines: Vec<String>,
    /// Flush the record log now.
    pub flush_recording: bool,
    /// The recording failed and was detached; the session stays live.
    pub recording_detached: bool,
    /// For encrypted recordings: the ciphertext payload of each appended
    /// line, for reasoning only.
    pub cipher_witness: Ghost<Seq<Seq<char>>>,
}

/// The index of the session carrying `id`; meaningful only when
/// [`id_found`] holds and ids are unique.
pub open spec fn idx_of(ss: Seq<Session>, id: Seq<char>) -> int {
    choose|i: int| 0 <= i < ss.len() && ss[i].id@ == id
}

impl SessionRegistry {
    /// Writes to a session: rejected with `UnknownSession` for a missing
    /// id; silently dropped (no error, nothing forwarded) on a closing
    /// session; otherwise the bytes are forwarded, and a user-sourced write
    /// additionally runs through the active recording's scanner. A
    /// recording failure detaches the recording but never fails the write.
    pub fn write_to_session(&mut self, id: &str, data: &str, is_user: bool, now_ms: u64) -> (r:
        Result<WriteOutcome, SessionError>)
        requires
            old(self).wf(),
        ensures
            final(self).wf(),
            final(self).next_id == old(self).next_id,
            final(self).sessions@.len() == old(self).sessions@.len(),
            r is Err ==> r->Err_0 is UnknownSession && *final(self) == *old(self),
            (r is Ok) == id_found(old(self).sessions@, id@),
            r matches Ok(out) ==> forall|i: int|
                #![trigger old(self).sessions@[i]]
                0 <= i < old(self).sessions@.len() && old(self).sessions@[i].id@ == id@
                    ==> write_outcome_ok(
                    old(self).sessions@,
                    final(self).sessions@,
                    i,
                    out,
                    data@,
                    is_user,
                    now_ms,
                ),
    {
        let i = match self.find(id) {
            Some(i) => i,
            None => {
                return Err(SessionError::UnknownSession);
            },
        };
        let ghost ss0 = self.sessions@;
        proof {
            lemma_idx_of_unique(ss0, id@, i as int);
        }
        if self.sessions[i].closing {
            let out = WriteOutcome {
                forward: false,
                record_lines: Vec::new(),
                flush_recording: false,
                recording_detached: false,
                cipher_witness: Ghost(Seq::empty()),
            };
            proof {
                assert(write_outcome_ok(ss0, ss0, i as int, out, data@, is_user, now_ms));
            }
            return Ok(out);
        }
        if !is_user || self.sessions[i].recording.is_none() {
            let out = WriteOutcome {
                forward: true,
                record_lines: Vec::new(),
                flush_recording: false,
                recording_detached: false,
                cipher_witness: Ghost(Seq::empty()),
            };
            proof {
                assert(write_outcome_ok(ss0, ss0, i as int, out, data@, is_user, now_ms));
            }
            return Ok(out);
        }
        let data_chars = str_chars(data);
        let s = &mut self.sessions[i];
        let mut taken: Option<RecordingState> = None;
        std::mem::swap(&mut taken, &mut s.recording);
        let mut rec = match taken {
            Some(rec) => rec,
            None => {
                proof {
                    assert(false);
                }
                return Err(SessionError::UnknownSession);
            },
        };
        match crate::recording::record_user_input(&mut rec, &data_chars, now_ms) {
            Ok((lines, flush, w)) => {
                s.recording = Some(rec);
                let out = WriteOutcome {
                    forward: true,
                    record_lines: lines,
                    flush_recording: flush,
                    recording_detached: false,
                    cipher_witness: w,
                };
                proof {
                    assert(final(self).sessions@ == ss0.update(i as int, *final(s)));
                    assert(write_outcome_ok(
                        ss0,
                        final(self).sessions@,
                        i as int,
                        out,
                        data@,
                        is_user,
                        now_ms,
                    ));
                }
                Ok(out)
            },
            Err(_) => {
                let out = WriteOutcome {
                    forward: true,
                    record_lines: Vec::new(),
                    flush_recording: false,
                    recording_detached: true,
                    cipher_witness: Ghost(Seq::empty()),
                };
                proof {
                    assert(final(self).sessions@ == ss0.update(i as int, *final(s)));
                    assert(write_outcome_ok(
                        ss0,
                        final(self).sessions@,
                        i as int,
                        out,
                        data@,
                        is_user,
                        now_ms,
                    ));
                }
                Ok(out)
            },
        }
    }
}

/// Everything a successful write guarantees about the session at index `i`
/// and the returned outcome.
pub open spec fn write_outcome_ok(
    ss_old: Seq<Session>,
    ss_new: Seq<Session>,
    i: int,
    out: WriteOutcome,
    data: Seq<char>,
    is_user: bool,
    now_ms: u64,
) -> bool {
    let s_old = ss_old[i];
    &&& out.forward == !s_old.closing
    &&& (forall|j: int| 0 <= j < ss_old.len() && j != i ==> ss_new[j] == ss_old[j])
    &&& (s_old.closing ==> ss_new == ss_old && out.record_lines@.len() == 0
        && !out.flush_recording && !out.recording_detached)
    &&& (!s_old.closing && (!is_user || s_old.recording is None) ==> ss_new == ss_old
        && out.record_lines@.len() == 0 && !out.flush_recording && !out.recording_detached)
    &&& (!s_old.closing && is_user && s_old.recording is Some ==> {
        let rec0 = s_old.recording->Some_0;
        let res = crate::scan::scan(rec0.input_buffer@, data);
        let t = crate::recording::spec_elapsed(now_ms as int, rec0.started_at_ms as int);
        let s_new = ss_new[i];
        &&& s_new.id_num == s_old.id_num
        &&& s_new.id == s_old.id
        &&& s_new.name == s_old.name
        &&& s_new.command == s_old.command
        &&& s_new.cwd == s_old.cwd
        &&& s_new.closing == s_old.closing
        &&& (out.recording_detached ==> s_new.recording is None && out.record_lines@.len() == 0)
        &&& (rec0.enc_key is None || 4 * (rec0.input_buffer@.len() + data.len())
            < crate::secure::seal_msg_max() ==> !out.recording_detached)
        &&& (!out.recording_detached ==> {
            let rec1 = s_new.recording->Some_0;
            &&& s_new.recording is Some
            &&& rec1.recording_id == rec0.recording_id
            &&& rec1.started_at_ms == rec0.started_at_ms
            &&& rec1.enc_key == rec0.enc_key
            &&& rec1.input_buffer@ == res.0
            &&& out.record_lines@.len() == res.1.len()
            &&& out.cipher_witness@.len() == res.1.len()
            &&& (rec0.enc_key is None ==> forall|k: int|
                0 <= k < res.1.len() ==> out.record_lines@[k]@
                    == crate::recording::input_line_spec(t, res.1[k]))
            &&& (rec0.enc_key is Some ==> forall|k: int|
                #![trigger out.cipher_witness@[k]]
                0 <= k < res.1.len() ==> crate::secure::enc_output(
                    out.cipher_witness@[k],
                    rec0.enc_key->Some_0@,
                    crate::secure::aad_spec(crate::secure::SecretContext::Recording),
                    res.1[k],
                ) && out.record_lines@[k]@ == crate::recording::input_line_spec(
                    t,
                    out.cipher_witness@[k],
                ))
            &&& out.flush_recording == (res.1.len() > 0 || rec0.unflushed_bytes
                + vstd::utf8::encode_utf8(data).len() >= 16384
                || crate::recording::spec_elapsed(now_ms as int, rec0.last_flush_ms as int)
                >= 1500)
            &&& rec1.unflushed_bytes as int == if out.flush_recording {
                0int
            } else {
                rec0.unflushed_bytes + vstd::utf8::encode_utf8(data).len()
            }
            &&& rec1.last_flush_ms as int == if out.flush_recording {
                now_ms as int
            } else {
                rec0.last_flush_ms as int
            }
        })
    })
}

/// The registry after a close request: the named session's `closing` latch
/// is set; a missing id changes nothing.
pub open spec fn spec_close(ss: Seq<Session>, id: Seq<char>) -> Seq<Session> {
    if id_found(ss, id) {
        let i = idx_of(ss, id);
        ss.update(i, Session { closing: true, ..ss[i] })
    } else {
        ss
    }
}

/// True when a close call must ask the child process to terminate: only on
/// the first close of a live session.
pub open spec fn close_kills(ss: Seq<Session>, id: Seq<char>) -> bool {
    id_found(ss, id) && !ss[idx_of(ss, id)].closing
}

impl SessionRegistry {
    /// Requests that a session close: idempotent, and a missing id is
    /// success. The first call on a live session sets the `closing` latch
    /// and returns true so the caller kills the child; any further call is
    /// a no-op. Actual removal happens when the caller's reader thread
    /// observes end-of-stream and calls [`SessionRegistry::remove_session`].
    pub fn close_session(&mut self, id: &str) -> (kill: bool)
        requires
            old(self).wf(),
        ensures
            final(self).wf(),
            final(self).next_id == old(self).next_id,
            final(self).sessions@ == spec_close(old(self).sessions@, id@),
            kill == close_kills(old(self).sessions@, id@),
    {
        let ghost ss0 = self.sessions@;
        let i = match self.find(id) {
            Some(i) => i,
            None => {
                proof {
                    assert(final(self).sessions@ =~= spec_close(ss0, id@));
                }
                return false;
            },
        };
        proof {
            lemma_idx_of_unique(ss0, id@, i as int);
        }
        if self.sessions[i].closing {
            proof {
                assert(Session { closing: true, ..ss0[i as int] } == ss0[i as int]);
                assert(spec_close(ss0, id@) =~= ss0.update(i as int, ss0[i as int]));
                assert(spec_close(ss0, id@) =~= ss0);
            }
            return false;
        }
        let s = &mut self.sessions[i];
        s.closing = true;
        proof {
            assert(final(self).sessions@ =~= spec_close(ss0, id@));
        }
        true
    }

    /// Decides a resize request: `UnknownSession` for a missing id, and a
    /// silent no-op (apply == false) on a closing session. The caller
    /// applies the new dimensions to the PTY only when `apply` is true.
    pub fn resize_session(&self, id: &str, cols: u16, rows: u16) -> (r: Result<
        bool,
        SessionError,
    >)
        requires
            self.wf(),
        ensures
            (r is Ok) == id_found(self.sessions@, id@),
            r is Err ==> r->Err_0 is UnknownSession,
            r matches Ok(apply) ==> forall|i: int|
                #![trigger self.sessions@[i]]
                0 <= i < self.sessions@.len() && self.sessions@[i].id@ == id@ ==> apply
                    == !self.sessions@[i].closing,
    {
        let _ = cols;
        let _ = rows;
        match self.find(id) {
            Some(i) => {
                proof {
                    lemma_idx_of_unique(self.sessions@, id@, i as int);
                }
                Ok(!self.sessions[i].closing)
            },
            None => Err(SessionError::UnknownSession),
        }
    }

    /// Decides a detach request: the byte pair to send to the writer (the
    /// multiplexer's default detach chord, Ctrl+O then `d`), or nothing for
    /// a missing id (which is success, as for close).
    pub fn detach_session(&self, id: &str) -> (r: Option<Vec<u8>>)
        ensures
            (r is Some) == id_found(self.sessions@, id@),
            r matches Some(b) ==> b@ == seq![0x0fu8, 0x64u8],
    {
        match self.find(id) {
            Some(_) => {
                let mut b: Vec<u8> = Vec::new();
                b.push(0x0f);
                b.push(0x64);
                proof {
                    assert(b@ =~= seq![0x0fu8, 0x64u8]);
                }
                Some(b)
            },
            None => None,
        }
    }

    /// Attaches a prepared recording to a session. Fails with
    /// `UnknownSession` for a missing id and with `AlreadyRecording` when a
    /// recording is already active; the session itself is untouched on
    /// failure.
    pub fn start_session_recording(&mut self, id: &str, rec: crate::recording::RecordingState) -> (
        r: Result<(), SessionError>)
        requires
            old(self).wf(),
            rec.wf(),
        ensures
            final(self).wf(),
            final(self).next_id == old(self).next_id,
            final(self).sessions@.len() == old(self).sessions@.len(),
            r is Err ==> *final(self) == *old(self) && (r->Err_0 is UnknownSession ==> !id_found(
                old(self).sessions@,
                id@,
            )),
            !id_found(old(self).sessions@, id@) ==> r is Err && r->Err_0 is UnknownSession,
            r matches Err(e) ==> e is UnknownSession || e is AlreadyRecording,
            r is Ok ==> forall|i: int|
                #![trigger old(self).sessions@[i]]
                0 <= i < old(self).sessions@.len() && old(self).sessions@[i].id@ == id@ ==> old(self).sessions@[i].recording is None && final(self).sessions@ == old(self).sessions@.update(
                    i,
                    Session { recording: Some(rec), ..old(self).sessions@[i] },
                ),
            r is Ok <==> (id_found(old(self).sessions@, id@) && old(self).sessions@[idx_of(
                old(self).sessions@,
                id@,
            )].recording is None),
    {
        let ghost ss0 = self.sessions@;
        let i = match self.find(id) {
            Some(i) => i,
            None => {
                return Err(SessionError::UnknownSession);
            },
        };
        proof {
            lemma_idx_of_unique(ss0, id@, i as int);
        }
        if self.sessions[i].recording.is_some() {
            return Err(SessionError::AlreadyRecording);
        }
        let ghost rec0 = rec;
        let s = &mut self.sessions[i];
        s.recording = Some(rec);
        proof {
            assert(final(self).sessions@ == ss0.update(i as int, *final(s)));
            assert(*final(s) == Session { recording: Some(rec0), ..ss0[i as int] });
        }
        Ok(())
    }

    /// Detaches the active recording, returning its id for the caller to
    /// flush and report; `Ok(None)` when none was active.
    pub fn stop_session_recording(&mut self, id: &str) -> (r: Result<Option<String>, SessionError>)
        requires
            old(self).wf(),
        ensures
            final(self).wf(),
            final(self).next_id == old(self).next_id,
            final(self).sessions@.len() == old(self).sessions@.len(),
            (r is Err) == !id_found(old(self).sessions@, id@),
            r is Err ==> r->Err_0 is UnknownSession && *final(self) == *old(self),
            r is Ok ==> forall|i: int|
                #![trigger old(self).sessions@[i]]
                0 <= i < old(self).sessions@.len() && old(self).sessions@[i].id@ == id@ ==> final(self).sessions@ == old(self).sessions@.update(
                    i,
                    Session { recording: None, ..old(self).sessions@[i] },
                ) && (match old(self).sessions@[i].recording {
                    Some(rec0) => r->Ok_0 matches Some(rid) && rid == rec0.recording_id,
                    None => r->Ok_0 is None,
                }),
    {
        let ghost ss0 = self.sessions@;
        let i = match self.find(id) {
            Some(i) => i,
            None => {
                return Err(SessionError::UnknownSession);
            },
        };
        proof {
            lemma_idx_of_unique(ss0, id@, i as int);
        }
        let s = &mut self.sessions[i];
        let mut taken: Option<crate::recording::RecordingState> = None;
        std::mem::swap(&mut taken, &mut s.recording);
        proof {
            assert(final(self).sessions@ =~= ss0.update(
                i as int,
                Session { recording: None, ..ss0[i as int] },
            ));
        }
        match taken {
            Some(rec) => Ok(Some(rec.recording_id)),
            None => Ok(None),
        }
    }

    /// Removes a session once its reader observed end-of-stream; the caller
    /// then collects the child's exit code. Removal happens exactly once:
    /// a second call with the same id finds nothing and reports it.
    pub fn remove_session(&mut self, id: &str) -> (removed: bool)
        requires
            old(self).wf(),
        ensures
            final(self).wf(),
            final(self).next_id == old(self).next_id,
            removed == id_found(old(self).sessions@, id@),
            !removed ==> *final(self) == *old(self),
            removed ==> final(self).sessions@.len() == old(self).sessions@.len() - 1
                && !id_found(final(self).sessions@, id@),
    {
        let ghost ss0 = self.sessions@;
        let i = match self.find(id) {
            Some(i) => i,
            None => {
                return false;
            },
        };
        proof {
            lemma_idx_of_unique(ss0, id@, i as int);
        }
        let _ = self.sessions.remove(i);
        proof {
            assert forall|j: int|
                0 <= j < final(self).sessions@.len() implies final(self).sessions@[j].id@
                != id@ by {
                if j < i {
                    assert(final(self).sessions@[j] == ss0[j]);
                } else {
                    assert(final(self).sessions@[j] == ss0[j + 1]);
                }
            }
        }
        true
    }
}

/// With unique ids, the chosen index of a found id is the index where it
/// stands.
proof fn lemma_idx_of_unique(ss: Seq<Session>, id: Seq<char>, i: int)
    requires
        0 <= i < ss.len(),
        ss[i].id@ == id,
        forall|a: int, b: int|
            #![trigger ss[a], ss[b]]
            0 <= a < b < ss.len() ==> ss[a].id_num != ss[b].id_num,
        forall|a: int|
            #![trigger ss[a]]
            0 <= a < ss.len() ==> ss[a].id@ == dec_digits(ss[a].id_num as int),
    ensures
        id_found(ss, id),
        idx_of(ss, id) == i,
        forall|i2: int| #![trigger ss[i2]] 0 <= i2 < ss.len() && ss[i2].id@ == id ==> i2 == i,
{
    assert(id_found(ss, id));
    assert forall|i2: int| #![trigger ss[i2]] 0 <= i2 < ss.len() && ss[i2].id@
        == id implies i2 == i by {
        if i2 != i {
            assert(dec_digits(ss[i].id_num as int) == dec_digits(ss[i2].id_num as int));
            crate::textutil::lemma_dec_digits_injective(ss[i].id_num as int, ss[i2].id_num as int);
        }
    }
    let j = idx_of(ss, id);
    assert(0 <= j < ss.len() && ss[j].id@ == id);
}

/// Display names in a well-formed registry are pairwise distinct: whatever
/// sequence of creation requests produced it, with whatever colliding base
/// names, no two registered sessions share a name.
pub proof fn lemma_registry_names_unique(reg: SessionRegistry, i: int, j: int)
    requires
        reg.wf(),
        0 <= i < reg.sessions@.len(),
        0 <= j < reg.sessions@.len(),
        i != j,
    ensures
        reg.sessions@[i].name@ != reg.sessions@[j].name@,
{
}

/// Closing a session twice has exactly the effect of closing it once: the
/// second call changes nothing and asks for no kill. Ids are unique under
/// the registry invariant, which is all the lemma assumes.
pub proof fn lemma_close_idempotent(ss: Seq<Session>, id: Seq<char>)
    requires
        forall|a: int, b: int|
            #![trigger ss[a], ss[b]]
            0 <= a < b < ss.len() ==> ss[a].id_num != ss[b].id_num,
        forall|a: int|
            #![trigger ss[a]]
            0 <= a < ss.len() ==> ss[a].id@ == dec_digits(ss[a].id_num as int),
    ensures
        spec_close(spec_close(ss, id), id) == spec_close(ss, id),
        !close_kills(spec_close(ss, id), id),
{
    if id_found(ss, id) {
        let i = idx_of(ss, id);
        assert(0 <= i < ss.len() && ss[i].id@ == id);
        let ss1 = spec_close(ss, id);
        assert(ss1 == ss.update(i, Session { closing: true, ..ss[i] }));
        assert(ss1[i].id@ == id);
        assert(id_found(ss1, id));
        let j = idx_of(ss1, id);
        assert(0 <= j < ss1.len() && ss1[j].id@ == id);
        // Ids are untouched by the close, so the unique index is found
        // again.
        if i != j {
            assert(ss1[j].id_num == ss[j].id_num && ss1[j].id == ss[j].id);
            assert(dec_digits(ss[i].id_num as int) == dec_digits(ss[j].id_num as int));
            crate::textutil::lemma_dec_digits_injective(ss[i].id_num as int, ss[j].id_num as int);
        }
        assert(j == i);
        assert(ss1[j].closing);
        assert(Session { closing: true, ..ss1[j] } == ss1[j]);
        assert(spec_close(ss1, id) =~= ss1.update(j, ss1[j]));
        assert(spec_close(ss1, id) =~= ss1);
    }
}

} // verus!
