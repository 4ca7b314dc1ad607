//! The persistent-session coordinator: maps stable persist ids to named
//! sessions inside the external terminal multiplexer, keeps every managed
//! session behind a fixed name prefix, and refuses to touch any session
//! whose name lacks that prefix.

use vstd::prelude::*;
use crate::textutil::{
    chars_to_string, spec_trim, split_lines, split_lines_exec, str_chars, trim_chars,
};

verus! {

/// A managed multiplexer session as reported to the caller.
#[derive(Clone)]
pub struct PersistentSessionInfo {
    pub persist_id: String,
    pub session_name: String,
}

/// Coordinator errors.
#[derive(Clone, Copy, PartialEq, Eq, Structural, Debug)]
pub enum CoordError {
    /// The persist id was empty after trimming.
    MissingPersistId,
    /// The session name lacks the managed prefix; killing it is refused.
    RefusedUnmanaged,
}

/// The name prefix of every managed multiplexer session.
pub open spec fn managed_prefix() -> Seq<char> {
    seq!['a', 'g', 'e', 'n', 't', 's', '-', 'u', 'i', '-']
}

/// The per-character sanitization of a persist id inside a session name.
pub open spec fn managed_name_char(c: char) -> char {
    if ('0' <= c && c <= '9') || ('a' <= c && c <= 'z') || ('A' <= c && c <= 'Z') || c == '-' || c
        == '_' {
        c
    } else {
        '_'
    }
}

/// The managed session name for a persist id: the prefix, then the id with
/// every other character replaced by `_`; `session` when the id is empty.
pub open spec fn managed_session_name(persist_id: Seq<char>) -> Seq<char> {
    if persist_id.len() == 0 {
        managed_prefix() + seq!['s', 'e', 's', 's', 'i', 'o', 'n']
    } else {
        managed_prefix() + persist_id.map_values(|c: char| managed_name_char(c))
    }
}

/// Derives the managed multiplexer session name from a persist id.
pub fn agents_ui_zellij_session_name(persist_id: &str) -> (r: String)
    ensures
        r@ == managed_session_name(persist_id@),
{
    let chars = str_chars(persist_id);
    let mut out: Vec<char> = Vec::new();
    out.push('a');
    out.push('g');
    out.push('e');
    out.push('n');
    out.push('t');
    out.push('s');
    out.push('-');
    out.push('u');
    out.push('i');
    out.push('-');
    proof {
        assert(out@ =~= managed_prefix());
    }
    if chars.len() == 0 {
        out.push('s');
        out.push('e');
        out.push('s');
        out.push('s');
        out.push('i');
        out.push('o');
        out.push('n');
        proof {
            assert(out@ =~= managed_session_name(persist_id@));
        }
        return chars_to_string(&out);
    }
    let mut i: usize = 0;
    while i < chars.len()
        invariant
            0 <= i <= chars@.len(),
            out@ == managed_prefix() + chars@.take(i as int).map_values(
                |c: char| managed_name_char(c),
            ),
        decreases chars@.len() - i,
    {
        let c = chars[i];
        let keep = ('0' <= c && c <= '9') || ('a' <= c && c <= 'z') || ('A' <= c && c <= 'Z') || c
            == '-' || c == '_';
        out.push(if keep {
            c
        } else {
            '_'
        });
        proof {
            assert(chars@.take(i + 1).map_values(|c: char| managed_name_char(c)) =~= chars@.take(
                i as int,
            ).map_values(|c: char| managed_name_char(c)).push(managed_name_char(chars@[i as int])));
            assert(out@ =~= managed_prefix() + chars@.take(i + 1).map_values(
                |c: char| managed_name_char(c),
            ));
        }
        i = i + 1;
    }
    proof {
        assert(chars@.take(chars@.len() as int) =~= chars@);
        assert(out@ =~= managed_session_name(persist_id@));
    }
    chars_to_string(&out)
}

/// Every managed session name carries the managed prefix.
pub proof fn lemma_managed_name_prefixed(persist_id: Seq<char>)
    ensures
        crate::secure::spec_starts_with(managed_session_name(persist_id), managed_prefix()),
{
    assert(managed_session_name(persist_id).take(managed_prefix().len() as int)
        =~= managed_prefix());
}

/// True when the name begins with the managed prefix.
pub fn has_managed_prefix(name: &str) -> (b: bool)
    ensures
        b == crate::secure::spec_starts_with(name@, managed_prefix()),
{
    let chars = str_chars(name);
    let b = chars.len() >= 10 && chars[0] == 'a' && chars[1] == 'g' && chars[2] == 'e' && chars[3]
        == 'n' && chars[4] == 't' && chars[5] == 's' && chars[6] == '-' && chars[7] == 'u'
        && chars[8] == 'i' && chars[9] == '-';
    proof {
        if b {
            assert(chars@.take(10) =~= managed_prefix());
        } else if chars@.len() >= 10 && chars@.take(10) == managed_prefix() {
            assert(chars@[0] == 'a' && chars@[1] == 'g' && chars@[2] == 'e' && chars@[3] == 'n'
                && chars@[4] == 't' && chars@[5] == 's' && chars@[6] == '-' && chars@[7] == 'u'
                && chars@[8] == 'i' && chars@[9] == '-');
        }
    }
    b
}

/// The multiplexer invocation that kills a named session, allowed only for
/// managed names: a session name lacking the managed prefix is refused
/// outright and no command is produced for it.
pub fn kill_session_command(session_name: &str) -> (r: Result<Vec<String>, CoordError>)
    ensures
        (r is Err) == !crate::secure::spec_starts_with(session_name@, managed_prefix()),
        r is Err ==> r->Err_0 is RefusedUnmanaged,
        r matches Ok(args) ==> args@.len() == 2 && args@[0]@ == "kill-session"@ && args@[1]@
            == session_name@,
{
    if !has_managed_prefix(session_name) {
        return Err(CoordError::RefusedUnmanaged);
    }
    let mut args: Vec<String> = Vec::new();
    args.push("kill-session".to_owned());
    args.push(session_name.to_owned());
    Ok(args)
}

/// The fallback invocation when a kill fails: force-delete the session.
/// Refused for unmanaged names exactly as the kill is.
pub fn delete_session_command(session_name: &str) -> (r: Result<Vec<String>, CoordError>)
    ensures
        (r is Err) == !crate::secure::spec_starts_with(session_name@, managed_prefix()),
        r is Err ==> r->Err_0 is RefusedUnmanaged,
        r matches Ok(args) ==> args@.len() == 3 && args@[0]@ == "delete-session"@ && args@[1]@
            == "--force"@ && args@[2]@ == session_name@,
{
    if !has_managed_prefix(session_name) {
        return Err(CoordError::RefusedUnmanaged);
    }
    let mut args: Vec<String> = Vec::new();
    args.push("delete-session".to_owned());
    args.push("--force".to_owned());
    args.push(session_name.to_owned());
    Ok(args)
}

/// What a kill request resolves to before any multiplexer process is
/// touched.
pub struct KillPlan {
    /// The managed session name derived from the persist id.
    pub session_name: String,
    /// The kill invocation to try on each socket directory.
    pub kill_args: Vec<String>,
    /// The force-delete fallback invocation.
    pub delete_args: Vec<String>,
}

/// Resolves a kill request: the persist id is trimmed and must be
/// nonempty; the derived name always carries the managed prefix, so the
/// safety check never refuses a name this function itself derived.
pub fn kill_persistent_session_plan(persist_id: &str) -> (r: Result<KillPlan, CoordError>)
    ensures
        (r is Err) == (spec_trim(persist_id@).len() == 0),
        r is Err ==> r->Err_0 is MissingPersistId,
        r matches Ok(plan) ==> plan.session_name@ == managed_session_name(spec_trim(persist_id@))
            && plan.kill_args@.len() == 2 && plan.kill_args@[0]@ == "kill-session"@
            && plan.kill_args@[1]@ == plan.session_name@ && plan.delete_args@.len() == 3
            && plan.delete_args@[2]@ == plan.session_name@,
{
    let chars = str_chars(persist_id);
    let trimmed = trim_chars(&chars);
    if trimmed.len() == 0 {
        return Err(CoordError::MissingPersistId);
    }
    let trimmed_str = chars_to_string(&trimmed);
    let session_name = agents_ui_zellij_session_name(trimmed_str.as_str());
    proof {
        lemma_managed_name_prefixed(trimmed@);
    }
    let kill_args = match kill_session_command(session_name.as_str()) {
        Ok(a) => a,
        Err(_) => {
            proof {
                assert(false);
            }
            return Err(CoordError::MissingPersistId);
        },
    };
    let delete_args = match delete_session_command(session_name.as_str()) {
        Ok(a) => a,
        Err(_) => {
            proof {
                assert(false);
            }
            return Err(CoordError::MissingPersistId);
        },
    };
    Ok(KillPlan { session_name, kill_args, delete_args })
}

/// The managed entries among a list of session names, in order: each name
/// with the managed prefix, paired with the persist id recovered by
/// stripping the prefix.
pub open spec fn managed_entries(names: Seq<Seq<char>>) -> Seq<(Seq<char>, Seq<char>)>
    decreases names.len(),
{
    if names.len() == 0 {
        seq![]
    } else {
        managed_entries(names.drop_last()) + (if crate::secure::spec_starts_with(
            names.last(),
            managed_prefix(),
        ) {
            seq![(names.last().skip(10), names.last())]
        } else {
            seq![]
        })
    }
}

/// Filters a session-name list down to the managed ones and recovers each
/// persist id from its name.
pub fn collect_managed_sessions(names: &Vec<String>) -> (r: Vec<PersistentSessionInfo>)
    ensures
        r@.map_values(|p: PersistentSessionInfo| (p.persist_id@, p.session_name@))
            == managed_entries(names@.map_values(|s: String| s@)),
{
    let mut out: Vec<PersistentSessionInfo> = Vec::new();
    let mut i: usize = 0;
    proof {
        assert(names@.map_values(|s: String| s@).take(0) =~= Seq::<Seq<char>>::empty());
        assert(out@.map_values(|p: PersistentSessionInfo| (p.persist_id@, p.session_name@))
            =~= Seq::<(Seq<char>, Seq<char>)>::empty());
    }
    while i < names.len()
        invariant
            0 <= i <= names@.len(),
            out@.map_values(|p: PersistentSessionInfo| (p.persist_id@, p.session_name@))
                == managed_entries(names@.map_values(|s: String| s@).take(i as int)),
        decreases names@.len() - i,
    {
        let ghost prev = names@.map_values(|s: String| s@).take(i as int);
        let name = &names[i];
        if has_managed_prefix(name.as_str()) {
            let chars = str_chars(name.as_str());
            let mut pid_chars: Vec<char> = Vec::new();
            let mut k: usize = 10;
            while k < chars.len()
                invariant
                    10 <= k <= chars@.len(),
                    chars@.len() >= 10,
                    pid_chars@ == chars@.subrange(10, k as int),
                decreases chars@.len() - k,
            {
                pid_chars.push(chars[k]);
                assert(pid_chars@ == chars@.subrange(10, k + 1));
                k = k + 1;
            }
            proof {
                assert(pid_chars@ =~= chars@.skip(10));
            }
            let pid = chars_to_string(&pid_chars);
            out.push(PersistentSessionInfo { persist_id: pid, session_name: name.clone() });
        }
        proof {
            let cur = names@.map_values(|s: String| s@).take(i + 1);
            assert(cur.drop_last() =~= prev);
            assert(cur.last() == names@[i as int]@);
            assert(out@.map_values(|p: PersistentSessionInfo| (p.persist_id@, p.session_name@))
                =~= managed_entries(cur));
        }
        i = i + 1;
    }
    proof {
        assert(names@.map_values(|s: String| s@).take(names@.len() as int) =~= names@.map_values(
            |s: String| s@,
        ));
    }
    out
}

/// The nonempty trimmed segments of the multiplexer's `list-sessions`
/// output, in order.
pub open spec fn session_list_lines(stdout: Seq<char>) -> Seq<Seq<char>> {
    split_lines(stdout).map_values(|l: Seq<char>| spec_trim(l)).filter(
        |l: Seq<char>| l.len() != 0,
    )
}

/// Parses the multiplexer's session list: one session name per line,
/// trimmed, empty lines skipped.
pub fn parse_session_list(stdout: &str) -> (r: Vec<String>)
    ensures
        r@.map_values(|s: String| s@) == session_list_lines(stdout@),
{
    let chars = str_chars(stdout);
    let segments = split_lines_exec(&chars);
    let mut out: Vec<String> = Vec::new();
    let mut i: usize = 0;
    let ghost all = split_lines(chars@).map_values(|l: Seq<char>| spec_trim(l));
    proof {
        assert(all.take(0) =~= Seq::<Seq<char>>::empty());
        assert(Seq::<Seq<char>>::empty().filter(|l: Seq<char>| l.len() != 0)
            =~= Seq::<Seq<char>>::empty());
        assert(out@.map_values(|s: String| s@) =~= Seq::<Seq<char>>::empty());
    }
    while i < segments.len()
        invariant
            0 <= i <= segments@.len(),
            segments@.map_values(|v: Vec<char>| v@) == split_lines(chars@),
            all == split_lines(chars@).map_values(|l: Seq<char>| spec_trim(l)),
            out@.map_values(|s: String| s@) == all.take(i as int).filter(
                |l: Seq<char>| l.len() != 0,
            ),
        decreases segments@.len() - i,
    {
        let ghost prev = all.take(i as int);
        let t = trim_chars(&segments[i]);
        proof {
            assert(segments@.map_values(|v: Vec<char>| v@)[i as int] == segments@[i as int]@);
            assert(all[i as int] == spec_trim(segments@[i as int]@));
            assert(all.take(i + 1).drop_last() =~= prev);
            assert(all.take(i + 1).last() == all[i as int]);
            reveal(Seq::filter);
        }
        if t.len() > 0 {
            out.push(chars_to_string(&t));
        }
        proof {
            assert(out@.map_values(|s: String| s@) =~= all.take(i + 1).filter(
                |l: Seq<char>| l.len() != 0,
            ));
        }
        i = i + 1;
    }
    proof {
        assert(all.take(all.len() as int) =~= all);
        assert(segments@.len() == all.len());
    }
    out
}

/// Character-wise lexicographic order; for strings this agrees with the
/// byte order `str` comparisons use, since UTF-8 preserves code point
/// order.
pub open spec fn lex_le(a: Seq<char>, b: Seq<char>) -> bool
    decreases a.len(),
{
    if a.len() == 0 {
        true
    } else if b.len() == 0 {
        false
    } else if a[0] != b[0] {
        (a[0] as u32) < (b[0] as u32)
    } else {
        lex_le(a.skip(1), b.skip(1))
    }
}

/// The order is total.
pub proof fn lemma_lex_total(a: Seq<char>, b: Seq<char>)
    ensures
        lex_le(a, b) || lex_le(b, a),
    decreases a.len(),
{
    if a.len() != 0 && b.len() != 0 {
        if a[0] == b[0] {
            lemma_lex_total(a.skip(1), b.skip(1));
        } else {
            assert((a[0] as u32) != (b[0] as u32)) by {
                vstd::utf8::char_u32_cast(a[0], a[0] as u32);
                vstd::utf8::char_u32_cast(b[0], b[0] as u32);
            }
        }
    }
}

/// Decides [`lex_le`] on character vectors.
pub fn lex_le_exec(a: &Vec<char>, b: &Vec<char>) -> (r: bool)
    ensures
        r == lex_le(a@, b@),
{
    let mut i: usize = 0;
    proof {
        assert(a@.skip(0) =~= a@);
        assert(b@.skip(0) =~= b@);
    }
    loop
        invariant
            0 <= i <= a@.len(),
            i <= b@.len(),
            lex_le(a@, b@) == lex_le(a@.skip(i as int), b@.skip(i as int)),
        decreases a@.len() - i,
    {
        let ghost ra = a@.skip(i as int);
        let ghost rb = b@.skip(i as int);
        if i >= a.len() {
            proof {
                assert(ra.len() == 0);
            }
            return true;
        }
        if i >= b.len() {
            proof {
                assert(rb.len() == 0 && ra.len() > 0);
            }
            return false;
        }
        proof {
            assert(ra[0] == a@[i as int] && rb[0] == b@[i as int]);
            assert(ra.skip(1) =~= a@.skip(i + 1));
            assert(rb.skip(1) =~= b@.skip(i + 1));
        }
        if a[i] != b[i] {
            return (a[i] as u32) < (b[i] as u32);
        }
        i = i + 1;
    }
}

/// Ascending order by persist id.
pub open spec fn sorted_by_persist_id(s: Seq<PersistentSessionInfo>) -> bool {
    forall|i: int, j: int|
        0 <= i < j < s.len() ==> lex_le(s[i].persist_id@, s[j].persist_id@)
}

/// Orders a session list by persist id, ascending; the result is a
/// permutation of the input.
pub fn sort_persistent_sessions(sessions: Vec<PersistentSessionInfo>) -> (r: Vec<
    PersistentSessionInfo,
>)
    ensures
        r@.to_multiset() == sessions@.to_multiset(),
        sorted_by_persist_id(r@),
{
    broadcast use vstd::seq_lib::group_to_multiset_ensures;
    broadcast use vstd::multiset::group_multiset_axioms;

    let ghost all = sessions@;
    let mut work = sessions;
    let mut out: Vec<PersistentSessionInfo> = Vec::new();
    proof {
        assert(out@.to_multiset() =~= vstd::multiset::Multiset::<
            PersistentSessionInfo,
        >::empty());
        assert(out@.to_multiset().add(work@.to_multiset()) =~= all.to_multiset());
    }
    while work.len() > 0
        invariant
            out@.to_multiset().add(work@.to_multiset()) == all.to_multiset(),
            sorted_by_persist_id(out@),
            forall|oi: int, wi: int|
                0 <= oi < out@.len() && 0 <= wi < work@.len() ==> lex_le(
                    out@[oi].persist_id@,
                    work@[wi].persist_id@,
                ),
        decreases work@.len(),
    {
        // The earliest entry with the least persist id, so equal ids keep
        // their original relative order.
        let mut m: usize = 0;
        let mut i: usize = 1;
        proof {
            lemma_lex_reflexive(work@[0].persist_id@);
        }
        while i < work.len()
            invariant
                0 <= m < i <= work@.len(),
                work@.len() > 0,
                forall|j: int|
                    0 <= j < i ==> lex_le(work@[m as int].persist_id@, work@[j].persist_id@),
            decreases work@.len() - i,
        {
            let ghost m0 = m as int;
            let mi_chars = str_chars(work[m].persist_id.as_str());
            let ii_chars = str_chars(work[i].persist_id.as_str());
            let keep = lex_le_exec(&mi_chars, &ii_chars);
            proof {
                lemma_lex_total(work@[m0].persist_id@, work@[i as int].persist_id@);
                lemma_lex_reflexive(work@[i as int].persist_id@);
            }
            if !keep {
                m = i;
                proof {
                    assert forall|j: int| 0 <= j < i + 1 implies lex_le(
                        work@[i as int].persist_id@,
                        work@[j].persist_id@,
                    ) by {
                        if j < i {
                            lemma_lex_transitive(
                                work@[i as int].persist_id@,
                                work@[m0].persist_id@,
                                work@[j].persist_id@,
                            );
                        }
                    }
                }
            }
            i = i + 1;
        }
        let ghost work0 = work@;
        let e = work.remove(m);
        let ghost e0 = e;
        let ghost out0 = out@;
        out.push(e);
        proof {
            vstd::seq_lib::to_multiset_remove(work0, m as int);
            vstd::seq_lib::to_multiset_build(out0, e0);
            assert(work@ == work0.remove(m as int));
            assert(out@ == out0.push(e0));
            assert(e0 == work0[m as int]);
            assert(work0.contains(e0));
            vstd::seq_lib::to_multiset_contains(work0, e0);
            assert(work0.to_multiset().count(e0) > 0);
            assert(out@.to_multiset().add(work@.to_multiset()) =~= all.to_multiset());
            assert forall|oi: int, wi: int|
                0 <= oi < out@.len() && 0 <= wi < work@.len() implies lex_le(
                out@[oi].persist_id@,
                work@[wi].persist_id@,
            ) by {
                if wi < m {
                    assert(work@[wi] == work0[wi]);
                } else {
                    assert(work@[wi] == work0[wi + 1]);
                }
                if oi < out0.len() {
                    assert(out@[oi] == out0[oi]);
                } else {
                    assert(out@[oi] == e0);
                }
            }
            assert(sorted_by_persist_id(out@)) by {
                assert forall|i2: int, j2: int|
                    0 <= i2 < j2 < out@.len() implies lex_le(
                    out@[i2].persist_id@,
                    out@[j2].persist_id@,
                ) by {
                    if j2 < out0.len() {
                        assert(out@[i2] == out0[i2] && out@[j2] == out0[j2]);
                    } else {
                        assert(out@[i2] == out0[i2] && out@[j2] == e0);
                        assert(lex_le(out0[i2].persist_id@, work0[m as int].persist_id@));
                    }
                }
            }
        }
    }
    proof {
        assert(work@.to_multiset() =~= vstd::multiset::Multiset::<
            PersistentSessionInfo,
        >::empty());
        assert(out@.to_multiset() =~= all.to_multiset());
    }
    out
}

proof fn lemma_lex_reflexive(a: Seq<char>)
    ensures
        lex_le(a, a),
    decreases a.len(),
{
    if a.len() > 0 {
        lemma_lex_reflexive(a.skip(1));
    }
}

proof fn lemma_lex_transitive(a: Seq<char>, b: Seq<char>, c: Seq<char>)
    requires
        lex_le(a, b),
        lex_le(b, c),
    ensures
        lex_le(a, c),
    decreases a.len() + b.len() + c.len(),
{
    if a.len() > 0 && b.len() > 0 && c.len() > 0 && a[0] == b[0] && b[0] == c[0] {
        lemma_lex_transitive(a.skip(1), b.skip(1), c.skip(1));
    }
}

/// The list with consecutive entries of equal session name collapsed to
/// the first.
pub open spec fn dedup_by_name(s: Seq<PersistentSessionInfo>) -> Seq<PersistentSessionInfo>
    decreases s.len(),
{
    if s.len() <= 1 {
        s
    } else if s.last().session_name@ == s[s.len() - 2].session_name@ {
        dedup_by_name(s.drop_last())
    } else {
        dedup_by_name(s.drop_last()).push(s.last())
    }
}

/// Collapses consecutive duplicate session names, keeping the first; on a
/// list sorted by persist id this removes every duplicate, since a managed
/// name determines its persist id.
pub fn dedup_sessions_by_name(sessions: Vec<PersistentSessionInfo>) -> (r: Vec<
    PersistentSessionInfo,
>)
    ensures
        r@ == dedup_by_name(sessions@),
{
    let ghost all = sessions@;
    let mut rest = sessions;
    let mut out: Vec<PersistentSessionInfo> = Vec::new();
    let mut prev_chars: Vec<char> = Vec::new();
    let mut i: usize = 0;
    proof {
        assert(all.take(0) =~= Seq::<PersistentSessionInfo>::empty());
        assert(rest@ =~= all.skip(0));
        assert(out@ =~= dedup_by_name(all.take(0)));
        assert(all.len() == vstd::std_specs::vec::spec_vec_len(&rest));
    }
    while rest.len() > 0
        invariant
            0 <= i <= all.len(),
            all.len() <= usize::MAX,
            rest@ == all.skip(i as int),
            out@ == dedup_by_name(all.take(i as int)),
            i > 0 ==> prev_chars@ == all[i - 1].session_name@,
        decreases rest@.len(),
    {
        let e = rest.remove(0);
        proof {
            assert(rest@ =~= all.skip(i + 1));
            assert(e == all[i as int]);
        }
        let e_chars = str_chars(e.session_name.as_str());
        let dup = i > 0 && chars_eq(&prev_chars, &e_chars);
        proof {
            let cur = all.take(i + 1);
            assert(cur.drop_last() =~= all.take(i as int));
            assert(cur.last() == all[i as int]);
            if i > 0 {
                assert(cur[cur.len() - 2] == all[i - 1]);
            }
        }
        if !dup {
            out.push(e);
        }
        proof {
            assert(out@ =~= dedup_by_name(all.take(i + 1)));
            assert(i < all.len());
        }
        prev_chars = e_chars;
        i = i + 1;
    }
    proof {
        assert(all.take(all.len() as int) =~= all);
    }
    out
}

/// True when two character vectors hold the same characters.
fn chars_eq(a: &Vec<char>, b: &Vec<char>) -> (r: bool)
    ensures
        r == (a@ == b@),
{
    if a.len() != b.len() {
        proof {
            assert(a@.len() != b@.len());
        }
        return false;
    }
    let mut i: usize = 0;
    while i < a.len()
        invariant
            0 <= i <= a@.len(),
            a@.len() == b@.len(),
            forall|j: int| 0 <= j < i ==> a@[j] == b@[j],
        decreases a@.len() - i,
    {
        if a[i] != b[i] {
            return false;
        }
        i = i + 1;
    }
    proof {
        assert(a@ =~= b@);
    }
    true
}

} // verus!

