//! Shell/program resolution for session creation: request validation, the
//! exact command lines launched for interactive shells, one-shot commands
//! and multiplexer-attached sessions, and the environment-variable
//! sanitation applied before anything reaches the child process.

use vstd::prelude::*;
use vstd::string::*;
use crate::textutil::{chars_to_string, spec_trim, str_chars, trim_chars};

verus! {

/// Creation-request errors.
#[derive(Clone, Copy, PartialEq, Eq, Structural, Debug)]
pub enum CreateError {
    /// Persistent sessions run commands inside the session, never as the
    /// launch command.
    PersistentRequiresEmptyCommand,
    /// Persistent sessions need a persist id to derive their name from.
    PersistentRequiresPersistId,
}

/// A validated creation request.
pub struct ResolvedRequest {
    /// The trimmed one-shot command; empty means an interactive shell.
    pub command: String,
    /// True when no command was given.
    pub is_shell: bool,
    /// True when the session attaches to the external multiplexer.
    pub persistent: bool,
    /// The trimmed persist id, when one was given.
    pub persist_id: Option<String>,
}

/// True when `persistent` was requested.
pub open spec fn wants_persistent(persistent: Option<bool>) -> bool {
    persistent == Some(true)
}

/// The trimmed command of a request.
pub open spec fn trimmed_command(command: Option<String>) -> Seq<char> {
    match command {
        Option::Some(c) => spec_trim(c@),
        Option::None => Seq::empty(),
    }
}

/// The trimmed persist id, absent when empty.
pub open spec fn trimmed_persist_id(persist_id: Option<String>) -> Option<Seq<char>> {
    match persist_id {
        Option::Some(p) => if spec_trim(p@).len() == 0 {
            Option::None
        } else {
            Option::Some(spec_trim(p@))
        },
        Option::None => Option::None,
    }
}

/// Validates a creation request: a persistent session must carry no launch
/// command and must carry a persist id; the command and persist id are
/// trimmed.
pub fn validate_create_request(
    command: Option<String>,
    persistent: Option<bool>,
    persist_id: Option<String>,
) -> (r: Result<ResolvedRequest, CreateError>)
    ensures
        r is Err ==> wants_persistent(persistent),
        (wants_persistent(persistent) && trimmed_command(command).len() != 0) <==> (r is Err && (
        r->Err_0 is PersistentRequiresEmptyCommand)),
        (wants_persistent(persistent) && trimmed_command(command).len() == 0
            && trimmed_persist_id(persist_id) is None) <==> (r is Err && (
        r->Err_0 is PersistentRequiresPersistId)),
        r matches Ok(req) ==> {
            &&& req.command@ == trimmed_command(command)
            &&& req.is_shell == (trimmed_command(command).len() == 0)
            &&& req.persistent == wants_persistent(persistent)
            &&& (match (req.persist_id, trimmed_persist_id(persist_id)) {
                (Option::Some(a), Option::Some(b)) => a@ == b,
                (Option::None, Option::None) => true,
                _ => false,
            })
            &&& (req.persistent ==> req.is_shell && req.persist_id is Some)
        },
{
    let persistent_b = match persistent {
        Some(b) => b,
        None => false,
    };
    let cmd_chars = match &command {
        Some(c) => trim_chars(&str_chars(c.as_str())),
        None => Vec::new(),
    };
    proof {
        assert(cmd_chars@ == trimmed_command(command));
    }
    let is_shell = cmd_chars.len() == 0;
    if persistent_b && !is_shell {
        return Err(CreateError::PersistentRequiresEmptyCommand);
    }
    let pid: Option<String> = match &persist_id {
        Some(p) => {
            let t = trim_chars(&str_chars(p.as_str()));
            if t.len() == 0 {
                None
            } else {
                Some(chars_to_string(&t))
            }
        },
        None => None,
    };
    if persistent_b && pid.is_none() {
        return Err(CreateError::PersistentRequiresPersistId);
    }
    Ok(
        ResolvedRequest {
            command: chars_to_string(&cmd_chars),
            is_shell,
            persistent: persistent_b,
            persist_id: pid,
        },
    )
}

/// What the caller launches: the program, its arguments, and the command
/// string shown to the user.
pub struct LaunchPlan {
    pub program: String,
    pub args: Vec<String>,
    pub shown_command: String,
}

/// The command line for a non-persistent session: an interactive login
/// shell for an empty command, else the shell running the command with
/// `-c` (when caller-provided environment variables must survive profile
/// files) or `-lc`.
pub fn resolve_launch_command(shell: &str, req: &ResolvedRequest, has_env_vars: bool) -> (r:
    LaunchPlan)
    requires
        !req.persistent,
    ensures
        r.program@ == shell@,
        req.is_shell ==> r.args@.len() == 1 && r.args@[0]@ == "-l"@ && r.shown_command@ == shell@
            + " "@ + "-l"@,
        !req.is_shell && has_env_vars ==> r.args@.len() == 2 && r.args@[0]@ == "-c"@ && r.args@[1]@
            == req.command@ && r.shown_command@ == shell@ + " "@ + "-c"@ + " "@ + req.command@,
        !req.is_shell && !has_env_vars ==> r.args@.len() == 2 && r.args@[0]@ == "-lc"@
            && r.args@[1]@ == req.command@ && r.shown_command@ == shell@ + " "@ + "-lc"@ + " "@
            + req.command@,
{
    let program = shell.to_owned();
    if req.is_shell {
        let mut args: Vec<String> = Vec::new();
        args.push("-l".to_owned());
        let mut shown = shell.to_owned();
        shown.append(" ");
        shown.append("-l");
        LaunchPlan { program, args, shown_command: shown }
    } else {
        let flag = if has_env_vars {
            "-c"
        } else {
            "-lc"
        };
        let mut args: Vec<String> = Vec::new();
        args.push(flag.to_owned());
        args.push(req.command.clone());
        let mut shown = shell.to_owned();
        shown.append(" ");
        shown.append(flag);
        shown.append(" ");
        shown.append(req.command.as_str());
        LaunchPlan { program, args, shown_command: shown }
    }
}

/// The multiplexer attach invocation for a persistent session, with the
/// private config when one exists: `attach -c <session>` creates the named
/// session on first use and reattaches afterwards.
pub fn build_multiplexer_attach(
    multiplexer_path: &str,
    config_path: Option<String>,
    session_name: &str,
) -> (r: LaunchPlan)
    ensures
        r.program@ == multiplexer_path@,
        config_path matches Some(cfg) ==> r.args@.len() == 5 && r.args@[0]@ == "--config"@
            && r.args@[1]@ == cfg@ && r.args@[2]@ == "attach"@ && r.args@[3]@ == "-c"@
            && r.args@[4]@ == session_name@ && r.shown_command@ == "zellij --config "@ + cfg@
            + " attach -c "@ + session_name@,
        config_path is None ==> r.args@.len() == 3 && r.args@[0]@ == "attach"@ && r.args@[1]@
            == "-c"@ && r.args@[2]@ == session_name@ && r.shown_command@ == "zellij attach -c "@
            + session_name@,
{
    let program = multiplexer_path.to_owned();
    let mut args: Vec<String> = Vec::new();
    match &config_path {
        Some(cfg) => {
            args.push("--config".to_owned());
            args.push(cfg.clone());
            args.push("attach".to_owned());
            args.push("-c".to_owned());
            args.push(session_name.to_owned());
            let mut shown = "zellij --config ".to_owned();
            shown.append(cfg.as_str());
            shown.append(" attach -c ");
            shown.append(session_name);
            LaunchPlan { program, args, shown_command: shown }
        },
        None => {
            args.push("attach".to_owned());
            args.push("-c".to_owned());
            args.push(session_name.to_owned());
            let mut shown = "zellij attach -c ".to_owned();
            shown.append(session_name);
            LaunchPlan { program, args, shown_command: shown }
        },
    }
}

/// The PTY dimensions a creation request resolves to: the requested size,
/// defaulting to 80 columns by 24 rows.
pub fn resolve_pty_size(cols: Option<u16>, rows: Option<u16>) -> (r: (u16, u16))
    ensures
        r.0 == match cols {
            Option::Some(c) => c,
            Option::None => 80u16,
        },
        r.1 == match rows {
            Option::Some(w) => w,
            Option::None => 24u16,
        },
{
    let c = match cols {
        Some(c) => c,
        None => 80,
    };
    let w = match rows {
        Some(w) => w,
        None => 24,
    };
    (c, w)
}

/// True for a character allowed to start an environment-variable name.
pub open spec fn env_key_first_char(c: char) -> bool {
    c == '_' || ('a' <= c && c <= 'z') || ('A' <= c && c <= 'Z')
}

/// True for a character allowed after the first in an environment-variable
/// name.
pub open spec fn env_key_rest_char(c: char) -> bool {
    env_key_first_char(c) || ('0' <= c && c <= '9')
}

/// What `valid_env_key` decides of the trimmed key.
pub open spec fn spec_valid_env_key(s: Seq<char>) -> bool {
    let t = spec_trim(s);
    t.len() > 0 && env_key_first_char(t[0]) && forall|i: int|
        1 <= i < t.len() ==> env_key_rest_char(t[i])
}

/// True when the trimmed key is a well-formed environment-variable name:
/// an ASCII letter or underscore, then letters, digits and underscores.
pub fn valid_env_key(key: &str) -> (b: bool)
    ensures
        b == spec_valid_env_key(key@),
{
    let chars = str_chars(key);
    let t = trim_chars(&chars);
    if t.len() == 0 {
        return false;
    }
    let c0 = t[0];
    if !(c0 == '_' || ('a' <= c0 && c0 <= 'z') || ('A' <= c0 && c0 <= 'Z')) {
        return false;
    }
    let mut i: usize = 1;
    while i < t.len()
        invariant
            1 <= i <= t@.len(),
            t@ == spec_trim(key@),
            t@.len() > 0 && env_key_first_char(t@[0]),
            forall|j: int| 1 <= j < i ==> env_key_rest_char(t@[j]),
        decreases t@.len() - i,
    {
        let c = t[i];
        if !(c == '_' || ('a' <= c && c <= 'z') || ('A' <= c && c <= 'Z') || ('0' <= c && c
            <= '9')) {
            return false;
        }
        i = i + 1;
    }
    true
}

/// The environment pairs that survive sanitation, in order: each pair
/// whose trimmed key is a valid name, with the key trimmed.
pub open spec fn env_sanitized(pairs: Seq<(Seq<char>, Seq<char>)>) -> Seq<(Seq<char>, Seq<char>)>
    decreases pairs.len(),
{
    if pairs.len() == 0 {
        seq![]
    } else {
        env_sanitized(pairs.drop_last()) + (if spec_valid_env_key(pairs.last().0) {
            seq![(spec_trim(pairs.last().0), pairs.last().1)]
        } else {
            seq![]
        })
    }
}

/// Drops environment pairs with invalid keys and trims the kept keys, as
/// applied to every child process environment.
pub fn sanitize_env_vars(vars: Vec<(String, String)>) -> (r: Vec<(String, String)>)
    ensures
        r@.map_values(|p: (String, String)| (p.0@, p.1@)) == env_sanitized(
            vars@.map_values(|p: (String, String)| (p.0@, p.1@)),
        ),
{
    let mut out: Vec<(String, String)> = Vec::new();
    proof {
        assert(vars@.map_values(|p: (String, String)| (p.0@, p.1@)).take(0) =~= Seq::<
            (Seq<char>, Seq<char>),
        >::empty());
        assert(out@.map_values(|p: (String, String)| (p.0@, p.1@)) =~= Seq::<
            (Seq<char>, Seq<char>),
        >::empty());
    }
    let rest = vars;
    let mut idx: usize = 0;
    while idx < rest.len()
        invariant
            0 <= idx <= rest@.len(),
            out@.map_values(|p: (String, String)| (p.0@, p.1@)) == env_sanitized(
                rest@.map_values(|p: (String, String)| (p.0@, p.1@)).take(idx as int),
            ),
        decreases rest@.len() - idx,
    {
        let ghost prev = rest@.map_values(|p: (String, String)| (p.0@, p.1@)).take(idx as int);
        let key_ok = valid_env_key(rest[idx].0.as_str());
        if key_ok {
            let t = trim_chars(&str_chars(rest[idx].0.as_str()));
            let trimmed_key = chars_to_string(&t);
            let value = rest[idx].1.clone();
            out.push((trimmed_key, value));
        }
        proof {
            let cur = rest@.map_values(|p: (String, String)| (p.0@, p.1@)).take(idx + 1);
            assert(cur.drop_last() =~= prev);
            assert(cur.last() == (rest@[idx as int].0@, rest@[idx as int].1@));
            assert(out@.map_values(|p: (String, String)| (p.0@, p.1@)) =~= env_sanitized(cur));
        }
        idx = idx + 1;
    }
    proof {
        assert(rest@.map_values(|p: (String, String)| (p.0@, p.1@)).take(rest@.len() as int)
            =~= rest@.map_values(|p: (String, String)| (p.0@, p.1@)));
    }
    out
}

/// How one character appears inside a POSIX single-quoted string: a quote
/// closes the string, emits an escaped quote, and reopens it.
pub open spec fn sq_char(c: char) -> Seq<char> {
    if c == '\'' {
        seq!['\'', '\\', '\'', '\'']
    } else {
        seq![c]
    }
}

/// The body of the quoted string.
pub open spec fn sq_body(s: Seq<char>) -> Seq<char>
    decreases s.len(),
{
    if s.len() == 0 {
        seq![]
    } else {
        sq_char(s[0]) + sq_body(s.skip(1))
    }
}

/// The whole single-quoted string.
pub open spec fn spec_sh_single_quote(s: Seq<char>) -> Seq<char> {
    seq!['\''] + sq_body(s) + seq!['\'']
}

proof fn lemma_sq_body_snoc(s: Seq<char>, c: char)
    ensures
        sq_body(s.push(c)) == sq_body(s) + sq_char(c),
    decreases s.len(),
{
    if s.len() == 0 {
        assert(s.push(c)[0] == c);
        assert(s.push(c).skip(1) =~= Seq::<char>::empty());
        assert(sq_body(s.push(c)) == sq_char(c) + sq_body(s.push(c).skip(1)));
        assert(sq_body(s.push(c).skip(1)) == Seq::<char>::empty());
        assert(sq_body(s) == Seq::<char>::empty());
        assert(sq_body(s.push(c)) =~= sq_body(s) + sq_char(c));
    } else {
        assert(s.push(c).skip(1) =~= s.skip(1).push(c));
        lemma_sq_body_snoc(s.skip(1), c);
        assert(sq_body(s.push(c)) == sq_char(s[0]) + (sq_body(s.skip(1)) + sq_char(c)));
        assert(sq_char(s[0]) + (sq_body(s.skip(1)) + sq_char(c)) =~= (sq_char(s[0]) + sq_body(
            s.skip(1),
        )) + sq_char(c));
    }
}

/// Wraps a string in POSIX single quotes, escaping embedded quotes, for
/// the generated shell startup files.
pub fn sh_single_quote(s: &str) -> (r: String)
    ensures
        r@ == spec_sh_single_quote(s@),
{
    let chars = str_chars(s);
    let mut out: Vec<char> = Vec::new();
    out.push('\'');
    let mut i: usize = 0;
    while i < chars.len()
        invariant
            0 <= i <= chars@.len(),
            out@ == seq!['\''] + sq_body(chars@.take(i as int)),
        decreases chars@.len() - i,
    {
        let c = chars[i];
        proof {
            assert(chars@.take(i as int).push(chars@[i as int]) =~= chars@.take(i + 1));
            lemma_sq_body_snoc(chars@.take(i as int), chars@[i as int]);
        }
        if c == '\'' {
            out.push('\'');
            out.push('\\');
            out.push('\'');
            out.push('\'');
        } else {
            out.push(c);
        }
        proof {
            assert(out@ =~= seq!['\''] + sq_body(chars@.take(i + 1)));
        }
        i = i + 1;
    }
    out.push('\'');
    proof {
        assert(chars@.take(chars@.len() as int) =~= chars@);
        assert(out@ =~= spec_sh_single_quote(s@));
    }
    chars_to_string(&out)
}

} // verus!
