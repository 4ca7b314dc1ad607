//! The persisted project/session state records and the secure-storage
//! passes over them: counting and encrypting/decrypting environment
//! contents under the state-file context. Reading and writing the state
//! file itself, and its JSON form, live with the caller.

use vstd::prelude::*;
use std::collections::HashMap;
use crate::secure::{
    aad_spec, decrypt_string_with_key, enc_output, encrypt_string_with_key,
    get_or_create_master_key, is_probably_encrypted_value, spec_probably_encrypted,
    MasterKeyCache, SecretContext, SecureError,
};
use crate::textutil::spec_trim_start;

verus! {

/// Where secrets in the state file live: the platform credential store, or
/// nowhere (plaintext).
#[derive(Clone, Copy, PartialEq, Eq, Structural, Debug)]
pub enum SecureStorageModeV1 {
    Keychain,
    Plaintext,
}

/// A persisted project.
#[derive(Clone)]
pub struct PersistedProjectV1 {
    pub id: String,
    pub title: String,
    pub base_path: Option<String>,
    pub environment_id: Option<String>,
    pub assets_enabled: Option<bool>,
}

/// A persisted session.
#[derive(Clone)]
pub struct PersistedSessionV1 {
    pub persist_id: String,
    pub project_id: String,
    pub name: String,
    pub launch_command: Option<String>,
    pub restore_command: Option<String>,
    pub ssh_target: Option<String>,
    pub ssh_root_dir: Option<String>,
    pub last_recording_id: Option<String>,
    pub cwd: Option<String>,
    pub persistent: Option<bool>,
    pub created_at: u64,
    pub maestro_session_id: Option<String>,
    pub backend_session_id: Option<String>,
}

/// A persisted prompt.
#[derive(Clone)]
pub struct PersistedPromptV1 {
    pub id: String,
    pub title: String,
    pub content: String,
    pub created_at: u64,
}

/// A persisted environment; its `content` is what the secure-storage passes
/// encrypt and decrypt.
#[derive(Clone)]
pub struct PersistedEnvironmentV1 {
    pub id: String,
    pub name: String,
    pub content: String,
    pub created_at: u64,
}

/// A persisted asset.
#[derive(Clone)]
pub struct PersistedAssetV1 {
    pub id: String,
    pub name: String,
    pub relative_path: String,
    pub content: String,
    pub created_at: u64,
    pub auto_apply: Option<bool>,
}

/// Asset application settings.
#[derive(Clone, Copy, PartialEq, Eq, Structural, Debug)]
pub struct PersistedAssetSettingsV1 {
    pub auto_apply_enabled: bool,
}

/// The whole persisted state.
#[derive(Clone)]
pub struct PersistedStateV1 {
    pub schema_version: u32,
    pub secure_storage_mode: Option<SecureStorageModeV1>,
    pub projects: Vec<PersistedProjectV1>,
    pub active_project_id: String,
    pub sessions: Vec<PersistedSessionV1>,
    pub active_session_by_project: HashMap<String, String>,
    pub prompts: Vec<PersistedPromptV1>,
    pub environments: Vec<PersistedEnvironmentV1>,
    pub assets: Vec<PersistedAssetV1>,
    pub agent_shortcut_ids: Option<Vec<String>>,
    pub asset_settings: Option<PersistedAssetSettingsV1>,
}

/// The summary exposed without decrypting anything.
#[derive(Clone)]
pub struct PersistedStateMetaV1 {
    pub schema_version: u32,
    pub environment_count: usize,
    pub encrypted_environment_count: usize,
    pub secure_storage_mode: Option<SecureStorageModeV1>,
}

/// How many environment contents look encrypted.
pub open spec fn count_encrypted(envs: Seq<PersistedEnvironmentV1>) -> int
    decreases envs.len(),
{
    if envs.len() == 0 {
        0
    } else {
        count_encrypted(envs.drop_last()) + (if spec_probably_encrypted(envs.last().content@) {
            1int
        } else {
            0int
        })
    }
}

/// Summarizes a loaded state without touching the credential store: the
/// environment counts and the storage mode; absent for a foreign schema
/// version.
pub fn compute_state_meta(state: &PersistedStateV1) -> (r: Option<PersistedStateMetaV1>)
    ensures
        (r is Some) == (state.schema_version == 1),
        r matches Some(m) ==> m.schema_version == state.schema_version && m.environment_count
            == state.environments@.len() && m.encrypted_environment_count as int == count_encrypted(
            state.environments@,
        ) && m.secure_storage_mode == state.secure_storage_mode,
{
    if state.schema_version != 1 {
        return None;
    }
    let mut count: usize = 0;
    let mut i: usize = 0;
    proof {
        assert(state.environments@.take(0) =~= Seq::<PersistedEnvironmentV1>::empty());
    }
    while i < state.environments.len()
        invariant
            0 <= i <= state.environments@.len(),
            count <= i,
            count as int == count_encrypted(state.environments@.take(i as int)),
        decreases state.environments@.len() - i,
    {
        let ghost prev = state.environments@.take(i as int);
        if is_probably_encrypted_value(state.environments[i].content.as_str()) {
            count = count + 1;
        }
        proof {
            let cur = state.environments@.take(i + 1);
            assert(cur.drop_last() =~= prev);
            assert(cur.last() == state.environments@[i as int]);
        }
        i = i + 1;
    }
    proof {
        assert(state.environments@.take(state.environments@.len() as int) =~= state.environments@);
    }
    Some(
        PersistedStateMetaV1 {
            schema_version: state.schema_version,
            environment_count: state.environments.len(),
            encrypted_environment_count: count,
            secure_storage_mode: state.secure_storage_mode,
        },
    )
}

/// The new content is the message of every authentic state-context
/// ciphertext the old content carried; vacuous for contents that are no
/// such ciphertext.
pub open spec fn content_decrypts_to(old_c: Seq<char>, key: Seq<u8>, new_c: Seq<char>) -> bool {
    forall|m: Seq<char>|
        enc_output(spec_trim_start(old_c), key, aad_spec(SecretContext::State), m) ==> new_c == m
}

/// Everything but the content of two environments agrees.
pub open spec fn env_same_but_content(
    a: PersistedEnvironmentV1,
    b: PersistedEnvironmentV1,
) -> bool {
    a.id@ == b.id@ && a.name@ == b.name@ && a.created_at == b.created_at
}

/// Decrypts every plausibly-encrypted environment content under the
/// state-file context. A missing key or a failed decryption leaves that
/// content untouched (possibly recoverable later), never failing the load.
pub fn decrypt_environments(envs: &mut Vec<PersistedEnvironmentV1>, key: &Option<Vec<u8>>)
    requires
        key matches Some(k) ==> k@.len() == 32,
    ensures
        final(envs)@.len() == old(envs)@.len(),
        forall|i: int|
            #![trigger final(envs)@[i]]
            0 <= i < old(envs)@.len() ==> {
                &&& env_same_but_content(final(envs)@[i], old(envs)@[i])
                &&& (!spec_probably_encrypted(old(envs)@[i].content@) || key is None ==> final(envs)@[i].content@ == old(envs)@[i].content@)
                &&& (final(envs)@[i].content@ == old(envs)@[i].content@ || (key matches Some(k)
                    && enc_output(
                    spec_trim_start(old(envs)@[i].content@),
                    k@,
                    aad_spec(SecretContext::State),
                    final(envs)@[i].content@,
                )))
                &&& (key matches Some(k) ==> content_decrypts_to(
                    old(envs)@[i].content@,
                    k@,
                    final(envs)@[i].content@,
                ))
            },
{
    let k = match key {
        Some(k) => k,
        None => {
            return ;
        },
    };
    let mut out: Vec<PersistedEnvironmentV1> = Vec::new();
    let mut i: usize = 0;
    while i < envs.len()
        invariant
            0 <= i <= envs@.len(),
            key matches Some(kk) && kk@.len() == 32 && kk == k,
            envs@ == old(envs)@,
            out@.len() == i,
            forall|j: int|
                #![trigger out@[j]]
                0 <= j < i ==> {
                    &&& env_same_but_content(out@[j], envs@[j])
                    &&& (!spec_probably_encrypted(envs@[j].content@) ==> out@[j].content@
                        == envs@[j].content@)
                    &&& (out@[j].content@ == envs@[j].content@ || enc_output(
                        spec_trim_start(envs@[j].content@),
                        k@,
                        aad_spec(SecretContext::State),
                        out@[j].content@,
                    ))
                    &&& content_decrypts_to(envs@[j].content@, k@, out@[j].content@)
                },
        decreases envs@.len() - i,
    {
        let src = &envs[i];
        let ghost old_content = src.content@;
        let content: String = if is_probably_encrypted_value(src.content.as_str()) {
            match decrypt_string_with_key(k, SecretContext::State, src.content.as_str()) {
                Ok(plain) => plain,
                Err(_) => src.content.clone(),
            }
        } else {
            src.content.clone()
        };
        proof {
            // An authentic ciphertext always looks encrypted, so the
            // not-encrypted branch decrypts nothing; the decrypt branch
            // returns the message by the cipher's completeness; and an
            // authentication failure means no such message exists.
            assert forall|m: Seq<char>|
                enc_output(spec_trim_start(old_content), k@, aad_spec(SecretContext::State), m)
                    implies content@ == m by {
                crate::secure::lemma_enc_output_probably(old_content, k@, aad_spec(
                    SecretContext::State,
                ), m);
            }
            assert(content_decrypts_to(old_content, k@, content@));
        }
        out.push(
            PersistedEnvironmentV1 {
                id: src.id.clone(),
                name: src.name.clone(),
                content,
                created_at: src.created_at,
            },
        );
        i = i + 1;
    }
    *envs = out;
}

/// Encrypts every not-yet-encrypted environment content under the
/// state-file context, fetching the master key through the memoizing
/// cache. Contents already carrying a plausible ciphertext are left alone.
pub fn encrypt_environments(
    envs: &mut Vec<PersistedEnvironmentV1>,
    cache: &mut MasterKeyCache,
    service: &str,
) -> (r: Result<(), SecureError>)
    requires
        old(cache).wf(),
    ensures
        final(cache).wf(),
        // Success is owed with a memoized key and contents within the
        // cipher's message limit.
        old(cache).state is Ready && (forall|i: int|
            0 <= i < old(envs)@.len() ==> 4 * old(envs)@[i].content@.len()
                < crate::secure::seal_msg_max()) ==> r is Ok,
        r matches Ok(_) ==> {
            &&& final(envs)@.len() == old(envs)@.len()
            &&& (old(envs)@.len() > 0 ==> final(cache).state is Ready)
            &&& forall|i: int|
                #![trigger final(envs)@[i]]
                0 <= i < old(envs)@.len() ==> {
                    &&& env_same_but_content(final(envs)@[i], old(envs)@[i])
                    &&& (spec_probably_encrypted(old(envs)@[i].content@) ==> final(envs)@[i].content@ == old(envs)@[i].content@)
                    &&& (!spec_probably_encrypted(old(envs)@[i].content@) ==> (
                    final(cache).state matches crate::secure::MasterKeyCacheState::Ready(k)
                        && enc_output(
                        final(envs)@[i].content@,
                        k@,
                        aad_spec(SecretContext::State),
                        old(envs)@[i].content@,
                    )))
                }
        },
        r matches Err(e) ==> e is KeyUnavailable || e is EncryptFailed,
{
    if envs.len() == 0 {
        return Ok(());
    }
    let k = match get_or_create_master_key(cache, service) {
        Ok(k) => k,
        Err(e) => {
            return Err(e);
        },
    };
    let mut out: Vec<PersistedEnvironmentV1> = Vec::new();
    let mut i: usize = 0;
    while i < envs.len()
        invariant
            0 <= i <= envs@.len(),
            k@.len() == 32,
            cache.wf(),
            cache.state matches crate::secure::MasterKeyCacheState::Ready(ck) && ck@ == k@,
            envs@ == old(envs)@,
            out@.len() == i,
            forall|j: int|
                #![trigger out@[j]]
                0 <= j < i ==> {
                    &&& env_same_but_content(out@[j], envs@[j])
                    &&& (spec_probably_encrypted(envs@[j].content@) ==> out@[j].content@
                        == envs@[j].content@)
                    &&& (!spec_probably_encrypted(envs@[j].content@) ==> enc_output(
                        out@[j].content@,
                        k@,
                        aad_spec(SecretContext::State),
                        envs@[j].content@,
                    ))
                },
        decreases envs@.len() - i,
    {
        let src = &envs[i];
        let content: String = if is_probably_encrypted_value(src.content.as_str()) {
            src.content.clone()
        } else {
            match encrypt_string_with_key(&k, SecretContext::State, src.content.as_str()) {
                Ok(cipher) => cipher,
                Err(e) => {
                    proof {
                        // The cipher refused, so this content overruns the
                        // message limit and success was not owed.
                        crate::textutil::lemma_encode_utf8_len(src.content@);
                    }
                    return Err(e);
                },
            }
        };
        out.push(
            PersistedEnvironmentV1 {
                id: src.id.clone(),
                name: src.name.clone(),
                content,
                created_at: src.created_at,
            },
        );
        i = i + 1;
    }
    *envs = out;
    Ok(())
}

} // verus!
