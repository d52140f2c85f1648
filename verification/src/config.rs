//! The server's configuration, taken from environment variables: where
//! downloads go, the root the directory browser is confined to, where the
//! engine keeps its session state, and the optional login.
//!
//! Reading the environment and creating/canonicalising the directories is
//! done by the caller; this module decides what the raw values mean.

use vstd::prelude::*;

use crate::text::{str_chars, string_from_chars, trim, trim_chars};
use vstd::string::StringSliceAdditionalSpecFns;

verus! {

/// The raw values of the environment variables, as read (`None` if unset).
pub struct EnvVars {
    pub download_dir: Option<String>,
    pub browse_root: Option<String>,
    pub persistence_dir: Option<String>,
    pub auth_username: Option<String>,
    pub auth_password: Option<String>,
    pub session_secret: Option<String>,
    pub tmdb_api_key: Option<String>,
}

#[derive(Clone, Debug)]
pub struct AppConfig {
    /// Default folder new torrents download into.
    pub download_dir: String,
    /// Root the remote directory browser is confined to.
    pub browse_root: String,
    /// Where the engine persists its session state.
    pub persistence_dir: String,
    /// Optional auth, enabled only when both username and password are set.
    pub auth_username: Option<String>,
    pub auth_password: Option<String>,
    /// Secret used to sign the session cookie; random per run if unset.
    pub session_secret: Option<String>,
    /// TMDb API key for metadata lookups.
    pub tmdb_api_key: Option<String>,
}

/// A setting's value: the trimmed text, or `None` when unset or blank.
pub open spec fn env_opt_spec(raw: Option<Seq<char>>) -> Option<Seq<char>> {
    match raw {
        Some(v) => if trim(v).len() > 0 {
            Some(trim(v))
        } else {
            None
        },
        None => None,
    }
}

pub open spec fn opt_view(o: Option<String>) -> Option<Seq<char>> {
    match o {
        Some(s) => Some(s@),
        None => None,
    }
}

/// A non-empty setting, trimmed; `None` if unset or blank.
pub fn env_opt(raw: &Option<String>) -> (r: Option<String>)
    ensures
        opt_view(r) == env_opt_spec(opt_view(*raw)),
{
    match raw {
        Some(v) => {
            let t = trim_chars(str_chars(v.as_str()).as_slice());
            if t.len() > 0 {
                Some(string_from_chars(t.as_slice()))
            } else {
                None
            }
        },
        None => None,
    }
}

/// The directories to create and canonicalise before the configuration is
/// built: the download folder (default `./downloads`), the browse root if
/// one is set, and the session folder (default `./.rqbit-session`).
pub struct DirPlan {
    pub download_dir: String,
    pub browse_root: Option<String>,
    pub persistence_dir: String,
}

pub open spec fn or_default(v: Option<Seq<char>>, d: Seq<char>) -> Seq<char> {
    match v {
        Some(x) => x,
        None => d,
    }
}

pub fn dir_plan(env: &EnvVars) -> (r: DirPlan)
    ensures
        r.download_dir@ == or_default(env_opt_spec(opt_view(env.download_dir)), "./downloads"@),
        opt_view(r.browse_root) == env_opt_spec(opt_view(env.browse_root)),
        r.persistence_dir@ == or_default(
            env_opt_spec(opt_view(env.persistence_dir)),
            "./.rqbit-session"@,
        ),
{
    let download_dir = match env_opt(&env.download_dir) {
        Some(d) => d,
        None => string_from_chars(str_chars("./downloads").as_slice()),
    };
    let persistence_dir = match env_opt(&env.persistence_dir) {
        Some(d) => d,
        None => string_from_chars(str_chars("./.rqbit-session").as_slice()),
    };
    DirPlan { download_dir, browse_root: env_opt(&env.browse_root), persistence_dir }
}

impl AppConfig {
    /// The configuration from the environment's values and the directories
    /// of the plan as created and canonicalised: without its own browse root
    /// the browser is confined to the download folder.
    pub fn from_env(
        env: &EnvVars,
        download_dir: String,
        browse_root: Option<String>,
        persistence_dir: String,
    ) -> (r: AppConfig)
        ensures
            r.download_dir@ == download_dir@,
            r.browse_root@ == match browse_root {
                Some(b) => b@,
                None => download_dir@,
            },
            r.persistence_dir@ == persistence_dir@,
            opt_view(r.auth_username) == env_opt_spec(opt_view(env.auth_username)),
            opt_view(r.auth_password) == env_opt_spec(opt_view(env.auth_password)),
            opt_view(r.session_secret) == env_opt_spec(opt_view(env.session_secret)),
            opt_view(r.tmdb_api_key) == env_opt_spec(opt_view(env.tmdb_api_key)),
    {
        let browse_root = match browse_root {
            Some(b) => b,
            None => download_dir.clone(),
        };
        AppConfig {
            download_dir,
            browse_root,
            persistence_dir,
            auth_username: env_opt(&env.auth_username),
            auth_password: env_opt(&env.auth_password),
            session_secret: env_opt(&env.session_secret),
            tmdb_api_key: env_opt(&env.tmdb_api_key),
        }
    }

    /// Auth is active only when both a username and a password are set.
    pub fn auth_enabled(&self) -> (r: bool)
        ensures
            r == (self.auth_username is Some && self.auth_password is Some),
    {
        self.auth_username.is_some() && self.auth_password.is_some()
    }

    /// Whether the credentials match, comparing every byte of both fields
    /// whatever their contents (no early exit on the first mismatch).
    pub fn check_credentials(&self, user: &str, pass: &str) -> (r: bool)
        ensures
            r == match (self.auth_username, self.auth_password) {
                (Some(u), Some(p)) => user@ == u@ && pass@ == p@,
                _ => false,
            },
    {
        match (&self.auth_username, &self.auth_password) {
            (Some(u), Some(p)) => {
                let a = ct_eq(user.as_bytes(), u.as_str().as_bytes());
                let b = ct_eq(pass.as_bytes(), p.as_str().as_bytes());
                proof {
                    lemma_utf8_injective(user@, u@);
                    lemma_utf8_injective(pass@, p@);
                }
                a && b
            },
            _ => false,
        }
    }
}

/// Texts with the same UTF-8 bytes are the same text.
proof fn lemma_utf8_injective(a: Seq<char>, b: Seq<char>)
    ensures
        vstd::utf8::encode_utf8(a) == vstd::utf8::encode_utf8(b) ==> a == b,
{
    vstd::utf8::encode_utf8_decode_utf8(a);
    vstd::utf8::encode_utf8_decode_utf8(b);
}

/// Byte comparison that looks at every byte; true iff equal.
pub fn ct_eq(a: &[u8], b: &[u8]) -> (r: bool)
    ensures
        r == (a@ == b@),
{
    if a.len() != b.len() {
        return false;
    }
    let mut diff: u8 = 0;
    let mut i: usize = 0;
    while i < a.len()
        invariant
            i <= a.len() == b.len(),
            (diff == 0) == (forall|j: int| 0 <= j < i ==> a@[j] == b@[j]),
        decreases a.len() - i,
    {
        let x = a[i];
        let y = b[i];
        let d = diff;
        assert((d | (x ^ y)) == 0 <==> (d == 0 && x == y)) by (bit_vector);
        diff = diff | (x ^ y);
        i += 1;
    }
    proof {
        if diff == 0 {
            assert(a@ =~= b@);
        }
    }
    diff == 0
}

} // verus!
