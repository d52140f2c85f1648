//! The optional login: which requests pass the guard, and the login page.
//!
//! Cookies, redirects and the HTTP plumbing stay with the server; this
//! module decides.

use vstd::prelude::*;

use crate::text::{push_str, starts_with, string_from_chars, str_chars, starts_with_chars};

verus! {

/// Name of the signed session cookie.
pub const SESSION_COOKIE: &'static str = "toxide_session";

/// The login form's fields.
pub struct LoginForm {
    pub username: String,
    pub password: String,
}

/// What the guard does with a request.
#[derive(Clone, Copy, Debug, PartialEq, Eq, Structural)]
pub enum AuthDecision {
    /// Serve it.
    Pass,
    /// An API call without a session: 401.
    Unauthorized,
    /// A page load without a session: go to the login page.
    RedirectLogin,
}

/// Public assets and the login routes need no session.
pub open spec fn is_public(path: Seq<char>) -> bool {
    ||| path == "/login"@
    ||| path == "/logout"@
    ||| path == "/favicon.ico"@
    ||| starts_with(path, "/pkg/"@)
    ||| starts_with(path, "/fonts/"@)
}

pub open spec fn decision_spec(auth_enabled: bool, path: Seq<char>, has_session: bool) -> AuthDecision {
    if !auth_enabled || is_public(path) || has_session {
        AuthDecision::Pass
    } else if starts_with(path, "/api/"@) {
        AuthDecision::Unauthorized
    } else {
        AuthDecision::RedirectLogin
    }
}

fn is_exactly(p: &[char], lit: &str) -> (r: bool)
    ensures
        r == (p@ == lit@),
{
    let l = str_chars(lit);
    crate::sort::seq_eq(p, l.as_slice())
}

fn has_prefix(p: &[char], lit: &str) -> (r: bool)
    ensures
        r == starts_with(p@, lit@),
{
    let l = str_chars(lit);
    starts_with_chars(p, l.as_slice())
}

/// The auth guard: a no-op when auth is disabled; otherwise public paths and
/// requests with a valid session pass, API calls get 401 and page loads go
/// to the login page.
pub fn auth_decision(auth_enabled: bool, path: &str, has_session: bool) -> (r: AuthDecision)
    ensures
        r == decision_spec(auth_enabled, path@, has_session),
{
    if !auth_enabled {
        return AuthDecision::Pass;
    }
    let p = str_chars(path);
    let public = is_exactly(p.as_slice(), "/login") || is_exactly(p.as_slice(), "/logout")
        || is_exactly(p.as_slice(), "/favicon.ico") || has_prefix(p.as_slice(), "/pkg/")
        || has_prefix(p.as_slice(), "/fonts/");
    if public || has_session {
        AuthDecision::Pass
    } else if has_prefix(p.as_slice(), "/api/") {
        AuthDecision::Unauthorized
    } else {
        AuthDecision::RedirectLogin
    }
}

/// The login page before the error line.
pub const LOGIN_HEAD: &'static str = r##"<!DOCTYPE html>
<html lang="en">
<head>
    <meta charset="utf-8"/>
    <meta name="viewport" content="width=device-width, initial-scale=1"/>
    <title>TorrentOxide · Login</title>
    <link rel="stylesheet" href="/pkg/torrentoxide.css"/>
    <style>
        :root { color-scheme: dark; --red:#ff2b4d; --cyan:#24e3ff; --ink:#d7e9f6; }
        html, body { height: 100%; margin: 0; }
        body {
            background:
                radial-gradient(130% 90% at 50% -25%, rgba(255,43,77,.12), transparent 55%),
                linear-gradient(180deg, #05070e, #04060b 45%);
            color: var(--ink);
            font-family: "Rajdhani", "Segoe UI", system-ui, sans-serif;
            font-weight: 500; letter-spacing: .5px;
            display: flex; align-items: center; justify-content: center;
        }
        .login-card {
            position: relative; isolation: isolate;
            width: min(92vw, 380px); padding: 2.4rem 2.1rem;
            background: var(--red);
            clip-path: polygon(0 0, calc(100% - 16px) 0, 100% 16px, 100% 100%, 16px 100%, 0 calc(100% - 16px));
            filter: drop-shadow(0 0 14px rgba(255,43,77,.5));
        }
        .login-card::before {
            content:""; position:absolute; inset:2px; background:#0a0e18; z-index:-1;
            clip-path: polygon(0 0, calc(100% - 14px) 0, 100% 14px, 100% 100%, 14px 100%, 0 calc(100% - 14px));
        }
        .login-title {
            margin: 0 0 0.3rem; font-size: 1.8rem; letter-spacing: 3px; font-weight: 700;
            text-transform: uppercase; color: var(--cyan); text-shadow: 0 0 12px rgba(36,227,255,.5);
        }
        .login-title b { color: var(--red); text-shadow: 0 0 12px rgba(255,43,77,.6); }
        .login-sub { margin: 0 0 1.7rem; color: #6d7d93; font-size: 0.75rem; letter-spacing: 2px; text-transform: uppercase; }
        .login-field { display: block; margin-bottom: 1rem; }
        .login-field span { display: block; font-size: 0.68rem; color: #6d7d93; margin-bottom: 0.35rem; letter-spacing: 2px; text-transform: uppercase; }
        .login-field input {
            width: 100%; box-sizing: border-box; padding: 0.7rem 0.85rem;
            border: 1px solid rgba(36,227,255,.3); background: rgba(4,8,14,.85); color: var(--ink); font: inherit;
            clip-path: polygon(0 0, calc(100% - 8px) 0, 100% 8px, 100% 100%, 8px 100%, 0 calc(100% - 8px));
        }
        .login-field input:focus { outline: none; border-color: var(--cyan); box-shadow: 0 0 12px -2px rgba(36,227,255,.5); }
        .login-btn {
            width: 100%; margin-top: 0.7rem; padding: 0.8rem; border: none; cursor: pointer;
            font: inherit; font-weight: 700; letter-spacing: 2px; color: #04060b; text-transform: uppercase;
            background: linear-gradient(120deg, var(--cyan), #12a8d8); box-shadow: 0 0 18px -2px rgba(36,227,255,.5);
            clip-path: polygon(0 0, calc(100% - 10px) 0, 100% 10px, 100% 100%, 10px 100%, 0 calc(100% - 10px));
        }
        .login-btn:hover { filter: brightness(1.15); }
        .login-error { color: #ff5e77; font-size: 0.82rem; margin: 0 0 1rem; letter-spacing: .5px; }
    </style>
</head>
<body>
    <form class="login-card" method="post" action="/login">
        <h1 class="login-title">TORRENT<b>OXIDE</b></h1>
        <p class="login-sub">// authenticate to continue</p>
        "##;

/// The error line shown after a failed attempt.
pub const LOGIN_ERROR: &'static str = r#"<p class="login-error">Invalid credentials. Try again.</p>"#;

/// The login page after the error line.
pub const LOGIN_TAIL: &'static str = r##"
        <label class="login-field">
            <span>Username</span>
            <input type="text" name="username" autocomplete="username" autofocus/>
        </label>
        <label class="login-field">
            <span>Password</span>
            <input type="password" name="password" autocomplete="current-password"/>
        </label>
        <button class="login-btn" type="submit">Enter</button>
    </form>
</body>
</html>"##;

/// The login page, with the error line after a failed attempt.
pub fn login_html(error: bool) -> (r: String)
    ensures
        r@ == LOGIN_HEAD@ + (if error {
            LOGIN_ERROR@
        } else {
            Seq::<char>::empty()
        }) + LOGIN_TAIL@,
{
    let mut out: Vec<char> = Vec::new();
    push_str(&mut out, LOGIN_HEAD);
    if error {
        push_str(&mut out, LOGIN_ERROR);
    }
    push_str(&mut out, LOGIN_TAIL);
    proof {
        if !error {
            assert(LOGIN_HEAD@ + Seq::<char>::empty() =~= LOGIN_HEAD@);
        }
    }
    string_from_chars(out.as_slice())
}

} // verus!
