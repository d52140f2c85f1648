use torrentoxide_core::auth::{auth_decision, login_html, AuthDecision, LoginForm, LOGIN_ERROR, SESSION_COOKIE};
use torrentoxide_core::config::{ct_eq, dir_plan, env_opt, AppConfig, EnvVars};
use torrentoxide_core::logbuf::{append_field, event_message, LogRing};

fn env(user: Option<&str>, pass: Option<&str>) -> EnvVars {
    EnvVars {
        download_dir: None,
        browse_root: None,
        persistence_dir: Some("  /var/lib/session ".to_string()),
        auth_username: user.map(|s| s.to_string()),
        auth_password: pass.map(|s| s.to_string()),
        session_secret: Some("   ".to_string()),
        tmdb_api_key: Some(" key123 ".to_string()),
    }
}

#[test]
fn env_values_are_trimmed_and_blank_is_unset() {
    assert_eq!(env_opt(&Some("  x ".to_string())), Some("x".to_string()));
    assert_eq!(env_opt(&Some(" \t ".to_string())), None);
    assert_eq!(env_opt(&None), None);
}

#[test]
fn directory_plan_defaults() {
    let p = dir_plan(&env(None, None));
    assert_eq!(p.download_dir, "./downloads");
    assert_eq!(p.browse_root, None);
    assert_eq!(p.persistence_dir, "/var/lib/session");
}

#[test]
fn config_from_env_values() {
    let e = env(Some(" admin "), Some("pw"));
    let c = AppConfig::from_env(&e, "/dl".to_string(), None, "/s".to_string());
    assert_eq!(c.download_dir, "/dl");
    assert_eq!(c.browse_root, "/dl");
    assert_eq!(c.persistence_dir, "/s");
    assert_eq!(c.auth_username.as_deref(), Some("admin"));
    assert_eq!(c.session_secret, None);
    assert_eq!(c.tmdb_api_key.as_deref(), Some("key123"));
    let c2 = AppConfig::from_env(&e, "/dl".to_string(), Some("/root".to_string()), "/s".to_string());
    assert_eq!(c2.browse_root, "/root");
}

#[test]
fn auth_needs_both_fields() {
    let dl = "/dl".to_string();
    let c = AppConfig::from_env(&env(Some("u"), None), dl.clone(), None, dl.clone());
    assert!(!c.auth_enabled());
    assert!(!c.check_credentials("u", ""));
    let c = AppConfig::from_env(&env(Some("u"), Some("p")), dl.clone(), None, dl);
    assert!(c.auth_enabled());
    assert!(c.check_credentials("u", "p"));
    assert!(!c.check_credentials("u", "q"));
    assert!(!c.check_credentials("U", "p"));
    assert!(!c.check_credentials("u", "pp"));
}

#[test]
fn byte_comparison() {
    assert!(ct_eq(b"abc", b"abc"));
    assert!(!ct_eq(b"abc", b"abd"));
    assert!(!ct_eq(b"abc", b"ab"));
    assert!(ct_eq(b"", b""));
}

#[test]
fn auth_guard_decisions() {
    assert_eq!(auth_decision(false, "/api/x", false), AuthDecision::Pass);
    assert_eq!(auth_decision(true, "/login", false), AuthDecision::Pass);
    assert_eq!(auth_decision(true, "/logout", false), AuthDecision::Pass);
    assert_eq!(auth_decision(true, "/favicon.ico", false), AuthDecision::Pass);
    assert_eq!(auth_decision(true, "/pkg/app.js", false), AuthDecision::Pass);
    assert_eq!(auth_decision(true, "/fonts/a.woff2", false), AuthDecision::Pass);
    assert_eq!(auth_decision(true, "/api/torrents", true), AuthDecision::Pass);
    assert_eq!(auth_decision(true, "/api/torrents", false), AuthDecision::Unauthorized);
    assert_eq!(auth_decision(true, "/", false), AuthDecision::RedirectLogin);
    assert_eq!(auth_decision(true, "/login/extra", false), AuthDecision::RedirectLogin);
}

#[test]
fn login_page_shows_error_only_after_failure() {
    let ok = login_html(false);
    let bad = login_html(true);
    assert!(ok.starts_with("<!DOCTYPE html>"));
    assert!(ok.contains("action=\"/login\""));
    assert!(!ok.contains(LOGIN_ERROR));
    assert!(bad.contains(LOGIN_ERROR));
    assert_eq!(bad.len(), ok.len() + LOGIN_ERROR.len());
    assert_eq!(SESSION_COOKIE, "toxide_session");
    let f = LoginForm { username: "a".to_string(), password: "b".to_string() };
    assert_eq!(f.username, "a");
}

#[test]
fn log_fields_and_lines() {
    let mut m = String::new();
    append_field(&mut m, "message", "started");
    assert_eq!(m, "started");
    append_field(&mut m, "peers", "30");
    assert_eq!(m, "started peers=30");
    append_field(&mut m, "message", "again");
    assert_eq!(m, "started peers=30 again");
    assert_eq!(event_message("torrentoxide::server::engine", "  hello "), "torrentoxide: hello");
    assert_eq!(event_message("librqbit", ""), "librqbit");
    assert_eq!(event_message("a::b", "   "), "a");
}

#[test]
fn log_ring_is_capped_and_numbered() {
    let mut r = LogRing::new(2);
    assert_eq!(r.push("00:00:01".into(), "INFO".into(), "a".into()), 1);
    assert_eq!(r.push("00:00:02".into(), "WARN".into(), "b".into()), 2);
    assert_eq!(r.push("00:00:03".into(), "INFO".into(), "c".into()), 3);
    let h = r.history();
    assert_eq!(h.len(), 2);
    assert_eq!(h[0].id, 2);
    assert_eq!(h[0].level, "WARN");
    assert_eq!(h[1].message, "c");
}
