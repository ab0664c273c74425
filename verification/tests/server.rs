use dns_blocker::blocklist::Blocklist;
use dns_blocker::server::{FrontendReply, OverrideOutcome, Server, Source, SourceOutcome};

fn urls(sources: &[Source]) -> Vec<(String, bool)> {
    sources.iter().map(|s| (s.url.clone(), s.enabled)).collect()
}

#[test]
fn override_add_remove_and_invalid() {
    let mut b = Blocklist::new();
    assert_eq!(Server::apply_override(&mut b, "x.example".to_string(), "add"), OverrideOutcome::Added);
    assert!(b.check("x.example"));
    assert_eq!(Server::apply_override(&mut b, "x.example".to_string(), "remove"), OverrideOutcome::Removed);
    assert!(!b.check("x.example"));
    assert!(b.user_removed.contains("x.example"));
    assert_eq!(Server::apply_override(&mut b, "y.example".to_string(), "block"), OverrideOutcome::InvalidAction);
    assert!(!b.check("y.example"));
    assert!(!b.user_added.contains("y.example"));
}

#[test]
fn sources_add_refuses_duplicates() {
    let mut s = Vec::new();
    assert_eq!(Server::apply_source_action(&mut s, "u1".to_string(), "add", None), SourceOutcome::Added);
    assert_eq!(Server::apply_source_action(&mut s, "u1".to_string(), "add", Some(false)), SourceOutcome::AlreadyExists);
    assert_eq!(Server::apply_source_action(&mut s, "u2".to_string(), "add", Some(false)), SourceOutcome::Added);
    assert_eq!(urls(&s), vec![("u1".to_string(), true), ("u2".to_string(), true)]);
}

#[test]
fn sources_toggle_flips_or_sets() {
    let mut s = vec![
        Source { url: "u1".to_string(), enabled: true },
        Source { url: "u2".to_string(), enabled: true },
    ];
    assert_eq!(Server::apply_source_action(&mut s, "u2".to_string(), "toggle", None), SourceOutcome::Toggled);
    assert_eq!(urls(&s), vec![("u1".to_string(), true), ("u2".to_string(), false)]);
    assert_eq!(Server::apply_source_action(&mut s, "u2".to_string(), "toggle", Some(false)), SourceOutcome::Toggled);
    assert_eq!(urls(&s), vec![("u1".to_string(), true), ("u2".to_string(), false)]);
    assert_eq!(Server::apply_source_action(&mut s, "u1".to_string(), "toggle", Some(false)), SourceOutcome::Toggled);
    assert_eq!(urls(&s), vec![("u1".to_string(), false), ("u2".to_string(), false)]);
    assert_eq!(Server::apply_source_action(&mut s, "none".to_string(), "toggle", None), SourceOutcome::Toggled);
    assert_eq!(urls(&s), vec![("u1".to_string(), false), ("u2".to_string(), false)]);
}

#[test]
fn sources_remove_drops_every_match() {
    let mut s = vec![
        Source { url: "u1".to_string(), enabled: true },
        Source { url: "u2".to_string(), enabled: false },
        Source { url: "u1".to_string(), enabled: false },
    ];
    assert_eq!(Server::apply_source_action(&mut s, "u1".to_string(), "remove", None), SourceOutcome::Removed);
    assert_eq!(urls(&s), vec![("u2".to_string(), false)]);
    assert_eq!(Server::apply_source_action(&mut s, "u9".to_string(), "remove", None), SourceOutcome::Removed);
    assert_eq!(urls(&s), vec![("u2".to_string(), false)]);
}

#[test]
fn sources_invalid_action_changes_nothing() {
    let mut s = vec![Source { url: "u1".to_string(), enabled: true }];
    assert_eq!(Server::apply_source_action(&mut s, "u1".to_string(), "delete", None), SourceOutcome::InvalidAction);
    assert_eq!(urls(&s), vec![("u1".to_string(), true)]);
}

#[test]
fn asset_path_drops_leading_slashes() {
    assert_eq!(Server::asset_path("/index.html"), "index.html");
    assert_eq!(Server::asset_path("///assets/app.js"), "assets/app.js");
    assert_eq!(Server::asset_path("a/b/"), "a/b/");
    assert_eq!(Server::asset_path("/"), "");
    assert_eq!(Server::asset_path(""), "");
}

#[test]
fn overrides_are_sorted() {
    let mut b = Blocklist::new();
    for d in ["zeta.example", "alpha.example", "mid.example", "Alpha.example", "\u{e9}.example"] {
        b.block_domain(d.to_string());
    }
    b.unblock_domain("b".to_string());
    b.unblock_domain("a".to_string());
    let (added, removed) = Server::overrides(&b);
    let mut expected: Vec<String> = added.clone();
    expected.sort_unstable();
    assert_eq!(added, expected);
    assert_eq!(
        added,
        vec!["Alpha.example", "alpha.example", "mid.example", "zeta.example", "\u{e9}.example"]
    );
    assert_eq!(removed, vec!["a", "b"]);
}

#[test]
fn frontend_reply_prefers_asset_then_index() {
    assert_eq!(
        Server::frontend_reply("/index.html", true, true),
        FrontendReply::Asset { name: "index.html".to_string(), mime: "text/html".to_string() }
    );
    assert_eq!(
        Server::frontend_reply("//assets/app.js", true, false),
        FrontendReply::Asset {
            name: "assets/app.js".to_string(),
            mime: "text/javascript".to_string()
        }
    );
    assert_eq!(
        Server::frontend_reply("/data.unknownext", true, true),
        FrontendReply::Asset {
            name: "data.unknownext".to_string(),
            mime: "application/octet-stream".to_string()
        }
    );
    assert_eq!(Server::frontend_reply("/missing", false, true), FrontendReply::Index);
    assert_eq!(Server::frontend_reply("/missing", false, false), FrontendReply::NotFound);
}

#[test]
fn override_keeps_last_update() {
    let mut b = Blocklist::new();
    let before = b.last_update;
    Server::apply_override(&mut b, "x".to_string(), "add");
    Server::apply_override(&mut b, "x".to_string(), "remove");
    assert_eq!(b.last_update, before);
}
