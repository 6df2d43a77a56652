use reposaver::memo::{encode_memo, parse_memo, sidecar_file_name, sidecar_memo};
use reposaver::notification::{kind_name, NotificationKind};
use reposaver::paths::{rebase_path, subfolder_of};
use reposaver::settings::{
    apply_settings_update, clamp_generations, default_max_generations, default_theme,
    parse_decimal, settings_from_values, AppSettings,
};

#[test]
fn memo_encodes_as_a_key_value_object() {
    assert_eq!(encode_memo("note"), "{\"memo\":\"note\"}");
    assert_eq!(encode_memo(""), "{\"memo\":\"\"}");
    assert_eq!(encode_memo("a\"b"), "{\"memo\":\"a\\\"b\"}");
    assert_eq!(encode_memo("a\\b"), "{\"memo\":\"a\\\\b\"}");
    assert_eq!(encode_memo("line1\nline2"), "{\"memo\":\"line1\\nline2\"}");
    assert_eq!(encode_memo("a\u{1}b"), "{\"memo\":\"a\\u0001b\"}");
}

#[test]
fn memo_round_trips_through_the_sidecar_text() {
    let memos = [
        "note",
        "",
        "メモを書く 📝",
        "quotes \" and \\ slashes",
        "tabs\tand\r\nnewlines",
        "control \u{1}\u{8}\u{c}\u{1f} chars",
    ];
    for m in memos {
        assert_eq!(parse_memo(&encode_memo(m)), m);
    }
}

#[test]
fn malformed_sidecars_read_as_the_empty_memo() {
    assert_eq!(parse_memo(""), "");
    assert_eq!(parse_memo("not json at all"), "");
    assert_eq!(parse_memo("{\"memo\":\"unterminated"), "");
    assert_eq!(parse_memo("{\"other\":\"x\"}"), "");
    assert_eq!(parse_memo("{\"memo\":\"bad \\q escape\"}"), "");
    assert_eq!(parse_memo("{\"memo\":\"bad \\u12GH\"}"), "");
}

#[test]
fn parse_accepts_the_standard_named_escapes() {
    assert_eq!(parse_memo("{\"memo\":\"a\\/b\\tc\\u0041\"}"), "a/b\tcA");
}

#[test]
fn absent_sidecar_reads_as_the_empty_memo() {
    assert_eq!(sidecar_memo(None), "");
    let text = encode_memo("kept");
    assert_eq!(sidecar_memo(Some(&text)), "kept");
}

#[test]
fn the_sidecar_has_a_fixed_name() {
    assert_eq!(sidecar_file_name(), "meta.json");
}

#[test]
fn subfolder_is_the_first_component_under_the_root() {
    let sub = |r: &str, p: &str| subfolder_of(r, p);
    assert_eq!(sub("C:/root", "C:/root/Save1/deep/f.txt"), Some("Save1".to_string()));
    assert_eq!(sub("C:\\root", "C:\\root\\Save1\\f.txt"), Some("Save1".to_string()));
    assert_eq!(sub("C:/root/", "C:/root/Save1"), Some("Save1".to_string()));
    assert_eq!(sub("C:/root", "C:/root/Save1"), Some("Save1".to_string()));
    assert_eq!(sub("C:/root", "C:/root"), None);
    assert_eq!(sub("C:/root", "C:/root/"), None);
    assert_eq!(sub("C:/root", "C:/rootextra/f.txt"), None);
    assert_eq!(sub("C:/root", "D:/other/f.txt"), None);
    assert_eq!(sub("", "Save1/f.txt"), Some("Save1".to_string()));
}

#[test]
fn rebase_moves_a_path_between_roots() {
    assert_eq!(
        rebase_path("C:/src/a/b.txt", "C:/src", "D:/dst"),
        Some("D:/dst/a/b.txt".to_string())
    );
    assert_eq!(rebase_path("C:/src", "C:/src", "D:/dst"), Some("D:/dst".to_string()));
    assert_eq!(rebase_path("C:/src/a", "C:/src/", "D:/dst"), Some("D:/dst/a".to_string()));
    assert_eq!(rebase_path("C:/srcx/a", "C:/src", "D:/dst"), None);
    assert_eq!(rebase_path("D:/other/a", "C:/src", "D:/dst"), None);
}

#[test]
fn retention_limit_requests_are_clamped() {
    assert_eq!(clamp_generations(0), 1);
    assert_eq!(clamp_generations(1), 1);
    assert_eq!(clamp_generations(50), 50);
    assert_eq!(clamp_generations(100), 100);
    assert_eq!(clamp_generations(101), 100);
    assert_eq!(clamp_generations(usize::MAX), 100);
}

#[test]
fn defaults_are_system_theme_and_ten_generations() {
    assert_eq!(default_theme(), "system");
    assert_eq!(default_max_generations(), 10);
}

#[test]
fn decimal_settings_values_parse_strictly() {
    assert_eq!(parse_decimal("10"), Some(10));
    assert_eq!(parse_decimal("0"), Some(0));
    assert_eq!(parse_decimal("007"), Some(7));
    assert_eq!(parse_decimal(""), None);
    assert_eq!(parse_decimal("12a"), None);
    assert_eq!(parse_decimal("-5"), None);
    assert_eq!(parse_decimal("99999999999999999999999999999"), None);
}

#[test]
fn settings_read_falls_back_field_by_field() {
    let repo = "C:/root".to_string();
    let theme = "dark".to_string();
    let max_ok = "25".to_string();
    let max_bad = "lots".to_string();

    assert!(settings_from_values(None, Some(&theme), Some(&max_ok)).is_none());

    let full = settings_from_values(Some(&repo), Some(&theme), Some(&max_ok)).unwrap();
    assert_eq!(full.repo_save_path, "C:/root");
    assert_eq!(full.theme, "dark");
    assert_eq!(full.max_generations, 25);

    let bare = settings_from_values(Some(&repo), None, None).unwrap();
    assert_eq!(bare.theme, "system");
    assert_eq!(bare.max_generations, 10);

    let bad = settings_from_values(Some(&repo), None, Some(&max_bad)).unwrap();
    assert_eq!(bad.max_generations, 10);
}

#[test]
fn settings_updates_clamp_and_keep_unmentioned_fields() {
    let current = AppSettings {
        repo_save_path: "C:/old".to_string(),
        theme: "dark".to_string(),
        max_generations: 10,
    };
    let updated = apply_settings_update(&current, "C:/new".to_string(), Some(500), None);
    assert_eq!(updated.repo_save_path, "C:/new");
    assert_eq!(updated.max_generations, 100);
    assert_eq!(updated.theme, "dark");

    let themed = apply_settings_update(&current, "C:/new".to_string(), None, Some("light".to_string()));
    assert_eq!(themed.max_generations, 10);
    assert_eq!(themed.theme, "light");
}

#[test]
fn notification_kinds_have_their_wire_names() {
    assert_eq!(kind_name(NotificationKind::Backup), "backup");
    assert_eq!(kind_name(NotificationKind::Restore), "restore");
    assert_eq!(kind_name(NotificationKind::Delete), "delete");
    assert_eq!(kind_name(NotificationKind::Success), "success");
}
