use murmur::templates::{template_description, template_patterns, TEMPLATES};

#[test]
fn test_every_slug_has_patterns_and_description() {
    for slug in TEMPLATES {
        assert!(template_patterns(slug).is_some(), "missing patterns: {slug}");
        assert!(template_description(slug).is_some(), "missing description: {slug}");
    }
}

#[test]
fn test_unknown_slug_returns_none() {
    assert!(template_patterns("nope").is_none());
    assert!(template_description("nope").is_none());
}

#[test]
fn test_patterns_non_empty() {
    for slug in TEMPLATES {
        let p = template_patterns(slug).unwrap();
        assert!(!p.trim().is_empty(), "empty patterns for {slug}");
    }
}

#[test]
fn test_rust_template_excludes_target() {
    let p = template_patterns("rust").unwrap();
    assert!(p.contains("target/"));
}

#[test]
fn test_photos_template_whitelists_extensions() {
    let p = template_patterns("photos").unwrap();
    assert!(p.contains("!*.jpg"));
    assert!(p.contains("!*.mp4"));
}

#[test]
fn test_every_template_has_patterns() {
    for slug in TEMPLATES {
        let p = template_patterns(slug).expect("patterns");
        assert!(p.contains('\n'), "{slug} template should be multi-line");
    }
}

#[test]
fn test_template_texts_exact() {
    assert_eq!(template_patterns("rust").unwrap(), "target/\n**/*.rs.bk\nCargo.lock\n");
    assert_eq!(
        template_description("photos").unwrap(),
        "Photos — includes image/video files only."
    );
    assert!(template_patterns("Rust").is_none());
    assert!(template_description("").is_none());
}
