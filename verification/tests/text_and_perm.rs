use websubmit::config::Config;
use websubmit::errors::ShardError;
use websubmit::perm::{mask_allows_answers, mask_allows_research, mask_for, mask_is_core, MASK_STAFF};
use websubmit::text::escape;

#[test]
fn escape_trims_and_strips_quotes() {
    assert_eq!(escape("  hello world  "), "hello world");
    assert_eq!(escape("it's \"fine\""), "its fine");
    assert_eq!(escape("back\\slash"), "backslash");
    assert_eq!(escape("\t\n mixed \r\n"), "mixed");
    assert_eq!(escape(""), "");
    assert_eq!(escape("   "), "");
    assert_eq!(escape("'\"\\"), "");
    // inner whitespace is kept
    assert_eq!(escape(" a  b "), "a  b");
    // non-ASCII content passes through
    assert_eq!(escape("  héllo'wörld  "), "héllowörld");
}

#[test]
fn escape_trims_unicode_whitespace() {
    // every White_Space character str::trim strips is trimmed here too
    assert_eq!(escape("\u{a0}x\u{a0}"), "x");
    assert_eq!(escape("\u{2003}a b\u{3000}"), "a b");
    assert_eq!(escape("\u{85}\u{1680}y\u{202f}\u{205f}"), "y");
    assert_eq!(escape("\u{2028}z\u{2029}"), "z");
    assert_eq!(escape("\u{2000}\u{200a}"), "");
    // the zero-width space is not White_Space and is kept, as in str::trim
    assert_eq!(escape("\u{200b}a\u{200b}"), "\u{200b}a\u{200b}");
    // agreement with the behaviour escape mirrors
    for input in ["\u{a0}\u{2007}mixed \u{9}text\u{3000}", "  plain  ", "\u{1680}"] {
        let stripped: String = input
            .trim()
            .chars()
            .filter(|c| *c != '\'' && *c != '"' && *c != '\\')
            .collect();
        assert_eq!(escape(input), stripped);
    }
}

#[test]
fn staff_get_the_full_mask() {
    assert_eq!(mask_for(true, 0), MASK_STAFF);
    assert_eq!(mask_for(true, 0), 0b0000_0111);
}

#[test]
fn ordinary_principals_get_default_with_core() {
    assert_eq!(mask_for(false, 0), 0b100);
    assert_eq!(mask_for(false, 1), 0b101);
    assert_eq!(mask_for(false, 0b11), 0b111);
    assert_eq!(mask_for(false, 0b100), 0b100);
}

#[test]
fn mask_bit_readers() {
    assert!(mask_allows_answers(0b001));
    assert!(!mask_allows_answers(0b110));
    assert!(mask_allows_research(0b010));
    assert!(!mask_allows_research(0b101));
    assert!(mask_is_core(0b100));
    assert!(!mask_is_core(0b011));
}

#[test]
fn error_kinds() {
    assert!(ShardError::StorageUnavailable.is_retryable());
    assert!(!ShardError::DuplicateShard.is_retryable());
    assert!(!ShardError::IntegrityMismatch.is_retryable());
    assert_eq!(ShardError::BlobCorrupt.kind_name(), "corrupt blob");
    assert_eq!(ShardError::DuplicateParent.kind_name(), "duplicate parent");
}

#[test]
fn config_admin_membership() {
    let cfg = Config {
        class: String::from("cs101"),
        db_user: String::from("user"),
        db_password: String::from("SECRET-REDACTED"),
        admins: vec![String::from("alice"), String::from("bob")],
        staff: vec![String::from("carol")],
        template_dir: String::from("templates"),
        resource_dir: String::from("static"),
        secret: String::from("server-secret"),
        send_emails: false,
        prime: false,
    };
    assert!(cfg.is_admin(&String::from("alice")));
    assert!(cfg.is_admin(&String::from("bob")));
    assert!(!cfg.is_admin(&String::from("carol")));
}
