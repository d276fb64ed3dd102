use codefmt::config::Config;
use codefmt::config::LanguageConfig;

fn lang(formatter: &[&str], token: &str) -> LanguageConfig {
    LanguageConfig {
        formatter: formatter.iter().map(|a| a.as_bytes().to_vec()).collect(),
        comment_token: token.as_bytes().to_vec(),
    }
}

fn sample_config() -> Config {
    Config {
        languages: vec![
            (b"rust".to_vec(), lang(&["rustfmt"], "//")),
            (b"zig".to_vec(), lang(&["zig", "fmt", "--stdin"], "//")),
        ],
        aliases: vec![(b"rs".to_vec(), b"rust".to_vec())],
    }
}

#[test]
fn get_lang_direct() {
    let c = sample_config();
    let cfg = c.get_lang(b"rust").unwrap();
    assert_eq!(cfg.formatter, vec![b"rustfmt".to_vec()]);
    assert_eq!(cfg.comment_token, b"//".to_vec());
}

#[test]
fn get_lang_through_alias() {
    let c = sample_config();
    let cfg = c.get_lang(b"rs").unwrap();
    assert_eq!(cfg.formatter, vec![b"rustfmt".to_vec()]);
}

#[test]
fn get_lang_unknown_tag() {
    let c = sample_config();
    assert!(c.get_lang(b"python").is_none());
    assert!(c.get_lang(b"").is_none());
}

#[test]
fn get_lang_alias_to_missing_language() {
    let c = Config {
        languages: vec![],
        aliases: vec![(b"rs".to_vec(), b"rust".to_vec())],
    };
    assert!(c.get_lang(b"rs").is_none());
}

#[test]
fn merge_overrides_and_extends() {
    let mut base = sample_config();
    let user = Config {
        languages: vec![
            (b"rust".to_vec(), lang(&["rustfmt", "--edition", "2021"], "//")),
            (b"go".to_vec(), lang(&["gofmt"], "//")),
        ],
        aliases: vec![(b"golang".to_vec(), b"go".to_vec())],
    };
    base.merge(user);
    let rust = base.get_lang(b"rust").unwrap();
    assert_eq!(
        rust.formatter,
        vec![b"rustfmt".to_vec(), b"--edition".to_vec(), b"2021".to_vec()]
    );
    let go = base.get_lang(b"golang").unwrap();
    assert_eq!(go.formatter, vec![b"gofmt".to_vec()]);
    let zig = base.get_lang(b"zig").unwrap();
    assert_eq!(zig.formatter, vec![b"zig".to_vec(), b"fmt".to_vec(), b"--stdin".to_vec()]);
    assert!(base.get_lang(b"rs").is_some());
}
