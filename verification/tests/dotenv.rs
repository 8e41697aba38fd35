use starkeeper::dotenv::{dotenv_with_credentials, parse_dotenv};

fn entries(content: &str) -> Vec<(String, String)> {
    parse_dotenv(content)
}

fn first<'a>(es: &'a [(String, String)], key: &str) -> Option<&'a str> {
    es.iter().find(|(k, _)| k == key).map(|(_, v)| v.as_str())
}

#[test]
fn parse_dotenv_reads_entries() {
    let es = entries("# comment\n\nA=1\n  B = two words  \nC=\"quoted\"\nnoequals\nD=x=y\r\n  #E=5\n=empty\n");
    let expected: Vec<(String, String)> = vec![
        ("A", "1"),
        ("B", "two words"),
        ("C", "quoted"),
        ("D", "x=y"),
        ("", "empty"),
    ]
    .into_iter()
    .map(|(k, v)| (k.to_string(), v.to_string()))
    .collect();
    assert_eq!(es, expected);
}

#[test]
fn parse_dotenv_strips_all_surrounding_quotes() {
    let es = entries("K=\"\"v\"\"");
    assert_eq!(first(&es, "K"), Some("v"));
    let es = entries("K= \" spaced \" ");
    assert_eq!(first(&es, "K"), Some(" spaced "));
}

#[test]
fn parse_dotenv_empty() {
    assert!(entries("").is_empty());
    assert!(entries("\n\n  \n").is_empty());
}

#[test]
fn save_without_existing_file() {
    assert_eq!(
        dotenv_with_credentials(None, "76561197960287930", "KEY"),
        "STEAM_ID=76561197960287930\nSTEAM_API_KEY=KEY\n"
    );
}

#[test]
fn save_replaces_credentials_and_keeps_other_lines() {
    let old = "# settings\nSTEAM_ID=1\nPORT=8086\n STEAM_API_KEY = old\r\nSTEAM_IDX=keep\n";
    assert_eq!(
        dotenv_with_credentials(Some(old), "76561197960287930", "NEW"),
        "# settings\nPORT=8086\nSTEAM_IDX=keep\nSTEAM_ID=76561197960287930\nSTEAM_API_KEY=NEW\n"
    );
}

#[test]
fn save_keeps_last_line_without_newline() {
    assert_eq!(
        dotenv_with_credentials(Some("A=1\r\nB=2\r"), "1", "k"),
        "A=1\nB=2\r\nSTEAM_ID=1\nSTEAM_API_KEY=k\n"
    );
    assert_eq!(dotenv_with_credentials(Some(""), "1", "k"), "STEAM_ID=1\nSTEAM_API_KEY=k\n");
}

#[test]
fn saved_credentials_load_back() {
    for old in [None, Some(""), Some("STEAM_ID=9\nSTEAM_API_KEY=old\n"), Some("  STEAM_ID\t= 9 \nX=\"y\"\r\n#c")] {
        let content = dotenv_with_credentials(old, "76561197960287930", "0123ABCD");
        let es = entries(&content);
        assert_eq!(first(&es, "STEAM_ID"), Some("76561197960287930"));
        assert_eq!(first(&es, "STEAM_API_KEY"), Some("0123ABCD"));
    }
}

#[test]
fn quoted_key_does_not_load_back_unchanged() {
    let content = dotenv_with_credentials(None, "76561197960287930", "\"abc\"");
    let es = entries(&content);
    assert_eq!(first(&es, "STEAM_API_KEY"), Some("abc"));
}

#[test]
fn save_keeps_other_settings() {
    let old = "PORT=8086\n  NAME = \"Star keeper\" \r\n# x=1\nSTEAM_ID=5\nPORT=9\nlast=1\r";
    let before = entries(old);
    let after = entries(&dotenv_with_credentials(Some(old), "76561197960287930", "KEY"));
    for key in ["PORT", "NAME", "last", "# x", "missing"] {
        assert_eq!(first(&before, key), first(&after, key), "{key}");
    }
}

#[test]
fn saving_twice_is_saving_once() {
    for old in [None, Some(""), Some("A=1\nSTEAM_ID=2\n# c\nB = 3"), Some("STEAM_API_KEY=x\n\n")] {
        let once = dotenv_with_credentials(old, "76561197960287930", "KEY");
        let twice = dotenv_with_credentials(Some(&once), "76561197960287930", "KEY");
        assert_eq!(once, twice);
    }
}
