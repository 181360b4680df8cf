use gettext::metadata::parse_metadata;
use gettext::{Error, MetadataMap};

#[test]
fn test_metadatamap_charset() {
    {
        let mut map = MetadataMap::new();
        assert!(map.charset().is_none());
        map.insert("Content-Type".to_string(), "".to_string());
        assert!(map.charset().is_none());
        map.insert("Content-Type".to_string(), "abc".to_string());
        assert!(map.charset().is_none());
        map.insert(
            "Content-Type".to_string(),
            "text/plain; charset=utf-42".to_string(),
        );
        assert_eq!(map.charset().unwrap(), "utf-42");
    }
}

#[test]
fn test_metadatamap_plural() {
    {
        let mut map = MetadataMap::new();
        assert_eq!(map.plural_forms(), (None, None));

        map.insert("Plural-Forms".to_string(), "".to_string());
        assert_eq!(map.plural_forms(), (None, None));
        // n_plural
        map.insert("Plural-Forms".to_string(), "n_plurals=42".to_string());
        assert_eq!(map.plural_forms(), (Some(42), None));
        // plural is specified
        map.insert(
            "Plural-Forms".to_string(),
            "n_plurals=2; plural=n==12".to_string(),
        );
        assert_eq!(map.plural_forms(), (Some(2), Some("n==12")));
        // plural before n_plurals
        map.insert(
            "Plural-Forms".to_string(),
            "plural=n==12; n_plurals=2".to_string(),
        );
        assert_eq!(map.plural_forms(), (Some(2), Some("n==12")));
        // with spaces
        map.insert(
            "Plural-Forms".to_string(),
            " n_plurals = 42 ; plural = n >  10   ".to_string(),
        );
        assert_eq!(map.plural_forms(), (Some(42), Some("n >  10")));
    }
}

#[test]
fn metadata_lines_become_headers() {
    let blob = "Project-Id-Version: demo 1.0\n\nContent-Type: text/plain; charset=UTF-8\n  Language :  lt  \nX-Empty:\nTime: 12:30\n";
    let map = parse_metadata(blob.to_string()).unwrap_or_else(|_| panic!("headers expected"));
    assert_eq!(map.get("Project-Id-Version"), Some("demo 1.0"));
    assert_eq!(map.get("Content-Type"), Some("text/plain; charset=UTF-8"));
    assert_eq!(map.get("Language"), Some("lt"));
    assert_eq!(map.get("X-Empty"), Some(""));
    assert_eq!(map.get("Time"), Some("12:30"));
    assert_eq!(map.get("Missing"), None);
    assert_eq!(map.charset(), Some("UTF-8"));
    assert_eq!(map.plural_forms(), (None, None));
}

#[test]
fn metadata_later_line_wins() {
    let map = parse_metadata("A: 1\nA: 2".to_string()).unwrap_or_else(|_| panic!("headers expected"));
    assert_eq!(map.get("A"), Some("2"));
}

#[test]
fn metadata_empty_text_has_no_headers() {
    let map = parse_metadata(String::new()).unwrap_or_else(|_| panic!("headers expected"));
    assert_eq!(map.get(""), None);
    assert!(map.charset().is_none());
}

#[test]
fn metadata_line_without_colon_is_malformed() {
    assert!(matches!(
        parse_metadata("Content-Type: text/plain\nbroken line\n".to_string()),
        Err(Error::MalformedMetadata)
    ));
    assert!(matches!(
        parse_metadata(" ".to_string()),
        Err(Error::MalformedMetadata)
    ));
}

#[test]
fn charset_is_all_that_follows_the_first_mark() {
    let mut map = MetadataMap::new();
    map.insert(
        "Content-Type".to_string(),
        "text/plain; charset=cp1257; charset=other".to_string(),
    );
    assert_eq!(map.charset(), Some("cp1257; charset=other"));
    map.insert("Content-Type".to_string(), "charset=".to_string());
    assert_eq!(map.charset(), Some(""));
    map.insert("Content-Type".to_string(), "charset".to_string());
    assert_eq!(map.charset(), None);
    map.insert("Content-Type".to_string(), "\u{10d}; charset=\u{17e}x".to_string());
    assert_eq!(map.charset(), Some("\u{17e}x"));
}

#[test]
fn plural_forms_edge_cases() {
    let mut map = MetadataMap::new();
    // a number that is no decimal literal gives none
    map.insert("Plural-Forms".to_string(), "n_plurals=two; plural=n".to_string());
    assert_eq!(map.plural_forms(), (None, Some("n")));
    // a later malformed number replaces an earlier one
    map.insert("Plural-Forms".to_string(), "n_plurals=3;n_plurals=-1".to_string());
    assert_eq!(map.plural_forms(), (None, None));
    // a sign is accepted, and so are leading zeros
    map.insert("Plural-Forms".to_string(), "n_plurals=+007".to_string());
    assert_eq!(map.plural_forms(), (Some(7), None));
    // pieces without an equals sign and unknown names are skipped
    map.insert(
        "Plural-Forms".to_string(),
        "junk; nplurals=3; plural=n != 1; other=1".to_string(),
    );
    assert_eq!(map.plural_forms(), (None, Some("n != 1")));
    // the value is cut at the first equals sign
    map.insert("Plural-Forms".to_string(), "plural=n==1 ? 0 : 1".to_string());
    assert_eq!(map.plural_forms(), (None, Some("n==1 ? 0 : 1")));
    // text before the name that is not ASCII
    map.insert("Plural-Forms".to_string(), "\u{10d}=1; plural = \u{17e}".to_string());
    assert_eq!(map.plural_forms(), (None, Some("\u{17e}")));
    // a number too large for the machine gives none
    map.insert(
        "Plural-Forms".to_string(),
        "n_plurals=340282366920938463463374607431768211456".to_string(),
    );
    assert_eq!(map.plural_forms(), (None, None));
}

#[test]
fn metadata_clone_has_the_same_headers() {
    let mut map = MetadataMap::new();
    map.insert("A".to_string(), "1".to_string());
    map.insert("B".to_string(), "2".to_string());
    map.insert("A".to_string(), "3".to_string());
    let copy = map.clone();
    map.insert("B".to_string(), "4".to_string());
    assert_eq!(copy.get("A"), Some("3"));
    assert_eq!(copy.get("B"), Some("2"));
    assert_eq!(copy.get("C"), None);
    assert_eq!(map.get("B"), Some("4"));
    assert!(MetadataMap::new().clone().get("A").is_none());
}
