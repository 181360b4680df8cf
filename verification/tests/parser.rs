use gettext::parser::{get_read_u32_fn, parse_catalog, Endian};
use gettext::{Catalog, Charset, Error, Message, ParseOptions};

/// The bytes of an MO file with the given original and translation strings.
fn mo_file(entries: &[(&[u8], &[u8])], big_endian: bool) -> Vec<u8> {
    let number = |v: u32| {
        if big_endian {
            v.to_be_bytes()
        } else {
            v.to_le_bytes()
        }
    };
    let count = entries.len() as u32;
    let originals = 28u32;
    let translations = originals + 8 * count;
    let strings = translations + 8 * count;
    let mut table_o: Vec<u8> = Vec::new();
    let mut table_t: Vec<u8> = Vec::new();
    let mut data: Vec<u8> = Vec::new();
    for (original, _) in entries {
        table_o.extend_from_slice(&number(original.len() as u32));
        table_o.extend_from_slice(&number(strings + data.len() as u32));
        data.extend_from_slice(original);
        data.push(0);
    }
    for (_, translation) in entries {
        table_t.extend_from_slice(&number(translation.len() as u32));
        table_t.extend_from_slice(&number(strings + data.len() as u32));
        data.extend_from_slice(translation);
        data.push(0);
    }
    let mut out: Vec<u8> = Vec::new();
    if big_endian {
        out.extend_from_slice(&[0x95, 0x04, 0x12, 0xde]);
    } else {
        out.extend_from_slice(&[0xde, 0x12, 0x04, 0x95]);
    }
    out.extend_from_slice(&number(0));
    out.extend_from_slice(&number(count));
    out.extend_from_slice(&number(originals));
    out.extend_from_slice(&number(translations));
    out.extend_from_slice(&number(0));
    out.extend_from_slice(&number(strings));
    out.extend_from_slice(&table_o);
    out.extend_from_slice(&table_t);
    out.extend_from_slice(&data);
    out
}

fn failure(bytes: &[u8]) -> Error {
    match parse_catalog(bytes, ParseOptions::new()) {
        Ok(_) => panic!("the file should not be readable"),
        Err(e) => e,
    }
}

#[test]
fn test_get_read_u32_fn() {
    assert!(get_read_u32_fn(&[]).is_none());
    assert!(get_read_u32_fn(&[0xde, 0x12, 0x04, 0x95, 0x00]).is_none());

    {
        let reader = get_read_u32_fn(&[0xde, 0x12, 0x04, 0x95]).unwrap();
        assert_eq!(reader, Endian::Little);
        assert_eq!(reader.read_u32(&[0x01, 0x02, 0x03, 0x04]), 0x0403_0201);
    }

    {
        let reader = get_read_u32_fn(&[0x95, 0x04, 0x12, 0xde]).unwrap();
        assert_eq!(reader, Endian::Big);
        assert_eq!(reader.read_u32(&[0x01, 0x02, 0x03, 0x04]), 0x0102_0304);
    }
}

#[test]
fn test_parse_catalog() {
    let fluff = [0; 24]; // zeros to pad our magic test cases to satisfy the length requirements

    {
        let mut reader = vec![1u8, 2, 3];
        reader.extend(fluff.iter().cloned());
        let err = failure(&reader[..]);
        assert!(matches!(err, Error::Eof));
    }

    {
        let mut reader = vec![1u8, 2, 3, 4];
        reader.extend(fluff.iter().cloned());
        let err = failure(&reader[..]);
        assert!(matches!(err, Error::BadMagic));
    }

    {
        let mut reader = vec![0x95, 0x04, 0x12, 0xde];
        reader.extend(fluff.iter().cloned());
        assert!(parse_catalog(&reader[..], ParseOptions::new()).is_ok());
    }

    {
        let mut reader = vec![0xde, 0x12, 0x04, 0x95];
        reader.extend(fluff.iter().cloned());
        assert!(parse_catalog(&reader[..], ParseOptions::new()).is_ok());
    }

    {
        let reader = mo_file(&[(b"this is context\x04Text", b"Tekstas\0Tekstai")], false);
        let catalog = parse_catalog(&reader[..], ParseOptions::new()).unwrap();
        assert_eq!(catalog.len(), 1);
        assert_eq!(
            catalog.get("this is context\x04Text"),
            Some(&Message::new(
                "Text",
                Some("this is context"),
                vec!["Tekstas", "Tekstai"]
            ))
        );
    }

    {
        let reader = mo_file(
            &[
                (b"Image", b"Nuotrauka\0Nuotraukos"),
                (b"Text", b"Tekstas"),
            ],
            false,
        );
        let catalog = parse_catalog(&reader[..], ParseOptions::new()).unwrap();
        assert_eq!(catalog.len(), 2);
        assert_eq!(
            catalog.get("Image"),
            Some(&Message::new("Image", None, vec!["Nuotrauka", "Nuotraukos"]))
        );
    }

    {
        let reader = mo_file(&[(b"Text", b"Tekst\xff\xfe")], false);
        let err = failure(&reader[..]);
        assert!(matches!(err, Error::DecodingError));
    }
}

#[test]
fn file_of_27_bytes_is_cut_short() {
    let mut bytes = vec![0xde, 0x12, 0x04, 0x95];
    bytes.extend([0u8; 23]);
    assert_eq!(bytes.len(), 27);
    assert!(matches!(failure(&bytes), Error::Eof));
    assert!(matches!(failure(&[]), Error::Eof));
    // the length is looked at before the magic number
    assert!(matches!(failure(&[1, 2, 3, 4]), Error::Eof));
}

#[test]
fn wrong_magic_is_refused() {
    let mut bytes = vec![1u8, 2, 3, 4];
    bytes.extend([0u8; 24]);
    assert!(matches!(failure(&bytes), Error::BadMagic));
    // the magic number of one byte order with a byte of the other
    let mut mixed = vec![0xde, 0x12, 0x04, 0xde];
    mixed.extend([0u8; 24]);
    assert!(matches!(failure(&mixed), Error::BadMagic));
}

#[test]
fn file_without_strings_is_an_empty_catalog() {
    for big_endian in [false, true] {
        let bytes = mo_file(&[], big_endian);
        assert_eq!(bytes.len(), 28);
        let catalog = parse_catalog(&bytes, ParseOptions::new()).unwrap();
        assert_eq!(catalog.len(), 0);
        assert!(catalog.metadata().is_none());
        assert_eq!(catalog.gettext("anything"), "anything");
        assert_eq!(catalog.ngettext("one", "many", 1), "one");
        assert_eq!(catalog.ngettext("one", "many", 2), "many");
    }
}

#[test]
fn unknown_charset_is_refused() {
    let bytes = mo_file(
        &[
            (b"", b"Content-Type: text/plain; charset=klingon-8\n"),
            (b"Text", b"Tekstas"),
        ],
        false,
    );
    assert!(matches!(failure(&bytes), Error::UnknownEncoding));
    // a fixed encoding makes the declared one irrelevant
    let forced = ParseOptions::new().force_encoding(Charset::for_label("utf-8").unwrap());
    let catalog = forced.parse(&bytes).unwrap();
    assert_eq!(catalog.gettext("Text"), "Tekstas");
}

#[test]
fn invalid_utf8_is_refused() {
    assert!(matches!(
        failure(&mo_file(&[(b"Text", b"\xc3\x28")], false)),
        Error::DecodingError
    ));
    assert!(matches!(
        failure(&mo_file(&[(b"Te\xffxt", b"Tekstas")], false)),
        Error::DecodingError
    ));
    assert!(matches!(
        failure(&mo_file(&[(b"c\xfftx\x04Text", b"Tekstas")], false)),
        Error::DecodingError
    ));
    assert!(matches!(
        failure(&mo_file(&[(b"Text\0Text\xffs", b"Tekstas")], false)),
        Error::DecodingError
    ));
    assert!(matches!(
        failure(&mo_file(&[(b"Text", b"Tekstas\0\xff")], false)),
        Error::DecodingError
    ));
}

#[test]
fn metadata_must_come_first() {
    let bytes = mo_file(
        &[(b"Text", b"Tekstas"), (b"", b"Content-Type: text/plain\n")],
        false,
    );
    assert!(matches!(failure(&bytes), Error::MisplacedMetadata));
    // an empty text in a context counts as metadata too
    let bytes = mo_file(&[(b"Text", b"Tekstas"), (b"ctx\x04", b"x: y")], false);
    assert!(matches!(failure(&bytes), Error::MisplacedMetadata));
}

#[test]
fn context_entry_is_found_by_its_key() {
    let bytes = mo_file(&[(b"this is context\x04Text", b"Tekstas\0Tekstai")], false);
    let catalog = Catalog::parse(&bytes).unwrap();
    assert_eq!(catalog.gettext("this is context\x04Text"), "Tekstas");
    assert_eq!(catalog.pgettext("this is context", "Text"), "Tekstas");
    assert_eq!(
        catalog.ngettext("this is context\x04Text", "Texts", 1),
        "Tekstas"
    );
    assert_eq!(
        catalog.ngettext("this is context\x04Text", "Texts", 0),
        "Tekstai"
    );
    assert_eq!(
        catalog.ngettext("this is context\x04Text", "Texts", 2),
        "Tekstai"
    );
    assert_eq!(
        catalog.npgettext("this is context", "Text", "Texts", 17),
        "Tekstai"
    );
    assert_eq!(catalog.gettext("Text"), "Text");
}

#[test]
fn plural_entry_with_default_rule() {
    let bytes = mo_file(&[(b"Image", b"Nuotrauka\0Nuotraukos")], true);
    let catalog = Catalog::parse(&bytes).unwrap();
    assert_eq!(catalog.ngettext("Image", "Images", 1), "Nuotrauka");
    assert_eq!(catalog.ngettext("Image", "Images", 5), "Nuotraukos");
    assert_eq!(catalog.gettext("Image"), "Nuotrauka");
}

#[test]
fn both_byte_orders_give_the_same_catalog() {
    let entries: &[(&[u8], &[u8])] = &[
        (b"", b"Content-Type: text/plain; charset=UTF-8\nPlural-Forms: n_plurals=2; plural=n>1\n"),
        (b"ctx\x04one\0many", b"vienas\0daug"),
        (b"plain", b"paprastas"),
    ];
    let little = Catalog::parse(&mo_file(entries, false)).unwrap();
    let big = Catalog::parse(&mo_file(entries, true)).unwrap();
    for catalog in [&little, &big] {
        assert_eq!(catalog.len(), 3);
        assert_eq!(catalog.gettext("plain"), "paprastas");
        assert_eq!(catalog.npgettext("ctx", "one", "many", 0), "vienas");
        assert_eq!(catalog.npgettext("ctx", "one", "many", 1), "vienas");
        assert_eq!(catalog.npgettext("ctx", "one", "many", 2), "daug");
        assert_eq!(
            catalog.get("ctx\x04one"),
            Some(&Message::with_plural(
                "one",
                Some("ctx"),
                vec!["vienas", "daug"],
                Some("many")
            ))
        );
    }
    let mut keys = little.keys();
    keys.sort();
    assert_eq!(keys, &["", "ctx\x04one", "plain"]);
    let mut keys = big.keys();
    keys.sort();
    assert_eq!(keys, &["", "ctx\x04one", "plain"]);
}

#[test]
fn reading_twice_gives_the_same_answers() {
    let bytes = mo_file(
        &[
            (b"", b"Plural-Forms: plural=n%3\n"),
            (b"a\0as", b"x\0y\0z"),
            (b"b", b"w"),
        ],
        false,
    );
    let first = Catalog::parse(&bytes).unwrap();
    let second = Catalog::parse(&bytes).unwrap();
    assert_eq!(first.len(), second.len());
    for n in -3..10 {
        assert_eq!(first.ngettext("a", "as", n), second.ngettext("a", "as", n));
        assert_eq!(first.ngettext("c", "cs", n), second.ngettext("c", "cs", n));
    }
    assert_eq!(first.ngettext("a", "as", 4), "y");
    assert_eq!(first.gettext("b"), second.gettext("b"));
    assert_eq!(first.gettext(""), "Plural-Forms: plural=n%3\n");
    // asking again changes nothing
    assert_eq!(first.gettext("b"), "w");
    assert_eq!(first.gettext("b"), "w");
}

#[test]
fn metadata_are_kept_with_the_catalog() {
    let bytes = mo_file(
        &[
            (
                b"",
                b"Project-Id-Version: demo\nContent-Type: text/plain; charset=utf-8\nPlural-Forms: n_plurals=3; plural=n\n",
            ),
            (b"Text", b"Tekstas"),
        ],
        false,
    );
    let catalog = Catalog::parse(&bytes).unwrap();
    let metadata = catalog.metadata().unwrap_or_else(|| panic!("metadata expected"));
    assert_eq!(metadata.get("Project-Id-Version"), Some("demo"));
    assert_eq!(metadata.charset(), Some("utf-8"));
    assert_eq!(metadata.plural_forms(), (Some(3), Some("n")));
    assert_eq!(catalog.len(), 2);
}

#[test]
fn malformed_metadata_are_refused() {
    let bytes = mo_file(&[(b"", b"Content-Type: text/plain\nno colon here\n")], false);
    assert!(matches!(failure(&bytes), Error::MalformedMetadata));
}

#[test]
fn bad_plural_formula_is_refused() {
    let bytes = mo_file(&[(b"", b"Plural-Forms: n_plurals=2; plural=n ? 1\n")], false);
    assert!(matches!(failure(&bytes), Error::PluralParsing));
    let bytes = mo_file(&[(b"", b"Plural-Forms: plural=n + 1\n")], false);
    assert!(matches!(failure(&bytes), Error::PluralParsing));
    // the encoding is looked at before the formula
    let bytes = mo_file(
        &[(b"", b"Plural-Forms: plural=bad\nContent-Type: x; charset=nope\n")],
        false,
    );
    assert!(matches!(failure(&bytes), Error::UnknownEncoding));
    // a fixed rule makes the formula irrelevant
    let bytes = mo_file(&[(b"", b"Plural-Forms: plural=bad\n"), (b"a", b"x\0y")], false);
    let catalog = ParseOptions::new()
        .force_plural(|_n: i64| 1usize)
        .parse(&bytes)
        .unwrap();
    assert_eq!(catalog.ngettext("a", "as", 1), "y");
}

#[test]
fn tables_and_strings_must_lie_in_the_file() {
    let good = mo_file(&[(b"Text", b"Tekstas")], false);
    assert!(Catalog::parse(&good).is_ok());
    // every proper prefix that still holds the header is cut short
    for len in 28..good.len() {
        assert!(matches!(failure(&good[..len]), Error::Eof), "length {}", len);
    }
    // a table that starts behind the end, even if no string is announced
    let mut far = mo_file(&[], false);
    far[12..16].copy_from_slice(&29u32.to_le_bytes());
    assert!(matches!(failure(&far), Error::Eof));
    let mut far = mo_file(&[], false);
    far[16..20].copy_from_slice(&29u32.to_le_bytes());
    assert!(matches!(failure(&far), Error::Eof));
    // a table that starts at the very end is fine as long as it is empty
    let mut edge = mo_file(&[], false);
    edge[12..16].copy_from_slice(&28u32.to_le_bytes());
    assert!(Catalog::parse(&edge).is_ok());
    // more strings announced than the tables hold
    let mut many = mo_file(&[(b"Text", b"Tekstas")], false);
    many[8..12].copy_from_slice(&u32::MAX.to_le_bytes());
    assert!(matches!(failure(&many), Error::Eof | Error::MisplacedMetadata | Error::DecodingError));
    // a length that reaches behind the end
    let mut long = mo_file(&[(b"Text", b"Tekstas")], false);
    long[28..32].copy_from_slice(&u32::MAX.to_le_bytes());
    assert!(matches!(failure(&long), Error::Eof));
    let mut long = mo_file(&[(b"Text", b"Tekstas")], true);
    long[40..44].copy_from_slice(&u32::MAX.to_be_bytes());
    assert!(matches!(failure(&long), Error::Eof));
}

#[test]
fn original_without_a_zero_byte_is_cut_short() {
    let mut bytes = mo_file(&[(b"Text", b"Tekstas")], false);
    let at = bytes.len() - b"Tekstas\0".len() - 1;
    assert_eq!(bytes[at], 0);
    bytes[at] = b'!';
    assert!(matches!(failure(&bytes), Error::Eof));
}

#[test]
fn plural_of_the_original_is_kept() {
    let bytes = mo_file(
        &[
            (b"one\0many", b"vienas\0daug"),
            (b"odd\0", b"keistas"),
            (b"zeros\0\0\0", b"nuliai"),
        ],
        false,
    );
    let catalog = Catalog::parse(&bytes).unwrap();
    assert_eq!(
        catalog.get("one").and_then(|m| m.plural.as_deref()),
        Some("many")
    );
    // a zero byte with nothing behind it announces an empty plural
    assert_eq!(
        catalog.get("odd").and_then(|m| m.plural.as_deref()),
        Some("")
    );
    assert_eq!(
        catalog.get("zeros").and_then(|m| m.plural.as_deref()),
        Some("")
    );
    let bytes = mo_file(&[(b"plain", b"paprastas")], false);
    let catalog = Catalog::parse(&bytes).unwrap();
    assert_eq!(catalog.get("plain").map(|m| m.plural.is_none()), Some(true));
}

#[test]
fn empty_translation_is_one_empty_form() {
    let bytes = mo_file(&[(b"Text", b""), (b"Two", b"\0")], false);
    let catalog = Catalog::parse(&bytes).unwrap();
    assert_eq!(
        catalog.get("Text"),
        Some(&Message::new("Text", None, vec![""]))
    );
    assert_eq!(
        catalog.get("Two"),
        Some(&Message::new("Two", None, vec!["", ""]))
    );
    assert_eq!(catalog.gettext("Text"), "");
}

#[test]
fn later_entry_replaces_an_earlier_one() {
    let bytes = mo_file(&[(b"Text", b"pirmas"), (b"Text", b"antras")], false);
    let catalog = Catalog::parse(&bytes).unwrap();
    assert_eq!(catalog.len(), 1);
    assert_eq!(catalog.gettext("Text"), "antras");
}

#[test]
fn encodings_are_known_by_their_labels() {
    for label in ["utf-8", "UTF-8", " utf8 ", "cp1257", "windows-1257", "x-cp1257", "latin2"] {
        let charset = Charset::for_label(label).unwrap_or_else(|| panic!("{} is a label", label));
        assert_eq!(charset.label(), label);
    }
    assert!(Charset::for_label("").is_none());
    assert!(Charset::for_label("utf-42").is_none());
    assert_eq!(Charset::utf8().label(), "utf-8");
    assert_eq!(Charset::utf8().decode(b"caf\xc3\xa9"), Some("caf\u{e9}".to_string()));
    assert_eq!(Charset::utf8().decode(b"caf\xe9"), None);
    assert_eq!(Charset::utf8().decode(b""), Some(String::new()));
    let latin2 = Charset::for_label("latin2").unwrap_or_else(|| panic!("latin2 is a label"));
    assert_eq!(latin2.decode(b"\xe8"), Some("\u{10d}".to_string()));
}

#[test]
fn errors_describe_themselves() {
    assert_eq!(Error::BadMagic.message(), "bad magic number");
    assert_eq!(
        Error::DecodingError.message(),
        "invalid byte sequence in a string"
    );
    assert_eq!(Error::Eof.message(), "unxpected end of file");
    assert_eq!(Error::MalformedMetadata.message(), "metadata syntax error");
    assert_eq!(Error::MisplacedMetadata.message(), "misplaced metadata");
    assert_eq!(Error::UnknownEncoding.message(), "unknown encoding specified");
    assert_eq!(Error::PluralParsing.message(), "invalid plural expression");
    let io = Error::from(std::io::Error::new(std::io::ErrorKind::Other, "the disk is gone"));
    assert!(matches!(io, Error::Io(_)));
    assert_eq!(io.message(), "the disk is gone");
}
