use gettext::{Catalog, Charset, ParseOptions};

/// The bytes of a little-endian MO file with the given original and
/// translation strings.
fn mo_file(entries: &[(&[u8], &[u8])]) -> Vec<u8> {
    let count = entries.len() as u32;
    let originals = 28u32;
    let translations = originals + 8 * count;
    let strings = translations + 8 * count;
    let mut table_o: Vec<u8> = Vec::new();
    let mut table_t: Vec<u8> = Vec::new();
    let mut data: Vec<u8> = Vec::new();
    for (original, _) in entries {
        table_o.extend_from_slice(&(original.len() as u32).to_le_bytes());
        table_o.extend_from_slice(&(strings + data.len() as u32).to_le_bytes());
        data.extend_from_slice(original);
        data.push(0);
    }
    for (_, translation) in entries {
        table_t.extend_from_slice(&(translation.len() as u32).to_le_bytes());
        table_t.extend_from_slice(&(strings + data.len() as u32).to_le_bytes());
        data.extend_from_slice(translation);
        data.push(0);
    }
    let mut out: Vec<u8> = vec![0xde, 0x12, 0x04, 0x95];
    out.extend_from_slice(&0u32.to_le_bytes());
    out.extend_from_slice(&count.to_le_bytes());
    out.extend_from_slice(&originals.to_le_bytes());
    out.extend_from_slice(&translations.to_le_bytes());
    out.extend_from_slice(&0u32.to_le_bytes());
    out.extend_from_slice(&strings.to_le_bytes());
    out.extend_from_slice(&table_o);
    out.extend_from_slice(&table_t);
    out.extend_from_slice(&data);
    out
}

#[test]
fn test_integration() {
    let f = mo_file(&[
        (
            b"",
            b"Content-Type: text/plain; charset=UTF-8\nPlural-Forms: nplurals=2; plural=(n != 1);\n",
        ),
        (b"a good string\0good strings", b"gera eilute\0geros eilutes"),
        (
            b"ctxt\x04a good string\0good strings",
            b"gera eilute kontekste\0geros eilutes kontekste",
        ),
        (b"ctxt\x04existent", b"egzistuojantis kontekste"),
        (b"existent", b"egzistuojantis"),
    ]);
    let catalog = Catalog::parse(&f).unwrap();

    assert_eq!(catalog.gettext("non-existent"), "non-existent");
    assert_eq!(catalog.gettext("existent"), "egzistuojantis");

    assert_eq!(
        catalog.ngettext("a bad string", "bad strings", 1),
        "a bad string"
    );
    assert_eq!(
        catalog.ngettext("a bad string", "bad strings", 2),
        "bad strings"
    );
    assert_eq!(
        catalog.ngettext("a good string", "good strings", 1),
        "gera eilute"
    );
    assert_eq!(
        catalog.ngettext("a good string", "good strings", 2),
        "geros eilutes"
    );

    assert_eq!(catalog.pgettext("ctxt", "non-existent"), "non-existent");
    assert_eq!(
        catalog.pgettext("ctxt", "existent"),
        "egzistuojantis kontekste"
    );

    assert_eq!(
        catalog.npgettext("ctxt", "a bad string", "bad strings", 1),
        "a bad string"
    );
    assert_eq!(
        catalog.npgettext("ctxt", "a bad string", "bad strings", 2),
        "bad strings"
    );
    assert_eq!(
        catalog.npgettext("ctxt", "a good string", "good strings", 1),
        "gera eilute kontekste"
    );
    assert_eq!(
        catalog.npgettext("ctxt", "a good string", "good strings", 2),
        "geros eilutes kontekste"
    );
}

#[test]
fn test_cp1257() {
    // cp1257_meta
    {
        let reader = mo_file(&[
            (b"", b"Content-Type: text/plain; charset=cp1257\n"),
            (b"Garlic", b"\xc8esnakas"),
        ]);
        let catalog = ParseOptions::new().parse(&reader).unwrap();
        assert_eq!(catalog.gettext("Garlic"), "Česnakas");
    }

    // cp1257_forced
    {
        let reader = mo_file(&[(b"Garlic", b"\xc8esnakas")]);
        for enc_name in &["cp1257", "windows-1257", "x-cp1257"] {
            let encoding = Charset::for_label(enc_name).unwrap();
            let catalog = ParseOptions::new()
                .force_encoding(encoding)
                .parse(&reader)
                .unwrap();
            assert_eq!(catalog.gettext("Garlic"), "Česnakas");
        }
    }
}

#[test]
fn test_lt_plural() {
    fn lithuanian_plural(n: i64) -> usize {
        if (n % 10) == 1 && (n % 100) != 11 {
            0
        } else if ((n % 10) >= 2) && ((n % 100) < 10 || (n % 100) >= 20) {
            1
        } else {
            2
        }
    }

    // lt_plural_forced
    {
        let reader = mo_file(&[(
            b"Garlic\0Garlics",
            "Česnakas\0Česnakai\0Česnakų".as_bytes(),
        )]);
        let cat = ParseOptions::new()
            .force_plural(lithuanian_plural)
            .parse(&reader)
            .unwrap();

        assert_eq!(cat.ngettext("Garlic", "Garlics", 0), "Česnakų");
        assert_eq!(cat.ngettext("Garlic", "Garlics", 1), "Česnakas");
        for i in 2..9 {
            assert_eq!(cat.ngettext("Garlic", "Garlics", i), "Česnakai");
        }
        for i in 10..20 {
            assert_eq!(cat.ngettext("Garlic", "Garlics", i), "Česnakų");
        }
        assert_eq!(cat.ngettext("Garlic", "Garlics", 21), "Česnakas");
    }
}

#[test]
fn test_complex_plural() {
    let reader = mo_file(&[
        (
            b"",
            b"Content-Type: text/plain; charset=UTF-8\nPlural-Forms: n_plurals=3; plural=(n==1) ? 0 : ((n==2) ? 1 : 2)\n",
        ),
        (b"Test\0Tests", b"Singular\0Plural 1\0Plural 2"),
    ]);
    let cat = ParseOptions::new().parse(&reader).unwrap();

    assert_eq!(cat.ngettext("Test", "Tests", 0), "Plural 2");
    assert_eq!(cat.ngettext("Test", "Tests", 1), "Singular");
    assert_eq!(cat.ngettext("Test", "Tests", 2), "Plural 1");
    for i in 3..20 {
        assert_eq!(cat.ngettext("Test", "Tests", i), "Plural 2");
    }
}

#[test]
fn lithuanian_formula_from_the_metadata() {
    let reader = mo_file(&[
        (
            b"",
            b"Content-Type: text/plain; charset=UTF-8\nPlural-Forms: n_plurals=3; plural=(n%10==1 && n%100!=11) ? 0 : ((n%10>=2 && (n%100<10 || n%100>=20)) ? 1 : 2)\n",
        ),
        (
            b"Garlic\0Garlics",
            "Česnakas\0Česnakai\0Česnakų".as_bytes(),
        ),
    ]);
    let cat = Catalog::parse(&reader).unwrap();
    assert_eq!(cat.ngettext("Garlic", "Garlics", 0), "Česnakų");
    assert_eq!(cat.ngettext("Garlic", "Garlics", 1), "Česnakas");
    for i in 2..10 {
        assert_eq!(cat.ngettext("Garlic", "Garlics", i), "Česnakai");
    }
    for i in 10..20 {
        assert_eq!(cat.ngettext("Garlic", "Garlics", i), "Česnakų");
    }
    assert_eq!(cat.ngettext("Garlic", "Garlics", 21), "Česnakas");
    assert_eq!(cat.ngettext("Garlic", "Garlics", 111), "Česnakų");
    assert_eq!(cat.ngettext("Garlic", "Garlics", 122), "Česnakai");
}

#[test]
fn declared_encoding_counts_from_the_next_entry_on() {
    // the metadata themselves are read as UTF-8
    let reader = mo_file(&[
        (b"", b"Content-Type: text/plain; charset=cp1257\nX-Note: \xc4\x8c\n"),
        (b"Garlic\0Garlics", b"\xc8esnakas\0\xc8esnakai"),
        (b"\xc8\x04\xc8", b"\xf8"),
    ]);
    let catalog = Catalog::parse(&reader).unwrap();
    assert_eq!(
        catalog.metadata().and_then(|m| m.get("X-Note")),
        Some("Č")
    );
    assert_eq!(catalog.ngettext("Garlic", "Garlics", 2), "Česnakai");
    assert_eq!(catalog.pgettext("Č", "Č"), "ų");
}

#[test]
fn forced_encoding_reads_the_metadata_too() {
    let reader = mo_file(&[
        (b"", b"Content-Type: text/plain; charset=utf-8\nX-Note: \xc8\n"),
        (b"Garlic", b"\xc8esnakas"),
    ]);
    let catalog = ParseOptions::new()
        .force_encoding(Charset::for_label("windows-1257").unwrap())
        .parse(&reader)
        .unwrap();
    assert_eq!(
        catalog.metadata().and_then(|m| m.get("X-Note")),
        Some("Č")
    );
    assert_eq!(catalog.gettext("Garlic"), "Česnakas");
    // without the fixed encoding the metadata are no UTF-8
    assert!(Catalog::parse(&reader).is_err());
}

#[test]
fn missing_translation_in_a_context() {
    let catalog = Catalog::empty();
    assert_eq!(catalog.pgettext("ctx", "Hello"), "Hello");
}
