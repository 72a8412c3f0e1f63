use invenio_vocb_converter::errors::ConversionError;
use invenio_vocb_converter::vocab::affiliations::{
    bom_bytes, convert_records, last_segment, map_item, sanitize, AffiliationItem, Label,
};
use invenio_vocb_converter::vocab::{awards, funding, names, subjects};

fn item(id: &str, name: &str, labels: Vec<(&str, &str)>, acronyms: Vec<&str>) -> AffiliationItem {
    AffiliationItem {
        id: id.to_string(),
        name: name.to_string(),
        labels: labels
            .into_iter()
            .map(|(code, text)| Label { iso639: code.to_string(), label: text.to_string() })
            .collect(),
        acronyms: acronyms.into_iter().map(|a| a.to_string()).collect(),
    }
}

#[test]
fn test_sanitize_strings() {
    // Test with Cyrillic characters
    assert_eq!(
        sanitize(
            "\u{41c}\u{43e}\u{441}\u{43a}\u{43e}\u{432}\u{441}\u{43a}\u{438}\u{439} \
             \u{433}\u{43e}\u{441}\u{443}\u{434}\u{430}\u{440}\u{441}\u{442}\u{432}\u{435}\u{43d}\u{43d}\u{44b}\u{439} \
             \u{443}\u{43d}\u{438}\u{432}\u{435}\u{440}\u{441}\u{438}\u{442}\u{435}\u{442}"
        ),
        "Moskovskii gosudarstvennyi universitet"
    );

    // Test with accented characters
    assert_eq!(sanitize("Universit\u{e9} de Gen\u{e8}ve"), "Universite de Geneve");

    // Test with German umlauts
    assert_eq!(
        sanitize("Technische Universit\u{e4}t M\u{fc}nchen"),
        "Technische Universitat Munchen"
    );

    // Test with special characters and symbols
    assert_eq!(
        sanitize("Max-Planck-Institut f\u{fc}r Physik"),
        "Max-Planck-Institut fur Physik"
    );
}

#[test]
fn test_sanitize_idempotent() {
    let once = sanitize("Universit\u{e9} de Gen\u{e8}ve");
    let twice = sanitize(&once);
    assert_eq!(once, twice);
    // An already-ASCII string comes back unchanged.
    assert_eq!(sanitize("plain ascii text!"), "plain ascii text!");
    assert_eq!(sanitize(""), "");
}

#[test]
fn test_last_segment() {
    assert_eq!(last_segment("https://ror.org/00aaa1234"), "00aaa1234");
    assert_eq!(last_segment("no-slash-here"), "no-slash-here");
    assert_eq!(last_segment("trailing/"), "");
    assert_eq!(last_segment(""), "");
    assert_eq!(last_segment("https://ror.org/special/chars!@#$%"), "chars!@#$%");
}

#[test]
fn test_map_item_full_record() {
    let it = item(
        "https://ror.org/00aaa1234",
        "Universit\u{e9} de Test",
        vec![("fr", "Universit\u{e9} de Test")],
        vec!["", "UT"],
    );
    let e = map_item(&it);
    assert_eq!(e.id, "00aaa1234");
    assert_eq!(e.name, "Universite de Test");
    assert_eq!(e.title.get("en"), Some(&"Universite de Test".to_string()));
    assert_eq!(e.title.get("fr"), Some(&"Universite de Test".to_string()));
    assert_eq!(e.title.len(), 2);
    assert_eq!(e.identifiers.len(), 1);
    assert_eq!(e.identifiers[0].identifier, "00aaa1234");
    assert_eq!(e.identifiers[0].scheme, "affiliation");
    assert_eq!(e.acronym, Some("UT".to_string()));
}

#[test]
fn test_map_item_defaulted_record() {
    // A record whose id was null in the source arrives as the empty string.
    let it = item("", "X", vec![], vec![]);
    let e = map_item(&it);
    assert_eq!(e.id, "");
    assert_eq!(e.name, "X");
    assert_eq!(e.title.get("en"), Some(&"X".to_string()));
    assert_eq!(e.title.len(), 1);
    assert_eq!(e.identifiers.len(), 1);
    assert_eq!(e.identifiers[0].identifier, "");
    assert_eq!(e.identifiers[0].scheme, "affiliation");
    assert_eq!(e.acronym, None);
}

#[test]
fn test_map_item_drops_incomplete_labels() {
    // A label with an empty code or an empty text leaves no entry at all.
    let it = item(
        "https://ror.org/00ccc9012",
        "Institute with Null Values",
        vec![("", "Some Label"), ("es", "")],
        vec![],
    );
    let e = map_item(&it);
    assert_eq!(e.title.len(), 1);
    assert_eq!(e.title.get("en"), Some(&"Institute with Null Values".to_string()));
    assert_eq!(e.title.get(""), None);
    assert_eq!(e.title.get("es"), None);
    assert_eq!(e.acronym, None);
}

#[test]
fn test_map_item_last_label_wins() {
    let it = item(
        "x/y",
        "Base",
        vec![("de", "Erste"), ("de", "Zweite")],
        vec![],
    );
    let e = map_item(&it);
    assert_eq!(e.title.len(), 2);
    assert_eq!(e.title.get("de"), Some(&"Zweite".to_string()));
}

#[test]
fn test_map_item_acronym_first_raw_nonempty() {
    // The raw value decides which acronym is taken; the taken one is then
    // sanitized.
    let it = item("a/b", "N", vec![], vec!["", "\u{dc}T", "ZZ"]);
    let e = map_item(&it);
    assert_eq!(e.acronym, Some("UT".to_string()));
}

#[test]
fn test_convert_records_counts() {
    let items = vec![
        item(
            "https://ror.org/00aaa1234",
            "Test University",
            vec![("fr", "Universit\u{e9} de Test"), ("de", "Test Universit\u{e4}t")],
            vec!["TU", "TEST"],
        ),
        item("https://ror.org/00bbb5678", "Another Institute", vec![], vec![]),
        item(
            "",
            "Institute with Null Values",
            vec![("", "Some Label"), ("es", "")],
            vec![],
        ),
    ];
    let out = convert_records(&items);
    assert_eq!(out.len(), 3);

    assert_eq!(out[0].id, "00aaa1234");
    assert_eq!(out[0].name, "Test University");
    assert_eq!(out[0].title.get("fr"), Some(&"Universite de Test".to_string()));
    assert_eq!(out[0].title.get("de"), Some(&"Test Universitat".to_string()));
    assert_eq!(out[0].acronym, Some("TU".to_string()));

    assert_eq!(out[1].id, "00bbb5678");
    assert_eq!(out[1].name, "Another Institute");
    assert_eq!(out[1].acronym, None);

    assert_eq!(out[2].id, "");
    assert_eq!(out[2].name, "Institute with Null Values");
    assert_eq!(out[2].title.get("en"), Some(&"Institute with Null Values".to_string()));
}

#[test]
fn test_convert_records_empty() {
    let items: Vec<AffiliationItem> = Vec::new();
    let out = convert_records(&items);
    assert_eq!(out.len(), 0);
}

#[test]
fn test_bom_bytes() {
    assert_eq!(bom_bytes(), vec![0xEFu8, 0xBBu8, 0xBFu8]);
}

#[test]
fn test_unsupported_vocabularies() {
    assert_eq!(
        names::convert_json_to_yaml("in.json", "out.yaml"),
        Err(ConversionError::Unsupported)
    );
    assert_eq!(
        funding::convert_json_to_yaml("in.json", "out.yaml"),
        Err(ConversionError::Unsupported)
    );
    assert_eq!(
        awards::convert_json_to_yaml("in.json", "out.yaml"),
        Err(ConversionError::Unsupported)
    );
    assert_eq!(
        subjects::convert_json_to_yaml("in.json", "out.yaml"),
        Err(ConversionError::Unsupported)
    );
}
