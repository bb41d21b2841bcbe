use kitt_memory::hash::hash_normalized;
use kitt_memory::json::{decode_strings, encode_strings};
use kitt_memory::knowledge::{dedupe, merged_strings};
use kitt_memory::normalize;
use kitt_memory::ranking::{distinct_words, lexical_terms};
use kitt_memory::recall::fts_query;

fn strings(list: &[&str]) -> Vec<String> {
    list.iter().map(|s| s.to_string()).collect()
}

fn listed_as_white_space(c: char) -> bool {
    let n = c as u32;
    (0x09..=0x0d).contains(&n)
        || n == 0x20
        || n == 0x85
        || n == 0xa0
        || n == 0x1680
        || (0x2000..=0x200a).contains(&n)
        || n == 0x2028
        || n == 0x2029
        || n == 0x202f
        || n == 0x205f
        || n == 0x3000
}

#[test]
fn white_space_is_the_listed_characters() {
    for n in 0u32..=0x10ffff {
        if let Some(c) = char::from_u32(n) {
            assert_eq!(c.is_whitespace(), listed_as_white_space(c));
            let padded = format!("{c}x{c}");
            assert_eq!(padded.trim() == "x", listed_as_white_space(c));
        }
    }
}

#[test]
fn ascii_letters_and_digits_are_alphanumeric() {
    for n in 0u8..0x80 {
        let c = n as char;
        assert_eq!(c.is_alphanumeric(), c.is_ascii_alphanumeric());
        assert_eq!(c.to_string().to_lowercase(), c.to_ascii_lowercase().to_string());
    }
}

#[test]
fn every_white_space_separates_words() {
    for n in 0u32..=0x3000 {
        if let Some(c) = char::from_u32(n) {
            if listed_as_white_space(c) {
                assert_eq!(normalize(&format!("A{c}{c}b")), "a b");
            }
        }
    }
}

#[test]
fn normalization_ignores_spacing_and_padding() {
    assert_eq!(normalize("a  b\tc"), normalize("a b c"));
    assert_eq!(normalize(" \n a b \u{3000}"), normalize("a b"));
    assert_eq!(normalize(""), "");
    assert_eq!(normalize(" \t "), "");
}

#[test]
fn normalizing_twice_changes_nothing() {
    let once = normalize("  Some MIXED\tCase ");
    assert_eq!(once, "some mixed case");
    assert_eq!(normalize(&once), once);
}

#[test]
fn normalization_lowers_other_scripts() {
    assert_eq!(normalize("AÇÃO  Ünïcode"), "ação ünïcode");
}

#[test]
fn hashes_are_sha256_in_hexadecimal() {
    assert_eq!(
        hash_normalized(""),
        "e3b0c44298fc1c149afbf4c8996fb92427ae41e4649b934ca495991b7852b855"
    );
    assert_eq!(
        hash_normalized("abc"),
        "ba7816bf8f01cfea414140de5dae2223b00361a396177a9cb410ff61f20015ad"
    );
    assert_eq!(hash_normalized("ação").len(), 64);
    assert_ne!(hash_normalized("a"), hash_normalized("b"));
}

#[test]
fn lexical_terms_are_distinct_and_long_enough() {
    assert_eq!(lexical_terms("Run a RUN tests b"), strings(&["run", "tests"]));
    assert_eq!(lexical_terms("é x"), strings(&["é"]));
    assert!(lexical_terms("").is_empty());
}

#[test]
fn distinct_words_keep_short_ones() {
    assert_eq!(distinct_words("A b a  C"), strings(&["a", "b", "c"]));
    assert!(distinct_words("  ").is_empty());
}

#[test]
fn full_text_query_quotes_and_sorts_terms() {
    assert_eq!(fts_query("tests committing"), "\"committing\" OR \"tests\"");
    assert_eq!(fts_query("tests, tests!"), "\"tests\"");
    assert_eq!(fts_query("non-blocking under_score"), "\"non-blocking\" OR \"under_score\"");
}

#[test]
fn full_text_query_drops_short_terms() {
    assert_eq!(fts_query("a b c"), "");
    assert_eq!(fts_query(""), "");
    assert_eq!(fts_query("\"' OR 1=1 --"), "\"--\" OR \"OR\"");
}

#[test]
fn full_text_query_uses_sixteen_terms() {
    let words = (10..40).map(|n| format!("w{n}")).collect::<Vec<_>>();
    let query = fts_query(&words.join(" "));
    assert_eq!(query.matches(" OR ").count(), 15);
    assert!(query.contains("\"w25\""));
    assert!(!query.contains("\"w26\""));
}

#[test]
fn dedupe_trims_sorts_and_drops() {
    assert_eq!(
        dedupe(&strings(&[" b ", "a", "", "b", "  "])),
        strings(&["a", "b"])
    );
}

#[test]
fn merged_strings_unites_without_trimming() {
    assert_eq!(
        merged_strings(&strings(&["b", " "]), &strings(&["a", "b", " a"])),
        strings(&[" a", "a", "b"])
    );
    assert!(merged_strings(&Vec::new(), &Vec::new()).is_empty());
}

#[test]
fn string_lists_are_stored_as_json() {
    assert_eq!(encode_strings(&Vec::new()).unwrap(), "[]");
    assert_eq!(
        encode_strings(&strings(&["a", "b\"c\\", "\n\t\r\u{8}\u{c}\u{1}\u{1f}é✨/"])).unwrap(),
        "[\"a\",\"b\\\"c\\\\\",\"\\n\\t\\r\\b\\f\\u0001\\u001fé✨/\"]"
    );
}

#[test]
fn stored_string_lists_are_read_back() {
    for n in 0u32..0x300 {
        if let Some(c) = char::from_u32(n) {
            let list = vec![format!("x{c}y"), c.to_string(), String::new()];
            assert_eq!(decode_strings(&encode_strings(&list).unwrap()), list);
        }
    }
}

#[test]
fn unreadable_string_lists_count_as_empty() {
    assert!(decode_strings("").is_empty());
    assert!(decode_strings("{}").is_empty());
    assert!(decode_strings("[1,2]").is_empty());
    assert!(decode_strings("[\"a\"").is_empty());
    assert_eq!(decode_strings(" [ \"a\" , \"\\u0062\" ] "), strings(&["a", "b"]));
}

#[test]
fn normal_forms_of_ascii_texts_are_well_spaced() {
    let texts = ["", "  \t\n", " A  b\tC ", "one", "\r\nTwo\x0bWORDS\x0c", "a\n\n\nB c  d"];
    for text in texts {
        let normal = normalize(text);
        assert_eq!(normal.trim(), normal);
        assert!(!normal.contains("  "));
        assert!(normal.chars().all(|c| c == ' ' || !c.is_whitespace()));
        assert_eq!(normal.is_empty(), text.trim().is_empty());
        assert_eq!(normalize(&normal), normal);
        assert_eq!(normalize(text.trim()), normal);
        assert_eq!(lexical_terms(&normal), lexical_terms(text));
    }
    assert_eq!(normalize("\r\nTwo\x0bWORDS\x0c"), "two words");
}

#[test]
fn normal_forms_of_other_languages_are_stable() {
    let texts = [
        "  O Usuário  prefere\u{a0}RESPOSTAS\tem Português ",
        "DECISÃO:  usar SQLite; NÃO usar nuvem",
        "Ñandú\u{2003}ÉTÉ\u{3000}straße ΟΔΟΣ",
        "\u{2028}",
    ];
    for text in texts {
        let normal = normalize(text);
        assert_eq!(normal.to_lowercase(), normal);
        assert_eq!(normal.split_whitespace().collect::<Vec<_>>().join(" "), normal);
        assert_eq!(normalize(&normal), normal);
        assert_eq!(lexical_terms(&normal), lexical_terms(text));
    }
    assert_eq!(normalize(texts[0]), "o usuário prefere respostas em português");
}
