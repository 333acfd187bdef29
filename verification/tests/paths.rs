use tdb_search::domain_path::{
    dataset_dir_name, decode_domain_path, discover_domains, domain_of_dir, encode_domain_path,
    segment_from_pairs, DirEntry,
};
use tdb_search::pieces::{join_texts, split_text};

#[test]
fn domains_are_encoded_by_segment() {
    assert_eq!(encode_domain_path("admin/star_wars"), "admin__star_wars");
    assert_eq!(encode_domain_path("a b/c&d=e"), "a+b__c%26d%3De");
    assert_eq!(encode_domain_path("ä/~"), "%C3%A4__%7E");
    assert_eq!(encode_domain_path(""), "");
    assert_eq!(encode_domain_path("/"), "__");
    assert_eq!(encode_domain_path("a__b"), "a%5F_b");
    assert_eq!(encode_domain_path("x_/_y_z"), "x%5F___y_z");
    assert_eq!(encode_domain_path("___"), "%5F%5F%5F");
    assert_eq!(encode_domain_path("a%5F"), "a%255F");
}

#[test]
fn encoded_domains_read_back() {
    for domain in [
        "admin/star_wars", "a b/c&d=e+%", "ä/漢字/x", "", "/", "a//b", "plain", "_a/b_", "a__b",
        "a_/b", "a/_b", "a_/_b", "a_b_", "_", "__", "___/___", "a%5Fb/%5F", "%255F", "é_/_漢",
    ] {
        let encoded = encode_domain_path(domain);
        assert_eq!(decode_domain_path(&encoded), Some(domain.to_owned()), "{}", domain);
    }
}

#[test]
fn underscores_and_slashes_are_told_apart() {
    let domains = ["a__b", "a/b", "a_/b", "a/_b", "a___b", "a//b", "a_b", "a%5F_b", "a_", "a"];
    for (i, a) in domains.iter().enumerate() {
        let encoded = encode_domain_path(a);
        assert!(!encoded.contains('/'), "{}", encoded);
        assert_eq!(decode_domain_path(&encoded), Some((*a).to_owned()));
        for b in &domains[i + 1..] {
            assert_ne!(encoded, encode_domain_path(b), "{} {}", a, b);
            assert_ne!(dataset_dir_name(a), dataset_dir_name(b));
        }
    }
    assert_eq!(decode_domain_path("a__b"), Some("a/b".to_owned()));
}

#[test]
fn decoding_follows_form_rules() {
    assert_eq!(decode_domain_path("a=b"), Some("a=b".to_owned()));
    assert_eq!(decode_domain_path("a&b"), Some("ab".to_owned()));
    assert_eq!(decode_domain_path("&"), None);
    assert_eq!(decode_domain_path("a__&"), None);
    assert_eq!(decode_domain_path("a+b"), Some("a b".to_owned()));
}

#[test]
fn segments_are_put_together_from_pairs() {
    let pairs = vec![
        ("a".to_owned(), String::new()),
        ("b".to_owned(), "c".to_owned()),
    ];
    assert_eq!(segment_from_pairs(&pairs), Some("ab=c".to_owned()));
    assert_eq!(segment_from_pairs(&Vec::new()), None);
}

#[test]
fn dataset_directories_are_found() {
    assert_eq!(dataset_dir_name("org/team"), "org__team.lance");
    assert_eq!(domain_of_dir("org__team.lance"), Some("org/team".to_owned()));
    assert_eq!(domain_of_dir("org%5F_team.lance"), Some("org__team".to_owned()));
    assert_eq!(domain_of_dir("org__team.txt"), None);
    assert_eq!(domain_of_dir("lance"), None);
    let entries = vec![
        DirEntry { name: "a.lance".to_owned(), is_dir: true },
        DirEntry { name: "b.lance".to_owned(), is_dir: false },
        DirEntry { name: "c__d.lance".to_owned(), is_dir: true },
        DirEntry { name: "settings.json".to_owned(), is_dir: false },
        DirEntry { name: "&.lance".to_owned(), is_dir: true },
    ];
    assert_eq!(discover_domains(&entries), vec!["a", "c/d"]);
}

#[test]
fn texts_split_and_join() {
    assert_eq!(split_text("a__b___c", "__"), vec!["a", "b", "_c"]);
    assert_eq!(split_text("", "/"), vec![""]);
    assert_eq!(split_text("a/", "/"), vec!["a", ""]);
    let parts = split_text("x/y/z", "/");
    assert_eq!(join_texts(&parts, "/"), "x/y/z");
    assert_eq!(join_texts(&Vec::new(), "/"), "");
}
