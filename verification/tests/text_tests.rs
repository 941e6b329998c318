use submission_router::text::{ext_of, find_sub, is_zip_name, stem_of, str_eq, trim_str};

#[test]
fn trim_both_ends() {
    assert_eq!(trim_str("  abc  "), "abc".to_string());
    assert_eq!(trim_str("abc"), "abc".to_string());
    assert_eq!(trim_str("\t a b \r\n"), "a b".to_string());
    assert_eq!(trim_str("   "), "".to_string());
    assert_eq!(trim_str(""), "".to_string());
}

#[test]
fn find_first_occurrence() {
    assert_eq!(find_sub("alice_group", "li"), Some(1));
    assert_eq!(find_sub("alice_group", "alice"), Some(0));
    assert_eq!(find_sub("alice_group", "group"), Some(6));
    assert_eq!(find_sub("alice_group", "bob"), None);
    assert_eq!(find_sub("aaa", "aa"), Some(0));
    assert_eq!(find_sub("", "a"), None);
    assert_eq!(find_sub("abc", ""), Some(0));
}

#[test]
fn string_equality_by_characters() {
    assert!(str_eq("abc", "abc"));
    assert!(!str_eq("abc", "abd"));
    assert!(!str_eq("abc", "abcd"));
    assert!(str_eq("", ""));
}

#[test]
fn stem_of_file_names() {
    assert_eq!(stem_of("archive.zip"), "archive".to_string());
    assert_eq!(stem_of("cs101.txt"), "cs101".to_string());
    assert_eq!(stem_of("noext"), "noext".to_string());
    assert_eq!(stem_of(".hidden"), ".hidden".to_string());
    assert_eq!(stem_of("a.tar.gz"), "a.tar".to_string());
    assert_eq!(stem_of("trailing."), "trailing".to_string());
}

#[test]
fn ext_of_file_names() {
    assert_eq!(ext_of("archive.zip"), Some("zip".to_string()));
    assert_eq!(ext_of("a.tar.gz"), Some("gz".to_string()));
    assert_eq!(ext_of("noext"), None);
    assert_eq!(ext_of(".hidden"), None);
    assert_eq!(ext_of("trailing."), Some("".to_string()));
}

#[test]
fn zip_extension_any_case() {
    assert!(is_zip_name("a.zip"));
    assert!(is_zip_name("a.ZIP"));
    assert!(is_zip_name("a.Zip"));
    assert!(is_zip_name("a.zIp"));
    assert!(!is_zip_name("a.txt"));
    assert!(!is_zip_name("zip"));
    assert!(!is_zip_name("a.zipp"));
    assert!(!is_zip_name("a.zi"));
    assert!(!is_zip_name(".zip"));
}
