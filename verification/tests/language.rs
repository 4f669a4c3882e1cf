use message_localizer::language::{
    accept_code, ascii_letter, get_message_lang, language_code_shaped, match_to_deepl_lang,
};

#[test]
fn language_is_read_off_a_path_segment() {
    assert_eq!(
        get_message_lang("C:\\storm\\message\\eng\\messageInfo.bin.xfbin"),
        Some("eng")
    );
    assert_eq!(
        get_message_lang("data\\kokr\\messageInfo.bin.xfbin"),
        Some("kokr")
    );
    assert_eq!(get_message_lang("\\FRE\\x"), Some("FRE"));
}

#[test]
fn language_is_not_the_whole_path() {
    let path = "data\\jpn\\messageInfo.bin.xfbin";
    assert_ne!(get_message_lang(path), Some(path));
    assert_eq!(get_message_lang(path), Some("jpn"));
}

#[test]
fn first_fitting_segment_gives_the_language() {
    assert_eq!(get_message_lang("a\\ger\\ita\\file"), Some("ger"));
    assert_eq!(get_message_lang("root\\messages\\spa\\rus\\f"), Some("spa"));
    assert_eq!(get_message_lang("C:\\game\\eng\\f"), Some("game"));
}

#[test]
fn path_without_a_fitting_segment_has_no_language() {
    assert_eq!(get_message_lang(""), None);
    assert_eq!(get_message_lang("messageInfo.bin.xfbin"), None);
    assert_eq!(get_message_lang("data/eng/messageInfo.bin.xfbin"), None);
    assert_eq!(get_message_lang("data\\en\\file"), None);
    assert_eq!(get_message_lang("data\\engli\\file"), None);
    assert_eq!(get_message_lang("data\\en1\\file"), None);
    assert_eq!(get_message_lang("eng\\file"), None);
    assert_eq!(get_message_lang("data\\eng"), None);
}

#[test]
fn code_shape_is_three_or_four_letters() {
    assert!(language_code_shaped("eng"));
    assert!(language_code_shaped("zhcn"));
    assert!(language_code_shaped("XyZ"));
    assert!(!language_code_shaped(""));
    assert!(!language_code_shaped("en"));
    assert!(!language_code_shaped("engli"));
    assert!(!language_code_shaped("e_g"));
    assert!(!language_code_shaped("en9"));
    assert!(!language_code_shaped("\u{e9}ng"));
}

#[test]
fn letters_are_the_ascii_ones() {
    assert!(ascii_letter('a'));
    assert!(ascii_letter('z'));
    assert!(ascii_letter('A'));
    assert!(ascii_letter('Z'));
    assert!(!ascii_letter('0'));
    assert!(!ascii_letter('\\'));
    assert!(!ascii_letter('['));
    assert!(!ascii_letter('`'));
    assert!(!ascii_letter('{'));
    assert!(!ascii_letter('@'));
    assert!(!ascii_letter('\u{e9}'));
}

#[test]
fn capture_is_kept_only_in_shape() {
    assert_eq!(accept_code(Some("eng")), Some("eng"));
    assert_eq!(accept_code(Some("kokr")), Some("kokr"));
    assert_eq!(accept_code(Some("toolong")), None);
    assert_eq!(accept_code(Some("")), None);
    assert_eq!(accept_code(None), None);
}

#[test]
fn every_code_of_the_table_has_its_identifier() {
    let table = [
        ("arae", "AR"),
        ("chi", "ZH"),
        ("eng", "EN"),
        ("esmx", "ES"),
        ("fre", "FR"),
        ("ger", "DE"),
        ("idid", "ID"),
        ("ita", "IT"),
        ("jpn", "JA"),
        ("kokr", "KO"),
        ("pol", "PL"),
        ("por", "PT"),
        ("rus", "RU"),
        ("spa", "ES"),
        ("zhcn", "ZH"),
    ];
    for (code, id) in table {
        assert_eq!(match_to_deepl_lang(code), Some(id.to_string()));
    }
}

#[test]
fn code_outside_the_table_has_no_identifier() {
    assert_eq!(match_to_deepl_lang(""), None);
    assert_eq!(match_to_deepl_lang("ENG"), None);
    assert_eq!(match_to_deepl_lang("dut"), None);
    assert_eq!(match_to_deepl_lang("engl"), None);
    assert_eq!(match_to_deepl_lang("EN"), None);
}
