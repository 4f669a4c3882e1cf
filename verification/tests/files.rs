use message_localizer::files::{
    classify_file, file_role, partition_files, place, FilePartition, FileRole, SkippedFile,
    TargetFile,
};

fn target(path: &str, language: &str, backend: &str) -> TargetFile {
    TargetFile {
        path: path.to_string(),
        language: language.to_string(),
        backend: backend.to_string(),
    }
}

fn skipped(path: &str, language: Option<&str>) -> SkippedFile {
    SkippedFile { path: path.to_string(), language: language.map(|l| l.to_string()) }
}

#[test]
fn role_follows_from_the_language() {
    assert_eq!(file_role(None, "eng"), FileRole::Unresolved);
    assert_eq!(file_role(Some("eng"), "eng"), FileRole::Base);
    assert_eq!(
        file_role(Some("fre"), "eng"),
        FileRole::Target { language: "fre".to_string(), backend: "FR".to_string() }
    );
    assert_eq!(
        file_role(Some("dut"), "eng"),
        FileRole::Unmapped { language: "dut".to_string() }
    );
}

#[test]
fn source_language_file_is_never_a_target() {
    assert_eq!(file_role(Some("jpn"), "jpn"), FileRole::Base);
    assert_eq!(file_role(Some("dut"), "dut"), FileRole::Base);
    assert_eq!(
        file_role(Some("eng"), "jpn"),
        FileRole::Target { language: "eng".to_string(), backend: "EN".to_string() }
    );
}

#[test]
fn role_is_read_off_the_path() {
    assert_eq!(classify_file("msg\\eng\\messageInfo.bin.xfbin", "eng"), FileRole::Base);
    assert_eq!(
        classify_file("msg\\kokr\\messageInfo.bin.xfbin", "eng"),
        FileRole::Target { language: "kokr".to_string(), backend: "KO".to_string() }
    );
    assert_eq!(
        classify_file("msg\\thth\\messageInfo.bin.xfbin", "eng"),
        FileRole::Unmapped { language: "thth".to_string() }
    );
    assert_eq!(classify_file("messageInfo.bin.xfbin", "eng"), FileRole::Unresolved);
}

#[test]
fn unmapped_language_is_skipped_not_translated() {
    let paths = vec![
        "msg\\eng\\messageInfo.bin.xfbin".to_string(),
        "msg\\thth\\messageInfo.bin.xfbin".to_string(),
    ];
    let parts = partition_files(&paths, "eng");
    assert!(parts.targets.is_empty());
    assert_eq!(parts.base, vec!["msg\\eng\\messageInfo.bin.xfbin".to_string()]);
    assert_eq!(parts.skipped, vec![skipped("msg\\thth\\messageInfo.bin.xfbin", Some("thth"))]);
}

#[test]
fn files_are_sorted_by_role_in_their_order() {
    let paths = vec![
        "d\\fre\\a.xfbin".to_string(),
        "d\\eng\\a.xfbin".to_string(),
        "loose.xfbin".to_string(),
        "d\\jpn\\a.xfbin".to_string(),
        "d\\eng\\b.xfbin".to_string(),
        "d\\xyz\\a.xfbin".to_string(),
        "d\\spa\\a.xfbin".to_string(),
    ];
    let parts = partition_files(&paths, "eng");
    assert_eq!(parts.base, vec!["d\\eng\\a.xfbin".to_string(), "d\\eng\\b.xfbin".to_string()]);
    assert_eq!(
        parts.targets,
        vec![
            target("d\\fre\\a.xfbin", "fre", "FR"),
            target("d\\jpn\\a.xfbin", "jpn", "JA"),
            target("d\\spa\\a.xfbin", "spa", "ES"),
        ]
    );
    assert_eq!(
        parts.skipped,
        vec![skipped("loose.xfbin", None), skipped("d\\xyz\\a.xfbin", Some("xyz"))]
    );
    assert_eq!(parts.base.len() + parts.targets.len() + parts.skipped.len(), paths.len());
}

#[test]
fn no_files_give_an_empty_partition() {
    let parts = partition_files(&Vec::new(), "eng");
    assert!(parts.base.is_empty());
    assert!(parts.targets.is_empty());
    assert!(parts.skipped.is_empty());
}

#[test]
fn place_adds_to_the_list_of_the_role() {
    let mut parts = FilePartition { base: Vec::new(), targets: Vec::new(), skipped: Vec::new() };
    place(&mut parts, "a".to_string(), FileRole::Base);
    place(
        &mut parts,
        "b".to_string(),
        FileRole::Target { language: "ita".to_string(), backend: "IT".to_string() },
    );
    place(&mut parts, "c".to_string(), FileRole::Unmapped { language: "abc".to_string() });
    place(&mut parts, "d".to_string(), FileRole::Unresolved);
    assert_eq!(parts.base, vec!["a".to_string()]);
    assert_eq!(parts.targets, vec![target("b", "ita", "IT")]);
    assert_eq!(parts.skipped, vec![skipped("c", Some("abc")), skipped("d", None)]);
}
