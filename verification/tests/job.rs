use message_localizer::entry::Entry;
use message_localizer::job::{TranslationJob, TranslationRequest};

fn entry(key: u32, text2: &str, text3: &str, payload: &[u8]) -> Entry {
    Entry { key, text2: text2.to_string(), text3: text3.to_string(), payload: payload.to_vec() }
}

fn request(text: &str, source: Option<&str>, target: &str) -> TranslationRequest {
    TranslationRequest {
        text: text.to_string(),
        source: source.map(|s| s.to_string()),
        target: target.to_string(),
    }
}

fn job(entries: Vec<Entry>) -> TranslationJob {
    TranslationJob::new(entries, Some("EN".to_string()), "FR".to_string())
}

#[test]
fn job_without_entries_is_finished() {
    let job = job(Vec::new());
    assert!(job.is_finished());
    assert_eq!(job.pending(), None);
    assert!(job.into_entries().is_empty());
}

#[test]
fn job_without_texts_is_finished() {
    let job = job(vec![entry(1, "", "", &[1]), entry(2, "", "", &[2])]);
    assert!(job.is_finished());
    assert_eq!(job.pending(), None);
    assert_eq!(job.into_entries(), vec![entry(1, "", "", &[1]), entry(2, "", "", &[2])]);
}

#[test]
fn requests_come_field_by_field_in_order() {
    let mut job = job(vec![
        entry(1, "a2", "a3", &[]),
        entry(2, "", "b3", &[]),
        entry(3, "", "", &[]),
        entry(4, "d2", "", &[]),
    ]);
    let mut asked = Vec::new();
    while let Some(r) = job.pending() {
        assert_eq!(r.source, Some("EN".to_string()));
        assert_eq!(r.target, "FR");
        asked.push(r.text.clone());
        job.resolve(format!("<{}>", r.text));
    }
    assert_eq!(asked, vec!["a2", "a3", "b3", "d2"]);
    assert!(job.is_finished());
    assert_eq!(
        job.into_entries(),
        vec![
            entry(1, "<a2>", "<a3>", &[]),
            entry(2, "", "<b3>", &[]),
            entry(3, "", "", &[]),
            entry(4, "<d2>", "", &[]),
        ]
    );
}

#[test]
fn pending_does_not_move_the_job() {
    let job = job(vec![entry(1, "Hello", "", &[])]);
    assert_eq!(job.pending(), Some(request("Hello", Some("EN"), "FR")));
    assert_eq!(job.pending(), Some(request("Hello", Some("EN"), "FR")));
    assert!(!job.is_finished());
}

#[test]
fn request_without_source_lets_the_backend_find_out() {
    let job = TranslationJob::new(vec![entry(1, "Hola", "", &[])], None, "DE".to_string());
    assert_eq!(job.pending(), Some(request("Hola", None, "DE")));
}

#[test]
fn empty_reply_keeps_the_original_text() {
    let mut job = job(vec![entry(1, "Hello", "World", &[4, 2])]);
    job.resolve(String::new());
    assert_eq!(job.pending(), Some(request("World", Some("EN"), "FR")));
    job.resolve("Monde".to_string());
    assert!(job.is_finished());
    assert_eq!(job.into_entries(), vec![entry(1, "Hello", "Monde", &[4, 2])]);
}

#[test]
fn failed_request_keeps_the_original_text() {
    let mut job = job(vec![entry(1, "Hello", "World", &[]), entry(2, "Bye", "", &[])]);
    job.resolve("Bonjour".to_string());
    job.keep_original();
    assert_eq!(job.pending(), Some(request("Bye", Some("EN"), "FR")));
    job.keep_original();
    assert!(job.is_finished());
    assert_eq!(
        job.into_entries(),
        vec![entry(1, "Bonjour", "World", &[]), entry(2, "Bye", "", &[])]
    );
}

#[test]
fn finished_job_takes_no_reply() {
    let mut job = job(vec![entry(1, "Hello", "", &[])]);
    job.resolve("Bonjour".to_string());
    assert!(job.is_finished());
    job.resolve("late".to_string());
    job.keep_original();
    assert!(job.is_finished());
    assert_eq!(job.into_entries(), vec![entry(1, "Bonjour", "", &[])]);
}

#[test]
fn key_and_payload_pass_through() {
    let mut job = job(vec![entry(0xDEADBEEF, "Hello", "World", &[0, 1, 2, 254, 255])]);
    job.resolve("Bonjour".to_string());
    job.resolve("Monde".to_string());
    let out = job.into_entries();
    assert_eq!(out.len(), 1);
    assert_eq!(out[0].key, 0xDEADBEEF);
    assert_eq!(out[0].payload, vec![0, 1, 2, 254, 255]);
    assert_eq!(out[0].text2, "Bonjour");
    assert_eq!(out[0].text3, "Monde");
}

#[test]
fn unfinished_job_hands_out_what_it_has() {
    let mut job = job(vec![entry(1, "one", "uno", &[]), entry(2, "two", "", &[])]);
    job.resolve("un".to_string());
    assert!(!job.is_finished());
    assert_eq!(
        job.into_entries(),
        vec![entry(1, "un", "uno", &[]), entry(2, "two", "", &[])]
    );
}
