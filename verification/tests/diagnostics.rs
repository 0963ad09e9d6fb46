use tessera::diagnostics::{Diagnostic, Diagnostics, Severity, Site, MAX_RECORDED};

fn site(line: u32) -> Site {
    Site::at("tests/diagnostics.rs", line, 1)
}

#[test]
fn reports_keep_their_order() {
    let mut d = Diagnostics::new();
    assert!(d.is_empty());
    d.warn(&site(1), "minecraft:stone", String::from("first"));
    d.error(&site(2), "minecraft:dirt", String::from("second"));
    let all = d.snapshot();
    assert_eq!(all.len(), 2);
    assert_eq!(all[0].severity, Severity::Warning);
    assert_eq!(all[0].subject, "minecraft:stone");
    assert_eq!(all[0].message, "first");
    assert_eq!(all[1].severity, Severity::Error);
    assert_eq!(all[1].to_string(), "error: minecraft:dirt: second");
    assert_eq!(all[0].to_string(), "warning: minecraft:stone: first");
}

#[test]
fn the_same_report_is_kept_once() {
    let mut d = Diagnostics::new();
    d.warn(&site(1), "a", String::from("one"));
    d.warn(&site(1), "a", String::from("another text"));
    assert_eq!(d.snapshot().len(), 1);
    assert_eq!(d.snapshot()[0].message, "one");
    d.warn(&site(2), "a", String::from("other site"));
    d.error(&site(1), "a", String::from("other severity"));
    d.warn(&site(1), "b", String::from("other subject"));
    assert_eq!(d.snapshot().len(), 4);
}

#[test]
fn keyed_reports_are_told_apart_by_key() {
    let mut d = Diagnostics::new();
    d.warn_keyed(&site(1), "item", "k1", String::from("x"));
    d.warn_keyed(&site(1), "item", "k2", String::from("x"));
    d.warn_keyed(&site(1), "item", "k1", String::from("x"));
    assert_eq!(d.snapshot().len(), 2);
    d.record(Severity::Error, &site(1), "item", "k1", String::from("y"));
    assert_eq!(d.snapshot().len(), 3);
}

#[test]
fn reports_past_the_limit_are_counted() {
    let mut d = Diagnostics::new();
    for i in 0..(MAX_RECORDED + 5) {
        d.error(&site(1), &format!("subject {i}"), String::from("m"));
    }
    assert_eq!(d.snapshot().len(), MAX_RECORDED);
    assert_eq!(d.suppressed(), 5);
    d.error(&site(1), "subject 0", String::from("m"));
    assert_eq!(d.suppressed(), 5);
}

#[test]
fn draining_starts_over() {
    let mut d = Diagnostics::new();
    d.warn(&site(1), "a", String::from("m"));
    let out: Vec<Diagnostic> = d.drain();
    assert_eq!(out.len(), 1);
    assert!(d.is_empty());
    assert_eq!(d.suppressed(), 0);
    d.warn(&site(1), "a", String::from("m"));
    assert_eq!(d.snapshot().len(), 1);
}
