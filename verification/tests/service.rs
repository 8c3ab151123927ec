use shortlink::entry::UrlEntry;
use shortlink::registry::Registry;
use shortlink::service::{format_code, ServiceError, UrlService};

#[test]
fn create_then_get_matches() {
    let mut s = UrlService::new();
    let e = s
        .create_with_code(
            "000123".to_string(),
            "https://example.com/a".to_string(),
            "first".to_string(),
        )
        .expect("code was free");
    assert_eq!(e.short_code, "000123");
    assert_eq!(e.long_url, "https://example.com/a");
    assert_eq!(e.note, "first");
    assert_eq!(e.visit_count, 0);
    assert!(e.last_visit.is_none());

    let got = s.get(&"000123".to_string()).expect("entry is stored");
    assert_eq!(got.short_code, e.short_code);
    assert_eq!(got.long_url, e.long_url);
    assert_eq!(got.note, e.note);
    assert_eq!(got.visit_count, e.visit_count);
    assert_eq!(got.last_visit, e.last_visit);

    let listed = s.list();
    assert_eq!(listed.len(), 1);
    assert_eq!(listed[0].short_code, "000123");
    assert_eq!(listed[0].long_url, "https://example.com/a");
}

#[test]
fn create_generates_six_digit_code() {
    let mut s = UrlService::new();
    let e = s
        .create("https://example.com".to_string(), "".to_string())
        .expect("an empty registry has free codes");
    assert_eq!(e.short_code.len(), 6);
    assert!(e.short_code.chars().all(|c| c.is_ascii_digit()));
    assert!(s.get(&e.short_code).is_some());
}

#[test]
fn create_with_taken_code_declined() {
    let mut s = UrlService::new();
    assert!(s
        .create_with_code("000001".to_string(), "https://a".to_string(), "".to_string())
        .is_some());
    assert!(s
        .create_with_code("000001".to_string(), "https://b".to_string(), "".to_string())
        .is_none());
    let listed = s.list();
    assert_eq!(listed.len(), 1);
    assert_eq!(listed[0].long_url, "https://a");
}

#[test]
fn scenario_full_lifecycle() {
    let mut s = UrlService::new();
    let e = s
        .create("https://example.com".to_string(), "demo".to_string())
        .expect("create succeeds on an empty registry");
    assert_eq!(e.visit_count, 0);
    assert!(e.last_visit.is_none());
    assert_eq!(e.short_code.len(), 6);
    assert!(e.short_code.chars().all(|c| c.is_ascii_digit()));

    let code = e.short_code.clone();
    let target = s.redirect(&code).expect("known code redirects");
    assert_eq!(target, "https://example.com");

    let after = s.get(&code).expect("entry still stored");
    assert_eq!(after.visit_count, 1);
    assert!(after.last_visit.is_some());

    assert_eq!(s.delete(&code), Ok(()));
    assert!(s.get(&code).is_none());
    assert!(s.redirect(&code).is_none());
}

#[test]
fn record_visit_counts_and_timestamps() {
    let mut r = Registry::new();
    r.insert(UrlEntry {
        short_code: "000007".to_string(),
        long_url: "https://example.com".to_string(),
        note: "".to_string(),
        visit_count: 0,
        last_visit: None,
    });
    let code = "000007".to_string();
    assert!(r.record_visit(&code, 10));
    assert!(r.record_visit(&code, 20));
    assert!(r.record_visit(&code, 30));
    let e = r.get(&code).expect("entry is stored");
    assert_eq!(e.visit_count, 3);
    assert_eq!(e.last_visit, Some(30));

    let missing = "999999".to_string();
    assert!(!r.record_visit(&missing, 40));
    assert!(r.get(&missing).is_none());
    assert_eq!(r.count(), 1);
}

#[test]
fn record_visit_saturates_at_the_limit() {
    let mut r = Registry::new();
    r.insert(UrlEntry {
        short_code: "000008".to_string(),
        long_url: "https://example.com".to_string(),
        note: "".to_string(),
        visit_count: u32::MAX,
        last_visit: Some(1),
    });
    let code = "000008".to_string();
    assert!(r.record_visit(&code, 99));
    let e = r.get(&code).expect("entry is stored");
    assert_eq!(e.visit_count, u32::MAX);
    assert_eq!(e.last_visit, Some(99));
}

#[test]
fn delete_missing_is_not_found() {
    let mut s = UrlService::new();
    assert!(s
        .create_with_code("000002".to_string(), "https://a".to_string(), "".to_string())
        .is_some());
    assert_eq!(s.delete(&"111111".to_string()), Err(ServiceError::NotFound));
    let listed = s.list();
    assert_eq!(listed.len(), 1);
    assert_eq!(listed[0].short_code, "000002");
}

#[test]
fn redirect_at_fixed_time() {
    let mut s = UrlService::new();
    let code = "000456".to_string();
    assert!(s
        .create_with_code(code.clone(), "https://example.org".to_string(), "n".to_string())
        .is_some());
    let target = s.redirect_at(&code, 42).expect("known code redirects");
    assert_eq!(target, "https://example.org");
    let e = s.get(&code).expect("entry still stored");
    assert_eq!(e.visit_count, 1);
    assert_eq!(e.last_visit, Some(42));
}

#[test]
fn redirect_unknown_code_is_not_found() {
    let mut s = UrlService::new();
    assert!(s.redirect(&"123456".to_string()).is_none());
    assert!(s.redirect_at(&"123456".to_string(), 7).is_none());
}

#[test]
fn format_code_values() {
    assert_eq!(format_code(0), "000000");
    assert_eq!(format_code(123), "000123");
    assert_eq!(format_code(999999), "999999");
}
