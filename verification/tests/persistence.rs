use shortlink::service::UrlService;

#[test]
fn empty_document_exact_text() {
    let s = UrlService::new();
    assert_eq!(s.save_document(), "00000000000000000000;");
}

#[test]
fn save_then_load_empty_mapping() {
    let s = UrlService::new();
    let doc = s.save_document();
    let loaded = UrlService::load(Some(doc.as_str()));
    assert_eq!(loaded.list().len(), 0);
}

#[test]
fn save_then_load_round_trip() {
    let mut s = UrlService::new();
    assert!(s
        .create_with_code(
            "000001".to_string(),
            "https://example.com/x?q=1".to_string(),
            "plain note".to_string(),
        )
        .is_some());
    assert!(s
        .create_with_code(
            "000002".to_string(),
            "https://example.org/".to_string(),
            "tricky: note; with\nseparators and snow \u{2603}".to_string(),
        )
        .is_some());
    assert!(s.redirect_at(&"000002".to_string(), -17).is_some());

    let doc = s.save_document();
    let loaded = UrlService::load(Some(doc.as_str()));

    assert_eq!(loaded.list().len(), 2);
    let a = loaded.get(&"000001".to_string()).expect("first entry kept");
    assert_eq!(a.short_code, "000001");
    assert_eq!(a.long_url, "https://example.com/x?q=1");
    assert_eq!(a.note, "plain note");
    assert_eq!(a.visit_count, 0);
    assert_eq!(a.last_visit, None);
    let b = loaded.get(&"000002".to_string()).expect("second entry kept");
    assert_eq!(b.short_code, "000002");
    assert_eq!(b.long_url, "https://example.org/");
    assert_eq!(b.note, "tricky: note; with\nseparators and snow \u{2603}");
    assert_eq!(b.visit_count, 1);
    assert_eq!(b.last_visit, Some(-17));
}

#[test]
fn load_missing_store_is_empty() {
    let loaded = UrlService::load(None);
    assert_eq!(loaded.list().len(), 0);
}

#[test]
fn load_garbage_is_empty() {
    assert_eq!(UrlService::load(Some("")).list().len(), 0);
    assert_eq!(UrlService::load(Some("not a document")).list().len(), 0);
    assert_eq!(
        UrlService::load(Some("0000000000000000000x;")).list().len(),
        0
    );
}

#[test]
fn load_truncated_or_padded_document_is_empty() {
    let mut s = UrlService::new();
    assert!(s
        .create_with_code("000009".to_string(), "https://a".to_string(), "".to_string())
        .is_some());
    let doc = s.save_document();

    let truncated = &doc[..doc.len() - 1];
    assert_eq!(UrlService::load(Some(truncated)).list().len(), 0);

    let padded = format!("{}x", doc);
    assert_eq!(UrlService::load(Some(padded.as_str())).list().len(), 0);
}

#[test]
fn load_duplicate_codes_is_empty() {
    let entry = "00000000000000000006:000001\
00000000000000000001:a\
00000000000000000000:\
0000000000;n;\n";
    let doc = format!("00000000000000000002;{}{}", entry, entry);

    // The same document with one copy of the entry is well formed.
    let single = format!("00000000000000000001;{}", entry);
    assert_eq!(UrlService::load(Some(single.as_str())).list().len(), 1);

    // Two entries under one code are rejected as corrupt: the store loads
    // empty rather than letting one entry shadow the other.
    assert_eq!(UrlService::load(Some(doc.as_str())).list().len(), 0);
}

#[test]
fn load_overflowing_visit_count_is_empty() {
    // The ten-digit counter field can spell values above the u32 limit;
    // such a document is corrupt and loads empty.
    let entry = "00000000000000000006:000001\
00000000000000000001:a\
00000000000000000000:\
9999999999;n;\n";
    let doc = format!("00000000000000000001;{}", entry);
    assert_eq!(UrlService::load(Some(doc.as_str())).list().len(), 0);
}

#[test]
fn load_unknown_visit_tag_is_empty() {
    let entry = "00000000000000000006:000001\
00000000000000000001:a\
00000000000000000000:\
0000000000;x;\n";
    let doc = format!("00000000000000000001;{}", entry);
    assert_eq!(UrlService::load(Some(doc.as_str())).list().len(), 0);
}

#[test]
fn saturated_counter_round_trips() {
    let mut r = shortlink::registry::Registry::new();
    r.insert(shortlink::entry::UrlEntry {
        short_code: "000003".to_string(),
        long_url: "https://example.net".to_string(),
        note: "busy".to_string(),
        visit_count: u32::MAX,
        last_visit: Some(i64::MIN),
    });
    let doc = r.to_document();
    let loaded = shortlink::registry::Registry::from_document(Some(doc.as_str()));
    let e = loaded.get(&"000003".to_string()).expect("entry kept");
    assert_eq!(e.visit_count, u32::MAX);
    assert_eq!(e.last_visit, Some(i64::MIN));
}
