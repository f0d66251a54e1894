use as2org_rs::{As2org, As2orgError};

// Builds an index from a small dataset in the snapshot line format: three
// AS records and their two organizations.
fn get_test_db() -> As2org {
    let lines: Vec<String> = vec![
        r#"{"type":"ASN","asn":"15169","name":"GOOGLE","org_id":"GOOG-ARIN","source":"ARIN"}"#
            .to_string(),
        r#"{"type":"ASN","asn":"36040","name":"YOUTUBE","org_id":"GOOG-ARIN","source":"ARIN"}"#
            .to_string(),
        r#"{"type":"ASN","asn":"13335","name":"CLOUDFLARENET","org_id":"CLOUD14-ARIN","source":"ARIN"}"#
            .to_string(),
        r#"{"org_id":"GOOG-ARIN","name":"Google LLC","country":"US","source":"ARIN","type":"Organization"}"#
            .to_string(),
        r#"{"org_id":"CLOUD14-ARIN","name":"Cloudflare, Inc.","country":"US","source":"ARIN","type":"Organization"}"#
            .to_string(),
    ];
    As2org::from_lines(&lines).expect("Failed to load AS2org database")
}

#[test]
fn test_new_from_latest() {
    let as2org = get_test_db();
    // Verify the database was loaded by checking if we have some data
    assert!(as2org.as_count() > 0);
    assert!(as2org.org_count() > 0);
}

#[test]
fn test_get_as_info_existing() {
    let as2org = get_test_db();
    // Test with a well-known ASN (Google)
    let info = as2org.get_as_info(15169);
    assert!(info.is_some());
    let info = info.unwrap();
    assert_eq!(info.asn, 15169);
    assert!(!info.org_id.is_empty());
    assert!(!info.org_name.is_empty());
    assert!(!info.country_code.is_empty());
    assert!(!info.source.is_empty());
}

#[test]
fn test_get_as_info_nonexistent() {
    let as2org = get_test_db();
    // Test with a likely non-existent ASN
    let info = as2org.get_as_info(999999999);
    assert!(info.is_none());
}

#[test]
fn test_get_siblings_existing() {
    let as2org = get_test_db();
    // Test with Google's AS15169
    let siblings = as2org.get_siblings(15169);
    assert!(siblings.is_some());
    let siblings = siblings.unwrap();
    // Should include at least the ASN itself
    assert!(siblings.len() >= 1);
    // The queried ASN should be in the siblings list
    assert!(siblings.iter().any(|s| s.asn == 15169));
    // All siblings should have the same org_id
    let org_id = &siblings[0].org_id;
    assert!(siblings.iter().all(|s| s.org_id == *org_id));
}

#[test]
fn test_get_siblings_nonexistent() {
    let as2org = get_test_db();
    let siblings = as2org.get_siblings(999999999);
    assert!(siblings.is_none());
}

#[test]
fn test_are_siblings_true() {
    let as2org = get_test_db();
    // First get an ASN that has siblings
    let _info = as2org.get_as_info(15169).unwrap();
    let siblings = as2org.get_siblings(15169).unwrap();

    if siblings.len() > 1 {
        // Test with actual siblings if they exist
        let sibling_asn = siblings.iter().find(|s| s.asn != 15169).unwrap().asn;
        assert!(as2org.are_siblings(15169, sibling_asn));
    } else {
        // An ASN is always a sibling to itself
        assert!(as2org.are_siblings(15169, 15169));
    }
}

#[test]
fn test_are_siblings_false() {
    let as2org = get_test_db();
    // Google (15169) and Cloudflare (13335) should not be siblings
    assert!(!as2org.are_siblings(15169, 13335));
}

#[test]
fn test_are_siblings_nonexistent() {
    let as2org = get_test_db();
    // Test with non-existent ASN
    assert!(!as2org.are_siblings(15169, 999999999));
    assert!(!as2org.are_siblings(999999999, 15169));
    assert!(!as2org.are_siblings(999999999, 999999998));
}

#[test]
fn test_get_latest_file_url() {
    let url = As2org::get_latest_file_url();
    assert!(url.starts_with("https://"));
    assert!(url.contains("as-org2info.jsonl.gz"));
}

#[test]
fn test_as_to_org_mapping() {
    let as2org = get_test_db();
    // Verify internal consistency: as_to_org should map to valid orgs
    for (asn, org_id) in as2org.as_org_pairs().iter().take(10) {
        assert!(as2org.contains_org_id(org_id));
        assert!(as2org.contains_asn(*asn));
    }
}

#[test]
fn test_org_to_as_mapping() {
    let as2org = get_test_db();
    // Verify internal consistency: org_to_as should map to valid ASNs
    for (org_id, asns) in as2org.org_as_lists().iter().take(10) {
        assert!(as2org.contains_org_id(org_id));
        for asn in asns {
            assert!(as2org.contains_asn(*asn));
            assert_eq!(&as2org.org_of_asn(*asn).unwrap(), org_id);
        }
    }
}

#[test]
fn test_fix_latin1_misinterpretation() {
    // Test the Latin-1 fix function with known patterns
    let input = "Test \u{00c3}\u{00a9} string";
    let fixed = as2org_rs::fix_latin1_misinterpretation(input);
    // The function should convert the pair to the single intended character
    assert!(fixed.len() <= input.len());

    // Test with no special characters
    let input = "Normal ASCII string";
    let fixed = as2org_rs::fix_latin1_misinterpretation(input);
    assert_eq!(input, fixed);
}

#[test]
fn test_as2org_as_info_fields() {
    let as2org = get_test_db();
    let info = as2org.get_as_info(15169).unwrap();

    // Verify all fields are populated
    assert_eq!(info.asn, 15169);
    assert!(!info.name.is_empty());
    assert!(!info.country_code.is_empty());
    assert!(!info.org_id.is_empty());
    assert!(!info.org_name.is_empty());
    assert!(!info.source.is_empty());
}

#[test]
fn test_siblings_consistency() {
    let as2org = get_test_db();
    let asn = 15169;
    let siblings = as2org.get_siblings(asn).unwrap();

    // All siblings should return the same sibling list
    for sibling in &siblings {
        let sibling_siblings = as2org.get_siblings(sibling.asn).unwrap();
        assert_eq!(siblings.len(), sibling_siblings.len());

        // All ASNs should be present in both lists
        for s in &siblings {
            assert!(sibling_siblings.iter().any(|ss| ss.asn == s.asn));
        }
    }
}

#[test]
fn test_scenario_two_orgs() {
    let lines: Vec<String> = vec![
        r#"{"type":"ASN","asn":"100","name":"A-ONE","org_id":"X","source":"ARIN"}"#.to_string(),
        r#"{"type":"ASN","asn":"200","name":"A-TWO","org_id":"X","source":"ARIN"}"#.to_string(),
        r#"{"type":"ASN","asn":"300","name":"B-ONE","org_id":"Y","source":"RIPE"}"#.to_string(),
        r#"{"org_id":"X","name":"Acme","country":"US","source":"ARIN","type":"Organization"}"#
            .to_string(),
        r#"{"org_id":"Y","name":"Globex","country":"DE","source":"RIPE","type":"Organization"}"#
            .to_string(),
    ];
    let db = As2org::from_lines(&lines).unwrap();
    assert_eq!(db.get_as_info(100).unwrap().org_name, "Acme");
    assert_eq!(db.get_as_info(300).unwrap().country_code, "DE");
    let sibs = db.get_siblings(100).unwrap();
    assert!(sibs.iter().any(|s| s.asn == 100));
    assert!(sibs.iter().any(|s| s.asn == 200));
    assert_eq!(sibs.len(), 2);
    assert!(db.are_siblings(100, 200));
    assert!(db.are_siblings(200, 100));
    assert!(!db.are_siblings(100, 300));
    assert!(db.get_as_info(999).is_none());
}

#[test]
fn test_repair_pair_exact() {
    // The mis-decoded pair for the Latin-1 e-acute becomes the one
    // intended character.
    let fixed = as2org_rs::fix_latin1_misinterpretation("\u{00c3}\u{00a9}");
    assert_eq!(fixed, "\u{00e9}");
    // A marker followed by a character outside the continuation range
    // passes through unchanged.
    let kept = as2org_rs::fix_latin1_misinterpretation("\u{00c3}Z");
    assert_eq!(kept, "\u{00c3}Z");
}

#[test]
fn test_parse_error_aborts_load() {
    let lines: Vec<String> = vec![
        r#"{"org_id":"X","name":"Acme","country":"US","source":"ARIN","type":"Organization"}"#
            .to_string(),
        "not json at all".to_string(),
    ];
    match As2org::from_lines(&lines) {
        Err(As2orgError::LineParse { line, .. }) => assert_eq!(line, "not json at all"),
        _ => panic!("a malformed line must abort the load"),
    }
}

#[test]
fn test_missing_required_field() {
    // An organization record without its country does not fill the schema.
    let lines: Vec<String> =
        vec![r#"{"org_id":"X","name":"Acme","source":"ARIN","type":"Organization"}"#.to_string()];
    assert!(matches!(
        As2org::from_lines(&lines),
        Err(As2orgError::LineParse { .. })
    ));
}

#[test]
fn test_duplicate_field_rejected() {
    // A field given under both of its accepted names is a duplicate.
    let lines: Vec<String> = vec![
        r#"{"org_id":"X","organizationId":"X","name":"Acme","country":"US","source":"ARIN","type":"Organization"}"#
            .to_string(),
    ];
    assert!(matches!(
        As2org::from_lines(&lines),
        Err(As2orgError::LineParse { .. })
    ));
}

#[test]
fn test_field_aliases_accepted() {
    let lines: Vec<String> = vec![
        r#"{"type":"ASN","asn":"64500","name":"T","organizationId":"X","opaqueId":"op-1","source":"ARIN"}"#
            .to_string(),
        r#"{"organizationId":"X","name":"Acme","country":"US","source":"ARIN","data_type":"Organization"}"#
            .to_string(),
    ];
    let db = As2org::from_lines(&lines).unwrap();
    let info = db.get_as_info(64500).unwrap();
    assert_eq!(info.org_id, "X");
    assert_eq!(info.org_name, "Acme");
}

#[test]
fn test_invalid_asn_rejected() {
    let lines: Vec<String> =
        vec![r#"{"type":"ASN","asn":"abc","name":"T","org_id":"X","source":"ARIN"}"#.to_string()];
    match As2org::from_lines(&lines) {
        Err(As2orgError::InvalidAsn(t)) => assert_eq!(t, "abc"),
        _ => panic!("a non-numeric AS number must abort the load"),
    }
}

#[test]
fn test_dangling_org_reference() {
    // An AS whose organization identifier has no organization record is
    // present, but enrichment and sibling listing return nothing.
    let lines: Vec<String> = vec![
        r#"{"type":"ASN","asn":"64501","name":"T","org_id":"GHOST","source":"ARIN"}"#.to_string(),
    ];
    let db = As2org::from_lines(&lines).unwrap();
    assert!(db.contains_asn(64501));
    assert!(db.get_as_info(64501).is_none());
    assert!(db.get_siblings(64501).is_none());
    // Present means sibling of itself, even without the organization
    // record.
    assert!(db.are_siblings(64501, 64501));
}

#[test]
fn test_last_write_wins() {
    let lines: Vec<String> = vec![
        r#"{"type":"ASN","asn":"64502","name":"OLD","org_id":"X","source":"ARIN"}"#.to_string(),
        r#"{"type":"ASN","asn":"64502","name":"NEW","org_id":"Y","source":"ARIN"}"#.to_string(),
        r#"{"org_id":"X","name":"Acme","country":"US","source":"ARIN","type":"Organization"}"#
            .to_string(),
        r#"{"org_id":"Y","name":"Globex","country":"DE","source":"RIPE","type":"Organization"}"#
            .to_string(),
    ];
    let db = As2org::from_lines(&lines).unwrap();
    let info = db.get_as_info(64502).unwrap();
    assert_eq!(info.name, "NEW");
    assert_eq!(info.org_id, "Y");
    assert_eq!(db.as_count(), 1);
}

#[test]
fn test_name_defaults_and_null_changed() {
    let lines: Vec<String> = vec![
        r#"{"type":"ASN","asn":"64503","org_id":"X","source":"ARIN","changed":null}"#.to_string(),
        r#"{"org_id":"X","name":"Acme","country":"US","source":"ARIN","type":"Organization"}"#
            .to_string(),
    ];
    let db = As2org::from_lines(&lines).unwrap();
    let info = db.get_as_info(64503).unwrap();
    assert_eq!(info.name, "");
}

#[test]
fn test_empty_dataset_loads() {
    let lines: Vec<String> = Vec::new();
    let db = As2org::from_lines(&lines).unwrap();
    assert_eq!(db.as_count(), 0);
    assert!(db.get_as_info(1).is_none());
    assert!(!db.are_siblings(1, 1));
}

#[test]
fn test_plus_prefixed_asn_accepted() {
    let lines: Vec<String> = vec![
        r#"{"type":"ASN","asn":"+64504","name":"T","org_id":"X","source":"ARIN"}"#.to_string(),
        r#"{"org_id":"X","name":"Acme","country":"US","source":"ARIN","type":"Organization"}"#
            .to_string(),
    ];
    let db = As2org::from_lines(&lines).unwrap();
    assert!(db.contains_asn(64504));
}

#[test]
fn test_unknown_fields_ignored() {
    let lines: Vec<String> = vec![
        r#"{"type":"ASN","asn":"64505","rank":1,"seen":true,"note":null,"weight":-2.5e3,"org_id":"X","source":"ARIN"}"#
            .to_string(),
        r#"{"org_id":"X","name":"Acme","country":"US","source":"ARIN","type":"Organization"}"#
            .to_string(),
    ];
    let db = As2org::from_lines(&lines).unwrap();
    assert_eq!(db.get_as_info(64505).unwrap().org_name, "Acme");
}

#[test]
fn test_unicode_escapes_in_strings() {
    let lines: Vec<String> = vec![
        "{\"type\":\"ASN\",\"asn\":\"64506\",\"name\":\"CAF\\u00c9 \\ud83d\\ude00\",\"org_id\":\"X\",\"source\":\"ARIN\"}"
            .to_string(),
        r#"{"org_id":"X","name":"Acme","country":"US","source":"ARIN","type":"Organization"}"#
            .to_string(),
    ];
    let db = As2org::from_lines(&lines).unwrap();
    let info = db.get_as_info(64506).unwrap();
    assert_eq!(info.name, "CAF\u{00c9} \u{1f600}");
}

#[test]
fn test_lone_surrogate_rejected() {
    let lines: Vec<String> = vec![
        "{\"type\":\"ASN\",\"asn\":\"64507\",\"name\":\"\\ud83d\",\"org_id\":\"X\",\"source\":\"ARIN\"}"
            .to_string(),
    ];
    assert!(matches!(
        As2org::from_lines(&lines),
        Err(As2orgError::LineParse { .. })
    ));
}

#[test]
fn test_structured_unknown_values_skipped() {
    let lines: Vec<String> = vec![
        r#"{"type":"ASN","asn":"64508","tags":["a",{"x":[1,2]},"}"],"meta":{"k":"]"},"org_id":"X","source":"ARIN"}"#
            .to_string(),
        r#"{"org_id":"X","name":"Acme","country":"US","source":"ARIN","type":"Organization"}"#
            .to_string(),
    ];
    let db = As2org::from_lines(&lines).unwrap();
    assert_eq!(db.get_as_info(64508).unwrap().org_name, "Acme");
}

#[test]
fn test_mismatched_brackets_rejected() {
    let lines: Vec<String> = vec![
        r#"{"type":"ASN","asn":"64509","tags":[1,2},"org_id":"X","source":"ARIN"}"#.to_string(),
    ];
    assert!(matches!(
        As2org::from_lines(&lines),
        Err(As2orgError::LineParse { .. })
    ));
}

#[test]
fn test_structured_known_field_is_type_error() {
    // A required string field given as an object does not fill the
    // schema.
    let lines: Vec<String> = vec![
        r#"{"type":"ASN","asn":"64510","org_id":{"nested":"X"},"source":"ARIN"}"#.to_string(),
    ];
    assert!(matches!(
        As2org::from_lines(&lines),
        Err(As2orgError::LineParse { .. })
    ));
}
