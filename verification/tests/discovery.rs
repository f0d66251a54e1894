use as2org_rs::files_with_dates_from_listing;
use as2org_rs::As2orgError;

#[test]
fn test_listing_extracts_and_sorts() {
    let listing = "some 20240102.as-org2info.jsonl.gz text\nirrelevant line\n20230401.as-org2info.jsonl.gz\nmore 20231115.as-org2info.jsonl.gz text\n";
    let files = files_with_dates_from_listing(listing).unwrap();
    assert_eq!(files.len(), 3);
    for (url, _) in &files {
        assert!(url.starts_with("https://"));
        assert!(url.contains("as-org2info.jsonl.gz"));
    }
    // Ascending by date, with the most recent last.
    assert_eq!(files[0].1.num_value(), 20230401);
    assert_eq!(files[1].1.num_value(), 20231115);
    assert_eq!(files[2].1.num_value(), 20240102);
    assert!(files[2].0.ends_with("20240102.as-org2info.jsonl.gz"));
    for i in 1..files.len() {
        assert!(files[i].1.num_value() >= files[i - 1].1.num_value());
    }
}

#[test]
fn test_listing_takes_every_occurrence() {
    // Two names in one line give two entries, and the one carrying the
    // newest date wins the selection even when it comes first in the
    // line.
    let listing = "x 20200303.as-org2info.jsonl.gz y 20200202.as-org2info.jsonl.gz z\n";
    let files = files_with_dates_from_listing(listing).unwrap();
    assert_eq!(files.len(), 2);
    assert!(files[0].0.ends_with("20200202.as-org2info.jsonl.gz"));
    assert!(files[1].0.ends_with("20200303.as-org2info.jsonl.gz"));
}

#[test]
fn test_listing_duplicate_occurrences_kept() {
    // A listing that names one file twice in a line, as a link and its
    // text, yields one entry per occurrence.
    let listing = "<a href=\"20240102.as-org2info.jsonl.gz\">20240102.as-org2info.jsonl.gz</a>\n";
    let files = files_with_dates_from_listing(listing).unwrap();
    assert_eq!(files.len(), 2);
    assert_eq!(files[0].0, files[1].0);
    assert_eq!(files[0].1.num_value(), 20240102);
}

#[test]
fn test_listing_without_matches_is_empty() {
    let files = files_with_dates_from_listing("<html>nothing here</html>").unwrap();
    assert!(files.is_empty());
}

#[test]
fn test_listing_rejects_impossible_date() {
    let listing = "20241301.as-org2info.jsonl.gz\n";
    match files_with_dates_from_listing(listing) {
        Err(As2orgError::InvalidDate(name)) => {
            assert!(name.starts_with("20241301"));
        }
        _ => panic!("a thirteenth month is not a calendar date"),
    }
}

#[test]
fn test_listing_accepts_leap_day() {
    let ok = files_with_dates_from_listing("20240229.as-org2info.jsonl.gz\n").unwrap();
    assert_eq!(ok.len(), 1);
    assert_eq!(ok[0].1.year, 2024);
    assert_eq!(ok[0].1.month, 2);
    assert_eq!(ok[0].1.day, 29);
    match files_with_dates_from_listing("20230229.as-org2info.jsonl.gz\n") {
        Err(As2orgError::InvalidDate(_)) => {}
        _ => panic!("February has no twenty-ninth day outside leap years"),
    }
}

#[test]
fn test_latest_url_shape() {
    let url = as2org_rs::As2org::get_latest_file_url();
    assert_eq!(
        url,
        "https://publicdata.caida.org/datasets/as-organizations/latest.as-org2info.jsonl.gz"
    );
}
