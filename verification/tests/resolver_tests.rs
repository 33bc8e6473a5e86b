use autoeq2camilladsp::directory::{filter_link_list, pick_url, resolve, Link, Resolution};

fn catalog() -> Vec<Link> {
    vec![
        Link::new(b"sony wh-1000xm4".to_vec(), b"L1".to_vec()),
        Link::new(b"sony mdr-7506".to_vec(), b"L2".to_vec()),
        Link::new(b"beyerdynamic dt770".to_vec(), b"L3".to_vec()),
    ]
}

#[test]
fn narrowing_by_two_tokens() {
    match resolve(&catalog(), b"sony 1000") {
        Resolution::Suggestions { names } => {
            assert_eq!(names, vec![b"sony wh-1000xm4".to_vec()]);
        }
        other => panic!("expected suggestions, got {:?}", other),
    }
}

#[test]
fn narrowing_by_one_token_keeps_both() {
    match resolve(&catalog(), b"sony") {
        Resolution::Suggestions { names } => {
            assert_eq!(
                names,
                vec![b"sony wh-1000xm4".to_vec(), b"sony mdr-7506".to_vec()]
            );
        }
        other => panic!("expected suggestions, got {:?}", other),
    }
}

#[test]
fn unknown_vendor_is_not_found() {
    assert_eq!(resolve(&catalog(), b"akg"), Resolution::NotFound);
}

#[test]
fn exact_name_wins() {
    match resolve(&catalog(), b"sony mdr-7506") {
        Resolution::Exact { name, url } => {
            assert_eq!(name, b"sony mdr-7506".to_vec());
            assert_eq!(url, b"L2".to_vec());
        }
        other => panic!("expected an exact hit, got {:?}", other),
    }
}

#[test]
fn query_is_trimmed_and_lower_cased() {
    match resolve(&catalog(), b"  SONY MDR-7506  ") {
        Resolution::Exact { url, .. } => assert_eq!(url, b"L2".to_vec()),
        other => panic!("expected an exact hit, got {:?}", other),
    }
}

#[test]
fn narrowing_is_case_insensitive() {
    match resolve(&catalog(), b"SONY 1000") {
        Resolution::Suggestions { names } => {
            assert_eq!(names, vec![b"sony wh-1000xm4".to_vec()]);
        }
        other => panic!("expected suggestions, got {:?}", other),
    }
}

#[test]
fn resolution_is_deterministic() {
    assert_eq!(resolve(&catalog(), b"sony"), resolve(&catalog(), b"sony"));
}

#[test]
fn exact_lookup_keeps_the_query_spelling() {
    let hit = filter_link_list(&catalog(), b"Sony MDR-7506").unwrap();
    assert_eq!(hit.name, b"Sony MDR-7506".to_vec());
    assert_eq!(hit.url, b"L2".to_vec());
}

#[test]
fn exact_lookup_misses_on_partial_names() {
    assert!(filter_link_list(&catalog(), b"sony").is_none());
}

#[test]
fn pick_url_takes_first_substring_match() {
    let hit = pick_url(&catalog(), b"sony").unwrap();
    assert_eq!(hit.name, b"sony wh-1000xm4".to_vec());
    assert_eq!(hit.url, b"L1".to_vec());
}

#[test]
fn pick_url_misses_when_nothing_contains_query() {
    assert!(pick_url(&catalog(), b"akg").is_none());
}
