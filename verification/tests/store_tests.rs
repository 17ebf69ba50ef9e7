use recon::filter::Filter;
use recon::store::{Database, NewSubdomain, Object, StoreError};

#[test]
fn insert_then_find_domain() {
    let mut db = Database::establish("scope");
    db.insert_domain("example.com").unwrap();
    assert_eq!(db.domain("example.com"), Ok(1));
    assert_eq!(db.domain_optional("example.com"), Ok(Some(1)));
    assert_eq!(db.domain_optional("missing.com"), Ok(None));
    assert_eq!(db.domain("missing.com"), Err(StoreError::NotFound));
}

#[test]
fn duplicate_domain_is_refused() {
    let mut db = Database::establish("scope");
    db.insert_domain("example.com").unwrap();
    assert_eq!(db.insert_domain("example.com"), Err(StoreError::Duplicate));
    assert_eq!(db.list_domains().unwrap().len(), 1);
}

#[test]
fn idempotent_subdomain() {
    let mut db = Database::establish("scope");
    assert_eq!(db.insert_subdomain("www.example.com", "example.com"), Ok((true, 1)));
    assert_eq!(db.insert_subdomain("www.example.com", "example.com"), Ok((false, 1)));
    assert_eq!(db.list_subdomains().unwrap().len(), 1);
    // the parent was created on the way
    assert_eq!(db.domain("example.com"), Ok(1));
}

#[test]
fn link_resolution() {
    let mut db = Database::establish("scope");
    db.insert_subdomain("www.example.com", "example.com").unwrap();
    assert_eq!(db.insert_ipaddr("4", "1.2.3.4"), Ok((true, 1)));
    assert_eq!(db.insert_subdomain_ipaddr(1, 1), Ok((true, 1)));
    assert_eq!(db.insert_subdomain_ipaddr(1, 1), Ok((false, 1)));
    assert_eq!(db.subdomain_ipaddr(1, 1), Ok(1));
    assert_eq!(db.subdomain_ipaddr_optional(1, 2), Ok(None));
}

#[test]
fn idempotent_ipaddr() {
    let mut db = Database::establish("scope");
    assert_eq!(db.insert_ipaddr("4", "1.2.3.4"), Ok((true, 1)));
    assert_eq!(db.insert_ipaddr("4", "1.2.3.4"), Ok((false, 1)));
    assert_eq!(db.insert_ipaddr("6", "::1"), Ok((true, 2)));
    assert_eq!(db.ipaddr("::1"), Ok(2));
    assert_eq!(db.ipaddr_optional("8.8.8.8"), Ok(None));
    assert_eq!(db.ipaddr("8.8.8.8"), Err(StoreError::NotFound));
    assert_eq!(db.list_ipaddrs().unwrap().len(), 2);
}

#[test]
fn foreign_keys_are_checked() {
    let mut db = Database::establish("scope");
    let r = db.insert_subdomain_struct(&NewSubdomain {
        domain_id: 7,
        value: "a.example.com".to_string(),
    });
    assert_eq!(r, Err(StoreError::ForeignKey));
    assert_eq!(db.insert_subdomain_ipaddr(1, 1), Err(StoreError::ForeignKey));
}

// Uniqueness: after a mixed sequence of inserts no table holds a
// unique-key value twice.
#[test]
fn uniqueness_after_sequence() {
    let mut db = Database::establish("scope");
    db.insert_subdomain("www.example.com", "example.com").unwrap();
    db.insert_subdomain("mail.example.com", "example.com").unwrap();
    db.insert_subdomain("www.example.com", "example.com").unwrap();
    db.insert_ipaddr("4", "1.2.3.4").unwrap();
    db.insert_ipaddr("4", "1.2.3.4").unwrap();
    db.insert_subdomain_ipaddr(1, 1).unwrap();
    db.insert_subdomain_ipaddr(1, 1).unwrap();
    let domains = db.list_domains().unwrap();
    assert_eq!(domains.len(), 1);
    let subs = db.list_subdomains().unwrap();
    assert_eq!(subs.len(), 2);
    assert_ne!(subs[0].value, subs[1].value);
    assert_eq!(db.list_ipaddrs().unwrap().len(), 1);
}

// Parental existence: every subdomain's domain_id names a real domain.
#[test]
fn parental_existence_after_inserts() {
    let mut db = Database::establish("scope");
    db.insert_subdomain("www.example.com", "example.com").unwrap();
    db.insert_subdomain("www.example.org", "example.org").unwrap();
    let domains = db.list_domains().unwrap();
    for sub in db.list_subdomains().unwrap() {
        assert!(domains.iter().any(|d| d.id == sub.domain_id));
    }
}

#[test]
fn insert_generic_dispatches() {
    let mut db = Database::establish("scope");
    db.insert_domain("example.com").unwrap();
    let r = db.insert_generic(&Object::Subdomain {
        domain_id: 1,
        value: "a.example.com".to_string(),
    });
    assert_eq!(r, Ok((true, 1)));
    let r = db.insert_generic(&Object::IpAddr {
        family: "4".to_string(),
        value: "1.2.3.4".to_string(),
    });
    assert_eq!(r, Ok((true, 1)));
    let r = db.insert_generic(&Object::SubdomainIpAddr { subdomain_id: 1, ip_addr_id: 1 });
    assert_eq!(r, Ok((true, 1)));
    let r = db.insert_generic(&Object::SubdomainIpAddr { subdomain_id: 1, ip_addr_id: 1 });
    assert_eq!(r, Ok((false, 1)));
}

#[test]
fn filter_scan_match_all() {
    let mut db = Database::establish("scope");
    db.insert_domain("example.com").unwrap();
    db.insert_domain("example.org").unwrap();
    let all = db.filter_domains(&Filter::parse(&vec![]).unwrap()).unwrap();
    assert_eq!(all.len(), 2);
}

#[test]
fn filter_scan_single_comparison() {
    let mut db = Database::establish("scope");
    db.insert_domain("example.com").unwrap();
    db.insert_domain("example.org").unwrap();
    let f = Filter::parse(&vec!["where".to_string(), "value=example.org".to_string()]).unwrap();
    let hits = db.filter_domains(&f).unwrap();
    assert_eq!(hits.len(), 1);
    assert_eq!(hits[0].id, 2);
    let f = Filter::parse(&vec!["where".to_string(), "id=1".to_string()]).unwrap();
    let hits = db.filter_domains(&f).unwrap();
    assert_eq!(hits.len(), 1);
    assert_eq!(hits[0].value, "example.com");
}

#[test]
fn filter_scan_subdomains_and_ipaddrs() {
    let mut db = Database::establish("scope");
    db.insert_subdomain("www.example.com", "example.com").unwrap();
    db.insert_subdomain("mail.example.com", "example.com").unwrap();
    db.insert_ipaddr("4", "1.2.3.4").unwrap();
    db.insert_ipaddr("6", "::1").unwrap();
    let f = Filter::parse(&vec!["where".to_string(), "domain_id=1".to_string()]).unwrap();
    assert_eq!(db.filter_subdomains(&f).unwrap().len(), 2);
    let f = Filter::parse(&vec!["where".to_string(), "family=6".to_string()]).unwrap();
    let hits = db.filter_ipaddrs(&f).unwrap();
    assert_eq!(hits.len(), 1);
    assert_eq!(hits[0].value, "::1");
}

#[test]
fn filter_scan_like_patterns() {
    let mut db = Database::establish("scope");
    db.insert_domain("example.com").unwrap();
    db.insert_domain("example.org").unwrap();
    db.insert_domain("sample.net").unwrap();
    let f = Filter::parse(&vec![
        "where".to_string(),
        "value".to_string(),
        "like".to_string(),
        "%example%".to_string(),
    ])
    .unwrap();
    let hits = db.filter_domains(&f).unwrap();
    assert_eq!(hits.len(), 2);
    let f = Filter::parse(&vec![
        "where".to_string(),
        "value".to_string(),
        "like".to_string(),
        "sample.ne_".to_string(),
    ])
    .unwrap();
    let hits = db.filter_domains(&f).unwrap();
    assert_eq!(hits.len(), 1);
    assert_eq!(hits[0].value, "sample.net");
    // SQL LIKE compares ASCII letters case-insensitively
    let f = Filter::parse(&vec![
        "where".to_string(),
        "value".to_string(),
        "like".to_string(),
        "SAMPLE.NET".to_string(),
    ])
    .unwrap();
    assert_eq!(db.filter_domains(&f).unwrap().len(), 1);
}

#[test]
fn filter_scan_not_equal_and_conjunction() {
    let mut db = Database::establish("scope");
    db.insert_subdomain("www.example.com", "example.com").unwrap();
    db.insert_subdomain("mail.example.com", "example.com").unwrap();
    db.insert_subdomain("www.example.org", "example.org").unwrap();
    // a token holding `=` always splits as key=value, so a `!=`
    // comparison is written as a predicate directly
    let f = Filter::new(" domain_id = \"1\" and value != \"www.example.com\"");
    let hits = db.filter_subdomains(&f).unwrap();
    assert_eq!(hits.len(), 1);
    assert_eq!(hits[0].value, "mail.example.com");
    let f = Filter::parse(&vec![
        "where".to_string(),
        "value".to_string(),
        "like".to_string(),
        "www.%".to_string(),
        "and".to_string(),
        "domain_id=2".to_string(),
    ])
    .unwrap();
    let hits = db.filter_subdomains(&f).unwrap();
    assert_eq!(hits.len(), 1);
    assert_eq!(hits[0].value, "www.example.org");
}

#[test]
fn filter_scan_refuses_unknown_fragments() {
    let mut db = Database::establish("scope");
    db.insert_domain("example.com").unwrap();
    // a column no domain row has
    let f = Filter::parse(&vec!["where".to_string(), "colour=red".to_string()]).unwrap();
    assert_eq!(db.filter_domains(&f).unwrap_err(), StoreError::BadFilter);
    // a fragment that is not a comparison at all
    let f = Filter::parse(&vec!["where".to_string(), "value".to_string()]).unwrap();
    assert_eq!(db.filter_domains(&f).unwrap_err(), StoreError::BadFilter);
    // a connector the scan does not interpret
    let f = Filter::parse(&vec![
        "where".to_string(),
        "id=1".to_string(),
        "or".to_string(),
        "id=2".to_string(),
    ])
    .unwrap();
    assert_eq!(db.filter_domains(&f).unwrap_err(), StoreError::BadFilter);
}

#[test]
fn filter_scan_two_equalities() {
    let mut db = Database::establish("scope");
    db.insert_domain("example.com").unwrap();
    let f = Filter::new(" id = \"1\" and id = \"1\"");
    let hits = db.filter_domains(&f).unwrap();
    assert_eq!(hits.len(), 1);
    let f = Filter::new(" id = \"1\"");
    assert_eq!(db.filter_domains(&f).unwrap().len(), 1);
}
