use femtoldap::dn::LDAPDN;

fn pair(k: &str, v: &str) -> (String, String) {
    (k.to_string(), v.to_string())
}

#[test]
fn test_ldap_dn_parsing() {
    // empty
    assert_eq!(LDAPDN::from_str("").unwrap(), LDAPDN::empty());

    // single element
    let dn = LDAPDN::from_str("dc=com").unwrap();
    assert_eq!(dn.0[0], pair("dc", "com"));

    // double element
    let dn = LDAPDN::from_str("dc=example,dc=com").unwrap();
    assert_eq!(dn.0[0], pair("dc", "example"));
    assert_eq!(dn.0[1], pair("dc", "com"));

    // triple element
    let dn = LDAPDN::from_str("dc=test,dc=example,dc=com").unwrap();
    assert_eq!(dn.0[0], pair("dc", "test"));
    assert_eq!(dn.0[1], pair("dc", "example"));
    assert_eq!(dn.0[2], pair("dc", "com"));
}

#[test]
fn test_ldap_dn_suffix() {
    let p = |s: &str| LDAPDN::from_str(s).unwrap();
    assert!(p("").matches_suffix(&p("")));
    assert!(p("dc=com").matches_suffix(&p("")));
    assert!(p("dc=example,dc=com").matches_suffix(&p("dc=com")));
    assert!(!p("dc=example,dc=com").matches_suffix(&p("dc=org")));
    assert!(p("cn=test,ou=test,dc=example,dc=com").matches_suffix(&p("dc=example,dc=com")));
    assert!(p("cn=test,ou=test,dc=example,dc=com").matches_suffix(&p("ou=test,dc=example,dc=com")));
    assert!(!p("cn=test,ou=test,dc=example,dc=com").matches_suffix(&p("ou=test,dc=else,dc=com")));
    assert!(!p("dc=example,dc=com").matches_suffix(&p("cn=test,ou=test,dc=example,dc=com")));
}
