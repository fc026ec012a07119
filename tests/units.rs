use femtoldap::acl::LDAPACL;
use femtoldap::attribute::LDAPAttribute;
use femtoldap::attributes::LDAPAttributes;
use femtoldap::config::{Config, DirectoryContents, ExtraProperties, LoginProperties, User};
use femtoldap::database::{dns_are_distinct, LDAPReadOnlyInMemoryDatabase};
use femtoldap::datatypes::CIString;
use femtoldap::dn::{DnErrorKind, LDAPDN};
use femtoldap::entry::LDAPEntry;
use femtoldap::filter::{Filter, SubstringFilter};
use femtoldap::server::{handle_request, BindCredentials, BindStatus, LDAPListenerType, Request, Response, ResultCode};
use femtoldap::traits::Mergeable;

fn dn(s: &str) -> LDAPDN {
    LDAPDN::from_str(s).unwrap()
}

fn entry(name: &str, attrs: &[(&str, &[u8])]) -> LDAPEntry {
    let mut a = LDAPAttributes::new();
    for (k, v) in attrs {
        a.add_value(k, v);
    }
    LDAPEntry::new(dn(name), a)
}

fn substring(name: &str, initial: Option<&str>, any: &[&str], fin: Option<&str>) -> Filter {
    Filter::Substring(
        name.to_string(),
        SubstringFilter {
            initial: initial.map(|s| s.to_string()),
            any: any.iter().map(|s| s.to_string()).collect(),
            final_: fin.map(|s| s.to_string()),
        },
    )
}

#[test]
fn dn_text_round_trip() {
    for s in ["dc=com", "cn=a=b,ou=x,dc=y", "uid=alice,ou=users,dc=example,dc=com"] {
        assert_eq!(dn(s).to_string(), s);
        assert_eq!(dn(s).to_wire_string(), s);
    }
    assert_eq!(LDAPDN::empty().to_string(), "<root DSE>");
    assert_eq!(LDAPDN::empty().to_wire_string(), "");
}

#[test]
fn dn_parse_skips_empty_pieces() {
    let d = dn(",a=b,,c=d,");
    assert_eq!(d.len(), 2);
    assert_eq!(d.0[1], ("c".to_string(), "d".to_string()));
}

#[test]
fn dn_parse_errors() {
    let e = LDAPDN::from_str("a=b,dc").unwrap_err();
    assert_eq!(e.kind, DnErrorKind::MissingSeparator);
    assert_eq!(e.component, "dc");
    assert_eq!(LDAPDN::from_str("=x").unwrap_err().kind, DnErrorKind::EmptyKey);
    assert_eq!(LDAPDN::from_str("dc=,=x").unwrap_err().kind, DnErrorKind::EmptyValue);
}

#[test]
fn dn_prefix_and_suffix_editing() {
    let mut d = dn("dc=com");
    d.add_prefix("dc", "example");
    d.add_suffix("o", "top");
    assert_eq!(d.to_string(), "dc=example,dc=com,o=top");
    assert_eq!(dn("dc=com").with_prefix("ou", "x").to_string(), "ou=x,dc=com");
    assert_eq!(d.trailing(2).to_string(), "dc=com,o=top");
}

#[test]
fn suffix_laws_on_examples() {
    let a = dn("cn=x,ou=y,dc=z");
    let b = dn("ou=y,dc=z");
    let c = dn("dc=z");
    assert!(a.matches_suffix(&a));
    assert!(a.matches_suffix(&b) && b.matches_suffix(&c) && a.matches_suffix(&c));
    assert!(a.matches_suffix(&LDAPDN::empty()));
    assert!(!c.matches_suffix(&a));
}

#[test]
fn dn_uuid_is_a_version_five_uuid() {
    let d = dn("dc=example,dc=com");
    let u = d.uuid();
    assert_eq!(u.len(), 36);
    assert_eq!(u.chars().nth(14), Some('5'));
    assert_ne!(u, d.to_string());
    assert_eq!(u, dn("dc=example,dc=com").uuid());
    assert_ne!(u, dn("dc=example,dc=org").uuid());
}

#[test]
fn cistring_folds_ascii() {
    let s = CIString::new("ObjectClass");
    assert_eq!(s.raw, "ObjectClass");
    assert_eq!(s.lower, "objectclass");
    assert!(CIString::new("UID") == CIString::new("uid"));
}

#[test]
fn attribute_lookup_ignores_case() {
    let mut a = LDAPAttributes::new();
    a.add_value("objectClass", b"top");
    a.add_value("OBJECTCLASS", b"person");
    a.add_value("objectclass", b"top");
    assert_eq!(a.len(), 1);
    let x = a.get_attribute(&CIString::new("oBJECTcLASS")).unwrap();
    assert_eq!(x.name, "objectClass");
    assert_eq!(x.values, vec![b"top".to_vec(), b"person".to_vec()]);
    assert!(a.has_attribute(&CIString::new("ObjectClass")));
    assert!(!a.has_attribute(&CIString::new("cn")));
}

#[test]
fn add_value_if_absent_and_passwords() {
    let mut a = LDAPAttributes::new();
    a.add_value_if_absent("userPassword", b"pw");
    a.add_value_if_absent("userPassword", b"pw");
    a.add_value_if_absent("userPassword", b"other");
    assert_eq!(a.get_attribute(&CIString::new("userpassword")).unwrap().values.len(), 2);
    assert!(a.check_password("pw"));
    assert!(a.check_password("other"));
    assert!(!a.check_password("PW"));
}

#[test]
fn tidy_drops_attributes_without_values() {
    let mut a = LDAPAttributes::new();
    a.add_attribute(LDAPAttribute::new_multiple("empty", vec![]));
    a.add_value("cn", b"x");
    assert_eq!(a.len(), 2);
    a.tidy();
    assert_eq!(a.len(), 1);
    assert!(a.iter()[0].name == "cn");
}

#[test]
fn acl_denial_only_narrows() {
    let mut acl = LDAPACL::new();
    acl.can_access_suffixes.push(dn("dc=example,dc=com"));
    let me = dn("uid=app,ou=apps,dc=example,dc=com");
    let other_app = dn("uid=x,ou=apps,dc=example,dc=com");
    let person = dn("uid=p,ou=users,dc=example,dc=com");
    assert!(acl.allows(&me, &other_app));
    assert!(acl.allows(&me, &person));
    acl.cant_access_suffixes.push(dn("ou=apps,dc=example,dc=com"));
    assert!(!acl.allows(&me, &other_app));
    assert!(acl.allows(&me, &person));
    assert!(!acl.allows(&me, &dn("dc=org")));
    acl.can_access_self = true;
    assert!(acl.allows(&me, &me));
}

#[test]
fn filter_evaluation() {
    let e = entry("uid=a,dc=x", &[("mail", b"alice@example.com"), ("cn", b"Alice")]);
    assert!(e.matches_filter(&Filter::And(vec![])));
    assert!(!e.matches_filter(&Filter::Or(vec![])));
    assert!(e.matches_filter(&Filter::Equality("MAIL".to_string(), "alice@example.com".to_string())));
    assert!(!e.matches_filter(&Filter::Equality("mail".to_string(), "ALICE@example.com".to_string())));
    assert!(e.matches_filter(&Filter::Not(Box::new(Filter::Present("sn".to_string())))));
    assert!(!e.matches_filter(&Filter::Unsupported));
    assert!(e.matches_filter(&substring("mail", None, &["@ex"], Some(".com"))));
    assert!(!e.matches_filter(&substring("mail", Some("bob"), &[], None)));
}

#[test]
fn substring_fragments_are_literal() {
    let e = entry("uid=a,dc=x", &[("cn", b"abc"), ("sn", b"a.c")]);
    assert!(!e.matches_filter(&substring("cn", Some("a.c"), &[], None)));
    assert!(e.matches_filter(&substring("sn", Some("a.c"), &[], None)));
    assert!(e.matches_filter(&substring("sn", None, &["."], None)));
}

#[test]
fn substring_reads_invalid_utf8_leniently() {
    let e = entry("uid=a,dc=x", &[("cn", &[0xff, b'a', b'l', b'i'])]);
    assert!(e.matches_filter(&substring("cn", None, &["ali"], None)));
    assert!(!e.matches_filter(&substring("cn", Some("ali"), &[], None)));
}

fn sample_db() -> LDAPReadOnlyInMemoryDatabase {
    let mut pw = entry("uid=alice,ou=users,dc=example,dc=com", &[("uid", b"alice"), ("userPassword", b"s3cret"), ("objectClass", b"person")]);
    pw.acls.can_access_self = true;
    let nopw = entry("uid=bob,ou=users,dc=example,dc=com", &[("uid", b"bob"), ("objectClass", b"person"), ("description", b"builder")]);
    let mut noacl = entry("uid=carol,ou=users,dc=example,dc=com", &[("uid", b"carol"), ("userPassword", b"x")]);
    noacl.acls.can_access_self = false;
    let group = entry("cn=staff,ou=groups,dc=example,dc=com", &[("cn", b"staff"), ("objectClass", b"groupOfUniqueNames")]);
    let entries = vec![LDAPEntry::new(LDAPDN::empty(), LDAPAttributes::new()), pw, nopw, noacl, group];
    assert!(dns_are_distinct(&entries));
    LDAPReadOnlyInMemoryDatabase::from_entries(entries)
}

fn names(db: &LDAPReadOnlyInMemoryDatabase, found: &[usize]) -> Vec<String> {
    found.iter().map(|i| db.entry(*i).dn.to_string()).collect()
}

#[test]
fn bind_needs_scope_and_password() {
    let db = sample_db();
    assert!(db.do_bind(&dn("uid=alice,ou=users,dc=example,dc=com"), "s3cret").is_some());
    assert!(db.do_bind(&dn("uid=alice,ou=users,dc=example,dc=com"), "nope").is_none());
    assert!(db.do_bind(&dn("uid=bob,ou=users,dc=example,dc=com"), "").is_none());
    assert!(db.do_bind(&dn("uid=carol,ou=users,dc=example,dc=com"), "x").is_none());
    assert!(db.do_bind(&dn("uid=dave,ou=users,dc=example,dc=com"), "x").is_none());
}

#[test]
fn search_below_a_name_matches_filter_scan() {
    let db = sample_db();
    let base = dn("dc=example,dc=com");
    let filters = vec![
        Filter::Equality("uid".to_string(), "bob".to_string()),
        Filter::Equality("description".to_string(), "builder".to_string()),
        Filter::Present("objectclass".to_string()),
        Filter::Present("userPassword".to_string()),
        Filter::Not(Box::new(Filter::Present("userPassword".to_string()))),
        Filter::Or(vec![Filter::Equality("uid".to_string(), "alice".to_string()), Filter::Equality("cn".to_string(), "staff".to_string())]),
        Filter::And(vec![Filter::Present("uid".to_string()), Filter::Present("objectClass".to_string())]),
        substring("uid", Some("c"), &[], None),
    ];
    for f in &filters {
        let found = db.search(&base, f);
        let mut expected = vec![];
        for i in 0..db.len() {
            let e = db.entry(i);
            if e.dn.matches_suffix(&base) && e.dn != base && e.matches_filter(f) {
                expected.push(i);
            }
        }
        assert_eq!(found, expected, "{f:?}");
    }
    assert_eq!(names(&db, &db.search(&base, &Filter::Equality("uid".to_string(), "bob".to_string()))), vec!["uid=bob,ou=users,dc=example,dc=com"]);
}

#[test]
fn search_special_cases() {
    let db = sample_db();
    // an empty conjunction selects nothing below a name
    assert!(db.search(&dn("dc=example,dc=com"), &Filter::And(vec![])).is_empty());
    // a base naming an entry answers that entry alone
    assert_eq!(db.search(&dn("uid=bob,ou=users,dc=example,dc=com"), &Filter::Present("uid".to_string())), vec![2]);
    // the root DSE is an entry too
    assert_eq!(db.search(&LDAPDN::empty(), &Filter::Present("uid".to_string())), Vec::<usize>::new());
    assert_eq!(db.search(&LDAPDN::empty(), &Filter::And(vec![])), vec![0]);
    // nothing lies below an unknown name
    assert!(db.search(&dn("dc=org"), &Filter::Present("uid".to_string())).is_empty());
    assert!(db.search(&dn("ou=users,dc=example,dc=com"), &Filter::Unsupported).is_empty());
}

#[test]
fn duplicate_names_are_detected() {
    let entries = vec![entry("dc=a", &[]), entry("dc=a", &[])];
    assert!(!dns_are_distinct(&entries));
}

#[test]
fn protocol_edge_cases() {
    let db = sample_db();
    let mut status = BindStatus::Anonymous;
    let r = handle_request(&db, &mut status, &Request::Bind { dn: "uid=alice,ou=users,dc=example,dc=com".to_string(), credentials: BindCredentials::Sasl });
    assert!(matches!(&r[0], Response::BindResponse { code: ResultCode::InvalidCredentials, message, .. } if message == "SASL bind not supported"));
    let r = handle_request(&db, &mut status, &Request::Bind { dn: "nonsense".to_string(), credentials: BindCredentials::Simple("x".to_string()) });
    assert!(matches!(&r[0], Response::BindResponse { code: ResultCode::InvalidCredentials, message, .. } if message == "Malformed DN"));
    let r = handle_request(&db, &mut status, &Request::Bind { dn: "uid=alice,ou=users,dc=example,dc=com".to_string(), credentials: BindCredentials::Simple("s3cret".to_string()) });
    assert!(matches!(&r[0], Response::BindResponse { code: ResultCode::Success, .. }));
    let r = handle_request(&db, &mut status, &Request::Search { base: "bad".to_string(), filter: Filter::Unsupported, attrs: vec![] });
    assert!(matches!(&r[0], Response::SearchResultDone { code: ResultCode::NoSuchObject, .. }));
    let r = handle_request(&db, &mut status, &Request::Search {
        base: "uid=alice,ou=users,dc=example,dc=com".to_string(),
        filter: Filter::Present("uid".to_string()),
        attrs: vec!["uid".to_string(), "UserPassword".to_string()],
    });
    match &r[0] {
        Response::SearchResultEntry { attributes, .. } => {
            assert_eq!(attributes.len(), 1);
            assert_eq!(attributes[0].name, "uid");
        },
        other => panic!("unexpected {other:?}"),
    }
    assert!(handle_request(&db, &mut status, &Request::Other).is_empty());
    assert!(handle_request(&db, &mut status, &Request::Unbind).is_empty());
    assert!(matches!(status, BindStatus::Anonymous));
}

fn bare_user(uid: Option<&str>) -> User {
    User {
        auth: LoginProperties { password: None },
        extra_properties: ExtraProperties { uuid: None, extra_attributes: vec![], extra_object_classes: vec![] },
        uid: uid.map(|s| s.to_string()),
        name: vec![],
        surname: vec![],
        display_name: None,
        initials: None,
        preferred_language: None,
        mobile_number: vec![],
        telephone_number: vec![],
        mail: None,
        ssh_public_key: vec![],
        login_shell: None,
        home_directory: None,
        uid_number: None,
        gid_number: None,
        group_names: vec![],
        mail_aliases: vec![],
    }
}

#[test]
fn scalar_and_list_merges() {
    let mut s = String::new();
    s.merge("b".to_string());
    assert_eq!(s, "b");
    s.merge("c".to_string());
    assert_eq!(s, "b");
    let mut b = false;
    b.merge(true);
    assert!(b);
    let mut o: Option<String> = Some("x".to_string());
    o.merge(Some("y".to_string()));
    assert_eq!(o.as_deref(), Some("x"));
    let mut v = vec!["a".to_string(), "b".to_string()];
    v.merge(vec!["b".to_string(), "c".to_string(), "c".to_string()]);
    assert_eq!(v, vec!["a", "b", "c"]);
}

#[test]
fn config_merge_by_name() {
    let mut first = bare_user(Some("alice"));
    first.mail = Some("alice@example.com".to_string());
    let mut second = bare_user(Some("alice"));
    second.mail = Some("other@example.com".to_string());
    second.login_shell = Some("/bin/sh".to_string());
    let mut a = Config { base_dn: LDAPDN::empty(), data: DirectoryContents { apps: vec![], groups: vec![], mail_aliases: vec![], users: vec![first] } };
    let b = Config {
        base_dn: dn("dc=example,dc=com"),
        data: DirectoryContents { apps: vec![], groups: vec![], mail_aliases: vec![], users: vec![second, bare_user(Some("bob")), bare_user(None)] },
    };
    a.merge(b);
    assert_eq!(a.base_dn.to_string(), "dc=example,dc=com");
    assert_eq!(a.data.users.len(), 2);
    assert_eq!(a.data.users[0].mail.as_deref(), Some("alice@example.com"));
    assert_eq!(a.data.users[0].login_shell.as_deref(), Some("/bin/sh"));
    assert_eq!(a.data.users[1].uid.as_deref(), Some("bob"));
}

#[test]
fn extra_properties_merge_by_attribute_name() {
    let mut a = ExtraProperties { uuid: None, extra_attributes: vec![("x".to_string(), vec!["1".to_string()])], extra_object_classes: vec![] };
    let b = ExtraProperties {
        uuid: Some("u".to_string()),
        extra_attributes: vec![("x".to_string(), vec!["1".to_string(), "2".to_string()]), ("y".to_string(), vec!["3".to_string()])],
        extra_object_classes: vec!["c".to_string()],
    };
    a.merge(b);
    assert_eq!(a.extra_attributes, vec![("x".to_string(), vec!["1".to_string(), "2".to_string()]), ("y".to_string(), vec!["3".to_string()])]);
    assert_eq!(a.extra_object_classes, vec!["c"]);
    assert_eq!(a.uuid.as_deref(), Some("u"));
}

#[test]
fn listener_protocol_names() {
    assert_eq!(LDAPListenerType::Plain.protocol_name(), "LDAP");
    let tls = LDAPListenerType::Tls { cert_path: "cert.pem".to_string(), key_path: "key.pem".to_string() };
    assert_eq!(tls.protocol_name(), "LDAPS");
}

#[test]
fn unbind_forgets_identity() {
    let mut status = BindStatus::Bound(entry("uid=a,dc=x", &[]));
    status.unbind();
    assert!(matches!(status, BindStatus::Anonymous));
}

#[test]
fn empty_password_attribute_cannot_bind() {
    let mut attrs = LDAPAttributes::new();
    attrs.add_attribute(LDAPAttribute::new_multiple("userPassword", vec![]));
    let mut e = LDAPEntry::new(dn("uid=z,dc=x"), attrs);
    e.acls.can_access_self = true;
    assert!(!e.can_perform_bind());
    e.attributes.add_value("userPassword", b"pw");
    assert!(e.can_perform_bind());
}

#[test]
fn user_merge_appends_groups_and_aliases() {
    let mut a = bare_user(Some("alice"));
    a.group_names = vec!["staff".to_string()];
    let mut b = bare_user(Some("alice"));
    b.group_names = vec!["staff".to_string(), "admins".to_string()];
    b.mail_aliases = vec!["root@example.com".to_string()];
    a.merge(b);
    assert_eq!(a.group_names, vec!["staff", "admins"]);
    assert_eq!(a.mail_aliases, vec!["root@example.com"]);
}
