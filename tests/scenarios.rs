use femtoldap::config::{AppAccount, Config, DirectoryContents, ExtraProperties, Group, LoginProperties, User};
use femtoldap::database::LDAPReadOnlyInMemoryDatabase;
use femtoldap::dn::LDAPDN;
use femtoldap::filter::{Filter, SubstringFilter};
use femtoldap::server::{handle_request, BindCredentials, BindStatus, Request, Response, ResultCode};

fn no_extra() -> ExtraProperties {
    ExtraProperties { uuid: None, extra_attributes: vec![], extra_object_classes: vec![] }
}

fn user(uid: &str, password: &str, name: &str, surname: &str, groups: &[&str], mail: &str) -> User {
    User {
        auth: LoginProperties { password: Some(password.to_string()) },
        extra_properties: no_extra(),
        uid: Some(uid.to_string()),
        name: vec![name.to_string()],
        surname: vec![surname.to_string()],
        display_name: None,
        initials: None,
        preferred_language: None,
        mobile_number: vec![],
        telephone_number: vec![],
        mail: Some(mail.to_string()),
        ssh_public_key: vec![],
        login_shell: None,
        home_directory: None,
        uid_number: None,
        gid_number: None,
        group_names: groups.iter().map(|g| g.to_string()).collect(),
        mail_aliases: vec![],
    }
}

fn group(name: &str) -> Group {
    Group { description: None, extra_properties: no_extra(), name: Some(name.to_string()) }
}

fn app(uid: &str, password: &str) -> AppAccount {
    AppAccount {
        auth: LoginProperties { password: Some(password.to_string()) },
        description: None,
        extra_properties: no_extra(),
        uid: Some(uid.to_string()),
    }
}

fn config(with_bob: bool) -> Config {
    let mut users = vec![user("alice", "s3cret", "Alice", "Liddell", &["staff"], "alice@example.com")];
    if with_bob {
        users.push(user("bob", "hunter2", "Bob", "Builder", &["staff"], "bob@example.com"));
    }
    Config {
        base_dn: LDAPDN::from_str("dc=example,dc=com").unwrap(),
        data: DirectoryContents { apps: vec![app("portal", "p0rtal")], groups: vec![group("staff")], mail_aliases: vec![], users },
    }
}

fn database(c: &Config) -> LDAPReadOnlyInMemoryDatabase {
    let entries = c.assemble_entries();
    assert!(femtoldap::database::dns_are_distinct(&entries));
    LDAPReadOnlyInMemoryDatabase::from_entries(entries)
}

fn bind(dn: &str, password: &str) -> Request {
    Request::Bind { dn: dn.to_string(), credentials: BindCredentials::Simple(password.to_string()) }
}

fn search(base: &str, filter: Filter) -> Request {
    Request::Search { base: base.to_string(), filter, attrs: vec![] }
}

fn present(name: &str) -> Filter {
    Filter::Present(name.to_string())
}

fn bind_code(responses: &[Response]) -> ResultCode {
    assert_eq!(responses.len(), 1);
    match &responses[0] {
        Response::BindResponse { code, .. } => *code,
        other => panic!("unexpected response {other:?}"),
    }
}

fn done_code(responses: &[Response]) -> ResultCode {
    match responses.last() {
        Some(Response::SearchResultDone { code, .. }) => *code,
        other => panic!("unexpected response {other:?}"),
    }
}

fn found_dns(responses: &[Response]) -> Vec<String> {
    responses
        .iter()
        .filter_map(|r| match r {
            Response::SearchResultEntry { dn, .. } => Some(dn.clone()),
            _ => None,
        })
        .collect()
}

fn values_of(responses: &[Response], dn: &str, name: &str) -> Vec<String> {
    for r in responses {
        if let Response::SearchResultEntry { dn: d, attributes } = r {
            if d == dn {
                for a in attributes {
                    if a.name == name {
                        return a.values.iter().map(|v| String::from_utf8_lossy(v).into_owned()).collect();
                    }
                }
            }
        }
    }
    vec![]
}

const ALICE: &str = "uid=alice,ou=users,dc=example,dc=com";
const PORTAL: &str = "uid=portal,ou=apps,dc=example,dc=com";

#[test]
fn bind_success_and_wrong_password() {
    let db = database(&config(false));
    let mut status = BindStatus::Anonymous;
    let r = handle_request(&db, &mut status, &bind(ALICE, "s3cret"));
    assert_eq!(bind_code(&r), ResultCode::Success);
    match &status {
        BindStatus::Bound(e) => assert_eq!(e.dn.to_string(), ALICE),
        BindStatus::Anonymous => panic!("not bound"),
    }
    let mut other = BindStatus::Anonymous;
    let r = handle_request(&db, &mut other, &bind(ALICE, "wrong"));
    assert_eq!(bind_code(&r), ResultCode::InvalidCredentials);
    assert!(matches!(other, BindStatus::Anonymous));
}

#[test]
fn root_dse_search_anonymous() {
    let db = database(&config(false));
    let mut status = BindStatus::Anonymous;
    let r = handle_request(&db, &mut status, &search("", present("objectClass")));
    assert_eq!(found_dns(&r), vec!["".to_string()]);
    assert_eq!(values_of(&r, "", "vendorName"), vec!["femtoldap".to_string()]);
    assert_eq!(values_of(&r, "", "supportedLDAPVersion"), vec!["3".to_string()]);
    assert_eq!(r.len(), 2);
    assert_eq!(done_code(&r), ResultCode::Success);
}

#[test]
fn anonymous_search_below_base_is_refused() {
    let db = database(&config(false));
    let mut status = BindStatus::Anonymous;
    let r = handle_request(&db, &mut status, &search("ou=users,dc=example,dc=com", present("uid")));
    assert_eq!(r.len(), 1);
    assert_eq!(done_code(&r), ResultCode::InappropriateAuthentication);
}

#[test]
fn root_dse_search_bound_shows_vendor() {
    let db = database(&config(false));
    let mut status = BindStatus::Anonymous;
    handle_request(&db, &mut status, &bind(ALICE, "s3cret"));
    let r = handle_request(&db, &mut status, &search("", present("objectClass")));
    assert_eq!(found_dns(&r), vec!["".to_string()]);
    assert_eq!(values_of(&r, "", "vendorName"), vec!["femtoldap".to_string()]);
    assert_eq!(values_of(&r, "", "supportedLDAPVersion"), vec!["3".to_string()]);
    assert_eq!(done_code(&r), ResultCode::Success);
}

#[test]
fn self_search_after_bind() {
    let db = database(&config(false));
    let mut status = BindStatus::Anonymous;
    handle_request(&db, &mut status, &bind(ALICE, "s3cret"));
    let r = handle_request(&db, &mut status, &search(ALICE, present("objectClass")));
    assert_eq!(found_dns(&r), vec![ALICE.to_string()]);
    assert!(values_of(&r, ALICE, "memberOf").contains(&"cn=staff,ou=groups,dc=example,dc=com".to_string()));
    assert_eq!(values_of(&r, ALICE, "displayName"), vec!["Alice Liddell".to_string()]);
    assert_eq!(values_of(&r, ALICE, "homeDirectory"), vec!["/home/alice".to_string()]);
    assert_eq!(done_code(&r), ResultCode::Success);
}

#[test]
fn group_enumeration_needs_bind() {
    let db = database(&config(false));
    let query = || search("ou=groups,dc=example,dc=com", Filter::Equality("objectClass".to_string(), "groupOfUniqueNames".to_string()));
    let mut anonymous = BindStatus::Anonymous;
    let r = handle_request(&db, &mut anonymous, &query());
    assert_eq!(r.len(), 1);
    assert_eq!(done_code(&r), ResultCode::InappropriateAuthentication);

    let mut status = BindStatus::Anonymous;
    assert_eq!(bind_code(&handle_request(&db, &mut status, &bind(PORTAL, "p0rtal"))), ResultCode::Success);
    let r = handle_request(&db, &mut status, &query());
    let staff = "cn=staff,ou=groups,dc=example,dc=com";
    assert_eq!(found_dns(&r), vec![staff.to_string()]);
    assert!(values_of(&r, staff, "uniqueMember").contains(&ALICE.to_string()));
}

#[test]
fn substring_filter_on_mail() {
    let db = database(&config(false));
    let mut status = BindStatus::Anonymous;
    handle_request(&db, &mut status, &bind(PORTAL, "p0rtal"));
    let sub = |fin: Option<&str>| {
        Filter::Substring(
            "mail".to_string(),
            SubstringFilter { initial: Some("ali".to_string()), any: vec![], final_: fin.map(|f| f.to_string()) },
        )
    };
    let r = handle_request(&db, &mut status, &search("ou=users,dc=example,dc=com", sub(None)));
    assert_eq!(found_dns(&r), vec![ALICE.to_string()]);
    let r = handle_request(&db, &mut status, &search("ou=users,dc=example,dc=com", sub(Some("nobody"))));
    assert_eq!(r.len(), 1);
    assert_eq!(done_code(&r), ResultCode::NoSuchObject);
}

#[test]
fn reload_is_seen_by_new_and_idle_connections() {
    let old_db = database(&config(false));
    let mut idle = BindStatus::Anonymous;
    handle_request(&old_db, &mut idle, &bind(PORTAL, "p0rtal"));
    let r = handle_request(&old_db, &mut idle, &search("ou=users,dc=example,dc=com", present("uid")));
    assert_eq!(found_dns(&r), vec![ALICE.to_string()]);

    let new_db = database(&config(true));
    let bob = "uid=bob,ou=users,dc=example,dc=com".to_string();
    let mut fresh = BindStatus::Anonymous;
    handle_request(&new_db, &mut fresh, &bind(PORTAL, "p0rtal"));
    let r = handle_request(&new_db, &mut fresh, &search("ou=users,dc=example,dc=com", present("uid")));
    assert_eq!(found_dns(&r), vec![ALICE.to_string(), bob.clone()]);

    // the idle connection keeps its identity and reads the newer snapshot
    let r = handle_request(&new_db, &mut idle, &search("ou=users,dc=example,dc=com", present("uid")));
    assert_eq!(found_dns(&r), vec![ALICE.to_string(), bob]);
}
