use vstd::prelude::*;
use vstd::string::*;
use vstd::utf8::encode_utf8;
use crate::attribute::AttributeModel;
use crate::attributes::{add_all, add_spec, lookup, LDAPAttributes};
use crate::datatypes::{fold, CIString};
use crate::dn::{display_text, uuid_v5_x500, x500_uuid_text, DnModel, LDAPDN};
use crate::entry::{EntryModel, LDAPEntry};
use crate::filter::strings_view;
use crate::traits::{contains_string, merge_unique, Mergeable};

verus! {

/// A (name, text value) pair to add as an attribute value.
pub type Pair = (Seq<char>, Seq<char>);

/// The attribute holding the UTF-8 bytes of a text value.
pub open spec fn text_attr(p: Pair) -> AttributeModel {
    (p.0, seq![encode_utf8(p.1)])
}

/// The set after adding each pair, in order.
pub open spec fn add_texts(attrs: Seq<AttributeModel>, ps: Seq<Pair>) -> Seq<AttributeModel>
    decreases ps.len(),
{
    if ps.len() == 0 {
        attrs
    } else {
        add_spec(add_texts(attrs, ps.drop_last()), text_attr(ps.last()))
    }
}

/// `k` with the value when there is one.
pub open spec fn opt_pair(k: Seq<char>, v: Option<String>) -> Seq<Pair> {
    match v {
        Some(s) => seq![(k, s@)],
        None => Seq::empty(),
    }
}

/// `k` with each value, in order.
pub open spec fn each_pair(k: Seq<char>, vs: Seq<Seq<char>>) -> Seq<Pair> {
    vs.map_values(|v: Seq<char>| (k, v))
}

/// The views of a list of pairs.
pub open spec fn pairs_view(ps: Seq<(String, String)>) -> Seq<Pair> {
    ps.map_values(|p: (String, String)| (p.0@, p.1@))
}

/// Appends `(k, v)`.
fn push_one(ps: &mut Vec<(String, String)>, k: &str, v: &str)
    ensures
        pairs_view(final(ps)@) == pairs_view(old(ps)@) + seq![(k@, v@)],
{
    let ghost before = pairs_view(ps@);
    ps.push((k.to_owned(), v.to_owned()));
    assert(pairs_view(ps@) =~= before + seq![(k@, v@)]);
}

/// Appends `(k, v)` when there is a value.
fn push_opt(ps: &mut Vec<(String, String)>, k: &str, v: &Option<String>)
    ensures
        pairs_view(final(ps)@) == pairs_view(old(ps)@) + opt_pair(k@, *v),
{
    let ghost before = pairs_view(ps@);
    match v {
        Some(s) => {
            ps.push((k.to_owned(), s.clone()));
            assert(pairs_view(ps@) =~= before + opt_pair(k@, *v));
        },
        None => {
            assert(pairs_view(ps@) =~= before + opt_pair(k@, *v));
        },
    }
}

/// Appends `(k, v)` for each value, in order.
fn push_each(ps: &mut Vec<(String, String)>, k: &str, vs: &Vec<String>)
    ensures
        pairs_view(final(ps)@) == pairs_view(old(ps)@) + each_pair(k@, strings_view(vs@)),
{
    let ghost before = pairs_view(ps@);
    let mut i: usize = 0;
    while i < vs.len()
        invariant
            i <= vs.len(),
            pairs_view(ps@) == before + each_pair(k@, strings_view(vs@).subrange(0, i as int)),
        decreases vs.len() - i,
    {
        let ghost mid = pairs_view(ps@);
        ps.push((k.to_owned(), vs[i].clone()));
        assert(pairs_view(ps@) =~= mid.push((k@, vs@[i as int]@)));
        assert(each_pair(k@, strings_view(vs@).subrange(0, i + 1)) =~= each_pair(k@, strings_view(vs@).subrange(0, i as int)).push((k@, vs@[i as int]@)));
        assert(pairs_view(ps@) =~= before + each_pair(k@, strings_view(vs@).subrange(0, i + 1)));
        i = i + 1;
    }
    assert(strings_view(vs@).subrange(0, vs.len() as int) =~= strings_view(vs@));
}

/// Adds each pair to `attrs`, in order.
fn add_text_pairs(attrs: &mut LDAPAttributes, ps: &Vec<(String, String)>)
    requires
        old(attrs).wf(),
    ensures
        final(attrs).wf(),
        final(attrs)@ == add_texts(old(attrs)@, pairs_view(ps@)),
{
    let ghost start = attrs@;
    let mut i: usize = 0;
    while i < ps.len()
        invariant
            i <= ps.len(),
            attrs.wf(),
            attrs@ == add_texts(start, pairs_view(ps@).subrange(0, i as int)),
        decreases ps.len() - i,
    {
        attrs.add_value(ps[i].0.as_str(), ps[i].1.as_str().as_bytes());
        assert(pairs_view(ps@).subrange(0, i + 1).drop_last() =~= pairs_view(ps@).subrange(0, i as int));
        i = i + 1;
    }
    assert(pairs_view(ps@).subrange(0, ps.len() as int) =~= pairs_view(ps@));
}

/// An attribute set made of the pairs, in order.
fn attributes_of(ps: &Vec<(String, String)>) -> (r: LDAPAttributes)
    ensures
        r.wf(),
        r@ == add_texts(Seq::empty(), pairs_view(ps@)),
{
    let mut attrs = LDAPAttributes::new();
    add_text_pairs(&mut attrs, ps);
    attrs
}

/// The credentials of an entity that may bind.
#[derive(Debug)]
pub struct LoginProperties {
    pub password: Option<String>,
}

impl LoginProperties {
    /// `objectClass: simpleSecurityObject`, then the password if any.
    pub open spec fn pairs(&self) -> Seq<Pair> {
        seq![("objectClass"@, "simpleSecurityObject"@)] + opt_pair("userPassword"@, self.password)
    }
}

impl AsLDAPAttributes for LoginProperties {
    fn as_ldap_attributes(&self) -> (r: LDAPAttributes)
        ensures
            r.wf(),
            r@ == add_texts(Seq::empty(), self.pairs()),
    {
        let mut ps: Vec<(String, String)> = Vec::new();
        push_one(&mut ps, "objectClass", "simpleSecurityObject");
        push_opt(&mut ps, "userPassword", &self.password);
        assert(pairs_view(ps@) =~= self.pairs());
        attributes_of(&ps)
    }
}

/// Options every entity may carry: a forced UUID (hyphenated), arbitrary
/// attributes, and extra object classes.
#[derive(Debug)]
pub struct ExtraProperties {
    pub uuid: Option<String>,
    pub extra_attributes: Vec<(String, Vec<String>)>,
    pub extra_object_classes: Vec<String>,
}

/// Each name with each of its values, in order.
pub open spec fn flat_pairs(ea: Seq<(Seq<char>, Seq<Seq<char>>)>) -> Seq<Pair>
    decreases ea.len(),
{
    if ea.len() == 0 {
        Seq::empty()
    } else {
        flat_pairs(ea.drop_last()) + each_pair(ea.last().0, ea.last().1)
    }
}

impl ExtraProperties {
    /// The extra attributes as values.
    pub open spec fn extra_view(&self) -> Seq<(Seq<char>, Seq<Seq<char>>)> {
        self.extra_attributes@.map_values(|p: (String, Vec<String>)| (p.0@, strings_view(p.1@)))
    }

    /// `entryUUID` if forced, `objectClass: extensibleObject` when there are
    /// extra attributes, those attributes, then the extra object classes.
    pub open spec fn pairs(&self) -> Seq<Pair> {
        opt_pair("entryUUID"@, self.uuid) + (if self.extra_attributes.len() > 0 {
            seq![("objectClass"@, "extensibleObject"@)]
        } else {
            Seq::empty()
        }) + flat_pairs(self.extra_view()) + each_pair("objectClass"@, strings_view(self.extra_object_classes@))
    }
}

impl AsLDAPAttributes for ExtraProperties {
    fn as_ldap_attributes(&self) -> (r: LDAPAttributes)
        ensures
            r.wf(),
            r@ == add_texts(Seq::empty(), self.pairs()),
    {
        let mut ps: Vec<(String, String)> = Vec::new();
        push_opt(&mut ps, "entryUUID", &self.uuid);
        let ghost with_uuid = pairs_view(ps@);
        if self.extra_attributes.len() > 0 {
            push_one(&mut ps, "objectClass", "extensibleObject");
        }
        let ghost with_marker = pairs_view(ps@);
        assert(with_marker =~= with_uuid + (if self.extra_attributes.len() > 0 {
            seq![("objectClass"@, "extensibleObject"@)]
        } else {
            Seq::<Pair>::empty()
        }));
        let ghost ev = self.extra_view();
        let mut i: usize = 0;
        while i < self.extra_attributes.len()
            invariant
                i <= self.extra_attributes.len(),
                ev == self.extra_view(),
                pairs_view(ps@) == with_marker + flat_pairs(ev.subrange(0, i as int)),
            decreases self.extra_attributes.len() - i,
        {
            let ghost mid = pairs_view(ps@);
            push_each(&mut ps, self.extra_attributes[i].0.as_str(), &self.extra_attributes[i].1);
            assert(ev.subrange(0, i + 1).drop_last() =~= ev.subrange(0, i as int));
            assert(pairs_view(ps@) =~= with_marker + flat_pairs(ev.subrange(0, i + 1)));
            i = i + 1;
        }
        assert(ev.subrange(0, self.extra_attributes.len() as int) =~= ev);
        push_each(&mut ps, "objectClass", &self.extra_object_classes);
        assert(pairs_view(ps@) =~= self.pairs());
        attributes_of(&ps)
    }
}


/// The view of an optional name.
pub open spec fn opt_dn(o: Option<LDAPDN>) -> Option<DnModel> {
    match o {
        Some(d) => Some(d@),
        None => None,
    }
}

/// The view of an optional entry.
pub open spec fn opt_entry(o: Option<LDAPEntry>) -> Option<EntryModel> {
    match o {
        Some(e) => Some(e@),
        None => None,
    }
}

/// Entities that become attributes.
pub trait AsLDAPAttributes {
    /// The LDAP attributes of this entity.
    fn as_ldap_attributes(&self) -> (r: LDAPAttributes)
        ensures
            r.wf();
}

/// Entities of the directory's configuration that become entries.
pub trait AugmentConfig {
    /// The name of this entity below `base`, if it can be named.
    spec fn dn_spec(&self, base: DnModel) -> Option<DnModel>;

    /// The name of this entity below `base_dn`.
    fn as_ldap_dn(&self, base_dn: &LDAPDN) -> (r: Option<LDAPDN>)
        ensures
            opt_dn(r) == self.dn_spec(base_dn@);

    /// The entry of this entity within `config`, if it has one.
    fn as_ldap_entry(&self, config: &Config) -> (r: Option<LDAPEntry>)
        ensures
            r matches Some(e) ==> e.wf();
}

/// The name of an application account below `base`.
pub open spec fn app_dn(a: AppAccount, base: DnModel) -> Option<DnModel> {
    match a.uid {
        Some(u) => Some(seq![("uid"@, u@), ("ou"@, "apps"@)] + base),
        None => None,
    }
}

/// The name of a group below `base`.
pub open spec fn group_dn(g: Group, base: DnModel) -> Option<DnModel> {
    match g.name {
        Some(n) => Some(seq![("cn"@, n@), ("ou"@, "groups"@)] + base),
        None => None,
    }
}

/// The name of a mail alias below `base`.
pub open spec fn alias_dn(m: MailAlias, base: DnModel) -> Option<DnModel> {
    match m.mail {
        Some(x) => Some(seq![("cn"@, x@), ("ou"@, "aliases"@), ("ou"@, "mail"@)] + base),
        None => None,
    }
}

/// The name of a user below `base`.
pub open spec fn user_dn(u: User, base: DnModel) -> Option<DnModel> {
    match u.uid {
        Some(x) => Some(seq![("uid"@, x@), ("ou"@, "users"@)] + base),
        None => None,
    }
}

/// `prefix` put in front of `base`.
fn dn_below(base: &LDAPDN, k1: &str, v1: &str, k2: &str, v2: &str) -> (r: LDAPDN)
    ensures
        r@ == seq![(k1@, v1@), (k2@, v2@)] + base@,
{
    let r = base.clone().with_prefix(k2, v2).with_prefix(k1, v1);
    assert(r@ =~= seq![(k1@, v1@), (k2@, v2@)] + base@);
    r
}

/// An application account: it may read the whole directory but the other
/// applications.
#[derive(Debug)]
pub struct AppAccount {
    pub auth: LoginProperties,
    pub description: Option<String>,
    pub extra_properties: ExtraProperties,
    pub uid: Option<String>,
}

impl AppAccount {
    /// The attributes of the account.
    pub open spec fn attributes_spec(&self) -> Seq<AttributeModel> {
        let a = add_texts(Seq::empty(), seq![("objectClass"@, "account"@)]);
        let a = add_all(a, add_texts(Seq::empty(), self.auth.pairs()));
        let a = add_texts(a, opt_pair("description"@, self.description));
        let a = add_all(a, add_texts(Seq::empty(), self.extra_properties.pairs()));
        add_texts(a, opt_pair("uid"@, self.uid))
    }

    /// The entry: the account's name and attributes; it may access itself
    /// and everything below `base`, except below `ou=apps,base`.
    pub open spec fn entry_spec(&self, base: DnModel) -> Option<EntryModel> {
        match app_dn(*self, base) {
            Some(d) => Some((d, self.attributes_spec(), (true, seq![base], seq![seq![("ou"@, "apps"@)] + base]))),
            None => None,
        }
    }
}

impl AsLDAPAttributes for AppAccount {
    fn as_ldap_attributes(&self) -> (r: LDAPAttributes)
        ensures
            r.wf(),
            r@ == self.attributes_spec(),
    {
        let mut ps: Vec<(String, String)> = Vec::new();
        push_one(&mut ps, "objectClass", "account");
        let mut attributes = attributes_of(&ps);
        attributes.merge(self.auth.as_ldap_attributes());
        let mut ps: Vec<(String, String)> = Vec::new();
        push_opt(&mut ps, "description", &self.description);
        add_text_pairs(&mut attributes, &ps);
        attributes.merge(self.extra_properties.as_ldap_attributes());
        let mut ps: Vec<(String, String)> = Vec::new();
        push_opt(&mut ps, "uid", &self.uid);
        add_text_pairs(&mut attributes, &ps);
        proof {
            assert(pairs_view(Seq::<(String, String)>::empty()) + seq![("objectClass"@, "account"@)] =~= seq![("objectClass"@, "account"@)]);
        }
        attributes
    }
}

impl AppAccount {
    /// The name of this entity below `base_dn`.
    pub fn named_under(&self, base_dn: &LDAPDN) -> (r: Option<LDAPDN>)
        ensures
            opt_dn(r) == app_dn(*self, base_dn@),
    {
        match &self.uid {
            Some(u) => Some(dn_below(base_dn, "uid", u.as_str(), "ou", "apps")),
            None => None,
        }
    }
}

impl AugmentConfig for AppAccount {
    open spec fn dn_spec(&self, base: DnModel) -> Option<DnModel> {
        app_dn(*self, base)
    }

    fn as_ldap_dn(&self, base_dn: &LDAPDN) -> (r: Option<LDAPDN>) {
        self.named_under(base_dn)
    }

    fn as_ldap_entry(&self, config: &Config) -> (r: Option<LDAPEntry>)
        ensures
            opt_entry(r) == self.entry_spec(config.base_dn@),
    {
        match self.named_under(&config.base_dn) {
            None => None,
            Some(dn) => {
                let mut entry = LDAPEntry::new(dn, self.as_ldap_attributes());
                entry.acls.can_access_self = true;
                entry.acls.can_access_suffixes.push(config.base_dn.clone());
                entry.acls.cant_access_suffixes.push(config.base_dn.clone().with_prefix("ou", "apps"));
                assert(entry.acls@.1 =~= seq![config.base_dn@]);
                assert(entry.acls@.2 =~= seq![seq![("ou"@, "apps"@)] + config.base_dn@]);
                Some(entry)
            },
        }
    }
}



/// A group; its members are the users that name it.
#[derive(Debug)]
pub struct Group {
    pub description: Option<String>,
    pub extra_properties: ExtraProperties,
    pub name: Option<String>,
}

/// `uniqueMember` with the name of each user, in order, that lists `name`
/// among its groups and has a name.
pub open spec fn member_pairs(users: Seq<User>, name: Seq<char>, base: DnModel) -> Seq<Pair>
    decreases users.len(),
{
    if users.len() == 0 {
        Seq::empty()
    } else {
        let u = users.last();
        member_pairs(users.drop_last(), name, base) + (if strings_view(u.group_names@).contains(name) && u.uid is Some {
            seq![("uniqueMember"@, display_text(user_dn(u, base).unwrap()))]
        } else {
            Seq::empty()
        })
    }
}

impl Group {
    /// The attributes of the group before its members.
    pub open spec fn attributes_spec(&self) -> Seq<AttributeModel> {
        let a = add_texts(Seq::empty(), seq![("objectClass"@, "groupOfUniqueNames"@)] + opt_pair("description"@, self.description));
        let a = add_all(a, add_texts(Seq::empty(), self.extra_properties.pairs()));
        add_texts(a, opt_pair("cn"@, self.name))
    }

    /// The entry: the group with its members, when it has a name and at
    /// least one member.
    pub open spec fn entry_spec(&self, config: Config) -> Option<EntryModel> {
        match self.name {
            Some(n) => {
                let attrs = add_texts(self.attributes_spec(), member_pairs(config.data.users@, n@, config.base_dn@));
                if lookup(attrs, fold("uniqueMember"@)) is Some {
                    Some((group_dn(*self, config.base_dn@).unwrap(), attrs, (false, Seq::empty(), Seq::empty())))
                } else {
                    None
                }
            },
            None => None,
        }
    }
}

impl AsLDAPAttributes for Group {
    fn as_ldap_attributes(&self) -> (r: LDAPAttributes)
        ensures
            r.wf(),
            r@ == self.attributes_spec(),
    {
        let mut ps: Vec<(String, String)> = Vec::new();
        push_one(&mut ps, "objectClass", "groupOfUniqueNames");
        push_opt(&mut ps, "description", &self.description);
        let mut attributes = attributes_of(&ps);
        assert(pairs_view(ps@) =~= seq![("objectClass"@, "groupOfUniqueNames"@)] + opt_pair("description"@, self.description));
        attributes.merge(self.extra_properties.as_ldap_attributes());
        let mut ps: Vec<(String, String)> = Vec::new();
        push_opt(&mut ps, "cn", &self.name);
        add_text_pairs(&mut attributes, &ps);
        assert(pairs_view(ps@) =~= opt_pair("cn"@, self.name));
        attributes
    }
}

impl Group {
    /// The name of this entity below `base_dn`.
    pub fn named_under(&self, base_dn: &LDAPDN) -> (r: Option<LDAPDN>)
        ensures
            opt_dn(r) == group_dn(*self, base_dn@),
    {
        match &self.name {
            Some(n) => Some(dn_below(base_dn, "cn", n.as_str(), "ou", "groups")),
            None => None,
        }
    }
}

impl AugmentConfig for Group {
    open spec fn dn_spec(&self, base: DnModel) -> Option<DnModel> {
        group_dn(*self, base)
    }

    fn as_ldap_dn(&self, base_dn: &LDAPDN) -> (r: Option<LDAPDN>) {
        self.named_under(base_dn)
    }

    fn as_ldap_entry(&self, config: &Config) -> (r: Option<LDAPEntry>)
        ensures
            opt_entry(r) == self.entry_spec(*config),
    {
        let name = match &self.name {
            Some(n) => n,
            None => return None,
        };
        let dn = match self.named_under(&config.base_dn) {
            Some(d) => d,
            None => return None,
        };
        let mut entry = LDAPEntry::new(dn, self.as_ldap_attributes());
        let ghost start = entry.attributes@;
        let users = &config.data.users;
        let mut i: usize = 0;
        while i < users.len()
            invariant
                i <= users.len(),
                entry.wf(),
                entry.dn@ == group_dn(*self, config.base_dn@).unwrap(),
                entry.acls@ == (false, Seq::<DnModel>::empty(), Seq::<DnModel>::empty()),
                entry.attributes@ == add_texts(start, member_pairs(users@.subrange(0, i as int), name@, config.base_dn@)),
            decreases users.len() - i,
        {
            let u = &users[i];
            let ghost before = entry.attributes@;
            assert(users@.subrange(0, i + 1).drop_last() =~= users@.subrange(0, i as int));
            if contains_string(&u.group_names, name) {
                match u.named_under(&config.base_dn) {
                    Some(udn) => {
                        let text = udn.to_string();
                        entry.attributes.add_value("uniqueMember", text.as_str().as_bytes());
                        proof {
                            let ms = member_pairs(users@.subrange(0, i as int), name@, config.base_dn@);
                            lemma_add_texts_push(start, ms, ("uniqueMember"@, text@));
                            assert(member_pairs(users@.subrange(0, i + 1), name@, config.base_dn@) =~= ms + seq![("uniqueMember"@, text@)]);
                            assert(ms + seq![("uniqueMember"@, text@)] =~= ms.push(("uniqueMember"@, text@)));
                        }
                    },
                    None => {
                        assert(member_pairs(users@.subrange(0, i + 1), name@, config.base_dn@) =~= member_pairs(users@.subrange(0, i as int), name@, config.base_dn@));
                    },
                }
            } else {
                assert(member_pairs(users@.subrange(0, i + 1), name@, config.base_dn@) =~= member_pairs(users@.subrange(0, i as int), name@, config.base_dn@));
            }
            i = i + 1;
        }
        assert(users@.subrange(0, users.len() as int) =~= users@);
        if entry.attributes.has_attribute(&CIString::new("uniqueMember")) {
            Some(entry)
        } else {
            None
        }
    }
}

/// Adding one more pair adds its attribute after the others.
proof fn lemma_add_texts_push(attrs: Seq<AttributeModel>, ps: Seq<Pair>, p: Pair)
    ensures
        add_texts(attrs, ps.push(p)) == add_spec(add_texts(attrs, ps), text_attr(p)),
{
    assert(ps.push(p).drop_last() =~= ps);
}

/// A mail alias: a destination address and the addresses it forwards from.
#[derive(Debug)]
pub struct MailAlias {
    pub aliases: Vec<String>,
    pub mail: Option<String>,
    pub extra_properties: ExtraProperties,
}

/// `rfc822mailMember` with the address of each user, in order, that lists
/// `mail` among its aliases and has an address.
pub open spec fn alias_member_pairs(users: Seq<User>, mail: Seq<char>) -> Seq<Pair>
    decreases users.len(),
{
    if users.len() == 0 {
        Seq::empty()
    } else {
        let u = users.last();
        alias_member_pairs(users.drop_last(), mail) + (if strings_view(u.mail_aliases@).contains(mail) && u.mail is Some {
            seq![("rfc822mailMember"@, u.mail.unwrap()@)]
        } else {
            Seq::empty()
        })
    }
}

impl MailAlias {
    /// The attributes of the alias before the users' addresses.
    pub open spec fn attributes_spec(&self) -> Seq<AttributeModel> {
        let a = add_texts(Seq::empty(), seq![("objectClass"@, "nisMailAlias"@)] + opt_pair("cn"@, self.mail) + each_pair("rfc822mailMember"@, strings_view(self.aliases@)));
        add_all(a, add_texts(Seq::empty(), self.extra_properties.pairs()))
    }

    /// The entry: the alias with the addresses of the users that forward to
    /// it, when it has an address.
    pub open spec fn entry_spec(&self, config: Config) -> Option<EntryModel> {
        match self.mail {
            Some(m) => Some((
                alias_dn(*self, config.base_dn@).unwrap(),
                add_texts(self.attributes_spec(), alias_member_pairs(config.data.users@, m@)),
                (false, Seq::empty(), Seq::empty()),
            )),
            None => None,
        }
    }
}

impl AsLDAPAttributes for MailAlias {
    fn as_ldap_attributes(&self) -> (r: LDAPAttributes)
        ensures
            r.wf(),
            r@ == self.attributes_spec(),
    {
        let mut ps: Vec<(String, String)> = Vec::new();
        push_one(&mut ps, "objectClass", "nisMailAlias");
        push_opt(&mut ps, "cn", &self.mail);
        push_each(&mut ps, "rfc822mailMember", &self.aliases);
        let mut attributes = attributes_of(&ps);
        assert(pairs_view(ps@) =~= seq![("objectClass"@, "nisMailAlias"@)] + opt_pair("cn"@, self.mail) + each_pair("rfc822mailMember"@, strings_view(self.aliases@)));
        attributes.merge(self.extra_properties.as_ldap_attributes());
        attributes
    }
}

impl MailAlias {
    /// The name of this alias below `base_dn`.
    pub fn named_under(&self, base_dn: &LDAPDN) -> (r: Option<LDAPDN>)
        ensures
            opt_dn(r) == alias_dn(*self, base_dn@),
    {
        match &self.mail {
            Some(m) => {
                let d = base_dn.clone().with_prefix("ou", "mail").with_prefix("ou", "aliases").with_prefix("cn", m.as_str());
                assert(d@ =~= seq![("cn"@, m@), ("ou"@, "aliases"@), ("ou"@, "mail"@)] + base_dn@);
                Some(d)
            },
            None => None,
        }
    }
}

impl AugmentConfig for MailAlias {
    open spec fn dn_spec(&self, base: DnModel) -> Option<DnModel> {
        alias_dn(*self, base)
    }

    fn as_ldap_dn(&self, base_dn: &LDAPDN) -> (r: Option<LDAPDN>) {
        self.named_under(base_dn)
    }

    fn as_ldap_entry(&self, config: &Config) -> (r: Option<LDAPEntry>)
        ensures
            opt_entry(r) == self.entry_spec(*config),
    {
        let mail = match &self.mail {
            Some(m) => m,
            None => return None,
        };
        let dn = match self.named_under(&config.base_dn) {
            Some(d) => d,
            None => return None,
        };
        let mut entry = LDAPEntry::new(dn, self.as_ldap_attributes());
        let ghost start = entry.attributes@;
        let users = &config.data.users;
        let mut i: usize = 0;
        while i < users.len()
            invariant
                i <= users.len(),
                entry.wf(),
                entry.dn@ == alias_dn(*self, config.base_dn@).unwrap(),
                entry.acls@ == (false, Seq::<DnModel>::empty(), Seq::<DnModel>::empty()),
                entry.attributes@ == add_texts(start, alias_member_pairs(users@.subrange(0, i as int), mail@)),
            decreases users.len() - i,
        {
            let u = &users[i];
            assert(users@.subrange(0, i + 1).drop_last() =~= users@.subrange(0, i as int));
            if contains_string(&u.mail_aliases, mail) {
                match &u.mail {
                    Some(user_mail) => {
                        entry.attributes.add_value("rfc822mailMember", user_mail.as_str().as_bytes());
                        proof {
                            let ms = alias_member_pairs(users@.subrange(0, i as int), mail@);
                            lemma_add_texts_push(start, ms, ("rfc822mailMember"@, user_mail@));
                            assert(alias_member_pairs(users@.subrange(0, i + 1), mail@) =~= ms.push(("rfc822mailMember"@, user_mail@)));
                        }
                    },
                    None => {
                        assert(alias_member_pairs(users@.subrange(0, i + 1), mail@) =~= alias_member_pairs(users@.subrange(0, i as int), mail@));
                    },
                }
            } else {
                assert(alias_member_pairs(users@.subrange(0, i + 1), mail@) =~= alias_member_pairs(users@.subrange(0, i as int), mail@));
            }
            i = i + 1;
        }
        assert(users@.subrange(0, users.len() as int) =~= users@);
        Some(entry)
    }
}



/// The parts joined with single spaces.
pub open spec fn join_spaced(parts: Seq<Seq<char>>) -> Seq<char>
    decreases parts.len(),
{
    if parts.len() == 0 {
        Seq::empty()
    } else if parts.len() == 1 {
        parts[0]
    } else {
        join_spaced(parts.drop_last()) + " "@ + parts.last()
    }
}

/// `objectClass: posixAccount` then `k` with the value, when there is one.
pub open spec fn posix_pairs(k: Seq<char>, v: Option<String>) -> Seq<Pair> {
    match v {
        Some(x) => seq![("objectClass"@, "posixAccount"@), (k, x@)],
        None => Seq::empty(),
    }
}

/// `k` is the position of the first group named `g`.
pub open spec fn first_group_named(groups: Seq<Group>, g: Seq<char>, k: int) -> bool {
    &&& 0 <= k < groups.len()
    &&& groups[k].name matches Some(n) && n@ == g
    &&& forall|j: int| 0 <= j < k ==> !(#[trigger] groups[j].name matches Some(n2) && n2@ == g)
}

/// `memberOf` with the name of the first group of each listed name, in
/// order; names of no group are skipped.
pub open spec fn member_of_pairs(names: Seq<Seq<char>>, groups: Seq<Group>, base: DnModel) -> Seq<Pair>
    decreases names.len(),
{
    if names.len() == 0 {
        Seq::empty()
    } else {
        member_of_pairs(names.drop_last(), groups, base) + (if exists|k: int| first_group_named(groups, names.last(), k) {
            let k = choose|k: int| first_group_named(groups, names.last(), k);
            seq![("memberOf"@, display_text(group_dn(groups[k], base).unwrap()))]
        } else {
            Seq::empty()
        })
    }
}

/// A person of the directory.
#[derive(Debug)]
pub struct User {
    pub auth: LoginProperties,
    pub extra_properties: ExtraProperties,
    pub uid: Option<String>,
    pub name: Vec<String>,
    pub surname: Vec<String>,
    pub display_name: Option<String>,
    pub initials: Option<String>,
    pub preferred_language: Option<String>,
    pub mobile_number: Vec<String>,
    pub telephone_number: Vec<String>,
    pub mail: Option<String>,
    pub ssh_public_key: Vec<String>,
    pub login_shell: Option<String>,
    pub home_directory: Option<String>,
    pub uid_number: Option<String>,
    pub gid_number: Option<String>,
    pub group_names: Vec<String>,
    pub mail_aliases: Vec<String>,
}

impl User {
    /// The display name: the one given, else the names and surnames joined
    /// with spaces when both are known.
    pub open spec fn display_pairs(&self) -> Seq<Pair> {
        match self.display_name {
            Some(d) => seq![("displayName"@, d@)],
            None => if self.name.len() > 0 && self.surname.len() > 0 {
                seq![("displayName"@, join_spaced(strings_view(self.name@) + strings_view(self.surname@)))]
            } else {
                Seq::empty()
            },
        }
    }

    /// The home directory: the one given, else `/home/<uid>`; either makes
    /// the user a POSIX account.
    pub open spec fn home_pairs(&self) -> Seq<Pair> {
        match self.home_directory {
            Some(h) => seq![("objectClass"@, "posixAccount"@), ("homeDirectory"@, h@)],
            None => match self.uid {
                Some(u) => seq![("objectClass"@, "posixAccount"@), ("homeDirectory"@, "/home/"@ + u@)],
                None => Seq::empty(),
            },
        }
    }

    /// The values the user's own fields give, in the order they are added.
    pub open spec fn pairs(&self) -> Seq<Pair> {
        seq![("objectClass"@, "inetOrgPerson"@)] + opt_pair("uid"@, self.uid) + each_pair("givenName"@, strings_view(self.name@))
            + each_pair("sn"@, strings_view(self.surname@)) + self.display_pairs() + opt_pair("preferredLanguage"@, self.preferred_language)
            + each_pair("mobile"@, strings_view(self.mobile_number@)) + each_pair("telephoneNumber"@, strings_view(self.telephone_number@))
            + opt_pair("mail"@, self.mail) + each_pair("mailAlias"@, strings_view(self.mail_aliases@))
            + each_pair("sshPublicKey"@, strings_view(self.ssh_public_key@)) + self.home_pairs()
            + posix_pairs("loginShell"@, self.login_shell) + posix_pairs("uidNumber"@, self.uid_number)
            + posix_pairs("gidNumber"@, self.gid_number)
    }

    /// The attributes of the user before its group memberships.
    pub open spec fn attributes_spec(&self) -> Seq<AttributeModel> {
        let a = add_all(Seq::empty(), add_texts(Seq::empty(), self.auth.pairs()));
        let a = add_all(a, add_texts(Seq::empty(), self.extra_properties.pairs()));
        add_texts(a, self.pairs())
    }

    /// The entry: the user with `memberOf` for each named group that exists;
    /// it may access itself only.
    pub open spec fn entry_spec(&self, config: Config) -> Option<EntryModel> {
        match user_dn(*self, config.base_dn@) {
            Some(d) => Some((
                d,
                add_texts(self.attributes_spec(), member_of_pairs(strings_view(self.group_names@), config.data.groups@, config.base_dn@)),
                (true, Seq::empty(), Seq::empty()),
            )),
            None => None,
        }
    }

    /// The pairs of `pairs()`, built.
    fn own_pairs(&self) -> (r: Vec<(String, String)>)
        ensures
            pairs_view(r@) == self.pairs(),
    {
        let mut ps: Vec<(String, String)> = Vec::new();
        push_one(&mut ps, "objectClass", "inetOrgPerson");
        push_opt(&mut ps, "uid", &self.uid);
        push_each(&mut ps, "givenName", &self.name);
        push_each(&mut ps, "sn", &self.surname);
        let ghost before_display = pairs_view(ps@);
        match &self.display_name {
            Some(d) => push_one(&mut ps, "displayName", d.as_str()),
            None => {
                if self.name.len() > 0 && self.surname.len() > 0 {
                    let joined = join_names(&self.name, &self.surname);
                    push_one(&mut ps, "displayName", joined.as_str());
                }
            },
        }
        assert(pairs_view(ps@) =~= before_display + self.display_pairs());
        push_opt(&mut ps, "preferredLanguage", &self.preferred_language);
        push_each(&mut ps, "mobile", &self.mobile_number);
        push_each(&mut ps, "telephoneNumber", &self.telephone_number);
        push_opt(&mut ps, "mail", &self.mail);
        push_each(&mut ps, "mailAlias", &self.mail_aliases);
        push_each(&mut ps, "sshPublicKey", &self.ssh_public_key);
        let ghost before_home = pairs_view(ps@);
        match &self.home_directory {
            Some(h) => {
                push_one(&mut ps, "objectClass", "posixAccount");
                push_one(&mut ps, "homeDirectory", h.as_str());
            },
            None => match &self.uid {
                Some(u) => {
                    push_one(&mut ps, "objectClass", "posixAccount");
                    let mut home = "/home/".to_owned();
                    home.append(u.as_str());
                    push_one(&mut ps, "homeDirectory", home.as_str());
                },
                None => {},
            },
        }
        assert(pairs_view(ps@) =~= before_home + self.home_pairs());
        push_posix(&mut ps, "loginShell", &self.login_shell);
        push_posix(&mut ps, "uidNumber", &self.uid_number);
        push_posix(&mut ps, "gidNumber", &self.gid_number);
        assert(pairs_view(ps@) =~= self.pairs());
        ps
    }
}

/// Appends `objectClass: posixAccount` and `(k, v)` when there is a value.
fn push_posix(ps: &mut Vec<(String, String)>, k: &str, v: &Option<String>)
    ensures
        pairs_view(final(ps)@) == pairs_view(old(ps)@) + posix_pairs(k@, *v),
{
    let ghost before = pairs_view(ps@);
    match v {
        Some(x) => {
            push_one(ps, "objectClass", "posixAccount");
            push_one(ps, k, x.as_str());
            assert(pairs_view(ps@) =~= before + posix_pairs(k@, *v));
        },
        None => {
            assert(pairs_view(ps@) =~= before + posix_pairs(k@, *v));
        },
    }
}

/// The names then the surnames, joined with single spaces.
fn join_names(names: &Vec<String>, surnames: &Vec<String>) -> (r: String)
    ensures
        r@ == join_spaced(strings_view(names@) + strings_view(surnames@)),
{
    let ghost parts = strings_view(names@) + strings_view(surnames@);
    let mut out = String::new();
    let mut first = true;
    let mut i: usize = 0;
    while i < names.len()
        invariant
            parts == strings_view(names@) + strings_view(surnames@),
            i <= names.len(),
            first == (i == 0),
            out@ == join_spaced(parts.subrange(0, i as int)),
        decreases names.len() - i,
    {
        join_step(&mut out, &names[i], first, Ghost(parts), Ghost(i as int));
        first = false;
        i = i + 1;
    }
    let mut j: usize = 0;
    while j < surnames.len()
        invariant
            parts == strings_view(names@) + strings_view(surnames@),
            j <= surnames.len(),
            first == (names.len() + j == 0),
            out@ == join_spaced(parts.subrange(0, names.len() + j)),
        decreases surnames.len() - j,
    {
        join_step(&mut out, &surnames[j], first, Ghost(parts), Ghost(names.len() + j));
        first = false;
        j = j + 1;
    }
    assert(parts.subrange(0, names.len() + surnames.len()) =~= parts);
    out
}

/// Appends the `i`-th part of a space-joined text; `first` tells whether it
/// is the first part.
fn join_step(out: &mut String, part: &String, first: bool, Ghost(parts): Ghost<Seq<Seq<char>>>, Ghost(i): Ghost<int>)
    requires
        0 <= i < parts.len(),
        parts[i] == part@,
        first == (i == 0),
        old(out)@ == join_spaced(parts.subrange(0, i)),
    ensures
        final(out)@ == join_spaced(parts.subrange(0, i + 1)),
{
    let ghost before = out@;
    proof {
        let pre = parts.subrange(0, i + 1);
        assert(pre.drop_last() =~= parts.subrange(0, i));
        assert(pre.last() == parts[i]);
    }
    if first {
        out.append(part.as_str());
        assert(out@ =~= parts.subrange(0, i + 1)[0]);
    } else {
        out.append(" ");
        out.append(part.as_str());
        assert(out@ =~= before + " "@ + parts[i]);
    }
}

impl AsLDAPAttributes for User {
    fn as_ldap_attributes(&self) -> (r: LDAPAttributes)
        ensures
            r.wf(),
            r@ == self.attributes_spec(),
    {
        let mut attributes = LDAPAttributes::new();
        attributes.merge(self.auth.as_ldap_attributes());
        attributes.merge(self.extra_properties.as_ldap_attributes());
        let ps = self.own_pairs();
        add_text_pairs(&mut attributes, &ps);
        attributes
    }
}

impl User {
    /// The name of this entity below `base_dn`.
    pub fn named_under(&self, base_dn: &LDAPDN) -> (r: Option<LDAPDN>)
        ensures
            opt_dn(r) == user_dn(*self, base_dn@),
    {
        match &self.uid {
            Some(u) => Some(dn_below(base_dn, "uid", u.as_str(), "ou", "users")),
            None => None,
        }
    }
}

impl AugmentConfig for User {
    open spec fn dn_spec(&self, base: DnModel) -> Option<DnModel> {
        user_dn(*self, base)
    }

    fn as_ldap_dn(&self, base_dn: &LDAPDN) -> (r: Option<LDAPDN>) {
        self.named_under(base_dn)
    }

    fn as_ldap_entry(&self, config: &Config) -> (r: Option<LDAPEntry>)
        ensures
            opt_entry(r) == self.entry_spec(*config),
    {
        let dn = match self.named_under(&config.base_dn) {
            Some(d) => d,
            None => return None,
        };
        let mut entry = LDAPEntry::new(dn, self.as_ldap_attributes());
        entry.acls.can_access_self = true;
        let ghost start = entry.attributes@;
        let groups = &config.data.groups;
        let ghost names = strings_view(self.group_names@);
        let mut i: usize = 0;
        while i < self.group_names.len()
            invariant
                i <= self.group_names.len(),
                names == strings_view(self.group_names@),
                entry.wf(),
                entry.dn@ == user_dn(*self, config.base_dn@).unwrap(),
                entry.acls@ == (true, Seq::<DnModel>::empty(), Seq::<DnModel>::empty()),
                entry.attributes@ == add_texts(start, member_of_pairs(names.subrange(0, i as int), groups@, config.base_dn@)),
            decreases self.group_names.len() - i,
        {
            let g = &self.group_names[i];
            let ghost pre = names.subrange(0, i + 1);
            assert(pre.drop_last() =~= names.subrange(0, i as int));
            assert(pre.last() == g@);
            let mut k: usize = 0;
            let mut found: Option<usize> = None;
            while k < groups.len()
                invariant
                    k <= groups.len(),
                    match found {
                        Some(f) => f < k && first_group_named(groups@, g@, f as int),
                        None => forall|j: int| 0 <= j < k ==> !(#[trigger] groups@[j].name matches Some(n2) && n2@ == g@),
                    },
                decreases groups.len() - k,
            {
                let hit = match &groups[k].name {
                    Some(n) => *n == *g,
                    None => false,
                };
                if hit && found.is_none() {
                    found = Some(k);
                }
                k = k + 1;
            }
            match found {
                Some(f) => {
                    proof {
                        let kk = choose|k: int| first_group_named(groups@, g@, k);
                        assert(kk == f as int) by {
                            if kk < f {
                                assert(!(groups@[kk].name matches Some(n2) && n2@ == g@));
                            } else if kk > f {
                                assert(!(groups@[f as int].name matches Some(n2) && n2@ == g@));
                            }
                        }
                    }
                    match groups[f].named_under(&config.base_dn) {
                        Some(gdn) => {
                            let text = gdn.to_string();
                            entry.attributes.add_value("memberOf", text.as_str().as_bytes());
                            proof {
                                let ms = member_of_pairs(names.subrange(0, i as int), groups@, config.base_dn@);
                                lemma_add_texts_push(start, ms, ("memberOf"@, text@));
                                assert(member_of_pairs(pre, groups@, config.base_dn@) =~= ms.push(("memberOf"@, text@)));
                            }
                        },
                        None => {
                            assert(false);
                        },
                    }
                },
                None => {
                    proof {
                        if exists|kk: int| first_group_named(groups@, g@, kk) {
                            let kk = choose|kk: int| first_group_named(groups@, g@, kk);
                            assert(!(groups@[kk].name matches Some(n2) && n2@ == g@));
                        }
                        assert(member_of_pairs(pre, groups@, config.base_dn@) =~= member_of_pairs(names.subrange(0, i as int), groups@, config.base_dn@));
                    }
                },
            }
            i = i + 1;
        }
        assert(names.subrange(0, self.group_names.len() as int) =~= names);
        Some(entry)
    }
}

/// The root DSE: what the server advertises about itself.
#[derive(Debug)]
pub struct RootDSE;

impl RootDSE {
    /// The values of the root DSE.
    pub open spec fn pairs(config: Config) -> Seq<Pair> {
        seq![
            ("objectClass"@, "femtoLDAPRoot"@),
            ("objectClass"@, "extensibleObject"@),
            ("dsaName"@, "femtoLDAP"@),
            ("namingContexts"@, display_text(config.base_dn@)),
            ("supportedAuthPasswordSchemes"@, "CLEAR"@),
            ("supportedLDAPVersion"@, "3"@),
            ("vendorName"@, "femtoldap"@),
            ("vendorVersion"@, "0.1.0"@),
            ("entryDN"@, ""@),
            ("entryUUID"@, x500_uuid_text(Seq::empty())),
        ]
    }

    /// The root DSE entry: the empty name, these values, no access rights.
    pub open spec fn entry_spec(config: Config) -> EntryModel {
        (Seq::empty(), add_texts(Seq::empty(), Self::pairs(config)), (false, Seq::empty(), Seq::empty()))
    }
}

impl AugmentConfig for RootDSE {
    open spec fn dn_spec(&self, base: DnModel) -> Option<DnModel> {
        Some(Seq::empty())
    }

    fn as_ldap_dn(&self, base_dn: &LDAPDN) -> (r: Option<LDAPDN>) {
        Some(LDAPDN::empty())
    }

    fn as_ldap_entry(&self, config: &Config) -> (r: Option<LDAPEntry>)
        ensures
            opt_entry(r) == Some(RootDSE::entry_spec(*config)),
    {
        let mut ps: Vec<(String, String)> = Vec::new();
        push_one(&mut ps, "objectClass", "femtoLDAPRoot");
        push_one(&mut ps, "objectClass", "extensibleObject");
        push_one(&mut ps, "dsaName", "femtoLDAP");
        let naming = config.base_dn.to_string();
        push_one(&mut ps, "namingContexts", naming.as_str());
        push_one(&mut ps, "supportedAuthPasswordSchemes", "CLEAR");
        push_one(&mut ps, "supportedLDAPVersion", "3");
        push_one(&mut ps, "vendorName", "femtoldap");
        push_one(&mut ps, "vendorVersion", "0.1.0");
        push_one(&mut ps, "entryDN", "");
        let no_bytes: Vec<u8> = Vec::new();
        let id = uuid_v5_x500(no_bytes.as_slice());
        assert(no_bytes@ =~= Seq::<u8>::empty());
        push_one(&mut ps, "entryUUID", id.as_str());
        assert(pairs_view(ps@) =~= RootDSE::pairs(*config));
        let entry = LDAPEntry::new(LDAPDN::empty(), attributes_of(&ps));
        Some(entry)
    }
}

/// The users, groups, mail aliases and application accounts of the
/// directory.
#[derive(Debug)]
pub struct DirectoryContents {
    pub apps: Vec<AppAccount>,
    pub groups: Vec<Group>,
    pub mail_aliases: Vec<MailAlias>,
    pub users: Vec<User>,
}

/// The configuration: the base name and the contents below it.
#[derive(Debug)]
pub struct Config {
    pub base_dn: LDAPDN,
    pub data: DirectoryContents,
}

/// The entries that are there, in order.
pub open spec fn somes(s: Seq<Option<EntryModel>>) -> Seq<EntryModel>
    decreases s.len(),
{
    if s.len() == 0 {
        Seq::empty()
    } else {
        somes(s.drop_last()) + match s.last() {
            Some(e) => seq![e],
            None => Seq::empty(),
        }
    }
}

/// An entry with its operational attributes: every entry but the root DSE
/// gets `entryDN` (its name) and `entryUUID` (the UUID of its name) unless
/// it has them.
pub open spec fn with_operational(e: EntryModel) -> EntryModel {
    if e.0.len() == 0 {
        e
    } else {
        let a1 = if lookup(e.1, fold("entryDN"@)) is Some {
            e.1
        } else {
            add_spec(e.1, text_attr(("entryDN"@, display_text(e.0))))
        };
        let a2 = if lookup(a1, fold("entryUUID"@)) is Some {
            a1
        } else {
            add_spec(a1, text_attr(("entryUUID"@, x500_uuid_text(encode_utf8(display_text(e.0))))))
        };
        (e.0, a2, e.2)
    }
}

impl Config {
    /// The entries of the directory, in this order: the root DSE, the
    /// application accounts, the groups, the mail aliases, the users (each
    /// kind in configuration order, those without an entry skipped), each
    /// with its operational attributes.
    pub open spec fn assembled(self) -> Seq<EntryModel> {
        (seq![RootDSE::entry_spec(self)] + somes(self.data.apps@.map_values(|a: AppAccount| a.entry_spec(self.base_dn@)))
            + somes(self.data.groups@.map_values(|g: Group| g.entry_spec(self)))
            + somes(self.data.mail_aliases@.map_values(|m: MailAlias| m.entry_spec(self)))
            + somes(self.data.users@.map_values(|u: User| u.entry_spec(self)))).map_values(|e: EntryModel| with_operational(e))
    }

    /// Builds the entries of the directory.
    pub fn assemble_entries(&self) -> (r: Vec<LDAPEntry>)
        ensures
            r@.map_values(|e: LDAPEntry| e@) == self.assembled(),
            forall|i: int| 0 <= i < r.len() ==> (#[trigger] r@[i]).wf(),
    {
        let mut entries: Vec<LDAPEntry> = Vec::new();
        match RootDSE.as_ldap_entry(self) {
            Some(e) => push_operational(&mut entries, e),
            None => {},
        }
        let ghost s1 = seq![RootDSE::entry_spec(*self)];
        assert(entries@.map_values(|e: LDAPEntry| e@) =~= s1.map_values(|e: EntryModel| with_operational(e)));
        push_apps(self, &mut entries, Ghost(s1));
        let ghost s2 = s1 + somes(self.data.apps@.map_values(|a: AppAccount| a.entry_spec(self.base_dn@)));
        push_groups(self, &mut entries, Ghost(s2));
        let ghost s3 = s2 + somes(self.data.groups@.map_values(|g: Group| g.entry_spec(*self)));
        push_aliases(self, &mut entries, Ghost(s3));
        let ghost s4 = s3 + somes(self.data.mail_aliases@.map_values(|m: MailAlias| m.entry_spec(*self)));
        push_users(self, &mut entries, Ghost(s4));
        entries
    }
}

/// Appends the entries of the configuration's apps, in order.
fn push_apps(config: &Config, entries: &mut Vec<LDAPEntry>, Ghost(done): Ghost<Seq<EntryModel>>)
    requires
        old(entries)@.map_values(|e: LDAPEntry| e@) == done.map_values(|e: EntryModel| with_operational(e)),
        forall|j: int| 0 <= j < old(entries).len() ==> (#[trigger] old(entries)@[j]).wf(),
    ensures
        final(entries)@.map_values(|e: LDAPEntry| e@) == (done + somes(config.data.apps@.map_values(|a: AppAccount| a.entry_spec(config.base_dn@)))).map_values(|e: EntryModel| with_operational(e)),
        forall|j: int| 0 <= j < final(entries).len() ==> (#[trigger] final(entries)@[j]).wf(),
{
    let ghost sv = config.data.apps@.map_values(|a: AppAccount| a.entry_spec(config.base_dn@));
    let mut i: usize = 0;
    while i < config.data.apps.len()
        invariant
            i <= config.data.apps.len(),
            sv == config.data.apps@.map_values(|a: AppAccount| a.entry_spec(config.base_dn@)),
            forall|j: int| 0 <= j < entries.len() ==> (#[trigger] entries@[j]).wf(),
            entries@.map_values(|e: LDAPEntry| e@) == (done + somes(sv.subrange(0, i as int))).map_values(|e: EntryModel| with_operational(e)),
        decreases config.data.apps.len() - i,
    {
        let made = config.data.apps[i].as_ldap_entry(config);
        proof {
            assert(sv.subrange(0, i + 1).drop_last() =~= sv.subrange(0, i as int));
        }
        push_some(entries, made, Ghost(done + somes(sv.subrange(0, i as int))));
        proof {
            assert(done + somes(sv.subrange(0, i + 1)) =~= done + somes(sv.subrange(0, i as int)) + match sv[i as int] {
                Some(e) => seq![e],
                None => Seq::<EntryModel>::empty(),
            });
        }
        i = i + 1;
    }
    assert(sv.subrange(0, config.data.apps.len() as int) =~= sv);
}

/// Appends the entries of the configuration's groups, in order.
fn push_groups(config: &Config, entries: &mut Vec<LDAPEntry>, Ghost(done): Ghost<Seq<EntryModel>>)
    requires
        old(entries)@.map_values(|e: LDAPEntry| e@) == done.map_values(|e: EntryModel| with_operational(e)),
        forall|j: int| 0 <= j < old(entries).len() ==> (#[trigger] old(entries)@[j]).wf(),
    ensures
        final(entries)@.map_values(|e: LDAPEntry| e@) == (done + somes(config.data.groups@.map_values(|g: Group| g.entry_spec(*config)))).map_values(|e: EntryModel| with_operational(e)),
        forall|j: int| 0 <= j < final(entries).len() ==> (#[trigger] final(entries)@[j]).wf(),
{
    let ghost sv = config.data.groups@.map_values(|g: Group| g.entry_spec(*config));
    let mut i: usize = 0;
    while i < config.data.groups.len()
        invariant
            i <= config.data.groups.len(),
            sv == config.data.groups@.map_values(|g: Group| g.entry_spec(*config)),
            forall|j: int| 0 <= j < entries.len() ==> (#[trigger] entries@[j]).wf(),
            entries@.map_values(|e: LDAPEntry| e@) == (done + somes(sv.subrange(0, i as int))).map_values(|e: EntryModel| with_operational(e)),
        decreases config.data.groups.len() - i,
    {
        let made = config.data.groups[i].as_ldap_entry(config);
        proof {
            assert(sv.subrange(0, i + 1).drop_last() =~= sv.subrange(0, i as int));
        }
        push_some(entries, made, Ghost(done + somes(sv.subrange(0, i as int))));
        proof {
            assert(done + somes(sv.subrange(0, i + 1)) =~= done + somes(sv.subrange(0, i as int)) + match sv[i as int] {
                Some(e) => seq![e],
                None => Seq::<EntryModel>::empty(),
            });
        }
        i = i + 1;
    }
    assert(sv.subrange(0, config.data.groups.len() as int) =~= sv);
}

/// Appends the entries of the configuration's mail_aliases, in order.
fn push_aliases(config: &Config, entries: &mut Vec<LDAPEntry>, Ghost(done): Ghost<Seq<EntryModel>>)
    requires
        old(entries)@.map_values(|e: LDAPEntry| e@) == done.map_values(|e: EntryModel| with_operational(e)),
        forall|j: int| 0 <= j < old(entries).len() ==> (#[trigger] old(entries)@[j]).wf(),
    ensures
        final(entries)@.map_values(|e: LDAPEntry| e@) == (done + somes(config.data.mail_aliases@.map_values(|m: MailAlias| m.entry_spec(*config)))).map_values(|e: EntryModel| with_operational(e)),
        forall|j: int| 0 <= j < final(entries).len() ==> (#[trigger] final(entries)@[j]).wf(),
{
    let ghost sv = config.data.mail_aliases@.map_values(|m: MailAlias| m.entry_spec(*config));
    let mut i: usize = 0;
    while i < config.data.mail_aliases.len()
        invariant
            i <= config.data.mail_aliases.len(),
            sv == config.data.mail_aliases@.map_values(|m: MailAlias| m.entry_spec(*config)),
            forall|j: int| 0 <= j < entries.len() ==> (#[trigger] entries@[j]).wf(),
            entries@.map_values(|e: LDAPEntry| e@) == (done + somes(sv.subrange(0, i as int))).map_values(|e: EntryModel| with_operational(e)),
        decreases config.data.mail_aliases.len() - i,
    {
        let made = config.data.mail_aliases[i].as_ldap_entry(config);
        proof {
            assert(sv.subrange(0, i + 1).drop_last() =~= sv.subrange(0, i as int));
        }
        push_some(entries, made, Ghost(done + somes(sv.subrange(0, i as int))));
        proof {
            assert(done + somes(sv.subrange(0, i + 1)) =~= done + somes(sv.subrange(0, i as int)) + match sv[i as int] {
                Some(e) => seq![e],
                None => Seq::<EntryModel>::empty(),
            });
        }
        i = i + 1;
    }
    assert(sv.subrange(0, config.data.mail_aliases.len() as int) =~= sv);
}

/// Appends the entries of the configuration's users, in order.
fn push_users(config: &Config, entries: &mut Vec<LDAPEntry>, Ghost(done): Ghost<Seq<EntryModel>>)
    requires
        old(entries)@.map_values(|e: LDAPEntry| e@) == done.map_values(|e: EntryModel| with_operational(e)),
        forall|j: int| 0 <= j < old(entries).len() ==> (#[trigger] old(entries)@[j]).wf(),
    ensures
        final(entries)@.map_values(|e: LDAPEntry| e@) == (done + somes(config.data.users@.map_values(|u: User| u.entry_spec(*config)))).map_values(|e: EntryModel| with_operational(e)),
        forall|j: int| 0 <= j < final(entries).len() ==> (#[trigger] final(entries)@[j]).wf(),
{
    let ghost sv = config.data.users@.map_values(|u: User| u.entry_spec(*config));
    let mut i: usize = 0;
    while i < config.data.users.len()
        invariant
            i <= config.data.users.len(),
            sv == config.data.users@.map_values(|u: User| u.entry_spec(*config)),
            forall|j: int| 0 <= j < entries.len() ==> (#[trigger] entries@[j]).wf(),
            entries@.map_values(|e: LDAPEntry| e@) == (done + somes(sv.subrange(0, i as int))).map_values(|e: EntryModel| with_operational(e)),
        decreases config.data.users.len() - i,
    {
        let made = config.data.users[i].as_ldap_entry(config);
        proof {
            assert(sv.subrange(0, i + 1).drop_last() =~= sv.subrange(0, i as int));
        }
        push_some(entries, made, Ghost(done + somes(sv.subrange(0, i as int))));
        proof {
            assert(done + somes(sv.subrange(0, i + 1)) =~= done + somes(sv.subrange(0, i as int)) + match sv[i as int] {
                Some(e) => seq![e],
                None => Seq::<EntryModel>::empty(),
            });
        }
        i = i + 1;
    }
    assert(sv.subrange(0, config.data.users.len() as int) =~= sv);
}

/// Appends the entry, with its operational attributes, when there is one.
fn push_some(entries: &mut Vec<LDAPEntry>, made: Option<LDAPEntry>, Ghost(done): Ghost<Seq<EntryModel>>)
    requires
        old(entries)@.map_values(|e: LDAPEntry| e@) == done.map_values(|e: EntryModel| with_operational(e)),
        forall|j: int| 0 <= j < old(entries).len() ==> (#[trigger] old(entries)@[j]).wf(),
        made matches Some(e) ==> e.wf(),
    ensures
        final(entries)@.map_values(|e: LDAPEntry| e@) == (done + match opt_entry(made) {
            Some(e) => seq![e],
            None => Seq::<EntryModel>::empty(),
        }).map_values(|e: EntryModel| with_operational(e)),
        forall|j: int| 0 <= j < final(entries).len() ==> (#[trigger] final(entries)@[j]).wf(),
{
    match made {
        Some(e) => {
            let ghost ev = e@;
            push_operational(entries, e);
            assert((done + seq![ev]).map_values(|e: EntryModel| with_operational(e)) =~= done.map_values(|e: EntryModel| with_operational(e)).push(with_operational(ev)));
        },
        None => {
            assert(done + Seq::<EntryModel>::empty() =~= done);
        },
    }
}

/// Appends `entry` with its operational attributes.
fn push_operational(entries: &mut Vec<LDAPEntry>, entry: LDAPEntry)
    requires
        entry.wf(),
        forall|j: int| 0 <= j < old(entries).len() ==> (#[trigger] old(entries)@[j]).wf(),
    ensures
        final(entries)@.map_values(|e: LDAPEntry| e@) == old(entries)@.map_values(|e: LDAPEntry| e@).push(with_operational(entry@)),
        forall|j: int| 0 <= j < final(entries).len() ==> (#[trigger] final(entries)@[j]).wf(),
{
    let mut entry = entry;
    if !entry.dn.is_empty() {
        if !entry.attributes.has_attribute(&CIString::new("entryDN")) {
            let text = entry.dn.to_string();
            entry.attributes.add_value("entryDN", text.as_str().as_bytes());
        }
        if !entry.attributes.has_attribute(&CIString::new("entryUUID")) {
            let id = entry.dn.uuid();
            entry.attributes.add_value("entryUUID", id.as_str().as_bytes());
        }
    }
    let ghost before = entries@.map_values(|e: LDAPEntry| e@);
    let ghost ev = entry@;
    entries.push(entry);
    assert(entries@.map_values(|e: LDAPEntry| e@) =~= before.push(ev));
}


impl Mergeable<LDAPDN> for LDAPDN {
    /// The existing name, unless it is empty and the other is not.
    open spec fn merges_to(self, other: LDAPDN, result: LDAPDN) -> bool {
        result@ == if self@.len() == 0 && other@.len() > 0 {
            other@
        } else {
            self@
        }
    }

    fn merge(&mut self, other: LDAPDN) {
        if self.is_empty() && !other.is_empty() {
            *self = other;
        }
    }
}

impl Mergeable<LoginProperties> for LoginProperties {
    open spec fn merges_to(self, other: LoginProperties, result: LoginProperties) -> bool {
        self.password.merges_to(other.password, result.password)
    }

    fn merge(&mut self, other: LoginProperties) {
        self.password.merge(other.password);
    }
}

/// Arbitrary attributes as values.
pub type ExtraMap = Seq<(Seq<char>, Seq<Seq<char>>)>;

/// `i` is the first position of the name `k`.
pub open spec fn first_key(m: ExtraMap, k: Seq<char>, i: int) -> bool {
    &&& 0 <= i < m.len()
    &&& m[i].0 == k
    &&& forall|j: int| 0 <= j < i ==> #[trigger] m[j].0 != k
}

/// The map with `kv` merged in: its new values join the name's existing
/// values, or it is appended.
pub open spec fn map_merge_one(m: ExtraMap, kv: (Seq<char>, Seq<Seq<char>>)) -> ExtraMap {
    if exists|i: int| first_key(m, kv.0, i) {
        let i = choose|i: int| first_key(m, kv.0, i);
        m.update(i, (m[i].0, merge_unique(m[i].1, kv.1)))
    } else {
        m.push(kv)
    }
}

/// Merging a name the map has updates its first position.
proof fn lemma_map_merge_found(m: ExtraMap, kv: (Seq<char>, Seq<Seq<char>>), i: int)
    requires
        first_key(m, kv.0, i),
    ensures
        map_merge_one(m, kv) == m.update(i, (m[i].0, merge_unique(m[i].1, kv.1))),
{
    let c = choose|i: int| first_key(m, kv.0, i);
    assert(c == i) by {
        if c < i {
            assert(m[c].0 != kv.0);
        } else if c > i {
            assert(m[i].0 != kv.0);
        }
    }
}

/// Merging a name the map lacks appends it.
proof fn lemma_map_merge_absent(m: ExtraMap, kv: (Seq<char>, Seq<Seq<char>>))
    requires
        forall|j: int| 0 <= j < m.len() ==> #[trigger] m[j].0 != kv.0,
    ensures
        map_merge_one(m, kv) == m.push(kv),
{
}

/// The map with each item merged in, in order.
pub open spec fn map_merge(m: ExtraMap, items: ExtraMap) -> ExtraMap
    decreases items.len(),
{
    if items.len() == 0 {
        m
    } else {
        map_merge_one(map_merge(m, items.drop_last()), items.last())
    }
}

/// The view of arbitrary attributes.
pub open spec fn extra_map(v: Seq<(String, Vec<String>)>) -> ExtraMap {
    v.map_values(|p: (String, Vec<String>)| (p.0@, strings_view(p.1@)))
}

/// Merges the name `k` with values `vs` into `m`.
fn merge_extra_item(m: &mut Vec<(String, Vec<String>)>, k: String, vs: Vec<String>)
    ensures
        extra_map(final(m)@) == map_merge_one(extra_map(old(m)@), (k@, strings_view(vs@))),
{
    let ghost mv = extra_map(m@);
    let mut i: usize = 0;
    while i < m.len()
        invariant
            i <= m.len(),
            mv == extra_map(m@),
            mv == extra_map(old(m)@),
            forall|j: int| 0 <= j < i ==> #[trigger] mv[j].0 != k@,
        decreases m.len() - i,
    {
        if m[i].0 == k {
            proof {
                assert(first_key(mv, k@, i as int));
                lemma_map_merge_found(mv, (k@, strings_view(vs@)), i as int);
            }
            let (name, mut values) = m.remove(i);
            let ghost old_values = strings_view(values@);
            assert(old_values == mv[i as int].1);
            let ghost vsv = strings_view(vs@);
            values.merge(vs);
            assert(strings_view(values@) == merge_unique(old_values, vsv));
            m.insert(i, (name, values));
            assert(extra_map(m@) =~= mv.update(i as int, (mv[i as int].0, merge_unique(mv[i as int].1, vsv))));
            assert(vsv == strings_view(vs@));
            assert(extra_map(m@) == map_merge_one(mv, (k@, vsv)));
            return;
        }
        i = i + 1;
    }
    let ghost kv = (k@, strings_view(vs@));
    proof {
        lemma_map_merge_absent(mv, kv);
    }
    m.push((k, vs));
    assert(extra_map(m@) =~= mv.push(kv));
}

impl Mergeable<ExtraProperties> for ExtraProperties {
    /// Arbitrary attributes merged by name, object classes and UUID merged.
    open spec fn merges_to(self, other: ExtraProperties, result: ExtraProperties) -> bool {
        &&& extra_map(result.extra_attributes@) == map_merge(extra_map(self.extra_attributes@), extra_map(other.extra_attributes@))
        &&& self.extra_object_classes.merges_to(other.extra_object_classes, result.extra_object_classes)
        &&& self.uuid.merges_to(other.uuid, result.uuid)
    }

    fn merge(&mut self, other: ExtraProperties) {
        let ExtraProperties { uuid, extra_attributes, extra_object_classes } = other;
        let ghost start = extra_map(self.extra_attributes@);
        let ghost items = extra_map(extra_attributes@);
        let mut rest = extra_attributes;
        let n = rest.len();
        let mut k: usize = 0;
        while k < n
            invariant
                k <= n,
                rest.len() == n - k,
                items.len() == n,
                extra_map(rest@) == items.subrange(k as int, n as int),
                extra_map(self.extra_attributes@) == map_merge(start, items.subrange(0, k as int)),
                start == extra_map(old(self).extra_attributes@),
                self.extra_object_classes@ == old(self).extra_object_classes@,
                self.uuid == old(self).uuid,
            decreases n - k,
        {
            let ghost before = extra_map(rest@);
            let (key, values) = rest.remove(0);
            assert(before[0] == (key@, strings_view(values@)));
            assert(extra_map(rest@) =~= before.subrange(1, before.len() as int));
            assert(extra_map(rest@) =~= items.subrange(k + 1, n as int));
            merge_extra_item(&mut self.extra_attributes, key, values);
            assert(items.subrange(0, k + 1).drop_last() =~= items.subrange(0, k as int));
            assert(items.subrange(0, k + 1).last() == items[k as int]);
            k = k + 1;
        }
        assert(items.subrange(0, n as int) =~= items);
        self.extra_object_classes.merge(extra_object_classes);
        self.uuid.merge(uuid);
    }
}

impl Mergeable<AppAccount> for AppAccount {
    open spec fn merges_to(self, other: AppAccount, result: AppAccount) -> bool {
        &&& self.auth.merges_to(other.auth, result.auth)
        &&& self.description.merges_to(other.description, result.description)
        &&& self.extra_properties.merges_to(other.extra_properties, result.extra_properties)
        &&& self.uid.merges_to(other.uid, result.uid)
    }

    fn merge(&mut self, other: AppAccount) {
        let AppAccount { auth, description, extra_properties, uid } = other;
        self.auth.merge(auth);
        self.description.merge(description);
        self.extra_properties.merge(extra_properties);
        self.uid.merge(uid);
    }
}

impl Mergeable<Group> for Group {
    open spec fn merges_to(self, other: Group, result: Group) -> bool {
        &&& self.description.merges_to(other.description, result.description)
        &&& self.extra_properties.merges_to(other.extra_properties, result.extra_properties)
        &&& self.name.merges_to(other.name, result.name)
    }

    fn merge(&mut self, other: Group) {
        let Group { description, extra_properties, name } = other;
        self.description.merge(description);
        self.extra_properties.merge(extra_properties);
        self.name.merge(name);
    }
}

impl Mergeable<MailAlias> for MailAlias {
    open spec fn merges_to(self, other: MailAlias, result: MailAlias) -> bool {
        &&& self.aliases.merges_to(other.aliases, result.aliases)
        &&& self.mail.merges_to(other.mail, result.mail)
        &&& self.extra_properties.merges_to(other.extra_properties, result.extra_properties)
    }

    fn merge(&mut self, other: MailAlias) {
        let MailAlias { aliases, mail, extra_properties } = other;
        self.aliases.merge(aliases);
        self.mail.merge(mail);
        self.extra_properties.merge(extra_properties);
    }
}

impl Mergeable<User> for User {
    /// Field by field.
    open spec fn merges_to(self, other: User, result: User) -> bool {
        &&& self.auth.merges_to(other.auth, result.auth)
        &&& self.extra_properties.merges_to(other.extra_properties, result.extra_properties)
        &&& self.uid.merges_to(other.uid, result.uid)
        &&& self.name.merges_to(other.name, result.name)
        &&& self.surname.merges_to(other.surname, result.surname)
        &&& self.display_name.merges_to(other.display_name, result.display_name)
        &&& self.initials.merges_to(other.initials, result.initials)
        &&& self.preferred_language.merges_to(other.preferred_language, result.preferred_language)
        &&& self.mobile_number.merges_to(other.mobile_number, result.mobile_number)
        &&& self.telephone_number.merges_to(other.telephone_number, result.telephone_number)
        &&& self.mail.merges_to(other.mail, result.mail)
        &&& self.ssh_public_key.merges_to(other.ssh_public_key, result.ssh_public_key)
        &&& self.login_shell.merges_to(other.login_shell, result.login_shell)
        &&& self.home_directory.merges_to(other.home_directory, result.home_directory)
        &&& self.uid_number.merges_to(other.uid_number, result.uid_number)
        &&& self.gid_number.merges_to(other.gid_number, result.gid_number)
        &&& self.group_names.merges_to(other.group_names, result.group_names)
        &&& self.mail_aliases.merges_to(other.mail_aliases, result.mail_aliases)
    }

    fn merge(&mut self, other: User) {
        let User {
            auth,
            extra_properties,
            uid,
            name,
            surname,
            display_name,
            initials,
            preferred_language,
            mobile_number,
            telephone_number,
            mail,
            ssh_public_key,
            login_shell,
            home_directory,
            uid_number,
            gid_number,
            group_names,
            mail_aliases,
        } = other;
        self.auth.merge(auth);
        self.extra_properties.merge(extra_properties);
        self.uid.merge(uid);
        self.name.merge(name);
        self.surname.merge(surname);
        self.display_name.merge(display_name);
        self.initials.merge(initials);
        self.preferred_language.merge(preferred_language);
        self.mobile_number.merge(mobile_number);
        self.telephone_number.merge(telephone_number);
        self.mail.merge(mail);
        self.ssh_public_key.merge(ssh_public_key);
        self.login_shell.merge(login_shell);
        self.home_directory.merge(home_directory);
        self.uid_number.merge(uid_number);
        self.gid_number.merge(gid_number);
        self.group_names.merge(group_names);
        self.mail_aliases.merge(mail_aliases);
    }
}


/// `k` is the first position in `dom` of an entity whose name (below the
/// empty name) is `d`.
pub open spec fn first_named<T: AugmentConfig>(dom: Seq<T>, d: DnModel, k: int) -> bool {
    &&& 0 <= k < dom.len()
    &&& dom[k].dn_spec(Seq::empty()) == Some(d)
    &&& forall|j: int| 0 <= j < k ==> #[trigger] dom[j].dn_spec(Seq::empty()) != Some(d)
}

/// `r` is `dom` with `item` merged in: into the first entity of the same
/// name, else appended; an item that cannot be named is dropped.
pub open spec fn merge_one_to<T: AugmentConfig + Mergeable<T>>(dom: Seq<T>, item: T, r: Seq<T>) -> bool {
    match item.dn_spec(Seq::empty()) {
        None => r == dom,
        Some(d) => if exists|k: int| first_named(dom, d, k) {
            exists|k: int|
                first_named(dom, d, k) && r.len() == dom.len() && dom[k].merges_to(item, r[k]) && forall|j: int|
                    0 <= j < dom.len() && j != k ==> r[j] == dom[j]
        } else {
            r == dom.push(item)
        },
    }
}

/// `states` are the successive values of a list as each item is merged in,
/// in order, starting from `dom`.
pub open spec fn merge_steps<T: AugmentConfig + Mergeable<T>>(dom: Seq<T>, items: Seq<T>, states: Seq<Seq<T>>) -> bool {
    &&& states.len() == items.len() + 1
    &&& states[0] == dom
    &&& forall|i: int| 0 <= i < items.len() ==> #[trigger] merge_one_to(states[i], items[i], states[i + 1])
}

/// `r` is `dom` with each item merged in, in order.
pub open spec fn merge_all_to<T: AugmentConfig + Mergeable<T>>(dom: Seq<T>, items: Seq<T>, r: Seq<T>) -> bool {
    exists|states: Seq<Seq<T>>| #[trigger] merge_steps(dom, items, states) && states.last() == r
}

/// Merging into the first entity of the same name.
proof fn lemma_merge_one_found<T: AugmentConfig + Mergeable<T>>(dom: Seq<T>, item: T, r: Seq<T>, d: DnModel, k: int)
    requires
        item.dn_spec(Seq::empty()) == Some(d),
        first_named(dom, d, k),
        r.len() == dom.len(),
        dom[k].merges_to(item, r[k]),
        forall|j: int| 0 <= j < dom.len() && j != k ==> r[j] == dom[j],
    ensures
        merge_one_to(dom, item, r),
{
}

/// Merges `search_entity` into the first entity of `search_domain` with the
/// same name, or appends it; an entity that cannot be named is dropped.
pub fn merge_to_entity_with_same_dn_or_add<T: AugmentConfig + Mergeable<T>>(search_entity: T, search_domain: &mut Vec<T>)
    ensures
        merge_one_to(old(search_domain)@, search_entity, final(search_domain)@),
{
    let base = LDAPDN::empty();
    let ghost dom = search_domain@;
    match search_entity.as_ldap_dn(&base) {
        None => {},
        Some(search_dn) => {
            let mut k: usize = 0;
            while k < search_domain.len()
                invariant
                    k <= search_domain.len(),
                    search_domain@ == dom,
                    dom == old(search_domain)@,
                    base@ == Seq::<(Seq<char>, Seq<char>)>::empty(),
                    search_entity.dn_spec(Seq::empty()) == Some(search_dn@),
                    forall|j: int| 0 <= j < k ==> #[trigger] dom[j].dn_spec(Seq::empty()) != Some(search_dn@),
                decreases search_domain.len() - k,
            {
                let same = match search_domain[k].as_ldap_dn(&base) {
                    Some(d) => d.same_as(&search_dn),
                    None => false,
                };
                if same {
                    assert(first_named(dom, search_dn@, k as int));
                    let mut slot = search_domain.remove(k);
                    let ghost item = search_entity;
                    slot.merge(search_entity);
                    let ghost merged = slot;
                    search_domain.insert(k, slot);
                    proof {
                        let r = search_domain@;
                        assert(r =~= dom.update(k as int, merged));
                        assert(dom[k as int].merges_to(item, r[k as int]));
                        lemma_merge_one_found(dom, item, r, search_dn@, k as int);
                    }
                    return;
                }
                k = k + 1;
            }
            proof {
                if exists|j: int| first_named(dom, search_dn@, j) {
                    let j = choose|j: int| first_named(dom, search_dn@, j);
                    assert(dom[j].dn_spec(Seq::empty()) != Some(search_dn@));
                }
            }
            search_domain.push(search_entity);
        },
    }
}

/// Merges each item into `domain`, in order.
fn merge_all<T: AugmentConfig + Mergeable<T>>(domain: &mut Vec<T>, items: Vec<T>)
    ensures
        merge_all_to(old(domain)@, items@, final(domain)@),
{
    let ghost d0 = domain@;
    let ghost all = items@;
    let ghost mut states: Seq<Seq<T>> = seq![d0];
    let n = items.len();
    let mut rest = items;
    let mut k: usize = 0;
    proof {
        assert(rest@ =~= all.subrange(0, n as int));
    }
    while k < n
        invariant
            k <= n,
            n == all.len(),
            d0 == old(domain)@,
            rest@ == all.subrange(k as int, n as int),
            merge_steps(d0, all.subrange(0, k as int), states),
            states.last() == domain@,
        decreases n - k,
    {
        let ghost before = domain@;
        let item = rest.remove(0);
        assert(item == all[k as int]);
        assert(rest@ =~= all.subrange(k + 1, n as int));
        merge_to_entity_with_same_dn_or_add(item, domain);
        proof {
            let old_states = states;
            states = states.push(domain@);
            let pre = all.subrange(0, k + 1);
            assert forall|i: int| 0 <= i < pre.len() implies #[trigger] merge_one_to(states[i], pre[i], states[i + 1]) by {
                if i < k {
                    assert(merge_one_to(old_states[i], all.subrange(0, k as int)[i], old_states[i + 1]));
                } else {
                    assert(states[i] == before);
                }
            }
        }
        k = k + 1;
    }
    assert(all.subrange(0, n as int) =~= all);
}

impl Mergeable<DirectoryContents> for DirectoryContents {
    /// Each kind of entity merged by name, in order.
    open spec fn merges_to(self, other: DirectoryContents, result: DirectoryContents) -> bool {
        &&& merge_all_to(self.apps@, other.apps@, result.apps@)
        &&& merge_all_to(self.groups@, other.groups@, result.groups@)
        &&& merge_all_to(self.mail_aliases@, other.mail_aliases@, result.mail_aliases@)
        &&& merge_all_to(self.users@, other.users@, result.users@)
    }

    fn merge(&mut self, other: DirectoryContents) {
        let DirectoryContents { apps, groups, mail_aliases, users } = other;
        merge_all(&mut self.apps, apps);
        merge_all(&mut self.groups, groups);
        merge_all(&mut self.mail_aliases, mail_aliases);
        merge_all(&mut self.users, users);
    }
}

impl Mergeable<Config> for Config {
    /// The base name merged, the contents merged.
    open spec fn merges_to(self, other: Config, result: Config) -> bool {
        &&& self.base_dn.merges_to(other.base_dn, result.base_dn)
        &&& self.data.merges_to(other.data, result.data)
    }

    fn merge(&mut self, other: Config) {
        let Config { base_dn, data } = other;
        self.base_dn.merge(base_dn);
        self.data.merge(data);
    }
}

} // verus!
