use vstd::prelude::*;
use vstd::string::*;
use vstd::utf8::encode_utf8;
use crate::acl::{AclModel, LDAPACL};
use crate::attribute::{bytes_view, AttributeModel};
use crate::attributes::{lookup, values_of, LDAPAttributes};
use crate::datatypes::{fold, CIString};
use crate::dn::{DnModel, LDAPDN};
use crate::filter::{regex_compiles, regex_finds, utf8_lossy, decode_lossy, CompiledPattern, Filter};
use crate::traits::contains_bytes;

verus! {

/// An entry as a value: its name, its attributes, its access policy.
pub type EntryModel = (DnModel, Seq<AttributeModel>, AclModel);

/// Some value, decoded leniently as UTF-8, matches the compiled `pattern`; a
/// pattern that does not compile matches nothing.
pub open spec fn substring_holds(values: Seq<Seq<u8>>, pattern: Seq<char>) -> bool {
    &&& regex_compiles(pattern)
    &&& exists|i: int| 0 <= i < values.len() && regex_finds(pattern, utf8_lossy(#[trigger] values[i]))
}

/// Whether an entry with attributes `attrs` satisfies `f`.
pub open spec fn filter_holds(attrs: Seq<AttributeModel>, f: Filter) -> bool
    decreases f,
{
    match f {
        Filter::And(fs) => forall|i: int| 0 <= i < fs@.len() ==> filter_holds(attrs, #[trigger] fs@[i]),
        Filter::Or(fs) => exists|i: int| 0 <= i < fs@.len() && filter_holds(attrs, #[trigger] fs@[i]),
        Filter::Not(g) => !filter_holds(attrs, *g),
        Filter::Equality(name, value) => values_of(attrs, fold(name@)).contains(encode_utf8(value@)),
        Filter::Present(name) => lookup(attrs, fold(name@)) is Some,
        Filter::Substring(name, sf) => {
            &&& lookup(attrs, fold(name@)) is Some
            &&& substring_holds(values_of(attrs, fold(name@)), sf.pattern())
        },
        Filter::Unsupported => false,
    }
}

/// An entry may bind: it has some access scope and at least one
/// `userPassword` value.
pub open spec fn bind_capable(e: EntryModel) -> bool {
    &&& (e.2.0 || e.2.1.len() > 0)
    &&& values_of(e.1, fold("userPassword"@)).len() > 0
}

/// A directory entry: its name, its attributes and its access policy.
#[derive(Debug)]
pub struct LDAPEntry {
    pub dn: LDAPDN,
    pub attributes: LDAPAttributes,
    pub acls: LDAPACL,
}

impl View for LDAPEntry {
    type V = EntryModel;

    open spec fn view(&self) -> EntryModel {
        (self.dn@, self.attributes@, self.acls@)
    }
}

impl LDAPEntry {
    /// The attribute set is well formed.
    pub open spec fn wf(&self) -> bool {
        self.attributes.wf()
    }

    /// An entry with no access rights.
    pub fn new(dn: LDAPDN, attributes: LDAPAttributes) -> (r: Self)
        ensures
            r.dn@ == dn@,
            r.attributes@ == attributes@,
            r.attributes.wf() == attributes.wf(),
            r.acls@ == (false, Seq::<DnModel>::empty(), Seq::<DnModel>::empty()),
    {
        LDAPEntry { acls: LDAPACL::new(), dn, attributes }
    }

    /// Whether this entry may bind.
    pub fn can_perform_bind(&self) -> (r: bool)
        requires
            self.wf(),
        ensures
            r == bind_capable(self@),
    {
        let acl_valid = self.acls.can_access_self || self.acls.can_access_suffixes.len() > 0;
        let has_credentials = match self.attributes.get_attribute(&CIString::new("userPassword")) {
            Some(attribute) => attribute.values.len() > 0,
            None => false,
        };
        acl_valid && has_credentials
    }

    /// Whether one value of `values` matches the compiled `re`.
    fn any_value_matches(re: &CompiledPattern, values: &Vec<Vec<u8>>) -> (r: bool)
        ensures
            r == exists|i: int| 0 <= i < values@.len() && regex_finds(re.source(), utf8_lossy(#[trigger] bytes_view(values@)[i])),
    {
        let mut i: usize = 0;
        while i < values.len()
            invariant
                i <= values.len(),
                forall|j: int| 0 <= j < i ==> !regex_finds(re.source(), utf8_lossy(#[trigger] bytes_view(values@)[j])),
            decreases values.len() - i,
        {
            let text = decode_lossy(values[i].as_slice());
            if re.is_match(text.as_str()) {
                assert(regex_finds(re.source(), utf8_lossy(bytes_view(values@)[i as int])));
                return true;
            }
            i = i + 1;
        }
        false
    }

    /// Whether this entry satisfies `filter`.
    pub fn matches_filter(&self, filter: &Filter) -> (r: bool)
        requires
            self.wf(),
        ensures
            r == filter_holds(self.attributes@, *filter),
        decreases filter,
    {
        match filter {
            Filter::And(fs) => {
                let mut i: usize = 0;
                while i < fs.len()
                    invariant
                        self.wf(),
                        i <= fs.len(),
                        *filter == Filter::And(*fs),
                        forall|j: int| 0 <= j < i ==> filter_holds(self.attributes@, #[trigger] fs@[j]),
                    decreases fs.len() - i,
                {
                    proof {
                        assert(decreases_to!(*filter => filter->And_0));
                        assert(filter->And_0 == *fs);
                        assert(decreases_to!(*fs => fs@));
                        assert(decreases_to!(fs@ => fs@[i as int]));
                    }
                    if !self.matches_filter(&fs[i]) {
                        assert(!filter_holds(self.attributes@, fs@[i as int]));
                        assert(!filter_holds(self.attributes@, Filter::And(*fs)));
                        return false;
                    }
                    i = i + 1;
                }
                true
            },
            Filter::Or(fs) => {
                let mut i: usize = 0;
                while i < fs.len()
                    invariant
                        self.wf(),
                        i <= fs.len(),
                        *filter == Filter::Or(*fs),
                        forall|j: int| 0 <= j < i ==> !filter_holds(self.attributes@, #[trigger] fs@[j]),
                    decreases fs.len() - i,
                {
                    proof {
                        assert(decreases_to!(*filter => filter->Or_0));
                        assert(filter->Or_0 == *fs);
                        assert(decreases_to!(*fs => fs@));
                        assert(decreases_to!(fs@ => fs@[i as int]));
                    }
                    if self.matches_filter(&fs[i]) {
                        assert(filter_holds(self.attributes@, fs@[i as int]));
                        assert(filter_holds(self.attributes@, Filter::Or(*fs)));
                        return true;
                    }
                    i = i + 1;
                }
                false
            },
            Filter::Not(g) => !self.matches_filter(g),
            Filter::Equality(name, value) => {
                match self.attributes.get_attribute(&CIString::new(name.as_str())) {
                    Some(attribute) => {
                        let bytes = vstd::slice::slice_to_vec(value.as_str().as_bytes());
                        contains_bytes(&attribute.values, &bytes)
                    },
                    None => false,
                }
            },
            Filter::Present(name) => self.attributes.has_attribute(&CIString::new(name.as_str())),
            Filter::Substring(name, sf) => {
                match self.attributes.get_attribute(&CIString::new(name.as_str())) {
                    Some(attribute) => {
                        match CompiledPattern::compile(sf.to_pattern()) {
                            Some(re) => Self::any_value_matches(&re, &attribute.values),
                            None => false,
                        }
                    },
                    None => false,
                }
            },
            Filter::Unsupported => false,
        }
    }

    /// Drops empty attributes and releases spare capacity.
    pub fn tidy(&mut self)
        requires
            old(self).wf(),
        ensures
            final(self).wf(),
            final(self).dn@ == old(self).dn@,
            final(self).acls@ == old(self).acls@,
            final(self).attributes@ == old(self).attributes@.filter(|a: AttributeModel| a.1.len() > 0),
    {
        self.acls.tidy();
        self.attributes.tidy();
        self.dn.tidy();
    }
}

impl Clone for LDAPEntry {
    fn clone(&self) -> (r: Self)
        ensures
            r@ == self@,
            self.wf() ==> r.wf(),
    {
        LDAPEntry { dn: self.dn.clone(), attributes: self.attributes.clone(), acls: self.acls.clone() }
    }
}

impl LDAPACL {
    /// Whether `entry`, holding this policy, may access `target_dn`.
    pub fn can_access_dn(&self, entry: &LDAPEntry, target_dn: &LDAPDN) -> (r: bool)
        ensures
            r == crate::acl::acl_allows(self@, entry.dn@, target_dn@),
    {
        self.allows(&entry.dn, target_dn)
    }
}

} // verus!
