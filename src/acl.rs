use vstd::prelude::*;
use crate::dn::{is_suffix, DnModel, LDAPDN};
use crate::text::shrink;

verus! {

/// An access policy as a value: self access, granted suffixes, denied suffixes.
pub type AclModel = (bool, Seq<DnModel>, Seq<DnModel>);

/// Some name of `suffixes` is a suffix of `target`.
pub open spec fn any_suffix(target: DnModel, suffixes: Seq<DnModel>) -> bool {
    exists|i: int| 0 <= i < suffixes.len() && is_suffix(target, #[trigger] suffixes[i])
}

/// A principal named `principal` with policy `acl` may access `target`.
pub open spec fn acl_allows(acl: AclModel, principal: DnModel, target: DnModel) -> bool {
    ||| acl.0 && principal == target
    ||| any_suffix(target, acl.1) && !any_suffix(target, acl.2)
}

/// The views of a list of names.
pub open spec fn dns_view(v: Seq<LDAPDN>) -> Seq<DnModel> {
    v.map_values(|d: LDAPDN| d@)
}

/// The access policy of an entry: it may access itself, and the names under
/// a granted suffix that lie under no denied suffix.
#[derive(Debug)]
pub struct LDAPACL {
    pub can_access_self: bool,
    pub can_access_suffixes: Vec<LDAPDN>,
    pub cant_access_suffixes: Vec<LDAPDN>,
}

impl View for LDAPACL {
    type V = AclModel;

    open spec fn view(&self) -> AclModel {
        (self.can_access_self, dns_view(self.can_access_suffixes@), dns_view(self.cant_access_suffixes@))
    }
}

/// Whether some name of `suffixes` is a suffix of `target`.
pub fn has_matching_suffix(target: &LDAPDN, suffixes: &Vec<LDAPDN>) -> (r: bool)
    ensures
        r == any_suffix(target@, dns_view(suffixes@)),
{
    let mut i: usize = 0;
    while i < suffixes.len()
        invariant
            i <= suffixes.len(),
            forall|j: int| 0 <= j < i ==> !is_suffix(target@, #[trigger] dns_view(suffixes@)[j]),
        decreases suffixes.len() - i,
    {
        if target.matches_suffix(&suffixes[i]) {
            assert(is_suffix(target@, dns_view(suffixes@)[i as int]));
            return true;
        }
        i = i + 1;
    }
    false
}

/// A copy of a list of names.
pub fn copy_dns(v: &Vec<LDAPDN>) -> (r: Vec<LDAPDN>)
    ensures
        dns_view(r@) == dns_view(v@),
{
    let mut out: Vec<LDAPDN> = Vec::new();
    let mut i: usize = 0;
    while i < v.len()
        invariant
            i <= v.len(),
            dns_view(out@) == dns_view(v@).subrange(0, i as int),
        decreases v.len() - i,
    {
        let ghost before = dns_view(out@);
        out.push(v[i].clone());
        assert(dns_view(out@) =~= before.push(v@[i as int]@));
        i = i + 1;
    }
    assert(dns_view(v@).subrange(0, v.len() as int) =~= dns_view(v@));
    out
}

impl LDAPACL {
    /// No access at all.
    pub fn new() -> (r: Self)
        ensures
            r@ == (false, Seq::<DnModel>::empty(), Seq::<DnModel>::empty()),
    {
        let r = LDAPACL { can_access_self: false, can_access_suffixes: Vec::new(), cant_access_suffixes: Vec::new() };
        assert(r@.1 =~= Seq::<DnModel>::empty());
        assert(r@.2 =~= Seq::<DnModel>::empty());
        r
    }

    /// Whether the principal named `principal_dn`, holding this policy, may
    /// access `target_dn`.
    pub fn allows(&self, principal_dn: &LDAPDN, target_dn: &LDAPDN) -> (r: bool)
        ensures
            r == acl_allows(self@, principal_dn@, target_dn@),
    {
        if self.can_access_self && *principal_dn == *target_dn {
            true
        } else {
            has_matching_suffix(target_dn, &self.can_access_suffixes) && !has_matching_suffix(
                target_dn,
                &self.cant_access_suffixes,
            )
        }
    }

    /// Releases spare capacity; the policy is unchanged.
    pub fn tidy(&mut self)
        ensures
            final(self)@ == old(self)@,
    {
        shrink(&mut self.can_access_suffixes);
        shrink(&mut self.cant_access_suffixes);
    }
}

impl Clone for LDAPACL {
    fn clone(&self) -> (r: Self)
        ensures
            r@ == self@,
    {
        LDAPACL {
            can_access_self: self.can_access_self,
            can_access_suffixes: copy_dns(&self.can_access_suffixes),
            cant_access_suffixes: copy_dns(&self.cant_access_suffixes),
        }
    }
}

impl Default for LDAPACL {
    fn default() -> (r: Self)
        ensures
            r@ == (false, Seq::<DnModel>::empty(), Seq::<DnModel>::empty()),
    {
        LDAPACL::new()
    }
}

/// Denying one more suffix never grants an access that was refused.
pub proof fn lemma_deny_monotone(acl: AclModel, denied: DnModel, principal: DnModel, target: DnModel)
    ensures
        acl_allows((acl.0, acl.1, acl.2.push(denied)), principal, target) ==> acl_allows(acl, principal, target),
{
    if any_suffix(target, acl.2) {
        let i = choose|i: int| 0 <= i < acl.2.len() && is_suffix(target, #[trigger] acl.2[i]);
        assert(acl.2.push(denied)[i] == acl.2[i]);
    }
}

} // verus!
