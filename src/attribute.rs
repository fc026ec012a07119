use vstd::prelude::*;
use crate::datatypes::fold;
use crate::text::shrink;
use crate::traits::{merge_byte_lists, merge_unique};

verus! {

/// An attribute as a value: its name and its byte-string values in order.
pub type AttributeModel = (Seq<char>, Seq<Seq<u8>>);

/// The views of a list of byte strings.
pub open spec fn bytes_view(v: Seq<Vec<u8>>) -> Seq<Seq<u8>> {
    v.map_values(|x: Vec<u8>| x@)
}

/// A named attribute with an ordered list of opaque byte-string values.
#[derive(Debug)]
pub struct LDAPAttribute {
    pub name: String,
    pub values: Vec<Vec<u8>>,
}

impl View for LDAPAttribute {
    type V = AttributeModel;

    open spec fn view(&self) -> AttributeModel {
        (self.name@, bytes_view(self.values@))
    }
}

/// A copy of a list of byte strings.
pub fn copy_bytes_list(v: &Vec<Vec<u8>>) -> (r: Vec<Vec<u8>>)
    ensures
        bytes_view(r@) == bytes_view(v@),
{
    let mut out: Vec<Vec<u8>> = Vec::new();
    let mut i: usize = 0;
    while i < v.len()
        invariant
            i <= v.len(),
            bytes_view(out@) == bytes_view(v@).subrange(0, i as int),
        decreases v.len() - i,
    {
        let ghost before = bytes_view(out@);
        out.push(v[i].clone());
        assert(bytes_view(out@) =~= before.push(v@[i as int]@));
        i = i + 1;
    }
    assert(bytes_view(v@).subrange(0, v.len() as int) =~= bytes_view(v@));
    out
}

impl LDAPAttribute {
    /// An attribute with one value.
    pub fn new_single(name: &str, value: &[u8]) -> (r: Self)
        ensures
            r@ == (name@, seq![value@]),
    {
        let mut values: Vec<Vec<u8>> = Vec::new();
        values.push(vstd::slice::slice_to_vec(value));
        let r = LDAPAttribute { name: name.to_owned(), values };
        assert(r@.1 =~= seq![value@]);
        r
    }

    /// An attribute with the given values, in order.
    pub fn new_multiple(name: &str, values: Vec<Vec<u8>>) -> (r: Self)
        ensures
            r@ == (name@, bytes_view(values@)),
    {
        LDAPAttribute { name: name.to_owned(), values }
    }

    /// Whether the attribute has no value.
    pub fn is_empty(&self) -> (r: bool)
        ensures
            r == (self@.1.len() == 0),
    {
        self.values.len() == 0
    }

    /// Releases spare capacity; the attribute is unchanged.
    pub fn tidy(&mut self)
        ensures
            final(self)@ == old(self)@,
    {
        shrink(&mut self.values);
    }

    /// Appends the values of `other` that this attribute does not hold yet;
    /// the name stays.
    pub fn merge(&mut self, other: LDAPAttribute)
        requires
            fold(old(self)@.0) == fold(other@.0),
        ensures
            final(self)@ == (old(self)@.0, merge_unique(old(self)@.1, other@.1)),
    {
        merge_byte_lists(&mut self.values, other.values);
    }
}

impl Clone for LDAPAttribute {
    fn clone(&self) -> (r: Self)
        ensures
            r@ == self@,
    {
        LDAPAttribute { name: self.name.clone(), values: copy_bytes_list(&self.values) }
    }
}

} // verus!
