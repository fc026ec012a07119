use vstd::prelude::*;
use crate::attribute::{AttributeModel, LDAPAttribute};
use crate::datatypes::{fold, lemma_fold_toggle, toggle_case, CIString};
use crate::traits::merge_unique;
use vstd::string::*;

verus! {

/// `i` is the position of the attribute whose folded name is `key`.
pub open spec fn key_at(attrs: Seq<AttributeModel>, key: Seq<char>, i: int) -> bool {
    0 <= i < attrs.len() && fold(attrs[i].0) == key
}

/// No two attributes share a folded name.
pub open spec fn unique_keys(attrs: Seq<AttributeModel>) -> bool {
    forall|i: int, j: int|
        0 <= i < attrs.len() && 0 <= j < attrs.len() && i != j ==> fold(#[trigger] attrs[i].0) != fold(
            #[trigger] attrs[j].0,
        )
}

/// The attribute whose folded name is `key`, if any.
pub open spec fn lookup(attrs: Seq<AttributeModel>, key: Seq<char>) -> Option<AttributeModel> {
    if exists|i: int| key_at(attrs, key, i) {
        Some(attrs[choose|i: int| key_at(attrs, key, i)])
    } else {
        None
    }
}

/// The set after adding `a`: its values join those of the attribute with the
/// same folded name, or it is appended as a new attribute.
pub open spec fn add_spec(attrs: Seq<AttributeModel>, a: AttributeModel) -> Seq<AttributeModel> {
    if exists|i: int| key_at(attrs, fold(a.0), i) {
        let i = choose|i: int| key_at(attrs, fold(a.0), i);
        attrs.update(i, (attrs[i].0, merge_unique(attrs[i].1, a.1)))
    } else {
        attrs.push(a)
    }
}

/// The set after adding each attribute of `others`, in order.
pub open spec fn add_all(attrs: Seq<AttributeModel>, others: Seq<AttributeModel>) -> Seq<AttributeModel>
    decreases others.len(),
{
    if others.len() == 0 {
        attrs
    } else {
        add_spec(add_all(attrs, others.drop_last()), others.last())
    }
}

/// The value list of the attribute named `key` (folded), or nothing.
pub open spec fn values_of(attrs: Seq<AttributeModel>, key: Seq<char>) -> Seq<Seq<u8>> {
    match lookup(attrs, key) {
        Some(a) => a.1,
        None => Seq::empty(),
    }
}

/// The attribute set with `key` at position `i` is that attribute.
pub proof fn lemma_lookup_at(attrs: Seq<AttributeModel>, key: Seq<char>, i: int)
    requires
        unique_keys(attrs),
        key_at(attrs, key, i),
    ensures
        lookup(attrs, key) == Some(attrs[i]),
{
    let j = choose|j: int| key_at(attrs, key, j);
    assert(j == i);
}

/// A set of attributes, looked up by case-insensitive name. Names are unique
/// after folding; the order is that of first insertion.
#[derive(Debug)]
pub struct LDAPAttributes {
    keys: Vec<CIString>,
    attributes: Vec<LDAPAttribute>,
}

impl View for LDAPAttributes {
    type V = Seq<AttributeModel>;

    closed spec fn view(&self) -> Seq<AttributeModel> {
        self.attributes@.map_values(|a: LDAPAttribute| a@)
    }
}

impl LDAPAttributes {
    /// The stored folded names match the attributes, and are unique.
    pub closed spec fn wf(&self) -> bool {
        &&& self.keys.len() == self.attributes.len()
        &&& forall|i: int|
            0 <= i < self.keys.len() ==> (#[trigger] self.keys@[i]).lower@ == fold(
                self.attributes@[i].name@,
            )
        &&& unique_keys(self@)
    }

    /// The empty set.
    pub fn new() -> (r: Self)
        ensures
            r.wf(),
            r@ == Seq::<AttributeModel>::empty(),
    {
        let r = LDAPAttributes { keys: Vec::new(), attributes: Vec::new() };
        assert(r@ =~= Seq::<AttributeModel>::empty());
        r
    }

    /// The number of attributes.
    pub fn len(&self) -> (r: usize)
        requires
            self.wf(),
        ensures
            r == self@.len(),
    {
        self.attributes.len()
    }

    /// All attributes, in order.
    pub fn iter(&self) -> (r: &Vec<LDAPAttribute>)
        ensures
            r@.map_values(|a: LDAPAttribute| a@) == self@,
    {
        &self.attributes
    }

    /// The position of the attribute whose folded name is `key`.
    fn find(&self, key: &String) -> (r: Option<usize>)
        requires
            self.wf(),
        ensures
            match r {
                Some(i) => key_at(self@, key@, i as int),
                None => !exists|i: int| key_at(self@, key@, i),
            },
    {
        let mut i: usize = 0;
        while i < self.keys.len()
            invariant
                self.wf(),
                i <= self.keys.len(),
                forall|j: int| 0 <= j < i ==> !key_at(self@, key@, j),
            decreases self.keys.len() - i,
        {
            if self.keys[i].lower == *key {
                assert(key_at(self@, key@, i as int));
                return Some(i);
            }
            assert(!key_at(self@, key@, i as int)) by {
                assert(self.keys@[i as int].lower@ == fold(self.attributes@[i as int].name@));
            }
            i = i + 1;
        }
        None
    }

    /// Adds `attribute`: its values join those of the attribute with the same
    /// folded name (keeping that one's name), or it is appended.
    pub fn add_attribute(&mut self, attribute: LDAPAttribute)
        requires
            old(self).wf(),
        ensures
            final(self).wf(),
            final(self)@ == add_spec(old(self)@, attribute@),
    {
        let key = CIString::new(attribute.name.as_str());
        let ghost old_view = self@;
        match self.find(&key.lower) {
            Some(i) => {
                let ghost j = choose|j: int| key_at(old_view, fold(attribute@.0), j);
                assert(j == i as int) by {
                    lemma_lookup_at(old_view, fold(attribute@.0), i as int);
                }
                let mut slot = self.attributes.remove(i);
                slot.merge(attribute);
                self.attributes.insert(i, slot);
                assert(self@ =~= old_view.update(i as int, (old_view[i as int].0, merge_unique(old_view[i as int].1, attribute@.1))));
                assert forall|a: int, b: int|
                    0 <= a < self@.len() && 0 <= b < self@.len() && a != b implies fold(#[trigger] self@[a].0) != fold(#[trigger] self@[b].0) by {
                    assert(self@[a].0 == old_view[a].0);
                    assert(self@[b].0 == old_view[b].0);
                }
                assert forall|k: int| 0 <= k < self.keys.len() implies (#[trigger] self.keys@[k]).lower@ == fold(self.attributes@[k].name@) by {
                    assert(self.attributes@[k].name@ == self@[k].0);
                    assert(self@[k].0 == old_view[k].0);
                }
            },
            None => {
                self.keys.push(key);
                self.attributes.push(attribute);
                assert(self@ =~= old_view.push(attribute@));
                assert forall|a: int, b: int|
                    0 <= a < self@.len() && 0 <= b < self@.len() && a != b implies fold(#[trigger] self@[a].0) != fold(#[trigger] self@[b].0) by {
                    if a == old_view.len() {
                        assert(!key_at(old_view, fold(attribute@.0), b));
                    } else if b == old_view.len() {
                        assert(!key_at(old_view, fold(attribute@.0), a));
                    }
                }
            },
        }
    }

    /// Adds the value `v` to the attribute named `k`.
    pub fn add_value(&mut self, k: &str, v: &[u8])
        requires
            old(self).wf(),
        ensures
            final(self).wf(),
            final(self)@ == add_spec(old(self)@, (k@, seq![v@])),
    {
        self.add_attribute(LDAPAttribute::new_single(k, v));
    }

    /// Adds the value `v` to the attribute named `k` unless it holds it already.
    pub fn add_value_if_absent(&mut self, k: &str, v: &[u8])
        requires
            old(self).wf(),
        ensures
            final(self).wf(),
            match lookup(old(self)@, fold(k@)) {
                Some(a) if a.1.contains(v@) => final(self)@ == old(self)@,
                _ => final(self)@ == add_spec(old(self)@, (k@, seq![v@])),
            },
    {
        let key = CIString::new(k);
        let ghost old_view = self@;
        match self.find(&key.lower) {
            Some(i) => {
                proof {
                    lemma_lookup_at(old_view, fold(k@), i as int);
                }
                let present = crate::traits::contains_bytes(&self.attributes[i].values, &vstd::slice::slice_to_vec(v));
                if !present {
                    self.add_attribute(LDAPAttribute::new_single(k, v));
                }
            },
            None => {
                self.add_attribute(LDAPAttribute::new_single(k, v));
            },
        }
    }

    /// Whether the attribute named `k` exists.
    pub fn has_attribute(&self, k: &CIString) -> (r: bool)
        requires
            self.wf(),
        ensures
            r == lookup(self@, k@) is Some,
    {
        self.find(&k.lower).is_some()
    }

    /// The attribute named `k`, if any.
    pub fn get_attribute(&self, k: &CIString) -> (r: Option<&LDAPAttribute>)
        requires
            self.wf(),
        ensures
            match r {
                Some(a) => lookup(self@, k@) == Some(a@),
                None => lookup(self@, k@) is None,
            },
    {
        match self.find(&k.lower) {
            Some(i) => {
                proof {
                    lemma_lookup_at(self@, k@, i as int);
                }
                Some(&self.attributes[i])
            },
            None => None,
        }
    }

    /// Whether one of the `userPassword` values is exactly the bytes of
    /// `password`.
    pub fn check_password(&self, password: &str) -> (r: bool)
        requires
            self.wf(),
        ensures
            r == values_of(self@, fold("userPassword"@)).contains(password.spec_bytes()),
    {
        let key = CIString::new("userPassword");
        match self.get_attribute(&key) {
            Some(attribute) => {
                let bytes = vstd::slice::slice_to_vec(password.as_bytes());
                crate::traits::contains_bytes(&attribute.values, &bytes)
            },
            None => false,
        }
    }

    /// Adds every attribute of `other`, in order.
    pub fn merge(&mut self, other: LDAPAttributes)
        requires
            old(self).wf(),
        ensures
            final(self).wf(),
            final(self)@ == add_all(old(self)@, other@),
    {
        let ghost start = self@;
        let LDAPAttributes { keys: _, attributes } = other;
        let ghost ov = attributes@.map_values(|a: LDAPAttribute| a@);
        let n = attributes.len();
        let mut i: usize = 0;
        while i < n
            invariant
                n == attributes.len(),
                i <= n,
                ov == attributes@.map_values(|a: LDAPAttribute| a@),
                self.wf(),
                self@ == add_all(start, ov.subrange(0, i as int)),
            decreases n - i,
        {
            self.add_attribute(attributes[i].clone());
            assert(ov.subrange(0, i + 1).drop_last() =~= ov.subrange(0, i as int));
            i = i + 1;
        }
        assert(ov.subrange(0, n as int) =~= ov);
    }

    /// Drops the attributes that hold no value and releases spare capacity.
    pub fn tidy(&mut self)
        requires
            old(self).wf(),
        ensures
            final(self).wf(),
            final(self)@ == old(self)@.filter(|a: AttributeModel| a.1.len() > 0),
    {
        let ghost old_view = self@;
        let mut keys: Vec<CIString> = Vec::new();
        let mut attributes: Vec<LDAPAttribute> = Vec::new();
        let mut i: usize = 0;
        while i < self.attributes.len()
            invariant
                i <= self.attributes.len(),
                self.wf(),
                self@ == old_view,
                keys.len() == attributes.len(),
                forall|k: int| 0 <= k < keys.len() ==> (#[trigger] keys@[k]).lower@ == fold(attributes@[k].name@),
                attributes@.map_values(|a: LDAPAttribute| a@) == old_view.subrange(0, i as int).filter(|a: AttributeModel| a.1.len() > 0),
            decreases self.attributes.len() - i,
        {
            let ghost before = attributes@.map_values(|a: LDAPAttribute| a@);
            proof {
                assert(old_view.subrange(0, i + 1) =~= old_view.subrange(0, i as int).push(old_view[i as int]));
                old_view.subrange(0, i as int).lemma_filter_push(old_view[i as int], |a: AttributeModel| a.1.len() > 0);
            }
            if !self.attributes[i].is_empty() {
                let mut a = self.attributes[i].clone();
                a.tidy();
                keys.push(self.keys[i].clone());
                attributes.push(a);
                assert(attributes@.map_values(|a: LDAPAttribute| a@) =~= before.push(old_view[i as int]));
            }
            i = i + 1;
        }
        assert(old_view.subrange(0, old_view.len() as int) =~= old_view);
        proof {
            let f = old_view.filter(|a: AttributeModel| a.1.len() > 0);
            assert(attributes@.map_values(|a: LDAPAttribute| a@) == f);
            assert forall|a: int, b: int|
                0 <= a < f.len() && 0 <= b < f.len() && a != b implies fold(#[trigger] f[a].0) != fold(#[trigger] f[b].0) by {
                lemma_filter_unique(old_view, a, b);
            }
        }
        self.keys = keys;
        self.attributes = attributes;
    }
}

/// Filtering keeps folded names unique.
proof fn lemma_filter_unique(s: Seq<AttributeModel>, a: int, b: int)
    requires
        unique_keys(s),
        0 <= a < s.filter(|x: AttributeModel| x.1.len() > 0).len(),
        0 <= b < s.filter(|x: AttributeModel| x.1.len() > 0).len(),
        a != b,
    ensures
        fold(s.filter(|x: AttributeModel| x.1.len() > 0)[a].0) != fold(
            s.filter(|x: AttributeModel| x.1.len() > 0)[b].0,
        ),
    decreases s.len(),
{
    let p = |x: AttributeModel| x.1.len() > 0;
    let f = s.filter(p);
    if s.len() > 0 {
        let t = s.drop_last();
        assert(s =~= t.push(s.last()));
        t.lemma_filter_push(s.last(), p);
        assert(unique_keys(t)) by {
            assert forall|i: int, j: int|
                0 <= i < t.len() && 0 <= j < t.len() && i != j implies fold(#[trigger] t[i].0) != fold(#[trigger] t[j].0) by {
                assert(t[i] == s[i] && t[j] == s[j]);
            }
        }
        let ft = t.filter(p);
        if p(s.last()) {
            if a < ft.len() && b < ft.len() {
                lemma_filter_unique(t, a, b);
            } else {
                // one of the two is the last element of `s`
                let k = if a < ft.len() { a } else { b };
                assert(ft.contains(ft[k]));
                t.lemma_filter_contains_rev(p, ft[k]);
                let j = choose|j: int| 0 <= j < t.len() && t[j] == ft[k];
                assert(s[j] == ft[k]);
                assert(fold(s[j].0) != fold(s[s.len() - 1].0));
            }
        } else {
            lemma_filter_unique(t, a, b);
        }
    }
}

impl Default for LDAPAttributes {
    fn default() -> (r: Self)
        ensures
            r.wf(),
            r@ == Seq::<AttributeModel>::empty(),
    {
        LDAPAttributes::new()
    }
}

impl Clone for LDAPAttributes {
    fn clone(&self) -> (r: Self)
        ensures
            self.wf() ==> r.wf(),
            r@ == self@,
    {
        let mut keys: Vec<CIString> = Vec::new();
        let mut attributes: Vec<LDAPAttribute> = Vec::new();
        let n = self.attributes.len();
        let mut i: usize = 0;
        while i < n
            invariant
                n == self.attributes.len(),
                i <= n,
                self.wf() ==> keys.len() == attributes.len(),
                self.wf() ==> forall|k: int| 0 <= k < keys.len() ==> (#[trigger] keys@[k]).lower@ == fold(attributes@[k].name@),
                attributes@.map_values(|a: LDAPAttribute| a@) == self@.subrange(0, i as int),
            decreases n - i,
        {
            let ghost before = attributes@.map_values(|a: LDAPAttribute| a@);
            if i < self.keys.len() {
                keys.push(self.keys[i].clone());
            }
            attributes.push(self.attributes[i].clone());
            assert(attributes@.map_values(|a: LDAPAttribute| a@) =~= before.push(self@[i as int]));
            i = i + 1;
        }
        assert(self@.subrange(0, n as int) =~= self@);
        LDAPAttributes { keys, attributes }
    }
}

/// In a well-formed set no two attributes share a folded name, so each
/// attribute is the one `lookup` finds under its folded name.
pub proof fn lemma_attributes_unique(attrs: &LDAPAttributes)
    requires
        attrs.wf(),
    ensures
        unique_keys(attrs@),
        forall|i: int| 0 <= i < attrs@.len() ==> lookup(attrs@, fold(#[trigger] attrs@[i].0)) == Some(attrs@[i]),
{
    assert forall|i: int| 0 <= i < attrs@.len() implies lookup(attrs@, fold(#[trigger] attrs@[i].0)) == Some(attrs@[i]) by {
        lemma_lookup_at(attrs@, fold(attrs@[i].0), i);
    }
}

/// Looking an attribute up does not depend on the case of the name's ASCII
/// letters.
pub proof fn lemma_lookup_ignores_case(attrs: Seq<AttributeModel>, name: Seq<char>)
    ensures
        lookup(attrs, fold(toggle_case(name))) == lookup(attrs, fold(name)),
{
    lemma_fold_toggle(name);
}

} // verus!
