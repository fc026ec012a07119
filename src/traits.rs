use vstd::prelude::*;
use vstd::string::*;
use crate::filter::{opt_view, strings_view};

verus! {

/// Appends, in order, each item of `b` that the running result does not hold
/// yet.
pub open spec fn merge_unique<T>(a: Seq<T>, b: Seq<T>) -> Seq<T>
    decreases b.len(),
{
    if b.len() == 0 {
        a
    } else {
        let m = merge_unique(a, b.drop_last());
        if m.contains(b.last()) {
            m
        } else {
            m.push(b.last())
        }
    }
}

/// Merging keeps every item of the first list, in place, and holds every item
/// of the second.
pub proof fn lemma_merge_unique_keeps<T>(a: Seq<T>, b: Seq<T>)
    ensures
        merge_unique(a, b).len() >= a.len(),
        merge_unique(a, b).subrange(0, a.len() as int) == a,
        forall|x: T| #[trigger] merge_unique(a, b).contains(x) <==> (a.contains(x) || b.contains(x)),
    decreases b.len(),
{
    if b.len() == 0 {
        assert(a.subrange(0, a.len() as int) =~= a);
    } else {
        lemma_merge_unique_keeps(a, b.drop_last());
        let m = merge_unique(a, b.drop_last());
        assert(m.push(b.last()).subrange(0, a.len() as int) =~= m.subrange(0, a.len() as int));
        assert forall|x: T| #[trigger] merge_unique(a, b).contains(x) <==> (a.contains(x) || b.contains(x)) by {
            if b.contains(x) && !b.drop_last().contains(x) {
                let k = choose|k: int| 0 <= k < b.len() && b[k] == x;
                if k < b.len() - 1 {
                    assert(b.drop_last()[k] == x);
                }
            }
            if b.drop_last().contains(x) {
                let k = choose|k: int| 0 <= k < b.drop_last().len() && b.drop_last()[k] == x;
                assert(b[k] == x);
            }
            if m.push(b.last()).contains(x) && !m.contains(x) {
                let k = choose|k: int| 0 <= k < m.push(b.last()).len() && m.push(b.last())[k] == x;
                if k < m.len() {
                    assert(m[k] == x);
                }
                assert(b[b.len() - 1] == x);
            }
            if m.contains(x) {
                let k = choose|k: int| 0 <= k < m.len() && m[k] == x;
                assert(m.push(b.last())[k] == x);
            }
            if x == b.last() {
                assert(m.push(b.last())[m.len() as int] == x);
            }
        }
    }
}

/// Whether `v` holds the bytes `x`.
pub fn contains_bytes(v: &Vec<Vec<u8>>, x: &Vec<u8>) -> (r: bool)
    ensures
        r == v@.map_values(|b: Vec<u8>| b@).contains(x@),
{
    let ghost vv = v@.map_values(|b: Vec<u8>| b@);
    let mut i: usize = 0;
    while i < v.len()
        invariant
            i <= v.len(),
            vv == v@.map_values(|b: Vec<u8>| b@),
            forall|j: int| 0 <= j < i ==> vv[j] != x@,
        decreases v.len() - i,
    {
        let same = v[i] == *x;
        if same {
            assert(vv[i as int] =~= x@);
            return true;
        }
        assert(vv[i as int] != x@) by {
            if vv[i as int] == x@ {
                assert(v[i as int]@ == x@);
            }
        }
        i = i + 1;
    }
    false
}

/// Appends to `a` each value of `b` that it does not hold yet.
pub fn merge_byte_lists(a: &mut Vec<Vec<u8>>, b: Vec<Vec<u8>>)
    ensures
        final(a)@.map_values(|x: Vec<u8>| x@)
            == merge_unique(old(a)@.map_values(|x: Vec<u8>| x@), b@.map_values(|x: Vec<u8>| x@)),
{
    let ghost a0 = a@.map_values(|x: Vec<u8>| x@);
    let ghost bv = b@.map_values(|x: Vec<u8>| x@);
    let mut i: usize = 0;
    let n = b.len();
    while i < n
        invariant
            n == b.len(),
            i <= n,
            bv == b@.map_values(|x: Vec<u8>| x@),
            a@.map_values(|x: Vec<u8>| x@) == merge_unique(a0, bv.subrange(0, i as int)),
        decreases n - i,
    {
        let item = &b[i];
        assert(bv.subrange(0, i + 1).drop_last() =~= bv.subrange(0, i as int));
        if !contains_bytes(a, item) {
            let ghost before = a@.map_values(|x: Vec<u8>| x@);
            a.push(item.clone());
            assert(a@.map_values(|x: Vec<u8>| x@) =~= before.push(item@));
        }
        i = i + 1;
    }
    assert(bv.subrange(0, n as int) =~= bv);
}


/// Values that absorb another value of the same kind, as two configuration
/// sources are combined.
pub trait Mergeable<W>: Sized {
    /// `result` is what merging `other` into `self` gives.
    spec fn merges_to(self, other: W, result: Self) -> bool;

    /// Merges `other` into this value.
    fn merge(&mut self, other: W)
        ensures
            old(self).merges_to(other, *final(self));
}

impl Mergeable<bool> for bool {
    /// Either flag set.
    open spec fn merges_to(self, other: bool, result: bool) -> bool {
        result == (self || other)
    }

    fn merge(&mut self, other: bool) {
        *self = *self || other;
    }
}

impl Mergeable<String> for String {
    /// The existing text, unless it is empty and the other is not.
    open spec fn merges_to(self, other: String, result: String) -> bool {
        result@ == if self@.len() == 0 && other@.len() > 0 {
            other@
        } else {
            self@
        }
    }

    fn merge(&mut self, other: String) {
        if self.as_str().unicode_len() == 0 && other.as_str().unicode_len() > 0 {
            *self = other;
        }
    }
}

impl Mergeable<Option<String>> for Option<String> {
    /// The existing value, unless there is none and the other has one.
    open spec fn merges_to(self, other: Option<String>, result: Option<String>) -> bool {
        opt_view(result) == if self is None && other is Some {
            opt_view(other)
        } else {
            opt_view(self)
        }
    }

    fn merge(&mut self, other: Option<String>) {
        if self.is_none() && other.is_some() {
            *self = other;
        }
    }
}

/// Whether `v` holds the text `s`.
pub fn contains_string(v: &Vec<String>, s: &String) -> (r: bool)
    ensures
        r == strings_view(v@).contains(s@),
{
    let mut i: usize = 0;
    while i < v.len()
        invariant
            i <= v.len(),
            forall|j: int| 0 <= j < i ==> #[trigger] strings_view(v@)[j] != s@,
        decreases v.len() - i,
    {
        if v[i] == *s {
            assert(strings_view(v@)[i as int] == s@);
            return true;
        }
        i = i + 1;
    }
    false
}

impl Mergeable<Vec<String>> for Vec<String> {
    /// The items of the other list that are new, appended in order.
    open spec fn merges_to(self, other: Vec<String>, result: Vec<String>) -> bool {
        strings_view(result@) == merge_unique(strings_view(self@), strings_view(other@))
    }

    fn merge(&mut self, other: Vec<String>) {
        let ghost a0 = strings_view(self@);
        let ghost bv = strings_view(other@);
        let mut i: usize = 0;
        while i < other.len()
            invariant
                i <= other.len(),
                bv == strings_view(other@),
                strings_view(self@) == merge_unique(a0, bv.subrange(0, i as int)),
            decreases other.len() - i,
        {
            assert(bv.subrange(0, i + 1).drop_last() =~= bv.subrange(0, i as int));
            if !contains_string(self, &other[i]) {
                let ghost before = strings_view(self@);
                self.push(other[i].clone());
                assert(strings_view(self@) =~= before.push(bv[i as int]));
            }
            i = i + 1;
        }
        assert(bv.subrange(0, other.len() as int) =~= bv);
    }
}

} // verus!
