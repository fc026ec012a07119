use vstd::prelude::*;
use vstd::string::*;
use vstd::utf8::encode_utf8;
use crate::attribute::AttributeModel;
use crate::attributes::{lookup, values_of};
use crate::datatypes::{fold, CIString};
use crate::dn::{is_suffix, DnModel, LDAPDN};
use crate::entry::{bind_capable, filter_holds, EntryModel, LDAPEntry};
use crate::filter::Filter;
use crate::text::shrink;

verus! {

/// The attribute names the database indexes, as written.
pub open spec fn indexed_names() -> Seq<Seq<char>> {
    seq!["cn"@, "mail"@, "mailAlias"@, "memberOf"@, "objectClass"@, "uid"@, "uniqueMember"@]
}

/// The folded form of the `j`-th indexed name.
pub open spec fn ikey(j: int) -> Seq<char> {
    fold(indexed_names()[j])
}

/// `key` is the folded form of an indexed name.
pub open spec fn indexed_key(key: Seq<char>) -> bool {
    exists|j: int| 0 <= j < 7 && ikey(j) == key
}

/// `suffix` is a suffix of `dn` other than `dn` itself.
pub open spec fn proper_suffix(dn: DnModel, suffix: DnModel) -> bool {
    is_suffix(dn, suffix) && dn != suffix
}

/// A row of the equality index: folded name, value, positions of the entries
/// holding that value under that name.
pub type EqRow = (Seq<char>, Seq<u8>, Seq<usize>);

/// A row of the presence index: folded name, positions of the entries that
/// have the attribute.
pub type PresenceRow = (Seq<char>, Seq<usize>);

/// A row of the suffix index: a name, positions of the entries strictly under
/// it.
pub type SuffixRow = (DnModel, Seq<usize>);

/// Every position listed is below `n`.
pub open spec fn members_below(m: Seq<usize>, n: int) -> bool {
    forall|j: int| 0 <= j < m.len() ==> #[trigger] m[j] < n
}

/// The equality index lists exactly the entries holding each (name, value),
/// has a row for every indexed (name, value) some entry holds, and no two rows
/// share a key.
pub open spec fn eq_index_ok(es: Seq<EntryModel>, rows: Seq<EqRow>) -> bool {
    &&& forall|k: int| 0 <= k < rows.len() ==> indexed_key(#[trigger] rows[k].0)
    &&& forall|k: int| 0 <= k < rows.len() ==> members_below(#[trigger] rows[k].2, es.len() as int)
    &&& forall|k: int, i: int|
        0 <= k < rows.len() && 0 <= i < es.len() ==> (#[trigger] rows[k].2.contains(i as usize)
            <==> values_of(#[trigger] es[i].1, rows[k].0).contains(rows[k].1))
    &&& forall|i: int, key: Seq<char>, v: Seq<u8>|
        0 <= i < es.len() && indexed_key(key) && #[trigger] values_of(es[i].1, key).contains(v)
            ==> exists|k: int| 0 <= k < rows.len() && #[trigger] rows[k].0 == key && rows[k].1 == v
    &&& forall|k: int, l: int|
        0 <= k < rows.len() && 0 <= l < rows.len() && k != l ==> (#[trigger] rows[k].0, rows[k].1) != (
            #[trigger] rows[l].0,
            rows[l].1,
        )
}

/// The presence index lists exactly the entries having each name, has a row
/// for every indexed name some entry has, and no two rows share a name.
pub open spec fn presence_index_ok(es: Seq<EntryModel>, rows: Seq<PresenceRow>) -> bool {
    &&& forall|k: int| 0 <= k < rows.len() ==> indexed_key(#[trigger] rows[k].0)
    &&& forall|k: int| 0 <= k < rows.len() ==> members_below(#[trigger] rows[k].1, es.len() as int)
    &&& forall|k: int, i: int|
        0 <= k < rows.len() && 0 <= i < es.len() ==> (#[trigger] rows[k].1.contains(i as usize)
            <==> lookup(#[trigger] es[i].1, rows[k].0) is Some)
    &&& forall|i: int, key: Seq<char>|
        0 <= i < es.len() && indexed_key(key) && #[trigger] lookup(es[i].1, key) is Some
            ==> exists|k: int| 0 <= k < rows.len() && #[trigger] rows[k].0 == key
    &&& forall|k: int, l: int|
        0 <= k < rows.len() && 0 <= l < rows.len() && k != l ==> #[trigger] rows[k].0 != #[trigger] rows[l].0
}

/// The suffix index lists, for each name, exactly the entries strictly under
/// it, has a row for every proper suffix of every entry's name, and no two
/// rows share a name.
pub open spec fn suffix_index_ok(es: Seq<EntryModel>, rows: Seq<SuffixRow>) -> bool {
    &&& forall|k: int| 0 <= k < rows.len() ==> members_below(#[trigger] rows[k].1, es.len() as int)
    &&& forall|k: int, i: int|
        0 <= k < rows.len() && 0 <= i < es.len() ==> (#[trigger] rows[k].1.contains(i as usize)
            <==> proper_suffix(#[trigger] es[i].0, rows[k].0))
    &&& forall|i: int, d: DnModel|
        0 <= i < es.len() && #[trigger] proper_suffix(es[i].0, d)
            ==> exists|k: int| 0 <= k < rows.len() && #[trigger] rows[k].0 == d
    &&& forall|k: int, l: int|
        0 <= k < rows.len() && 0 <= l < rows.len() && k != l ==> #[trigger] rows[k].0 != #[trigger] rows[l].0
}

/// No two entries share a name.
pub open spec fn distinct_dns(es: Seq<EntryModel>) -> bool {
    forall|i: int, j: int| 0 <= i < es.len() && 0 <= j < es.len() && i != j ==> #[trigger] es[i].0 != #[trigger] es[j].0
}

/// The login list holds exactly the positions of the entries that may bind.
pub open spec fn login_ok(es: Seq<EntryModel>, login: Seq<usize>) -> bool {
    &&& members_below(login, es.len() as int)
    &&& forall|i: int| 0 <= i < es.len() ==> (login.contains(i as usize) <==> bind_capable(#[trigger] es[i]))
}


/// The equality index agrees with the entries `es` (positions below `n`) and,
/// for position `n`, lists it under exactly the keys that `done` accepts.
pub open spec fn eq_partial(es: Seq<EntryModel>, rows: Seq<EqRow>, done: spec_fn(Seq<char>, Seq<u8>) -> bool) -> bool {
    let n = es.len() as int;
    &&& forall|k: int| 0 <= k < rows.len() ==> indexed_key(#[trigger] rows[k].0)
    &&& forall|k: int| 0 <= k < rows.len() ==> members_below(#[trigger] rows[k].2, n + 1)
    &&& forall|k: int, i: int|
        0 <= k < rows.len() && 0 <= i < n ==> (#[trigger] rows[k].2.contains(i as usize)
            <==> values_of(#[trigger] es[i].1, rows[k].0).contains(rows[k].1))
    &&& forall|i: int, key: Seq<char>, v: Seq<u8>|
        0 <= i < n && indexed_key(key) && #[trigger] values_of(es[i].1, key).contains(v)
            ==> exists|k: int| 0 <= k < rows.len() && #[trigger] rows[k].0 == key && rows[k].1 == v
    &&& forall|k: int, l: int|
        0 <= k < rows.len() && 0 <= l < rows.len() && k != l ==> (#[trigger] rows[k].0, rows[k].1) != (
            #[trigger] rows[l].0,
            rows[l].1,
        )
    &&& forall|k: int| 0 <= k < rows.len() ==> (#[trigger] rows[k].2.contains(n as usize) <==> done(rows[k].0, rows[k].1))
    &&& forall|key: Seq<char>, v: Seq<u8>| #[trigger] done(key, v) ==> exists|k: int| 0 <= k < rows.len() && #[trigger] rows[k].0 == key && rows[k].1 == v
}

/// The (name, value) pairs of `attrs` under the first `a` indexed names.
pub open spec fn eq_names_done(attrs: Seq<AttributeModel>, a: int) -> spec_fn(Seq<char>, Seq<u8>) -> bool {
    |k: Seq<char>, v: Seq<u8>| exists|j: int| 0 <= j < a && ikey(j) == k && values_of(attrs, k).contains(v)
}

/// Those pairs, and the first `b` values under the `a`-th indexed name.
pub open spec fn eq_values_done(attrs: Seq<AttributeModel>, a: int, vals: Seq<Seq<u8>>, b: int) -> spec_fn(Seq<char>, Seq<u8>) -> bool {
    |k: Seq<char>, v: Seq<u8>| eq_names_done(attrs, a)(k, v) || (k == ikey(a) && exists|c: int| 0 <= c < b && vals[c] == v)
}

/// The first `a` indexed names that `attrs` has.
pub open spec fn presence_names_done(attrs: Seq<AttributeModel>, a: int) -> spec_fn(Seq<char>) -> bool {
    |k: Seq<char>| exists|j: int| 0 <= j < a && ikey(j) == k && lookup(attrs, k) is Some
}

/// The suffixes of `dn` with fewer than `len` components.
pub open spec fn suffixes_done(dn: DnModel, len: int) -> spec_fn(DnModel) -> bool {
    |d: DnModel| exists|l: int| 0 <= l < len && d == #[trigger] dn.subrange(dn.len() - l, dn.len() as int)
}

/// The presence index agrees with `es` and lists position `n` under exactly
/// the names that `done` accepts.
pub open spec fn presence_partial(es: Seq<EntryModel>, rows: Seq<PresenceRow>, done: spec_fn(Seq<char>) -> bool) -> bool {
    let n = es.len() as int;
    &&& forall|k: int| 0 <= k < rows.len() ==> indexed_key(#[trigger] rows[k].0)
    &&& forall|k: int| 0 <= k < rows.len() ==> members_below(#[trigger] rows[k].1, n + 1)
    &&& forall|k: int, i: int|
        0 <= k < rows.len() && 0 <= i < n ==> (#[trigger] rows[k].1.contains(i as usize)
            <==> lookup(#[trigger] es[i].1, rows[k].0) is Some)
    &&& forall|i: int, key: Seq<char>|
        0 <= i < n && indexed_key(key) && #[trigger] lookup(es[i].1, key) is Some
            ==> exists|k: int| 0 <= k < rows.len() && #[trigger] rows[k].0 == key
    &&& forall|k: int, l: int|
        0 <= k < rows.len() && 0 <= l < rows.len() && k != l ==> #[trigger] rows[k].0 != #[trigger] rows[l].0
    &&& forall|k: int| 0 <= k < rows.len() ==> (#[trigger] rows[k].1.contains(n as usize) <==> done(rows[k].0))
    &&& forall|key: Seq<char>| #[trigger] done(key) ==> exists|k: int| 0 <= k < rows.len() && #[trigger] rows[k].0 == key
}

/// The suffix index agrees with `es` and lists position `n` under exactly the
/// names that `done` accepts.
pub open spec fn suffix_partial(es: Seq<EntryModel>, rows: Seq<SuffixRow>, done: spec_fn(DnModel) -> bool) -> bool {
    let n = es.len() as int;
    &&& forall|k: int| 0 <= k < rows.len() ==> members_below(#[trigger] rows[k].1, n + 1)
    &&& forall|k: int, i: int|
        0 <= k < rows.len() && 0 <= i < n ==> (#[trigger] rows[k].1.contains(i as usize)
            <==> proper_suffix(#[trigger] es[i].0, rows[k].0))
    &&& forall|i: int, d: DnModel|
        0 <= i < n && #[trigger] proper_suffix(es[i].0, d)
            ==> exists|k: int| 0 <= k < rows.len() && #[trigger] rows[k].0 == d
    &&& forall|k: int, l: int|
        0 <= k < rows.len() && 0 <= l < rows.len() && k != l ==> #[trigger] rows[k].0 != #[trigger] rows[l].0
    &&& forall|k: int| 0 <= k < rows.len() ==> (#[trigger] rows[k].1.contains(n as usize) <==> done(rows[k].0))
    &&& forall|d: DnModel| #[trigger] done(d) ==> exists|k: int| 0 <= k < rows.len() && #[trigger] rows[k].0 == d
}

struct EqIndexRow {
    name: CIString,
    value: Vec<u8>,
    members: Vec<usize>,
}

impl View for EqIndexRow {
    type V = EqRow;

    closed spec fn view(&self) -> EqRow {
        (self.name@, self.value@, self.members@)
    }
}

struct PresenceIndexRow {
    name: CIString,
    members: Vec<usize>,
}

impl View for PresenceIndexRow {
    type V = PresenceRow;

    closed spec fn view(&self) -> PresenceRow {
        (self.name@, self.members@)
    }
}

struct SuffixIndexRow {
    suffix: LDAPDN,
    members: Vec<usize>,
}

impl View for SuffixIndexRow {
    type V = SuffixRow;

    closed spec fn view(&self) -> SuffixRow {
        (self.suffix@, self.members@)
    }
}

/// An immutable snapshot of the directory: every entry by position, the
/// positions of the entries that may bind, and three indexes (attribute
/// equality, attribute presence, name suffix).
pub struct LDAPReadOnlyInMemoryDatabase {
    entries: Vec<LDAPEntry>,
    login_entries: Vec<usize>,
    attr_eq_index: Vec<EqIndexRow>,
    attr_ex_index: Vec<PresenceIndexRow>,
    dn_suffixes_indexes: Vec<SuffixIndexRow>,
}

/// The name of the `j`-th indexed attribute.
fn indexed_name(j: usize) -> (r: &'static str)
    requires
        j < 7,
    ensures
        r@ == indexed_names()[j as int],
{
    if j == 0 {
        "cn"
    } else if j == 1 {
        "mail"
    } else if j == 2 {
        "mailAlias"
    } else if j == 3 {
        "memberOf"
    } else if j == 4 {
        "objectClass"
    } else if j == 5 {
        "uid"
    } else {
        "uniqueMember"
    }
}


/// `done`, and the pair (`key`, `value`) besides.
pub open spec fn eq_with(done: spec_fn(Seq<char>, Seq<u8>) -> bool, key: Seq<char>, value: Seq<u8>) -> spec_fn(Seq<char>, Seq<u8>) -> bool {
    |a: Seq<char>, b: Seq<u8>| done(a, b) || (a == key && b == value)
}

/// `m.push(x)` holds what `m` holds, and `x`.
pub proof fn lemma_push_contains(m: Seq<usize>, x: usize, y: usize)
    ensures
        m.push(x).contains(y) <==> (m.contains(y) || y == x),
{
    if m.push(x).contains(y) && y != x {
        let t = choose|t: int| 0 <= t < m.push(x).len() && m.push(x)[t] == y;
        assert(m[t] == y);
    }
    if m.contains(y) {
        let t = choose|t: int| 0 <= t < m.len() && m[t] == y;
        assert(m.push(x)[t] == y);
    }
    if y == x {
        assert(m.push(x)[m.len() as int] == y);
    }
}

/// Adding position `n` to the row of (`key`, `value`).
proof fn lemma_eq_add_member(es: Seq<EntryModel>, rows: Seq<EqRow>, done: spec_fn(Seq<char>, Seq<u8>) -> bool, k: int, key: Seq<char>, value: Seq<u8>)
    requires
        eq_partial(es, rows, done),
        0 <= k < rows.len(),
        rows[k].0 == key,
        rows[k].1 == value,
        es.len() < usize::MAX,
    ensures
        eq_partial(es, rows.update(k, (key, value, rows[k].2.push(es.len() as usize))), eq_with(done, key, value)),
{
    let n = es.len() as int;
    let nr = rows.update(k, (key, value, rows[k].2.push(n as usize)));
    let d2 = eq_with(done, key, value);
    assert forall|j: int| 0 <= j < nr.len() implies nr[j].0 == rows[j].0 && nr[j].1 == rows[j].1 by {}
    assert forall|j: int, i: int| 0 <= j < nr.len() && 0 <= i <= n implies (#[trigger] nr[j].2.contains(i as usize)
        <==> rows[j].2.contains(i as usize) || (j == k && i == n)) by {
        if j == k {
            lemma_push_contains(rows[j].2, n as usize, i as usize);
        }
    }
    assert forall|j: int| 0 <= j < nr.len() implies members_below(#[trigger] nr[j].2, n + 1) by {
        assert(members_below(rows[j].2, n + 1));
        if j == k {
            assert forall|t: int| 0 <= t < nr[j].2.len() implies #[trigger] nr[j].2[t] < n + 1 by {
                if t < rows[j].2.len() {
                    assert(nr[j].2[t] == rows[j].2[t]);
                }
            }
        }
    }
    assert forall|j: int, i: int| 0 <= j < nr.len() && 0 <= i < n implies (#[trigger] nr[j].2.contains(i as usize)
        <==> values_of(#[trigger] es[i].1, nr[j].0).contains(nr[j].1)) by {
        assert(rows[j].2.contains(i as usize) <==> values_of(es[i].1, rows[j].0).contains(rows[j].1));
    }
    assert forall|i: int, key2: Seq<char>, v: Seq<u8>|
        0 <= i < n && indexed_key(key2) && #[trigger] values_of(es[i].1, key2).contains(v)
        implies exists|j: int| 0 <= j < nr.len() && #[trigger] nr[j].0 == key2 && nr[j].1 == v by {
        let j = choose|j: int| 0 <= j < rows.len() && #[trigger] rows[j].0 == key2 && rows[j].1 == v;
        assert(nr[j].0 == key2);
    }
    assert forall|j: int| 0 <= j < nr.len() implies (#[trigger] nr[j].2.contains(n as usize) <==> d2(nr[j].0, nr[j].1)) by {
        assert(rows[j].2.contains(n as usize) <==> done(rows[j].0, rows[j].1));
        if j != k && rows[j].0 == key && rows[j].1 == value {
            assert((rows[j].0, rows[j].1) != (rows[k].0, rows[k].1));
        }
    }
    assert forall|key2: Seq<char>, v: Seq<u8>| #[trigger] d2(key2, v) implies exists|j: int| 0 <= j < nr.len() && #[trigger] nr[j].0 == key2 && nr[j].1 == v by {
        if done(key2, v) {
            let j = choose|j: int| 0 <= j < rows.len() && #[trigger] rows[j].0 == key2 && rows[j].1 == v;
            assert(nr[j].0 == key2);
        } else {
            assert(nr[k].0 == key2);
        }
    }
    assert forall|a: int, b: int| 0 <= a < nr.len() && 0 <= b < nr.len() && a != b implies (#[trigger] nr[a].0, nr[a].1) != (#[trigger] nr[b].0, nr[b].1) by {
        assert((rows[a].0, rows[a].1) != (rows[b].0, rows[b].1));
    }
    assert forall|j: int| 0 <= j < nr.len() implies indexed_key(#[trigger] nr[j].0) by {
        assert(indexed_key(rows[j].0));
    }
}

/// Adding a row for (`key`, `value`) that lists position `n` alone.
proof fn lemma_eq_add_row(es: Seq<EntryModel>, rows: Seq<EqRow>, done: spec_fn(Seq<char>, Seq<u8>) -> bool, key: Seq<char>, value: Seq<u8>)
    requires
        eq_partial(es, rows, done),
        indexed_key(key),
        forall|j: int| 0 <= j < rows.len() ==> (#[trigger] rows[j].0, rows[j].1) != (key, value),
        es.len() < usize::MAX,
    ensures
        eq_partial(es, rows.push((key, value, seq![es.len() as usize])), eq_with(done, key, value)),
{
    let n = es.len() as int;
    let nr = rows.push((key, value, seq![n as usize]));
    let d2 = eq_with(done, key, value);
    let last = rows.len() as int;
    assert forall|i: int| 0 <= i <= n implies (#[trigger] nr[last].2.contains(i as usize) <==> i == n) by {
        if nr[last].2.contains(i as usize) {
            let t = choose|t: int| 0 <= t < nr[last].2.len() && nr[last].2[t] == i as usize;
            assert(t == 0);
        }
        if i == n {
            assert(nr[last].2[0] == n as usize);
        }
    }
    assert forall|j: int| 0 <= j < nr.len() implies members_below(#[trigger] nr[j].2, n + 1) by {
        if j < last {
            assert(members_below(rows[j].2, n + 1));
        }
    }
    assert forall|j: int, i: int| 0 <= j < nr.len() && 0 <= i < n implies (#[trigger] nr[j].2.contains(i as usize)
        <==> values_of(#[trigger] es[i].1, nr[j].0).contains(nr[j].1)) by {
        if j < last {
            assert(rows[j].2.contains(i as usize) <==> values_of(es[i].1, rows[j].0).contains(rows[j].1));
        } else if values_of(es[i].1, key).contains(value) {
            let t = choose|t: int| 0 <= t < rows.len() && #[trigger] rows[t].0 == key && rows[t].1 == value;
            assert((rows[t].0, rows[t].1) != (key, value));
        }
    }
    assert forall|i: int, key2: Seq<char>, v: Seq<u8>|
        0 <= i < n && indexed_key(key2) && #[trigger] values_of(es[i].1, key2).contains(v)
        implies exists|j: int| 0 <= j < nr.len() && #[trigger] nr[j].0 == key2 && nr[j].1 == v by {
        let j = choose|j: int| 0 <= j < rows.len() && #[trigger] rows[j].0 == key2 && rows[j].1 == v;
        assert(nr[j].0 == key2);
    }
    assert forall|j: int| 0 <= j < nr.len() implies (#[trigger] nr[j].2.contains(n as usize) <==> d2(nr[j].0, nr[j].1)) by {
        if j < last {
            assert(rows[j].2.contains(n as usize) <==> done(rows[j].0, rows[j].1));
        }
    }
    assert forall|key2: Seq<char>, v: Seq<u8>| #[trigger] d2(key2, v) implies exists|j: int| 0 <= j < nr.len() && #[trigger] nr[j].0 == key2 && nr[j].1 == v by {
        if done(key2, v) {
            let j = choose|j: int| 0 <= j < rows.len() && #[trigger] rows[j].0 == key2 && rows[j].1 == v;
            assert(nr[j].0 == key2);
        } else {
            assert(nr[last].0 == key2);
        }
    }
    assert forall|a: int, b: int| 0 <= a < nr.len() && 0 <= b < nr.len() && a != b implies (#[trigger] nr[a].0, nr[a].1) != (#[trigger] nr[b].0, nr[b].1) by {
        if a < last && b < last {
            assert((rows[a].0, rows[a].1) != (rows[b].0, rows[b].1));
        } else if a < last {
            assert((rows[a].0, rows[a].1) != (key, value));
        } else {
            assert((rows[b].0, rows[b].1) != (key, value));
        }
    }
    assert forall|j: int| 0 <= j < nr.len() implies indexed_key(#[trigger] nr[j].0) by {
        if j < last {
            assert(indexed_key(rows[j].0));
        }
    }
}

/// Lists position `n` under (`key`, `value`) in the equality index.
fn index_eq_value(rows: &mut Vec<EqIndexRow>, key: &CIString, value: &Vec<u8>, n: usize, Ghost(es): Ghost<Seq<EntryModel>>, Ghost(done): Ghost<spec_fn(Seq<char>, Seq<u8>) -> bool>)
    requires
        n == es.len(),
        n < usize::MAX,
        indexed_key(key@),
        eq_partial(es, old(rows)@.map_values(|r: EqIndexRow| r@), done),
    ensures
        eq_partial(es, final(rows)@.map_values(|r: EqIndexRow| r@), eq_with(done, key@, value@)),
{
    let ghost old_rows = rows@.map_values(|r: EqIndexRow| r@);
    let mut k: usize = 0;
    while k < rows.len()
        invariant
            k <= rows.len(),
            rows@.map_values(|r: EqIndexRow| r@) == old_rows,
            forall|j: int| 0 <= j < k ==> (#[trigger] old_rows[j].0, old_rows[j].1) != (key@, value@),
            n == es.len(),
            n < usize::MAX,
            indexed_key(key@),
            eq_partial(es, old_rows, done),
        decreases rows.len() - k,
    {
        if rows[k].name.lower == key.lower && rows[k].value == *value {
            assert(old_rows[k as int].1 =~= value@);
            let mut row = rows.remove(k);
            row.members.push(n);
            rows.insert(k, row);
            proof {
                lemma_eq_add_member(es, old_rows, done, k as int, key@, value@);
                assert(rows@.map_values(|r: EqIndexRow| r@) =~= old_rows.update(k as int, (key@, value@, old_rows[k as int].2.push(n))));
            }
            return;
        }
        assert((old_rows[k as int].0, old_rows[k as int].1) != (key@, value@)) by {
            if old_rows[k as int].0 == key@ && old_rows[k as int].1 == value@ {
                assert(rows@[k as int].value@ == value@);
            }
        }
        k = k + 1;
    }
    let mut members: Vec<usize> = Vec::new();
    members.push(n);
    rows.push(EqIndexRow { name: key.clone(), value: value.clone(), members });
    proof {
        lemma_eq_add_row(es, old_rows, done, key@, value@);
        assert(rows@.map_values(|r: EqIndexRow| r@) =~= old_rows.push((key@, value@, seq![n])));
    }
}


/// `done`, and `key` besides.
pub open spec fn name_with(done: spec_fn(Seq<char>) -> bool, key: Seq<char>) -> spec_fn(Seq<char>) -> bool {
    |a: Seq<char>| done(a) || a == key
}

/// `done`, and `d` besides.
pub open spec fn dn_with(done: spec_fn(DnModel) -> bool, d: DnModel) -> spec_fn(DnModel) -> bool {
    |a: DnModel| done(a) || a == d
}

/// Adding position `n` to the row of `key`.
proof fn lemma_presence_add_member(es: Seq<EntryModel>, rows: Seq<PresenceRow>, done: spec_fn(Seq<char>) -> bool, k: int, key: Seq<char>)
    requires
        presence_partial(es, rows, done),
        0 <= k < rows.len(),
        rows[k].0 == key,
        es.len() < usize::MAX,
    ensures
        presence_partial(es, rows.update(k, (key, rows[k].1.push(es.len() as usize))), name_with(done, key)),
{
    let n = es.len() as int;
    let nr = rows.update(k, (key, rows[k].1.push(n as usize)));
    let d2 = name_with(done, key);
    assert forall|j: int, i: int| 0 <= j < nr.len() && 0 <= i <= n implies (#[trigger] nr[j].1.contains(i as usize)
        <==> rows[j].1.contains(i as usize) || (j == k && i == n)) by {
        if j == k {
            lemma_push_contains(rows[j].1, n as usize, i as usize);
        }
    }
    assert forall|j: int| 0 <= j < nr.len() implies members_below(#[trigger] nr[j].1, n + 1) by {
        assert(members_below(rows[j].1, n + 1));
        if j == k {
            assert forall|t: int| 0 <= t < nr[j].1.len() implies #[trigger] nr[j].1[t] < n + 1 by {
                if t < rows[j].1.len() {
                    assert(nr[j].1[t] == rows[j].1[t]);
                }
            }
        }
    }
    assert forall|j: int, i: int| 0 <= j < nr.len() && 0 <= i < n implies (#[trigger] nr[j].1.contains(i as usize)
        <==> lookup(#[trigger] es[i].1, nr[j].0) is Some) by {
        assert(rows[j].1.contains(i as usize) <==> lookup(es[i].1, rows[j].0) is Some);
    }
    assert forall|i: int, key2: Seq<char>|
        0 <= i < n && indexed_key(key2) && #[trigger] lookup(es[i].1, key2) is Some
        implies exists|j: int| 0 <= j < nr.len() && #[trigger] nr[j].0 == key2 by {
        let j = choose|j: int| 0 <= j < rows.len() && #[trigger] rows[j].0 == key2;
        assert(nr[j].0 == key2);
    }
    assert forall|j: int| 0 <= j < nr.len() implies (#[trigger] nr[j].1.contains(n as usize) <==> d2(nr[j].0)) by {
        assert(rows[j].1.contains(n as usize) <==> done(rows[j].0));
        if j != k && rows[j].0 == key {
            assert(rows[j].0 != rows[k].0);
        }
    }
    assert forall|key2: Seq<char>| #[trigger] d2(key2) implies exists|j: int| 0 <= j < nr.len() && #[trigger] nr[j].0 == key2 by {
        if done(key2) {
            let j = choose|j: int| 0 <= j < rows.len() && #[trigger] rows[j].0 == key2;
            assert(nr[j].0 == key2);
        } else {
            assert(nr[k].0 == key2);
        }
    }
    assert forall|a: int, b: int| 0 <= a < nr.len() && 0 <= b < nr.len() && a != b implies #[trigger] nr[a].0 != #[trigger] nr[b].0 by {
        assert(rows[a].0 != rows[b].0);
    }
    assert forall|j: int| 0 <= j < nr.len() implies indexed_key(#[trigger] nr[j].0) by {
        assert(indexed_key(rows[j].0));
    }
}

/// Adding a row for `key` that lists position `n` alone.
proof fn lemma_presence_add_row(es: Seq<EntryModel>, rows: Seq<PresenceRow>, done: spec_fn(Seq<char>) -> bool, key: Seq<char>)
    requires
        presence_partial(es, rows, done),
        indexed_key(key),
        forall|j: int| 0 <= j < rows.len() ==> #[trigger] rows[j].0 != key,
        es.len() < usize::MAX,
    ensures
        presence_partial(es, rows.push((key, seq![es.len() as usize])), name_with(done, key)),
{
    let n = es.len() as int;
    let nr = rows.push((key, seq![n as usize]));
    let d2 = name_with(done, key);
    let last = rows.len() as int;
    assert forall|i: int| 0 <= i <= n implies (#[trigger] nr[last].1.contains(i as usize) <==> i == n) by {
        if nr[last].1.contains(i as usize) {
            let t = choose|t: int| 0 <= t < nr[last].1.len() && nr[last].1[t] == i as usize;
            assert(t == 0);
        }
        if i == n {
            assert(nr[last].1[0] == n as usize);
        }
    }
    assert forall|j: int| 0 <= j < nr.len() implies members_below(#[trigger] nr[j].1, n + 1) by {
        if j < last {
            assert(members_below(rows[j].1, n + 1));
        }
    }
    assert forall|j: int, i: int| 0 <= j < nr.len() && 0 <= i < n implies (#[trigger] nr[j].1.contains(i as usize)
        <==> lookup(#[trigger] es[i].1, nr[j].0) is Some) by {
        if j < last {
            assert(rows[j].1.contains(i as usize) <==> lookup(es[i].1, rows[j].0) is Some);
        } else if lookup(es[i].1, key) is Some {
            let t = choose|t: int| 0 <= t < rows.len() && #[trigger] rows[t].0 == key;
            assert(rows[t].0 != key);
        }
    }
    assert forall|i: int, key2: Seq<char>|
        0 <= i < n && indexed_key(key2) && #[trigger] lookup(es[i].1, key2) is Some
        implies exists|j: int| 0 <= j < nr.len() && #[trigger] nr[j].0 == key2 by {
        let j = choose|j: int| 0 <= j < rows.len() && #[trigger] rows[j].0 == key2;
        assert(nr[j].0 == key2);
    }
    assert forall|j: int| 0 <= j < nr.len() implies (#[trigger] nr[j].1.contains(n as usize) <==> d2(nr[j].0)) by {
        if j < last {
            assert(rows[j].1.contains(n as usize) <==> done(rows[j].0));
        }
    }
    assert forall|key2: Seq<char>| #[trigger] d2(key2) implies exists|j: int| 0 <= j < nr.len() && #[trigger] nr[j].0 == key2 by {
        if done(key2) {
            let j = choose|j: int| 0 <= j < rows.len() && #[trigger] rows[j].0 == key2;
            assert(nr[j].0 == key2);
        } else {
            assert(nr[last].0 == key2);
        }
    }
    assert forall|a: int, b: int| 0 <= a < nr.len() && 0 <= b < nr.len() && a != b implies #[trigger] nr[a].0 != #[trigger] nr[b].0 by {
        if a < last && b < last {
            assert(rows[a].0 != rows[b].0);
        } else if a < last {
            assert(rows[a].0 != key);
        } else {
            assert(rows[b].0 != key);
        }
    }
    assert forall|j: int| 0 <= j < nr.len() implies indexed_key(#[trigger] nr[j].0) by {
        if j < last {
            assert(indexed_key(rows[j].0));
        }
    }
}

/// Lists position `n` under `key` in the presence index.
fn index_presence(rows: &mut Vec<PresenceIndexRow>, key: &CIString, n: usize, Ghost(es): Ghost<Seq<EntryModel>>, Ghost(done): Ghost<spec_fn(Seq<char>) -> bool>)
    requires
        n == es.len(),
        n < usize::MAX,
        indexed_key(key@),
        presence_partial(es, old(rows)@.map_values(|r: PresenceIndexRow| r@), done),
    ensures
        presence_partial(es, final(rows)@.map_values(|r: PresenceIndexRow| r@), name_with(done, key@)),
{
    let ghost old_rows = rows@.map_values(|r: PresenceIndexRow| r@);
    let mut k: usize = 0;
    while k < rows.len()
        invariant
            k <= rows.len(),
            rows@.map_values(|r: PresenceIndexRow| r@) == old_rows,
            forall|j: int| 0 <= j < k ==> #[trigger] old_rows[j].0 != key@,
            n == es.len(),
            n < usize::MAX,
            indexed_key(key@),
            presence_partial(es, old_rows, done),
        decreases rows.len() - k,
    {
        if rows[k].name.lower == key.lower {
            let mut row = rows.remove(k);
            row.members.push(n);
            rows.insert(k, row);
            proof {
                lemma_presence_add_member(es, old_rows, done, k as int, key@);
                assert(rows@.map_values(|r: PresenceIndexRow| r@) =~= old_rows.update(k as int, (key@, old_rows[k as int].1.push(n))));
            }
            return;
        }
        k = k + 1;
    }
    let mut members: Vec<usize> = Vec::new();
    members.push(n);
    rows.push(PresenceIndexRow { name: key.clone(), members });
    proof {
        lemma_presence_add_row(es, old_rows, done, key@);
        assert(rows@.map_values(|r: PresenceIndexRow| r@) =~= old_rows.push((key@, seq![n])));
    }
}

/// Adding position `n` to the row of `d`.
proof fn lemma_suffix_add_member(es: Seq<EntryModel>, rows: Seq<SuffixRow>, done: spec_fn(DnModel) -> bool, k: int, d: DnModel)
    requires
        suffix_partial(es, rows, done),
        0 <= k < rows.len(),
        rows[k].0 == d,
        es.len() < usize::MAX,
    ensures
        suffix_partial(es, rows.update(k, (d, rows[k].1.push(es.len() as usize))), dn_with(done, d)),
{
    let n = es.len() as int;
    let nr = rows.update(k, (d, rows[k].1.push(n as usize)));
    let d2 = dn_with(done, d);
    assert forall|j: int, i: int| 0 <= j < nr.len() && 0 <= i <= n implies (#[trigger] nr[j].1.contains(i as usize)
        <==> rows[j].1.contains(i as usize) || (j == k && i == n)) by {
        if j == k {
            lemma_push_contains(rows[j].1, n as usize, i as usize);
        }
    }
    assert forall|j: int| 0 <= j < nr.len() implies members_below(#[trigger] nr[j].1, n + 1) by {
        assert(members_below(rows[j].1, n + 1));
        if j == k {
            assert forall|t: int| 0 <= t < nr[j].1.len() implies #[trigger] nr[j].1[t] < n + 1 by {
                if t < rows[j].1.len() {
                    assert(nr[j].1[t] == rows[j].1[t]);
                }
            }
        }
    }
    assert forall|j: int, i: int| 0 <= j < nr.len() && 0 <= i < n implies (#[trigger] nr[j].1.contains(i as usize)
        <==> proper_suffix(#[trigger] es[i].0, nr[j].0)) by {
        assert(rows[j].1.contains(i as usize) <==> proper_suffix(es[i].0, rows[j].0));
    }
    assert forall|i: int, d3: DnModel|
        0 <= i < n && #[trigger] proper_suffix(es[i].0, d3)
        implies exists|j: int| 0 <= j < nr.len() && #[trigger] nr[j].0 == d3 by {
        let j = choose|j: int| 0 <= j < rows.len() && #[trigger] rows[j].0 == d3;
        assert(nr[j].0 == d3);
    }
    assert forall|j: int| 0 <= j < nr.len() implies (#[trigger] nr[j].1.contains(n as usize) <==> d2(nr[j].0)) by {
        assert(rows[j].1.contains(n as usize) <==> done(rows[j].0));
        if j != k && rows[j].0 == d {
            assert(rows[j].0 != rows[k].0);
        }
    }
    assert forall|d3: DnModel| #[trigger] d2(d3) implies exists|j: int| 0 <= j < nr.len() && #[trigger] nr[j].0 == d3 by {
        if done(d3) {
            let j = choose|j: int| 0 <= j < rows.len() && #[trigger] rows[j].0 == d3;
            assert(nr[j].0 == d3);
        } else {
            assert(nr[k].0 == d3);
        }
    }
    assert forall|a: int, b: int| 0 <= a < nr.len() && 0 <= b < nr.len() && a != b implies #[trigger] nr[a].0 != #[trigger] nr[b].0 by {
        assert(rows[a].0 != rows[b].0);
    }
}

/// Adding a row for `d` that lists position `n` alone.
proof fn lemma_suffix_add_row(es: Seq<EntryModel>, rows: Seq<SuffixRow>, done: spec_fn(DnModel) -> bool, d: DnModel)
    requires
        suffix_partial(es, rows, done),
        forall|j: int| 0 <= j < rows.len() ==> #[trigger] rows[j].0 != d,
        es.len() < usize::MAX,
    ensures
        suffix_partial(es, rows.push((d, seq![es.len() as usize])), dn_with(done, d)),
{
    let n = es.len() as int;
    let nr = rows.push((d, seq![n as usize]));
    let d2 = dn_with(done, d);
    let last = rows.len() as int;
    assert forall|i: int| 0 <= i <= n implies (#[trigger] nr[last].1.contains(i as usize) <==> i == n) by {
        if nr[last].1.contains(i as usize) {
            let t = choose|t: int| 0 <= t < nr[last].1.len() && nr[last].1[t] == i as usize;
            assert(t == 0);
        }
        if i == n {
            assert(nr[last].1[0] == n as usize);
        }
    }
    assert forall|j: int| 0 <= j < nr.len() implies members_below(#[trigger] nr[j].1, n + 1) by {
        if j < last {
            assert(members_below(rows[j].1, n + 1));
        }
    }
    assert forall|j: int, i: int| 0 <= j < nr.len() && 0 <= i < n implies (#[trigger] nr[j].1.contains(i as usize)
        <==> proper_suffix(#[trigger] es[i].0, nr[j].0)) by {
        if j < last {
            assert(rows[j].1.contains(i as usize) <==> proper_suffix(es[i].0, rows[j].0));
        } else if proper_suffix(es[i].0, d) {
            let t = choose|t: int| 0 <= t < rows.len() && #[trigger] rows[t].0 == d;
            assert(rows[t].0 != d);
        }
    }
    assert forall|i: int, d3: DnModel|
        0 <= i < n && #[trigger] proper_suffix(es[i].0, d3)
        implies exists|j: int| 0 <= j < nr.len() && #[trigger] nr[j].0 == d3 by {
        let j = choose|j: int| 0 <= j < rows.len() && #[trigger] rows[j].0 == d3;
        assert(nr[j].0 == d3);
    }
    assert forall|j: int| 0 <= j < nr.len() implies (#[trigger] nr[j].1.contains(n as usize) <==> d2(nr[j].0)) by {
        if j < last {
            assert(rows[j].1.contains(n as usize) <==> done(rows[j].0));
        }
    }
    assert forall|d3: DnModel| #[trigger] d2(d3) implies exists|j: int| 0 <= j < nr.len() && #[trigger] nr[j].0 == d3 by {
        if done(d3) {
            let j = choose|j: int| 0 <= j < rows.len() && #[trigger] rows[j].0 == d3;
            assert(nr[j].0 == d3);
        } else {
            assert(nr[last].0 == d3);
        }
    }
    assert forall|a: int, b: int| 0 <= a < nr.len() && 0 <= b < nr.len() && a != b implies #[trigger] nr[a].0 != #[trigger] nr[b].0 by {
        if a < last && b < last {
            assert(rows[a].0 != rows[b].0);
        } else if a < last {
            assert(rows[a].0 != d);
        } else {
            assert(rows[b].0 != d);
        }
    }
}

/// Lists position `n` under `suffix` in the suffix index.
fn index_suffix(rows: &mut Vec<SuffixIndexRow>, suffix: LDAPDN, n: usize, Ghost(es): Ghost<Seq<EntryModel>>, Ghost(done): Ghost<spec_fn(DnModel) -> bool>)
    requires
        n == es.len(),
        n < usize::MAX,
        suffix_partial(es, old(rows)@.map_values(|r: SuffixIndexRow| r@), done),
    ensures
        suffix_partial(es, final(rows)@.map_values(|r: SuffixIndexRow| r@), dn_with(done, suffix@)),
{
    let ghost old_rows = rows@.map_values(|r: SuffixIndexRow| r@);
    let mut k: usize = 0;
    while k < rows.len()
        invariant
            k <= rows.len(),
            rows@.map_values(|r: SuffixIndexRow| r@) == old_rows,
            forall|j: int| 0 <= j < k ==> #[trigger] old_rows[j].0 != suffix@,
            n == es.len(),
            n < usize::MAX,
            suffix_partial(es, old_rows, done),
        decreases rows.len() - k,
    {
        if rows[k].suffix == suffix {
            let mut row = rows.remove(k);
            row.members.push(n);
            rows.insert(k, row);
            proof {
                lemma_suffix_add_member(es, old_rows, done, k as int, suffix@);
                assert(rows@.map_values(|r: SuffixIndexRow| r@) =~= old_rows.update(k as int, (suffix@, old_rows[k as int].1.push(n))));
            }
            return;
        }
        k = k + 1;
    }
    let mut members: Vec<usize> = Vec::new();
    members.push(n);
    let ghost sv = suffix@;
    rows.push(SuffixIndexRow { suffix, members });
    proof {
        lemma_suffix_add_row(es, old_rows, done, sv);
        assert(rows@.map_values(|r: SuffixIndexRow| r@) =~= old_rows.push((sv, seq![n])));
    }
}


/// An index that agrees with `es` lists no position `es.len()` yet.
proof fn lemma_partials_start(es: Seq<EntryModel>, eq: Seq<EqRow>, pr: Seq<PresenceRow>, sr: Seq<SuffixRow>, attrs: Seq<AttributeModel>, dn: DnModel)
    requires
        eq_index_ok(es, eq),
        presence_index_ok(es, pr),
        suffix_index_ok(es, sr),
        es.len() < usize::MAX,
    ensures
        eq_partial(es, eq, eq_names_done(attrs, 0)),
        presence_partial(es, pr, presence_names_done(attrs, 0)),
        suffix_partial(es, sr, suffixes_done(dn, 0)),
{
    let n = es.len() as int;
    assert forall|k: int| 0 <= k < eq.len() implies members_below(#[trigger] eq[k].2, n + 1) by {
        assert(members_below(eq[k].2, n));
    }
    assert forall|k: int| 0 <= k < eq.len() implies !(#[trigger] eq[k].2.contains(n as usize)) by {
        assert(members_below(eq[k].2, n));
        if eq[k].2.contains(n as usize) {
            let t = choose|t: int| 0 <= t < eq[k].2.len() && eq[k].2[t] == n as usize;
            assert(eq[k].2[t] < n);
        }
    }
    assert forall|k: int| 0 <= k < pr.len() implies members_below(#[trigger] pr[k].1, n + 1) by {
        assert(members_below(pr[k].1, n));
    }
    assert forall|k: int| 0 <= k < pr.len() implies !(#[trigger] pr[k].1.contains(n as usize)) by {
        assert(members_below(pr[k].1, n));
        if pr[k].1.contains(n as usize) {
            let t = choose|t: int| 0 <= t < pr[k].1.len() && pr[k].1[t] == n as usize;
            assert(pr[k].1[t] < n);
        }
    }
    assert forall|k: int| 0 <= k < sr.len() implies members_below(#[trigger] sr[k].1, n + 1) by {
        assert(members_below(sr[k].1, n));
    }
    assert forall|k: int| 0 <= k < sr.len() implies !(#[trigger] sr[k].1.contains(n as usize)) by {
        assert(members_below(sr[k].1, n));
        if sr[k].1.contains(n as usize) {
            let t = choose|t: int| 0 <= t < sr[k].1.len() && sr[k].1[t] == n as usize;
            assert(sr[k].1[t] < n);
        }
    }
}

/// Once every indexed name is handled, the equality index agrees with the
/// entries and the new one.
proof fn lemma_eq_finish(es: Seq<EntryModel>, e: EntryModel, rows: Seq<EqRow>)
    requires
        eq_partial(es, rows, eq_names_done(e.1, 7)),
    ensures
        eq_index_ok(es.push(e), rows),
{
    let es2 = es.push(e);
    let n = es.len() as int;
    assert forall|k: int, i: int| 0 <= k < rows.len() && 0 <= i < es2.len() implies (#[trigger] rows[k].2.contains(i as usize)
        <==> values_of(#[trigger] es2[i].1, rows[k].0).contains(rows[k].1)) by {
        if i < n {
            assert(es2[i] == es[i]);
            assert(rows[k].2.contains(i as usize) <==> values_of(es[i].1, rows[k].0).contains(rows[k].1));
        } else {
            assert(rows[k].2.contains(n as usize) <==> eq_names_done(e.1, 7)(rows[k].0, rows[k].1));
            assert(indexed_key(rows[k].0));
        }
    }
    assert forall|i: int, key: Seq<char>, v: Seq<u8>|
        0 <= i < es2.len() && indexed_key(key) && #[trigger] values_of(es2[i].1, key).contains(v)
        implies exists|k: int| 0 <= k < rows.len() && #[trigger] rows[k].0 == key && rows[k].1 == v by {
        if i < n {
            assert(es2[i] == es[i]);
        } else {
            assert(eq_names_done(e.1, 7)(key, v));
        }
    }
}

/// Once every indexed name is handled, the presence index agrees with the
/// entries and the new one.
proof fn lemma_presence_finish(es: Seq<EntryModel>, e: EntryModel, rows: Seq<PresenceRow>)
    requires
        presence_partial(es, rows, presence_names_done(e.1, 7)),
    ensures
        presence_index_ok(es.push(e), rows),
{
    let es2 = es.push(e);
    let n = es.len() as int;
    assert forall|k: int, i: int| 0 <= k < rows.len() && 0 <= i < es2.len() implies (#[trigger] rows[k].1.contains(i as usize)
        <==> lookup(#[trigger] es2[i].1, rows[k].0) is Some) by {
        if i < n {
            assert(es2[i] == es[i]);
            assert(rows[k].1.contains(i as usize) <==> lookup(es[i].1, rows[k].0) is Some);
        } else {
            assert(rows[k].1.contains(n as usize) <==> presence_names_done(e.1, 7)(rows[k].0));
            assert(indexed_key(rows[k].0));
        }
    }
    assert forall|i: int, key: Seq<char>|
        0 <= i < es2.len() && indexed_key(key) && #[trigger] lookup(es2[i].1, key) is Some
        implies exists|k: int| 0 <= k < rows.len() && #[trigger] rows[k].0 == key by {
        if i < n {
            assert(es2[i] == es[i]);
        } else {
            assert(presence_names_done(e.1, 7)(key));
        }
    }
}

/// The proper suffixes of a name are its trailing parts that are shorter
/// than it.
proof fn lemma_proper_suffix_trailing(dn: DnModel, d: DnModel)
    ensures
        proper_suffix(dn, d) <==> suffixes_done(dn, dn.len() as int)(d),
{
    if proper_suffix(dn, d) {
        assert(d.len() != dn.len()) by {
            if d.len() == dn.len() {
                assert(dn.subrange(0, dn.len() as int) =~= dn);
            }
        }
        assert(d == dn.subrange(dn.len() - d.len(), dn.len() as int));
    }
    if suffixes_done(dn, dn.len() as int)(d) {
        let l = choose|l: int| 0 <= l < dn.len() && d == #[trigger] dn.subrange(dn.len() - l, dn.len() as int);
        assert(d.len() == l);
    }
}

/// Once every proper suffix is handled, the suffix index agrees with the
/// entries and the new one.
proof fn lemma_suffix_finish(es: Seq<EntryModel>, e: EntryModel, rows: Seq<SuffixRow>)
    requires
        suffix_partial(es, rows, suffixes_done(e.0, e.0.len() as int)),
    ensures
        suffix_index_ok(es.push(e), rows),
{
    let es2 = es.push(e);
    let n = es.len() as int;
    assert forall|k: int, i: int| 0 <= k < rows.len() && 0 <= i < es2.len() implies (#[trigger] rows[k].1.contains(i as usize)
        <==> proper_suffix(#[trigger] es2[i].0, rows[k].0)) by {
        if i < n {
            assert(es2[i] == es[i]);
            assert(rows[k].1.contains(i as usize) <==> proper_suffix(es[i].0, rows[k].0));
        } else {
            assert(rows[k].1.contains(n as usize) <==> suffixes_done(e.0, e.0.len() as int)(rows[k].0));
            lemma_proper_suffix_trailing(e.0, rows[k].0);
        }
    }
    assert forall|i: int, d: DnModel|
        0 <= i < es2.len() && #[trigger] proper_suffix(es2[i].0, d)
        implies exists|k: int| 0 <= k < rows.len() && #[trigger] rows[k].0 == d by {
        if i < n {
            assert(es2[i] == es[i]);
        } else {
            lemma_proper_suffix_trailing(e.0, d);
            assert(suffixes_done(e.0, e.0.len() as int)(d));
        }
    }
}


/// Whether position `i` belongs to the answer of a search under `base` (a
/// name that is no entry's): the entry lies strictly under `base` and meets
/// the filter, with an empty conjunction or disjunction selecting nothing.
pub open spec fn subtree_holds(es: Seq<EntryModel>, base: DnModel, f: Filter, i: int) -> bool
    decreases f,
{
    &&& proper_suffix(es[i].0, base)
    &&& match f {
        Filter::Not(g) => !subtree_holds(es, base, *g, i),
        Filter::And(fs) => fs@.len() > 0 && forall|j: int| 0 <= j < fs@.len() ==> subtree_holds(es, base, #[trigger] fs@[j], i),
        Filter::Or(fs) => exists|j: int| 0 <= j < fs@.len() && subtree_holds(es, base, #[trigger] fs@[j], i),
        Filter::Unsupported => false,
        _ => filter_holds(es[i].1, f),
    }
}

/// Whether position `i` belongs to the answer of `search(base, f)`: when an
/// entry is named `base`, that entry alone if it meets `f`; otherwise the
/// entries strictly under `base` chosen as `subtree_holds` says.
pub open spec fn search_holds(es: Seq<EntryModel>, base: DnModel, f: Filter, i: int) -> bool {
    if exists|j: int| 0 <= j < es.len() && #[trigger] es[j].0 == base {
        es[i].0 == base && filter_holds(es[i].1, f)
    } else {
        subtree_holds(es, base, f, i)
    }
}

/// No conjunction in the filter is empty.
pub open spec fn no_empty_and(f: Filter) -> bool
    decreases f,
{
    match f {
        Filter::And(fs) => fs@.len() > 0 && forall|j: int| 0 <= j < fs@.len() ==> no_empty_and(#[trigger] fs@[j]),
        Filter::Or(fs) => forall|j: int| 0 <= j < fs@.len() ==> no_empty_and(#[trigger] fs@[j]),
        Filter::Not(g) => no_empty_and(*g),
        _ => true,
    }
}

/// An entry after tidying: attributes without values are gone.
pub open spec fn tidied(e: EntryModel) -> EntryModel {
    (e.0, e.1.filter(|a: AttributeModel| a.1.len() > 0), e.2)
}

/// Positions as a list: strictly increasing and all below `n`.
pub open spec fn positions_ok(r: Seq<usize>, n: int) -> bool {
    &&& members_below(r, n)
    &&& forall|a: int, b: int| 0 <= a < b < r.len() ==> #[trigger] r[a] < #[trigger] r[b]
}

/// A mask of `n` flags, all clear.
fn empty_mask(n: usize) -> (r: Vec<bool>)
    ensures
        r.len() == n,
        forall|i: int| 0 <= i < n ==> !(#[trigger] r@[i]),
{
    let mut r: Vec<bool> = Vec::new();
    let mut i: usize = 0;
    while i < n
        invariant
            i <= n,
            r.len() == i,
            forall|j: int| 0 <= j < i ==> !(#[trigger] r@[j]),
        decreases n - i,
    {
        r.push(false);
        i = i + 1;
    }
    r
}

/// The flags of the listed positions.
fn members_mask(members: &Vec<usize>, n: usize) -> (r: Vec<bool>)
    requires
        members_below(members@, n as int),
    ensures
        r.len() == n,
        forall|i: int| 0 <= i < n ==> (#[trigger] r@[i] <==> members@.contains(i as usize)),
{
    let mut r = empty_mask(n);
    let mut k: usize = 0;
    while k < members.len()
        invariant
            k <= members.len(),
            r.len() == n,
            members_below(members@, n as int),
            forall|i: int| 0 <= i < n ==> (#[trigger] r@[i] <==> members@.subrange(0, k as int).contains(i as usize)),
        decreases members.len() - k,
    {
        let m = members[k];
        assert(m < n);
        r.set(m, true);
        proof {
            assert forall|i: int| 0 <= i < n implies (#[trigger] r@[i] <==> members@.subrange(0, k + 1).contains(i as usize)) by {
                assert(members@.subrange(0, k + 1) =~= members@.subrange(0, k as int).push(m));
                lemma_push_contains(members@.subrange(0, k as int), m, i as usize);
            }
        }
        k = k + 1;
    }
    assert(members@.subrange(0, members.len() as int) =~= members@);
    r
}

/// The positions whose flag is set, in increasing order.
fn mask_positions(mask: &Vec<bool>) -> (r: Vec<usize>)
    ensures
        positions_ok(r@, mask.len() as int),
        forall|i: int| 0 <= i < mask.len() ==> (r@.contains(i as usize) <==> #[trigger] mask@[i]),
{
    let mut r: Vec<usize> = Vec::new();
    let mut i: usize = 0;
    while i < mask.len()
        invariant
            i <= mask.len(),
            positions_ok(r@, i as int),
            forall|j: int| 0 <= j < mask.len() ==> (r@.contains(j as usize) <==> (j < i && #[trigger] mask@[j])),
        decreases mask.len() - i,
    {
        let ghost before = r@;
        if mask[i] {
            r.push(i);
            proof {
                assert forall|j: int| 0 <= j < mask.len() implies (r@.contains(j as usize) <==> (j < i + 1 && #[trigger] mask@[j])) by {
                    lemma_push_contains(before, i, j as usize);
                }
                assert forall|a: int, b: int| 0 <= a < b < r@.len() implies #[trigger] r@[a] < #[trigger] r@[b] by {
                    if b == before.len() {
                        assert(before[a] < i);
                    }
                }
            }
        }
        i = i + 1;
    }
    r
}

impl LDAPReadOnlyInMemoryDatabase {
    /// The entries, by position.
    pub closed spec fn entries_view(&self) -> Seq<EntryModel> {
        self.entries@.map_values(|e: LDAPEntry| e@)
    }

    /// The equality index.
    pub closed spec fn eq_index_view(&self) -> Seq<EqRow> {
        self.attr_eq_index@.map_values(|r: EqIndexRow| r@)
    }

    /// The presence index.
    pub closed spec fn presence_index_view(&self) -> Seq<PresenceRow> {
        self.attr_ex_index@.map_values(|r: PresenceIndexRow| r@)
    }

    /// The suffix index.
    pub closed spec fn suffix_index_view(&self) -> Seq<SuffixRow> {
        self.dn_suffixes_indexes@.map_values(|r: SuffixIndexRow| r@)
    }

    /// The positions of the entries that may bind.
    pub closed spec fn login_view(&self) -> Seq<usize> {
        self.login_entries@
    }

    /// Entries are well formed with distinct names, and every index and the
    /// login list agree exactly with them.
    pub closed spec fn wf(&self) -> bool {
        &&& forall|i: int| 0 <= i < self.entries.len() ==> (#[trigger] self.entries@[i]).wf()
        &&& distinct_dns(self.entries_view())
        &&& login_ok(self.entries_view(), self.login_view())
        &&& eq_index_ok(self.entries_view(), self.eq_index_view())
        &&& presence_index_ok(self.entries_view(), self.presence_index_view())
        &&& suffix_index_ok(self.entries_view(), self.suffix_index_view())
    }

    /// An empty database.
    pub fn new() -> (r: Self)
        ensures
            r.wf(),
            r.entries_view() == Seq::<EntryModel>::empty(),
    {
        let r = LDAPReadOnlyInMemoryDatabase {
            entries: Vec::new(),
            login_entries: Vec::new(),
            attr_eq_index: Vec::new(),
            attr_ex_index: Vec::new(),
            dn_suffixes_indexes: Vec::new(),
        };
        assert(r.entries_view() =~= Seq::<EntryModel>::empty());
        assert(r.eq_index_view() =~= Seq::<EqRow>::empty());
        assert(r.presence_index_view() =~= Seq::<PresenceRow>::empty());
        assert(r.suffix_index_view() =~= Seq::<SuffixRow>::empty());
        r
    }

    /// The number of entries.
    pub fn len(&self) -> (r: usize)
        ensures
            r == self.entries_view().len(),
    {
        self.entries.len()
    }

    /// The entry at position `i`.
    pub fn entry(&self, i: usize) -> (r: &LDAPEntry)
        requires
            i < self.entries_view().len(),
        ensures
            r@ == self.entries_view()[i as int],
            self.wf() ==> r.wf(),
    {
        &self.entries[i]
    }

    /// Adds `entry` at the next position and indexes it: its values under the
    /// indexed names, the indexed names it has, every proper suffix of its
    /// name, and its position among those that may bind.
    pub fn add_entry(&mut self, entry: LDAPEntry)
        requires
            old(self).wf(),
            entry.wf(),
            old(self).entries_view().len() < usize::MAX,
            forall|i: int| 0 <= i < old(self).entries_view().len() ==> old(self).entries_view()[i].0 != entry.dn@,
        ensures
            final(self).wf(),
            final(self).entries_view() == old(self).entries_view().push(entry@),
    {
        let ghost es = self.entries_view();
        let ghost attrs = entry.attributes@;
        let n = self.entries.len();
        proof {
            lemma_partials_start(es, self.eq_index_view(), self.presence_index_view(), self.suffix_index_view(), attrs, entry.dn@);
        }
        let mut a: usize = 0;
        while a < 7
            invariant
                a <= 7,
                n == es.len(),
                n < usize::MAX,
                attrs == entry.attributes@,
                entry.wf(),
                self.entries@ == old(self).entries@,
                self.login_entries@ == old(self).login_entries@,
                es == old(self).entries_view(),
                eq_partial(es, self.attr_eq_index@.map_values(|r: EqIndexRow| r@), eq_names_done(attrs, a as int)),
                presence_partial(es, self.attr_ex_index@.map_values(|r: PresenceIndexRow| r@), presence_names_done(attrs, a as int)),
                suffix_partial(es, self.dn_suffixes_indexes@.map_values(|r: SuffixIndexRow| r@), suffixes_done(entry.dn@, 0)),
            decreases 7 - a,
        {
            let key = CIString::new(indexed_name(a));
            match entry.attributes.get_attribute(&key) {
                Some(attribute) => {
                    let ghost vals = attribute@.1;
                    let mut b: usize = 0;
                    proof {
                        assert(eq_values_done(attrs, a as int, vals, 0) =~= eq_names_done(attrs, a as int));
                    }
                    while b < attribute.values.len()
                        invariant
                            b <= attribute.values.len(),
                            vals == attribute@.1,
                            key@ == ikey(a as int),
                            a < 7,
                            n == es.len(),
                            n < usize::MAX,
                            eq_partial(es, self.attr_eq_index@.map_values(|r: EqIndexRow| r@), eq_values_done(attrs, a as int, vals, b as int)),
                            presence_partial(es, self.attr_ex_index@.map_values(|r: PresenceIndexRow| r@), presence_names_done(attrs, a as int)),
                            suffix_partial(es, self.dn_suffixes_indexes@.map_values(|r: SuffixIndexRow| r@), suffixes_done(entry.dn@, 0)),
                            attrs == entry.attributes@,
                            entry.wf(),
                                self.entries@ == old(self).entries@,
                            self.login_entries@ == old(self).login_entries@,
                            es == old(self).entries_view(),

                        decreases attribute.values.len() - b,
                    {
                        proof {
                            assert(indexed_key(key@));
                        }
                        index_eq_value(&mut self.attr_eq_index, &key, &attribute.values[b], n, Ghost(es), Ghost(eq_values_done(attrs, a as int, vals, b as int)));
                        proof {
                            let f1 = eq_with(eq_values_done(attrs, a as int, vals, b as int), key@, attribute.values@[b as int]@);
                            let f2 = eq_values_done(attrs, a as int, vals, b + 1);
                            assert forall|k: Seq<char>, v: Seq<u8>| #[trigger] f1(k, v) == f2(k, v) by {
                                if k == ikey(a as int) && v == vals[b as int] {
                                    assert(vals[b as int] == v);
                                }
                                if k == ikey(a as int) && (exists|c: int| 0 <= c < b + 1 && vals[c] == v) {
                                    let c = choose|c: int| 0 <= c < b + 1 && vals[c] == v;
                                    if c < b {
                                        assert(exists|c: int| 0 <= c < b && vals[c] == v);
                                    }
                                }
                            }
                            assert(f1 =~= f2);
                        }
                        b = b + 1;
                    }
                    proof {
                        crate::attributes::lemma_lookup_ignores_case(attrs, indexed_names()[a as int]);
                        let f1 = eq_values_done(attrs, a as int, vals, vals.len() as int);
                        let f2 = eq_names_done(attrs, a + 1);
                        assert(values_of(attrs, ikey(a as int)) == vals);
                        assert forall|k: Seq<char>, v: Seq<u8>| #[trigger] f1(k, v) == f2(k, v) by {
                            if k == ikey(a as int) && vals.contains(v) {
                                let c = choose|c: int| 0 <= c < vals.len() && vals[c] == v;
                                assert(exists|c: int| 0 <= c < vals.len() && vals[c] == v);
                            }
                            if k == ikey(a as int) && (exists|c: int| 0 <= c < vals.len() && vals[c] == v) {
                                let c = choose|c: int| 0 <= c < vals.len() && vals[c] == v;
                                assert(vals.contains(v));
                            }
                            if f2(k, v) {
                                let j = choose|j: int| 0 <= j < a + 1 && ikey(j) == k && values_of(attrs, k).contains(v);
                                if j < a {
                                    assert(eq_names_done(attrs, a as int)(k, v));
                                }
                            }
                        }
                        assert(f1 =~= f2);
                        assert(indexed_key(key@));
                    }
                    index_presence(&mut self.attr_ex_index, &key, n, Ghost(es), Ghost(presence_names_done(attrs, a as int)));
                    proof {
                        let f1 = name_with(presence_names_done(attrs, a as int), key@);
                        let f2 = presence_names_done(attrs, a + 1);
                        assert forall|k: Seq<char>| #[trigger] f1(k) == f2(k) by {
                            if f2(k) {
                                let j = choose|j: int| 0 <= j < a + 1 && ikey(j) == k && lookup(attrs, k) is Some;
                                if j < a {
                                    assert(presence_names_done(attrs, a as int)(k));
                                }
                            }
                        }
                        assert(f1 =~= f2);
                    }
                },
                None => {
                    proof {
                        let f1 = eq_names_done(attrs, a as int);
                        let f2 = eq_names_done(attrs, a + 1);
                        assert forall|k: Seq<char>, v: Seq<u8>| #[trigger] f1(k, v) == f2(k, v) by {
                            if f2(k, v) {
                                let j = choose|j: int| 0 <= j < a + 1 && ikey(j) == k && values_of(attrs, k).contains(v);
                                assert(j < a);
                            }
                        }
                        assert(f1 =~= f2);
                        let g1 = presence_names_done(attrs, a as int);
                        let g2 = presence_names_done(attrs, a + 1);
                        assert forall|k: Seq<char>| #[trigger] g1(k) == g2(k) by {
                            if g2(k) {
                                let j = choose|j: int| 0 <= j < a + 1 && ikey(j) == k && lookup(attrs, k) is Some;
                                assert(j < a);
                            }
                        }
                        assert(g1 =~= g2);
                    }
                },
            }
            a = a + 1;
        }
        let dn_len = entry.dn.len();
        let mut l: usize = 0;
        while l < dn_len
            invariant
                l <= dn_len,
                dn_len == entry.dn@.len(),
                n == es.len(),
                n < usize::MAX,
                suffix_partial(es, self.dn_suffixes_indexes@.map_values(|r: SuffixIndexRow| r@), suffixes_done(entry.dn@, l as int)),
                eq_partial(es, self.attr_eq_index@.map_values(|r: EqIndexRow| r@), eq_names_done(attrs, 7)),
                presence_partial(es, self.attr_ex_index@.map_values(|r: PresenceIndexRow| r@), presence_names_done(attrs, 7)),
                attrs == entry.attributes@,
                entry.wf(),
                self.entries@ == old(self).entries@,
                self.login_entries@ == old(self).login_entries@,
                es == old(self).entries_view(),
            decreases dn_len - l,
        {
            let suffix = entry.dn.trailing(l);
            let ghost sv = suffix@;
            index_suffix(&mut self.dn_suffixes_indexes, suffix, n, Ghost(es), Ghost(suffixes_done(entry.dn@, l as int)));
            proof {
                let f1 = dn_with(suffixes_done(entry.dn@, l as int), sv);
                let f2 = suffixes_done(entry.dn@, l + 1);
                assert forall|d: DnModel| #[trigger] f1(d) == f2(d) by {
                    if f2(d) {
                        let j = choose|j: int| 0 <= j < l + 1 && d == #[trigger] entry.dn@.subrange(entry.dn@.len() - j, entry.dn@.len() as int);
                        if j < l {
                            assert(suffixes_done(entry.dn@, l as int)(d));
                        }
                    }
                }
                assert(f1 =~= f2);
            }
            l = l + 1;
        }
        let ghost login_before = self.login_entries@;
        if entry.can_perform_bind() {
            self.login_entries.push(n);
        }
        let ghost e = entry@;
        self.entries.push(entry);
        proof {
            let es2 = self.entries_view();
            assert(es2 =~= es.push(e));
            lemma_eq_finish(es, e, self.eq_index_view());
            lemma_presence_finish(es, e, self.presence_index_view());
            lemma_suffix_finish(es, e, self.suffix_index_view());
            assert forall|i: int| 0 <= i < es2.len() implies (self.login_entries@.contains(i as usize) <==> bind_capable(#[trigger] es2[i])) by {
                if i < n {
                    assert(es2[i] == es[i]);
                    lemma_push_contains(login_before, n, i as usize);
                } else {
                    lemma_push_contains(login_before, n, n);
                    assert(members_below(login_before, n as int));
                    if login_before.contains(n) {
                        let t = choose|t: int| 0 <= t < login_before.len() && login_before[t] == n;
                        assert(login_before[t] < n);
                    }
                }
            }
            assert forall|t: int| 0 <= t < self.login_entries@.len() implies #[trigger] self.login_entries@[t] < es2.len() by {
                if t < login_before.len() {
                    assert(self.login_entries@[t] == login_before[t]);
                }
            }
            assert forall|i: int, j: int| 0 <= i < es2.len() && 0 <= j < es2.len() && i != j implies #[trigger] es2[i].0 != #[trigger] es2[j].0 by {
                if i < n && j < n {
                    assert(es2[i] == es[i] && es2[j] == es[j]);
                }
            }
            assert forall|i: int| 0 <= i < self.entries.len() implies (#[trigger] self.entries@[i]).wf() by {
                if i < n {
                    assert(self.entries@[i] == old(self).entries@[i]);
                }
            }
        }
    }

    /// The position of the entry named `dn`.
    fn find_entry(&self, dn: &LDAPDN) -> (r: Option<usize>)
        requires
            self.wf(),
        ensures
            match r {
                Some(p) => p < self.entries_view().len() && self.entries_view()[p as int].0 == dn@,
                None => forall|j: int| 0 <= j < self.entries_view().len() ==> #[trigger] self.entries_view()[j].0 != dn@,
            },
    {
        let mut i: usize = 0;
        while i < self.entries.len()
            invariant
                i <= self.entries.len(),
                forall|j: int| 0 <= j < i ==> #[trigger] self.entries_view()[j].0 != dn@,
            decreases self.entries.len() - i,
        {
            if self.entries[i].dn == *dn {
                return Some(i);
            }
            i = i + 1;
        }
        None
    }

    /// Whether `key` is the folded form of an indexed name.
    fn is_indexed(key: &CIString) -> (r: bool)
        ensures
            r == indexed_key(key@),
    {
        let mut a: usize = 0;
        while a < 7
            invariant
                a <= 7,
                forall|j: int| 0 <= j < a ==> ikey(j) != key@,
            decreases 7 - a,
        {
            let name = CIString::new(indexed_name(a));
            if name.lower == key.lower {
                assert(ikey(a as int) == key@);
                return true;
            }
            a = a + 1;
        }
        false
    }

    /// The equality-index row of (`key`, `value`).
    fn find_eq_row(&self, key: &CIString, value: &Vec<u8>) -> (r: Option<usize>)
        requires
            self.wf(),
        ensures
            match r {
                Some(k) => k < self.eq_index_view().len() && self.eq_index_view()[k as int].0 == key@
                    && self.eq_index_view()[k as int].1 == value@,
                None => forall|k: int| 0 <= k < self.eq_index_view().len() ==> !(#[trigger] self.eq_index_view()[k].0 == key@
                    && self.eq_index_view()[k].1 == value@),
            },
    {
        let mut k: usize = 0;
        while k < self.attr_eq_index.len()
            invariant
                k <= self.attr_eq_index.len(),
                forall|j: int| 0 <= j < k ==> !(#[trigger] self.eq_index_view()[j].0 == key@ && self.eq_index_view()[j].1 == value@),
            decreases self.attr_eq_index.len() - k,
        {
            if self.attr_eq_index[k].name.lower == key.lower && self.attr_eq_index[k].value == *value {
                assert(self.eq_index_view()[k as int].1 =~= value@);
                return Some(k);
            }
            assert(!(self.eq_index_view()[k as int].0 == key@ && self.eq_index_view()[k as int].1 == value@)) by {
                if self.eq_index_view()[k as int].1 == value@ {
                    assert(self.attr_eq_index@[k as int].value@ == value@);
                }
            }
            k = k + 1;
        }
        None
    }

    /// The presence-index row of `key`.
    fn find_presence_row(&self, key: &CIString) -> (r: Option<usize>)
        requires
            self.wf(),
        ensures
            match r {
                Some(k) => k < self.presence_index_view().len() && self.presence_index_view()[k as int].0 == key@,
                None => forall|k: int| 0 <= k < self.presence_index_view().len() ==> #[trigger] self.presence_index_view()[k].0 != key@,
            },
    {
        let mut k: usize = 0;
        while k < self.attr_ex_index.len()
            invariant
                k <= self.attr_ex_index.len(),
                forall|j: int| 0 <= j < k ==> #[trigger] self.presence_index_view()[j].0 != key@,
            decreases self.attr_ex_index.len() - k,
        {
            if self.attr_ex_index[k].name.lower == key.lower {
                return Some(k);
            }
            k = k + 1;
        }
        None
    }

    /// The suffix-index row of `dn`.
    fn find_suffix_row(&self, dn: &LDAPDN) -> (r: Option<usize>)
        requires
            self.wf(),
        ensures
            match r {
                Some(k) => k < self.suffix_index_view().len() && self.suffix_index_view()[k as int].0 == dn@,
                None => forall|k: int| 0 <= k < self.suffix_index_view().len() ==> #[trigger] self.suffix_index_view()[k].0 != dn@,
            },
    {
        let mut k: usize = 0;
        while k < self.dn_suffixes_indexes.len()
            invariant
                k <= self.dn_suffixes_indexes.len(),
                forall|j: int| 0 <= j < k ==> #[trigger] self.suffix_index_view()[j].0 != dn@,
            decreases self.dn_suffixes_indexes.len() - k,
        {
            if self.dn_suffixes_indexes[k].suffix == *dn {
                return Some(k);
            }
            k = k + 1;
        }
        None
    }

    /// The flags of the entries in `scope` that meet `filter`, tested one by one.
    fn scan(&self, scope: &Vec<bool>, filter: &Filter) -> (r: Vec<bool>)
        requires
            self.wf(),
            scope.len() == self.entries_view().len(),
        ensures
            r.len() == scope.len(),
            forall|i: int| 0 <= i < scope.len() ==> (#[trigger] r@[i] <==> scope@[i] && filter_holds(self.entries_view()[i].1, *filter)),
    {
        let mut r: Vec<bool> = Vec::new();
        let mut i: usize = 0;
        while i < scope.len()
            invariant
                self.wf(),
                scope.len() == self.entries_view().len(),
                i <= scope.len(),
                r.len() == i,
                forall|j: int| 0 <= j < i ==> (#[trigger] r@[j] <==> scope@[j] && filter_holds(self.entries_view()[j].1, *filter)),
            decreases scope.len() - i,
        {
            let keep = scope[i] && self.entries[i].matches_filter(filter);
            r.push(keep);
            i = i + 1;
        }
        r
    }

    /// The answer under `base`, as flags, given the flags of the entries
    /// strictly under it.
    fn eval_subtree(&self, base: &LDAPDN, scope: &Vec<bool>, filter: &Filter) -> (r: Vec<bool>)
        requires
            self.wf(),
            scope.len() == self.entries_view().len(),
            forall|i: int| 0 <= i < scope.len() ==> (#[trigger] scope@[i] <==> proper_suffix(self.entries_view()[i].0, base@)),
        ensures
            r.len() == scope.len(),
            forall|i: int| 0 <= i < scope.len() ==> (#[trigger] r@[i] <==> subtree_holds(self.entries_view(), base@, *filter, i)),
        decreases filter,
    {
        let n = scope.len();
        let ghost es = self.entries_view();
        match filter {
            Filter::Not(g) => {
                let sub = self.eval_subtree(base, scope, g);
                let mut r: Vec<bool> = Vec::new();
                let mut i: usize = 0;
                while i < n
                    invariant
                        n == scope.len(),
                        sub.len() == n,
                        i <= n,
                        r.len() == i,
                        forall|j: int| 0 <= j < i ==> (#[trigger] r@[j] <==> scope@[j] && !sub@[j]),
                    decreases n - i,
                {
                    r.push(scope[i] && !sub[i]);
                    i = i + 1;
                }
                r
            },
            Filter::And(fs) => {
                if fs.len() == 0 {
                    return empty_mask(n);
                }
                let mut acc: Vec<bool> = Vec::new();
                let mut i: usize = 0;
                while i < n
                    invariant
                        n == scope.len(),
                        i <= n,
                        acc.len() == i,
                        forall|j: int| 0 <= j < i ==> (#[trigger] acc@[j] == scope@[j]),
                    decreases n - i,
                {
                    acc.push(scope[i]);
                    i = i + 1;
                }
                let mut k: usize = 0;
                while k < fs.len()
                    invariant
                        self.wf(),
                        n == scope.len(),
                        n == es.len(),
                        es == self.entries_view(),
                        *filter == Filter::And(*fs),
                        forall|i: int| 0 <= i < scope.len() ==> (#[trigger] scope@[i] <==> proper_suffix(es[i].0, base@)),
                        k <= fs.len(),
                        acc.len() == n,
                        forall|i: int| 0 <= i < n ==> (#[trigger] acc@[i] <==> scope@[i] && forall|j: int| 0 <= j < k ==> subtree_holds(es, base@, #[trigger] fs@[j], i)),
                    decreases fs.len() - k,
                {
                    proof {
                        assert(decreases_to!(*filter => filter->And_0));
                        assert(filter->And_0 == *fs);
                        assert(decreases_to!(*fs => fs@));
                        assert(decreases_to!(fs@ => fs@[k as int]));
                    }
                    let sub = self.eval_subtree(base, scope, &fs[k]);
                    let mut i: usize = 0;
                    let ghost prev = acc@;
                    while i < n
                        invariant
                            n == scope.len(),
                            sub.len() == n,
                            acc.len() == n,
                            i <= n,
                            forall|j: int| 0 <= j < i ==> (#[trigger] acc@[j] == (prev[j] && sub@[j])),
                            forall|j: int| i <= j < n ==> (#[trigger] acc@[j] == prev[j]),
                        decreases n - i,
                    {
                        let v = acc[i] && sub[i];
                        acc.set(i, v);
                        i = i + 1;
                    }
                    proof {
                        assert forall|i: int| 0 <= i < n implies (#[trigger] acc@[i] <==> scope@[i] && forall|j: int| 0 <= j < k + 1 ==> subtree_holds(es, base@, #[trigger] fs@[j], i)) by {
                            if scope@[i] && forall|j: int| 0 <= j < k + 1 ==> subtree_holds(es, base@, #[trigger] fs@[j], i) {
                                assert(subtree_holds(es, base@, fs@[k as int], i));
                            }
                        }
                    }
                    k = k + 1;
                }
                proof {
                    assert forall|i: int| 0 <= i < n implies (#[trigger] acc@[i] <==> subtree_holds(es, base@, *filter, i)) by {
                        if subtree_holds(es, base@, *filter, i) {
                            assert(fs@.len() > 0);
                        }
                    }
                }
                acc
            },
            Filter::Or(fs) => {
                let mut acc = empty_mask(n);
                let mut k: usize = 0;
                while k < fs.len()
                    invariant
                        self.wf(),
                        n == scope.len(),
                        n == es.len(),
                        es == self.entries_view(),
                        *filter == Filter::Or(*fs),
                        forall|i: int| 0 <= i < scope.len() ==> (#[trigger] scope@[i] <==> proper_suffix(es[i].0, base@)),
                        k <= fs.len(),
                        acc.len() == n,
                        forall|i: int| 0 <= i < n ==> (#[trigger] acc@[i] <==> exists|j: int| 0 <= j < k && subtree_holds(es, base@, #[trigger] fs@[j], i)),
                    decreases fs.len() - k,
                {
                    proof {
                        assert(decreases_to!(*filter => filter->Or_0));
                        assert(filter->Or_0 == *fs);
                        assert(decreases_to!(*fs => fs@));
                        assert(decreases_to!(fs@ => fs@[k as int]));
                    }
                    let sub = self.eval_subtree(base, scope, &fs[k]);
                    let mut i: usize = 0;
                    let ghost prev = acc@;
                    while i < n
                        invariant
                            n == scope.len(),
                            sub.len() == n,
                            acc.len() == n,
                            i <= n,
                            forall|j: int| 0 <= j < i ==> (#[trigger] acc@[j] == (prev[j] || sub@[j])),
                            forall|j: int| i <= j < n ==> (#[trigger] acc@[j] == prev[j]),
                        decreases n - i,
                    {
                        let v = acc[i] || sub[i];
                        acc.set(i, v);
                        i = i + 1;
                    }
                    proof {
                        assert forall|i: int| 0 <= i < n implies (#[trigger] acc@[i] <==> exists|j: int| 0 <= j < k + 1 && subtree_holds(es, base@, #[trigger] fs@[j], i)) by {
                            if sub@[i] {
                                assert(subtree_holds(es, base@, fs@[k as int], i));
                            }
                            if exists|j: int| 0 <= j < k + 1 && subtree_holds(es, base@, #[trigger] fs@[j], i) {
                                let j = choose|j: int| 0 <= j < k + 1 && subtree_holds(es, base@, #[trigger] fs@[j], i);
                                if j < k {
                                    assert(prev[i]);
                                }
                            }
                        }
                    }
                    k = k + 1;
                }
                proof {
                    assert forall|i: int| 0 <= i < n implies (#[trigger] acc@[i] <==> subtree_holds(es, base@, *filter, i)) by {
                        if acc@[i] {
                            let j = choose|j: int| 0 <= j < fs@.len() && subtree_holds(es, base@, #[trigger] fs@[j], i);
                            assert(proper_suffix(es[i].0, base@));
                        }
                    }
                }
                acc
            },
            Filter::Equality(name, value) => {
                let key = CIString::new(name.as_str());
                if Self::is_indexed(&key) {
                    let bytes = vstd::slice::slice_to_vec(value.as_str().as_bytes());
                    match self.find_eq_row(&key, &bytes) {
                        Some(k) => {
                            assert(self.attr_eq_index@[k as int].members@ == self.eq_index_view()[k as int].2);
                            assert(members_below(self.eq_index_view()[k as int].2, es.len() as int));
                            let listed = members_mask(&self.attr_eq_index[k].members, n);
                            let mut r: Vec<bool> = Vec::new();
                            let mut i: usize = 0;
                            while i < n
                                invariant
                                    n == scope.len(),
                                    listed.len() == n,
                                    i <= n,
                                    r.len() == i,
                                    forall|j: int| 0 <= j < i ==> (#[trigger] r@[j] <==> scope@[j] && listed@[j]),
                                decreases n - i,
                            {
                                r.push(scope[i] && listed[i]);
                                i = i + 1;
                            }
                            proof {
                                let rows = self.eq_index_view();
                                assert forall|i: int| 0 <= i < n implies (#[trigger] r@[i] <==> subtree_holds(es, base@, *filter, i)) by {
                                    assert(rows[k as int].2.contains(i as usize) <==> values_of(es[i].1, rows[k as int].0).contains(rows[k as int].1));
                                }
                            }
                            r
                        },
                        None => {
                            proof {
                                let rows = self.eq_index_view();
                                assert forall|i: int| 0 <= i < n implies !subtree_holds(es, base@, *filter, i) by {
                                    if values_of(es[i].1, key@).contains(bytes@) {
                                        let k = choose|k: int| 0 <= k < rows.len() && #[trigger] rows[k].0 == key@ && rows[k].1 == bytes@;
                                    }
                                }
                            }
                            empty_mask(n)
                        },
                    }
                } else {
                    self.scan(scope, filter)
                }
            },
            Filter::Present(name) => {
                let key = CIString::new(name.as_str());
                if Self::is_indexed(&key) {
                    match self.find_presence_row(&key) {
                        Some(k) => {
                            assert(self.attr_ex_index@[k as int].members@ == self.presence_index_view()[k as int].1);
                            assert(members_below(self.presence_index_view()[k as int].1, es.len() as int));
                            let listed = members_mask(&self.attr_ex_index[k].members, n);
                            let mut r: Vec<bool> = Vec::new();
                            let mut i: usize = 0;
                            while i < n
                                invariant
                                    n == scope.len(),
                                    listed.len() == n,
                                    i <= n,
                                    r.len() == i,
                                    forall|j: int| 0 <= j < i ==> (#[trigger] r@[j] <==> scope@[j] && listed@[j]),
                                decreases n - i,
                            {
                                r.push(scope[i] && listed[i]);
                                i = i + 1;
                            }
                            proof {
                                let rows = self.presence_index_view();
                                assert forall|i: int| 0 <= i < n implies (#[trigger] r@[i] <==> subtree_holds(es, base@, *filter, i)) by {
                                    assert(rows[k as int].1.contains(i as usize) <==> lookup(es[i].1, rows[k as int].0) is Some);
                                }
                            }
                            r
                        },
                        None => {
                            proof {
                                let rows = self.presence_index_view();
                                assert forall|i: int| 0 <= i < n implies !subtree_holds(es, base@, *filter, i) by {
                                    if lookup(es[i].1, key@) is Some {
                                        let k = choose|k: int| 0 <= k < rows.len() && #[trigger] rows[k].0 == key@;
                                    }
                                }
                            }
                            empty_mask(n)
                        },
                    }
                } else {
                    self.scan(scope, filter)
                }
            },
            Filter::Substring(..) => self.scan(scope, filter),
            Filter::Unsupported => empty_mask(n),
        }
    }

    /// The positions of the entries a search under `base_dn` with `filter`
    /// answers, in increasing order: the entry named `base_dn` alone when
    /// there is one (if it meets the filter), otherwise the entries strictly
    /// under `base_dn` chosen as `subtree_holds` says.
    pub fn search(&self, base_dn: &LDAPDN, filter: &Filter) -> (r: Vec<usize>)
        requires
            self.wf(),
        ensures
            positions_ok(r@, self.entries_view().len() as int),
            forall|i: int| 0 <= i < self.entries_view().len() ==> (r@.contains(i as usize) <==> search_holds(self.entries_view(), base_dn@, *filter, i)),
    {
        let ghost es = self.entries_view();
        let n = self.entries.len();
        match self.find_entry(base_dn) {
            Some(p) => {
                let mut r: Vec<usize> = Vec::new();
                if self.entries[p].matches_filter(filter) {
                    r.push(p);
                }
                proof {
                    assert forall|i: int| 0 <= i < n implies (r@.contains(i as usize) <==> search_holds(es, base_dn@, *filter, i)) by {
                        assert(es[p as int].0 == base_dn@);
                        if i != p {
                            assert(es[i].0 != es[p as int].0);
                            if r@.contains(i as usize) {
                                assert(r@[0] == p);
                            }
                        } else if search_holds(es, base_dn@, *filter, i) {
                            assert(r@[0] == p);
                        }
                    }
                }
                r
            },
            None => {
                match self.find_suffix_row(base_dn) {
                    Some(k) => {
                        assert(self.dn_suffixes_indexes@[k as int].members@ == self.suffix_index_view()[k as int].1);
                        assert(members_below(self.suffix_index_view()[k as int].1, es.len() as int));
                        let scope = members_mask(&self.dn_suffixes_indexes[k].members, n);
                        proof {
                            let rows = self.suffix_index_view();
                            assert forall|i: int| 0 <= i < n implies (#[trigger] scope@[i] <==> proper_suffix(es[i].0, base_dn@)) by {
                                assert(rows[k as int].1.contains(i as usize) <==> proper_suffix(es[i].0, rows[k as int].0));
                            }
                        }
                        let found = self.eval_subtree(base_dn, &scope, filter);
                        let r = mask_positions(&found);
                        proof {
                            assert(!exists|j: int| 0 <= j < es.len() && #[trigger] es[j].0 == base_dn@);
                            assert forall|i: int| 0 <= i < n implies (r@.contains(i as usize) <==> search_holds(es, base_dn@, *filter, i)) by {
                                assert(r@.contains(i as usize) <==> found@[i]);
                            }
                        }
                        r
                    },
                    None => {
                        proof {
                            let rows = self.suffix_index_view();
                            assert(!exists|j: int| 0 <= j < es.len() && #[trigger] es[j].0 == base_dn@);
                            assert forall|i: int| 0 <= i < n implies !search_holds(es, base_dn@, *filter, i) by {
                                if proper_suffix(es[i].0, base_dn@) {
                                    let k = choose|k: int| 0 <= k < rows.len() && #[trigger] rows[k].0 == base_dn@;
                                }
                            }
                        }
                        let r: Vec<usize> = Vec::new();
                        assert(r@ =~= Seq::<usize>::empty());
                        r
                    },
                }
            },
        }
    }

    /// The entry named `dn` when it may bind and one of its `userPassword`
    /// values is exactly the bytes of `password`.
    pub fn do_bind(&self, dn: &LDAPDN, password: &str) -> (r: Option<&LDAPEntry>)
        requires
            self.wf(),
        ensures
            match r {
                Some(e) => exists|i: int| 0 <= i < self.entries_view().len() && #[trigger] self.entries_view()[i] == e@
                    && e@.0 == dn@ && bind_capable(e@)
                    && values_of(e@.1, fold("userPassword"@)).contains(encode_utf8(password@)),
                None => forall|i: int| 0 <= i < self.entries_view().len() && #[trigger] self.entries_view()[i].0 == dn@
                    ==> !(bind_capable(self.entries_view()[i])
                    && values_of(self.entries_view()[i].1, fold("userPassword"@)).contains(encode_utf8(password@))),
            },
            r matches Some(e) ==> e.wf(),
    {
        let ghost es = self.entries_view();
        let mut k: usize = 0;
        while k < self.login_entries.len()
            invariant
                self.wf(),
                es == self.entries_view(),
                k <= self.login_entries.len(),
                forall|j: int| 0 <= j < k ==> #[trigger] es[self.login_entries@[j] as int].0 != dn@,
            decreases self.login_entries.len() - k,
        {
            let p = self.login_entries[k];
            assert(p < es.len());
            if self.entries[p].dn == *dn {
                let e = &self.entries[p];
                assert(bind_capable(es[p as int])) by {
                    assert(self.login_entries@.contains(p));
                }
                if e.attributes.check_password(password) {
                    return Some(e);
                }
                proof {
                    assert(es[p as int].0 == dn@);
                    assert forall|i: int| 0 <= i < es.len() && #[trigger] es[i].0 == dn@ implies i == p by {
                        if i != p {
                            assert(es[i].0 != es[p as int].0);
                        }
                    }
                }
                return None;
            }
            k = k + 1;
        }
        proof {
            assert forall|i: int| 0 <= i < es.len() && #[trigger] es[i].0 == dn@ implies !bind_capable(es[i]) by {
                if bind_capable(es[i]) {
                    assert(self.login_entries@.contains(i as usize));
                    let j = choose|j: int| 0 <= j < self.login_entries@.len() && self.login_entries@[j] == i as usize;
                    assert(es[self.login_entries@[j] as int].0 != dn@);
                }
            }
        }
        None
    }

    /// Releases spare capacity; the snapshot is unchanged.
    pub fn tidy(&mut self)
        requires
            old(self).wf(),
        ensures
            final(self).wf(),
            final(self).entries_view() == old(self).entries_view(),
    {
        shrink(&mut self.entries);
        shrink(&mut self.login_entries);
        shrink(&mut self.attr_eq_index);
        shrink(&mut self.attr_ex_index);
        shrink(&mut self.dn_suffixes_indexes);
    }

    /// A snapshot of `entries`, each tidied first (attributes without values
    /// dropped), at positions in the given order.
    pub fn from_entries(entries: Vec<LDAPEntry>) -> (r: Self)
        requires
            forall|i: int| 0 <= i < entries.len() ==> (#[trigger] entries@[i]).wf(),
            forall|i: int, j: int| 0 <= i < entries.len() && 0 <= j < entries.len() && i != j ==> #[trigger] entries@[i].dn@ != #[trigger] entries@[j].dn@,
            entries.len() < usize::MAX,
        ensures
            r.wf(),
            r.entries_view() == entries@.map_values(|e: LDAPEntry| tidied(e@)),
    {
        let mut instance = Self::new();
        let mut i: usize = 0;
        while i < entries.len()
            invariant
                i <= entries.len(),
                entries.len() < usize::MAX,
                forall|j: int| 0 <= j < entries.len() ==> (#[trigger] entries@[j]).wf(),
                forall|a: int, b: int| 0 <= a < entries.len() && 0 <= b < entries.len() && a != b ==> #[trigger] entries@[a].dn@ != #[trigger] entries@[b].dn@,
                instance.wf(),
                instance.entries_view() == entries@.subrange(0, i as int).map_values(|e: LDAPEntry| tidied(e@)),
            decreases entries.len() - i,
        {
            let mut entry = entries[i].clone();
            entry.tidy();
            proof {
                assert forall|j: int| 0 <= j < instance.entries_view().len() implies instance.entries_view()[j].0 != entry.dn@ by {
                    assert(instance.entries_view()[j] == tidied(entries@[j]@));
                    assert(entries@[j].dn@ != entries@[i as int].dn@);
                }
            }
            let ghost before = instance.entries_view();
            instance.add_entry(entry);
            assert(entries@.subrange(0, i + 1).map_values(|e: LDAPEntry| tidied(e@)) =~= before.push(tidied(entries@[i as int]@)));
            i = i + 1;
        }
        instance.tidy();
        assert(entries@.subrange(0, entries.len() as int) =~= entries@);
        instance
    }
}

/// Whether no two entries of the list share a name.
pub fn dns_are_distinct(entries: &Vec<LDAPEntry>) -> (r: bool)
    ensures
        r == forall|i: int, j: int| 0 <= i < entries.len() && 0 <= j < entries.len() && i != j ==> #[trigger] entries@[i].dn@ != #[trigger] entries@[j].dn@,
{
    let mut i: usize = 0;
    while i < entries.len()
        invariant
            i <= entries.len(),
            forall|a: int, b: int| 0 <= a < i && 0 <= b < entries.len() && a != b ==> #[trigger] entries@[a].dn@ != #[trigger] entries@[b].dn@,
        decreases entries.len() - i,
    {
        let mut j: usize = 0;
        while j < entries.len()
            invariant
                i < entries.len(),
                j <= entries.len(),
                forall|a: int, b: int| 0 <= a < i && 0 <= b < entries.len() && a != b ==> #[trigger] entries@[a].dn@ != #[trigger] entries@[b].dn@,
                forall|b: int| 0 <= b < j && b != i ==> entries@[i as int].dn@ != #[trigger] entries@[b].dn@,
            decreases entries.len() - j,
        {
            if i != j && entries[i].dn == entries[j].dn {
                return false;
            }
            j = j + 1;
        }
        i = i + 1;
    }
    true
}

/// Every row of the equality index lists exactly the entries holding its
/// (name, value) pair, and every pair under an indexed name that some entry
/// holds has its row.
pub proof fn lemma_eq_index_sound(db: &LDAPReadOnlyInMemoryDatabase)
    requires
        db.wf(),
    ensures
        eq_index_ok(db.entries_view(), db.eq_index_view()),
        presence_index_ok(db.entries_view(), db.presence_index_view()),
{
}

/// No two entries of a snapshot share a name.
pub proof fn lemma_names_distinct(db: &LDAPReadOnlyInMemoryDatabase)
    requires
        db.wf(),
    ensures
        distinct_dns(db.entries_view()),
{
}

/// The login list holds exactly the positions of the entries that may bind.
pub proof fn lemma_login_sound(db: &LDAPReadOnlyInMemoryDatabase)
    requires
        db.wf(),
    ensures
        login_ok(db.entries_view(), db.login_view()),
{
}

/// The suffix index lists, under each name, exactly the entries whose name
/// has it as a suffix and differs from it; every proper suffix of an entry's
/// name has its row.
pub proof fn lemma_suffix_index_sound(db: &LDAPReadOnlyInMemoryDatabase)
    requires
        db.wf(),
    ensures
        suffix_index_ok(db.entries_view(), db.suffix_index_view()),
{
}

/// Below a name that is no entry's, a search answers exactly the entries
/// strictly under that name which meet the filter, as long as the filter has
/// no empty conjunction.
pub proof fn lemma_search_matches_filter(es: Seq<EntryModel>, base: DnModel, f: Filter, i: int)
    requires
        0 <= i < es.len(),
        forall|j: int| 0 <= j < es.len() ==> #[trigger] es[j].0 != base,
        no_empty_and(f),
    ensures
        search_holds(es, base, f, i) <==> proper_suffix(es[i].0, base) && filter_holds(es[i].1, f),
{
    lemma_subtree_is_filter(es, base, f, i);
}

proof fn lemma_subtree_is_filter(es: Seq<EntryModel>, base: DnModel, f: Filter, i: int)
    requires
        0 <= i < es.len(),
        no_empty_and(f),
    ensures
        subtree_holds(es, base, f, i) <==> proper_suffix(es[i].0, base) && filter_holds(es[i].1, f),
    decreases f,
{
    match f {
        Filter::Not(g) => {
            lemma_subtree_is_filter(es, base, *g, i);
        },
        Filter::And(fs) => {
            assert forall|j: int| 0 <= j < fs@.len() implies (subtree_holds(es, base, #[trigger] fs@[j], i) <==> proper_suffix(es[i].0, base) && filter_holds(es[i].1, fs@[j])) by {
                assert(decreases_to!(f => f->And_0));
                assert(decreases_to!(fs => fs@));
                assert(decreases_to!(fs@ => fs@[j]));
                lemma_subtree_is_filter(es, base, fs@[j], i);
            }
        },
        Filter::Or(fs) => {
            assert forall|j: int| 0 <= j < fs@.len() implies (subtree_holds(es, base, #[trigger] fs@[j], i) <==> proper_suffix(es[i].0, base) && filter_holds(es[i].1, fs@[j])) by {
                assert(decreases_to!(f => f->Or_0));
                assert(decreases_to!(fs => fs@));
                assert(decreases_to!(fs@ => fs@[j]));
                lemma_subtree_is_filter(es, base, fs@[j], i);
            }
        },
        _ => {},
    }
}

} // verus!
