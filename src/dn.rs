use vstd::prelude::*;
use vstd::string::*;
use crate::text::shrink;

verus! {

/// The mathematical model of a distinguished name: its (type, value)
/// components, most specific first.
pub type DnModel = Seq<(Seq<char>, Seq<char>)>;

/// A distinguished name: an ordered list of `(attribute type, value)` pairs,
/// most specific first. The empty name designates the root DSE.
#[derive(Debug)]
pub struct LDAPDN(pub Vec<(String, String)>);

impl View for LDAPDN {
    type V = DnModel;

    open spec fn view(&self) -> DnModel {
        self.0@.map_values(|p: (String, String)| (p.0@, p.1@))
    }
}

/// Why one component of a textual name was refused.
#[derive(Debug, Clone, Copy, PartialEq, Eq, Structural)]
pub enum DnErrorKind {
    /// The component holds no `=`.
    MissingSeparator,
    /// Nothing stands before the first `=`.
    EmptyKey,
    /// Nothing stands after the first `=`.
    EmptyValue,
}

/// A malformed distinguished name: the offending component and the reason.
#[derive(Debug)]
pub struct DnError {
    pub component: String,
    pub kind: DnErrorKind,
}

/// `suffix` equals the trailing components of `dn`, in order.
pub open spec fn is_suffix(dn: DnModel, suffix: DnModel) -> bool {
    &&& suffix.len() <= dn.len()
    &&& dn.subrange(dn.len() - suffix.len(), dn.len() as int) == suffix
}

/// `k=v` for one component.
pub open spec fn pair_text(p: (Seq<char>, Seq<char>)) -> Seq<char> {
    p.0 + seq!['='] + p.1
}

/// `k1=v1,k2=v2,...`; the empty name gives the empty text.
pub open spec fn dn_text(d: DnModel) -> Seq<char>
    decreases d.len(),
{
    if d.len() == 0 {
        Seq::empty()
    } else if d.len() == 1 {
        pair_text(d[0])
    } else {
        dn_text(d.drop_last()) + seq![','] + pair_text(d.last())
    }
}

/// The text used for a name in human-facing output: the empty name reads
/// `<root DSE>`.
pub open spec fn display_text(d: DnModel) -> Seq<char> {
    if d.len() == 0 {
        "<root DSE>"@
    } else {
        dn_text(d)
    }
}

/// The pieces of `s` between commas, empty pieces included.
pub open spec fn pieces(s: Seq<char>) -> Seq<Seq<char>>
    decreases s.len(),
{
    if s.len() == 0 {
        seq![Seq::empty()]
    } else {
        let p = pieces(s.drop_last());
        if s.last() == ',' {
            p.push(Seq::empty())
        } else {
            p.update(p.len() - 1, p.last().push(s.last()))
        }
    }
}

/// `k` is the position of the first `=` in `p`.
pub open spec fn first_eq_at(p: Seq<char>, k: int) -> bool {
    &&& 0 <= k < p.len()
    &&& p[k] == '='
    &&& forall|j: int| 0 <= j < k ==> p[j] != '='
}

/// One non-empty component, split at its first `=`.
pub open spec fn parse_component(p: Seq<char>) -> Result<(Seq<char>, Seq<char>), DnErrorKind> {
    if exists|k: int| first_eq_at(p, k) {
        let k = choose|k: int| first_eq_at(p, k);
        let key = p.subrange(0, k);
        let value = p.subrange(k + 1, p.len() as int);
        if key.len() == 0 {
            Err(DnErrorKind::EmptyKey)
        } else if value.len() == 0 {
            Err(DnErrorKind::EmptyValue)
        } else {
            Ok((key, value))
        }
    } else {
        Err(DnErrorKind::MissingSeparator)
    }
}

/// Components in order: empty pieces are skipped, the first malformed one
/// is the error.
pub open spec fn parse_pieces(ps: Seq<Seq<char>>) -> Result<DnModel, (Seq<char>, DnErrorKind)>
    decreases ps.len(),
{
    if ps.len() == 0 {
        Ok(Seq::empty())
    } else {
        match parse_pieces(ps.drop_last()) {
            Err(e) => Err(e),
            Ok(d) => if ps.last().len() == 0 {
                Ok(d)
            } else {
                match parse_component(ps.last()) {
                    Ok(kv) => Ok(d.push(kv)),
                    Err(kind) => Err((ps.last(), kind)),
                }
            },
        }
    }
}

/// The name that a text denotes, or the first malformed component.
pub open spec fn dn_parse(s: Seq<char>) -> Result<DnModel, (Seq<char>, DnErrorKind)> {
    parse_pieces(pieces(s))
}

pub proof fn lemma_pieces_nonempty(s: Seq<char>)
    ensures
        pieces(s).len() >= 1,
    decreases s.len(),
{
    if s.len() > 0 {
        lemma_pieces_nonempty(s.drop_last());
    }
}

/// The characters of `s`, in order.
fn chars_of(s: &str) -> (r: Vec<char>)
    ensures
        r@ == s@,
{
    let n = s.unicode_len();
    let mut out: Vec<char> = Vec::new();
    let mut i: usize = 0;
    while i < n
        invariant
            n == s@.len(),
            i <= n,
            out@ == s@.subrange(0, i as int),
        decreases n - i,
    {
        out.push(s.get_char(i));
        i = i + 1;
    }
    out
}

/// Splits the component `s[a..b]` at its first `=`.
fn split_component(s: &str, cs: &Vec<char>, a: usize, b: usize) -> (r: Result<(String, String), DnErrorKind>)
    requires
        cs@ == s@,
        a <= b <= cs@.len(),
    ensures
        match r {
            Ok(kv) => parse_component(cs@.subrange(a as int, b as int)) == Ok::<(Seq<char>, Seq<char>), DnErrorKind>((kv.0@, kv.1@)),
            Err(kind) => parse_component(cs@.subrange(a as int, b as int)) == Err::<(Seq<char>, Seq<char>), DnErrorKind>(kind),
        },
{
    let ghost p = cs@.subrange(a as int, b as int);
    let mut k: usize = a;
    while k < b
        invariant
            a <= k <= b,
            b <= cs@.len(),
            p == cs@.subrange(a as int, b as int),
            forall|j: int| 0 <= j < k - a ==> p[j] != '=',
        ensures
            a <= k <= b,
            forall|j: int| 0 <= j < k - a ==> p[j] != '=',
            k < b ==> cs@[k as int] == '=',
        decreases b - k,
    {
        if cs[k] == '=' {
            break;
        }
        k = k + 1;
    }
    if k == b {
        assert(!exists|j: int| first_eq_at(p, j));
        return Err(DnErrorKind::MissingSeparator);
    }
    assert(first_eq_at(p, k - a));
    let ghost kk = choose|j: int| first_eq_at(p, j);
    assert(kk == k - a) by {
        if kk < k - a {
            assert(p[kk] != '=');
        } else if kk > k - a {
            assert(p[k - a] != '=');
        }
    }
    if k == a {
        return Err(DnErrorKind::EmptyKey);
    }
    if k + 1 == b {
        return Err(DnErrorKind::EmptyValue);
    }
    let key = s.substring_char(a, k).to_owned();
    let value = s.substring_char(k + 1, b).to_owned();
    assert(key@ =~= p.subrange(0, k - a));
    assert(value@ =~= p.subrange(k - a + 1, p.len() as int));
    Ok((key, value))
}

/// The hyphenated text of the version-5 UUID that `uuid` derives from `name`
/// in the X.500 namespace.
pub uninterp spec fn x500_uuid_text(name: Seq<u8>) -> Seq<char>;

/// Relies on `uuid::Uuid::new_v5` with `Uuid::NAMESPACE_X500`, written out
/// in hyphenated form: the result depends on the name bytes alone.
#[verifier::external_body]
pub(crate) fn uuid_v5_x500(name: &[u8]) -> (r: String)
    ensures
        r@ == x500_uuid_text(name@),
{
    uuid::Uuid::new_v5(&uuid::Uuid::NAMESPACE_X500, name).hyphenated().to_string()
}

/// Adds the component `s[a..b]` to `dn` when it is not empty.
fn push_piece(s: &str, cs: &Vec<char>, a: usize, b: usize, dn: &mut LDAPDN) -> (r: Result<(), DnError>)
    requires
        cs@ == s@,
        a <= b <= cs@.len(),
    ensures
        ({
            let p = cs@.subrange(a as int, b as int);
            if p.len() == 0 {
                r is Ok && final(dn)@ == old(dn)@
            } else {
                match parse_component(p) {
                    Ok(kv) => r is Ok && final(dn)@ == old(dn)@.push(kv),
                    Err(kind) => r matches Err(e) && e.component@ == p && e.kind == kind,
                }
            }
        }),
{
    if a == b {
        return Ok(());
    }
    match split_component(s, cs, a, b) {
        Ok(kv) => {
            let ghost before = dn@;
            dn.0.push(kv);
            assert(dn@ =~= before.push((kv.0@, kv.1@)));
            Ok(())
        },
        Err(kind) => {
            let component = s.substring_char(a, b).to_owned();
            Err(DnError { component, kind })
        },
    }
}

impl LDAPDN {
    /// The empty name (the root DSE).
    pub fn empty() -> (r: Self)
        ensures
            r@ == Seq::<(Seq<char>, Seq<char>)>::empty(),
    {
        let r = LDAPDN(Vec::new());
        assert(r@ =~= Seq::<(Seq<char>, Seq<char>)>::empty());
        r
    }

    /// The number of components.
    pub fn len(&self) -> (r: usize)
        ensures
            r == self@.len(),
    {
        self.0.len()
    }

    /// Whether this is the empty name.
    pub fn is_empty(&self) -> (r: bool)
        ensures
            r == (self@.len() == 0),
    {
        self.0.len() == 0
    }

    /// Puts `k=v` in front, as the new most specific component.
    pub fn add_prefix(&mut self, k: &str, v: &str)
        ensures
            final(self)@ == seq![(k@, v@)] + old(self)@,
    {
        let ghost before = self@;
        self.0.insert(0, (k.to_owned(), v.to_owned()));
        assert(self@ =~= seq![(k@, v@)] + before);
    }

    /// Appends `k=v` as the new least specific component.
    pub fn add_suffix(&mut self, k: &str, v: &str)
        ensures
            final(self)@ == old(self)@.push((k@, v@)),
    {
        let ghost before = self@;
        self.0.push((k.to_owned(), v.to_owned()));
        assert(self@ =~= before.push((k@, v@)));
    }

    /// This name with `k=v` put in front.
    pub fn with_prefix(self, k: &str, v: &str) -> (r: Self)
        ensures
            r@ == seq![(k@, v@)] + self@,
    {
        let mut dn = self;
        dn.add_prefix(k, v);
        dn
    }

    /// Whether both names have the same components.
    pub fn same_as(&self, other: &LDAPDN) -> (r: bool)
        ensures
            r == (self@ == other@),
    {
        if self.0.len() != other.0.len() {
            assert(self@.len() != other@.len());
            return false;
        }
        let r = self.matches_suffix(other);
        proof {
            assert(self@.subrange(0, self@.len() as int) =~= self@);
        }
        r
    }

    /// Whether `suffix` is a suffix of this name.
    pub fn matches_suffix(&self, suffix: &LDAPDN) -> (r: bool)
        ensures
            r == is_suffix(self@, suffix@),
    {
        let n = self.0.len();
        let m = suffix.0.len();
        if n < m {
            return false;
        }
        let mut i: usize = 0;
        while i < m
            invariant
                n == self.0.len(),
                m == suffix.0.len(),
                m <= n,
                i <= m,
                forall|j: int| 0 <= j < i ==> self@[n - m + j] == #[trigger] suffix@[j],
            decreases m - i,
        {
            let a = &self.0[n - m + i];
            let b = &suffix.0[i];
            if !(a.0 == b.0 && a.1 == b.1) {
                assert(self@.subrange(n - m, n as int)[i as int] != suffix@[i as int]);
                return false;
            }
            assert(self@[n - m + i] == suffix@[i as int]);
            i = i + 1;
        }
        assert forall|j: int| 0 <= j < m implies self@.subrange(n - m, n as int)[j] == suffix@[j] by {
            assert(suffix@[j] == suffix@[j]);
        }
        assert(self@.subrange(n - m, n as int) =~= suffix@);
        true
    }

    /// The last `len` components, as a name of their own.
    pub fn trailing(&self, len: usize) -> (r: Self)
        requires
            len <= self@.len(),
        ensures
            r@ == self@.subrange(self@.len() - len, self@.len() as int),
            is_suffix(self@, r@),
    {
        let n = self.0.len();
        let mut out: Vec<(String, String)> = Vec::new();
        let mut i: usize = n - len;
        while i < n
            invariant
                n == self.0.len(),
                len <= n,
                n - len <= i <= n,
                out@.map_values(|p: (String, String)| (p.0@, p.1@)) == self@.subrange(n - len, i as int),
            decreases n - i,
        {
            let p = &self.0[i];
            let ghost before = out@.map_values(|p: (String, String)| (p.0@, p.1@));
            out.push((p.0.clone(), p.1.clone()));
            assert(out@.map_values(|p: (String, String)| (p.0@, p.1@)) =~= before.push(self@[i as int]));
            assert(self@.subrange(n - len, i + 1) =~= self@.subrange(n - len, i as int).push(self@[i as int]));
            i = i + 1;
        }
        LDAPDN(out)
    }

    /// Parses `k1=v1,k2=v2,...`: empty pieces between commas are skipped; a
    /// non-empty piece must hold `=` with something on both sides of the
    /// first one. The empty text gives the empty name.
    pub fn from_str(s: &str) -> (r: Result<LDAPDN, DnError>)
        ensures
            match r {
                Ok(dn) => dn_parse(s@) == Ok::<DnModel, (Seq<char>, DnErrorKind)>(dn@),
                Err(e) => dn_parse(s@) == Err::<DnModel, (Seq<char>, DnErrorKind)>((e.component@, e.kind)),
            },
    {
        let cs = chars_of(s);
        let n = cs.len();
        let mut dn = LDAPDN::empty();
        let mut start: usize = 0;
        let mut i: usize = 0;
        proof {
            lemma_pieces_nonempty(s@.subrange(0, 0));
            assert(s@.subrange(0, 0) =~= Seq::<char>::empty());
            assert(pieces(Seq::<char>::empty()).drop_last() =~= Seq::<Seq<char>>::empty());
        }
        while i < n
            invariant
                cs@ == s@,
                n == cs@.len(),
                start <= i <= n,
                pieces(s@.subrange(0, i as int)).len() >= 1,
                pieces(s@.subrange(0, i as int)).last() == s@.subrange(start as int, i as int),
                parse_pieces(pieces(s@.subrange(0, i as int)).drop_last())
                    == Ok::<DnModel, (Seq<char>, DnErrorKind)>(dn@),
            decreases n - i,
        {
            let ghost ps = pieces(s@.subrange(0, i as int));
            proof {
                assert(s@.subrange(0, i + 1).drop_last() =~= s@.subrange(0, i as int));
            }
            if cs[i] == ',' {
                let ghost before = dn@;
                match push_piece(s, &cs, start, i, &mut dn) {
                    Ok(()) => {},
                    Err(e) => {
                        proof {
                            assert(parse_pieces(ps) == Err::<DnModel, (Seq<char>, DnErrorKind)>((e.component@, e.kind)));
                            let ps2 = pieces(s@.subrange(0, i + 1));
                            assert(ps2.drop_last() =~= ps);
                            lemma_pieces_prefix(s@, i + 1, n as int);
                            assert(s@.subrange(0, n as int) =~= s@);
                            lemma_parse_err_extends(pieces(s@), ps.len() as int);
                        }
                        return Err(e);
                    },
                }
                proof {
                    assert(pieces(s@.subrange(0, i + 1)).drop_last() =~= ps);
                    assert(parse_pieces(ps) == Ok::<DnModel, (Seq<char>, DnErrorKind)>(dn@));
                    assert(pieces(s@.subrange(0, i + 1)).last() =~= s@.subrange(i + 1, i + 1));
                }
                start = i + 1;
            } else {
                proof {
                    let ps2 = pieces(s@.subrange(0, i + 1));
                    assert(ps2.drop_last() =~= ps.drop_last());
                    assert(ps2.last() =~= s@.subrange(start as int, i + 1));
                }
            }
            i = i + 1;
        }
        proof {
            assert(s@.subrange(0, n as int) =~= s@);
        }
        push_piece(s, &cs, start, n, &mut dn)?;
        Ok(dn)
    }

    /// `k1=v1,k2=v2,...`, or `<root DSE>` for the empty name.
    pub fn to_string(&self) -> (r: String)
        ensures
            r@ == display_text(self@),
    {
        if self.0.len() == 0 {
            proof {
                reveal_strlit("<root DSE>");
            }
            return "<root DSE>".to_owned();
        }
        self.to_wire_string()
    }

    /// `k1=v1,k2=v2,...`; the empty name gives the empty text.
    pub fn to_wire_string(&self) -> (r: String)
        ensures
            r@ == dn_text(self@),
    {
        let n = self.0.len();
        let mut out = String::new();
        let mut i: usize = 0;
        proof {
            reveal_strlit(",");
            reveal_strlit("=");
            assert(","@ =~= seq![',']);
            assert("="@ =~= seq!['=']);
        }
        while i < n
            invariant
                n == self.0.len(),
                i <= n,
                out@ == dn_text(self@.subrange(0, i as int)),
                ","@ == seq![','],
                "="@ == seq!['='],
            decreases n - i,
        {
            let p = &self.0[i];
            let ghost before = out@;
            if i > 0 {
                out.append(",");
            }
            out.append(p.0.as_str());
            out.append("=");
            out.append(p.1.as_str());
            proof {
                let d = self@.subrange(0, i + 1);
                assert(d.drop_last() =~= self@.subrange(0, i as int));
                assert(d.last() == self@[i as int]);
                if i == 0 {
                    assert(out@ =~= pair_text(self@[0]));
                } else {
                    assert(out@ =~= before + seq![','] + pair_text(self@[i as int]));
                }
            }
            i = i + 1;
        }
        assert(self@.subrange(0, n as int) =~= self@);
        out
    }

    /// The version-5 UUID of the display text of this name, in the X.500
    /// namespace, hyphenated.
    pub fn uuid(&self) -> (r: String)
        ensures
            r@ == x500_uuid_text(vstd::utf8::encode_utf8(display_text(self@))),
    {
        let text = self.to_string();
        uuid_v5_x500(text.as_str().as_bytes())
    }

    /// Releases spare capacity; the name is unchanged.
    pub fn tidy(&mut self)
        ensures
            final(self)@ == old(self)@,
    {
        shrink(&mut self.0);
    }
}

/// The completed pieces of a prefix of the text stay the leading pieces of
/// every longer prefix.
proof fn lemma_pieces_prefix(s: Seq<char>, i: int, j: int)
    requires
        0 <= i <= j <= s.len(),
    ensures
        pieces(s.subrange(0, i)).len() <= pieces(s.subrange(0, j)).len(),
        pieces(s.subrange(0, j)).subrange(0, pieces(s.subrange(0, i)).len() - 1)
            == pieces(s.subrange(0, i)).drop_last(),
    decreases j - i,
{
    lemma_pieces_nonempty(s.subrange(0, i));
    if j == i {
        assert(pieces(s.subrange(0, j)).subrange(0, pieces(s.subrange(0, i)).len() - 1)
            =~= pieces(s.subrange(0, i)).drop_last());
    } else {
        lemma_pieces_prefix(s, i, j - 1);
        let t = s.subrange(0, j);
        assert(t.drop_last() =~= s.subrange(0, j - 1));
        lemma_pieces_nonempty(t.drop_last());
        let m = pieces(s.subrange(0, i)).len() - 1;
        assert(pieces(t).subrange(0, m) =~= pieces(t.drop_last()).subrange(0, m));
    }
}

/// An error among the leading pieces is the error of the whole.
proof fn lemma_parse_err_extends(q: Seq<Seq<char>>, m: int)
    requires
        0 <= m <= q.len(),
        parse_pieces(q.subrange(0, m)).is_err(),
    ensures
        parse_pieces(q) == parse_pieces(q.subrange(0, m)),
    decreases q.len(),
{
    if q.len() == m {
        assert(q.subrange(0, m) =~= q);
    } else {
        assert(q.drop_last().subrange(0, m) =~= q.subrange(0, m));
        lemma_parse_err_extends(q.drop_last(), m);
    }
}

impl Clone for LDAPDN {
    fn clone(&self) -> (r: Self)
        ensures
            r@ == self@,
    {
        self.trailing(self.0.len())
    }
}

impl PartialEq for LDAPDN {
    fn eq(&self, other: &LDAPDN) -> (r: bool) {
        self.same_as(other)
    }
}

impl vstd::std_specs::cmp::PartialEqSpecImpl for LDAPDN {
    open spec fn obeys_eq_spec() -> bool {
        true
    }

    open spec fn eq_spec(&self, other: &LDAPDN) -> bool {
        self@ == other@
    }
}

impl Eq for LDAPDN {}


/// Every name is a suffix of itself.
pub proof fn lemma_suffix_reflexive(d: DnModel)
    ensures
        is_suffix(d, d),
{
    assert(d.subrange(0, d.len() as int) =~= d);
}

/// The empty name is a suffix of every name.
pub proof fn lemma_empty_suffix(d: DnModel)
    ensures
        is_suffix(d, Seq::empty()),
{
    assert(d.subrange(d.len() as int, d.len() as int) =~= Seq::<(Seq<char>, Seq<char>)>::empty());
}

/// A suffix of a suffix of a name is a suffix of that name.
pub proof fn lemma_suffix_transitive(a: DnModel, b: DnModel, c: DnModel)
    requires
        is_suffix(a, b),
        is_suffix(b, c),
    ensures
        is_suffix(a, c),
{
    assert(a.subrange(a.len() - c.len(), a.len() as int) =~= b.subrange(b.len() - c.len(), b.len() as int)) by {
        assert forall|i: int| 0 <= i < c.len() implies #[trigger] a.subrange(a.len() - c.len(), a.len() as int)[i] == b.subrange(b.len() - c.len(), b.len() as int)[i] by {
            assert(a.subrange(a.len() - b.len(), a.len() as int)[b.len() - c.len() + i] == b[b.len() - c.len() + i]);
        }
    }
}

/// A key or value that the text form reads back unchanged.
pub open spec fn plain_part(t: Seq<char>, allow_eq: bool) -> bool {
    &&& t.len() > 0
    &&& forall|i: int| 0 <= i < t.len() ==> #[trigger] t[i] != ',' && (allow_eq || t[i] != '=')
}

/// A name whose keys are non-empty without `,` or `=`, and whose values are
/// non-empty without `,`.
pub open spec fn plain_dn(d: DnModel) -> bool {
    forall|i: int| 0 <= i < d.len() ==> plain_part(#[trigger] d[i].0, false) && plain_part(d[i].1, true)
}

proof fn lemma_pieces_no_comma(y: Seq<char>)
    requires
        forall|i: int| 0 <= i < y.len() ==> #[trigger] y[i] != ',',
    ensures
        pieces(y) == seq![y],
    decreases y.len(),
{
    if y.len() > 0 {
        lemma_pieces_no_comma(y.drop_last());
        assert(y.drop_last().push(y.last()) =~= y);
        assert(seq![y.drop_last()].update(0, y.drop_last().push(y.last())) =~= seq![y]);
    } else {
        assert(y =~= Seq::<char>::empty());
    }
}

proof fn lemma_pieces_after_comma(x: Seq<char>, y: Seq<char>)
    requires
        forall|i: int| 0 <= i < y.len() ==> #[trigger] y[i] != ',',
    ensures
        pieces(x + seq![','] + y) == pieces(x).push(y),
    decreases y.len(),
{
    let t = x + seq![','] + y;
    if y.len() == 0 {
        assert(t =~= x + seq![',']);
        assert(t.drop_last() =~= x);
        assert(Seq::<char>::empty() =~= y);
    } else {
        lemma_pieces_after_comma(x, y.drop_last());
        assert(t.drop_last() =~= x + seq![','] + y.drop_last());
        lemma_pieces_nonempty(x);
        let p = pieces(x).push(y.drop_last());
        assert(y.drop_last().push(y.last()) =~= y);
        assert(p.update(p.len() - 1, p.last().push(y.last())) =~= pieces(x).push(y));
    }
}

proof fn lemma_pair_text_no_comma(p: (Seq<char>, Seq<char>))
    requires
        plain_part(p.0, false),
        plain_part(p.1, true),
    ensures
        forall|i: int| 0 <= i < pair_text(p).len() ==> #[trigger] pair_text(p)[i] != ',',
{
    assert forall|i: int| 0 <= i < pair_text(p).len() implies #[trigger] pair_text(p)[i] != ',' by {
        if i < p.0.len() {
            assert(pair_text(p)[i] == p.0[i]);
        } else if i > p.0.len() {
            assert(pair_text(p)[i] == p.1[i - p.0.len() - 1]);
        }
    }
}

proof fn lemma_pieces_of_text(d: DnModel)
    requires
        d.len() > 0,
        plain_dn(d),
    ensures
        pieces(dn_text(d)) == d.map_values(|p: (Seq<char>, Seq<char>)| pair_text(p)),
    decreases d.len(),
{
    lemma_pair_text_no_comma(d.last());
    if d.len() == 1 {
        lemma_pieces_no_comma(pair_text(d[0]));
        assert(d.map_values(|p: (Seq<char>, Seq<char>)| pair_text(p)) =~= seq![pair_text(d[0])]);
    } else {
        let e = d.drop_last();
        assert(plain_dn(e)) by {
            assert forall|i: int| 0 <= i < e.len() implies plain_part(#[trigger] e[i].0, false) && plain_part(e[i].1, true) by {
                assert(e[i] == d[i]);
            }
        }
        lemma_pieces_of_text(e);
        lemma_pieces_after_comma(dn_text(e), pair_text(d.last()));
        assert(d.map_values(|p: (Seq<char>, Seq<char>)| pair_text(p)) =~= e.map_values(|p: (Seq<char>, Seq<char>)| pair_text(p)).push(pair_text(d.last())));
    }
}

proof fn lemma_parse_pair(p: (Seq<char>, Seq<char>))
    requires
        plain_part(p.0, false),
        plain_part(p.1, true),
    ensures
        parse_component(pair_text(p)) == Ok::<(Seq<char>, Seq<char>), DnErrorKind>(p),
{
    let t = pair_text(p);
    let k = p.0.len() as int;
    assert(t[k] == '=');
    assert forall|j: int| 0 <= j < k implies t[j] != '=' by {
        assert(t[j] == p.0[j]);
    }
    assert(first_eq_at(t, k));
    let c = choose|k: int| first_eq_at(t, k);
    assert(c == k) by {
        if c < k {
            assert(t[c] != '=');
        } else if c > k {
            assert(t[k] != '=');
        }
    }
    assert(t.subrange(0, k) =~= p.0);
    assert(t.subrange(k + 1, t.len() as int) =~= p.1);
}

proof fn lemma_parse_texts(d: DnModel)
    requires
        plain_dn(d),
    ensures
        parse_pieces(d.map_values(|p: (Seq<char>, Seq<char>)| pair_text(p))) == Ok::<DnModel, (Seq<char>, DnErrorKind)>(d),
    decreases d.len(),
{
    let ps = d.map_values(|p: (Seq<char>, Seq<char>)| pair_text(p));
    if d.len() == 0 {
        assert(d =~= Seq::<(Seq<char>, Seq<char>)>::empty());
    } else {
        let e = d.drop_last();
        assert(plain_dn(e)) by {
            assert forall|i: int| 0 <= i < e.len() implies plain_part(#[trigger] e[i].0, false) && plain_part(e[i].1, true) by {
                assert(e[i] == d[i]);
            }
        }
        lemma_parse_texts(e);
        assert(ps.drop_last() =~= e.map_values(|p: (Seq<char>, Seq<char>)| pair_text(p)));
        lemma_parse_pair(d.last());
        assert(ps.last().len() > 0);
        assert(e.push(d.last()) =~= d);
    }
}

/// The text of a non-empty name made of plain keys and values parses back
/// to that name; since `to_string` gives that text, parsing then printing
/// such a text gives it back.
pub proof fn lemma_parse_display_round_trip(d: DnModel)
    requires
        d.len() > 0,
        plain_dn(d),
    ensures
        dn_parse(dn_text(d)) == Ok::<DnModel, (Seq<char>, DnErrorKind)>(d),
        display_text(d) == dn_text(d),
{
    lemma_pieces_of_text(d);
    lemma_parse_texts(d);
}

} // verus!
