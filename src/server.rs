use vstd::prelude::*;
use vstd::string::*;
use vstd::utf8::encode_utf8;
use crate::acl::acl_allows;
use crate::attribute::{AttributeModel, LDAPAttribute};
use crate::attributes::values_of;
use crate::database::{positions_ok, search_holds, LDAPReadOnlyInMemoryDatabase};
use crate::datatypes::fold;
use crate::dn::{dn_parse, dn_text, is_suffix, DnModel, LDAPDN};
use crate::entry::{bind_capable, EntryModel, LDAPEntry};
use crate::filter::{strings_view, Filter};
use crate::traits::contains_string;

verus! {

/// The kind of socket a listener serves.
#[derive(Debug)]
pub enum LDAPListenerType {
    /// Plain TCP.
    Plain,
    /// TLS, with the certificate and key read from these paths.
    Tls { cert_path: String, key_path: String },
}

impl LDAPListenerType {
    /// The protocol name used in logs and metrics.
    pub fn protocol_name(&self) -> (r: &'static str)
        ensures
            r@ == match self {
                LDAPListenerType::Plain => "LDAP"@,
                LDAPListenerType::Tls { .. } => "LDAPS"@,
            },
    {
        match self {
            LDAPListenerType::Plain => "LDAP",
            LDAPListenerType::Tls { .. } => "LDAPS",
        }
    }
}

/// Who a connection is authenticated as.
#[derive(Debug)]
pub enum BindStatus {
    Anonymous,
    Bound(LDAPEntry),
}

impl View for BindStatus {
    type V = Option<EntryModel>;

    open spec fn view(&self) -> Option<EntryModel> {
        match self {
            BindStatus::Anonymous => None,
            BindStatus::Bound(e) => Some(e@),
        }
    }
}

impl BindStatus {
    /// The bound entry, if any, is well formed.
    pub open spec fn wf(&self) -> bool {
        match self {
            BindStatus::Anonymous => true,
            BindStatus::Bound(e) => e.wf(),
        }
    }

    /// Forgets the authenticated identity.
    pub fn unbind(&mut self)
        ensures
            final(self)@ is None,
            final(self).wf(),
    {
        *self = BindStatus::Anonymous;
    }
}

/// The credentials of a bind request.
#[derive(Debug)]
pub enum BindCredentials {
    /// A clear-text password.
    Simple(String),
    /// Any SASL mechanism; none is supported.
    Sasl,
}

/// A decoded request.
#[derive(Debug)]
pub enum Request {
    Bind { dn: String, credentials: BindCredentials },
    Unbind,
    Search { base: String, filter: Filter, attrs: Vec<String> },
    /// Any other operation: it gets no answer.
    Other,
}

/// The result codes this server sends.
#[derive(Debug, Clone, Copy, PartialEq, Eq, Structural)]
pub enum ResultCode {
    Success,
    InvalidCredentials,
    InappropriateAuthentication,
    NoSuchObject,
}

/// A response to send, with the request's message id.
#[derive(Debug)]
pub enum Response {
    BindResponse { code: ResultCode, matched_dn: String, message: String },
    SearchResultEntry { dn: String, attributes: Vec<LDAPAttribute> },
    SearchResultDone { code: ResultCode, matched_dn: String },
}

/// A response as a value.
pub enum ResponseModel {
    Bind(ResultCode, Seq<char>, Seq<char>),
    Entry(Seq<char>, Seq<AttributeModel>),
    Done(ResultCode, Seq<char>),
}

impl View for Response {
    type V = ResponseModel;

    open spec fn view(&self) -> ResponseModel {
        match self {
            Response::BindResponse { code, matched_dn, message } => ResponseModel::Bind(*code, matched_dn@, message@),
            Response::SearchResultEntry { dn, attributes } => ResponseModel::Entry(
                dn@,
                attributes@.map_values(|a: LDAPAttribute| a@),
            ),
            Response::SearchResultDone { code, matched_dn } => ResponseModel::Done(*code, matched_dn@),
        }
    }
}

/// The attributes returned for an entry: all of them when none is requested,
/// else those whose name is exactly one of the requested names.
pub open spec fn selected(attrs: Seq<AttributeModel>, requested: Seq<Seq<char>>) -> Seq<AttributeModel> {
    if requested.len() == 0 {
        attrs
    } else {
        attrs.filter(|a: AttributeModel| requested.contains(a.0))
    }
}

/// A principal may search below `base`: the root DSE is open to all; a bound
/// principal may search below a name above itself when it may access
/// itself, or below a name its policy grants.
pub open spec fn base_allowed(status: Option<EntryModel>, base: DnModel) -> bool {
    ||| base.len() == 0
    ||| match status {
        None => false,
        Some(e) => (e.2.0 && is_suffix(e.0, base)) || acl_allows(e.2, e.0, base),
    }
}

/// A found entry is returned: the root DSE always, to anyone; any other
/// entry to a bound principal whose policy allows it.
pub open spec fn visible(status: Option<EntryModel>, target: DnModel) -> bool {
    match status {
        None => target.len() == 0,
        Some(e) => target.len() == 0 || acl_allows(e.2, e.0, target),
    }
}

/// The increasing positions below `n` that satisfy `p`.
pub open spec fn sorted_positions(n: int, p: spec_fn(int) -> bool) -> Seq<usize> {
    choose|q: Seq<usize>| positions_ok(q, n) && forall|i: int| 0 <= i < n ==> (#[trigger] q.contains(i as usize) <==> p(i))
}

/// Entry `i` may bind with password `pw` under the name `d`.
pub open spec fn bind_matches(es: Seq<EntryModel>, i: int, d: DnModel, pw: Seq<char>) -> bool {
    &&& 0 <= i < es.len()
    &&& es[i].0 == d
    &&& bind_capable(es[i])
    &&& values_of(es[i].1, fold("userPassword"@)).contains(encode_utf8(pw))
}

/// The answer to a search, entries then the closing message.
pub open spec fn search_responses(es: Seq<EntryModel>, status: Option<EntryModel>, base_text: Seq<char>, base: DnModel, f: Filter, requested: Seq<Seq<char>>) -> Seq<ResponseModel> {
    let q = sorted_positions(es.len() as int, |i: int| search_holds(es, base, f, i) && visible(status, es[i].0));
    if q.len() == 0 {
        seq![ResponseModel::Done(ResultCode::NoSuchObject, base_text)]
    } else {
        q.map_values(|i: usize| ResponseModel::Entry(dn_text(es[i as int].0), selected(es[i as int].1, requested))).push(
            ResponseModel::Done(ResultCode::Success, base_text),
        )
    }
}

/// Two increasing position lists with the same members are the same list.
proof fn lemma_sorted_unique(a: Seq<usize>, b: Seq<usize>, n: int)
    requires
        positions_ok(a, n),
        positions_ok(b, n),
        forall|x: usize| a.contains(x) <==> b.contains(x),
    ensures
        a == b,
    decreases a.len() + b.len(),
{
    if a.len() == 0 {
        if b.len() > 0 {
            assert(b.contains(b[0]));
        }
        assert(b =~= a);
    } else if b.len() == 0 {
        assert(a.contains(a[0]));
    } else {
        assert(a.contains(a[0]));
        assert(b.contains(b[0]));
        let ja = choose|j: int| 0 <= j < b.len() && b[j] == a[0];
        let jb = choose|j: int| 0 <= j < a.len() && a[j] == b[0];
        assert(a[0] == b[0]) by {
            if a[0] < b[0] {
                if ja > 0 {
                    assert(b[0] < b[ja]);
                }
            } else if a[0] > b[0] {
                if jb > 0 {
                    assert(a[0] < a[jb]);
                }
            }
        }
        let a2 = a.drop_first();
        let b2 = b.drop_first();
        assert forall|x: usize| a2.contains(x) <==> b2.contains(x) by {
            if a2.contains(x) {
                let j = choose|j: int| 0 <= j < a2.len() && a2[j] == x;
                assert(a[j + 1] == x);
                assert(a.contains(x));
                let k = choose|k: int| 0 <= k < b.len() && b[k] == x;
                assert(a[0] < a[j + 1]);
                assert(k != 0);
                assert(b2[k - 1] == x);
            }
            if b2.contains(x) {
                let j = choose|j: int| 0 <= j < b2.len() && b2[j] == x;
                assert(b[j + 1] == x);
                assert(b.contains(x));
                let k = choose|k: int| 0 <= k < a.len() && a[k] == x;
                assert(b[0] < b[j + 1]);
                assert(k != 0);
                assert(a2[k - 1] == x);
            }
        }
        assert(positions_ok(a2, n)) by {
            assert forall|j: int| 0 <= j < a2.len() implies #[trigger] a2[j] < n by {
                assert(a[j + 1] < n);
            }
            assert forall|x: int, y: int| 0 <= x < y < a2.len() implies #[trigger] a2[x] < #[trigger] a2[y] by {
                assert(a[x + 1] < a[y + 1]);
            }
        }
        assert(positions_ok(b2, n)) by {
            assert forall|j: int| 0 <= j < b2.len() implies #[trigger] b2[j] < n by {
                assert(b[j + 1] < n);
            }
            assert forall|x: int, y: int| 0 <= x < y < b2.len() implies #[trigger] b2[x] < #[trigger] b2[y] by {
                assert(b[x + 1] < b[y + 1]);
            }
        }
        lemma_sorted_unique(a2, b2, n);
        assert(a =~= seq![a[0]] + a2);
        assert(b =~= seq![b[0]] + b2);
    }
}


/// The attributes of `entry` returned for the requested names.
fn select_attributes(entry: &LDAPEntry, requested: &Vec<String>) -> (r: Vec<LDAPAttribute>)
    ensures
        r@.map_values(|a: LDAPAttribute| a@) == selected(entry.attributes@, strings_view(requested@)),
{
    let all = entry.attributes.iter();
    let ghost av = entry.attributes@;
    let ghost rq = strings_view(requested@);
    let mut out: Vec<LDAPAttribute> = Vec::new();
    let mut i: usize = 0;
    while i < all.len()
        invariant
            i <= all.len(),
            av == all@.map_values(|a: LDAPAttribute| a@),
            rq == strings_view(requested@),
            out@.map_values(|a: LDAPAttribute| a@) == (if rq.len() == 0 {
                av.subrange(0, i as int)
            } else {
                av.subrange(0, i as int).filter(|a: AttributeModel| rq.contains(a.0))
            }),
        decreases all.len() - i,
    {
        let ghost before = out@.map_values(|a: LDAPAttribute| a@);
        proof {
            assert(av.subrange(0, i + 1) =~= av.subrange(0, i as int).push(av[i as int]));
            av.subrange(0, i as int).lemma_filter_push(av[i as int], |a: AttributeModel| rq.contains(a.0));
        }
        if requested.len() == 0 || contains_string(requested, &all[i].name) {
            out.push(all[i].clone());
            assert(out@.map_values(|a: LDAPAttribute| a@) =~= before.push(av[i as int]));
        }
        i = i + 1;
    }
    assert(av.subrange(0, all.len() as int) =~= av);
    out
}

/// Whether the connection may search below `base`.
fn may_search(status: &BindStatus, base: &LDAPDN) -> (r: bool)
    ensures
        r == base_allowed(status@, base@),
{
    if base.is_empty() {
        return true;
    }
    match status {
        BindStatus::Anonymous => false,
        BindStatus::Bound(entry) => (entry.acls.can_access_self && entry.dn.matches_suffix(base)) || entry.acls.can_access_dn(
            entry,
            base,
        ),
    }
}

/// Whether a found entry named `target` is returned to the connection.
fn is_visible(status: &BindStatus, target: &LDAPDN) -> (r: bool)
    ensures
        r == visible(status@, target@),
{
    match status {
        BindStatus::Anonymous => target.is_empty(),
        BindStatus::Bound(entry) => target.is_empty() || entry.acls.can_access_dn(entry, target),
    }
}

/// The answer to a search below `base` (the parsed form of `base_text`).
fn search_answer(db: &LDAPReadOnlyInMemoryDatabase, status: &BindStatus, base_text: &String, base: &LDAPDN, filter: &Filter, attrs: &Vec<String>) -> (r: Vec<Response>)
    requires
        db.wf(),
    ensures
        r@.map_values(|x: Response| x@) == search_responses(db.entries_view(), status@, base_text@, base@, *filter, strings_view(attrs@)),
{
    let ghost es = db.entries_view();
    let count = db.len();
    let ghost n = count as int;
    let ghost p = |i: int| search_holds(es, base@, *filter, i) && visible(status@, es[i].0);
    let found = db.search(base, filter);
    let mut q: Vec<usize> = Vec::new();
    let mut k: usize = 0;
    while k < found.len()
        invariant
            db.wf(),
            es == db.entries_view(),
            n == es.len(),
            n == count,
            positions_ok(found@, n),
            forall|i: int| 0 <= i < n ==> (found@.contains(i as usize) <==> search_holds(es, base@, *filter, i)),
            k <= found.len(),
            positions_ok(q@, n),
            k < found.len() ==> forall|j: int| 0 <= j < q.len() ==> #[trigger] q@[j] < found@[k as int],
            forall|i: int| 0 <= i < n ==> (#[trigger] q@.contains(i as usize) <==> found@.subrange(0, k as int).contains(i as usize) && visible(status@, es[i].0)),
        decreases found.len() - k,
    {
        let pos = found[k];
        let ghost before = q@;
        proof {
            assert(found@.subrange(0, k + 1) =~= found@.subrange(0, k as int).push(pos));
            if k + 1 < found.len() {
                assert(found@[k as int] < found@[k + 1]);
            }
            assert(pos < n);
        }
        if is_visible(status, &db.entry(pos).dn) {
            q.push(pos);
            proof {
                assert(visible(status@, es[pos as int].0));
                assert forall|i: int| 0 <= i < n implies (#[trigger] q@.contains(i as usize) <==> found@.subrange(0, k + 1).contains(i as usize) && visible(status@, es[i].0)) by {
                    crate::database::lemma_push_contains(found@.subrange(0, k as int), pos, i as usize);
                    crate::database::lemma_push_contains(before, pos, i as usize);
                    assert(before.contains(i as usize) <==> found@.subrange(0, k as int).contains(i as usize) && visible(status@, es[i].0));
                }
                assert forall|a: int, b: int| 0 <= a < b < q@.len() implies #[trigger] q@[a] < #[trigger] q@[b] by {
                    if b == before.len() {
                        assert(before[a] < found@[k as int]);
                    }
                }
                assert forall|j: int| 0 <= j < q@.len() implies #[trigger] q@[j] < n by {
                    if j < before.len() {
                        assert(before[j] < n);
                    }
                }
            }
        } else {
            proof {
                assert(!visible(status@, es[pos as int].0));
                assert forall|i: int| 0 <= i < n implies (#[trigger] q@.contains(i as usize) <==> found@.subrange(0, k + 1).contains(i as usize) && visible(status@, es[i].0)) by {
                    crate::database::lemma_push_contains(found@.subrange(0, k as int), pos, i as usize);
                    assert(before.contains(i as usize) <==> found@.subrange(0, k as int).contains(i as usize) && visible(status@, es[i].0));
                }
            }
        }
        k = k + 1;
    }
    proof {
        assert(found@.subrange(0, found.len() as int) =~= found@);
        let chosen = sorted_positions(n, p);
        assert(positions_ok(q@, n) && forall|i: int| 0 <= i < n ==> (#[trigger] q@.contains(i as usize) <==> p(i)));
        assert forall|x: usize| q@.contains(x) <==> chosen.contains(x) by {
            if q@.contains(x) {
                let j = choose|j: int| 0 <= j < q@.len() && q@[j] == x;
                assert(q@[j] < n);
                assert(q@.contains((x as int) as usize));
                assert(chosen.contains((x as int) as usize));
            }
            if chosen.contains(x) {
                let j = choose|j: int| 0 <= j < chosen.len() && chosen[j] == x;
                assert(chosen[j] < n);
                assert(chosen.contains((x as int) as usize));
                assert(q@.contains((x as int) as usize));
            }
        }
        lemma_sorted_unique(q@, chosen, n);
    }
    let mut out: Vec<Response> = Vec::new();
    if q.len() == 0 {
        out.push(Response::SearchResultDone { code: ResultCode::NoSuchObject, matched_dn: base_text.clone() });
        assert(out@.map_values(|x: Response| x@) =~= seq![ResponseModel::Done(ResultCode::NoSuchObject, base_text@)]);
        return out;
    }
    let ghost rq = strings_view(attrs@);
    let mut j: usize = 0;
    while j < q.len()
        invariant
            db.wf(),
            es == db.entries_view(),
            positions_ok(q@, n),
            n == es.len(),
            rq == strings_view(attrs@),
            j <= q.len(),
            out@.map_values(|x: Response| x@) == q@.subrange(0, j as int).map_values(|i: usize| ResponseModel::Entry(dn_text(es[i as int].0), selected(es[i as int].1, rq))),
        decreases q.len() - j,
    {
        assert(q@[j as int] < n);
        let e = db.entry(q[j]);
        let ghost before = out@.map_values(|x: Response| x@);
        let dn_string = e.dn.to_wire_string();
        let selected_attributes = select_attributes(e, attrs);
        let response = Response::SearchResultEntry { dn: dn_string, attributes: selected_attributes };
        let ghost rv = response@;
        assert(rv == ResponseModel::Entry(dn_text(es[q@[j as int] as int].0), selected(es[q@[j as int] as int].1, rq)));
        out.push(response);
        assert(out@.map_values(|x: Response| x@) =~= before.push(rv));
        assert(q@.subrange(0, j + 1) =~= q@.subrange(0, j as int).push(q@[j as int]));
        assert(out@.map_values(|x: Response| x@) =~= q@.subrange(0, j + 1).map_values(|i: usize| ResponseModel::Entry(dn_text(es[i as int].0), selected(es[i as int].1, rq))));
        j = j + 1;
    }
    let ghost entries_part = out@.map_values(|x: Response| x@);
    out.push(Response::SearchResultDone { code: ResultCode::Success, matched_dn: base_text.clone() });
    assert(q@.subrange(0, q.len() as int) =~= q@);
    assert(out@.map_values(|x: Response| x@) =~= entries_part.push(ResponseModel::Done(ResultCode::Success, base_text@)));
    out
}

/// The one response to a bind request.
pub open spec fn bind_reply(code: ResultCode, matched: Seq<char>, message: Seq<char>) -> Seq<ResponseModel> {
    seq![ResponseModel::Bind(code, matched, message)]
}

/// The password of simple credentials; empty for SASL.
pub open spec fn simple_password(credentials: BindCredentials) -> Seq<char> {
    match credentials {
        BindCredentials::Simple(pw) => pw@,
        BindCredentials::Sasl => Seq::empty(),
    }
}

/// What a bind request with name text `dn` and a SASL request (`sasl`) or
/// the simple password `pw` does to the authentication state (`before` to
/// `after`) and what it answers.
pub open spec fn bind_outcome(es: Seq<EntryModel>, before: Option<EntryModel>, after: Option<EntryModel>, dn: Seq<char>, sasl: bool, pw: Seq<char>, responses: Seq<ResponseModel>) -> bool {
    match dn_parse(dn) {
        Err(_) => after == before && responses == bind_reply(ResultCode::InvalidCredentials, dn, "Malformed DN"@),
        Ok(d) => if sasl {
            after == before && responses == bind_reply(ResultCode::InvalidCredentials, dn, "SASL bind not supported"@)
        } else if exists|i: int| bind_matches(es, i, d, pw) {
            after == Some(es[choose|i: int| bind_matches(es, i, d, pw)])
                && responses == bind_reply(ResultCode::Success, ""@, ""@)
        } else {
            after == before && responses == bind_reply(ResultCode::InvalidCredentials, dn, "Bind failed"@)
        },
    }
}

/// A bind whose name parses and whose password matches an entry binds to it.
proof fn lemma_bind_success(es: Seq<EntryModel>, before: Option<EntryModel>, after: Option<EntryModel>, dn: Seq<char>, pw: Seq<char>, d: DnModel, responses: Seq<ResponseModel>)
    requires
        dn_parse(dn) == Ok::<DnModel, (Seq<char>, crate::dn::DnErrorKind)>(d),
        exists|i: int| bind_matches(es, i, d, pw),
        after == Some(es[choose|i: int| bind_matches(es, i, d, pw)]),
        responses == bind_reply(ResultCode::Success, ""@, ""@),
    ensures
        bind_outcome(es, before, after, dn, false, pw, responses),
{
}

/// Handles one request against one snapshot: the responses to send, in
/// order, and the new authentication state.
///
/// A bind with a well-formed name and a simple password succeeds when some
/// entry of that name may bind with that password; the connection is then
/// bound to it. A malformed name, a SASL bind or a wrong password gets
/// `invalidCredentials` and leaves the state as it was. An unbind forgets
/// the identity and gets no answer. A search is refused with
/// `inappropriateAuthentication` when the connection may not search below
/// its base; otherwise it answers the visible entries the snapshot finds, in
/// position order, then `success`, or `noSuchObject` alone when none is
/// found or the base is malformed. Other operations get no answer.
pub fn handle_request(db: &LDAPReadOnlyInMemoryDatabase, status: &mut BindStatus, request: &Request) -> (r: Vec<Response>)
    requires
        db.wf(),
        old(status).wf(),
    ensures
        final(status).wf(),
        match *request {
            Request::Bind { dn, credentials } => bind_outcome(db.entries_view(), old(status)@, final(status)@, dn@, credentials is Sasl, simple_password(credentials), r@.map_values(|x: Response| x@)),
            Request::Unbind => final(status)@ is None && r@.len() == 0,
            Request::Search { base, filter, attrs } => final(status)@ == old(status)@ && match dn_parse(base@) {
                Err(_) => r@.map_values(|x: Response| x@) == seq![ResponseModel::Done(ResultCode::NoSuchObject, base@)],
                Ok(b) => if !base_allowed(old(status)@, b) {
                    r@.map_values(|x: Response| x@) == seq![ResponseModel::Done(ResultCode::InappropriateAuthentication, base@)]
                } else {
                    r@.map_values(|x: Response| x@) == search_responses(db.entries_view(), old(status)@, base@, b, filter, strings_view(attrs@))
                },
            },
            Request::Other => final(status)@ == old(status)@ && r@.len() == 0,
        },
{
    let mut out: Vec<Response> = Vec::new();
    let ghost before = status@;
    match request {
        Request::Bind { dn, credentials } => {
            let parsed = LDAPDN::from_str(dn.as_str());
            match parsed {
                Err(_) => {
                    out.push(Response::BindResponse { code: ResultCode::InvalidCredentials, matched_dn: dn.clone(), message: "Malformed DN".to_owned() });
                    assert(out@.map_values(|x: Response| x@) =~= bind_reply(ResultCode::InvalidCredentials, dn@, "Malformed DN"@));
                    assert(bind_outcome(db.entries_view(), before, status@, dn@, *credentials is Sasl, simple_password(*credentials), out@.map_values(|x: Response| x@)));
                },
                Ok(d) => match credentials {
                    BindCredentials::Sasl => {
                        out.push(Response::BindResponse { code: ResultCode::InvalidCredentials, matched_dn: dn.clone(), message: "SASL bind not supported".to_owned() });
                        assert(out@.map_values(|x: Response| x@) =~= bind_reply(ResultCode::InvalidCredentials, dn@, "SASL bind not supported"@));
                        assert(bind_outcome(db.entries_view(), before, status@, dn@, *credentials is Sasl, simple_password(*credentials), out@.map_values(|x: Response| x@)));
                    },
                    BindCredentials::Simple(password) => {
                        match db.do_bind(&d, password.as_str()) {
                            Some(entry) => {
                                *status = BindStatus::Bound(entry.clone());
                                out.push(Response::BindResponse { code: ResultCode::Success, matched_dn: "".to_owned(), message: "".to_owned() });
                                proof {
                                    let k = choose|i: int| 0 <= i < db.entries_view().len() && #[trigger] db.entries_view()[i] == entry@
                                        && entry@.0 == d@ && bind_capable(entry@)
                                        && values_of(entry@.1, fold("userPassword"@)).contains(encode_utf8(password@));
                                    assert(bind_matches(db.entries_view(), k, d@, password@));
                                    assert(status@ == Some(db.entries_view()[k]));
                                    let j = choose|i: int| bind_matches(db.entries_view(), i, d@, password@);
                                    crate::database::lemma_names_distinct(db);
                                    assert(db.entries_view()[j].0 == db.entries_view()[k].0);
                                    assert(j == k);
                                }
                                assert(out@.map_values(|x: Response| x@) =~= bind_reply(ResultCode::Success, ""@, ""@));
                                proof {
                                    lemma_bind_success(db.entries_view(), before, status@, dn@, password@, d@, out@.map_values(|x: Response| x@));
                                }
                                assert(bind_outcome(db.entries_view(), before, status@, dn@, *credentials is Sasl, simple_password(*credentials), out@.map_values(|x: Response| x@)));
                            },
                            None => {
                                proof {
                                    let es = db.entries_view();
                                    if exists|i: int| bind_matches(es, i, d@, password@) {
                                        let i = choose|i: int| bind_matches(es, i, d@, password@);
                                        assert(es[i].0 == d@);
                                    }
                                }
                                out.push(Response::BindResponse { code: ResultCode::InvalidCredentials, matched_dn: dn.clone(), message: "Bind failed".to_owned() });
                                assert(out@.map_values(|x: Response| x@) =~= bind_reply(ResultCode::InvalidCredentials, dn@, "Bind failed"@));
                                assert(bind_outcome(db.entries_view(), before, status@, dn@, *credentials is Sasl, simple_password(*credentials), out@.map_values(|x: Response| x@)));
                            },
                        }
                    },
                },
            }
        },
        Request::Unbind => {
            status.unbind();
        },
        Request::Search { base, filter, attrs } => {
            match LDAPDN::from_str(base.as_str()) {
                Err(_) => {
                    out.push(Response::SearchResultDone { code: ResultCode::NoSuchObject, matched_dn: base.clone() });
                    assert(out@.map_values(|x: Response| x@) =~= seq![ResponseModel::Done(ResultCode::NoSuchObject, base@)]);
                },
                Ok(b) => {
                    if !may_search(status, &b) {
                        out.push(Response::SearchResultDone { code: ResultCode::InappropriateAuthentication, matched_dn: base.clone() });
                        assert(out@.map_values(|x: Response| x@) =~= seq![ResponseModel::Done(ResultCode::InappropriateAuthentication, base@)]);
                    } else {
                        out = search_answer(db, status, base, &b, filter, attrs);
                    }
                },
            }
        },
        Request::Other => {},
    }
    out
}

} // verus!
