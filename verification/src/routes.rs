//! The route table: path normalization, buckets of routes per method
//! kept in sorted order, binary-search lookup with wildcard fallback, and
//! grouping helpers for registering related routes together.

use crate::reqres::HttpMethod;
use crate::strutil::{
    lemma_lex_asym, lemma_lex_connex, lemma_lex_irrefl, lemma_lex_trans, lex_lt, str_compare,
    str_to_chars, chars_to_string, append_chars, Cmp,
};
use vstd::multiset::Multiset;
use vstd::prelude::*;
use vstd::seq_lib::lemma_multiset_commutative;
use vstd::string::*;

verus! {

broadcast use vstd::seq_lib::group_to_multiset_ensures;

// ---------------------------------------------------------------------------
// Path normalization
// ---------------------------------------------------------------------------
/// The path with a leading slash supplied when missing.
pub open spec fn with_lead(p: Seq<char>) -> Seq<char> {
    if p.len() > 0 && p[0] == '/' {
        p
    } else {
        seq!['/'] + p
    }
}

/// The path with every trailing slash dropped, except a slash that is the
/// whole path.
pub open spec fn strip_trail(p: Seq<char>) -> Seq<char>
    decreases p.len(),
{
    if p.len() > 1 && p.last() == '/' {
        strip_trail(p.drop_last())
    } else {
        p
    }
}

/// The normalized form of a route or request path: it starts with a
/// slash and never ends with one unless it is exactly `/`.
pub open spec fn norm_path(p: Seq<char>) -> Seq<char> {
    strip_trail(with_lead(p))
}

proof fn lemma_strip_trail_props(q: Seq<char>)
    requires
        q.len() >= 1,
    ensures
        1 <= strip_trail(q).len() <= q.len(),
        strip_trail(q)[0] == q[0],
        strip_trail(q).len() > 1 ==> strip_trail(q).last() != '/',
    decreases q.len(),
{
    if q.len() > 1 && q.last() == '/' {
        lemma_strip_trail_props(q.drop_last());
    }
}

/// Normalization is idempotent: normalizing a normalized path changes
/// nothing.
pub proof fn lemma_norm_path_idempotent(p: Seq<char>)
    ensures
        norm_path(norm_path(p)) == norm_path(p),
{
    let q = with_lead(p);
    assert(q.len() >= 1 && q[0] == '/');
    lemma_strip_trail_props(q);
    let n = strip_trail(q);
    assert(with_lead(n) == n);
    if n.len() > 1 {
        assert(strip_trail(n) == n);
    } else {
        assert(strip_trail(n) == n);
    }
}

/// The normalized form starts with a slash and ends with one only when
/// it is exactly `/`.
pub proof fn lemma_norm_path_shape(p: Seq<char>)
    ensures
        norm_path(p).len() >= 1,
        norm_path(p)[0] == '/',
        norm_path(p).len() > 1 ==> norm_path(p).last() != '/',
{
    let q = with_lead(p);
    assert(q.len() >= 1 && q[0] == '/');
    lemma_strip_trail_props(q);
}

/// Normalizes a path: a leading slash is supplied when missing and
/// trailing slashes are dropped.
pub fn normalize_path(path: &str) -> (r: String)
    ensures
        r@ == norm_path(path@),
{
    let cs = str_to_chars(path);
    let mut v: Vec<char> = Vec::new();
    let needs_lead = if cs.len() == 0 {
        true
    } else {
        cs[0] != '/'
    };
    if needs_lead {
        v.push('/');
    }
    append_chars(&mut v, &cs);
    proof {
        if needs_lead {
            assert(v@ =~= seq!['/'] + path@);
        }
        assert(v@ == with_lead(path@));
    }
    let ghost q = with_lead(path@);
    while v.len() > 1 && v[v.len() - 1] == '/'
        invariant
            v@.len() >= 1,
            strip_trail(q) == strip_trail(v@),
        decreases v.len(),
    {
        proof {
            assert(v@.last() == v@[v@.len() - 1]);
        }
        v.pop();
        proof {
            assert(v@.len() >= 1);
        }
    }
    proof {
        assert(strip_trail(v@) == v@);
    }
    chars_to_string(&v)
}

// ---------------------------------------------------------------------------
// Routes and the table
// ---------------------------------------------------------------------------
/// One registered route: a normalized path, a method, and the handler
/// value the application supplied.
pub struct Route<H> {
    pub path: String,
    pub request_type: HttpMethod,
    pub handler: H,
}

impl<H> Route<H> {
    /// Builds a route, normalizing the path so registration-time paths
    /// and request-time paths compare equal as strings.
    pub fn new(path: String, request_type: HttpMethod, handler: H) -> (r: Route<H>)
        ensures
            r.path@ == norm_path(path@),
            r.request_type == request_type,
            r.handler == handler,
    {
        let npath = normalize_path(path.as_str());
        Route { path: npath, request_type, handler }
    }
}

/// Non-strict order on route paths.
pub open spec fn lex_le(a: Seq<char>, b: Seq<char>) -> bool {
    lex_lt(a, b) || a == b
}

/// A bucket sorted by path; equal paths may sit side by side.
pub open spec fn routes_sorted<H>(b: Seq<Route<H>>) -> bool {
    forall|i: int, j: int|
        0 <= i < j < b.len() ==> lex_le((#[trigger] b[i]).path@, (#[trigger] b[j]).path@)
}

/// Some route in the bucket carries this path.
pub open spec fn bucket_has<H>(b: Seq<Route<H>>, p: Seq<char>) -> bool {
    exists|i: int| 0 <= i < b.len() && (#[trigger] b[i]).path@ == p
}

/// Storage for registered routes, one sorted bucket per concrete method
/// plus the wildcard bucket that doubles as the fallback.
pub struct RouteStorage<H> {
    routes_get: Vec<Route<H>>,
    routes_post: Vec<Route<H>>,
    routes_put: Vec<Route<H>>,
    routes_patch: Vec<Route<H>>,
    routes_delete: Vec<Route<H>>,
    routes_any: Vec<Route<H>>,
}

impl<H> RouteStorage<H> {
    /// The bucket a method selects; `Any` and `Options` land in the
    /// wildcard bucket.
    pub closed spec fn bucket(&self, m: HttpMethod) -> Seq<Route<H>> {
        match m {
            HttpMethod::Get => self.routes_get@,
            HttpMethod::Post => self.routes_post@,
            HttpMethod::Put => self.routes_put@,
            HttpMethod::Patch => self.routes_patch@,
            HttpMethod::Delete => self.routes_delete@,
            _ => self.routes_any@,
        }
    }

    /// Prepared for lookup: every bucket sorted by path.
    pub open spec fn wf(&self) -> bool {
        routes_sorted(self.bucket(HttpMethod::Get)) && routes_sorted(
            self.bucket(HttpMethod::Post),
        ) && routes_sorted(self.bucket(HttpMethod::Put)) && routes_sorted(
            self.bucket(HttpMethod::Patch),
        ) && routes_sorted(self.bucket(HttpMethod::Delete)) && routes_sorted(
            self.bucket(HttpMethod::Any),
        )
    }

    /// Creates an empty table.
    pub fn new() -> (r: RouteStorage<H>)
        ensures
            r.wf(),
            forall|m: HttpMethod| (#[trigger] r.bucket(m)).len() == 0,
    {
        RouteStorage {
            routes_get: Vec::new(),
            routes_post: Vec::new(),
            routes_put: Vec::new(),
            routes_patch: Vec::new(),
            routes_delete: Vec::new(),
            routes_any: Vec::new(),
        }
    }

    /// Appends a route to the bucket its method selects.
    pub fn add(&mut self, route: Route<H>)
        ensures
            final(self).bucket(bucket_of(route.request_type)) == old(self).bucket(
                bucket_of(route.request_type),
            ).push(route),
            forall|m: HttpMethod|
                bucket_of(m) != bucket_of(route.request_type) ==> final(self).bucket(m) == old(
                    self,
                ).bucket(#[trigger] bucket_of(m)),
    {
        let ghost m0 = route.request_type;
        match route.request_type {
            HttpMethod::Get => self.routes_get.push(route),
            HttpMethod::Post => self.routes_post.push(route),
            HttpMethod::Put => self.routes_put.push(route),
            HttpMethod::Patch => self.routes_patch.push(route),
            HttpMethod::Delete => self.routes_delete.push(route),
            _ => self.routes_any.push(route),
        }
        proof {
            assert forall|m: HttpMethod|
                bucket_of(m) != bucket_of(m0) implies final(self).bucket(m) == old(self).bucket(
                #[trigger] bucket_of(m),
            ) by {
                assert(self.bucket(m) == self.bucket(bucket_of(m)));
            }
        }
    }
}

/// The canonical method of a bucket: every method selecting the wildcard
/// bucket maps to `Any`.
pub open spec fn bucket_of(m: HttpMethod) -> HttpMethod {
    match m {
        HttpMethod::Get => HttpMethod::Get,
        HttpMethod::Post => HttpMethod::Post,
        HttpMethod::Put => HttpMethod::Put,
        HttpMethod::Patch => HttpMethod::Patch,
        HttpMethod::Delete => HttpMethod::Delete,
        _ => HttpMethod::Any,
    }
}

/// Sorts one bucket by path with a stable insertion sort, keeping exactly
/// the same routes.
fn sort_bucket<H>(b: &mut Vec<Route<H>>)
    ensures
        routes_sorted(final(b)@),
        final(b)@.to_multiset() == old(b)@.to_multiset(),
        routes_sorted(old(b)@) ==> final(b)@ == old(b)@,
{
    if b.len() <= 1 {
        return ;
    }
    let mut i: usize = 1;
    while i < b.len()
        invariant
            1 <= i <= b@.len(),
            routes_sorted(b@.take(i as int)),
            b@.to_multiset() == old(b)@.to_multiset(),
            routes_sorted(old(b)@) ==> b@ == old(b)@,
        decreases b.len() - i,
    {
        // Find the first slot in the sorted prefix whose path lies above
        // the element being placed.
        let mut pos: usize = 0;
        let ghost bs = b@;
        loop
            invariant
                pos <= i < bs.len(),
                bs == b@,
                forall|j: int| 0 <= j < pos ==> !lex_lt(bs[i as int].path@, (#[trigger] bs[j]).path@),
            ensures
                pos <= i,
                bs == b@,
                forall|j: int| 0 <= j < pos ==> !lex_lt(bs[i as int].path@, (#[trigger] bs[j]).path@),
                pos < i ==> lex_lt(bs[i as int].path@, bs[pos as int].path@),
            decreases i - pos,
        {
            if pos >= i {
                break ;
            }
            match str_compare(b[i].path.as_str(), b[pos].path.as_str()) {
                Cmp::Lt => {
                    break ;
                }
                Cmp::Eq => {
                    proof {
                        lemma_lex_irrefl(bs[i as int].path@);
                    }
                    pos = pos + 1;
                }
                Cmp::Gt => {
                    proof {
                        lemma_lex_asym(bs[pos as int].path@, bs[i as int].path@);
                    }
                    pos = pos + 1;
                }
            }
        }
        if pos < i {
            proof {
                // An already-sorted bucket never reaches this branch:
                // its prefix order contradicts the found slot.
                if routes_sorted(old(b)@) {
                    assert(lex_le(bs[pos as int].path@, bs[i as int].path@));
                    assert(lex_lt(bs[i as int].path@, bs[pos as int].path@));
                    lemma_lex_asym(bs[pos as int].path@, bs[i as int].path@);
                    lemma_lex_irrefl(bs[i as int].path@);
                    assert(false);
                }
            }
            let ghost before = b@;
            let x = b.remove(i);
            let ghost mid = b@;
            b.insert(pos, x);
            proof {
                let after = b@;
                assert(mid =~= before.remove(i as int));
                assert(mid =~= before.take(i as int) + before.skip(i + 1));
                assert(after =~= mid.insert(pos as int, x));
                assert(after =~= mid.take(pos as int) + seq![x] + mid.skip(pos as int));
                // Same multiset: removing then re-inserting the element.
                assert(mid.to_multiset() =~= before.to_multiset().remove(x));
                lemma_multiset_commutative(mid.take(pos as int) + seq![x], mid.skip(pos as int));
                lemma_multiset_commutative(mid.take(pos as int), seq![x]);
                lemma_multiset_commutative(mid.take(pos as int), mid.skip(pos as int));
                assert(mid.take(pos as int) + mid.skip(pos as int) =~= mid);
                assert(seq![x].to_multiset() =~= Multiset::<Route<H>>::empty().insert(x)) by {
                    assert(seq![x] =~= Seq::<Route<H>>::empty().push(x));
                    assert(Seq::<Route<H>>::empty().to_multiset() =~= Multiset::<
                        Route<H>,
                    >::empty());
                }
                assert(after.to_multiset() =~= mid.to_multiset().insert(x));
                assert(before.to_multiset().contains(x)) by {
                    assert(before[i as int] == x);
                    assert(before.contains(x));
                }
                assert(after.to_multiset() =~= before.to_multiset());
                // Where each element of the new prefix came from.
                assert(forall|a: int| 0 <= a < pos ==> after[a] == before[a]);
                assert(after[pos as int] == x);
                assert(forall|a: int| pos < a <= i ==> after[a] == before[a - 1]);
                // The new prefix stays sorted: the moved element sits
                // between everything at or below it and everything above.
                let xp = x.path@;
                assert forall|a: int, c: int| 0 <= a < c < i + 1 implies lex_le(
                    (#[trigger] after.take(i + 1)[a]).path@,
                    (#[trigger] after.take(i + 1)[c]).path@,
                ) by {
                    assert(after.take(i + 1)[a] == after[a]);
                    assert(after.take(i + 1)[c] == after[c]);
                    assert forall|j: int, l: int| 0 <= j < l < i implies lex_le(
                        (#[trigger] before[j]).path@,
                        (#[trigger] before[l]).path@,
                    ) by {
                        assert(before.take(i as int)[j] == before[j]);
                        assert(before.take(i as int)[l] == before[l]);
                        assert(lex_le(
                            (before.take(i as int)[j]).path@,
                            (before.take(i as int)[l]).path@,
                        ));
                    }
                    if a < pos && c == pos {
                        lemma_lex_connex_route(before[a].path@, xp);
                    } else if a == pos && c > pos {
                        assert(lex_lt(xp, before[pos as int].path@));
                        if c - 1 > pos {
                            assert(lex_le(before[pos as int].path@, before[c - 1].path@));
                            if before[pos as int].path@ == before[c - 1].path@ {
                            } else {
                                lemma_lex_trans(xp, before[pos as int].path@, before[c - 1].path@);
                            }
                        }
                    } else if a < pos && c > pos {
                        assert(lex_le(before[a].path@, before[c - 1].path@));
                    }
                }
                assert(routes_sorted(after.take(i + 1)));
            }
        } else {
            proof {
                let bs2 = b@;
                assert forall|a: int, c: int| 0 <= a < c < i + 1 implies lex_le(
                    (#[trigger] bs2.take(i + 1)[a]).path@,
                    (#[trigger] bs2.take(i + 1)[c]).path@,
                ) by {
                    assert(bs2.take(i + 1)[a] == bs2[a]);
                    assert(bs2.take(i + 1)[c] == bs2[c]);
                    assert(forall|j: int|
                        0 <= j < i ==> #[trigger] bs2.take(i as int)[j] == bs2[j]);
                    if c == i {
                        lemma_lex_connex_route(bs2[a].path@, bs2[i as int].path@);
                    } else {
                        assert(lex_le(bs2.take(i as int)[a].path@, bs2.take(i as int)[c].path@));
                    }
                }
                assert(routes_sorted(bs2.take(i + 1)));
            }
        }
        i = i + 1;
    }
    proof {
        assert(b@.take(b@.len() as int) =~= b@);
    }
}

/// Two different paths compare one way or the other.
proof fn lemma_lex_connex_route(a: Seq<char>, b: Seq<char>)
    ensures
        !lex_lt(b, a) ==> lex_le(a, b),
{
    if !lex_lt(b, a) && !lex_lt(a, b) {
        lemma_lex_connex(a, b);
    }
}

impl<H> RouteStorage<H> {
    /// Sorts every bucket by path; run once, after all registrations and
    /// before lookups begin.
    pub fn prep(&mut self)
        ensures
            final(self).wf(),
            forall|m: HttpMethod|
                (#[trigger] final(self).bucket(m)).to_multiset() == old(self).bucket(
                    m,
                ).to_multiset(),
            old(self).wf() ==> forall|m: HttpMethod| #[trigger] final(self).bucket(m) == old(
                self,
            ).bucket(m),
    {
        sort_bucket(&mut self.routes_get);
        sort_bucket(&mut self.routes_post);
        sort_bucket(&mut self.routes_put);
        sort_bucket(&mut self.routes_patch);
        sort_bucket(&mut self.routes_delete);
        sort_bucket(&mut self.routes_any);
        proof {
            assert forall|m: HttpMethod|
                (#[trigger] self.bucket(m)).to_multiset() == old(self).bucket(
                    m,
                ).to_multiset() by {
                assert(self.bucket(m) == self.bucket(bucket_of(m)));
                assert(old(self).bucket(m) == old(self).bucket(bucket_of(m)));
            }
            if old(self).wf() {
                assert forall|m: HttpMethod| #[trigger] self.bucket(m) == old(self).bucket(
                    m,
                ) by {
                    assert(self.bucket(m) == self.bucket(bucket_of(m)));
                    assert(old(self).bucket(m) == old(self).bucket(bucket_of(m)));
                }
            }
        }
    }
}

/// Finds an index whose route carries `path`, in a sorted bucket, by
/// binary search.
fn search_bucket<H>(b: &Vec<Route<H>>, path: &String) -> (r: Option<usize>)
    requires
        routes_sorted(b@),
    ensures
        match r {
            Some(i) => i < b@.len() && b@[i as int].path@ == path@,
            None => !bucket_has(b@, path@),
        },
{
    let mut lo: usize = 0;
    let mut hi: usize = b.len();
    while lo < hi
        invariant
            lo <= hi <= b@.len(),
            routes_sorted(b@),
            forall|i: int| 0 <= i < lo ==> lex_lt((#[trigger] b@[i]).path@, path@),
            forall|i: int| hi <= i < b@.len() ==> lex_lt(path@, (#[trigger] b@[i]).path@),
        decreases hi - lo,
    {
        let mid = lo + (hi - lo) / 2;
        match str_compare(b[mid].path.as_str(), path.as_str()) {
            Cmp::Eq => {
                return Some(mid);
            }
            Cmp::Lt => {
                proof {
                    assert forall|i: int| 0 <= i < mid + 1 implies lex_lt(
                        (#[trigger] b@[i]).path@,
                        path@,
                    ) by {
                        if i < mid {
                            assert(lex_le(b@[i].path@, b@[mid as int].path@));
                            if b@[i].path@ == b@[mid as int].path@ {
                            } else {
                                lemma_lex_trans(b@[i].path@, b@[mid as int].path@, path@);
                            }
                        }
                    }
                }
                lo = mid + 1;
            }
            Cmp::Gt => {
                proof {
                    assert forall|i: int| mid <= i < b@.len() implies lex_lt(
                        path@,
                        (#[trigger] b@[i]).path@,
                    ) by {
                        if i > mid {
                            assert(lex_le(b@[mid as int].path@, b@[i].path@));
                            if b@[mid as int].path@ == b@[i].path@ {
                            } else {
                                lemma_lex_trans(path@, b@[mid as int].path@, b@[i].path@);
                            }
                        }
                    }
                }
                hi = mid;
            }
        }
    }
    proof {
        assert forall|i: int| 0 <= i < b@.len() implies (#[trigger] b@[i]).path@ != path@ by {
            if i < lo {
                lemma_lex_irrefl(path@);
                lemma_lex_asym(b@[i].path@, path@);
            } else {
                lemma_lex_irrefl(path@);
                lemma_lex_asym(path@, b@[i].path@);
            }
        }
    }
    None
}

impl<H> RouteStorage<H> {
    /// Resolves a request to a route: an exact route for the request's
    /// method when one is registered, else a wildcard route for the same
    /// path, else nothing.
    pub fn handler(&self, request_type: &HttpMethod, path: &String) -> (r: Option<&Route<H>>)
        requires
            self.wf(),
        ensures
            (r is Some) == (bucket_has(self.bucket(*request_type), path@) || (*request_type
                != HttpMethod::Any && bucket_has(self.bucket(HttpMethod::Any), path@))),
            r matches Some(route) ==> route.path@ == path@,
            r matches Some(route) ==> (bucket_has(self.bucket(*request_type), path@)
                ==> self.bucket(*request_type).contains(*route)),
            r matches Some(route) ==> (!bucket_has(self.bucket(*request_type), path@) ==> (
            *request_type != HttpMethod::Any && self.bucket(HttpMethod::Any).contains(*route))),
    {
        let handler_cat: &Vec<Route<H>> = match request_type {
            HttpMethod::Get => &self.routes_get,
            HttpMethod::Post => &self.routes_post,
            HttpMethod::Put => &self.routes_put,
            HttpMethod::Patch => &self.routes_patch,
            HttpMethod::Delete => &self.routes_delete,
            _ => &self.routes_any,
        };
        proof {
            assert(handler_cat@ == self.bucket(*request_type));
        }
        match search_bucket(handler_cat, path) {
            Some(ix) => {
                proof {
                    assert(self.bucket(*request_type).contains(handler_cat@[ix as int]));
                }
                Some(&handler_cat[ix])
            }
            None => {
                if !request_type.is_any() {
                    match search_bucket(&self.routes_any, path) {
                        Some(ix) => {
                            proof {
                                assert(self.bucket(HttpMethod::Any).contains(
                                    self.routes_any@[ix as int],
                                ));
                            }
                            Some(&self.routes_any[ix])
                        }
                        None => None,
                    }
                } else {
                    None
                }
            }
        }
    }
}

// ---------------------------------------------------------------------------
// Registration-order independence
// ---------------------------------------------------------------------------
/// No two routes of the bucket share a path.
pub open spec fn paths_distinct<H>(b: Seq<Route<H>>) -> bool {
    forall|i: int, j: int|
        0 <= i < j < b.len() ==> (#[trigger] b[i]).path@ != (#[trigger] b[j]).path@
}

/// Two tables built from the same route set agree on whether any path is
/// registered in any bucket at all.
pub proof fn lemma_bucket_has_agrees<H>(
    s1: &RouteStorage<H>,
    s2: &RouteStorage<H>,
    mm: HttpMethod,
    p: Seq<char>,
)
    requires
        forall|m: HttpMethod, route: Route<H>|
            #[trigger] s1.bucket(m).contains(route) == #[trigger] s2.bucket(m).contains(route),
    ensures
        bucket_has(s1.bucket(mm), p) == bucket_has(s2.bucket(mm), p),
{
    if bucket_has(s1.bucket(mm), p) {
        let i = choose|i: int|
            0 <= i < s1.bucket(mm).len() && (#[trigger] s1.bucket(mm)[i]).path@ == p;
        let route = s1.bucket(mm)[i];
        assert(s1.bucket(mm).contains(route));
        assert(s2.bucket(mm).contains(route));
        let j = choose|j: int| 0 <= j < s2.bucket(mm).len() && s2.bucket(mm)[j] == route;
        assert(s2.bucket(mm)[j].path@ == p);
    }
    if bucket_has(s2.bucket(mm), p) {
        let i = choose|i: int|
            0 <= i < s2.bucket(mm).len() && (#[trigger] s2.bucket(mm)[i]).path@ == p;
        let route = s2.bucket(mm)[i];
        assert(s2.bucket(mm).contains(route));
        assert(s1.bucket(mm).contains(route));
        let j = choose|j: int| 0 <= j < s1.bucket(mm).len() && s1.bucket(mm)[j] == route;
        assert(s1.bucket(mm)[j].path@ == p);
    }
}

/// Two prepared tables built from the same route set — in any
/// registration order — resolve every request alike: when each bucket
/// holds the same routes as a set, with no path registered twice in a
/// bucket, they agree on whether a request resolves (exactly or by
/// wildcard fallback), and any two routes the lookups return for the
/// same method and path are the same route.
pub proof fn lemma_order_independent<H>(
    s1: &RouteStorage<H>,
    s2: &RouteStorage<H>,
    m: HttpMethod,
    p: Seq<char>,
    r1: Route<H>,
    r2: Route<H>,
)
    requires
        forall|mm: HttpMethod, route: Route<H>|
            #[trigger] s1.bucket(mm).contains(route) == #[trigger] s2.bucket(mm).contains(route),
        paths_distinct(s1.bucket(m)),
        paths_distinct(s1.bucket(HttpMethod::Any)),
        s1.bucket(m).contains(r1) && r1.path@ == p,
        s2.bucket(m).contains(r2) && r2.path@ == p,
    ensures
        r1 == r2,
{
    assert(s2.bucket(m).contains(r1));
    assert(s1.bucket(m).contains(r2));
    let i = choose|i: int| 0 <= i < s1.bucket(m).len() && s1.bucket(m)[i] == r1;
    let j = choose|j: int| 0 <= j < s1.bucket(m).len() && s1.bucket(m)[j] == r2;
    if i != j {
        assert(s1.bucket(m)[i].path@ == s1.bucket(m)[j].path@);
        assert(false);
    }
}

// ---------------------------------------------------------------------------
// Route modules
// ---------------------------------------------------------------------------
/// A group of routes registered together under a common prefix.
pub struct RouteBlock<H> {
    pub prefix: String,
    pub routes: Vec<Route<H>>,
}

impl<H> RouteBlock<H> {
    /// Adds a route under this block's prefix; a missing slash between
    /// prefix and path is supplied.
    pub fn add(&mut self, method: HttpMethod, path: &str, handler: H)
        ensures
            final(self).prefix == old(self).prefix,
            final(self).routes@.len() == old(self).routes@.len() + 1,
            final(self).routes@.last().request_type == method,
            final(self).routes@.last().path@ == norm_path(
                if path@.len() > 0 && path@[0] == '/' {
                    old(self).prefix@ + path@
                } else {
                    old(self).prefix@ + seq!['/'] + path@
                },
            ),
            forall|k: int|
                0 <= k < old(self).routes@.len() ==> final(self).routes@[k] == old(
                    self,
                ).routes@[k],
    {
        let pc = str_to_chars(self.prefix.as_str());
        let cc = str_to_chars(path);
        let mut joined: Vec<char> = Vec::new();
        append_chars(&mut joined, &pc);
        let starts_slash = if cc.len() == 0 {
            false
        } else {
            cc[0] == '/'
        };
        if !starts_slash {
            joined.push('/');
        }
        append_chars(&mut joined, &cc);
        proof {
            if starts_slash {
                assert(joined@ =~= self.prefix@ + path@);
            } else {
                assert(joined@ =~= self.prefix@ + seq!['/'] + path@);
            }
        }
        let n_path = chars_to_string(&joined);
        let route = Route::new(n_path, method, handler);
        self.routes.push(route);
    }
}

/// A collection of related routes; implementors populate the supplied
/// block when the server asks for them.
pub trait RouteModule<H> {
    /// Inserts this module's routes into the block.
    fn apply(&self, block: &mut RouteBlock<H>);
}

} // verus!
