//! The route table: a finite map from path prefixes to backends, resolved
//! by longest prefix, with a default backend for paths that match none.

use vstd::prelude::*;
use crate::text::chars_of;
use crate::text::starts_with_at;

verus! {

/// One configured route.
#[derive(Clone, Debug)]
pub struct Route {
    pub prefix: String,
    pub backend: String,
}

/// Why a route specification was refused.
#[derive(Clone, Debug)]
pub enum RouteError {
    /// The specification does not hold exactly one `=`.
    InvalidFormat { route: String },
    /// The path before the `=` does not begin with `/`.
    PathNotAbsolute { path: String },
}

/// A `RouteError` as contracts see it.
pub enum RouteErrorView {
    InvalidFormat { route: Seq<char> },
    PathNotAbsolute { path: Seq<char> },
}

impl View for RouteError {
    type V = RouteErrorView;

    open spec fn view(&self) -> RouteErrorView {
        match self {
            RouteError::InvalidFormat { route } => RouteErrorView::InvalidFormat { route: route@ },
            RouteError::PathNotAbsolute { path } => RouteErrorView::PathNotAbsolute { path: path@ },
        }
    }
}

impl RouteError {
    /// The message that startup reports for this error.
    pub fn message(&self) -> (text: String)
        ensures
            text@ == match self@ {
                RouteErrorView::InvalidFormat { route } => "Invalid route format: '"@ + route
                    + "'. Expected format: /path=ip:port"@,
                RouteErrorView::PathNotAbsolute { path } => "Path must start with '/': "@ + path,
            },
    {
        match self {
            RouteError::InvalidFormat { route } => {
                let mut text = String::from_str("Invalid route format: '");
                text.append(route.as_str());
                text.append("'. Expected format: /path=ip:port");
                text
            },
            RouteError::PathNotAbsolute { path } => {
                let mut text = String::from_str("Path must start with '/': ");
                text.append(path.as_str());
                text
            },
        }
    }
}

/// Whether `i` is the place of the only `=` of `s`.
pub open spec fn is_separator(s: Seq<char>, i: int) -> bool {
    &&& 0 <= i < s.len()
    &&& s[i] == '='
    &&& forall|j: int| 0 <= j < s.len() && j != i ==> s[j] != '='
}

/// What one route specification stands for: the path before its only `=`
/// and the backend after it.
pub open spec fn parse_route(s: Seq<char>) -> Result<(Seq<char>, Seq<char>), RouteErrorView> {
    if exists|i: int| is_separator(s, i) {
        let i = choose|i: int| is_separator(s, i);
        let path = s.take(i);
        if path.len() > 0 && path[0] == '/' {
            Ok((path, s.skip(i + 1)))
        } else {
            Err(RouteErrorView::PathNotAbsolute { path })
        }
    } else {
        Err(RouteErrorView::InvalidFormat { route: s })
    }
}

/// The table that a list of route specifications builds: each goes in after
/// those before it, so that a repeated path keeps its last backend. The
/// first specification that is refused fails the list with its error.
pub open spec fn route_table(specs: Seq<Seq<char>>) -> Result<
    Map<Seq<char>, Seq<char>>,
    RouteErrorView,
>
    decreases specs.len(),
{
    if specs.len() == 0 {
        Ok(Map::empty())
    } else {
        match route_table(specs.drop_last()) {
            Err(e) => Err(e),
            Ok(table) => match parse_route(specs.last()) {
                Err(e) => Err(e),
                Ok((path, backend)) => Ok(table.insert(path, backend)),
            },
        }
    }
}

/// The texts of a list of strings.
pub open spec fn texts(items: Seq<String>) -> Seq<Seq<char>> {
    items.map_values(|s: String| s@)
}

/// Whether some prefix of the table is a prefix of `path`.
pub open spec fn has_match(table: Map<Seq<char>, Seq<char>>, path: Seq<char>) -> bool {
    exists|k: Seq<char>| #[trigger] table.contains_key(k) && k.is_prefix_of(path)
}

/// Whether `k` is a prefix of the table that is a prefix of `path`, and none
/// longer is.
pub open spec fn is_best_match(
    table: Map<Seq<char>, Seq<char>>,
    path: Seq<char>,
    k: Seq<char>,
) -> bool {
    &&& table.contains_key(k)
    &&& k.is_prefix_of(path)
    &&& forall|o: Seq<char>| #[trigger]
        table.contains_key(o) && o.is_prefix_of(path) ==> o.len() <= k.len()
}

/// What resolution gives for `path`: the longest matching prefix with its
/// backend, or the default backend with an empty prefix.
pub open spec fn resolves_to(
    table: Map<Seq<char>, Seq<char>>,
    default_backend: Seq<char>,
    path: Seq<char>,
    backend: Seq<char>,
    prefix: Seq<char>,
) -> bool {
    if has_match(table, path) {
        is_best_match(table, path, prefix) && backend == table[prefix]
    } else {
        backend == default_backend && prefix.len() == 0
    }
}

/// A route whose prefix is the path itself is the best match for it, even
/// where shorter prefixes match too.
pub proof fn lemma_exact_match_is_best(table: Map<Seq<char>, Seq<char>>, path: Seq<char>)
    requires
        table.contains_key(path),
    ensures
        has_match(table, path),
        is_best_match(table, path, path),
{
    assert(path.is_prefix_of(path));
}

/// Two best matches for one path are the same prefix: resolution has one
/// answer.
pub proof fn lemma_best_match_unique(
    table: Map<Seq<char>, Seq<char>>,
    path: Seq<char>,
    a: Seq<char>,
    b: Seq<char>,
)
    requires
        is_best_match(table, path, a),
        is_best_match(table, path, b),
    ensures
        a == b,
{
    assert(a.len() == b.len());
    assert(a =~= b);
}

/// Resolution of a path that is itself a configured prefix gives that route.
pub proof fn lemma_resolve_exact(
    table: Map<Seq<char>, Seq<char>>,
    default_backend: Seq<char>,
    path: Seq<char>,
    backend: Seq<char>,
    prefix: Seq<char>,
)
    requires
        table.contains_key(path),
        resolves_to(table, default_backend, path, backend, prefix),
    ensures
        prefix == path,
        backend == table[path],
{
    lemma_exact_match_is_best(table, path);
    lemma_best_match_unique(table, path, path, prefix);
}

/// Resolution gives the backend of the longest matching prefix: no prefix of
/// the table that matches the path is longer than the one returned, and a
/// path that some prefix matches never falls to the default.
pub proof fn lemma_resolve_longest(
    table: Map<Seq<char>, Seq<char>>,
    default_backend: Seq<char>,
    path: Seq<char>,
    backend: Seq<char>,
    prefix: Seq<char>,
    other: Seq<char>,
)
    requires
        table.contains_key(other),
        other.is_prefix_of(path),
        resolves_to(table, default_backend, path, backend, prefix),
    ensures
        table.contains_key(prefix),
        prefix.is_prefix_of(path),
        other.len() <= prefix.len(),
        backend == table[prefix],
{
}

/// Resolution of a path that no prefix matches gives the default backend
/// and the empty prefix.
pub proof fn lemma_resolve_default(
    table: Map<Seq<char>, Seq<char>>,
    default_backend: Seq<char>,
    path: Seq<char>,
    backend: Seq<char>,
    prefix: Seq<char>,
)
    requires
        forall|k: Seq<char>| #[trigger] table.contains_key(k) ==> !k.is_prefix_of(path),
        resolves_to(table, default_backend, path, backend, prefix),
    ensures
        backend == default_backend,
        prefix == Seq::<char>::empty(),
{
    assert(prefix =~= Seq::<char>::empty());
}

spec fn has_key(rs: Seq<Route>, k: Seq<char>) -> bool {
    exists|i: int| 0 <= i < rs.len() && (#[trigger] rs[i]).prefix@ == k
}

spec fn index_of(rs: Seq<Route>, k: Seq<char>) -> int {
    choose|i: int| 0 <= i < rs.len() && (#[trigger] rs[i]).prefix@ == k
}

spec fn distinct(rs: Seq<Route>) -> bool {
    forall|i: int, j: int|
        0 <= i < j < rs.len() ==> (#[trigger] rs[i]).prefix@ != (#[trigger] rs[j]).prefix@
}

spec fn absolute(rs: Seq<Route>) -> bool {
    forall|i: int|
        0 <= i < rs.len() ==> (#[trigger] rs[i]).prefix@.len() > 0 && rs[i].prefix@[0] == '/'
}

spec fn table_of(rs: Seq<Route>) -> Map<Seq<char>, Seq<char>> {
    Map::new(|k: Seq<char>| has_key(rs, k), |k: Seq<char>| rs[index_of(rs, k)].backend@)
}

proof fn lemma_entry(rs: Seq<Route>, i: int)
    requires
        distinct(rs),
        0 <= i < rs.len(),
    ensures
        has_key(rs, rs[i].prefix@),
        index_of(rs, rs[i].prefix@) == i,
        table_of(rs).contains_key(rs[i].prefix@),
        table_of(rs)[rs[i].prefix@] == rs[i].backend@,
{
    let k = rs[i].prefix@;
    assert(has_key(rs, k));
    let c = index_of(rs, k);
    assert(0 <= c < rs.len() && rs[c].prefix@ == k);
    if c < i {
        assert(rs[c].prefix@ != rs[i].prefix@);
    }
    if i < c {
        assert(rs[i].prefix@ != rs[c].prefix@);
    }
}

proof fn lemma_push(rs: Seq<Route>, r: Route)
    requires
        distinct(rs),
        !has_key(rs, r.prefix@),
    ensures
        distinct(rs.push(r)),
        table_of(rs.push(r)) =~= table_of(rs).insert(r.prefix@, r.backend@),
{
    let rs2 = rs.push(r);
    assert forall|i: int, j: int| 0 <= i < j < rs2.len() implies (#[trigger] rs2[i]).prefix@ != (
    #[trigger] rs2[j]).prefix@ by {
        if j == rs.len() {
            assert(rs[i].prefix@ != r.prefix@);
        } else {
            assert(rs[i].prefix@ != rs[j].prefix@);
        }
    }
    assert forall|k: Seq<char>| has_key(rs2, k) <==> (has_key(rs, k) || k == r.prefix@) by {
        if has_key(rs2, k) {
            let i = index_of(rs2, k);
            if i < rs.len() {
                assert(rs[i].prefix@ == k);
            }
        }
        if has_key(rs, k) {
            let i = index_of(rs, k);
            assert(rs2[i].prefix@ == k);
        }
        if k == r.prefix@ {
            assert(rs2[rs.len() as int].prefix@ == k);
        }
    }
    assert forall|k: Seq<char>| has_key(rs2, k) implies #[trigger] table_of(rs2)[k] == table_of(
        rs,
    ).insert(r.prefix@, r.backend@)[k] by {
        let i = index_of(rs2, k);
        lemma_entry(rs2, i);
        if i < rs.len() {
            lemma_entry(rs, i);
        }
    }
}

proof fn lemma_update(rs: Seq<Route>, at: int, r: Route)
    requires
        distinct(rs),
        0 <= at < rs.len(),
        rs[at].prefix@ == r.prefix@,
    ensures
        distinct(rs.update(at, r)),
        table_of(rs.update(at, r)) =~= table_of(rs).insert(r.prefix@, r.backend@),
{
    let rs2 = rs.update(at, r);
    assert forall|i: int, j: int| 0 <= i < j < rs2.len() implies (#[trigger] rs2[i]).prefix@ != (
    #[trigger] rs2[j]).prefix@ by {
        assert(rs[i].prefix@ != rs[j].prefix@);
    }
    assert forall|k: Seq<char>| has_key(rs2, k) <==> has_key(rs, k) by {
        if has_key(rs2, k) {
            let i = index_of(rs2, k);
            assert(rs[i].prefix@ == k);
        }
        if has_key(rs, k) {
            let i = index_of(rs, k);
            assert(rs2[i].prefix@ == k);
        }
    }
    assert(has_key(rs, r.prefix@));
    assert forall|k: Seq<char>| has_key(rs2, k) implies #[trigger] table_of(rs2)[k] == table_of(
        rs,
    ).insert(r.prefix@, r.backend@)[k] by {
        let i = index_of(rs2, k);
        lemma_entry(rs2, i);
        lemma_entry(rs, i);
    }
}

/// A list whose beginning is refused is refused with the same error.
proof fn lemma_refused_prefix(specs: Seq<Seq<char>>, n: int)
    requires
        0 <= n <= specs.len(),
        route_table(specs.take(n)) is Err,
    ensures
        route_table(specs) == route_table(specs.take(n)),
    decreases specs.len() - n,
{
    if n == specs.len() {
        assert(specs.take(n) =~= specs);
    } else {
        let next = specs.take(n + 1);
        assert(next.drop_last() =~= specs.take(n));
        lemma_refused_prefix(specs, n + 1);
    }
}

/// Splits a route specification at its only `=`.
pub fn split_route(route: &str) -> (parts: Option<(String, String)>)
    ensures
        match parts {
            Some((path, backend)) => exists|i: int|
                is_separator(route@, i) && path@ == route@.take(i) && backend@ == route@.skip(
                    i + 1,
                ),
            None => forall|i: int| !is_separator(route@, i),
        },
{
    let text = chars_of(route);
    let n: usize = text.len();
    let mut at: usize = 0;
    while at < n && text[at] != '='
        invariant
            at <= n,
            n == text@.len(),
            forall|j: int| 0 <= j < at ==> text@[j] != '=',
        decreases n - at,
    {
        at += 1;
    }
    if at == n {
        assert forall|i: int| !is_separator(route@, i) by {
            if is_separator(route@, i) {
                assert(text@[i] != '=');
            }
        }
        return None;
    }
    let mut j: usize = at + 1;
    while j < n && text[j] != '='
        invariant
            at < j <= n,
            n == text@.len(),
            forall|k: int| at < k < j ==> text@[k] != '=',
        decreases n - j,
    {
        j += 1;
    }
    if j < n {
        assert forall|i: int| !is_separator(route@, i) by {
            if is_separator(route@, i) {
                if i == at {
                    assert(text@[j as int] != '=');
                } else {
                    assert(text@[at as int] != '=');
                }
            }
        }
        return None;
    }
    let path = route.substring_char(0, at);
    let backend = route.substring_char(at + 1, n);
    assert(is_separator(route@, at as int));
    assert(path@ =~= route@.take(at as int));
    assert(backend@ =~= route@.skip(at + 1));
    Some((String::from_str(path), String::from_str(backend)))
}

/// Reads one route specification, `PATH=BACKEND`.
pub fn read_route(route: &str) -> (r: Result<Route, RouteError>)
    ensures
        match r {
            Ok(route_) => parse_route(route@) == Ok::<(Seq<char>, Seq<char>), RouteErrorView>(
                (route_.prefix@, route_.backend@),
            ),
            Err(e) => parse_route(route@) == Err::<(Seq<char>, Seq<char>), RouteErrorView>(e@),
        },
{
    match split_route(route) {
        None => Err(RouteError::InvalidFormat { route: String::from_str(route) }),
        Some((path, backend)) => {
            proof {
                let i = choose|i: int|
                    is_separator(route@, i) && path@ == route@.take(i) && backend@ == route@.skip(
                        i + 1,
                    );
                let c = choose|i: int| is_separator(route@, i);
                assert(is_separator(route@, c));
                assert(c == i);
            }
            let text = chars_of(path.as_str());
            if text.len() > 0 && text[0] == '/' {
                Ok(Route { prefix: path, backend })
            } else {
                Err(RouteError::PathNotAbsolute { path })
            }
        },
    }
}

/// The immutable routing configuration of one proxy.
#[derive(Debug)]
pub struct RouteConfig {
    default_backend: String,
    routes: Vec<Route>,
    rewrite_paths: bool,
}

impl RouteConfig {
    /// The table from prefixes to backends.
    pub closed spec fn table(&self) -> Map<Seq<char>, Seq<char>> {
        table_of(self.routes@)
    }

    /// The backend of paths that no prefix matches.
    pub closed spec fn default_backend_text(&self) -> Seq<char> {
        self.default_backend@
    }

    /// Whether matched prefixes are taken off forwarded paths.
    pub closed spec fn rewrites(&self) -> bool {
        self.rewrite_paths
    }

    /// The routes as stored: one entry for each prefix of the table.
    pub closed spec fn entries(&self) -> Seq<Route> {
        self.routes@
    }

    /// No prefix occurs twice, and each begins with `/`.
    pub closed spec fn wf(&self) -> bool {
        &&& distinct(self.routes@)
        &&& absolute(self.routes@)
    }

    #[verifier::type_invariant]
    spec fn valid(self) -> bool {
        self.wf()
    }

    /// Every prefix of the table begins with `/`, and the stored routes are
    /// the table's entries.
    pub proof fn lemma_table(&self)
        requires
            self.wf(),
        ensures
            forall|k: Seq<char>| #[trigger]
                self.table().contains_key(k) ==> k.len() > 0 && k[0] == '/',
            forall|i: int|
                0 <= i < self.entries().len() ==> {
                    &&& self.table().contains_key((#[trigger] self.entries()[i]).prefix@)
                    &&& self.table()[self.entries()[i].prefix@] == self.entries()[i].backend@
                },
            forall|k: Seq<char>| #[trigger]
                self.table().contains_key(k) ==> exists|i: int|
                    0 <= i < self.entries().len() && (#[trigger] self.entries()[i]).prefix@ == k,
    {
        let rs = self.routes@;
        assert forall|k: Seq<char>| #[trigger] self.table().contains_key(k) implies k.len() > 0
            && k[0] == '/' by {
            let i = index_of(rs, k);
            assert(rs[i].prefix@ == k);
        }
        assert forall|k: Seq<char>| #[trigger] self.table().contains_key(k) implies exists|i: int|
            0 <= i < self.entries().len() && (#[trigger] self.entries()[i]).prefix@ == k by {
            let i = index_of(rs, k);
            assert(0 <= i < rs.len() && self.entries()[i].prefix@ == k);
        }
        assert forall|i: int| 0 <= i < rs.len() implies self.table().contains_key(
            (#[trigger] rs[i]).prefix@,
        ) && self.table()[rs[i].prefix@] == rs[i].backend@ by {
            lemma_entry(rs, i);
        }
    }

    /// Builds the configuration from the default backend and the route
    /// specifications, in order.
    pub fn new(default_backend: String, route_args: Vec<String>, rewrite_paths: bool) -> (r: Result<
        RouteConfig,
        RouteError,
    >)
        ensures
            match r {
                Ok(config) => {
                    &&& config.wf()
                    &&& route_table(texts(route_args@)) == Ok::<
                        Map<Seq<char>, Seq<char>>,
                        RouteErrorView,
                    >(config.table())
                    &&& config.default_backend_text() == default_backend@
                    &&& config.rewrites() == rewrite_paths
                },
                Err(e) => route_table(texts(route_args@)) == Err::<
                    Map<Seq<char>, Seq<char>>,
                    RouteErrorView,
                >(e@),
            },
    {
        let ghost specs = texts(route_args@);
        let mut routes: Vec<Route> = Vec::new();
        let n: usize = route_args.len();
        let mut i: usize = 0;
        proof {
            assert(specs.take(0) =~= Seq::<Seq<char>>::empty());
            assert(table_of(routes@) =~= Map::<Seq<char>, Seq<char>>::empty());
        }
        while i < n
            invariant
                i <= n,
                n == route_args@.len(),
                specs == texts(route_args@),
                distinct(routes@),
                absolute(routes@),
                route_table(specs.take(i as int)) == Ok::<Map<Seq<char>, Seq<char>>, RouteErrorView>(
                    table_of(routes@),
                ),
            decreases n - i,
        {
            proof {
                assert(specs.take(i + 1).drop_last() =~= specs.take(i as int));
                assert(specs.take(i + 1).last() == route_args@[i as int]@);
            }
            match read_route(route_args[i].as_str()) {
                Err(e) => {
                    proof {
                        lemma_refused_prefix(specs, i + 1);
                    }
                    return Err(e);
                },
                Ok(route) => {
                    let m: usize = routes.len();
                    let mut at: usize = 0;
                    while at < m && !(routes[at].prefix == route.prefix)
                        invariant
                            at <= m,
                            m == routes@.len(),
                            forall|j: int| 0 <= j < at ==> (#[trigger] routes@[j]).prefix@ != route.prefix@,
                        decreases m - at,
                    {
                        at += 1;
                    }
                    proof {
                        if at < m {
                            lemma_update(routes@, at as int, route);
                        } else {
                            lemma_push(routes@, route);
                        }
                    }
                    if at < m {
                        routes.set(at, route);
                    } else {
                        routes.push(route);
                    }
                },
            }
            i += 1;
        }
        proof {
            assert(specs.take(n as int) =~= specs);
        }
        Ok(RouteConfig { default_backend, routes, rewrite_paths })
    }

    /// Resolves `path`: the backend and prefix of the longest configured
    /// prefix of the path, or the default backend and the empty prefix where
    /// none matches. A path that is itself a configured prefix resolves to
    /// that route.
    pub fn get_backend_and_prefix<'a>(&'a self, path: &str) -> (r: (&'a str, &'a str))
        ensures
            resolves_to(self.table(), self.default_backend_text(), path@, r.0@, r.1@),
            self.table().contains_key(path@) ==> r.1@ == path@ && r.0@ == self.table()[path@],
    {
        let text = chars_of(path);
        let n: usize = self.routes.len();
        let mut best: usize = n;
        let mut best_len: usize = 0;
        let mut i: usize = 0;
        proof {
            use_type_invariant(self);
            assert(text@.skip(0) =~= text@);
            self.lemma_table();
        }
        while i < n
            invariant
                i <= n,
                n == self.routes@.len(),
                text@ == path@,
                best <= n,
                best < n ==> best < i && self.routes@[best as int].prefix@.is_prefix_of(path@)
                    && best_len == self.routes@[best as int].prefix@.len(),
                best == n ==> best_len == 0,
                forall|j: int|
                    0 <= j < i && (#[trigger] self.routes@[j]).prefix@.is_prefix_of(path@)
                        ==> self.routes@[j].prefix@.len() <= best_len && best < n,
                absolute(self.routes@),
            decreases n - i,
        {
            let key = chars_of(self.routes[i].prefix.as_str());
            proof {
                assert(text@.skip(0) =~= text@);
            }
            if starts_with_at(&text, 0, &key) && key.len() > best_len {
                best = i;
                best_len = key.len();
            }
            i += 1;
        }
        if best < n {
            let route = &self.routes[best];
            proof {
                let table = self.table();
                let k = route.prefix@;
                assert(table.contains_key(k) && k.is_prefix_of(path@));
                assert forall|o: Seq<char>| #[trigger]
                    table.contains_key(o) && o.is_prefix_of(path@) implies o.len() <= k.len() by {
                    let j = choose|j: int|
                        0 <= j < self.entries().len() && (#[trigger] self.entries()[j]).prefix@ == o;
                    assert(self.routes@[j].prefix@.is_prefix_of(path@));
                }
                if table.contains_key(path@) {
                    lemma_resolve_exact(table, self.default_backend@, path@, route.backend@, k);
                }
            }
            (route.backend.as_str(), route.prefix.as_str())
        } else {
            proof {
                let table = self.table();
                assert forall|k: Seq<char>| #[trigger] table.contains_key(k) implies !k.is_prefix_of(
                    path@,
                ) by {
                    let j = choose|j: int|
                        0 <= j < self.entries().len() && (#[trigger] self.entries()[j]).prefix@ == k;
                    if k.is_prefix_of(path@) {
                        assert(self.routes@[j].prefix@.is_prefix_of(path@));
                    }
                }
                assert(path@.is_prefix_of(path@));
                reveal_strlit("");
            }
            (self.default_backend.as_str(), "")
        }
    }

    /// The backend of paths that no prefix matches.
    pub fn default_backend(&self) -> (backend: &str)
        ensures
            backend@ == self.default_backend_text(),
    {
        self.default_backend.as_str()
    }

    /// Whether matched prefixes are taken off forwarded paths.
    pub fn rewrite_paths(&self) -> (on: bool)
        ensures
            on == self.rewrites(),
    {
        self.rewrite_paths
    }

    /// The stored routes, one for each prefix of the table.
    pub fn routes(&self) -> (routes: &Vec<Route>)
        ensures
            routes@ == self.entries(),
            self.wf(),
    {
        proof {
            use_type_invariant(self);
        }
        &self.routes
    }
}

} // verus!
