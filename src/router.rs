use vstd::prelude::*;

use crate::params::Params;
use crate::parser::GrammarError;
use crate::path::{concat_model, parse_path, same_segments, skip_model, Path, PathModel};
use crate::route::{match_from, match_path, Route};
use crate::segment::{seg_models, Segment, SegmentModel, WildcardKind};

verus! {

/// A wiring mistake: fatal by design.
#[derive(Clone, Copy, Debug, PartialEq, Eq, Structural)]
pub enum UsageError {
    /// A root router was built while another one for the same location source is alive.
    DuplicateRoot,
    /// The router was mounted before.
    AlreadyMounted,
}

/// Whether a root router is alive for one location source.
#[derive(Debug)]
pub struct RootRegistry {
    live: bool,
}

impl View for RootRegistry {
    type V = bool;

    closed spec fn view(&self) -> bool {
        self.live
    }
}

impl RootRegistry {
    /// No root alive.
    pub fn new() -> (r: RootRegistry)
        ensures
            !r@,
    {
        RootRegistry { live: false }
    }

    pub fn is_live(&self) -> (r: bool)
        ensures
            r == self@,
    {
        self.live
    }
}

/// A base path and the values captured along it.
#[derive(Clone, Debug)]
pub struct Context {
    pub path: Path,
    pub params: Params,
}

impl Context {
    /// `rhs` on top of `self`: its path resolved against this one, its values
    /// overriding these on a shared name. `None` leaves `self` as it is.
    pub fn merge_opt(self, rhs: Option<Context>) -> (r: Context)
        ensures
            match rhs {
                None => r.path@ == self.path@ && r.params@ == self.params@,
                Some(c) => r.path@ == concat_model(self.path@, c.path@) && r.params@
                    == self.params@.union_prefer_right(c.params@),
            },
    {
        match rhs {
            None => self,
            Some(c) => Context { path: self.path.concat(&c.path), params: self.params.merged(&c.params) },
        }
    }
}

/// The route that resolved, what it captured, how many segments it consumed,
/// and the segments that a continuation captured for a nested router.
pub struct Resolution {
    pub route: nat,
    pub params: Map<Seq<char>, Seq<char>>,
    pub consumed: nat,
    pub remainder: Option<Seq<SegmentModel>>,
}

/// The first route, in registration order, that matches `loc` past `offset`,
/// looking from index `i` on.
pub open spec fn first_match_from(
    routes: Seq<Seq<SegmentModel>>,
    loc: PathModel,
    offset: nat,
    i: int,
) -> Option<Resolution>
    decreases routes.len() - i,
{
    if i < 0 || i >= routes.len() {
        None
    } else {
        match match_path(routes[i], loc, offset) {
            Some(m) => Some(
                Resolution {
                    route: i as nat,
                    params: m.params,
                    consumed: m.consumed,
                    remainder: m.remainder,
                },
            ),
            None => first_match_from(routes, loc, offset, i + 1),
        }
    }
}

/// The first route that matches `loc` past `offset`.
pub open spec fn first_match(routes: Seq<Seq<SegmentModel>>, loc: PathModel, offset: nat) -> Option<
    Resolution,
> {
    first_match_from(routes, loc, offset, 0)
}

/// The part of `loc` that a router with `offset` looks at.
pub open spec fn window(loc: PathModel, offset: nat) -> Seq<SegmentModel> {
    skip_model(loc, offset).segments
}

/// What a router is, as values.
pub struct RouterModel {
    /// The observed location.
    pub location: PathModel,
    /// How many leading segments the ancestors consumed.
    pub offset: nat,
    /// The path that the ancestors consumed, against which targets resolve.
    pub base: PathModel,
    /// The values that the ancestors captured, the innermost on top.
    pub inherited: Map<Seq<char>, Seq<char>>,
    /// The route patterns, in registration order.
    pub routes: Seq<Seq<SegmentModel>>,
    /// Where to go when no route matches.
    pub default_path: Option<PathModel>,
    /// The current resolution.
    pub current: Option<Resolution>,
    /// The remainder that the parent's route captured when this router was nested.
    pub delegated: Option<Seq<SegmentModel>>,
    pub nested: bool,
    pub mounted: bool,
}

/// What the owner of a router does after a recomputation.
#[derive(Clone, Debug)]
pub enum Outcome {
    /// Keep the current view: the handler is not invoked again.
    Unchanged,
    /// Invoke the handler of this route and show what it gives.
    Render(usize),
    /// Show nothing.
    Clear,
    /// Show nothing, and replace the location with this path.
    Redirect(Path),
}

/// Whether the next location goes into the history or replaces the current entry.
#[derive(Clone, Copy, Debug, PartialEq, Eq, Structural)]
pub enum NavigationKind {
    Push,
    Replace,
}

/// A location change for the owner of the location source to carry out: it
/// records it there and sets the observed location to it.
#[derive(Clone, Debug)]
pub struct Navigation {
    pub kind: NavigationKind,
    pub target: Path,
}

struct Resolved {
    route: usize,
    params: Params,
    consumed: usize,
    remainder: Option<Path>,
}

/// A nestable router: resolves the observed location against its routes.
pub struct Router {
    location: Path,
    offset: usize,
    parent: Context,
    routes: Vec<Route>,
    default_path: Option<Path>,
    current: Option<Resolved>,
    delegated: Option<Path>,
    nested: bool,
    mounted: bool,
}

pub open spec fn route_models(v: Seq<Route>) -> Seq<Seq<SegmentModel>> {
    v.map_values(|r: Route| r@)
}

/// The segments of an optional path.
pub open spec fn remainder_segments(p: Option<Path>) -> Option<Seq<SegmentModel>> {
    match p {
        Some(x) => Some(x@.segments),
        None => None,
    }
}

/// The remainder of a resolution, none without one.
pub open spec fn remainder_of(c: Option<Resolution>) -> Option<Seq<SegmentModel>> {
    match c {
        Some(x) => x.remainder,
        None => None,
    }
}

spec fn resolution_of(c: Option<Resolved>) -> Option<Resolution> {
    match c {
        Some(x) => Some(
            Resolution {
                route: x.route as nat,
                params: x.params@,
                consumed: x.consumed as nat,
                remainder: remainder_segments(x.remainder),
            },
        ),
        None => None,
    }
}

impl View for Router {
    type V = RouterModel;

    closed spec fn view(&self) -> RouterModel {
        RouterModel {
            location: self.location@,
            offset: self.offset as nat,
            base: self.parent.path@,
            inherited: self.parent.params@,
            routes: route_models(self.routes@),
            default_path: match self.default_path {
                Some(p) => Some(p@),
                None => None,
            },
            current: resolution_of(self.current),
            delegated: remainder_segments(self.delegated),
            nested: self.nested,
            mounted: self.mounted,
        }
    }
}

/// The consumed count of a resolution, 0 without one.
pub open spec fn consumed_of(c: Option<Resolution>) -> nat {
    match c {
        Some(x) => x.consumed,
        None => 0,
    }
}

/// The captured values of a resolution, none without one.
pub open spec fn params_of(c: Option<Resolution>) -> Map<Seq<char>, Seq<char>> {
    match c {
        Some(x) => x.params,
        None => Map::empty(),
    }
}

/// Two resolutions that name the same route with the same captured values.
pub open spec fn same_resolution(a: Option<Resolution>, b: Option<Resolution>) -> bool {
    match (a, b) {
        (Some(x), Some(y)) => x.route == y.route && x.params == y.params,
        (None, None) => true,
        _ => false,
    }
}

/// What to do after a recomputation.
pub enum Action {
    /// Keep the current view.
    Keep,
    /// Build the view of this route.
    Render(nat),
    /// Show nothing.
    Clear,
    /// Show nothing and replace the location with this path.
    Redirect(PathModel),
}

/// The decision after a recomputation: the same route with the same captured
/// values keeps the view; another resolution builds a new one; no resolution
/// redirects to the default path (resolved against the base) or clears the view.
pub open spec fn decide(m: RouterModel, res: Option<Resolution>) -> Action {
    match res {
        Some(x) => if same_resolution(m.current, Some(x)) {
            Action::Keep
        } else {
            Action::Render(x.route)
        },
        None => match m.default_path {
            Some(d) => Action::Redirect(concat_model(m.base, d)),
            None => if m.current is None {
                Action::Keep
            } else {
                Action::Clear
            },
        },
    }
}

/// `r` carries out `a`.
pub open spec fn outcome_is(r: Outcome, a: Action) -> bool {
    match a {
        Action::Keep => r is Unchanged,
        Action::Render(i) => r == Outcome::Render(i as usize),
        Action::Clear => r is Clear,
        Action::Redirect(p) => r is Redirect && r->Redirect_0@ == p,
    }
}

/// Once mounted, and whenever a resolution is recorded, it is the first match
/// of the location.
pub open spec fn settled(m: RouterModel) -> bool {
    m.mounted || m.current is Some ==> m.current == first_match(m.routes, m.location, m.offset)
}

/// One location change: the router after it, and what to do. Nothing is
/// recomputed when the part of the location past the offset is unchanged.
pub open spec fn observe_step(m: RouterModel, loc: PathModel) -> (RouterModel, Action) {
    if skip_model(loc, m.offset) == skip_model(m.location, m.offset) {
        (RouterModel { location: loc, ..m }, Action::Keep)
    } else {
        let res = first_match(m.routes, loc, m.offset);
        (RouterModel { location: loc, current: res, ..m }, decide(m, res))
    }
}

/// The first match depends on the location only through the part past the offset.
pub proof fn lemma_first_match_window(
    routes: Seq<Seq<SegmentModel>>,
    a: PathModel,
    b: PathModel,
    offset: nat,
    i: int,
)
    requires
        skip_model(a, offset) == skip_model(b, offset),
    ensures
        first_match_from(routes, a, offset, i) == first_match_from(routes, b, offset, i),
    decreases routes.len() - i,
{
    if 0 <= i < routes.len() {
        lemma_first_match_window(routes, a, b, offset, i + 1);
    }
}

/// A route registered after the others leaves a found first match as it is.
proof fn lemma_first_match_push(
    routes: Seq<Seq<SegmentModel>>,
    extra: Seq<SegmentModel>,
    loc: PathModel,
    offset: nat,
    i: int,
)
    requires
        0 <= i,
        first_match_from(routes, loc, offset, i) is Some,
    ensures
        first_match_from(routes.push(extra), loc, offset, i) == first_match_from(routes, loc, offset, i),
    decreases routes.len() - i,
{
    if i < routes.len() {
        assert(routes.push(extra)[i] == routes[i]);
        if match_path(routes[i], loc, offset) is None {
            lemma_first_match_push(routes, extra, loc, offset, i + 1);
        }
    }
}

/// Two location changes in a row whose windows resolve to the same route with
/// the same captured values build that route's view at most once: one of the
/// two keeps the view, and on a mounted router, or one that already shows a
/// route, the second one keeps it.
pub proof fn lemma_render_once(m: RouterModel, first: PathModel, second: PathModel)
    requires
        settled(m),
        first_match(m.routes, first, m.offset) is Some,
        same_resolution(
            first_match(m.routes, first, m.offset),
            first_match(m.routes, second, m.offset),
        ),
    ensures
        ({
            let (m1, a1) = observe_step(m, first);
            let (m2, a2) = observe_step(m1, second);
            &&& a1 == Action::Keep || a2 == Action::Keep
            &&& m.mounted || m.current is Some ==> a2 == Action::Keep
        }),
{
    if skip_model(first, m.offset) == skip_model(m.location, m.offset) {
        lemma_first_match_window(m.routes, first, m.location, m.offset, 0);
    }
}

/// The router's settings other than location and resolution are those of `b`.
pub open spec fn same_setup(a: RouterModel, b: RouterModel) -> bool {
    &&& a.offset == b.offset
    &&& a.base == b.base
    &&& a.inherited == b.inherited
    &&& a.routes == b.routes
    &&& a.default_path == b.default_path
    &&& a.delegated == b.delegated
    &&& a.nested == b.nested
}

proof fn lemma_match_consumed(pat: Seq<SegmentModel>, segs: Seq<SegmentModel>, acc: Map<Seq<char>, Seq<char>>)
    requires
        match_from(pat, segs, acc) is Some,
    ensures
        match_from(pat, segs, acc)->Some_0.consumed <= segs.len(),
    decreases pat.len(),
{
    if pat.len() > 0 && pat[0] != SegmentModel::Wildcard(WildcardKind::Full) && !(pat[0] is Continuation)
        && segs.len() > 0 {
        let next = crate::route::match_one(pat[0], segs[0], acc)->Some_0;
        lemma_match_consumed(pat.drop_first(), segs.drop_first(), next);
    }
}

proof fn lemma_first_match_consumed(routes: Seq<Seq<SegmentModel>>, loc: PathModel, offset: nat, i: int)
    requires
        first_match_from(routes, loc, offset, i) is Some,
    ensures
        first_match_from(routes, loc, offset, i)->Some_0.consumed <= window(loc, offset).len(),
        first_match_from(routes, loc, offset, i)->Some_0.route < routes.len(),
    decreases routes.len() - i,
{
    if 0 <= i < routes.len() {
        if match_path(routes[i], loc, offset) is Some {
            lemma_match_consumed(routes[i], window(loc, offset), Map::empty());
        } else {
            lemma_first_match_consumed(routes, loc, offset, i + 1);
        }
    }
}

/// The first `n` segments of `p` (all of them when it has fewer), as a relative path.
fn leading_segments(p: &Path, n: usize) -> (r: Path)
    ensures
        r@ == (PathModel {
            absolute: false,
            segments: p@.segments.take(if n <= p@.segments.len() {
                n as int
            } else {
                p@.segments.len() as int
            }),
        }),
{
    let src = p.segments();
    let end = if n <= src.len() {
        n
    } else {
        src.len()
    };
    let mut out: Vec<Segment> = Vec::new();
    let mut i: usize = 0;
    while i < end
        invariant
            i <= end <= src@.len(),
            seg_models(out@) =~= seg_models(src@).take(i as int),
        decreases end - i,
    {
        let ghost prev = out@;
        let d = src[i].duplicate();
        out.push(d);
        proof {
            assert(seg_models(out@) =~= seg_models(prev).push(d@));
        }
        i = i + 1;
    }
    Path::Relative(out)
}

impl Router {
    /// Well formed: a resolution consumes no more than the window holds and
    /// names a registered route.
    pub closed spec fn wf(&self) -> bool {
        &&& match self.current {
            Some(c) => c.consumed <= window(self.location@, self.offset as nat).len() && c.route
                < self.routes@.len(),
            None => true,
        }
        &&& settled(self@)
    }

    /// A root router for a location source, at the location `location` (the
    /// root when the text is not a path). Fails while another root is alive.
    pub fn root(registry: &mut RootRegistry, location: &str) -> (r: Result<Router, UsageError>)
        ensures
            old(registry)@ ==> r == Err::<Router, UsageError>(UsageError::DuplicateRoot)
                && final(registry)@ == old(registry)@,
            !old(registry)@ ==> r is Ok && final(registry)@ && r->Ok_0.wf() && ({
                let m = r->Ok_0@;
                &&& m.location == match parse_path(location@) {
                    Ok(p) => p,
                    Err(_) => PathModel { absolute: true, segments: Seq::empty() },
                }
                &&& m.offset == 0
                &&& m.base == PathModel { absolute: true, segments: Seq::empty() }
                &&& m.inherited == Map::<Seq<char>, Seq<char>>::empty()
                &&& m.routes.len() == 0
                &&& m.default_path is None
                &&& m.current is None
                &&& m.delegated is None
                &&& !m.nested
                &&& !m.mounted
            }),
    {
        if registry.live {
            return Err(UsageError::DuplicateRoot);
        }
        registry.live = true;
        let routes: Vec<Route> = Vec::new();
        let r = Router {
            location: Path::parse_or_root(location),
            offset: 0,
            parent: Context { path: Path::root(), params: Params::new() },
            routes,
            default_path: None,
            current: None,
            delegated: None,
            nested: false,
            mounted: false,
        };
        proof {
            assert(route_models(r.routes@) =~= Seq::<Seq<SegmentModel>>::empty());
        }
        Ok(r)
    }

    /// Ends the router; a root frees its location source for another root.
    pub fn teardown(&self, registry: &mut RootRegistry)
        ensures
            !self@.nested ==> !final(registry)@,
            self@.nested ==> final(registry)@ == old(registry)@,
    {
        if !self.nested {
            registry.live = false;
        }
    }

    /// Registers a route pattern after the others; its handle is its index.
    /// The route table is built before the router is mounted.
    pub fn route(&mut self, pattern: &str) -> (r: Result<usize, GrammarError>)
        requires
            old(self).wf(),
            !old(self)@.mounted,
        ensures
            final(self).wf(),
            match crate::route::parse_route(pattern@) {
                Ok(m) => r == Ok::<usize, GrammarError>(old(self)@.routes.len() as usize)
                    && final(self)@ == (RouterModel { routes: old(self)@.routes.push(m), ..old(self)@ }),
                Err(e) => r == Err::<usize, GrammarError>(e) && final(self)@ == old(self)@,
            },
    {
        match Route::parse(pattern) {
            Ok(route) => {
                let i = self.routes.len();
                let ghost prev = self.routes@;
                self.routes.push(route);
                proof {
                    assert(route_models(self.routes@) =~= route_models(prev).push(route@));
                    if self.current is Some {
                        lemma_first_match_push(
                            route_models(prev),
                            route@,
                            self.location@,
                            self.offset as nat,
                            0,
                        );
                    }
                }
                Ok(i)
            },
            Err(e) => Err(e),
        }
    }

    /// Sets the path to go to, resolved against the base, when no route
    /// matches; before the router is mounted.
    pub fn default(&mut self, path: &str) -> (r: Result<(), GrammarError>)
        requires
            old(self).wf(),
            !old(self)@.mounted,
        ensures
            final(self).wf(),
            match parse_path(path@) {
                Ok(p) => r is Ok && final(self)@ == (RouterModel {
                    default_path: Some(p),
                    ..old(self)@
                }),
                Err(e) => r == Err::<(), GrammarError>(e) && final(self)@ == old(self)@,
            },
    {
        match Path::parse(path) {
            Ok(p) => {
                self.default_path = Some(p);
                Ok(())
            },
            Err(e) => Err(e),
        }
    }

    /// The first route that matches the location past the offset, with its index.
    fn evaluate(&self, location: &Path) -> (r: Option<(usize, crate::route::RouteMatch)>)
        ensures
            match first_match(route_models(self.routes@), location@, self.offset as nat) {
                None => r is None,
                Some(x) => r is Some && r->Some_0.0 == x.route && r->Some_0.1.params@ == x.params
                    && r->Some_0.1.consumed == x.consumed && remainder_segments(r->Some_0.1.remainder)
                    == x.remainder,
            },
    {
        let ghost rm = route_models(self.routes@);
        let mut i: usize = 0;
        while i < self.routes.len()
            invariant
                rm == route_models(self.routes@),
                i <= self.routes@.len(),
                first_match(rm, location@, self.offset as nat) == first_match_from(
                    rm,
                    location@,
                    self.offset as nat,
                    i as int,
                ),
            decreases self.routes@.len() - i,
        {
            proof {
                assert(rm[i as int] == self.routes@[i as int]@);
            }
            if let Some(m) = self.routes[i].matches(location, self.offset) {
                return Some((i, m));
            }
            i = i + 1;
        }
        None
    }

    /// Resolves the location, records the result and decides against the
    /// previous resolution.
    fn recompute(&mut self) -> (r: Outcome)
        ensures
            final(self).wf(),
            same_setup(final(self)@, old(self)@),
            final(self)@.location == old(self)@.location,
            final(self)@.mounted == old(self)@.mounted,
            final(self)@.current == first_match(
                old(self)@.routes,
                old(self)@.location,
                old(self)@.offset,
            ),
            outcome_is(
                r,
                decide(
                    old(self)@,
                    first_match(old(self)@.routes, old(self)@.location, old(self)@.offset),
                ),
            ),
    {
        let found = self.evaluate(&self.location);
        proof {
            if found is Some {
                lemma_first_match_consumed(
                    route_models(self.routes@),
                    self.location@,
                    self.offset as nat,
                    0,
                );
            }
        }
        match found {
            Some((i, m)) => {
                let same = match &self.current {
                    Some(c) => c.route == i && c.params.equals(&m.params),
                    None => false,
                };
                self.current = Some(
                    Resolved {
                        route: i,
                        params: m.params,
                        consumed: m.consumed,
                        remainder: m.remainder,
                    },
                );
                if same {
                    Outcome::Unchanged
                } else {
                    Outcome::Render(i)
                }
            },
            None => {
                let had = self.current.is_some();
                self.current = None;
                match &self.default_path {
                    Some(d) => Outcome::Redirect(self.parent.path.concat(d)),
                    None => {
                        if had {
                            Outcome::Clear
                        } else {
                            Outcome::Unchanged
                        }
                    },
                }
            },
        }
    }

    /// Mounts the router and resolves the location for the first time. A
    /// router is mounted at most once.
    pub fn mount(&mut self) -> (r: Result<Outcome, UsageError>)
        requires
            old(self).wf(),
        ensures
            final(self).wf(),
            old(self)@.mounted ==> r == Err::<Outcome, UsageError>(UsageError::AlreadyMounted)
                && final(self)@ == old(self)@,
            !old(self)@.mounted ==> r is Ok && final(self)@.mounted && same_setup(
                final(self)@,
                old(self)@,
            ) && final(self)@.location == old(self)@.location && final(self)@.current
                == first_match(old(self)@.routes, old(self)@.location, old(self)@.offset) && match decide(
                RouterModel { current: None, ..old(self)@ },
                first_match(old(self)@.routes, old(self)@.location, old(self)@.offset),
            ) {
                Action::Keep => r->Ok_0 is Clear,
                a => outcome_is(r->Ok_0, a),
            },
    {
        if self.mounted {
            return Err(UsageError::AlreadyMounted);
        }
        self.mounted = true;
        self.current = None;
        match self.recompute() {
            Outcome::Unchanged => Ok(Outcome::Clear),
            o => Ok(o),
        }
    }

    /// Takes in a new location and decides what to show (see [`observe_step`]).
    /// Nothing is recomputed when the window past the offset is unchanged, and
    /// the handler is not invoked again for the same route with the same
    /// captured values.
    pub fn observe(&mut self, location: Path) -> (r: Outcome)
        requires
            old(self).wf(),
        ensures
            final(self).wf(),
            settled(final(self)@),
            final(self)@ == observe_step(old(self)@, location@).0,
            outcome_is(r, observe_step(old(self)@, location@).1),
    {
        let ghost before = self@;
        let old_window = self.location.skip(self.offset);
        let new_window = location.skip(self.offset);
        let same = old_window.is_absolute() == new_window.is_absolute() && same_segments(
            old_window.segments(),
            new_window.segments(),
        );
        proof {
            if same {
                assert(skip_model(location@, before.offset) == skip_model(before.location, before.offset));
            } else {
                assert(skip_model(location@, before.offset) != skip_model(before.location, before.offset));
            }
        }
        self.location = location;
        if same {
            proof {
                lemma_first_match_window(before.routes, location@, before.location, before.offset, 0);
                assert(self@ == observe_step(before, location@).0);
            }
            return Outcome::Unchanged;
        }
        let r = self.recompute();
        proof {
            assert(self@ == observe_step(before, location@).0);
        }
        r
    }

    /// A router for the view of the current route: it shares the location, its
    /// offset is this router's offset plus the segments that the current route
    /// consumed, and it inherits the captured values.
    pub fn nest(&self) -> (r: Router)
        requires
            self.wf(),
        ensures
            r.wf(),
            r@.location == self@.location,
            r@.offset == self@.offset + consumed_of(self@.current),
            r@.base == concat_model(
                self@.base,
                PathModel {
                    absolute: false,
                    segments: window(self@.location, self@.offset).take(
                        consumed_of(self@.current) as int,
                    ),
                },
            ),
            r@.inherited == self@.inherited.union_prefer_right(params_of(self@.current)),
            r@.routes.len() == 0,
            r@.default_path is None,
            r@.current is None,
            r@.delegated == remainder_of(self@.current),
            r@.nested,
            !r@.mounted,
    {
        let own = match &self.current {
            Some(c) => {
                let w = self.location.skip(self.offset);
                Context { path: leading_segments(&w, c.consumed), params: c.params.duplicate() }
            },
            None => Context { path: Path::Relative(Vec::new()), params: Params::new() },
        };
        proof {
            if self.current is None {
                assert(seg_models(Seq::<Segment>::empty()) =~= Seq::<SegmentModel>::empty());
                assert(window(self@.location, self@.offset).take(0) =~= Seq::<SegmentModel>::empty());
                assert(self.parent.params@.union_prefer_right(Map::empty()) =~= self.parent.params@);
            }
        }
        let parent = Context { path: self.parent.path.duplicate(), params: self.parent.params.duplicate() };
        let routes: Vec<Route> = Vec::new();
        let consumed = match &self.current {
            Some(c) => c.consumed,
            None => 0,
        };
        let total = self.location.len();
        proof {
            if self.offset as int > self.location@.segments.len() {
                assert(consumed == 0);
            } else {
                assert(window(self@.location, self@.offset).len() == total - self.offset);
            }
        }
        let r = Router {
            location: self.location.duplicate(),
            offset: self.offset + consumed,
            parent: parent.merge_opt(Some(own)),
            routes,
            default_path: None,
            current: None,
            delegated: match &self.current {
                Some(c) => match &c.remainder {
                    Some(p) => Some(p.duplicate()),
                    None => None,
                },
                None => None,
            },
            nested: true,
            mounted: false,
        };
        proof {
            assert(route_models(r.routes@) =~= Seq::<Seq<SegmentModel>>::empty());
        }
        r
    }

    /// `target` resolved against the base.
    pub fn link_target(&self, target: &str) -> (r: Result<Path, GrammarError>)
        ensures
            match parse_path(target@) {
                Ok(t) => r is Ok && r->Ok_0@ == concat_model(self@.base, t),
                Err(e) => r == Err::<Path, GrammarError>(e),
            },
    {
        match Path::parse(target) {
            Ok(t) => Ok(self.parent.path.concat(&t)),
            Err(e) => Err(e),
        }
    }

    /// A new history entry at `target`, resolved against the base.
    pub fn goto(&self, target: &str) -> (r: Result<Navigation, GrammarError>)
        ensures
            match parse_path(target@) {
                Ok(t) => r is Ok && r->Ok_0.kind == NavigationKind::Push && r->Ok_0.target@
                    == concat_model(self@.base, t),
                Err(e) => r == Err::<Navigation, GrammarError>(e),
            },
    {
        match self.link_target(target) {
            Ok(p) => Ok(Navigation { kind: NavigationKind::Push, target: p }),
            Err(e) => Err(e),
        }
    }

    /// The current history entry replaced by `target`, resolved against the base.
    pub fn replace(&self, target: &str) -> (r: Result<Navigation, GrammarError>)
        ensures
            match parse_path(target@) {
                Ok(t) => r is Ok && r->Ok_0.kind == NavigationKind::Replace && r->Ok_0.target@
                    == concat_model(self@.base, t),
                Err(e) => r == Err::<Navigation, GrammarError>(e),
            },
    {
        match self.link_target(target) {
            Ok(p) => Ok(Navigation { kind: NavigationKind::Replace, target: p }),
            Err(e) => Err(e),
        }
    }

    /// Whether the location is `target` resolved against the base: the same
    /// segments, with no implicit prefix match.
    pub fn is_active(&self, target: &str) -> (r: Result<bool, GrammarError>)
        ensures
            match parse_path(target@) {
                Ok(t) => r == Ok::<bool, GrammarError>(
                    self@.location.segments == concat_model(self@.base, t).segments,
                ),
                Err(e) => r == Err::<bool, GrammarError>(e),
            },
    {
        match self.link_target(target) {
            Ok(p) => Ok(self.location.same_segments_as(&p)),
            Err(e) => Err(e),
        }
    }

    /// The values that the current route captured.
    pub fn current_params(&self) -> (r: Params)
        ensures
            r@ == params_of(self@.current),
    {
        match &self.current {
            Some(c) => c.params.duplicate(),
            None => Params::new(),
        }
    }

    /// The value captured under `name` by the current route, or else by the
    /// nearest ancestor that captured one.
    pub fn param(&self, name: &str) -> (r: Option<String>)
        ensures
            ({
                let all = self@.inherited.union_prefer_right(params_of(self@.current));
                &&& r is Some == all.contains_key(name@)
                &&& r is Some ==> r->Some_0@ == all[name@]
            }),
    {
        let own = match &self.current {
            Some(c) => c.params.get(name),
            None => None,
        };
        match own {
            Some(v) => Some(v.clone()),
            None => match self.parent.params.get(name) {
                Some(v) => Some(v.clone()),
                None => None,
            },
        }
    }

    /// The segments that the current route's continuation captured.
    pub fn remainder(&self) -> (r: Option<Path>)
        ensures
            remainder_segments(r) == remainder_of(self@.current),
    {
        match &self.current {
            Some(c) => match &c.remainder {
                Some(p) => Some(p.duplicate()),
                None => None,
            },
            None => None,
        }
    }

    /// The segments that the parent's route left to this router through a
    /// continuation.
    pub fn delegated(&self) -> (r: Option<&Path>)
        ensures
            match r {
                Some(p) => self@.delegated == Some(p@.segments),
                None => self@.delegated is None,
            },
    {
        match &self.delegated {
            Some(p) => Some(p),
            None => None,
        }
    }

    /// Whether the router was mounted.
    pub fn is_mounted(&self) -> (r: bool)
        ensures
            r == self@.mounted,
    {
        self.mounted
    }

    /// The observed location.
    pub fn location(&self) -> (r: &Path)
        ensures
            r@ == self@.location,
    {
        &self.location
    }

    /// How many leading segments the ancestors consumed.
    pub fn offset(&self) -> (r: usize)
        ensures
            r == self@.offset,
    {
        self.offset
    }
}

} // verus!
