use vstd::prelude::*;

use crate::params::Params;
use crate::parser::{
    absolute_text, lemma_absolute_text_round_trip, lemma_parse_text_wf, parse_text, GrammarError,
    Parser,
};
use crate::path::{skip_model, Path, PathModel};
use crate::segment::{copy_segments, seg_models, Segment, SegmentModel, WildcardKind};

verus! {

/// A pattern of segments tested against a path.
#[derive(Clone, Debug, PartialEq, Eq)]
pub struct Route {
    segments: Vec<Segment>,
}

impl View for Route {
    type V = Seq<SegmentModel>;

    closed spec fn view(&self) -> Seq<SegmentModel> {
        seg_models(self.segments@)
    }
}

/// The pattern that the grammar reads from `s`.
pub open spec fn parse_route(s: Seq<char>) -> Result<Seq<SegmentModel>, GrammarError> {
    parse_text(s, false, true)
}

/// What a successful match gives.
pub struct MatchModel {
    pub params: Map<Seq<char>, Seq<char>>,
    pub consumed: nat,
    pub remainder: Option<Seq<SegmentModel>>,
}

/// One pattern segment against one path segment: the captures after it, or
/// `None` when they do not fit.
pub open spec fn match_one(p: SegmentModel, s: SegmentModel, acc: Map<Seq<char>, Seq<char>>) -> Option<
    Map<Seq<char>, Seq<char>>,
> {
    match (p, s) {
        (SegmentModel::Parameter(n), SegmentModel::Static(v)) => Some(acc.insert(n, v)),
        (SegmentModel::Static(a), SegmentModel::Static(b)) => if a == b {
            Some(acc)
        } else {
            None
        },
        (SegmentModel::Wildcard(WildcardKind::Single), _) => Some(acc),
        _ => None,
    }
}

/// Matches `pat` against the whole of `segs`, with `acc` captured so far.
pub open spec fn match_from(
    pat: Seq<SegmentModel>,
    segs: Seq<SegmentModel>,
    acc: Map<Seq<char>, Seq<char>>,
) -> Option<MatchModel>
    decreases pat.len(),
{
    if pat.len() == 0 {
        if segs.len() == 0 {
            Some(MatchModel { params: acc, consumed: 0, remainder: None })
        } else {
            None
        }
    } else if pat[0] == SegmentModel::Wildcard(WildcardKind::Full) {
        Some(MatchModel { params: acc, consumed: 0, remainder: None })
    } else if pat[0] is Continuation {
        Some(MatchModel { params: acc, consumed: segs.len(), remainder: Some(segs) })
    } else if segs.len() == 0 {
        None
    } else {
        match match_one(pat[0], segs[0], acc) {
            Some(next) => match match_from(pat.drop_first(), segs.drop_first(), next) {
                Some(m) => Some(MatchModel { consumed: m.consumed + 1, ..m }),
                None => None,
            },
            None => None,
        }
    }
}

/// Matches `pat` against `path` without its first `skip` segments; a relative
/// path matches nothing.
pub open spec fn match_path(pat: Seq<SegmentModel>, path: PathModel, skip: nat) -> Option<MatchModel> {
    let rest = skip_model(path, skip);
    if !rest.absolute {
        None
    } else {
        match_from(pat, rest.segments, Map::empty())
    }
}

/// `m` moved on by `i` consumed segments.
pub open spec fn shifted(m: Option<MatchModel>, i: nat) -> Option<MatchModel> {
    match m {
        Some(x) => Some(MatchModel { consumed: x.consumed + i, ..x }),
        None => None,
    }
}

/// The result of a successful match.
#[derive(Clone, Debug)]
pub struct RouteMatch {
    pub params: Params,
    pub consumed: usize,
    pub remainder: Option<Path>,
}

/// `r` is the executable form of `m`; a remainder keeps the kind of the matched path.
pub open spec fn match_result_is(r: Option<RouteMatch>, m: Option<MatchModel>, absolute: bool) -> bool {
    match m {
        None => r is None,
        Some(x) => r is Some && r->Some_0.params@ == x.params && r->Some_0.consumed == x.consumed
            && match x.remainder {
            None => r->Some_0.remainder is None,
            Some(rest) => r->Some_0.remainder is Some && r->Some_0.remainder->Some_0@ == (PathModel {
                absolute,
                segments: rest,
            }),
        },
    }
}

impl Route {
    /// Reads a pattern: `:name`, `*`, `**` and `...` are allowed, `..` only
    /// where it cancels a literal segment.
    pub fn parse(text: &str) -> (r: Result<Route, GrammarError>)
        ensures
            match parse_route(text@) {
                Ok(m) => r is Ok && r->Ok_0@ == m,
                Err(e) => r == Err::<Route, GrammarError>(e),
            },
    {
        match Parser::new().allow_parameters().parse(text) {
            Ok(segments) => Ok(Route { segments }),
            Err(e) => Err(e),
        }
    }

    /// The number of pattern segments.
    #[inline]
    pub fn len(&self) -> (r: usize)
        ensures
            r == self@.len(),
    {
        self.segments.len()
    }

    /// The pattern segments.
    pub fn segments(&self) -> (r: &Vec<Segment>)
        ensures
            seg_models(r@) == self@,
    {
        &self.segments
    }

    /// A copy with the same pattern.
    pub fn duplicate(&self) -> (r: Route)
        ensures
            r@ == self@,
    {
        Route { segments: copy_segments(&self.segments) }
    }

    /// The pattern as text that [`Route::parse`] reads back.
    pub fn to_text(&self) -> (r: String)
        ensures
            r@ == absolute_text(self@),
    {
        let p = Path::Absolute(copy_segments(&self.segments));
        p.to_text()
    }

    /// Matches the pattern against `path` without its first `skip_segments`
    /// segments (see [`match_from`]).
    pub fn matches(&self, path: &Path, skip_segments: usize) -> (r: Option<RouteMatch>)
        ensures
            match_result_is(r, match_path(self@, path@, skip_segments as nat), path@.absolute),
            !path@.absolute ==> r is None,
    {
        if !path.is_absolute() {
            return None;
        }
        let pat = &self.segments;
        let src = path.segments();
        let len = src.len();
        let start = if skip_segments < len {
            skip_segments
        } else {
            len
        };
        let ghost pm = seg_models(pat@);
        let ghost segs = skip_model(path@, skip_segments as nat).segments;
        proof {
            assert(segs =~= seg_models(src@).skip(start as int));
            assert(pm.skip(0) =~= pm);
            assert(segs.skip(0) =~= segs);
        }
        let mut params = Params::new();
        let mut i: usize = 0;
        while i < pat.len()
            invariant
                pm == seg_models(pat@),
                pm == self@,
                segs =~= seg_models(src@).skip(start as int),
                start <= len,
                len == src@.len(),
                seg_models(src@) == path@.segments,
                path@.absolute,
                i <= pat@.len(),
                start + i <= len,
                match_path(self@, path@, skip_segments as nat) == shifted(
                    match_from(pm.skip(i as int), segs.skip(i as int), params@),
                    i as nat,
                ),
            decreases pat@.len() - i,
        {
            let ghost rp = pm.skip(i as int);
            let ghost rs = segs.skip(i as int);
            proof {
                assert(rp[0] == pm[i as int]);
            }
            match &pat[i] {
                Segment::Wildcard(WildcardKind::Full) => {
                    return Some(RouteMatch { params, consumed: i, remainder: None });
                },
                Segment::Continuation => {
                    let rest = path.skip(start + i);
                    proof {
                        assert(rest@.segments =~= rs);
                    }
                    return Some(
                        RouteMatch { params, consumed: len - start, remainder: Some(rest) },
                    );
                },
                _ => {},
            }
            if start + i >= len {
                return None;
            }
            proof {
                assert(rs[0] == seg_models(src@)[start + i]);
                assert(rp.drop_first() =~= pm.skip(i + 1));
                assert(rs.drop_first() =~= segs.skip(i + 1));
            }
            let ghost before = params@;
            match (&pat[i], &src[start + i]) {
                (Segment::Parameter(n), Segment::Static(v)) => {
                    params.insert(n.as_str(), v.as_str());
                },
                (Segment::Static(a), Segment::Static(b)) => {
                    if *a != *b {
                        return None;
                    }
                },
                (Segment::Wildcard(WildcardKind::Single), _) => {},
                _ => {
                    return None;
                },
            }
            proof {
                assert(match_one(rp[0], rs[0], before) == Some(params@));
            }
            i = i + 1;
        }
        proof {
            assert(pm.skip(i as int) =~= Seq::<SegmentModel>::empty());
        }
        if start + i == len {
            Some(RouteMatch { params, consumed: i, remainder: None })
        } else {
            None
        }
    }
}

impl core::str::FromStr for Route {
    type Err = GrammarError;

    fn from_str(s: &str) -> (r: Result<Route, GrammarError>)
        ensures
            match parse_route(s@) {
                Ok(m) => r is Ok && r->Ok_0@ == m,
                Err(e) => r == Err::<Route, GrammarError>(e),
            },
    {
        Route::parse(s)
    }
}

/// Reading a pattern's text gives the pattern back, so reading, writing and
/// reading again gives what the first reading gave.
pub proof fn lemma_route_round_trip(s: Seq<char>)
    requires
        parse_route(s) is Ok,
    ensures
        parse_route(absolute_text(parse_route(s)->Ok_0)) == parse_route(s),
{
    lemma_parse_text_wf(s, false, true);
    lemma_absolute_text_round_trip(parse_route(s)->Ok_0, false, true);
}

} // verus!
