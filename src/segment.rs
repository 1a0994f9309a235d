use vstd::prelude::*;

verus! {

/// Which part of a path a wildcard stands for.
#[derive(Clone, Copy, Debug, PartialEq, Eq, Structural)]
pub enum WildcardKind {
    /// `*`: exactly one segment.
    Single,
    /// `**`: everything that is left, possibly nothing.
    Full,
}

/// One `/`-delimited unit of a path or a route pattern.
#[derive(Clone, Debug, PartialEq, Eq)]
pub enum Segment {
    /// `..`: one level up.
    Parent,
    /// `:name`: captures one segment under `name` (patterns only).
    Parameter(String),
    /// Literal text.
    Static(String),
    /// `*` or `**` (patterns only).
    Wildcard(WildcardKind),
    /// `...`: captures everything that is left (patterns only, last).
    Continuation,
}

/// The mathematical value of a [`Segment`].
pub enum SegmentModel {
    Parent,
    Parameter(Seq<char>),
    Static(Seq<char>),
    Wildcard(WildcardKind),
    Continuation,
}

impl View for Segment {
    type V = SegmentModel;

    open spec fn view(&self) -> SegmentModel {
        match self {
            Segment::Parent => SegmentModel::Parent,
            Segment::Parameter(n) => SegmentModel::Parameter(n@),
            Segment::Static(t) => SegmentModel::Static(t@),
            Segment::Wildcard(k) => SegmentModel::Wildcard(*k),
            Segment::Continuation => SegmentModel::Continuation,
        }
    }
}

/// The models of a sequence of segments.
pub open spec fn seg_models(v: Seq<Segment>) -> Seq<SegmentModel> {
    v.map_values(|s: Segment| s@)
}

pub open spec fn no_slash(t: Seq<char>) -> bool {
    forall|j: int| 0 <= j < t.len() ==> t[j] != '/'
}

/// Text that the grammar reads as literal text: not empty, no `/`, and none of
/// the reserved tokens.
pub open spec fn is_plain(t: Seq<char>) -> bool {
    &&& t.len() > 0
    &&& no_slash(t)
    &&& t[0] != ':'
    &&& t != seq!['.']
    &&& t != seq!['.', '.']
    &&& t != seq!['*']
    &&& t != seq!['*', '*']
    &&& t != seq!['.', '.', '.']
}

/// The text of one segment as the grammar writes it.
pub open spec fn segment_text(m: SegmentModel) -> Seq<char> {
    match m {
        SegmentModel::Parent => seq!['.', '.'],
        SegmentModel::Parameter(n) => seq![':'] + n,
        SegmentModel::Static(t) => t,
        SegmentModel::Wildcard(WildcardKind::Single) => seq!['*'],
        SegmentModel::Wildcard(WildcardKind::Full) => seq!['*', '*'],
        SegmentModel::Continuation => seq!['.', '.', '.'],
    }
}

/// Copies a sequence of segments.
pub fn copy_segments(v: &Vec<Segment>) -> (r: Vec<Segment>)
    ensures
        seg_models(r@) == seg_models(v@),
{
    let mut r: Vec<Segment> = Vec::new();
    let mut i: usize = 0;
    while i < v.len()
        invariant
            i <= v@.len(),
            seg_models(r@) =~= seg_models(v@.take(i as int)),
        decreases v@.len() - i,
    {
        let ghost prev = r@;
        let d = v[i].duplicate();
        r.push(d);
        proof {
            assert(v@.take(i + 1) =~= v@.take(i as int).push(v@[i as int]));
            assert(seg_models(r@) =~= seg_models(prev).push(d@));
            assert(seg_models(v@.take(i + 1)) =~= seg_models(v@.take(i as int)).push(v@[i as int]@));
        }
        i = i + 1;
    }
    proof {
        assert(v@.take(v@.len() as int) =~= v@);
    }
    r
}

impl Segment {
    /// The segment written as grammar text.
    pub fn to_text(&self) -> (r: String)
        ensures
            r@ == segment_text(self@),
    {
        match self {
            Segment::Parent => {
                proof {
                    reveal_strlit("..");
                }
                "..".to_owned()
            },
            Segment::Parameter(n) => {
                proof {
                    reveal_strlit(":");
                }
                let mut r = ":".to_owned();
                r.append(n.as_str());
                r
            },
            Segment::Static(t) => t.clone(),
            Segment::Wildcard(WildcardKind::Single) => {
                proof {
                    reveal_strlit("*");
                }
                "*".to_owned()
            },
            Segment::Wildcard(WildcardKind::Full) => {
                proof {
                    reveal_strlit("**");
                }
                "**".to_owned()
            },
            Segment::Continuation => {
                proof {
                    reveal_strlit("...");
                }
                "...".to_owned()
            },
        }
    }

    /// A copy with the same value.
    pub fn duplicate(&self) -> (r: Segment)
        ensures
            r@ == self@,
    {
        match self {
            Segment::Parent => Segment::Parent,
            Segment::Parameter(n) => Segment::Parameter(n.clone()),
            Segment::Static(t) => Segment::Static(t.clone()),
            Segment::Wildcard(k) => Segment::Wildcard(*k),
            Segment::Continuation => Segment::Continuation,
        }
    }

    pub fn is_static(&self) -> (r: bool)
        ensures
            r == (self@ is Static),
    {
        match self {
            Segment::Static(_) => true,
            _ => false,
        }
    }

    pub fn is_continuation(&self) -> (r: bool)
        ensures
            r == (self@ is Continuation),
    {
        match self {
            Segment::Continuation => true,
            _ => false,
        }
    }
}

} // verus!
