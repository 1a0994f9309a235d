use vstd::prelude::*;

use crate::parser::{
    absolute_text, joined, lemma_absolute_text_round_trip, lemma_parse_text_wf,
    lemma_relative_text_round_trip, parse_text, GrammarError, Parser,
};
use crate::segment::{copy_segments, seg_models, Segment, SegmentModel};

verus! {

/// A resolved sequence of segments, anchored at the root or relative.
#[derive(Clone, Debug, PartialEq, Eq)]
pub enum Path {
    Absolute(Vec<Segment>),
    Relative(Vec<Segment>),
}

/// The mathematical value of a [`Path`].
pub struct PathModel {
    pub absolute: bool,
    pub segments: Seq<SegmentModel>,
}

impl View for Path {
    type V = PathModel;

    open spec fn view(&self) -> PathModel {
        match self {
            Path::Absolute(s) => PathModel { absolute: true, segments: seg_models(s@) },
            Path::Relative(s) => PathModel { absolute: false, segments: seg_models(s@) },
        }
    }
}

/// Text that reads as a relative path: it starts with `.`.
pub open spec fn starts_relative(s: Seq<char>) -> bool {
    s.len() > 0 && s[0] == '.'
}

/// The path that the grammar reads from `s`.
pub open spec fn parse_path(s: Seq<char>) -> Result<PathModel, GrammarError> {
    let relative = starts_relative(s);
    match parse_text(s, relative, false) {
        Ok(segs) => Ok(PathModel { absolute: !relative, segments: segs }),
        Err(e) => Err(e),
    }
}

/// The text of a path: `/a/b` (`/` alone when empty), or `./a/b` (`.` alone when
/// empty) for a relative one.
pub open spec fn path_text(p: PathModel) -> Seq<char> {
    if p.absolute {
        absolute_text(p.segments)
    } else {
        seq!['.'] + joined(p.segments)
    }
}

/// The path without its first `n` segments; empty when it has no more than `n`.
pub open spec fn skip_model(p: PathModel, n: nat) -> PathModel {
    PathModel {
        absolute: p.absolute,
        segments: if n <= p.segments.len() {
            p.segments.skip(n as int)
        } else {
            Seq::empty()
        },
    }
}

/// Adds one segment to the tail of `acc`: `..` cancels a trailing literal
/// segment, stays in a relative path, and is dropped at the root of an absolute one.
pub open spec fn concat_step(acc: Seq<SegmentModel>, s: SegmentModel, absolute: bool) -> Seq<
    SegmentModel,
> {
    match s {
        SegmentModel::Parent => {
            if acc.len() > 0 && acc.last() is Static {
                acc.drop_last()
            } else if !absolute {
                acc.push(SegmentModel::Parent)
            } else {
                acc
            }
        },
        _ => acc.push(s),
    }
}

/// Folds `addition` into the tail of `acc`, segment by segment.
pub open spec fn fold_into(acc: Seq<SegmentModel>, addition: Seq<SegmentModel>, absolute: bool) -> Seq<
    SegmentModel,
>
    decreases addition.len(),
{
    if addition.len() == 0 {
        acc
    } else {
        concat_step(fold_into(acc, addition.drop_last(), absolute), addition.last(), absolute)
    }
}

/// `addition` resolved against `base`: an absolute addition stands as it is.
pub open spec fn concat_model(base: PathModel, addition: PathModel) -> PathModel {
    if addition.absolute {
        addition
    } else {
        PathModel {
            absolute: base.absolute,
            segments: fold_into(base.segments, addition.segments, base.absolute),
        }
    }
}

/// Whether two segments have the same value.
fn same_segment(a: &Segment, b: &Segment) -> (r: bool)
    ensures
        r == (a@ == b@),
{
    match (a, b) {
        (Segment::Parent, Segment::Parent) => true,
        (Segment::Parameter(x), Segment::Parameter(y)) => *x == *y,
        (Segment::Static(x), Segment::Static(y)) => *x == *y,
        (Segment::Wildcard(x), Segment::Wildcard(y)) => *x == *y,
        (Segment::Continuation, Segment::Continuation) => true,
        _ => false,
    }
}

/// Whether two segment lists have the same values.
pub fn same_segments(a: &Vec<Segment>, b: &Vec<Segment>) -> (r: bool)
    ensures
        r == (seg_models(a@) == seg_models(b@)),
{
    if a.len() != b.len() {
        proof {
            assert(seg_models(a@).len() != seg_models(b@).len());
        }
        return false;
    }
    let mut i: usize = 0;
    while i < a.len()
        invariant
            a@.len() == b@.len(),
            i <= a@.len(),
            forall|j: int| 0 <= j < i ==> a@[j]@ == b@[j]@,
        decreases a@.len() - i,
    {
        if !same_segment(&a[i], &b[i]) {
            proof {
                assert(seg_models(a@)[i as int] != seg_models(b@)[i as int]);
            }
            return false;
        }
        i = i + 1;
    }
    proof {
        assert(seg_models(a@) =~= seg_models(b@));
    }
    true
}

/// The empty relative path.
pub open spec fn empty_relative() -> PathModel {
    PathModel { absolute: false, segments: Seq::empty() }
}

impl Path {
    /// Reads a path: relative when the text starts with `.`, absolute otherwise.
    /// Pattern segments are refused; `..` above the root of an absolute path is dropped.
    pub fn parse(text: &str) -> (r: Result<Path, GrammarError>)
        ensures
            match parse_path(text@) {
                Ok(m) => r is Ok && r->Ok_0@ == m,
                Err(e) => r == Err::<Path, GrammarError>(e),
            },
    {
        let relative = text.unicode_len() > 0 && text.get_char(0) == '.';
        let parser = if relative {
            Parser::new().allow_relative()
        } else {
            Parser::new()
        };
        match parser.parse(text) {
            Ok(segs) => {
                if relative {
                    Ok(Path::Relative(segs))
                } else {
                    Ok(Path::Absolute(segs))
                }
            },
            Err(e) => Err(e),
        }
    }

    /// Reads a location; text that is not a path reads as the root.
    pub fn parse_or_root(text: &str) -> (r: Path)
        ensures
            match parse_path(text@) {
                Ok(m) => r@ == m,
                Err(_) => r@ == (PathModel { absolute: true, segments: Seq::empty() }),
            },
    {
        match Path::parse(text) {
            Ok(p) => p,
            Err(_) => Path::root(),
        }
    }

    /// The empty absolute path.
    pub fn root() -> (r: Path)
        ensures
            r@ == (PathModel { absolute: true, segments: Seq::empty() }),
    {
        let v: Vec<Segment> = Vec::new();
        proof {
            assert(seg_models(v@) =~= Seq::<SegmentModel>::empty());
        }
        Path::Absolute(v)
    }

    #[inline]
    pub fn is_absolute(&self) -> (r: bool)
        ensures
            r == self@.absolute,
    {
        match self {
            Path::Absolute(_) => true,
            Path::Relative(_) => false,
        }
    }

    #[inline]
    pub fn segments(&self) -> (r: &Vec<Segment>)
        ensures
            seg_models(r@) == self@.segments,
    {
        match self {
            Path::Absolute(s) => s,
            Path::Relative(s) => s,
        }
    }

    #[inline]
    pub fn take_segments(self) -> (r: Vec<Segment>)
        ensures
            seg_models(r@) == self@.segments,
    {
        match self {
            Path::Absolute(s) => s,
            Path::Relative(s) => s,
        }
    }

    #[inline]
    pub fn len(&self) -> (r: usize)
        ensures
            r == self@.segments.len(),
    {
        self.segments().len()
    }

    /// A copy with the same value.
    pub fn duplicate(&self) -> (r: Path)
        ensures
            r@ == self@,
    {
        let segs = copy_segments(self.segments());
        if self.is_absolute() {
            Path::Absolute(segs)
        } else {
            Path::Relative(segs)
        }
    }

    /// Drops the first `n` segments; an empty path of the same kind when there
    /// are no more than `n`.
    pub fn skip(&self, n: usize) -> (r: Path)
        ensures
            r@ == skip_model(self@, n as nat),
    {
        let src = self.segments();
        let len = src.len();
        let mut out: Vec<Segment> = Vec::new();
        let start = if n < len {
            n
        } else {
            len
        };
        let mut i: usize = start;
        proof {
            assert(seg_models(out@) =~= seg_models(src@).subrange(start as int, start as int));
        }
        while i < len
            invariant
                start <= i <= len,
                len == src@.len(),
                seg_models(out@) =~= seg_models(src@).subrange(start as int, i as int),
            decreases len - i,
        {
            let ghost prev = out@;
            let d = src[i].duplicate();
            out.push(d);
            proof {
                assert(seg_models(out@) =~= seg_models(prev).push(d@));
            }
            i = i + 1;
        }
        proof {
            if n <= len {
                assert(seg_models(src@).skip(n as int) =~= seg_models(src@).subrange(
                    n as int,
                    len as int,
                ));
            } else {
                assert(seg_models(src@).subrange(len as int, len as int) =~= Seq::<
                    SegmentModel,
                >::empty());
            }
        }
        if self.is_absolute() {
            Path::Absolute(out)
        } else {
            Path::Relative(out)
        }
    }

    /// `addition` resolved against this path (see [`concat_model`]).
    pub fn concat(&self, addition: &Path) -> (r: Path)
        ensures
            r@ == concat_model(self@, addition@),
    {
        if addition.is_absolute() {
            return addition.duplicate();
        }
        let absolute = self.is_absolute();
        let mut acc = copy_segments(self.segments());
        let add = addition.segments();
        let ghost base = self@.segments;
        let ghost am = addition@.segments;
        let mut i: usize = 0;
        proof {
            assert(am.take(0) =~= Seq::<SegmentModel>::empty());
        }
        while i < add.len()
            invariant
                i <= add@.len(),
                am == seg_models(add@),
                absolute == self@.absolute,
                seg_models(acc@) == fold_into(base, am.take(i as int), absolute),
            decreases add@.len() - i,
        {
            let ghost prev = seg_models(acc@);
            let s = &add[i];
            proof {
                assert(am.take(i + 1).drop_last() =~= am.take(i as int));
                assert(am.take(i + 1).last() == s@);
            }
            match s {
                Segment::Parent => {
                    let len = acc.len();
                    if len > 0 && acc[len - 1].is_static() {
                        acc.pop();
                        proof {
                            assert(seg_models(acc@) =~= prev.drop_last());
                        }
                    } else if !absolute {
                        acc.push(Segment::Parent);
                        proof {
                            assert(seg_models(acc@) =~= prev.push(SegmentModel::Parent));
                        }
                    }
                },
                _ => {
                    let d = s.duplicate();
                    acc.push(d);
                    proof {
                        assert(seg_models(acc@) =~= prev.push(d@));
                    }
                },
            }
            i = i + 1;
        }
        proof {
            assert(am.take(add@.len() as int) =~= am);
        }
        if absolute {
            Path::Absolute(acc)
        } else {
            Path::Relative(acc)
        }
    }

    /// Whether both paths hold the same segments.
    pub fn same_segments_as(&self, other: &Path) -> (r: bool)
        ensures
            r == (self@.segments == other@.segments),
    {
        same_segments(self.segments(), other.segments())
    }

    /// The path as text that [`Path::parse`] reads back.
    pub fn to_text(&self) -> (r: String)
        ensures
            r@ == path_text(self@),
    {
        let segs = self.segments();
        let mut out = if self.is_absolute() {
            String::new()
        } else {
            proof {
                reveal_strlit(".");
            }
            ".".to_owned()
        };
        let ghost lead = out@;
        let ghost m = self@.segments;
        let mut i: usize = 0;
        proof {
            reveal_strlit("/");
            assert(m.take(0) =~= Seq::<SegmentModel>::empty());
            assert(lead + joined(m.take(0)) =~= lead);
        }
        while i < segs.len()
            invariant
                i <= segs@.len(),
                m == seg_models(segs@),
                out@ == lead + joined(m.take(i as int)),
                "/"@ == seq!['/'],
            decreases segs@.len() - i,
        {
            out.append("/");
            let t = segs[i].to_text();
            out.append(t.as_str());
            proof {
                assert(m.take(i + 1).drop_last() =~= m.take(i as int));
                assert(m.take(i + 1).last() == segs@[i as int]@);
                assert(out@ =~= lead + joined(m.take(i + 1)));
            }
            i = i + 1;
        }
        proof {
            assert(m.take(segs@.len() as int) =~= m);
        }
        if self.is_absolute() && segs.len() == 0 {
            proof {
                reveal_strlit("/");
            }
            return "/".to_owned();
        }
        proof {
            if self@.absolute {
                assert(lead =~= Seq::<char>::empty());
                assert(out@ =~= joined(m));
            }
        }
        out
    }
}

/// The empty absolute path.
impl Default for Path {
    fn default() -> (r: Path)
        ensures
            r@ == (PathModel { absolute: true, segments: Seq::empty() }),
    {
        Path::root()
    }
}

impl core::str::FromStr for Path {
    type Err = GrammarError;

    fn from_str(s: &str) -> (r: Result<Path, GrammarError>)
        ensures
            match parse_path(s@) {
                Ok(m) => r is Ok && r->Ok_0@ == m,
                Err(e) => r == Err::<Path, GrammarError>(e),
            },
    {
        Path::parse(s)
    }
}

/// Reading a path's text gives the path back, so reading, writing and reading
/// again gives what the first reading gave.
pub proof fn lemma_path_round_trip(s: Seq<char>)
    requires
        parse_path(s) is Ok,
    ensures
        parse_path(path_text(parse_path(s)->Ok_0)) == parse_path(s),
{
    let relative = starts_relative(s);
    let p = parse_path(s)->Ok_0;
    lemma_parse_text_wf(s, relative, false);
    if relative {
        lemma_relative_text_round_trip(p.segments, true, false);
        assert(starts_relative(path_text(p)));
    } else {
        lemma_absolute_text_round_trip(p.segments, false, false);
        lemma_joined_starts_with_slash(p.segments);
        assert(!starts_relative(path_text(p)));
    }
}

proof fn lemma_joined_starts_with_slash(segs: Seq<SegmentModel>)
    ensures
        segs.len() > 0 ==> joined(segs).len() > 0 && joined(segs)[0] == '/',
    decreases segs.len(),
{
    if segs.len() > 0 {
        let d = segs.drop_last();
        lemma_joined_starts_with_slash(d);
        let x = joined(d) + seq!['/'];
        assert(x[x.len() - 1] == '/');
        if d.len() == 0 {
            assert(joined(d) =~= Seq::<char>::empty());
            assert(x[0] == '/');
        } else {
            assert(x[0] == joined(d)[0]);
        }
        assert(joined(segs)[0] == x[0]);
    }
}

/// Adding the empty relative path changes nothing.
pub proof fn lemma_concat_empty_relative(p: PathModel)
    ensures
        concat_model(p, empty_relative()) == p,
{
}

} // verus!
