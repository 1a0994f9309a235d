use vstd::prelude::*;

use crate::segment::{is_plain, no_slash, seg_models, segment_text, Segment, SegmentModel, WildcardKind};

verus! {

/// Malformed path or route text.
#[derive(Clone, Copy, Debug, PartialEq, Eq, Structural)]
pub enum GrammarError {
    /// `..` with nothing to cancel in a pattern.
    UnresolvableAscension,
    /// `:name` where only a path is allowed.
    ParameterNotAllowed,
    /// `*` or `**` where only a path is allowed.
    WildcardNotAllowed,
    /// `...` where only a path is allowed.
    ContinuationNotAllowed,
    /// A segment after `...`.
    TrailingAfterContinuation,
}

/// The pieces of `s` between the `/` characters, in order (always at least one).
pub open spec fn split_slash(s: Seq<char>) -> Seq<Seq<char>>
    decreases s.len(),
{
    if s.len() == 0 {
        seq![Seq::<char>::empty()]
    } else {
        let r = split_slash(s.drop_last());
        if s.last() == '/' {
            r.push(Seq::<char>::empty())
        } else {
            r.update(r.len() - 1, r.last().push(s.last()))
        }
    }
}

/// Reads one piece of text onto the segments collected so far. A `..` cancels
/// a trailing literal segment; with nothing to cancel it stays in relative
/// text, is dropped at the root of an absolute path, and is refused in a pattern.
pub open spec fn parse_piece(
    acc: Seq<SegmentModel>,
    piece: Seq<char>,
    relative: bool,
    parameters: bool,
) -> Result<Seq<SegmentModel>, GrammarError> {
    if piece.len() == 0 || piece == seq!['.'] {
        Ok(acc)
    } else if acc.len() > 0 && acc.last() is Continuation {
        Err(GrammarError::TrailingAfterContinuation)
    } else if piece == seq!['.', '.'] {
        if acc.len() > 0 && acc.last() is Static {
            Ok(acc.drop_last())
        } else if relative {
            Ok(acc.push(SegmentModel::Parent))
        } else if !parameters {
            Ok(acc)
        } else {
            Err(GrammarError::UnresolvableAscension)
        }
    } else if piece[0] == ':' {
        if parameters {
            Ok(acc.push(SegmentModel::Parameter(piece.drop_first())))
        } else {
            Err(GrammarError::ParameterNotAllowed)
        }
    } else if piece == seq!['*'] || piece == seq!['*', '*'] {
        if parameters {
            Ok(
                acc.push(
                    SegmentModel::Wildcard(
                        if piece.len() == 1 {
                            WildcardKind::Single
                        } else {
                            WildcardKind::Full
                        },
                    ),
                ),
            )
        } else {
            Err(GrammarError::WildcardNotAllowed)
        }
    } else if piece == seq!['.', '.', '.'] {
        if parameters {
            Ok(acc.push(SegmentModel::Continuation))
        } else {
            Err(GrammarError::ContinuationNotAllowed)
        }
    } else {
        Ok(acc.push(SegmentModel::Static(piece)))
    }
}

/// Reads the pieces from left to right; the first error stops the reading.
pub open spec fn parse_pieces(
    pieces: Seq<Seq<char>>,
    relative: bool,
    parameters: bool,
) -> Result<Seq<SegmentModel>, GrammarError>
    decreases pieces.len(),
{
    if pieces.len() == 0 {
        Ok(Seq::empty())
    } else {
        match parse_pieces(pieces.drop_last(), relative, parameters) {
            Ok(acc) => parse_piece(acc, pieces.last(), relative, parameters),
            Err(e) => Err(e),
        }
    }
}

/// The segments that the grammar reads from `s`.
pub open spec fn parse_text(s: Seq<char>, relative: bool, parameters: bool) -> Result<
    Seq<SegmentModel>,
    GrammarError,
> {
    parse_pieces(split_slash(s), relative, parameters)
}

/// `r` is the executable form of the model result `m`.
pub open spec fn parsed_as(
    r: Result<Vec<Segment>, GrammarError>,
    m: Result<Seq<SegmentModel>, GrammarError>,
) -> bool {
    match r {
        Ok(v) => m == Ok::<Seq<SegmentModel>, GrammarError>(seg_models(v@)),
        Err(e) => m == Err::<Seq<SegmentModel>, GrammarError>(e),
    }
}

proof fn lemma_split_len(s: Seq<char>)
    ensures
        split_slash(s).len() >= 1,
    decreases s.len(),
{
    if s.len() > 0 {
        lemma_split_len(s.drop_last());
    }
}

/// Growing the text only extends the last piece or adds pieces.
proof fn lemma_split_extends(s: Seq<char>, i: int, j: int)
    requires
        0 <= i <= j <= s.len(),
    ensures
        split_slash(s.take(j)).len() >= split_slash(s.take(i)).len(),
        split_slash(s.take(j)).take(split_slash(s.take(i)).len() - 1) =~= split_slash(
            s.take(i),
        ).drop_last(),
    decreases j - i,
{
    lemma_split_len(s.take(i));
    if j > i {
        lemma_split_extends(s, i, j - 1);
        lemma_split_len(s.take(j - 1));
        assert(s.take(j).drop_last() =~= s.take(j - 1));
    }
}

/// Once reading fails, the rest of the pieces do not change the error.
proof fn lemma_err_sticky(ps: Seq<Seq<char>>, k: int, relative: bool, parameters: bool)
    requires
        0 <= k <= ps.len(),
        parse_pieces(ps.take(k), relative, parameters) is Err,
    ensures
        parse_pieces(ps, relative, parameters) == parse_pieces(ps.take(k), relative, parameters),
    decreases ps.len() - k,
{
    if k < ps.len() {
        assert(ps.drop_last().take(k) =~= ps.take(k));
        lemma_err_sticky(ps.drop_last(), k, relative, parameters);
    } else {
        assert(ps.take(k) =~= ps);
    }
}

/// The executable reading of one piece.
fn read_piece(acc: &mut Vec<Segment>, piece: &str, relative: bool, parameters: bool) -> (r: Result<
    (),
    GrammarError,
>)
    ensures
        match parse_piece(seg_models(old(acc)@), piece@, relative, parameters) {
            Ok(m) => r is Ok && seg_models(final(acc)@) == m,
            Err(e) => r == Err::<(), GrammarError>(e),
        },
{
    let ghost before = seg_models(acc@);
    let n = piece.unicode_len();
    let c0 = if n > 0 {
        piece.get_char(0)
    } else {
        ' '
    };
    let c1 = if n > 1 {
        piece.get_char(1)
    } else {
        ' '
    };
    let c2 = if n > 2 {
        piece.get_char(2)
    } else {
        ' '
    };
    if n == 0 || (n == 1 && c0 == '.') {
        assert(piece@.len() == 0 || piece@ =~= seq!['.']);
        return Ok(());
    }
    assert(!(piece@ =~= seq!['.'])) by {
        if n == 1 {
            assert(piece@[0] == c0);
        }
    }
    let len = acc.len();
    if len > 0 && acc[len - 1].is_continuation() {
        return Err(GrammarError::TrailingAfterContinuation);
    }
    let is_dotdot = n == 2 && c0 == '.' && c1 == '.';
    let is_star = n == 1 && c0 == '*';
    let is_stars = n == 2 && c0 == '*' && c1 == '*';
    let is_dots = n == 3 && c0 == '.' && c1 == '.' && c2 == '.';
    proof {
        assert(is_dotdot == (piece@ == seq!['.', '.'])) by {
            if piece@ == seq!['.', '.'] {
                assert(piece@[0] == '.' && piece@[1] == '.');
            }
            if is_dotdot {
                assert(piece@ =~= seq!['.', '.']);
            }
        }
        assert(is_star == (piece@ == seq!['*'])) by {
            if piece@ == seq!['*'] {
                assert(piece@[0] == '*');
            }
            if is_star {
                assert(piece@ =~= seq!['*']);
            }
        }
        assert(is_stars == (piece@ == seq!['*', '*'])) by {
            if piece@ == seq!['*', '*'] {
                assert(piece@[0] == '*' && piece@[1] == '*');
            }
            if is_stars {
                assert(piece@ =~= seq!['*', '*']);
            }
        }
        assert(is_dots == (piece@ == seq!['.', '.', '.'])) by {
            if piece@ == seq!['.', '.', '.'] {
                assert(piece@[0] == '.' && piece@[1] == '.' && piece@[2] == '.');
            }
            if is_dots {
                assert(piece@ =~= seq!['.', '.', '.']);
            }
        }
    }
    if is_dotdot {
        if len > 0 && acc[len - 1].is_static() {
            acc.pop();
            proof {
                assert(seg_models(acc@) =~= before.drop_last());
            }
            Ok(())
        } else if relative {
            acc.push(Segment::Parent);
            proof {
                assert(seg_models(acc@) =~= before.push(SegmentModel::Parent));
            }
            Ok(())
        } else if !parameters {
            Ok(())
        } else {
            Err(GrammarError::UnresolvableAscension)
        }
    } else if c0 == ':' {
        if parameters {
            let name = piece.substring_char(1, n).to_owned();
            acc.push(Segment::Parameter(name));
            proof {
                assert(name@ =~= piece@.drop_first());
                assert(seg_models(acc@) =~= before.push(SegmentModel::Parameter(piece@.drop_first())));
            }
            Ok(())
        } else {
            Err(GrammarError::ParameterNotAllowed)
        }
    } else if is_star || is_stars {
        if parameters {
            let kind = if is_star {
                WildcardKind::Single
            } else {
                WildcardKind::Full
            };
            acc.push(Segment::Wildcard(kind));
            proof {
                assert(seg_models(acc@) =~= before.push(SegmentModel::Wildcard(kind)));
            }
            Ok(())
        } else {
            Err(GrammarError::WildcardNotAllowed)
        }
    } else if is_dots {
        if parameters {
            acc.push(Segment::Continuation);
            proof {
                assert(seg_models(acc@) =~= before.push(SegmentModel::Continuation));
            }
            Ok(())
        } else {
            Err(GrammarError::ContinuationNotAllowed)
        }
    } else {
        let text = piece.to_owned();
        acc.push(Segment::Static(text));
        proof {
            assert(seg_models(acc@) =~= before.push(SegmentModel::Static(piece@)));
        }
        Ok(())
    }
}

/// Reads segment text under a set of permissions. Without either permission it
/// reads an absolute path, where `..` above the root is dropped.
#[derive(Clone, Copy, Debug)]
pub struct Parser {
    pub allow_relative: bool,
    pub allow_parameters: bool,
}

impl Parser {
    /// A parser that allows neither relative ascension nor pattern segments.
    pub fn new() -> (r: Parser)
        ensures
            !r.allow_relative,
            !r.allow_parameters,
    {
        Parser { allow_relative: false, allow_parameters: false }
    }

    /// Allows `..` to remain where nothing precedes it to cancel.
    pub fn allow_relative(self) -> (r: Parser)
        ensures
            r.allow_relative,
            r.allow_parameters == self.allow_parameters,
    {
        Parser { allow_relative: true, ..self }
    }

    /// Allows `:name`, `*`, `**` and `...`.
    pub fn allow_parameters(self) -> (r: Parser)
        ensures
            r.allow_parameters,
            r.allow_relative == self.allow_relative,
    {
        Parser { allow_parameters: true, ..self }
    }

    /// Splits `value` on `/` and reads the pieces in order.
    pub fn parse(&self, value: &str) -> (r: Result<Vec<Segment>, GrammarError>)
        ensures
            parsed_as(r, parse_text(value@, self.allow_relative, self.allow_parameters)),
    {
        let rel = self.allow_relative;
        let par = self.allow_parameters;
        let ghost s = value@;
        let n = value.unicode_len();
        let mut acc: Vec<Segment> = Vec::new();
        let mut start: usize = 0;
        let mut i: usize = 0;
        proof {
            assert(s.take(0) =~= Seq::<char>::empty());
            assert(split_slash(s.take(0)).drop_last() =~= Seq::<Seq<char>>::empty());
            assert(seg_models(acc@) =~= Seq::<SegmentModel>::empty());
        }
        while i < n
            invariant
                n == s.len(),
                s == value@,
                rel == self.allow_relative,
                par == self.allow_parameters,
                0 <= start <= i <= n,
                split_slash(s.take(i as int)).len() >= 1,
                split_slash(s.take(i as int)).last() =~= s.subrange(start as int, i as int),
                parse_pieces(split_slash(s.take(i as int)).drop_last(), rel, par) == Ok::<
                    Seq<SegmentModel>,
                    GrammarError,
                >(seg_models(acc@)),
            decreases n - i,
        {
            let c = value.get_char(i);
            let ghost prev = split_slash(s.take(i as int));
            proof {
                assert(s.take(i + 1).drop_last() =~= s.take(i as int));
                assert(s.take(i + 1).last() == c);
            }
            if c == '/' {
                let piece = value.substring_char(start, i);
                let res = read_piece(&mut acc, piece, rel, par);
                proof {
                    assert(prev.drop_last().push(prev.last()) =~= prev);
                }
                if let Err(e) = res {
                    proof {
                        assert(parse_pieces(prev, rel, par) == Err::<Seq<SegmentModel>, GrammarError>(e));
                        lemma_split_extends(s, i + 1, n as int);
                        assert(s.take(n as int) =~= s);
                        let full = split_slash(s);
                        let k = split_slash(s.take(i + 1)).len() - 1;
                        assert(split_slash(s.take(i + 1)).drop_last() =~= prev);
                        assert(full.take(k) =~= prev);
                        lemma_err_sticky(full, k, rel, par);
                    }
                    return Err(e);
                }
                start = i + 1;
                proof {
                    assert(split_slash(s.take(i + 1)).drop_last() =~= prev);
                    assert(s.subrange(start as int, i + 1) =~= Seq::<char>::empty());
                }
            } else {
                proof {
                    assert(s.subrange(start as int, i + 1) =~= s.subrange(start as int, i as int).push(c));
                    assert(split_slash(s.take(i + 1)).drop_last() =~= prev.drop_last());
                }
            }
            i = i + 1;
        }
        let piece = value.substring_char(start, n);
        let res = read_piece(&mut acc, piece, rel, par);
        proof {
            assert(s.take(n as int) =~= s);
            let full = split_slash(s);
            assert(full.drop_last().push(full.last()) =~= full);
        }
        match res {
            Ok(()) => Ok(acc),
            Err(e) => Err(e),
        }
    }
}

} // verus!

verus! {

/// Whether segment `i` of `segs` is one that the grammar produces under the
/// given permissions.
pub open spec fn wf_at(segs: Seq<SegmentModel>, i: int, relative: bool, parameters: bool) -> bool {
    match segs[i] {
        SegmentModel::Static(t) => is_plain(t),
        SegmentModel::Parameter(n) => parameters && no_slash(n),
        SegmentModel::Parent => relative && (i == 0 || !(segs[i - 1] is Static)),
        SegmentModel::Wildcard(_) => parameters,
        SegmentModel::Continuation => parameters && i == segs.len() - 1,
    }
}

/// The segment sequences that the grammar can produce under the given permissions.
pub open spec fn wf_segments(segs: Seq<SegmentModel>, relative: bool, parameters: bool) -> bool {
    forall|i: int| 0 <= i < segs.len() ==> #[trigger] wf_at(segs, i, relative, parameters)
}

/// `/` followed by the text of each segment, in order.
pub open spec fn joined(segs: Seq<SegmentModel>) -> Seq<char>
    decreases segs.len(),
{
    if segs.len() == 0 {
        Seq::empty()
    } else {
        joined(segs.drop_last()) + seq!['/'] + segment_text(segs.last())
    }
}

/// The texts of the segments.
pub open spec fn texts(segs: Seq<SegmentModel>) -> Seq<Seq<char>> {
    segs.map_values(|m: SegmentModel| segment_text(m))
}

proof fn lemma_split_no_slash(s: Seq<char>)
    ensures
        forall|k: int| 0 <= k < split_slash(s).len() ==> no_slash(#[trigger] split_slash(s)[k]),
    decreases s.len(),
{
    if s.len() > 0 {
        lemma_split_no_slash(s.drop_last());
        lemma_split_len(s.drop_last());
    }
}

proof fn lemma_split_single(t: Seq<char>)
    requires
        no_slash(t),
    ensures
        split_slash(t) =~= seq![t],
    decreases t.len(),
{
    if t.len() > 0 {
        assert(no_slash(t.drop_last()));
        lemma_split_single(t.drop_last());
        assert(t.last() == t[t.len() - 1]);
        assert(t.drop_last().push(t.last()) =~= t);
    } else {
        assert(t =~= Seq::<char>::empty());
    }
}

proof fn lemma_split_append(x: Seq<char>, t: Seq<char>)
    requires
        no_slash(t),
    ensures
        split_slash(x + seq!['/'] + t) =~= split_slash(x).push(t),
    decreases t.len(),
{
    let u = x + seq!['/'] + t;
    if t.len() == 0 {
        assert(u.drop_last() =~= x);
        assert(t =~= Seq::<char>::empty());
    } else {
        assert(no_slash(t.drop_last()));
        lemma_split_append(x, t.drop_last());
        assert(u.drop_last() =~= x + seq!['/'] + t.drop_last());
        assert(u.last() == t[t.len() - 1]);
        assert(t.drop_last().push(t.last()) =~= t);
    }
}

proof fn lemma_texts_no_slash(segs: Seq<SegmentModel>, relative: bool, parameters: bool)
    requires
        wf_segments(segs, relative, parameters),
    ensures
        forall|k: int| 0 <= k < segs.len() ==> no_slash(#[trigger] segment_text(segs[k])),
{
    assert forall|k: int| 0 <= k < segs.len() implies no_slash(#[trigger] segment_text(segs[k])) by {
        assert(wf_at(segs, k, relative, parameters));
        if let SegmentModel::Parameter(n) = segs[k] {
            assert forall|j: int| 0 <= j < segment_text(segs[k]).len() implies segment_text(
                segs[k],
            )[j] != '/' by {
                if j > 0 {
                    assert(segment_text(segs[k])[j] == n[j - 1]);
                }
            }
        }
    }
}

/// The pieces of `lead` followed by the joined segments.
proof fn lemma_split_joined(lead: Seq<char>, segs: Seq<SegmentModel>, relative: bool, parameters: bool)
    requires
        no_slash(lead),
        wf_segments(segs, relative, parameters),
    ensures
        split_slash(lead + joined(segs)) =~= seq![lead] + texts(segs),
    decreases segs.len(),
{
    if segs.len() == 0 {
        assert(lead + joined(segs) =~= lead);
        lemma_split_single(lead);
    } else {
        let d = segs.drop_last();
        assert(wf_segments(d, relative, parameters)) by {
            assert forall|i: int| 0 <= i < d.len() implies #[trigger] wf_at(d, i, relative, parameters) by {
                assert(wf_at(segs, i, relative, parameters));
            }
        }
        lemma_split_joined(lead, d, relative, parameters);
        lemma_texts_no_slash(segs, relative, parameters);
        let t = segment_text(segs.last());
        assert(segs.last() == segs[segs.len() - 1]);
        assert(lead + joined(segs) =~= (lead + joined(d)) + seq!['/'] + t);
        lemma_split_append(lead + joined(d), t);
        assert(texts(segs) =~= texts(d).push(t));
    }
}

proof fn lemma_wf_drop_last(segs: Seq<SegmentModel>, relative: bool, parameters: bool)
    requires
        wf_segments(segs, relative, parameters),
        segs.len() > 0,
    ensures
        wf_segments(segs.drop_last(), relative, parameters),
{
    let d = segs.drop_last();
    assert forall|i: int| 0 <= i < d.len() implies #[trigger] wf_at(d, i, relative, parameters) by {
        assert(wf_at(segs, i, relative, parameters));
    }
}

/// Reading the texts of well-formed segments gives the segments back.
proof fn lemma_parse_texts(lead: Seq<char>, segs: Seq<SegmentModel>, relative: bool, parameters: bool)
    requires
        lead.len() == 0 || lead == seq!['.'],
        wf_segments(segs, relative, parameters),
    ensures
        parse_pieces(seq![lead] + texts(segs), relative, parameters) == Ok::<
            Seq<SegmentModel>,
            GrammarError,
        >(segs),
    decreases segs.len(),
{
    let ps = seq![lead] + texts(segs);
    if segs.len() == 0 {
        assert(ps =~= seq![lead]);
        assert(ps.drop_last() =~= Seq::<Seq<char>>::empty());
        assert(parse_pieces(Seq::<Seq<char>>::empty(), relative, parameters) == Ok::<
            Seq<SegmentModel>,
            GrammarError,
        >(Seq::empty()));
        assert(segs =~= Seq::<SegmentModel>::empty());
    } else {
        let d = segs.drop_last();
        lemma_wf_drop_last(segs, relative, parameters);
        lemma_parse_texts(lead, d, relative, parameters);
        assert(ps.drop_last() =~= seq![lead] + texts(d));
        let m = segs.last();
        let t = segment_text(m);
        assert(ps.last() == t);
        let k = segs.len() - 1;
        assert(wf_at(segs, k, relative, parameters));
        assert(d.push(m) =~= segs);
        if d.len() > 0 {
            assert(wf_at(segs, k - 1, relative, parameters));
            assert(d.last() == segs[k - 1]);
        }
        match m {
            SegmentModel::Parameter(n) => {
                assert(t[0] == ':');
                assert(t.drop_first() =~= n);
                assert(t != seq!['.', '.']) by {
                    assert(seq!['.', '.'][0] == '.');
                }
            },
            SegmentModel::Static(x) => {},
            SegmentModel::Parent => {
                assert(t =~= seq!['.', '.']);
                assert(parse_piece(d, t, relative, parameters) == Ok::<Seq<SegmentModel>, GrammarError>(segs));
            },
            SegmentModel::Wildcard(w) => {
                assert(t[0] == '*');
                assert(t != seq!['.', '.']) by {
                    assert(seq!['.', '.'][0] == '.');
                }
                assert(t != seq!['.']) by {
                    assert(seq!['.'][0] == '.');
                }
            },
            SegmentModel::Continuation => {
                assert(t[0] == '.' && t.len() == 3);
                assert(t != seq!['.', '.']);
                assert(t != seq!['.']);
                assert(parse_piece(d, t, relative, parameters) == Ok::<Seq<SegmentModel>, GrammarError>(segs));
            },
        }
        assert(parse_piece(d, t, relative, parameters) == Ok::<Seq<SegmentModel>, GrammarError>(segs));
    }
}

/// Whatever the grammar reads is well formed.
proof fn lemma_parse_wf(ps: Seq<Seq<char>>, relative: bool, parameters: bool)
    requires
        forall|k: int| 0 <= k < ps.len() ==> no_slash(#[trigger] ps[k]),
        parse_pieces(ps, relative, parameters) is Ok,
    ensures
        wf_segments(parse_pieces(ps, relative, parameters)->Ok_0, relative, parameters),
    decreases ps.len(),
{
    if ps.len() > 0 {
        let d = ps.drop_last();
        assert forall|k: int| 0 <= k < d.len() implies no_slash(#[trigger] d[k]) by {
            assert(d[k] == ps[k]);
        }
        lemma_parse_wf(d, relative, parameters);
        let acc = parse_pieces(d, relative, parameters)->Ok_0;
        let piece = ps.last();
        assert(no_slash(ps[ps.len() - 1]));
        let m = parse_pieces(ps, relative, parameters)->Ok_0;
        // no continuation can stand anywhere but at the end of `acc`
        if !(piece.len() == 0 || piece == seq!['.']) {
            assert(!(acc.len() > 0 && acc.last() is Continuation));
            assert forall|i: int| 0 <= i < acc.len() implies !(acc[i] is Continuation) by {
                assert(wf_at(acc, i, relative, parameters));
            }
        }
        if piece == seq!['.', '.'] && acc.len() > 0 && acc.last() is Static {
            lemma_wf_drop_last(acc, relative, parameters);
        } else {
            assert forall|i: int| 0 <= i < m.len() implies #[trigger] wf_at(m, i, relative, parameters) by {
                if i < acc.len() {
                    assert(wf_at(acc, i, relative, parameters));
                    assert(m[i] == acc[i]);
                    if i > 0 {
                        assert(m[i - 1] == acc[i - 1]);
                    }
                } else {
                    if i > 0 {
                        assert(m[i - 1] == acc[i - 1]);
                        assert(acc.last() == acc[i - 1]);
                    }
                }
            }
        }
    }
}

/// The text of well-formed segments: `/` alone when there are none.
pub open spec fn absolute_text(segs: Seq<SegmentModel>) -> Seq<char> {
    if segs.len() == 0 {
        seq!['/']
    } else {
        joined(segs)
    }
}

/// Reading back the absolute text of well-formed segments gives them back.
pub proof fn lemma_absolute_text_round_trip(segs: Seq<SegmentModel>, relative: bool, parameters: bool)
    requires
        wf_segments(segs, relative, parameters),
    ensures
        parse_text(absolute_text(segs), relative, parameters) == Ok::<
            Seq<SegmentModel>,
            GrammarError,
        >(segs),
{
    let e = Seq::<char>::empty();
    if segs.len() == 0 {
        assert(seq!['/'] =~= e + seq!['/'] + e);
        lemma_split_append(e, e);
        lemma_split_single(e);
        assert(segs =~= Seq::<SegmentModel>::empty());
        assert(split_slash(absolute_text(segs)) =~= seq![e, e]);
        assert(seq![e, e].drop_last() =~= seq![e]);
        assert(seq![e].drop_last() =~= Seq::<Seq<char>>::empty());
        assert(parse_pieces(Seq::<Seq<char>>::empty(), relative, parameters) == Ok::<
            Seq<SegmentModel>,
            GrammarError,
        >(Seq::empty()));
        assert(parse_pieces(seq![e], relative, parameters) == Ok::<Seq<SegmentModel>, GrammarError>(Seq::empty()));
        assert(parse_pieces(seq![e, e], relative, parameters) == Ok::<Seq<SegmentModel>, GrammarError>(Seq::empty()));
    } else {
        assert(e + joined(segs) =~= joined(segs));
        lemma_split_joined(e, segs, relative, parameters);
        lemma_parse_texts(e, segs, relative, parameters);
    }
}

/// Reading back `.` followed by the joined well-formed segments gives them back.
pub proof fn lemma_relative_text_round_trip(segs: Seq<SegmentModel>, relative: bool, parameters: bool)
    requires
        wf_segments(segs, relative, parameters),
    ensures
        parse_text(seq!['.'] + joined(segs), relative, parameters) == Ok::<
            Seq<SegmentModel>,
            GrammarError,
        >(segs),
{
    lemma_split_joined(seq!['.'], segs, relative, parameters);
    lemma_parse_texts(seq!['.'], segs, relative, parameters);
}

/// What `parse_text` reads is well formed.
pub proof fn lemma_parse_text_wf(s: Seq<char>, relative: bool, parameters: bool)
    requires
        parse_text(s, relative, parameters) is Ok,
    ensures
        wf_segments(parse_text(s, relative, parameters)->Ok_0, relative, parameters),
{
    lemma_split_no_slash(s);
    lemma_parse_wf(split_slash(s), relative, parameters);
}

} // verus!
