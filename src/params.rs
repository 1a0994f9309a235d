use vstd::prelude::*;

verus! {

/// The map that a list of `(name, value)` entries stands for: a later entry
/// overrides an earlier one with the same name.
pub open spec fn entries_map(s: Seq<(String, String)>) -> Map<Seq<char>, Seq<char>>
    decreases s.len(),
{
    if s.len() == 0 {
        Map::empty()
    } else {
        entries_map(s.drop_last()).insert(s.last().0@, s.last().1@)
    }
}

proof fn lemma_entries_tail(s: Seq<(String, String)>, i: int, k: Seq<char>)
    requires
        0 <= i <= s.len(),
        forall|j: int| i <= j < s.len() ==> (#[trigger] s[j]).0@ != k,
    ensures
        entries_map(s).contains_key(k) == entries_map(s.take(i)).contains_key(k),
        entries_map(s).contains_key(k) ==> entries_map(s)[k] == entries_map(s.take(i))[k],
    decreases s.len() - i,
{
    if i < s.len() {
        let d = s.drop_last();
        assert(d.take(i) =~= s.take(i));
        assert forall|j: int| i <= j < d.len() implies (#[trigger] d[j]).0@ != k by {
            assert(d[j] == s[j]);
        }
        lemma_entries_tail(d, i, k);
        assert(s.last() == s[s.len() - 1]);
    } else {
        assert(s.take(i) =~= s);
    }
}

proof fn lemma_entries_dom(s: Seq<(String, String)>, k: Seq<char>)
    requires
        entries_map(s).contains_key(k),
    ensures
        exists|j: int| 0 <= j < s.len() && (#[trigger] s[j]).0@ == k,
    decreases s.len(),
{
    let d = s.drop_last();
    if s.last().0@ == k {
        assert(s[s.len() - 1].0@ == k);
    } else {
        lemma_entries_dom(d, k);
        let j = choose|j: int| 0 <= j < d.len() && (#[trigger] d[j]).0@ == k;
        assert(s[j] == d[j]);
    }
}

/// Values captured by name, a later capture of a name overriding an earlier one.
#[derive(Clone, Debug)]
pub struct Params {
    entries: Vec<(String, String)>,
}

impl View for Params {
    type V = Map<Seq<char>, Seq<char>>;

    closed spec fn view(&self) -> Map<Seq<char>, Seq<char>> {
        entries_map(self.entries@)
    }
}

/// Pushes copies of `src`'s entries onto `dst`.
fn append_entries(dst: &mut Vec<(String, String)>, src: &Vec<(String, String)>)
    ensures
        entries_map(final(dst)@) == entries_map(old(dst)@).union_prefer_right(entries_map(src@)),
{
    let ghost start = dst@;
    let mut i: usize = 0;
    proof {
        assert(src@.take(0) =~= Seq::<(String, String)>::empty());
        assert(entries_map(start).union_prefer_right(entries_map(src@.take(0))) =~= entries_map(
            start,
        ));
    }
    while i < src.len()
        invariant
            i <= src@.len(),
            entries_map(dst@) == entries_map(start).union_prefer_right(
                entries_map(src@.take(i as int)),
            ),
        decreases src@.len() - i,
    {
        let ghost prev = dst@;
        let k = src[i].0.clone();
        let v = src[i].1.clone();
        dst.push((k, v));
        proof {
            assert(dst@.drop_last() =~= prev);
            assert(src@.take(i + 1).drop_last() =~= src@.take(i as int));
            assert(src@.take(i + 1).last() == src@[i as int]);
            assert(entries_map(dst@) =~= entries_map(start).union_prefer_right(
                entries_map(src@.take(i + 1)),
            ));
        }
        i = i + 1;
    }
    proof {
        assert(src@.take(src@.len() as int) =~= src@);
    }
}

impl Params {
    /// No captured values.
    pub fn new() -> (r: Params)
        ensures
            r@ == Map::<Seq<char>, Seq<char>>::empty(),
    {
        Params { entries: Vec::new() }
    }

    /// The value captured under `k`.
    pub fn get(&self, k: &str) -> (r: Option<&String>)
        ensures
            r is Some == self@.contains_key(k@),
            r is Some ==> r->Some_0@ == self@[k@],
    {
        let key = k.to_owned();
        let s = &self.entries;
        let mut i: usize = s.len();
        while i > 0
            invariant
                i <= s@.len(),
                s@ == self.entries@,
                key@ == k@,
                forall|j: int| i <= j < s@.len() ==> (#[trigger] s@[j]).0@ != k@,
            decreases i,
        {
            if s[i - 1].0 == key {
                proof {
                    lemma_entries_tail(s@, i as int, k@);
                    assert(s@.take(i as int).drop_last() =~= s@.take(i - 1));
                    assert(s@.take(i as int).last() == s@[i - 1]);
                    assert(entries_map(s@.take(i as int)) == entries_map(s@.take(i - 1)).insert(
                        s@[i - 1].0@,
                        s@[i - 1].1@,
                    ));
                    assert(s@[i - 1].0@ == k@);
                }
                return Some(&s[i - 1].1);
            }
            i = i - 1;
        }
        proof {
            lemma_entries_tail(s@, 0, k@);
            assert(s@.take(0) =~= Seq::<(String, String)>::empty());
        }
        None
    }

    /// Captures `v` under `k`, overriding an earlier value.
    pub fn insert(&mut self, k: &str, v: &str)
        ensures
            final(self)@ == old(self)@.insert(k@, v@),
    {
        let ghost prev = self.entries@;
        self.entries.push((k.to_owned(), v.to_owned()));
        proof {
            assert(self.entries@.drop_last() =~= prev);
        }
    }

    /// A copy with the same values.
    pub fn duplicate(&self) -> (r: Params)
        ensures
            r@ == self@,
    {
        let mut entries: Vec<(String, String)> = Vec::new();
        append_entries(&mut entries, &self.entries);
        proof {
            assert(entries_map(Seq::<(String, String)>::empty()).union_prefer_right(self@) =~= self@);
        }
        Params { entries }
    }

    /// These values with those of `inner` on top: on a name that both hold,
    /// `inner`'s value is kept.
    pub fn merged(&self, inner: &Params) -> (r: Params)
        ensures
            r@ == self@.union_prefer_right(inner@),
    {
        let mut r = self.duplicate();
        append_entries(&mut r.entries, &inner.entries);
        r
    }

    /// Whether both hold `k` with the same value, or neither holds it.
    fn agrees_on(&self, other: &Params, k: &str) -> (r: bool)
        ensures
            r == (self@.contains_key(k@) == other@.contains_key(k@) && (self@.contains_key(k@)
                ==> self@[k@] == other@[k@])),
    {
        match (self.get(k), other.get(k)) {
            (Some(a), Some(b)) => *a == *b,
            (None, None) => true,
            _ => false,
        }
    }

    /// Whether `self` agrees with `other` on every name that `self` holds.
    fn agrees_with(&self, other: &Params) -> (r: bool)
        ensures
            r == (forall|k: Seq<char>| #[trigger]
                self@.contains_key(k) ==> other@.contains_key(k) && self@[k] == other@[k]),
    {
        let s = &self.entries;
        let mut i: usize = 0;
        while i < s.len()
            invariant
                i <= s@.len(),
                s@ == self.entries@,
                forall|j: int|
                    0 <= j < i ==> self@.contains_key((#[trigger] s@[j]).0@) == other@.contains_key(
                        s@[j].0@,
                    ) && (self@.contains_key(s@[j].0@) ==> self@[s@[j].0@] == other@[s@[j].0@]),
            decreases s@.len() - i,
        {
            if !self.agrees_on(other, s[i].0.as_str()) {
                proof {
                    let k = s@[i as int].0@;
                    lemma_entries_keeps(s@, i as int, k);
                    assert(self@.contains_key(k));
                }
                return false;
            }
            i = i + 1;
        }
        proof {
            assert forall|k: Seq<char>| #[trigger]
                self@.contains_key(k) implies other@.contains_key(k) && self@[k] == other@[k] by {
                lemma_entries_dom(s@, k);
            }
        }
        true
    }

    /// Whether both hold the same names with the same values.
    pub fn equals(&self, other: &Params) -> (r: bool)
        ensures
            r == (self@ == other@),
    {
        let a = self.agrees_with(other);
        let b = other.agrees_with(self);
        proof {
            if a && b {
                assert(self@ =~= other@);
            }
        }
        a && b
    }
}

/// Equal when both hold the same names with the same values, whatever the
/// order in which they were captured.
impl PartialEq for Params {
    fn eq(&self, other: &Params) -> bool {
        self.equals(other)
    }
}

impl vstd::std_specs::cmp::PartialEqSpecImpl for Params {
    open spec fn obeys_eq_spec() -> bool {
        true
    }

    open spec fn eq_spec(&self, other: &Params) -> bool {
        self@ == other@
    }
}

/// A name that some entry at or after `j` holds stays in the map.
proof fn lemma_entries_keeps(s: Seq<(String, String)>, j: int, k: Seq<char>)
    requires
        0 <= j < s.len(),
        s[j].0@ == k,
    ensures
        entries_map(s).contains_key(k),
    decreases s.len(),
{
    if j < s.len() - 1 {
        lemma_entries_keeps(s.drop_last(), j, k);
    }
}

} // verus!
