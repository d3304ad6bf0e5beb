use vstd::prelude::*;

verus! {

/// The mathematical content of a sequence of name/constant pairs, read left to
/// right.  A well-formed binding never holds two pairs for one name, so the
/// order of insertion cannot matter.
spec fn pairs_to_map(s: Seq<(String, String)>) -> Map<Seq<char>, Seq<char>>
    decreases s.len(),
{
    if s.len() == 0 {
        Map::empty()
    } else {
        pairs_to_map(s.drop_last()).insert(s.last().0@, s.last().1@)
    }
}

/// The map contains exactly the keys that occur in the pair sequence.
proof fn lemma_pairs_to_map_keys(s: Seq<(String, String)>)
    ensures
        forall|i: int| 0 <= i < s.len() ==> pairs_to_map(s).contains_key(#[trigger] s[i].0@),
        forall|x: Seq<char>| #[trigger]
            pairs_to_map(s).contains_key(x) ==> exists|i: int| 0 <= i < s.len() && s[i].0@ == x,
    decreases s.len(),
{
    if s.len() > 0 {
        let t = s.drop_last();
        lemma_pairs_to_map_keys(t);
        assert forall|i: int| 0 <= i < s.len() implies pairs_to_map(s).contains_key(
            #[trigger] s[i].0@,
        ) by {
            if i < s.len() - 1 {
                assert(t[i] == s[i]);
            }
        }
        assert forall|x: Seq<char>| #[trigger] pairs_to_map(s).contains_key(x) implies exists|i: int|
            0 <= i < s.len() && s[i].0@ == x by {
            if x == s.last().0@ {
                assert(s[s.len() - 1].0@ == x);
            } else {
                assert(pairs_to_map(t).contains_key(x));
                let i = choose|i: int| 0 <= i < t.len() && t[i].0@ == x;
                assert(t[i] == s[i]);
                assert(s[i].0@ == x);
            }
        }
    }
}

/// With no duplicate keys, each pair is mapped to its own constant.
proof fn lemma_pairs_to_map_values(s: Seq<(String, String)>)
    requires
        s.map_values(|p: (String, String)| p.0@).no_duplicates(),
    ensures
        forall|i: int|
            0 <= i < s.len() ==> pairs_to_map(s)[#[trigger] s[i].0@] == s[i].1@,
    decreases s.len(),
{
    if s.len() > 0 {
        let t = s.drop_last();
        let ks = s.map_values(|p: (String, String)| p.0@);
        assert(t.map_values(|p: (String, String)| p.0@) =~= ks.drop_last());
        lemma_pairs_to_map_values(t);
        assert forall|i: int| 0 <= i < s.len() implies pairs_to_map(s)[#[trigger] s[i].0@]
            == s[i].1@ by {
            if i < s.len() - 1 {
                assert(t[i] == s[i]);
                assert(ks[i] != ks[s.len() - 1]);
                assert(s[i].0@ != s.last().0@);
            }
        }
    }
}

/// A partial assignment of free-variable names to constants, grown while
/// matching the fact patterns of a rule body left to right.  Once a name is
/// bound it keeps its constant: the engine never rebinds a name.
pub struct Binding {
    pairs: Vec<(String, String)>,
}

impl View for Binding {
    type V = Map<Seq<char>, Seq<char>>;

    closed spec fn view(&self) -> Map<Seq<char>, Seq<char>> {
        pairs_to_map(self.pairs@)
    }
}

impl Binding {
    /// The names bound by the pairs, in order.
    spec fn key_views(&self) -> Seq<Seq<char>> {
        self.pairs@.map_values(|p: (String, String)| p.0@)
    }

    /// A binding is well formed when no name is bound twice.
    pub closed spec fn wf(&self) -> bool {
        self.key_views().no_duplicates()
    }

    /// The empty binding: no variable is bound.
    pub fn new() -> (b: Binding)
        ensures
            b@ == Map::<Seq<char>, Seq<char>>::empty(),
            b.wf(),
    {
        Binding { pairs: Vec::new() }
    }

    /// Looks a name up, returning its constant if the name is bound.
    pub fn get(&self, name: &String) -> (r: Option<&String>)
        requires
            self.wf(),
        ensures
            match r {
                Some(v) => self@.contains_key(name@) && self@[name@] == v@,
                None => !self@.contains_key(name@),
            },
    {
        proof {
            lemma_pairs_to_map_keys(self.pairs@);
            lemma_pairs_to_map_values(self.pairs@);
        }
        let n = self.pairs.len();
        let mut i: usize = 0;
        while i < n
            invariant
                self.wf(),
                n == self.pairs.len(),
                i <= n,
                forall|j: int| 0 <= j < i ==> self.pairs@[j].0@ != name@,
                forall|j: int|
                    0 <= j < self.pairs@.len() ==> pairs_to_map(self.pairs@).contains_key(
                        #[trigger] self.pairs@[j].0@,
                    ),
                forall|j: int|
                    0 <= j < self.pairs@.len() ==> pairs_to_map(self.pairs@)[
                        #[trigger] self.pairs@[j].0@
                    ] == self.pairs@[j].1@,
                forall|x: Seq<char>| #[trigger]
                    pairs_to_map(self.pairs@).contains_key(x) ==> exists|j: int|
                        0 <= j < self.pairs@.len() && self.pairs@[j].0@ == x,
            decreases n - i,
        {
            if self.pairs[i].0 == *name {
                return Some(&self.pairs[i].1);
            }
            i += 1;
        }
        None
    }

    /// Binds a fresh name to a constant.
    pub fn insert(&mut self, name: &String, value: &String)
        requires
            old(self).wf(),
            !old(self)@.contains_key(name@),
        ensures
            final(self).wf(),
            final(self)@ == old(self)@.insert(name@, value@),
    {
        proof {
            lemma_pairs_to_map_keys(self.pairs@);
        }
        let ghost olds = self.pairs@;
        let ghost oldks = self.key_views();
        self.pairs.push((name.clone(), value.clone()));
        proof {
            assert(self.pairs@.drop_last() =~= olds);
            assert(self.pairs@.last().0@ == name@);
            assert(self.pairs@.last().1@ == value@);
            assert forall|j: int| 0 <= j < olds.len() implies olds[j].0@ != name@ by {
                if olds[j].0@ == name@ {
                    assert(pairs_to_map(olds).contains_key(olds[j].0@));
                }
            }
            assert(self.key_views() =~= oldks.push(name@));
            assert forall|j: int, k: int|
                0 <= j < self.key_views().len() && 0 <= k < self.key_views().len() && j
                    != k implies self.key_views()[j] != self.key_views()[k] by {
                if j < oldks.len() && k < oldks.len() {
                    assert(oldks[j] != oldks[k]);
                } else if j < oldks.len() {
                    assert(oldks[j] == olds[j].0@);
                } else if k < oldks.len() {
                    assert(oldks[k] == olds[k].0@);
                }
            }
        }
    }

    /// The binding's pairs copied into a fresh value.
    pub fn duplicate(&self) -> (r: Binding)
        ensures
            r@ == self@,
            r.wf() == self.wf(),
    {
        let mut pairs: Vec<(String, String)> = Vec::new();
        let n = self.pairs.len();
        let mut i: usize = 0;
        while i < n
            invariant
                n == self.pairs.len(),
                i <= n,
                pairs@.len() == i as int,
                forall|j: int| 0 <= j < i ==> pairs@[j] == self.pairs@[j],
            decreases n - i,
        {
            let p = (self.pairs[i].0.clone(), self.pairs[i].1.clone());
            pairs.push(p);
            i += 1;
        }
        proof {
            assert(pairs@ =~= self.pairs@);
        }
        Binding { pairs }
    }
}

} // verus!
