//! An exact set of strings. It serves two roles: as the suffix-diversity
//! estimator of a score (`insert`, `merge` as set union, `len` as the exact
//! estimate) and as the persisted set of accepted nouns.

use vstd::prelude::*;

verus! {

broadcast use Seq::lemma_index_contains;

/// The views of a sequence of strings.
pub open spec fn str_views(s: Seq<String>) -> Seq<Seq<char>> {
    s.map_values(|x: String| x@)
}

/// A pushed element lands in the sequence's set.
pub proof fn lemma_to_set_push<A>(s: Seq<A>, x: A)
    ensures
        s.push(x).to_set() == s.to_set().insert(x),
{
    assert forall|y: A| s.push(x).to_set().contains(y) implies s.to_set().insert(x).contains(
        y,
    ) by {
        let j = choose|j: int| 0 <= j < s.push(x).len() && #[trigger] s.push(x)[j] == y;
        if j < s.len() {
            assert(s[j] == y);
            assert(s.contains(y));
        }
    }
    assert forall|y: A| s.to_set().insert(x).contains(y) implies s.push(x).to_set().contains(
        y,
    ) by {
        if y == x {
            assert(s.push(x)[s.len() as int] == y);
        } else {
            let j = choose|j: int| 0 <= j < s.len() && #[trigger] s[j] == y;
            assert(s.push(x)[j] == y);
        }
        assert(s.push(x).contains(y));
    }
    assert(s.push(x).to_set() =~= s.to_set().insert(x));
}

/// A set of strings, kept as a vector without duplicates. Its mathematical
/// content is the set of character sequences it holds.
pub struct StrSet {
    items: Vec<String>,
}

impl View for StrSet {
    type V = Set<Seq<char>>;

    closed spec fn view(&self) -> Set<Seq<char>> {
        str_views(self.items@).to_set()
    }
}

impl StrSet {
    /// Well-formedness: no string occurs twice.
    pub closed spec fn inv(&self) -> bool {
        str_views(self.items@).no_duplicates()
    }

    /// The members in insertion order.
    pub closed spec fn item_views(&self) -> Seq<Seq<char>> {
        str_views(self.items@)
    }

    /// The empty set.
    pub fn new() -> (r: StrSet)
        ensures
            r.inv(),
            r@ == Set::<Seq<char>>::empty(),
            r.item_views() == Seq::<Seq<char>>::empty(),
    {
        let r = StrSet { items: Vec::new() };
        proof {
            assert(str_views(r.items@) =~= Seq::<Seq<char>>::empty());
            assert(r@ =~= Set::<Seq<char>>::empty());
        }
        r
    }

    fn find(&self, s: &String) -> (r: Option<usize>)
        ensures
            match r {
                Some(i) => i < self.items@.len() && self.items@[i as int]@ == s@,
                None => forall|j: int| 0 <= j < self.items@.len() ==> self.items@[j]@ != s@,
            },
    {
        let n = self.items.len();
        let mut i: usize = 0;
        while i < n
            invariant
                i <= n,
                n == self.items@.len(),
                forall|j: int| 0 <= j < i ==> self.items@[j]@ != s@,
            decreases n - i,
        {
            if self.items[i].eq(s) {
                return Some(i);
            }
            i = i + 1;
        }
        None
    }

    /// Whether the set holds this string.
    pub fn contains(&self, s: &String) -> (r: bool)
        ensures
            r == self@.contains(s@),
    {
        let found = self.find(s);
        proof {
            if found is Some {
                assert(str_views(self.items@)[found->Some_0 as int] == s@);
                assert(str_views(self.items@).contains(s@));
            } else {
                assert(forall|j: int|
                    0 <= j < str_views(self.items@).len() ==> str_views(self.items@)[j] != s@);
                assert(!str_views(self.items@).contains(s@));
            }
        }
        found.is_some()
    }

    /// Adds a string; adding a member changes nothing.
    pub fn insert(&mut self, s: String)
        requires
            old(self).inv(),
        ensures
            final(self).inv(),
            final(self)@ == old(self)@.insert(s@),
            old(self)@.contains(s@) ==> final(self).item_views() == old(self).item_views(),
            !old(self)@.contains(s@) ==> final(self).item_views() == old(self).item_views().push(
                s@,
            ),
    {
        let ghost pre = self.items@;
        let ghost vs = str_views(pre);
        match self.find(&s) {
            Some(i) => {
                proof {
                    assert(vs[i as int] == s@);
                    assert(vs.contains(s@));
                    assert(self@ =~= old(self)@.insert(s@));
                }
            },
            None => {
                self.items.push(s);
                proof {
                    assert(str_views(self.items@) =~= vs.push(s@));
                    assert(forall|j: int| 0 <= j < vs.len() ==> vs[j] != s@);
                    assert(vs.push(s@).no_duplicates());
                    lemma_to_set_push(vs, s@);
                }
            },
        }
    }

    /// Removes a string; removing a non-member changes nothing.
    pub fn remove(&mut self, s: &String)
        requires
            old(self).inv(),
        ensures
            final(self).inv(),
            final(self)@ == old(self)@.remove(s@),
    {
        let ghost pre = self.items@;
        match self.find(s) {
            Some(i) => {
                self.items.remove(i);
                proof {
                    let vs = str_views(pre);
                    assert(str_views(self.items@) =~= vs.remove(i as int));
                    let rs = vs.remove(i as int);
                    assert(rs.no_duplicates());
                    assert forall|y: Seq<char>| rs.to_set().contains(y) implies vs.to_set()
                        .remove(s@).contains(y) by {
                        let j = choose|j: int| 0 <= j < rs.len() && #[trigger] rs[j] == y;
                        let jj: int = if j < i {
                            j
                        } else {
                            j + 1
                        };
                        assert(vs[jj] == y);
                        assert(vs.contains(y));
                        assert(vs[jj] != vs[i as int]);
                        assert(y != s@);
                    }
                    assert forall|y: Seq<char>| vs.to_set().remove(s@).contains(y) implies rs
                        .to_set().contains(y) by {
                        let j = choose|j: int| 0 <= j < vs.len() && #[trigger] vs[j] == y;
                        assert(vs[i as int] == s@ && y != s@);
                        if j < i {
                            assert(rs[j] == y);
                        } else {
                            assert(rs[j - 1] == y);
                        }
                        assert(rs.contains(y));
                    }
                    assert(rs.to_set() =~= vs.to_set().remove(s@));
                }
            },
            None => {
                proof {
                    let vs = str_views(pre);
                    if vs.contains(s@) {
                        let j = choose|j: int| 0 <= j < vs.len() && #[trigger] vs[j] == s@;
                        assert(pre[j]@ == s@);
                        assert(false);
                    }
                    assert(self@ =~= old(self)@.remove(s@));
                }
            },
        }
    }

    /// How many strings the set holds.
    pub fn len(&self) -> (r: usize)
        requires
            self.inv(),
        ensures
            r == self@.len(),
    {
        proof {
            str_views(self.items@).unique_seq_to_set();
        }
        self.items.len()
    }

    /// Folds another set in: afterwards this set is the union of the two.
    pub fn merge(&mut self, o: &StrSet)
        requires
            old(self).inv(),
            o.inv(),
        ensures
            final(self).inv(),
            final(self)@ == old(self)@.union(o@),
    {
        let ghost ovs = str_views(o.items@);
        let n = o.items.len();
        let mut i: usize = 0;
        while i < n
            invariant
                i <= n,
                n == o.items@.len(),
                ovs == str_views(o.items@),
                self.inv(),
                self@ == old(self)@.union(ovs.subrange(0, i as int).to_set()),
            decreases n - i,
        {
            self.insert(o.items[i].clone());
            proof {
                assert(ovs.subrange(0, i + 1) =~= ovs.subrange(0, i as int).push(ovs[i as int]));
                lemma_to_set_push(ovs.subrange(0, i as int), ovs[i as int]);
                assert(self@ =~= old(self)@.union(ovs.subrange(0, i + 1).to_set()));
            }
            i = i + 1;
        }
        proof {
            assert(ovs.subrange(0, n as int) =~= ovs);
            assert(self@ =~= old(self)@.union(o@));
        }
    }

    /// An identical copy of the set.
    pub fn duplicate(&self) -> (r: StrSet)
        requires
            self.inv(),
        ensures
            r.inv(),
            r@ == self@,
    {
        let n = self.items.len();
        let mut items: Vec<String> = Vec::new();
        let mut i: usize = 0;
        while i < n
            invariant
                i <= n,
                n == self.items@.len(),
                items@.len() == i,
                forall|j: int| 0 <= j < i ==> (#[trigger] items@[j]) == self.items@[j],
            decreases n - i,
        {
            items.push(self.items[i].clone());
            i = i + 1;
        }
        proof {
            assert(items@ =~= self.items@);
        }
        StrSet { items }
    }

    /// The members, one vector element per member.
    pub fn items(&self) -> (r: &Vec<String>)
        requires
            self.inv(),
        ensures
            str_views(r@) == self.item_views(),
            str_views(r@).to_set() == self@,
            str_views(r@).no_duplicates(),
            r@.len() == self@.len(),
    {
        proof {
            str_views(self.items@).unique_seq_to_set();
        }
        &self.items
    }
}

} // verus!
