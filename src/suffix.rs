//! The domain-suffix index: a trie over domain labels, top-level label first.
//! Reaching a terminal node covers every deeper label, so a registered domain
//! matches itself and all of its subdomains.
use crate::history::built_from;
use crate::labels::{
    domain_labels, is_prefix, lemma_labels_nonempty, lemma_prefix_refl, lemma_prefix_trans, split,
};
use vstd::prelude::*;

verus! {

/// `l` extends some path of `v`: a registered domain covers it.
pub open spec fn covers<A>(v: Set<Seq<A>>, l: Seq<A>) -> bool {
    exists|p: Seq<A>| #[trigger] v.contains(p) && is_prefix(p, l)
}

/// The paths of `v` that extend `p` (`p` itself included).
pub open spec fn below<A>(v: Set<Seq<A>>, p: Seq<A>) -> Set<Seq<A>> {
    v.filter(|q: Seq<A>| is_prefix(p, q))
}

/// No path of `v` is a proper prefix of another.
pub open spec fn prefix_free<A>(v: Set<Seq<A>>) -> bool {
    forall|p: Seq<A>, q: Seq<A>| #[trigger] v.contains(p) && #[trigger] v.contains(q) && is_prefix(p, q) ==> p == q
}

/// The registered paths after registering `l`: unchanged when a registered
/// path already covers `l`; otherwise every path that `l` covers is dropped
/// and `l` is added.
pub open spec fn insert_spec<A>(v: Set<Seq<A>>, l: Seq<A>) -> Set<Seq<A>> {
    if covers(v, l) {
        v
    } else {
        v.filter(|q: Seq<A>| !is_prefix(l, q)).insert(l)
    }
}

/// A node of the trie: `children` is `None` for a terminal node, which covers
/// everything below it. `count` is the number of registered domains at or
/// below the node.
struct Node<T> {
    children: Option<Vec<(T, usize)>>,
    count: usize,
}

/// The trie itself: nodes live in an arena and the root is node 0.
struct Trie<T: View> {
    nodes: Vec<Node<T>>,
    /// The node that each live label path leads to.
    paths: Ghost<Map<Seq<T::V>, nat>>,
}

impl<T: View> View for Trie<T> {
    type V = Set<Seq<T::V>>;

    /// The registered label paths: those that lead to a terminal node.
    closed spec fn view(&self) -> Set<Seq<T::V>> {
        Set::new(|p: Seq<T::V>| self.live(p) && self.nodes@[self.idx(p)].children is None)
    }
}

impl<T: View> Trie<T> {
    pub closed spec fn live(&self, p: Seq<T::V>) -> bool {
        self.paths@.contains_key(p)
    }

    closed spec fn idx(&self, p: Seq<T::V>) -> int {
        self.paths@[p] as int
    }

    closed spec fn kids(&self, i: int) -> Seq<(T, usize)> {
        self.nodes@[i].children.unwrap()@
    }

    closed spec fn has_child(&self, i: int, l: T::V, c: int) -> bool {
        &&& self.nodes@[i].children is Some
        &&& exists|k: int| 0 <= k < self.kids(i).len() && #[trigger] self.kids(i)[k].0@ == l && self.kids(i)[k].1 == c
    }

    closed spec fn wf_shape(&self) -> bool {
        &&& self.nodes@.len() > 0
        &&& self.paths@.dom().finite()
        &&& self.paths@.dom().len() <= self.nodes@.len()
        &&& self.live(Seq::empty()) && self.idx(Seq::empty()) == 0
        &&& self.nodes@[0].children is Some
        &&& forall|p: Seq<T::V>| #[trigger] self.live(p) ==> 0 <= self.idx(p) < self.nodes@.len()
        &&& forall|p: Seq<T::V>, q: Seq<T::V>|
            #[trigger] self.live(p) && #[trigger] self.live(q) && self.idx(p) == self.idx(q) ==> p == q
        &&& forall|p: Seq<T::V>| #[trigger] self.live(p) && p.len() > 0 ==> self.live(p.drop_last())
            && self.has_child(self.idx(p.drop_last()), p.last(), self.idx(p))
        &&& forall|p: Seq<T::V>, k: int|
            #![trigger self.live(p), self.kids(self.idx(p))[k]]
            self.live(p) && self.nodes@[self.idx(p)].children is Some && 0 <= k < self.kids(
                self.idx(p),
            ).len() ==> self.live(p.push(self.kids(self.idx(p))[k].0@)) && self.idx(
                p.push(self.kids(self.idx(p))[k].0@),
            ) == self.kids(self.idx(p))[k].1
        &&& forall|i: int, k1: int, k2: int|
            0 <= i < self.nodes@.len() && self.nodes@[i].children is Some && 0 <= k1 < self.kids(i).len()
                && 0 <= k2 < self.kids(i).len() && k1 != k2 ==> #[trigger] self.kids(i)[k1].0@
                != #[trigger] self.kids(i)[k2].0@
    }

    closed spec fn count_ok(&self, p: Seq<T::V>) -> bool {
        self.nodes@[self.idx(p)].count == below(self@, p).len()
    }

    /// The structure is a well-formed trie whose counts are exact.
    pub closed spec fn wf(&self) -> bool {
        &&& self.wf_shape()
        &&& forall|p: Seq<T::V>| #[trigger] self.live(p) ==> self.count_ok(p)
    }

    proof fn lemma_prefix_closed(&self, p: Seq<T::V>, j: int)
        requires
            self.wf_shape(),
            self.live(p),
            0 <= j <= p.len(),
        ensures
            self.live(p.subrange(0, j)),
        decreases p.len() - j,
    {
        if j < p.len() {
            assert(self.live(p.drop_last()));
            self.lemma_prefix_closed(p.drop_last(), j);
            assert(p.drop_last().subrange(0, j) == p.subrange(0, j));
        } else {
            assert(p.subrange(0, j) == p);
        }
    }

    proof fn lemma_view_facts(&self)
        requires
            self.wf_shape(),
        ensures
            self@.subset_of(self.paths@.dom()),
            self@.finite(),
            self@.len() <= self.nodes@.len(),
            prefix_free(self@),
    {
        assert(self@.subset_of(self.paths@.dom()));
        vstd::set_lib::lemma_len_subset(self@, self.paths@.dom());
        assert forall|p: Seq<T::V>, q: Seq<T::V>|
            #[trigger] self@.contains(p) && #[trigger] self@.contains(q) && is_prefix(p, q) implies p == q by {
            if p.len() < q.len() {
                let q1 = q.subrange(0, p.len() as int + 1);
                self.lemma_prefix_closed(q, p.len() as int + 1);
                assert(q1.drop_last() == p);
                assert(self.live(q1));
            } else {
                assert(q.subrange(0, p.len() as int) == q);
            }
        }
    }


    /// Adding a fresh internal child labelled `l` under the node of `p`
    /// keeps the trie well formed and leaves the registered paths unchanged.
    proof fn lemma_add_child(s0: &Self, s1: &Self, p: Seq<T::V>, l: T::V, lab: T, m: int)
        requires
            s0.wf(),
            s0.live(p),
            s0.nodes@[s0.idx(p)].children is Some,
            forall|k: int| 0 <= k < s0.kids(s0.idx(p)).len() ==> #[trigger] s0.kids(s0.idx(p))[k].0@ != l,
            lab@ == l,
            m == s0.nodes@.len(),
            m <= usize::MAX,
            s1.nodes@.len() == m + 1,
            s1.nodes@[m].children is Some,
            s1.kids(m).len() == 0,
            s1.nodes@[m].count == 0,
            forall|i: int| 0 <= i < m && i != s0.idx(p) ==> s1.nodes@[i] == s0.nodes@[i],
            s1.nodes@[s0.idx(p)].count == s0.nodes@[s0.idx(p)].count,
            s1.nodes@[s0.idx(p)].children is Some,
            s1.kids(s0.idx(p)) == s0.kids(s0.idx(p)).push((lab, m as usize)),
            s1.paths@ == s0.paths@.insert(p.push(l), m as nat),
        ensures
            s1.wf(),
            s1@ == s0@,
            s1.live(p.push(l)),
            s1.idx(p.push(l)) == m,
    {
        let cur = s0.idx(p);
        let np = p.push(l);
        assert(np.drop_last() == p);
        if s0.live(np) {
            assert(s0.has_child(cur, l, s0.idx(np)));
        }
        assert forall|x: Seq<T::V>| s1@.contains(x) <==> s0@.contains(x) by {
            if x != np && s0.live(x) {
                assert(s1.idx(x) == s0.idx(x));
                if s0.idx(x) != cur {
                    assert(s1.nodes@[s0.idx(x)] == s0.nodes@[s0.idx(x)]);
                }
            }
        }
        assert(s1@ =~= s0@);
        assert(s1.paths@.dom() =~= s0.paths@.dom().insert(np));
        assert(s1.has_child(cur, l, m)) by {
            let n = s0.kids(cur).len() as int;
            assert(s1.kids(cur)[n] == (lab, m as usize));
            assert(s1.kids(cur)[n].0@ == l);
        }
        assert forall|x: Seq<T::V>| #[trigger] s1.live(x) && x.len() > 0 implies s1.live(x.drop_last())
            && s1.has_child(s1.idx(x.drop_last()), x.last(), s1.idx(x)) by {
            if x != np {
                assert(s0.live(x));
                assert(s0.has_child(s0.idx(x.drop_last()), x.last(), s0.idx(x)));
                let pi = s0.idx(x.drop_last());
                let k = choose|k: int| 0 <= k < s0.kids(pi).len() && #[trigger] s0.kids(pi)[k].0@ == x.last()
                    && s0.kids(pi)[k].1 == s0.idx(x);
                assert(s1.kids(pi)[k] == s0.kids(pi)[k]);
            }
        }
        assert forall|x: Seq<T::V>, k: int|
            #![trigger s1.live(x), s1.kids(s1.idx(x))[k]]
            s1.live(x) && s1.nodes@[s1.idx(x)].children is Some && 0 <= k < s1.kids(s1.idx(x)).len()
                implies s1.live(x.push(s1.kids(s1.idx(x))[k].0@)) && s1.idx(x.push(s1.kids(s1.idx(x))[k].0@))
            == s1.kids(s1.idx(x))[k].1 by {
            if x != np {
                assert(s0.live(x));
                if s0.idx(x) == cur && k == s0.kids(cur).len() {
                    assert(x == p);
                } else {
                    assert(s1.kids(s1.idx(x))[k] == s0.kids(s0.idx(x))[k]);
                    assert(s0.live(x.push(s0.kids(s0.idx(x))[k].0@)));
                }
            }
        }
        assert forall|i: int, k1: int, k2: int|
            0 <= i < s1.nodes@.len() && s1.nodes@[i].children is Some && 0 <= k1 < s1.kids(i).len()
                && 0 <= k2 < s1.kids(i).len() && k1 != k2 implies #[trigger] s1.kids(i)[k1].0@
            != #[trigger] s1.kids(i)[k2].0@ by {
            if i == cur {
                let n = s0.kids(cur).len() as int;
                if k1 < n && k2 < n {
                    assert(s0.kids(i)[k1].0@ != s0.kids(i)[k2].0@);
                } else if k1 < n {
                    assert(s0.kids(cur)[k1].0@ != l);
                } else {
                    assert(s0.kids(cur)[k2].0@ != l);
                }
            } else if i < m {
                assert(s0.kids(i)[k1].0@ != s0.kids(i)[k2].0@);
            }
        }
        assert(s1.nodes@.len() > 0);
        assert(s1.paths@.dom().finite());
        assert(s1.paths@.dom().len() <= s1.nodes@.len());
        assert(s1.live(Seq::empty()) && s1.idx(Seq::empty()) == 0);
        assert(s1.nodes@[0].children is Some);
        assert forall|x: Seq<T::V>| #[trigger] s1.live(x) implies 0 <= s1.idx(x) < s1.nodes@.len() by {
            if x != np {
                assert(s0.live(x));
            }
        }
        assert forall|x: Seq<T::V>, y: Seq<T::V>|
            #[trigger] s1.live(x) && #[trigger] s1.live(y) && s1.idx(x) == s1.idx(y) implies x == y by {
            if x != np {
                assert(s0.live(x));
            }
            if y != np {
                assert(s0.live(y));
            }
        }
        assert forall|x: Seq<T::V>| #[trigger] s1.live(x) implies s1.count_ok(x) by {
            if x == np {
                assert forall|q: Seq<T::V>| #[trigger] s0@.contains(q) implies !is_prefix(np, q) by {
                    if is_prefix(np, q) {
                        s0.lemma_prefix_closed(q, np.len() as int);
                    }
                }
                assert(below(s1@, np) =~= Set::<Seq<T::V>>::empty());
            } else {
                assert(s0.live(x));
                assert(s1.idx(x) == s0.idx(x));
                assert(s0.count_ok(x));
                assert(s1.nodes@[s1.idx(x)].count == s0.nodes@[s0.idx(x)].count);
            }
        }
    }

    /// Making the node of `l` terminal and forgetting the paths below it
    /// registers `l`. The counts stay exact everywhere but on the proper
    /// prefixes of `l`, whose counts are still those of before.
    proof fn lemma_prune(s0: &Self, s1: &Self, l: Seq<T::V>)
        requires
            s0.wf(),
            s0.live(l),
            l.len() > 0,
            !covers(s0@, l),
            s1.nodes@ == s0.nodes@.update(s0.idx(l), s1.nodes@[s0.idx(l)]),
            s1.nodes@[s0.idx(l)].children is None,
            s1.nodes@[s0.idx(l)].count == 1,
            s1.paths@ == s0.paths@.restrict(
                s0.paths@.dom().filter(|x: Seq<T::V>| !(is_prefix(l, x) && x.len() > l.len())),
            ),
        ensures
            s1.wf_shape(),
            s1@ == insert_spec(s0@, l),
            forall|x: Seq<T::V>| #[trigger] s1.live(x) ==> if is_prefix(x, l) && x.len() < l.len() {
                s1.nodes@[s1.idx(x)].count == below(s0@, x).len()
                    && below(s1@, x).len() == below(s0@, x).len() - below(s0@, l).len() + 1
                    && below(s0@, l).len() <= below(s0@, x).len()
            } else {
                s1.count_ok(x)
            },
    {
        let cur = s0.idx(l);
        lemma_prefix_refl(l, l);
        s0.lemma_view_facts();
        assert(s0.idx(Seq::empty()) != cur);
        assert(!s0@.contains(l)) by {
            assert(is_prefix(l, l));
        }
        let v1 = s0@.filter(|q: Seq<T::V>| !is_prefix(l, q)).insert(l);
        assert(s1@ =~= v1) by {
            assert forall|q: Seq<T::V>| s1@.contains(q) <==> v1.contains(q) by {
                if q == l {
                    assert(is_prefix(l, l));
                } else if s0.live(q) {
                    if is_prefix(l, q) && q.len() == l.len() {
                        assert(q == q.subrange(0, l.len() as int));
                    }
                }
            }
        }
        assert forall|x: Seq<T::V>| #[trigger] s1.live(x) && x.len() > 0 implies s1.live(x.drop_last())
            && s1.has_child(s1.idx(x.drop_last()), x.last(), s1.idx(x)) by {
            assert(s0.live(x));
            let px = x.drop_last();
            assert(s0.live(px));
            if is_prefix(l, px) && px.len() >= l.len() {
                assert(x.subrange(0, l.len() as int) =~= px.subrange(0, l.len() as int));
            }
            assert(px != l);
            assert(s1.live(px));
            assert(s0.idx(px) != cur);
            assert(s1.nodes@[s0.idx(px)] == s0.nodes@[s0.idx(px)]);
            assert(s1.idx(px) == s0.idx(px));
            assert(s1.idx(x) == s0.idx(x));
            assert(s1.kids(s0.idx(px)) == s0.kids(s0.idx(px)));
            assert(s0.has_child(s0.idx(px), x.last(), s0.idx(x)));
        }
        assert forall|x: Seq<T::V>, k: int|
            #![trigger s1.live(x), s1.kids(s1.idx(x))[k]]
            s1.live(x) && s1.nodes@[s1.idx(x)].children is Some && 0 <= k < s1.kids(s1.idx(x)).len()
                implies s1.live(x.push(s1.kids(s1.idx(x))[k].0@)) && s1.idx(x.push(s1.kids(s1.idx(x))[k].0@))
            == s1.kids(s1.idx(x))[k].1 by {
            assert(s0.live(x));
            assert(x != l);
            let y = x.push(s0.kids(s0.idx(x))[k].0@);
            assert(s0.live(y));
            if is_prefix(l, y) && y.len() > l.len() {
                assert(y.drop_last() == x);
                assert(x.subrange(0, l.len() as int) == y.subrange(0, l.len() as int));
                if x.len() == l.len() {
                    assert(x == x.subrange(0, l.len() as int));
                }
            }
        }
        assert forall|i: int, k1: int, k2: int|
            0 <= i < s1.nodes@.len() && s1.nodes@[i].children is Some && 0 <= k1 < s1.kids(i).len()
                && 0 <= k2 < s1.kids(i).len() && k1 != k2 implies #[trigger] s1.kids(i)[k1].0@
            != #[trigger] s1.kids(i)[k2].0@ by {
            assert(s0.kids(i)[k1].0@ != s0.kids(i)[k2].0@);
        }
        assert(s1.paths@.dom().subset_of(s0.paths@.dom()));
        vstd::set_lib::lemma_len_subset(s1.paths@.dom(), s0.paths@.dom());
        assert(s1.live(Seq::empty())) by {
            assert(!is_prefix(l, Seq::<T::V>::empty()));
        }
        assert forall|x: Seq<T::V>| #[trigger] s1.live(x) implies 0 <= s1.idx(x) < s1.nodes@.len() by {
            assert(s0.live(x));
        }
        assert forall|x: Seq<T::V>, y: Seq<T::V>|
            #[trigger] s1.live(x) && #[trigger] s1.live(y) && s1.idx(x) == s1.idx(y) implies x == y by {
            assert(s0.live(x));
            assert(s0.live(y));
        }
        assert(s1.wf_shape());
        assert forall|x: Seq<T::V>| #[trigger] s1.live(x) implies if is_prefix(x, l) && x.len() < l.len() {
            s1.nodes@[s1.idx(x)].count == below(s0@, x).len() && below(s1@, x).len() == below(s0@, x).len()
                - below(s0@, l).len() + 1 && below(s0@, l).len() <= below(s0@, x).len()
        } else {
            s1.count_ok(x)
        } by {
            assert(s0.live(x));
            assert(s0.count_ok(x));
            let a = below(s0@, x);
            let b = below(s0@, l);
            if is_prefix(x, l) && x.len() < l.len() {
                assert(b.subset_of(a)) by {
                    assert forall|q: Seq<T::V>| #[trigger] b.contains(q) implies a.contains(q) by {
                        assert(q.subrange(0, x.len() as int) == l.subrange(0, x.len() as int));
                    }
                }
                vstd::set_lib::lemma_len_subset(b, a);
                assert(a.intersect(b) =~= b);
                vstd::set_lib::lemma_set_difference_len(a, b);
                assert(!a.contains(l));
                assert(below(s1@, x) =~= a.difference(b).insert(l)) by {
                    assert(is_prefix(x, l));
                }
            } else if x == l {
                assert(below(s1@, l) =~= set![l]) by {
                    assert(is_prefix(l, l));
                }
            } else {
                assert(below(s1@, x) =~= a) by {
                    assert forall|q: Seq<T::V>| #[trigger] a.contains(q) implies !is_prefix(l, q) by {
                        if is_prefix(l, q) {
                            if x.len() <= l.len() {
                                assert(l.subrange(0, x.len() as int) == q.subrange(0, x.len() as int));
                                lemma_prefix_refl(x, l);
                            } else {
                                assert(x.subrange(0, l.len() as int) == q.subrange(0, l.len() as int));
                            }
                        }
                    }
                    lemma_prefix_refl(x, l);
                }
            }
        }
    }


    /// Two tries with the same paths and the same children differ at most in
    /// their counts.
    proof fn lemma_same_shape(s1: &Self, s2: &Self)
        requires
            s1.wf_shape(),
            s2.paths@ == s1.paths@,
            s2.nodes@.len() == s1.nodes@.len(),
            forall|i: int| 0 <= i < s1.nodes@.len() ==> #[trigger] s2.nodes@[i].children == s1.nodes@[i].children,
        ensures
            s2.wf_shape(),
            s2@ == s1@,
    {
        assert forall|i: int| 0 <= i < s1.nodes@.len() implies #[trigger] s2.kids(i) == s1.kids(i) by {
            assert(s2.nodes@[i].children == s1.nodes@[i].children);
        }
        assert forall|p: Seq<T::V>| #[trigger] s2.live(p) && p.len() > 0 implies s2.live(p.drop_last()) && s2.has_child(
            s2.idx(p.drop_last()),
            p.last(),
            s2.idx(p),
        ) by {
            assert(s1.live(p));
            assert(s1.live(p.drop_last()));
            let i = s1.idx(p.drop_last());
            assert(s1.has_child(i, p.last(), s1.idx(p)));
            assert(s2.nodes@[i].children == s1.nodes@[i].children);
            assert(s2.kids(i) == s1.kids(i));
        }
        assert forall|p: Seq<T::V>| s2@.contains(p) <==> s1@.contains(p) by {
            if s1.live(p) {
                assert(s2.nodes@[s1.idx(p)].children == s1.nodes@[s1.idx(p)].children);
            }
        }
        assert(s2@ =~= s1@);
        assert(s2.nodes@[0].children == s1.nodes@[0].children);
        assert(s2.nodes@.len() > 0);
        assert(s2.paths@.dom().finite());
        assert(s2.paths@.dom().len() <= s2.nodes@.len());
        assert(s2.live(Seq::empty()) && s2.idx(Seq::empty()) == 0);
        assert forall|p: Seq<T::V>| #[trigger] s2.live(p) implies 0 <= s2.idx(p) < s2.nodes@.len() by {
            assert(s1.live(p));
        }
        assert forall|p: Seq<T::V>, q: Seq<T::V>|
            #[trigger] s2.live(p) && #[trigger] s2.live(q) && s2.idx(p) == s2.idx(q) implies p == q by {
            assert(s1.live(p) && s1.live(q));
        }
        assert forall|p: Seq<T::V>, k: int|
            #![trigger s2.live(p), s2.kids(s2.idx(p))[k]]
            s2.live(p) && s2.nodes@[s2.idx(p)].children is Some && 0 <= k < s2.kids(s2.idx(p)).len()
                implies s2.live(p.push(s2.kids(s2.idx(p))[k].0@)) && s2.idx(p.push(s2.kids(s2.idx(p))[k].0@))
            == s2.kids(s2.idx(p))[k].1 by {
            assert(s1.live(p));
            assert(s2.nodes@[s1.idx(p)].children == s1.nodes@[s1.idx(p)].children);
            assert(s2.kids(s1.idx(p)) == s1.kids(s1.idx(p)));
            assert(s1.live(p.push(s1.kids(s1.idx(p))[k].0@)));
        }
        assert forall|i: int, k1: int, k2: int|
            0 <= i < s2.nodes@.len() && s2.nodes@[i].children is Some && 0 <= k1 < s2.kids(i).len()
                && 0 <= k2 < s2.kids(i).len() && k1 != k2 implies #[trigger] s2.kids(i)[k1].0@
            != #[trigger] s2.kids(i)[k2].0@ by {
            assert(s2.kids(i) == s1.kids(i));
            assert(s1.kids(i)[k1].0@ != s1.kids(i)[k2].0@);
        }
    }


    /// A live path is shorter than the arena: its prefixes are distinct live
    /// paths.
    proof fn lemma_path_len(&self, p: Seq<T::V>)
        requires
            self.wf_shape(),
            self.live(p),
        ensures
            p.len() < self.nodes@.len(),
    {
        let x = vstd::set_lib::set_int_range(0, p.len() as int + 1);
        let f = |j: int| p.subrange(0, j);
        vstd::set_lib::lemma_int_range(0, p.len() as int + 1);
        assert forall|i: int, j: int| x.contains(i) && x.contains(j) && #[trigger] f(i) == #[trigger] f(j) implies i
            == j by {
            assert(f(i).len() == i);
            assert(f(j).len() == j);
        }
        let y = x.map(f);
        vstd::set_lib::lemma_map_size(x, y, f);
        assert forall|q: Seq<T::V>| y.contains(q) implies self.paths@.dom().contains(q) by {
            let j = choose|j: int| x.contains(j) && f(j) == q;
            self.lemma_prefix_closed(p, j);
        }
        vstd::set_lib::lemma_len_subset(y, self.paths@.dom());
    }

    /// Below an internal node, every registered path goes through a child.
    proof fn lemma_below_child(&self, p: Seq<T::V>, q: Seq<T::V>)
        requires
            self.wf_shape(),
            self.live(p),
            self.nodes@[self.idx(p)].children is Some,
            self@.contains(q),
            is_prefix(p, q),
        ensures
            q.len() > p.len(),
            is_prefix(p.push(q[p.len() as int]), q),
            self.has_child(self.idx(p), q[p.len() as int], self.idx(p.push(q[p.len() as int]))),
    {
        if q.len() == p.len() {
            lemma_prefix_refl(p, q);
        }
        let c = q.subrange(0, p.len() as int + 1);
        self.lemma_prefix_closed(q, p.len() as int + 1);
        assert(c =~= p.push(q[p.len() as int]));
        assert(c.drop_last() == p);
        assert(c.subrange(0, c.len() as int) =~= q.subrange(0, c.len() as int));
    }

    /// Nothing is registered below a path that is not live.
    proof fn lemma_below_dead(&self, p: Seq<T::V>)
        requires
            self.wf_shape(),
            !self.live(p),
        ensures
            below(self@, p) == Set::<Seq<T::V>>::empty(),
    {
        assert forall|q: Seq<T::V>| !#[trigger] below(self@, p).contains(q) by {
            if below(self@, p).contains(q) {
                self.lemma_prefix_closed(q, p.len() as int);
            }
        }
        assert(below(self@, p) =~= Set::<Seq<T::V>>::empty());
    }

    /// An empty index.
    pub fn new() -> (r: Self)
        ensures
            r.wf(),
            r@ == Set::<Seq<T::V>>::empty(),
    {
        let mut nodes: Vec<Node<T>> = Vec::new();
        nodes.push(Node { children: Some(Vec::new()), count: 0 });
        let ghost paths = Map::<Seq<T::V>, nat>::empty().insert(Seq::empty(), 0nat);
        let r = Trie { nodes, paths: Ghost(paths) };
        assert(r@ =~= Set::<Seq<T::V>>::empty());
        assert(r.paths@.dom() =~= set![Seq::<T::V>::empty()]);
        assert forall|p: Seq<T::V>| #[trigger] r.live(p) implies r.count_ok(p) by {
            assert(below(r@, p) =~= Set::<Seq<T::V>>::empty());
        }
        r
    }

    proof fn lemma_empty_below(&self)
        requires
            self.wf(),
        ensures
            self.live(Seq::empty()),
            self.idx(Seq::empty()) == 0,
            below(self@, Seq::empty()) == self@,
    {
        assert forall|q: Seq<T::V>| #[trigger] self@.contains(q) implies is_prefix(Seq::empty(), q) by {
            assert(q.subrange(0, 0) =~= Seq::<T::V>::empty());
        }
        assert(below(self@, Seq::empty()) =~= self@);
    }

    /// The number of registered domains, after pruning those that a shorter
    /// registered domain covers.
    pub fn len(&self) -> (r: usize)
        requires
            self.wf(),
        ensures
            r == self@.len(),
    {
        assert(self.live(Seq::empty()));
        assert forall|q: Seq<T::V>| #[trigger] self@.contains(q) implies is_prefix(Seq::empty(), q) by {
            assert(q.subrange(0, 0) =~= Seq::<T::V>::empty());
        }
        assert(below(self@, Seq::empty()) =~= self@);
        self.nodes[0].count
    }

    /// Whether the root itself is terminal, which holds only when the empty
    /// label path is registered.
    pub fn is_empty(&self) -> (r: bool)
        requires
            self.wf(),
        ensures
            r == self@.contains(Seq::empty()),
    {
        self.nodes[0].children.is_none()
    }
}

/// The position of the child labelled `label`, if there is one.
fn find_child(children: &Vec<(String, usize)>, label: &String) -> (r: Option<usize>)
    ensures
        r matches Some(k) ==> k < children@.len() && children@[k as int].0@ == label@,
        r is None ==> forall|k: int| 0 <= k < children@.len() ==> #[trigger] children@[k].0@ != label@,
{
    let mut k: usize = 0;
    while k < children.len()
        invariant
            k <= children@.len(),
            forall|j: int| 0 <= j < k ==> #[trigger] children@[j].0@ != label@,
        decreases children@.len() - k,
    {
        if children[k].0 == *label {
            return Some(k);
        }
        k = k + 1;
    }
    None
}

impl Trie<String> {
    /// Whether `domain` is a registered domain or a subdomain of one.
    pub fn matches(&self, domain: &str) -> (r: bool)
        requires
            self.wf(),
        ensures
            r == covers(self@, domain_labels(domain@)),
    {
        let parts = split(domain);
        let ghost ls = domain_labels(domain@);
        let mut cur: usize = 0;
        let mut i: usize = 0;
        proof {
            assert(ls.subrange(0, 0) =~= Seq::<Seq<char>>::empty());
        }
        while i < parts.len()
            invariant
                self.wf(),
                ls == domain_labels(domain@),
                parts@.map_values(|l: String| l@) == ls,
                i <= ls.len(),
                self.live(ls.subrange(0, i as int)),
                cur == self.idx(ls.subrange(0, i as int)),
                forall|j: int| 0 <= j < i ==> !#[trigger] self@.contains(ls.subrange(0, j)),
            decreases ls.len() - i,
        {
            assert(parts@[i as int]@ == ls[i as int]);
            match &self.nodes[cur].children {
                None => {
                    proof {
                        assert(self@.contains(ls.subrange(0, i as int)));
                        assert(is_prefix(ls.subrange(0, i as int), ls));
                    }
                    return true;
                },
                Some(ch) => {
                    let ghost p = ls.subrange(0, i as int);
                    match find_child(ch, &parts[i]) {
                        None => {
                            proof {
                                let q = ls.subrange(0, i as int + 1);
                                assert(q.drop_last() == p);
                                if self.live(q) {
                                    assert(self.has_child(self.idx(p), ls[i as int], self.idx(q)));
                                    let k = choose|k: int| 0 <= k < self.kids(cur as int).len()
                                        && #[trigger] self.kids(cur as int)[k].0@ == ls[i as int]
                                        && self.kids(cur as int)[k].1 == self.idx(q);
                                    assert(ch@[k].0@ == parts@[i as int]@);
                                }
                                assert forall|x: Seq<Seq<char>>| #[trigger] self@.contains(x)
                                    implies !is_prefix(x, ls) by {
                                    if is_prefix(x, ls) {
                                        if x.len() <= i {
                                            assert(x == ls.subrange(0, x.len() as int));
                                            if x.len() == i {
                                                assert(x == p);
                                            }
                                        } else {
                                            self.lemma_prefix_closed(x, i as int + 1);
                                            assert(x.subrange(0, i as int + 1) == q);
                                        }
                                    }
                                }
                            }
                            return false;
                        },
                        Some(k) => {
                            let c = ch[k].1;
                            proof {
                                assert(self.kids(cur as int)[k as int] == ch@[k as int]);
                                assert(p.push(ls[i as int]) == ls.subrange(0, i as int + 1));
                                assert(self.live(p.push(self.kids(self.idx(p))[k as int].0@)));
                            }
                            cur = c;
                        },
                    }
                },
            }
            i = i + 1;
        }
        let r = self.nodes[cur].children.is_none();
        proof {
            assert(ls.subrange(0, ls.len() as int) == ls);
            if r {
                assert(self@.contains(ls));
                assert(is_prefix(ls, ls));
            } else {
                assert forall|x: Seq<Seq<char>>| #[trigger] self@.contains(x) implies !is_prefix(x, ls) by {
                    if is_prefix(x, ls) {
                        assert(x == ls.subrange(0, x.len() as int));
                    }
                }
            }
        }
        r
    }

    /// Registers `domain`. Nothing changes when a registered domain already
    /// covers it; otherwise the registered domains that it covers are dropped
    /// in its favour.
    pub fn insert(&mut self, domain: &str)
        requires
            old(self).wf(),
        ensures
            final(self).wf(),
            final(self)@ == insert_spec(old(self)@, domain_labels(domain@)),
    {
        let parts = split(domain);
        let ghost ls = domain_labels(domain@);
        proof {
            lemma_labels_nonempty(domain@);
            assert(ls.subrange(0, 0) =~= Seq::<Seq<char>>::empty());
        }
        let mut cur: usize = 0;
        let mut i: usize = 0;
        let mut trail: Vec<usize> = Vec::new();
        while i < parts.len()
            invariant
                self.wf(),
                self@ == old(self)@,
                ls == domain_labels(domain@),
                ls.len() >= 1,
                parts@.map_values(|l: String| l@) == ls,
                i <= ls.len(),
                self.live(ls.subrange(0, i as int)),
                cur == self.idx(ls.subrange(0, i as int)),
                forall|j: int| 0 <= j < i ==> !#[trigger] self@.contains(ls.subrange(0, j)),
                trail@.len() == i,
                forall|j: int| 0 <= j < i ==> #[trigger] trail@[j] == self.idx(ls.subrange(0, j)),
            decreases ls.len() - i,
        {
            let ghost p = ls.subrange(0, i as int);
            assert(parts@[i as int]@ == ls[i as int]);
            assert(p.push(ls[i as int]) == ls.subrange(0, i as int + 1));
            let next: Option<usize> = match &self.nodes[cur].children {
                None => {
                    proof {
                        assert(self@.contains(p));
                        assert(is_prefix(p, ls));
                    }
                    return;
                },
                Some(ch) => match find_child(ch, &parts[i]) {
                    Some(k) => {
                        proof {
                            assert(self.kids(cur as int)[k as int] == ch@[k as int]);
                            assert(self.live(p.push(self.kids(self.idx(p))[k as int].0@)));
                        }
                        Some(ch[k].1)
                    },
                    None => {
                        proof {
                            assert forall|k: int| 0 <= k < self.kids(cur as int).len() implies #[trigger] self.kids(
                                cur as int,
                            )[k].0@ != ls[i as int] by {
                                assert(ch@[k].0@ != parts@[i as int]@);
                            }
                        }
                        None
                    },
                },
            };
            trail.push(cur);
            match next {
                Some(c) => {
                    cur = c;
                },
                None => {
                    let m = self.nodes.len();
                    let ghost s0 = *self;
                    let label = parts[i].clone();
                    let ghost lab = label;
                    self.nodes.push(Node { children: Some(Vec::new()), count: 0 });
                    match &mut self.nodes[cur].children {
                        Some(ch) => {
                            ch.push((label, m));
                        },
                        None => {},
                    }
                    self.paths = Ghost(self.paths@.insert(p.push(ls[i as int]), m as nat));
                    proof {
                        Self::lemma_add_child(&s0, self, p, ls[i as int], lab, m as int);
                        assert forall|j: int| 0 <= j < i implies #[trigger] trail@[j] == self.idx(
                            ls.subrange(0, j),
                        ) by {
                            assert(s0.live(ls.subrange(0, j))) by {
                                s0.lemma_prefix_closed(p, j);
                                assert(p.subrange(0, j) == ls.subrange(0, j));
                            }
                            assert(ls.subrange(0, j) != p.push(ls[i as int]));
                        }
                    }
                    cur = m;
                },
            }
            i = i + 1;
        }
        assert(ls.subrange(0, ls.len() as int) == ls);
        if self.nodes[cur].children.is_none() {
            proof {
                lemma_prefix_refl(ls, ls);
                assert(self@.contains(ls));
            }
            return;
        }
        let old_c = self.nodes[cur].count;
        let ghost s0 = *self;
        proof {
            assert forall|x: Seq<Seq<char>>| #[trigger] s0@.contains(x) implies !is_prefix(x, ls) by {
                if is_prefix(x, ls) {
                    assert(x == ls.subrange(0, x.len() as int));
                }
            }
        }
        self.nodes.set(cur, Node { children: None, count: 1 });
        self.paths = Ghost(
            self.paths@.restrict(
                self.paths@.dom().filter(|x: Seq<Seq<char>>| !(is_prefix(ls, x) && x.len() > ls.len())),
            ),
        );
        proof {
            Self::lemma_prune(&s0, self, ls);
            assert forall|k: int| 0 <= k < ls.len() implies self.live(#[trigger] ls.subrange(0, k))
                && trail@[k] == self.idx(ls.subrange(0, k)) by {
                s0.lemma_prefix_closed(ls, k);
                assert(!(is_prefix(ls, ls.subrange(0, k)) && k > ls.len()));
            }
        }
        let ghost s1 = *self;
        let mut j: usize = 0;
        while j < trail.len()
            invariant
                s1.wf_shape(),
                self.paths@ == s1.paths@,
                self.nodes@.len() == s1.nodes@.len(),
                forall|n: int| 0 <= n < s1.nodes@.len() ==> #[trigger] self.nodes@[n].children == s1.nodes@[n].children,
                s1@ == insert_spec(old(self)@, ls),
                s0@ == old(self)@,
                ls.len() >= 1,
                trail@.len() == ls.len(),
                j <= trail@.len(),
                old_c == below(s0@, ls).len(),
                forall|k: int| 0 <= k < ls.len() ==> s1.live(#[trigger] ls.subrange(0, k))
                    && trail@[k] == s1.idx(ls.subrange(0, k)),
                forall|x: Seq<Seq<char>>| #[trigger] s1.live(x) ==> if is_prefix(x, ls) && x.len() < ls.len() {
                    s1.nodes@[s1.idx(x)].count == below(s0@, x).len()
                        && below(s1@, x).len() == below(s0@, x).len() - below(s0@, ls).len() + 1
                        && below(s0@, ls).len() <= below(s0@, x).len()
                } else {
                    s1.count_ok(x)
                },
                forall|x: Seq<Seq<char>>| #[trigger] s1.live(x) ==> self.nodes@[s1.idx(x)].count == if is_prefix(
                    x,
                    ls,
                ) && j <= x.len() < ls.len() {
                    below(s0@, x).len()
                } else {
                    below(s1@, x).len()
                },
            decreases trail@.len() - j,
        {
            let a = trail[j];
            let ghost x = ls.subrange(0, j as int);
            proof {
                assert(is_prefix(x, ls));
                assert(s1.live(x));
                assert(s1.idx(x) == a);
                s1.lemma_view_facts();
                vstd::set_lib::lemma_len_subset(below(s1@, x), s1@);
            }
            let n = self.nodes.len();
            let c = self.nodes[a].count;
            self.nodes[a].count = c - old_c + 1;
            proof {
                assert forall|y: Seq<Seq<char>>| #[trigger] s1.live(y) implies self.nodes@[s1.idx(y)].count == if is_prefix(
                    y,
                    ls,
                ) && j + 1 <= y.len() < ls.len() {
                    below(s0@, y).len()
                } else {
                    below(s1@, y).len()
                } by {
                    if y != x {
                        assert(s1.idx(y) != a);
                        if is_prefix(y, ls) && y.len() == j {
                            assert(y == ls.subrange(0, j as int));
                        }
                    }
                }
            }
            j = j + 1;
        }
        proof {
            Self::lemma_same_shape(&s1, self);
            assert forall|x: Seq<Seq<char>>| #[trigger] self.live(x) implies self.count_ok(x) by {
                assert(s1.live(x));
                if is_prefix(x, ls) && x.len() == ls.len() {
                    lemma_prefix_refl(x, ls);
                }
            }
        }
    }
}

/// Equal sets below `p` stay equal below any extension of `p`.
proof fn lemma_below_narrow<A>(va: Set<Seq<A>>, vb: Set<Seq<A>>, p: Seq<A>, pl: Seq<A>)
    requires
        below(va, p) == below(vb, p),
        is_prefix(p, pl),
    ensures
        below(va, pl) == below(vb, pl),
{
    assert forall|q: Seq<A>| below(va, pl).contains(q) <==> below(vb, pl).contains(q) by {
        if is_prefix(pl, q) {
            lemma_prefix_trans(p, pl, q);
            assert(below(va, p).contains(q) == va.contains(q));
        }
    }
    assert(below(va, pl) =~= below(vb, pl));
}

/// A finite set with a nonzero size has an element.
proof fn lemma_nonempty<A>(s: Set<A>) -> (x: A)
    requires
        s.finite(),
        s.len() != 0,
    ensures
        s.contains(x),
{
    if s =~= Set::<A>::empty() {
        assert(s.len() == 0);
    }
    s.choose()
}

/// Whether the same paths are registered below `p` in `a` and in `b`.
fn same_below(a: &Trie<String>, ia: usize, b: &Trie<String>, ib: usize, Ghost(p): Ghost<Seq<Seq<char>>>) -> (r: bool)
    requires
        a.wf(),
        b.wf(),
        a.live(p),
        b.live(p),
        ia == a.idx(p),
        ib == b.idx(p),
    ensures
        r == (below(a@, p) == below(b@, p)),
    decreases a.nodes@.len() - p.len(),
{
    proof {
        a.lemma_path_len(p);
        a.lemma_view_facts();
        b.lemma_view_facts();
        lemma_prefix_refl(p, p);
    }
    match (&a.nodes[ia].children, &b.nodes[ib].children) {
        (None, None) => {
            proof {
                assert(a@.contains(p) && b@.contains(p));
                assert forall|q: Seq<Seq<char>>| below(a@, p).contains(q) implies q == p by {
                    assert(a@.contains(p));
                }
                assert forall|q: Seq<Seq<char>>| below(b@, p).contains(q) implies q == p by {
                    assert(b@.contains(p));
                }
                assert(below(a@, p) =~= set![p]);
                assert(below(b@, p) =~= set![p]);
            }
            true
        },
        (Some(ca), Some(cb)) => {
            let mut k: usize = 0;
            while k < ca.len()
                invariant
                    a.wf(),
                    b.wf(),
                    a.live(p),
                    b.live(p),
                    ia == a.idx(p),
                    ib == b.idx(p),
                    p.len() < a.nodes@.len(),
                    a.nodes@[ia as int].children == Some(*ca),
                    b.nodes@[ib as int].children == Some(*cb),
                    k <= ca@.len(),
                    forall|j: int| 0 <= j < k ==> below(a@, p.push(#[trigger] ca@[j].0@)) == below(b@, p.push(ca@[j].0@)),
                decreases ca@.len() - k,
            {
                let l = &ca[k].0;
                let c = ca[k].1;
                let ghost pl = p.push(l@);
                proof {
                    assert(a.kids(ia as int)[k as int] == ca@[k as int]);
                    assert(a.live(pl) && a.idx(pl) == c);
                    assert(is_prefix(p, pl)) by {
                        assert(pl.subrange(0, p.len() as int) =~= p);
                    }
                    a.lemma_view_facts();
                    vstd::set_lib::lemma_len_subset(below(a@, pl), a@);
                    assert(a.count_ok(pl));
                }
                match find_child(cb, l) {
                    Some(k2) => {
                        let c2 = cb[k2].1;
                        proof {
                            assert(b.kids(ib as int)[k2 as int] == cb@[k2 as int]);
                            assert(b.live(p.push(b.kids(b.idx(p))[k2 as int].0@)));
                        }
                        if !same_below(a, c, b, c2, Ghost(pl)) {
                            proof {
                                if below(a@, p) == below(b@, p) {
                                    lemma_below_narrow(a@, b@, p, pl);
                                }
                            }
                            return false;
                        }
                    },
                    None => {
                        proof {
                            if b.live(pl) {
                                assert(pl.drop_last() == p);
                                assert(b.has_child(ib as int, l@, b.idx(pl)));
                                let j = choose|j: int| 0 <= j < b.kids(ib as int).len() && #[trigger] b.kids(
                                    ib as int,
                                )[j].0@ == l@ && b.kids(ib as int)[j].1 == b.idx(pl);
                                assert(cb@[j].0@ != l@);
                            }
                            b.lemma_below_dead(pl);
                        }
                        if a.nodes[c].count != 0 {
                            proof {
                                let q = lemma_nonempty(below(a@, pl));
                                if below(a@, p) == below(b@, p) {
                                    lemma_below_narrow(a@, b@, p, pl);
                                }
                            }
                            return false;
                        }
                        proof {
                            if below(a@, pl).len() == 0 {
                                below(a@, pl).lemma_len0_is_empty();
                            }
                        }
                    },
                }
                k = k + 1;
            }
            let mut k: usize = 0;
            while k < cb.len()
                invariant
                    a.wf(),
                    b.wf(),
                    a.live(p),
                    b.live(p),
                    ia == a.idx(p),
                    ib == b.idx(p),
                    a.nodes@[ia as int].children == Some(*ca),
                    b.nodes@[ib as int].children == Some(*cb),
                    forall|j: int| 0 <= j < ca@.len() ==> below(a@, p.push(#[trigger] ca@[j].0@)) == below(b@, p.push(ca@[j].0@)),
                    k <= cb@.len(),
                    forall|j: int| 0 <= j < k ==> below(a@, p.push(#[trigger] cb@[j].0@)) == below(b@, p.push(cb@[j].0@)),
                decreases cb@.len() - k,
            {
                let l = &cb[k].0;
                let c = cb[k].1;
                let ghost pl = p.push(l@);
                proof {
                    assert(b.kids(ib as int)[k as int] == cb@[k as int]);
                    assert(b.live(pl) && b.idx(pl) == c);
                    assert(is_prefix(p, pl)) by {
                        assert(pl.subrange(0, p.len() as int) =~= p);
                    }
                    b.lemma_view_facts();
                    vstd::set_lib::lemma_len_subset(below(b@, pl), b@);
                    assert(b.count_ok(pl));
                }
                if find_child(ca, l).is_none() {
                    proof {
                        if a.live(pl) {
                            assert(pl.drop_last() == p);
                            assert(a.has_child(ia as int, l@, a.idx(pl)));
                            let j = choose|j: int| 0 <= j < a.kids(ia as int).len() && #[trigger] a.kids(
                                ia as int,
                            )[j].0@ == l@ && a.kids(ia as int)[j].1 == a.idx(pl);
                            assert(ca@[j].0@ != l@);
                        }
                        a.lemma_below_dead(pl);
                    }
                    if b.nodes[c].count != 0 {
                        proof {
                            let q = lemma_nonempty(below(b@, pl));
                            if below(a@, p) == below(b@, p) {
                                lemma_below_narrow(a@, b@, p, pl);
                            }
                        }
                        return false;
                    }
                    proof {
                        if below(b@, pl).len() == 0 {
                            below(b@, pl).lemma_len0_is_empty();
                        }
                    }
                }
                k = k + 1;
            }
            proof {
                assert forall|q: Seq<Seq<char>>| below(a@, p).contains(q) <==> below(b@, p).contains(q) by {
                    if below(a@, p).contains(q) {
                        a.lemma_below_child(p, q);
                        let l = q[p.len() as int];
                        let j = choose|j: int| 0 <= j < a.kids(ia as int).len() && #[trigger] a.kids(ia as int)[j].0@
                            == l && a.kids(ia as int)[j].1 == a.idx(p.push(l));
                        assert(ca@[j].0@ == l);
                        assert(below(a@, p.push(l)).contains(q));
                    }
                    if below(b@, p).contains(q) {
                        b.lemma_below_child(p, q);
                        let l = q[p.len() as int];
                        let j = choose|j: int| 0 <= j < b.kids(ib as int).len() && #[trigger] b.kids(ib as int)[j].0@
                            == l && b.kids(ib as int)[j].1 == b.idx(p.push(l));
                        assert(cb@[j].0@ == l);
                        assert(below(b@, p.push(l)).contains(q));
                    }
                }
                assert(below(a@, p) =~= below(b@, p));
            }
            true
        },
        _ => {
            proof {
                if a.nodes@[ia as int].children is None {
                    assert(below(a@, p).contains(p));
                } else {
                    assert(below(b@, p).contains(p));
                }
            }
            false
        },
    }
}

/// An index of registered domains, answering whether a name is a registered
/// domain or a subdomain of one.
pub struct SuffixTree<T: View> {
    trie: Trie<T>,
}

impl<T: View> View for SuffixTree<T> {
    type V = Set<Seq<T::V>>;

    /// The registered label paths, top-level label first.
    closed spec fn view(&self) -> Set<Seq<T::V>> {
        self.trie@
    }
}

impl<T: View> SuffixTree<T> {
    #[verifier::type_invariant]
    spec fn inv(self) -> bool {
        self.trie.wf()
    }

    /// An empty index.
    pub fn new() -> (r: Self)
        ensures
            r@ == Set::<Seq<T::V>>::empty(),
    {
        SuffixTree { trie: Trie::new() }
    }

    /// The number of registered domains, after pruning those that a shorter
    /// registered domain covers.
    pub fn len(&self) -> (r: usize)
        ensures
            r == self@.len(),
    {
        proof {
            use_type_invariant(self);
        }
        self.trie.len()
    }

    /// Whether the root itself is registered, which only the empty label
    /// path would do; an index never registers it.
    pub fn is_empty(&self) -> (r: bool)
        ensures
            r == self@.contains(Seq::empty()),
    {
        proof {
            use_type_invariant(self);
        }
        self.trie.is_empty()
    }
}

impl PartialEq for SuffixTree<String> {
    /// Whether both indexes register the same domains.
    fn eq(&self, other: &Self) -> (r: bool) {
        proof {
            use_type_invariant(self);
            use_type_invariant(other);
            self.trie.lemma_empty_below();
            other.trie.lemma_empty_below();
        }
        same_below(&self.trie, 0, &other.trie, 0, Ghost(Seq::empty()))
    }
}

impl vstd::std_specs::cmp::PartialEqSpecImpl for SuffixTree<String> {
    open spec fn obeys_eq_spec() -> bool {
        true
    }

    open spec fn eq_spec(&self, o: &SuffixTree<String>) -> bool {
        self@ == o@
    }
}

impl<T: View> Default for SuffixTree<T> {
    fn default() -> (r: Self)
        ensures
            r@ == Set::<Seq<T::V>>::empty(),
    {
        SuffixTree::new()
    }
}

impl SuffixTree<String> {
    /// Whether `domain` is a registered domain or a subdomain of one.
    pub fn matches(&self, domain: &str) -> (r: bool)
        ensures
            r == covers(self@, domain_labels(domain@)),
    {
        proof {
            use_type_invariant(self);
        }
        self.trie.matches(domain)
    }

    /// Registers `domain`. Nothing changes when a registered domain already
    /// covers it; otherwise the registered domains that it covers are dropped
    /// in its favour.
    pub fn insert(&mut self, domain: &str)
        ensures
            final(self)@ == insert_spec(old(self)@, domain_labels(domain@)),
    {
        proof {
            use_type_invariant(&*self);
        }
        let mut trie = Trie::new();
        std::mem::swap(&mut trie, &mut self.trie);
        trie.insert(domain);
        self.trie = trie;
    }

    /// The index of `domains`, inserted in order.
    pub fn from_domains(domains: &Vec<String>) -> (r: Self)
        ensures
            r@ == built_from(domains@.map_values(|d: String| d@)),
    {
        let mut r = SuffixTree::new();
        let mut i: usize = 0;
        let ghost ds = domains@.map_values(|d: String| d@);
        assert(ds.subrange(0, 0) =~= Seq::<Seq<char>>::empty());
        while i < domains.len()
            invariant
                i <= domains@.len(),
                ds == domains@.map_values(|d: String| d@),
                r@ == built_from(ds.subrange(0, i as int)),
            decreases domains@.len() - i,
        {
            r.insert(domains[i].as_str());
            assert(ds.subrange(0, i as int + 1).drop_last() =~= ds.subrange(0, i as int));
            i = i + 1;
        }
        assert(ds.subrange(0, i as int) =~= ds);
        r
    }
}

} // verus!
