//! Splitting a domain into its dot-separated labels, top-level label first.
use vstd::prelude::*;

verus! {

/// The labels of `s`, split at every '.', in reverse order: the label after
/// the last dot comes first. A string without dots is a single label, so the
/// result is never empty (the empty string is one empty label).
pub open spec fn domain_labels(s: Seq<char>) -> Seq<Seq<char>>
    decreases s.len(),
{
    if s.len() == 0 {
        seq![Seq::<char>::empty()]
    } else if s.last() == '.' {
        seq![Seq::<char>::empty()] + domain_labels(s.drop_last())
    } else {
        let r = domain_labels(s.drop_last());
        r.update(0, r[0].push(s.last()))
    }
}

/// `p` is a prefix of `q`.
pub open spec fn is_prefix<A>(p: Seq<A>, q: Seq<A>) -> bool {
    p.len() <= q.len() && q.subrange(0, p.len() as int) == p
}

/// Every sequence is a prefix of itself, and a prefix as long as the whole is
/// the whole.
pub proof fn lemma_prefix_refl<A>(p: Seq<A>, q: Seq<A>)
    ensures
        is_prefix(p, p),
        is_prefix(p, q) && p.len() == q.len() ==> p == q,
{
    assert(p.subrange(0, p.len() as int) =~= p);
    assert(q.subrange(0, q.len() as int) =~= q);
}

/// Being a prefix is transitive.
pub proof fn lemma_prefix_trans<A>(p: Seq<A>, q: Seq<A>, r: Seq<A>)
    requires
        is_prefix(p, q),
        is_prefix(q, r),
    ensures
        is_prefix(p, r),
{
    assert(r.subrange(0, p.len() as int) =~= q.subrange(0, p.len() as int));
}

pub proof fn lemma_labels_nonempty(s: Seq<char>)
    ensures
        domain_labels(s).len() >= 1,
    decreases s.len(),
{
    if s.len() > 0 {
        lemma_labels_nonempty(s.drop_last());
    }
}

/// Prepending labels to a domain appends them, reversed, after its own labels:
/// the labels of `pre + "." + d` are those of `d` followed by those of `pre`.
pub proof fn lemma_labels_of_subdomain(pre: Seq<char>, d: Seq<char>)
    ensures
        domain_labels(pre + seq!['.'] + d) == domain_labels(d) + domain_labels(pre),
    decreases d.len(),
{
    let e = pre + seq!['.'] + d;
    if d.len() == 0 {
        assert(e.drop_last() == pre);
        assert(domain_labels(d) == seq![Seq::<char>::empty()]);
    } else {
        let d0 = d.drop_last();
        assert(e.drop_last() == pre + seq!['.'] + d0);
        lemma_labels_of_subdomain(pre, d0);
        lemma_labels_nonempty(d0);
        if d.last() != '.' {
            let r = domain_labels(d0);
            assert(domain_labels(d) == r.update(0, r[0].push(d.last())));
            assert((r + domain_labels(pre)).update(0, r[0].push(d.last())) =~= r.update(
                0,
                r[0].push(d.last()),
            ) + domain_labels(pre));
        } else {
            assert(seq![Seq::<char>::empty()] + (domain_labels(d0) + domain_labels(pre))
                =~= seq![Seq::<char>::empty()] + domain_labels(d0) + domain_labels(pre));
        }
    }
}

/// `q` is `d` itself or `d` with one or more labels put in front of it.
pub open spec fn is_subdomain(q: Seq<char>, d: Seq<char>) -> bool {
    q == d || exists|pre: Seq<char>| q == #[trigger] (pre + seq!['.'] + d)
}

proof fn lemma_first_label_empty(q: Seq<char>)
    requires
        domain_labels(q)[0].len() == 0,
    ensures
        q.len() == 0 || q.last() == '.',
{
    if q.len() > 0 && q.last() != '.' {
        lemma_labels_nonempty(q.drop_last());
    }
}

/// The labels of `d` begin the labels of `q` only where `q` is `d` or a
/// subdomain of it.
pub proof fn lemma_label_prefix_is_subdomain(d: Seq<char>, q: Seq<char>)
    requires
        is_prefix(domain_labels(d), domain_labels(q)),
    ensures
        is_subdomain(q, d),
    decreases d.len(),
{
    let ld = domain_labels(d);
    let lq = domain_labels(q);
    lemma_labels_nonempty(d);
    lemma_labels_nonempty(q);
    assert(lq[0] == ld[0]);
    if d.len() == 0 {
        lemma_first_label_empty(q);
        if q.len() > 0 {
            assert(q =~= q.drop_last() + seq!['.'] + d);
        } else {
            assert(q =~= d);
        }
    } else {
        let d0 = d.drop_last();
        let c = d.last();
        lemma_labels_nonempty(d0);
        if c == '.' {
            lemma_first_label_empty(q);
            if q.len() == 0 {
                assert(lq.len() == 1);
            }
            let q0 = q.drop_last();
            assert(ld == seq![Seq::<char>::empty()] + domain_labels(d0));
            assert(lq == seq![Seq::<char>::empty()] + domain_labels(q0));
            assert(domain_labels(q0).subrange(0, domain_labels(d0).len() as int) =~= lq.subrange(
                1,
                ld.len() as int,
            ));
            assert(domain_labels(d0) =~= ld.subrange(1, ld.len() as int));
            assert(lq.subrange(1, ld.len() as int) =~= ld.subrange(1, ld.len() as int)) by {
                assert(lq.subrange(0, ld.len() as int) == ld);
                assert forall|j: int| 1 <= j < ld.len() implies lq[j] == ld[j] by {
                    assert(lq.subrange(0, ld.len() as int)[j] == lq[j]);
                }
            }
            lemma_label_prefix_is_subdomain(d0, q0);
            assert(q =~= q0.push('.'));
            assert(d =~= d0.push('.'));
            if q0 == d0 {
                assert(q =~= d);
            } else {
                let pre = choose|pre: Seq<char>| q0 == #[trigger] (pre + seq!['.'] + d0);
                assert(q =~= pre + seq!['.'] + d);
            }
        } else {
            let r = domain_labels(d0);
            assert(ld[0] == r[0].push(c));
            if q.len() == 0 || q.last() == '.' {
                if q.len() == 0 {
                    assert(lq[0] == Seq::<char>::empty());
                } else {
                    assert(lq[0] == Seq::<char>::empty());
                }
                assert(false);
            }
            let q0 = q.drop_last();
            let sq = domain_labels(q0);
            lemma_labels_nonempty(q0);
            assert(lq[0] == sq[0].push(q.last()));
            assert(q.last() == lq[0].last());
            assert(sq[0] =~= lq[0].drop_last());
            assert(r[0] =~= ld[0].drop_last());
            assert(lq.len() == sq.len() && ld.len() == r.len());
            assert forall|j: int| 1 <= j < r.len() implies sq[j] == r[j] by {
                assert(lq[j] == sq[j]);
                assert(ld[j] == r[j]);
                assert(lq.subrange(0, ld.len() as int)[j] == lq[j]);
            }
            assert(sq.subrange(0, r.len() as int) =~= r);
            lemma_label_prefix_is_subdomain(d0, q0);
            assert(q =~= q0.push(c));
            assert(d =~= d0.push(c));
            if q0 == d0 {
                assert(q =~= d);
            } else {
                let pre = choose|pre: Seq<char>| q0 == #[trigger] (pre + seq!['.'] + d0);
                assert(q =~= pre + seq!['.'] + d);
            }
        }
    }
}

/// Splits `domain` at every '.' into owned labels, top-level label first.
pub fn split(domain: &str) -> (r: Vec<String>)
    ensures
        r@.map_values(|l: String| l@) == domain_labels(domain@),
{
    let n = domain.unicode_len();
    let mut r: Vec<String> = Vec::new();
    r.push(String::new());
    let mut i: usize = 0;
    while i < n
        invariant
            n == domain@.len(),
            i <= n,
            r@.map_values(|l: String| l@) == domain_labels(domain@.subrange(0, i as int)),
        decreases n - i,
    {
        let c = domain.get_char(i);
        proof {
            lemma_labels_nonempty(domain@.subrange(0, i as int));
            assert(domain@.subrange(0, i as int + 1).drop_last() == domain@.subrange(0, i as int));
        }
        if c == '.' {
            r.insert(0, String::new());
            assert(r@.map_values(|l: String| l@) =~= domain_labels(
                domain@.subrange(0, i as int + 1),
            ));
        } else {
            let one = domain.substring_char(i, i + 1);
            proof {
                assert(one@ =~= seq![c]);
            }
            let ghost before = r@;
            r[0].append(one);
            assert(r@[0]@ == before[0]@ + seq![c]);
            assert(before[0]@ + seq![c] =~= before[0]@.push(c));
            assert(r@ == before.update(0, r@[0]));
            let ghost s1 = domain@.subrange(0, i as int + 1);
            assert(s1.last() == c);
            let ghost prev = domain_labels(s1.drop_last());
            assert(domain_labels(s1) == prev.update(0, prev[0].push(c)));
            assert(r@.map_values(|l: String| l@) =~= domain_labels(
                domain@.subrange(0, i as int + 1),
            ));
        }
        i = i + 1;
    }
    assert(domain@.subrange(0, n as int) == domain@);
    r
}

} // verus!
