//! What an index holds after a sequence of insertions: exactly the inserted
//! domains that no other inserted domain covers, whatever the order.
use crate::labels::{
    domain_labels, is_prefix, is_subdomain, lemma_label_prefix_is_subdomain, lemma_labels_of_subdomain,
    lemma_prefix_refl, lemma_prefix_trans,
};
use crate::suffix::{covers, insert_spec};
use vstd::prelude::*;

verus! {

/// The registered paths of an empty index after inserting `ds` in order.
pub open spec fn built_from(ds: Seq<Seq<char>>) -> Set<Seq<Seq<char>>>
    decreases ds.len(),
{
    if ds.len() == 0 {
        Set::empty()
    } else {
        insert_spec(built_from(ds.drop_last()), domain_labels(ds.last()))
    }
}

/// `p` is the label path of one of the domains `ds`.
pub open spec fn registered(ds: Seq<Seq<char>>, p: Seq<Seq<char>>) -> bool {
    exists|i: int| 0 <= i < ds.len() && #[trigger] domain_labels(ds[i]) == p
}

/// The label paths of `ds` that no other path of `ds` covers.
pub open spec fn minimal_paths(ds: Seq<Seq<char>>) -> Set<Seq<Seq<char>>> {
    Set::new(
        |p: Seq<Seq<char>>|
            registered(ds, p) && !(exists|q: Seq<Seq<char>>|
                #[trigger] registered(ds, q) && is_prefix(q, p) && q != p),
    )
}

proof fn lemma_registered_push(ds: Seq<Seq<char>>, d: Seq<char>, p: Seq<Seq<char>>)
    ensures
        registered(ds.push(d), p) <==> registered(ds, p) || p == domain_labels(d),
{
    let e = ds.push(d);
    if registered(ds, p) {
        let i = choose|i: int| 0 <= i < ds.len() && #[trigger] domain_labels(ds[i]) == p;
        assert(e[i] == ds[i]);
    }
    if p == domain_labels(d) {
        assert(e[ds.len() as int] == d);
    }
    if registered(e, p) {
        let i = choose|i: int| 0 <= i < e.len() && #[trigger] domain_labels(e[i]) == p;
        if i < ds.len() {
            assert(e[i] == ds[i]);
        }
    }
}

/// A registered path that is a prefix of `l` leaves a minimal one that is.
proof fn lemma_minimal_below(ds: Seq<Seq<char>>, r: Seq<Seq<char>>, l: Seq<Seq<char>>)
    requires
        registered(ds, r),
        is_prefix(r, l),
    ensures
        exists|m: Seq<Seq<char>>| #[trigger] minimal_paths(ds).contains(m) && is_prefix(m, l),
    decreases r.len(),
{
    if minimal_paths(ds).contains(r) {
    } else {
        let q = choose|q: Seq<Seq<char>>| #[trigger] registered(ds, q) && is_prefix(q, r) && q != r;
        lemma_prefix_refl(q, r);
        lemma_prefix_trans(q, r, l);
        lemma_minimal_below(ds, q, l);
    }
}

/// Inserting domains one after another into an empty index registers exactly
/// the inserted domains that no other inserted domain covers. The order of
/// insertion and repeated insertions therefore do not matter, and `len`
/// counts these domains.
pub proof fn lemma_built_from(ds: Seq<Seq<char>>)
    ensures
        built_from(ds) == minimal_paths(ds),
        built_from(ds).finite(),
    decreases ds.len(),
{
    if ds.len() == 0 {
        assert(minimal_paths(ds) =~= Set::<Seq<Seq<char>>>::empty());
    } else {
        let d0 = ds.drop_last();
        let d = ds.last();
        let l = domain_labels(d);
        lemma_built_from(d0);
        assert(ds == d0.push(d));
        let v = built_from(d0);
        let m1 = minimal_paths(ds);
        assert forall|p: Seq<Seq<char>>| registered(ds, p) <==> registered(d0, p) || p == l by {
            lemma_registered_push(d0, d, p);
        }
        lemma_prefix_refl(l, l);
        if covers(v, l) {
            let p = choose|p: Seq<Seq<char>>| #[trigger] v.contains(p) && is_prefix(p, l);
            assert forall|x: Seq<Seq<char>>| v.contains(x) <==> m1.contains(x) by {
                if v.contains(x) {
                    if exists|q: Seq<Seq<char>>| #[trigger] registered(ds, q) && is_prefix(q, x) && q != x {
                        let q = choose|q: Seq<Seq<char>>| #[trigger] registered(ds, q) && is_prefix(q, x) && q != x;
                        if q == l {
                            lemma_prefix_trans(p, l, x);
                            lemma_prefix_refl(q, x);
                            lemma_prefix_refl(p, x);
                        }
                    }
                }
                if m1.contains(x) && x == l && !registered(d0, l) {
                    lemma_prefix_refl(p, l);
                }
            }
            assert(v =~= m1);
        } else {
            assert(!registered(d0, l)) by {
                if registered(d0, l) {
                    lemma_minimal_below(d0, l, l);
                }
            }
            let v1 = v.filter(|q: Seq<Seq<char>>| !is_prefix(l, q)).insert(l);
            assert forall|x: Seq<Seq<char>>| v1.contains(x) <==> m1.contains(x) by {
                if x == l {
                    if exists|q: Seq<Seq<char>>| #[trigger] registered(ds, q) && is_prefix(q, l) && q != l {
                        let q = choose|q: Seq<Seq<char>>| #[trigger] registered(ds, q) && is_prefix(q, l) && q != l;
                        lemma_minimal_below(d0, q, l);
                    }
                } else {
                    if v.contains(x) && !is_prefix(l, x) {
                        if exists|q: Seq<Seq<char>>| #[trigger] registered(ds, q) && is_prefix(q, x) && q != x {
                            let q = choose|q: Seq<Seq<char>>| #[trigger] registered(ds, q) && is_prefix(q, x) && q != x;
                            assert(q != l);
                        }
                    }
                    if m1.contains(x) && is_prefix(l, x) {
                        lemma_prefix_refl(l, x);
                    }
                }
            }
            assert(v1 =~= m1);
        }
        let r = Set::new(|p: Seq<Seq<char>>| registered(ds, p));
        assert(r =~= Set::new(|i: int| 0 <= i < ds.len()).map(|i: int| domain_labels(ds[i]))) by {
            assert forall|p: Seq<Seq<char>>| r.contains(p) implies Set::new(|i: int| 0 <= i < ds.len()).map(
                |i: int| domain_labels(ds[i]),
            ).contains(p) by {
                let i = choose|i: int| 0 <= i < ds.len() && #[trigger] domain_labels(ds[i]) == p;
                assert(Set::new(|i: int| 0 <= i < ds.len()).contains(i));
            }
        }
        vstd::set_lib::lemma_int_range(0, ds.len() as int);
        assert(Set::new(|i: int| 0 <= i < ds.len()) =~= vstd::set_lib::set_int_range(0, ds.len() as int));
        vstd::set_lib::lemma_map_size_bound(
            Set::new(|i: int| 0 <= i < ds.len()),
            r,
            |i: int| domain_labels(ds[i]),
        );
        assert(m1.subset_of(r));
        vstd::set_lib::lemma_len_subset(m1, r);
    }
}

/// A name matches the index built from `ds` exactly when one of `ds` is the
/// name itself or a domain that it is a subdomain of, label by label.
pub proof fn lemma_built_matches(ds: Seq<Seq<char>>, x: Seq<char>)
    ensures
        covers(built_from(ds), domain_labels(x)) <==> exists|i: int|
            0 <= i < ds.len() && #[trigger] is_prefix(domain_labels(ds[i]), domain_labels(x)),
{
    lemma_built_from(ds);
    let l = domain_labels(x);
    if covers(built_from(ds), l) {
        let p = choose|p: Seq<Seq<char>>| #[trigger] built_from(ds).contains(p) && is_prefix(p, l);
        let i = choose|i: int| 0 <= i < ds.len() && #[trigger] domain_labels(ds[i]) == p;
        assert(is_prefix(domain_labels(ds[i]), l));
    }
    if exists|i: int| 0 <= i < ds.len() && #[trigger] is_prefix(domain_labels(ds[i]), l) {
        let i = choose|i: int| 0 <= i < ds.len() && #[trigger] is_prefix(domain_labels(ds[i]), l);
        assert(registered(ds, domain_labels(ds[i])));
        lemma_minimal_below(ds, domain_labels(ds[i]), l);
    }
}

/// A name matches the index built from `ds` exactly when it is one of `ds`
/// or ends in '.' followed by one of `ds`. So a name that is neither an
/// inserted domain nor a subdomain of one does not match.
pub proof fn lemma_built_matches_names(ds: Seq<Seq<char>>, q: Seq<char>)
    ensures
        covers(built_from(ds), domain_labels(q)) <==> exists|i: int|
            0 <= i < ds.len() && #[trigger] is_subdomain(q, ds[i]),
{
    lemma_built_matches(ds, q);
    if covers(built_from(ds), domain_labels(q)) {
        let i = choose|i: int| 0 <= i < ds.len() && #[trigger] is_prefix(domain_labels(ds[i]), domain_labels(q));
        lemma_label_prefix_is_subdomain(ds[i], q);
    }
    if exists|i: int| 0 <= i < ds.len() && #[trigger] is_subdomain(q, ds[i]) {
        let i = choose|i: int| 0 <= i < ds.len() && #[trigger] is_subdomain(q, ds[i]);
        let ld = domain_labels(ds[i]);
        if q == ds[i] {
            lemma_prefix_refl(ld, ld);
        } else {
            let pre = choose|pre: Seq<char>| q == #[trigger] (pre + seq!['.'] + ds[i]);
            lemma_labels_of_subdomain(pre, ds[i]);
            assert(domain_labels(q).subrange(0, ld.len() as int) =~= ld);
        }
        assert(is_prefix(domain_labels(ds[i]), domain_labels(q)));
    }
}

/// A domain matches right after it is inserted.
pub proof fn lemma_inserted_matches(v: Set<Seq<Seq<char>>>, d: Seq<char>)
    ensures
        covers(insert_spec(v, domain_labels(d)), domain_labels(d)),
{
    let l = domain_labels(d);
    lemma_prefix_refl(l, l);
    if !covers(v, l) {
        assert(insert_spec(v, l).contains(l));
    }
}

/// Every subdomain of an inserted domain, formed by putting labels `pre` in
/// front of it, matches right after the insertion.
pub proof fn lemma_subdomain_matches(v: Set<Seq<Seq<char>>>, d: Seq<char>, pre: Seq<char>)
    ensures
        covers(insert_spec(v, domain_labels(d)), domain_labels(pre + seq!['.'] + d)),
{
    let l = domain_labels(d);
    let e = domain_labels(pre + seq!['.'] + d);
    lemma_labels_of_subdomain(pre, d);
    assert(e.subrange(0, l.len() as int) =~= l);
    lemma_inserted_matches(v, d);
    let p = choose|p: Seq<Seq<char>>| #[trigger] insert_spec(v, l).contains(p) && is_prefix(p, l);
    lemma_prefix_trans(p, l, e);
}

/// Inserting a domain and one of its subdomains, in either order, registers
/// the same paths as inserting the domain alone.
pub proof fn lemma_subdomain_insert_order(v: Set<Seq<Seq<char>>>, a: Seq<char>, b: Seq<char>)
    requires
        is_prefix(domain_labels(a), domain_labels(b)),
    ensures
        insert_spec(insert_spec(v, domain_labels(a)), domain_labels(b)) == insert_spec(v, domain_labels(a)),
        insert_spec(insert_spec(v, domain_labels(b)), domain_labels(a)) == insert_spec(v, domain_labels(a)),
{
    let la = domain_labels(a);
    let lb = domain_labels(b);
    lemma_inserted_matches(v, a);
    let p = choose|p: Seq<Seq<char>>| #[trigger] insert_spec(v, la).contains(p) && is_prefix(p, la);
    lemma_prefix_trans(p, la, lb);
    let vb = insert_spec(v, lb);
    lemma_prefix_refl(la, lb);
    if covers(v, lb) {
        let q = choose|q: Seq<Seq<char>>| #[trigger] v.contains(q) && is_prefix(q, lb);
        if q.len() <= la.len() {
            assert(la.subrange(0, q.len() as int) =~= lb.subrange(0, q.len() as int));
        } else {
            assert(q.subrange(0, la.len() as int) =~= lb.subrange(0, la.len() as int));
            if covers(v, la) {
                let r = choose|r: Seq<Seq<char>>| #[trigger] v.contains(r) && is_prefix(r, la);
                lemma_prefix_trans(r, la, q);
                lemma_prefix_refl(r, q);
                assert(r.len() <= la.len());
            }
        }
    } else {
        if covers(vb, la) {
            let r = choose|r: Seq<Seq<char>>| #[trigger] vb.contains(r) && is_prefix(r, la);
            if r != lb {
                lemma_prefix_trans(r, la, lb);
            } else {
                lemma_prefix_refl(la, lb);
            }
        }
        if covers(v, la) {
            let r = choose|r: Seq<Seq<char>>| #[trigger] v.contains(r) && is_prefix(r, la);
            lemma_prefix_trans(r, la, lb);
        }
        assert forall|x: Seq<Seq<char>>| #[trigger] is_prefix(lb, x) implies is_prefix(la, x) by {
            lemma_prefix_trans(la, lb, x);
        }
        assert(insert_spec(vb, la) =~= insert_spec(v, la));
    }
}

/// Inserting a registered domain again changes nothing.
pub proof fn lemma_reinsert_unchanged(v: Set<Seq<Seq<char>>>, d: Seq<char>)
    requires
        v.contains(domain_labels(d)),
    ensures
        insert_spec(v, domain_labels(d)) == v,
{
    lemma_prefix_refl(domain_labels(d), domain_labels(d));
}

} // verus!
