//! The match stage: which observed host names the index flags, and the alert
//! line shown for each.
use crate::json::{names_view, Source};
use crate::labels::domain_labels;
use crate::suffix::{covers, SuffixTree};
use vstd::prelude::*;

verus! {

/// The observations of `names` whose host name the registered paths `v`
/// cover, in their order.
pub open spec fn flagged(v: Set<Seq<Seq<char>>>, names: Seq<(Source, Seq<char>)>) -> Seq<(Source, Seq<char>)>
    decreases names.len(),
{
    if names.len() == 0 {
        Seq::empty()
    } else {
        let rest = flagged(v, names.drop_last());
        if covers(v, domain_labels(names.last().1)) {
            rest.push(names.last())
        } else {
            rest
        }
    }
}

/// How `{:?}` renders a string: in double quotes, with quotes, backslashes
/// and control characters escaped.
pub uninterp spec fn debug_quoted(s: Seq<char>) -> Seq<char>;

/// Relies on the `Debug` formatting of `str`, which depends on the characters
/// alone.
#[verifier::external_body]
pub(crate) fn quote(s: &str) -> (r: String)
    ensures
        r@ == debug_quoted(s@),
{
    format!("{:?}", s)
}

/// The text of the alert for a flagged name.
pub open spec fn alert_text(src: Source, name: Seq<char>) -> Seq<char> {
    "[!] detected("@ + src.spec_str() + "): "@ + debug_quoted(name)
}

/// The alert line for one flagged observation.
pub fn alert_line(src: Source, name: &str) -> (r: String)
    ensures
        r@ == alert_text(src, name@),
{
    let mut r = "[!] detected(".to_owned();
    r.append(src.as_str());
    r.append("): ");
    let q = quote(name);
    r.append(q.as_str());
    r
}

/// The observations of `names` that the index matches, in order.
pub fn detect(iocs: &SuffixTree<String>, names: &Vec<(Source, String)>) -> (r: Vec<(Source, String)>)
    ensures
        names_view(r@) == flagged(iocs@, names_view(names@)),
{
    let mut r: Vec<(Source, String)> = Vec::new();
    let mut i: usize = 0;
    while i < names.len()
        invariant
            i <= names@.len(),
            names_view(r@) == flagged(iocs@, names_view(names@).subrange(0, i as int)),
        decreases names@.len() - i,
    {
        let ghost s1 = names_view(names@).subrange(0, i as int + 1);
        proof {
            assert(s1.drop_last() =~= names_view(names@).subrange(0, i as int));
            assert(s1.last() == (names@[i as int].0, names@[i as int].1@));
        }
        if iocs.matches(names[i].1.as_str()) {
            let ghost before = r@;
            let name = names[i].1.clone();
            r.push((names[i].0, name));
            assert(names_view(r@) =~= names_view(before).push((names@[i as int].0, names@[i as int].1@)));
        }
        i = i + 1;
    }
    assert(names_view(names@).subrange(0, i as int) =~= names_view(names@));
    r
}

/// The alert lines for the observations of `names` that the index matches,
/// in order.
pub fn alerts(iocs: &SuffixTree<String>, names: &Vec<(Source, String)>) -> (r: Vec<String>)
    ensures
        r@.len() == flagged(iocs@, names_view(names@)).len(),
        forall|i: int|
            0 <= i < r@.len() ==> #[trigger] r@[i]@ == alert_text(
                flagged(iocs@, names_view(names@))[i].0,
                flagged(iocs@, names_view(names@))[i].1,
            ),
{
    let hits = detect(iocs, names);
    let mut r: Vec<String> = Vec::new();
    let mut i: usize = 0;
    while i < hits.len()
        invariant
            i <= hits@.len(),
            r@.len() == i,
            names_view(hits@) == flagged(iocs@, names_view(names@)),
            forall|j: int| 0 <= j < i ==> #[trigger] r@[j]@ == alert_text(hits@[j].0, hits@[j].1@),
        decreases hits@.len() - i,
    {
        r.push(alert_line(hits[i].0, hits[i].1.as_str()));
        i = i + 1;
    }
    proof {
        assert forall|j: int| 0 <= j < r@.len() implies #[trigger] r@[j]@ == alert_text(
            flagged(iocs@, names_view(names@))[j].0,
            flagged(iocs@, names_view(names@))[j].1,
        ) by {
            assert(names_view(hits@)[j] == (hits@[j].0, hits@[j].1@));
        }
    }
    r
}

} // verus!
