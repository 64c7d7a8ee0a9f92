//! Building the index from indicator rules. Only the domain-bearing fields of
//! a rule are kept; names, packages, certificates and addresses are not.
use crate::history::built_from;
use crate::suffix::SuffixTree;
use vstd::prelude::*;

verus! {

/// The domains of one indicator rule, by role.
#[derive(Debug, PartialEq)]
pub struct IndicatorRecord {
    /// Marketing sites and control panels.
    pub websites: Vec<String>,
    /// Sites that distribute the app itself.
    pub distribution: Vec<String>,
    /// Command-and-control domains.
    pub c2_domains: Vec<String>,
}

/// Why no index could be built.
#[derive(Debug, Clone, Copy, PartialEq, Eq, Structural)]
pub enum LoadError {
    /// The rules could not be read as a list of indicator rules.
    Malformed,
}

pub open spec fn strings_view(v: Seq<String>) -> Seq<Seq<char>> {
    v.map_values(|s: String| s@)
}

/// A rule's domains as plain values: websites, distribution, C2.
pub open spec fn record_view(r: IndicatorRecord) -> (Seq<Seq<char>>, Seq<Seq<char>>, Seq<Seq<char>>) {
    (strings_view(r.websites@), strings_view(r.distribution@), strings_view(r.c2_domains@))
}

pub open spec fn records_view(v: Seq<IndicatorRecord>) -> Seq<(Seq<Seq<char>>, Seq<Seq<char>>, Seq<Seq<char>>)> {
    v.map_values(|r: IndicatorRecord| record_view(r))
}

/// Every domain of the rules, rule by rule, each rule's websites first, then
/// its distribution sites, then its C2 domains.
pub open spec fn all_domains(recs: Seq<(Seq<Seq<char>>, Seq<Seq<char>>, Seq<Seq<char>>)>) -> Seq<Seq<char>>
    decreases recs.len(),
{
    if recs.len() == 0 {
        Seq::empty()
    } else {
        let r = recs.last();
        all_domains(recs.drop_last()) + r.0 + r.1 + r.2
    }
}

/// The rules that an indicator file holds, or `None` where it holds none.
pub uninterp spec fn indicator_rules(buf: Seq<u8>) -> Option<
    Seq<(Seq<Seq<char>>, Seq<Seq<char>>, Seq<Seq<char>>)>,
>;

#[verifier::external_type_specification]
#[verifier::external_body]
pub struct ExAnyhowError(anyhow::Error);

/// Relies on stalkerware_indicators::parse_from_buf, which reads the YAML
/// list of rules; each rule is handed on with its websites, distribution
/// sites and C2 domains, in the order of the file.
#[verifier::external_body]
fn parse_rules(buf: &[u8]) -> (r: Result<Vec<IndicatorRecord>, anyhow::Error>)
    ensures
        match r {
            Ok(v) => indicator_rules(buf@) == Some(records_view(v@)),
            Err(_) => indicator_rules(buf@) is None,
        },
{
    stalkerware_indicators::parse_from_buf(buf).map(
        |rules| {
            rules.into_iter().map(
                |r| IndicatorRecord {
                    websites: r.websites,
                    distribution: r.distribution,
                    c2_domains: r.c2.domains,
                },
            ).collect()
        },
    )
}

/// Inserts `ds` in order into an index built from `done`.
fn insert_domains(tree: &mut SuffixTree<String>, ds: &Vec<String>, Ghost(done): Ghost<Seq<Seq<char>>>)
    requires
        old(tree)@ == built_from(done),
    ensures
        final(tree)@ == built_from(done + strings_view(ds@)),
{
    let mut i: usize = 0;
    while i < ds.len()
        invariant
            i <= ds@.len(),
            tree@ == built_from(done + strings_view(ds@).subrange(0, i as int)),
        decreases ds@.len() - i,
    {
        let ghost before = done + strings_view(ds@).subrange(0, i as int);
        tree.insert(ds[i].as_str());
        proof {
            let after = done + strings_view(ds@).subrange(0, i as int + 1);
            assert(after =~= before.push(ds@[i as int]@));
            assert(after.drop_last() == before);
        }
        i = i + 1;
    }
    assert(strings_view(ds@).subrange(0, i as int) =~= strings_view(ds@));
}

/// The index of every domain of `records`, inserted rule by rule.
pub fn index_from_records(records: &Vec<IndicatorRecord>) -> (r: SuffixTree<String>)
    ensures
        r@ == built_from(all_domains(records_view(records@))),
{
    let mut tree: SuffixTree<String> = SuffixTree::new();
    let mut i: usize = 0;
    assert(records_view(records@).subrange(0, 0) =~= Seq::empty());
    assert(built_from(Seq::empty()) == Set::<Seq<Seq<char>>>::empty());
    while i < records.len()
        invariant
            i <= records@.len(),
            tree@ == built_from(all_domains(records_view(records@).subrange(0, i as int))),
        decreases records@.len() - i,
    {
        let ghost d0 = all_domains(records_view(records@).subrange(0, i as int));
        let rec = &records[i];
        insert_domains(&mut tree, &rec.websites, Ghost(d0));
        let ghost d1 = d0 + strings_view(rec.websites@);
        insert_domains(&mut tree, &rec.distribution, Ghost(d1));
        let ghost d2 = d1 + strings_view(rec.distribution@);
        insert_domains(&mut tree, &rec.c2_domains, Ghost(d2));
        proof {
            let s1 = records_view(records@).subrange(0, i as int + 1);
            assert(s1.drop_last() =~= records_view(records@).subrange(0, i as int));
            assert(s1.last() == record_view(*rec));
        }
        i = i + 1;
    }
    assert(records_view(records@).subrange(0, i as int) =~= records_view(records@));
    tree
}

/// Reads indicator rules from `buf` and builds the index of their domains;
/// fails exactly when `buf` holds no list of rules.
pub fn parse_domain_iocs(buf: &[u8]) -> (r: Result<SuffixTree<String>, LoadError>)
    ensures
        match indicator_rules(buf@) {
            None => r == Err::<SuffixTree<String>, LoadError>(LoadError::Malformed),
            Some(recs) => r is Ok && r->Ok_0@ == built_from(all_domains(recs)),
        },
{
    match parse_rules(buf) {
        Ok(records) => Ok(index_from_records(&records)),
        Err(_) => Err(LoadError::Malformed),
    }
}

} // verus!
