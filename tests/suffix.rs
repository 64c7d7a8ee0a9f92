use spytrap_wifi::labels::split;
use spytrap_wifi::suffix::SuffixTree;

#[test]
fn empty() {
    let s = SuffixTree::new();
    let m = s.matches("github.com");
    assert!(!m);
}

#[test]
fn exact() {
    let mut s = SuffixTree::new();
    s.insert("github.com");
    let m = s.matches("github.com");
    assert!(m);
}

#[test]
fn subdomain() {
    let mut s = SuffixTree::new();
    s.insert("github.com");
    let m = s.matches("www.github.com");
    assert!(m);
}

#[test]
fn lots_of_subdomains() {
    let mut s = SuffixTree::new();
    s.insert("github.com");
    let m = s.matches("a.b.c.d.e.f.g.h.i.github.com");
    assert!(m);
}

#[test]
fn not_tld() {
    let mut s = SuffixTree::new();
    s.insert("github.com");
    let m = s.matches("com");
    assert!(!m);
}

#[test]
fn not_other_domain() {
    let mut s = SuffixTree::new();
    s.insert("github.com");
    let m = s.matches("example.com");
    assert!(!m);
}

#[test]
fn not_other_subdomain() {
    let mut s = SuffixTree::new();
    s.insert("foo.example.com");
    let m = s.matches("bar.example.com");
    assert!(!m);
}

#[test]
fn len_0() {
    let s: SuffixTree<()> = SuffixTree::new();
    assert_eq!(s.len(), 0);
}

#[test]
fn len_1() {
    let mut s = SuffixTree::new();
    s.insert("github.com");
    assert_eq!(s.len(), 1);
}

#[test]
fn len_2() {
    let mut s = SuffixTree::new();
    s.insert("github.com");
    s.insert("example.com");
    assert_eq!(s.len(), 2);
}

#[test]
fn len_3() {
    let mut s = SuffixTree::new();
    s.insert("www.github.com");
    s.insert("github.com");
    s.insert("example.com");
    s.insert("www.example.com");
    s.insert("foobar.com");
    assert_eq!(s.len(), 3);
}

#[test]
fn split_reverses_labels() {
    assert_eq!(split("a.b.c"), vec!["c".to_string(), "b".to_string(), "a".to_string()]);
    assert_eq!(split("com"), vec!["com".to_string()]);
    assert_eq!(split(""), vec!["".to_string()]);
    assert_eq!(split("a..b"), vec!["b".to_string(), "".to_string(), "a".to_string()]);
}

#[test]
fn inserted_domain_matches_at_once() {
    let mut s = SuffixTree::new();
    for d in ["mobileinnova.net", "webdetetive.com.br", "x"] {
        s.insert(d);
        assert!(s.matches(d));
    }
}

#[test]
fn prepended_labels_match() {
    let mut s = SuffixTree::new();
    s.insert("ownspy.es");
    assert!(s.matches("user.ownspy.es"));
    assert!(s.matches("a.b.user.ownspy.es"));
    assert!(!s.matches("xownspy.es"));
    assert!(!s.matches("es"));
}

#[test]
fn unrelated_names_do_not_match() {
    let mut s = SuffixTree::new();
    s.insert("b.c");
    s.insert("x.y.z");
    assert!(!s.matches("c"));
    assert!(!s.matches("y.z"));
    assert!(!s.matches("a.c"));
    assert!(!s.matches(""));
    assert!(!s.matches("b.c.d"));
}

#[test]
fn subdomain_and_domain_in_either_order() {
    let mut one = SuffixTree::new();
    one.insert("a.b.c");
    one.insert("b.c");
    let mut two = SuffixTree::new();
    two.insert("b.c");
    two.insert("a.b.c");
    let mut alone = SuffixTree::new();
    alone.insert("b.c");
    for name in ["a.b.c", "b.c", "x.b.c", "c", "a.c", "b.c.d", "z.a.b.c"] {
        assert_eq!(one.matches(name), alone.matches(name));
        assert_eq!(two.matches(name), alone.matches(name));
    }
    assert_eq!(one.len(), 1);
    assert_eq!(two.len(), 1);
    assert_eq!(alone.len(), 1);
    assert!(one == alone);
    assert!(two == alone);
}

#[test]
fn equality_ignores_insertion_history() {
    let a = SuffixTree::from_domains(&vec!["x.com".to_string(), "y.org".to_string(), "z.x.com".to_string()]);
    let b = SuffixTree::from_domains(&vec!["y.org".to_string(), "x.com".to_string()]);
    let c = SuffixTree::from_domains(&vec!["y.org".to_string(), "z.x.com".to_string()]);
    assert!(a == b);
    assert!(a != c);
    assert!(c != SuffixTree::new());
    assert!(SuffixTree::<String>::new() == SuffixTree::default());
}

#[test]
fn reinsert_keeps_count() {
    let mut s = SuffixTree::new();
    s.insert("github.com");
    s.insert("example.com");
    assert_eq!(s.len(), 2);
    s.insert("github.com");
    assert_eq!(s.len(), 2);
    s.insert("www.github.com");
    assert_eq!(s.len(), 2);
    s.insert("com");
    assert_eq!(s.len(), 1);
    assert!(s.matches("anything.com"));
}

#[test]
fn empty_name_only_when_inserted() {
    let mut s = SuffixTree::new();
    assert!(!s.matches(""));
    assert!(!s.is_empty());
    s.insert("");
    assert!(s.matches(""));
    assert!(s.matches("."));
    assert!(!s.matches("a"));
    assert_eq!(s.len(), 1);
}

#[test]
fn names_that_are_neither_inserted_nor_subdomains() {
    let domains = ["github.com", "ownspy.es", "a.b.c"];
    let mut s = SuffixTree::new();
    for d in domains {
        s.insert(d);
    }
    for q in ["hub.com", "xgithub.com", "github.com.evil", "es", "b.c", "", "x.b.c"] {
        assert!(domains.iter().all(|d| q != *d && !q.ends_with(&format!(".{}", d))));
        assert!(!s.matches(q));
    }
    for q in ["github.com", "api.github.com", "z.a.b.c"] {
        assert!(s.matches(q));
    }
}
