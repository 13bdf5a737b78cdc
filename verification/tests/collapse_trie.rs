use folly::graph::UnitMap;

fn directive(rest: &str) -> String {
    format!("#incl{}e{}", "ud", rest)
}

fn cycle_with_satellite() -> UnitMap {
    // A -> B -> C -> A, and an independent D that depends on A.
    let mut m = UnitMap::new();
    let scope = "lib";
    m.add_node("A.h", "lib", &vec![directive(" <lib/B.h>")], scope).unwrap();
    m.add_node("B.h", "lib", &vec![directive(" <lib/C.h>")], scope).unwrap();
    m.add_node("C.h", "lib", &vec![directive(" <lib/A.h>")], scope).unwrap();
    m.add_node("D.h", "lib", &vec![directive(" <lib/A.h>")], scope).unwrap();
    m
}

#[test]
fn collapse_merges_cycle_and_retargets() {
    let mut m = cycle_with_satellite();
    assert_eq!(m.nodes.len(), 4);
    let (res, _, _) = m.collapse_cycles();
    assert!(res.is_ok());
    // Exactly two survivors: the merged {a, b, c} and d.
    assert_eq!(m.nodes.len(), 2);
    let merged = 0;
    let d = 1;
    // The composite keeps the key of its smallest-index member.
    assert_eq!(m.nodes[merged].key.name, "a");
    assert_eq!(m.nodes[d].key.name, "d");
    // Member headers are concatenated in index order.
    assert_eq!(
        m.nodes[merged].val.headers,
        vec!["A.h".to_string(), "B.h".to_string(), "C.h".to_string()],
    );
    // The edges internal to the cycle are gone and the composite has no
    // self dependency; d's single edge is retargeted to the composite.
    assert!(m.nodes[merged].val.deps.is_empty());
    assert_eq!(m.nodes[d].val.deps, vec![merged]);
    assert_eq!(m.nodes[merged].val.reverse_deps, vec![d]);
    assert!(m.nodes[d].val.reverse_deps.is_empty());
}

#[test]
fn collapse_leaves_acyclic_graph_alone() {
    let mut m = UnitMap::new();
    let scope = "lib";
    m.add_node("A.h", "lib", &vec![directive(" <lib/B.h>")], scope).unwrap();
    m.add_node("B.h", "lib", &vec![], scope).unwrap();
    let (res, _, _) = m.collapse_cycles();
    assert!(res.is_ok());
    assert_eq!(m.nodes.len(), 2);
    assert_eq!(m.nodes[0].key.name, "a");
    assert_eq!(m.nodes[1].key.name, "b");
    assert_eq!(m.nodes[0].val.deps, vec![1]);
    assert_eq!(m.nodes[1].val.reverse_deps, vec![0]);
}

#[test]
fn collapse_merges_two_element_cycle() {
    let mut m = UnitMap::new();
    let scope = "lib";
    m.add_node("Foo.h", "lib", &vec![directive(" <lib/Bar.h>")], scope).unwrap();
    m.add_node("Bar.h", "lib", &vec![directive(" <lib/Foo.h>")], scope).unwrap();
    let (res, _, _) = m.collapse_cycles();
    assert!(res.is_ok());
    assert_eq!(m.nodes.len(), 1);
    assert_eq!(m.nodes[0].key.name, "foo");
    assert!(m.nodes[0].val.deps.is_empty());
    assert!(m.nodes[0].val.reverse_deps.is_empty());
}

#[test]
fn trie_groups_units_by_directory() {
    let mut m = cycle_with_satellite();
    let (res, _, _) = m.collapse_cycles();
    assert!(res.is_ok());
    let (trie, _) = m.generate_compilation_trie();
    // Root stands for the empty directory.
    assert_eq!(trie.nodes[0].dir, "");
    // One level for "lib", holding both surviving units.
    let lib = trie.nodes.iter().position(|nd| nd.dir == "lib").unwrap();
    let mut held = trie.nodes[lib].units.clone();
    held.sort();
    assert_eq!(held, vec![0, 1]);
    // Every unit sits in exactly one node of the hierarchy.
    for u in 0..m.nodes.len() {
        let count: usize = trie.nodes.iter().filter(|nd| nd.units.contains(&u)).count();
        assert_eq!(count, 1);
    }
    // The root links down to the "lib" level.
    assert!(trie.nodes[0].children.contains(&lib));
}

#[test]
fn trie_creates_intermediate_levels() {
    let mut m = UnitMap::new();
    m.add_node("Deep.h", "lib/io/async", &vec![], "lib").unwrap();
    m.add_node("Top.h", "lib", &vec![], "lib").unwrap();
    let (trie, _) = m.generate_compilation_trie();
    let lib = trie.nodes.iter().position(|nd| nd.dir == "lib").unwrap();
    let io = trie.nodes.iter().position(|nd| nd.dir == "lib/io").unwrap();
    let deep = trie.nodes.iter().position(|nd| nd.dir == "lib/io/async").unwrap();
    // The intermediate "lib/io" level exists although no unit sits on it.
    assert!(trie.nodes[io].units.is_empty());
    assert_eq!(trie.nodes[deep].units, vec![0]);
    assert_eq!(trie.nodes[lib].units, vec![1]);
    assert!(trie.nodes[0].children.contains(&lib));
    assert!(trie.nodes[lib].children.contains(&io));
    assert!(trie.nodes[io].children.contains(&deep));
}
