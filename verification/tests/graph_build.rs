use folly::graph::UnitMap;
use folly::types::AnalysisError;
use folly::types::UnitKey;

fn directive(rest: &str) -> String {
    format!("#incl{}e{}", "ud", rest)
}

fn key(name: &str, dir: &str) -> UnitKey {
    UnitKey { name: name.to_string(), root_dir: dir.to_string() }
}

/// Every dependency edge has its mirror image, over all pairs of units.
fn assert_mirrored(m: &UnitMap) {
    for a in 0..m.nodes.len() {
        for b in 0..m.nodes.len() {
            let fwd = m.nodes[a].val.deps.contains(&b);
            let back = m.nodes[b].val.reverse_deps.contains(&a);
            assert_eq!(fwd, back, "edge {} -> {} lost its mirror", a, b);
        }
    }
}

#[test]
fn get_or_create_deduplicates() {
    let mut m = UnitMap::new();
    let i1 = m.extract_with_create(key("foo", "lib"));
    let i2 = m.extract_with_create(key("foo", "lib"));
    assert_eq!(i1, i2);
    assert_eq!(m.nodes.len(), 1);
    // Mutating through one handle is visible through the other.
    m.nodes[i1].val.headers.push("Foo.h".to_string());
    assert_eq!(m.nodes[i2].val.headers, vec!["Foo.h".to_string()]);
}

#[test]
fn get_or_create_distinguishes_directories() {
    let mut m = UnitMap::new();
    let i1 = m.extract_with_create(key("foo", "lib"));
    let i2 = m.extract_with_create(key("foo", "lib/io"));
    assert_ne!(i1, i2);
    assert_eq!(m.nodes.len(), 2);
}

#[test]
fn unknown_files_are_skipped() {
    let mut m = UnitMap::new();
    let r = m.add_node("README", "lib", &vec![], "lib");
    assert!(r.is_ok());
    assert_eq!(m.nodes.len(), 0);
}

#[test]
fn file_roles_fill_headers_and_srcs() {
    let mut m = UnitMap::new();
    m.add_node("Foo.h", "lib", &vec![], "lib").unwrap();
    m.add_node("Foo-inl.h", "lib", &vec![], "lib").unwrap();
    m.add_node("Foo.cpp", "lib", &vec![], "lib").unwrap();
    m.add_node("Foo_test.cpp", "lib", &vec![], "lib").unwrap();
    assert_eq!(m.nodes.len(), 2);
    let foo = &m.nodes[0];
    assert_eq!(foo.key.name, "foo");
    assert_eq!(foo.val.headers, vec!["Foo.h".to_string(), "Foo-inl.h".to_string()]);
    assert_eq!(foo.val.srcs, vec!["Foo.cpp".to_string()]);
    // "Foo_test.cpp" strips to base "foo_", a distinct unit.
    let foo_t = &m.nodes[1];
    assert_eq!(foo_t.key.name, "foo_");
    assert_eq!(foo_t.val.srcs, vec!["Foo_test.cpp".to_string()]);
}

#[test]
fn self_reference_never_makes_an_edge() {
    let mut m = UnitMap::new();
    m.add_node("Foo.cpp", "lib", &vec![directive(" <lib/Foo.h>")], "lib").unwrap();
    assert_eq!(m.nodes.len(), 1);
    assert!(m.nodes[0].val.deps.is_empty());
    assert!(m.nodes[0].val.reverse_deps.is_empty());
}

#[test]
fn end_to_end_tree() {
    let mut m = UnitMap::new();
    let scope = "lib";
    m.add_node("Foo.h", "lib", &vec![], scope).unwrap();
    m.add_node(
        "Foo.cpp",
        "lib",
        &vec![directive(" <lib/Foo.h>"), directive(" <lib/Bar.h>")],
        scope,
    ).unwrap();
    m.add_node("Bar.h", "lib", &vec![directive(" <lib/Foo.h>")], scope).unwrap();
    assert_eq!(m.nodes.len(), 2);
    let foo = 0;
    let bar = 1;
    assert_eq!(m.nodes[foo].key, key("foo", "lib"));
    assert_eq!(m.nodes[bar].key, key("bar", "lib"));
    // The Foo.cpp reference to its own header is discarded as a
    // self-reference; its reference to Bar.h is a real edge.
    assert_eq!(m.nodes[foo].val.deps, vec![bar]);
    assert_eq!(m.nodes[bar].val.deps, vec![foo]);
    assert_eq!(m.nodes[foo].val.reverse_deps, vec![bar]);
    assert_eq!(m.nodes[bar].val.reverse_deps, vec![foo]);
    assert_eq!(m.nodes[foo].val.headers, vec!["Foo.h".to_string()]);
    assert_eq!(m.nodes[foo].val.srcs, vec!["Foo.cpp".to_string()]);
    assert_eq!(m.nodes[bar].val.headers, vec!["Bar.h".to_string()]);
    assert_mirrored(&m);
}

#[test]
fn out_of_scope_references_make_no_edge() {
    let mut m = UnitMap::new();
    m.add_node(
        "Foo.cpp",
        "lib",
        &vec![directive(" <vector>"), directive(" <other/Thing.h>")],
        "lib",
    ).unwrap();
    assert_eq!(m.nodes.len(), 1);
    assert!(m.nodes[0].val.deps.is_empty());
}

#[test]
fn duplicate_references_insert_one_edge() {
    let mut m = UnitMap::new();
    m.add_node(
        "Foo.cpp",
        "lib",
        &vec![directive(" <lib/Bar.h>"), directive(" <lib/Bar.h>")],
        "lib",
    ).unwrap();
    let foo = 0;
    let bar = 1;
    assert_eq!(m.nodes[foo].val.deps, vec![bar]);
    assert_eq!(m.nodes[bar].val.reverse_deps, vec![foo]);
}

#[test]
fn malformed_directive_aborts_with_line() {
    let mut m = UnitMap::new();
    let r = m.add_node(
        "Foo.cpp",
        "lib",
        &vec!["int x;".to_string(), directive(" <lib/Bar.h")],
        "lib",
    );
    assert_eq!(r, Err(AnalysisError::BadDirective { line: 1 }));
}

#[test]
fn mirrored_edges_after_larger_build() {
    let mut m = UnitMap::new();
    let scope = "lib";
    m.add_node("A.h", "lib", &vec![directive(" <lib/B.h>"), directive(" <lib/C.h>")], scope)
        .unwrap();
    m.add_node("B.h", "lib", &vec![directive(" <lib/C.h>")], scope).unwrap();
    m.add_node("C.cpp", "lib/sub", &vec![directive(" <lib/A.h>")], scope).unwrap();
    assert_mirrored(&m);
}

/// The semantic content of a graph: for every unit key, the sorted list of
/// dependency keys.
fn semantic_edges(m: &UnitMap) -> Vec<((String, String), Vec<(String, String)>)> {
    let mut all: Vec<((String, String), Vec<(String, String)>)> = m
        .nodes
        .iter()
        .map(|node| {
            let mut deps: Vec<(String, String)> = node
                .val
                .deps
                .iter()
                .map(|&d| (m.nodes[d].key.name.clone(), m.nodes[d].key.root_dir.clone()))
                .collect();
            deps.sort();
            ((node.key.name.clone(), node.key.root_dir.clone()), deps)
        })
        .collect();
    all.sort();
    all
}

#[test]
fn traversal_order_does_not_change_the_graph() {
    let scope = "lib";
    let files: Vec<(&str, Vec<String>)> = vec![
        ("A.h", vec![directive(" <lib/B.h>")]),
        ("B.h", vec![directive(" <lib/C.h>")]),
        ("C.h", vec![]),
        ("D.cpp", vec![directive(" <lib/A.h>"), directive(" <lib/C.h>")]),
    ];
    let mut forward = UnitMap::new();
    for (name, lines) in files.iter() {
        forward.add_node(name, "lib", lines, scope).unwrap();
    }
    let mut backward = UnitMap::new();
    for (name, lines) in files.iter().rev() {
        backward.add_node(name, "lib", lines, scope).unwrap();
    }
    assert_eq!(semantic_edges(&forward), semantic_edges(&backward));
}
