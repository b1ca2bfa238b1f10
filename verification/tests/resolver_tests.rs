use sbobuilder_rs::packages::build_package_tree;
use sbobuilder_rs::packages::Node;
use sbobuilder_rs::packages::NodeStatus;
use sbobuilder_rs::packages::Repository;
use sbobuilder_rs::packages::ResolveError;

fn descriptor(name: &str, requires: &str) -> String {
    format!(
        "PRGNAM=\"{}\"\nVERSION=\"1.0\"\nREQUIRES=\"{}\"\n",
        name, requires
    )
}

fn repo_of(entries: &[(&str, &str)]) -> Repository {
    let mut repo = Repository::new();
    for (name, requires) in entries {
        repo.add(name.to_string(), descriptor(name, requires));
    }
    repo
}

#[test]
fn i3_resolves_six_children_in_order() {
    let repo = repo_of(&[
        ("i3", "dmenu libev xcb-util-xrm yajl perl-JSON-XS perl-AnyEvent"),
        ("dmenu", ""),
        ("libev", ""),
        ("xcb-util-xrm", ""),
        ("yajl", ""),
        ("perl-JSON-XS", ""),
        ("perl-AnyEvent", ""),
    ]);
    let root = build_package_tree(&repo, "i3").unwrap();
    assert_eq!(root.name, "i3");
    assert_eq!(root.status, NodeStatus::Resolved);
    let expected = [
        "dmenu",
        "libev",
        "xcb-util-xrm",
        "yajl",
        "perl-JSON-XS",
        "perl-AnyEvent",
    ];
    assert_eq!(root.children.len(), 6);
    for (child, name) in root.children.iter().zip(expected.iter()) {
        assert_eq!(child.name, *name);
        assert_eq!(child.status, NodeStatus::Resolved);
        assert_eq!(child.children.len(), 0);
    }
}

#[test]
fn cycle_terminates_with_cyclic_reference() {
    let repo = repo_of(&[("a", "b"), ("b", "a")]);
    let root = build_package_tree(&repo, "a").unwrap();
    assert_eq!(root.name, "a");
    assert_eq!(root.status, NodeStatus::Resolved);
    assert_eq!(root.children.len(), 1);
    let b = &root.children[0];
    assert_eq!(b.name, "b");
    assert_eq!(b.status, NodeStatus::Resolved);
    assert_eq!(b.children.len(), 1);
    let a_again = &b.children[0];
    assert_eq!(a_again.name, "a");
    assert_eq!(a_again.status, NodeStatus::CyclicReference);
    assert_eq!(a_again.children.len(), 0);
    assert!(a_again.details.is_none());
}

#[test]
fn self_dependency_is_a_cycle_of_length_one() {
    let repo = repo_of(&[("solo", "solo")]);
    let root = build_package_tree(&repo, "solo").unwrap();
    assert_eq!(root.status, NodeStatus::Resolved);
    assert_eq!(root.children.len(), 1);
    assert_eq!(root.children[0].status, NodeStatus::CyclicReference);
    assert_eq!(root.children[0].children.len(), 0);
}

#[test]
fn absent_descriptor_is_contained_per_node() {
    let repo = repo_of(&[("root", "missing present"), ("present", "")]);
    let root = build_package_tree(&repo, "root").unwrap();
    assert_eq!(root.status, NodeStatus::Resolved);
    assert_eq!(root.children.len(), 2);
    let missing = &root.children[0];
    assert_eq!(missing.name, "missing");
    assert_eq!(missing.status, NodeStatus::Unresolved);
    assert_eq!(missing.children.len(), 0);
    assert!(missing.details.is_none());
    let present = &root.children[1];
    assert_eq!(present.name, "present");
    assert_eq!(present.status, NodeStatus::Resolved);
}

#[test]
fn readme_dependency_is_an_integrity_error() {
    let mut repo = repo_of(&[("root", "gated ok"), ("ok", "")]);
    repo.add("gated".to_string(), descriptor("gated", "%README%"));
    let root = build_package_tree(&repo, "root").unwrap();
    assert_eq!(root.status, NodeStatus::Resolved);
    let gated = &root.children[0];
    assert_eq!(gated.name, "gated");
    assert_eq!(gated.status, NodeStatus::IntegrityError);
    assert_eq!(gated.children.len(), 0);
    assert!(gated.details.is_none());
    assert_eq!(root.children[1].status, NodeStatus::Resolved);
}

#[test]
fn shared_dependency_resolves_identically_in_both_branches() {
    let repo = repo_of(&[("root", "left right"), ("left", "x"), ("right", "x"), ("x", "y")]);
    let root = build_package_tree(&repo, "root").unwrap();
    assert_eq!(root.status, NodeStatus::Resolved);
    let x_under_left = &root.children[0].children[0];
    let x_under_right = &root.children[1].children[0];
    assert_eq!(x_under_left.name, "x");
    assert_eq!(x_under_left.status, NodeStatus::Resolved);
    assert_eq!(x_under_left, x_under_right);
}

#[test]
fn duplicate_requires_entries_repeat_the_same_node() {
    let repo = repo_of(&[("root", "dep dep"), ("dep", "")]);
    let root = build_package_tree(&repo, "root").unwrap();
    assert_eq!(root.children.len(), 2);
    assert_eq!(root.children[0].name, "dep");
    assert_eq!(root.children[0], root.children[1]);
}

#[test]
fn missing_root_is_a_whole_resolution_failure() {
    let repo = repo_of(&[("other", "")]);
    let result = build_package_tree(&repo, "nowhere");
    assert_eq!(result.unwrap_err(), ResolveError::NotFound);
}

#[test]
fn readme_root_is_a_whole_resolution_failure() {
    let repo = repo_of(&[("root", "%README%")]);
    let result = build_package_tree(&repo, "root");
    assert_eq!(result.unwrap_err(), ResolveError::RequiresReadme);
}

#[test]
fn resolved_node_carries_its_descriptor() {
    let repo = repo_of(&[("pkg", "")]);
    let root = build_package_tree(&repo, "pkg").unwrap();
    let details = root.details.expect("resolved node should carry a descriptor");
    assert_eq!(details.program_name, "pkg");
    assert_eq!(details.version, "1.0");
}

#[test]
fn first_repository_entry_wins() {
    let mut repo = Repository::new();
    repo.add("dup".to_string(), "PRGNAM=\"dup\"\nVERSION=\"first\"\n".to_string());
    repo.add("dup".to_string(), "PRGNAM=\"dup\"\nVERSION=\"second\"\n".to_string());
    let root = build_package_tree(&repo, "dup").unwrap();
    assert_eq!(root.details.unwrap().version, "first");
}

#[test]
fn node_new_builds_the_given_parts() {
    let leaf = Node::new("leaf".to_string(), Vec::new(), None, NodeStatus::Unresolved);
    assert_eq!(leaf.name, "leaf");
    assert_eq!(leaf.status, NodeStatus::Unresolved);
    assert!(leaf.children.is_empty());
    assert!(leaf.details.is_none());
    let parent = Node::new("p".to_string(), vec![leaf], None, NodeStatus::Resolved);
    assert_eq!(parent.children.len(), 1);
    assert_eq!(parent.children[0].name, "leaf");
    let copy = parent.clone();
    assert_eq!(copy, parent);
}
