//! Merging and selection of worlds.
use indexmap::IndexMap;
use wit_resolve::package::UnresolvedPackage;
use wit_resolve::resolve::Resolve;
use wit_resolve::types::{
    Document, Function, Interface, Results, Span, Type, World, WorldItem,
};

fn document(name: &str) -> Document {
    Document {
        name: name.to_string(),
        interfaces: IndexMap::new(),
        worlds: IndexMap::new(),
        default_interface: None,
        default_world: None,
        package: None,
    }
}

fn function(name: &str) -> WorldItem {
    WorldItem::Function(Function {
        name: name.to_string(),
        params: vec![],
        results: Results::Anon(Type::Bool),
    })
}

/// Two worlds, `from` and `into`, of a package with the interfaces `a`, `b` and `c`.
fn two_worlds(
    from: (Vec<(&str, WorldItem)>, Vec<(&str, WorldItem)>),
    into: (Vec<(&str, WorldItem)>, Vec<(&str, WorldItem)>),
) -> Resolve {
    let mut pkg = UnresolvedPackage::new("pkg".to_string());
    let mut doc = document("doc");
    for (i, name) in ["a", "b", "c"].iter().enumerate() {
        doc.interfaces.insert(name.to_string(), i);
        pkg.interfaces.alloc(Interface {
            name: Some(name.to_string()),
            types: IndexMap::new(),
            functions: IndexMap::new(),
            document: 0,
        });
    }
    doc.worlds.insert("from".to_string(), 0);
    doc.worlds.insert("into".to_string(), 1);
    pkg.documents.alloc(doc);
    let span = Span { start: 0, end: 1 };
    for (name, (imports, exports)) in [("from", from), ("into", into)] {
        pkg.world_spans.push((vec![span; imports.len()], vec![span; exports.len()]));
        let mut world = World {
            name: name.to_string(),
            imports: IndexMap::new(),
            exports: IndexMap::new(),
            document: 0,
        };
        for (name, item) in imports {
            world.imports.insert(name.to_string(), item);
        }
        for (name, item) in exports {
            world.exports.insert(name.to_string(), item);
        }
        pkg.worlds.alloc(world);
    }
    let mut resolve = Resolve::new();
    resolve.push(pkg, &IndexMap::new()).unwrap();
    resolve
}

fn interface(id: usize) -> WorldItem {
    WorldItem::Interface(id)
}

fn into_world(resolve: &Resolve) -> &World {
    resolve.worlds.iter().nth(1).unwrap().1
}

#[test]
fn merged_worlds_are_unions() {
    let mut resolve = two_worlds(
        (
            vec![("a", interface(0)), ("b", interface(1)), ("f", function("f"))],
            vec![("c", interface(2)), ("g", function("g"))],
        ),
        (vec![("h", function("h")), ("b", interface(1))], vec![("a", interface(0))]),
    );
    resolve.merge_worlds(0, 1).unwrap();
    let into = into_world(&resolve);
    assert_eq!(into.imports.keys().collect::<Vec<_>>(), ["b", "h", "a", "f"]);
    assert!(matches!(into.imports["a"], WorldItem::Interface(0)));
    match &into.imports["f"] {
        WorldItem::Function(f) => assert_eq!(f.name, "f"),
        _ => panic!("expected a function"),
    }
    assert_eq!(into.exports.keys().collect::<Vec<_>>(), ["a", "c", "g"]);
    let from = resolve.worlds.iter().next().unwrap().1;
    assert_eq!(from.imports.len(), 3);
    assert_eq!(from.exports.len(), 2);
}

fn merge_error(mut resolve: Resolve) -> String {
    let error = resolve.merge_worlds(0, 1).unwrap_err();
    assert_eq!(error.span, None);
    assert_eq!(error.context.len(), 0);
    error.msg
}

#[test]
fn an_interface_imported_under_two_names_is_an_error() {
    let resolve = two_worlds(
        (vec![("a", interface(0))], vec![]),
        (vec![("other", interface(0))], vec![]),
    );
    assert_eq!(merge_error(resolve), "import `a` conflicts with previous name of `other`");
}

#[test]
fn an_interface_exported_twice_is_an_error() {
    let resolve = two_worlds(
        (vec![], vec![("a", interface(0))]),
        (vec![], vec![("a", interface(0))]),
    );
    assert_eq!(merge_error(resolve), "export `a` conflicts with previous name of `a`");
}

#[test]
fn different_imports_of_one_name_are_an_error() {
    let resolve = two_worlds(
        (vec![("x", interface(0))], vec![]),
        (vec![("x", interface(1))], vec![]),
    );
    assert_eq!(merge_error(resolve), "duplicate import found for interface `x`");
    let resolve =
        two_worlds((vec![("f", function("f"))], vec![]), (vec![("f", function("f"))], vec![]));
    assert_eq!(merge_error(resolve), "duplicate import found for interface `f`");
}

#[test]
fn exports_of_one_name_are_an_error() {
    let resolve = two_worlds(
        (vec![], vec![("f", function("f"))]),
        (vec![], vec![("f", function("f"))]),
    );
    assert_eq!(merge_error(resolve), "duplicate export found for interface `f`");
}

#[test]
fn worlds_that_clash_are_left_alone() {
    let mut resolve = two_worlds(
        (vec![("a", interface(0)), ("x", interface(1))], vec![]),
        (vec![("x", interface(2))], vec![]),
    );
    assert!(resolve.merge_worlds(0, 1).is_err());
    assert_eq!(into_world(&resolve).imports.keys().collect::<Vec<_>>(), ["x"]);
}

/// A package with documents of the given names. Each has a world `w`, which is the default one if
/// so asked.
fn package(name: &str, docs: Vec<(&str, bool)>) -> UnresolvedPackage {
    let mut pkg = UnresolvedPackage::new(name.to_string());
    for (i, (name, default)) in docs.into_iter().enumerate() {
        let mut doc = document(name);
        doc.worlds.insert("w".to_string(), i);
        if default {
            doc.default_world = Some(i);
        }
        pkg.documents.alloc(doc);
        pkg.worlds.alloc(World {
            name: "w".to_string(),
            imports: IndexMap::new(),
            exports: IndexMap::new(),
            document: i,
        });
        pkg.world_spans.push((vec![], vec![]));
    }
    pkg
}

fn resolve_of(pkgs: Vec<UnresolvedPackage>) -> Resolve {
    let mut resolve = Resolve::new();
    for pkg in pkgs {
        resolve.push(pkg, &IndexMap::new()).unwrap();
    }
    resolve
}

fn selection_error(resolve: &Resolve, pkg: usize, world: Option<&str>) -> String {
    resolve.select_world(pkg, world).unwrap_err().msg
}

#[test]
fn worlds_are_selected_by_name() {
    let resolve = resolve_of(vec![package("p", vec![("foo", false), ("bar", true)])]);
    assert_eq!(resolve.select_world(0, Some("foo.w")).unwrap(), 0);
    assert_eq!(resolve.select_world(0, Some("bar.w")).unwrap(), 1);
    assert_eq!(resolve.select_world(0, Some("bar")).unwrap(), 1);
    assert_eq!(selection_error(&resolve, 0, Some("foo")), "no default world in document");
    assert_eq!(selection_error(&resolve, 0, Some("baz")), "no document named `baz` in package");
    assert_eq!(selection_error(&resolve, 0, Some("foo.x")), "no world named `x` in document");
}

#[test]
fn names_are_split_at_the_first_dot() {
    let resolve = resolve_of(vec![package("p", vec![("foo", true)])]);
    assert_eq!(selection_error(&resolve, 0, Some("foo.w.w")), "no world named `w.w` in document");
    assert_eq!(selection_error(&resolve, 0, Some("foo.")), "no world named `` in document");
    assert_eq!(selection_error(&resolve, 0, Some(".w")), "no document named `` in package");
    assert_eq!(selection_error(&resolve, 0, Some("")), "no document named `` in package");
}

#[test]
fn the_only_default_world_is_selected() {
    let resolve = resolve_of(vec![package("p", vec![("foo", false), ("bar", true)])]);
    assert_eq!(resolve.select_world(0, None).unwrap(), 1);
}

#[test]
fn a_package_without_documents_has_no_world() {
    let resolve = resolve_of(vec![package("p", vec![])]);
    assert_eq!(selection_error(&resolve, 0, None), "no documents found in package");
}

#[test]
fn a_package_may_have_no_default_world() {
    let resolve = resolve_of(vec![package("p", vec![("foo", false)])]);
    assert_eq!(selection_error(&resolve, 0, None), "no default world in package");
}

#[test]
fn one_of_several_default_worlds_must_be_named() {
    let resolve = resolve_of(vec![package("p", vec![("foo", true), ("bar", true)])]);
    assert_eq!(
        selection_error(&resolve, 0, None),
        "multiple default worlds found in package, one must be specified"
    );
    assert_eq!(resolve.select_world(0, Some("foo")).unwrap(), 0);
}

#[test]
fn default_worlds_of_other_packages_do_not_count() {
    let resolve = resolve_of(vec![
        package("p", vec![("foo", true)]),
        package("q", vec![("bar", true)]),
        package("r", vec![("baz", false)]),
    ]);
    assert_eq!(resolve.select_world(0, None).unwrap(), 0);
    assert_eq!(resolve.select_world(1, None).unwrap(), 1);
    assert_eq!(selection_error(&resolve, 2, None), "no default world in package");
}

#[test]
fn a_document_under_two_names_has_one_default_world() {
    let mut resolve = resolve_of(vec![package("p", vec![("foo", true), ("bar", false)])]);
    let id = resolve.packages.iter().next().unwrap().0;
    resolve.packages[id].documents.insert("again".to_string(), 0);
    assert_eq!(resolve.select_world(0, None).unwrap(), 0);
    assert_eq!(resolve.select_world(0, Some("again")).unwrap(), 0);
}
