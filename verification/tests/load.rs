//! Loading of a package along with its dependencies.
use indexmap::IndexMap;
use wit_resolve::load::{missing_dependency, Loader};
use wit_resolve::order::sort_packages;
use wit_resolve::package::UnresolvedPackage;
use wit_resolve::resolve::Resolve;
use wit_resolve::types::{Document, Span};

fn span(start: u32) -> Span {
    Span { start, end: start + 1 }
}

fn graph(deps: Vec<Vec<usize>>) -> Vec<Vec<(usize, Span)>> {
    deps.into_iter()
        .enumerate()
        .map(|(i, deps)| {
            deps.into_iter()
                .enumerate()
                .map(|(j, dep)| (dep, span(10 * i as u32 + j as u32)))
                .collect()
        })
        .collect()
}

#[test]
fn packages_follow_what_they_depend_on() {
    let deps = graph(vec![vec![1, 2], vec![3], vec![3], vec![]]);
    assert_eq!(sort_packages(&vec![0, 1, 2, 3], &deps).unwrap(), [3, 1, 2, 0]);
    assert_eq!(sort_packages(&vec![2, 0], &deps).unwrap(), [3, 2, 1, 0]);
    assert_eq!(sort_packages(&vec![], &deps).unwrap().len(), 0);
}

#[test]
fn a_cycle_is_an_error() {
    let deps = graph(vec![vec![1], vec![2], vec![1]]);
    let (number, error) = sort_packages(&vec![0, 1, 2], &deps).unwrap_err();
    assert_eq!(number, 2);
    assert_eq!(error.msg, "package depends on itself");
    assert_eq!(error.span, Some(span(20)));
}

#[test]
fn a_package_that_depends_on_itself_is_an_error() {
    let deps = graph(vec![vec![0]]);
    let (number, error) = sort_packages(&vec![0], &deps).unwrap_err();
    assert_eq!(number, 0);
    assert_eq!(error.msg, "package depends on itself");
    assert_eq!(error.span, Some(span(0)));
}

fn document(name: &str) -> Document {
    Document {
        name: name.to_string(),
        interfaces: IndexMap::new(),
        worlds: IndexMap::new(),
        default_interface: None,
        default_world: None,
        package: None,
    }
}

/// A package that refers to document `types` of each of its dependencies, and has such a document
/// itself.
fn package(name: &str, deps: Vec<&str>) -> UnresolvedPackage {
    let mut pkg = UnresolvedPackage::new(name.to_string());
    for (i, dep) in deps.into_iter().enumerate() {
        let mut docs = IndexMap::new();
        docs.insert("types".to_string(), i);
        pkg.foreign_deps.insert(dep.to_string(), docs);
        pkg.foreign_dep_spans.push(span(100 + i as u32));
        pkg.documents.alloc(document("types"));
        pkg.document_spans.push(span(200 + i as u32));
    }
    pkg.documents.alloc(document("types"));
    pkg
}

fn add(loader: &mut Loader, expected: (usize, Option<&str>), deps: Vec<&str>) -> Vec<(String, Span)> {
    let request = loader.next().unwrap();
    assert_eq!(request.number, expected.0);
    assert_eq!(request.name.as_deref(), expected.1);
    let url = expected.1.map(|name| format!("path:/{name}"));
    assert_eq!(request.url, url);
    let name = expected.1.unwrap_or("root");
    loader.add(request, package(name, deps))
}

fn names(new: &Vec<(String, Span)>) -> Vec<&str> {
    new.iter().map(|(name, _)| name.as_str()).collect()
}

#[test]
fn packages_are_parsed_once() {
    let mut loader = Loader::new();
    let new = add(&mut loader, (0, None), vec!["a", "b"]);
    assert_eq!(names(&new), ["a", "b"]);
    assert_eq!(new[1].1, span(101));
    let new = add(&mut loader, (2, Some("b")), vec!["a", "c"]);
    assert_eq!(names(&new), ["c"]);
    assert_eq!(new[0].1, span(101));
    let new = add(&mut loader, (3, Some("c")), vec!["a"]);
    assert_eq!(names(&new), Vec::<&str>::new());
    add(&mut loader, (1, Some("a")), vec![]);
    assert!(loader.next().is_none());
    assert!(loader.next().is_none());
}

#[test]
fn loaded_packages_are_pushed_in_order() {
    let mut loader = Loader::new();
    add(&mut loader, (0, None), vec!["a", "b"]);
    add(&mut loader, (2, Some("b")), vec!["a"]);
    add(&mut loader, (1, Some("a")), vec![]);
    assert!(loader.next().is_none());
    let mut resolve = Resolve::new();
    let (id, order) = resolve.push_all(loader).unwrap();
    assert_eq!(id, 2);
    assert_eq!(order, [1, 2, 0]);
    let packages: Vec<(String, Option<String>)> =
        resolve.packages.iter().map(|(_, p)| (p.name.clone(), p.url.clone())).collect();
    assert_eq!(
        packages,
        [
            ("a".to_string(), Some("path:/a".to_string())),
            ("b".to_string(), Some("path:/b".to_string())),
            ("root".to_string(), None),
        ]
    );
}

#[test]
fn a_package_alone_is_pushed() {
    let mut loader = Loader::new();
    add(&mut loader, (0, None), vec![]);
    assert!(loader.next().is_none());
    let mut resolve = Resolve::new();
    let (id, order) = resolve.push_all(loader).unwrap();
    assert_eq!((id, order), (0, vec![0]));
}

#[test]
fn packages_in_a_cycle_are_not_pushed() {
    let mut loader = Loader::new();
    add(&mut loader, (0, None), vec!["a"]);
    add(&mut loader, (1, Some("a")), vec!["b"]);
    add(&mut loader, (2, Some("b")), vec!["a"]);
    let mut resolve = Resolve::new();
    let (number, error) = resolve.push_all(loader).unwrap_err();
    assert_eq!(number, 2);
    assert_eq!(error.msg, "package depends on itself");
    assert_eq!(error.span, Some(span(100)));
    assert_eq!(resolve.packages.len(), 0);
}

#[test]
fn a_package_that_cannot_be_linked_is_named() {
    let mut loader = Loader::new();
    add(&mut loader, (0, None), vec!["a"]);
    let request = loader.next().unwrap();
    loader.add(request, UnresolvedPackage::new("a".to_string()));
    assert!(loader.next().is_none());
    let mut resolve = Resolve::new();
    let (number, error) = resolve.push_all(loader).unwrap_err();
    assert_eq!(number, 0);
    assert_eq!(error.msg, "package `a` does not define document `types`");
    assert_eq!(error.span, Some(span(200)));
    assert_eq!(resolve.packages.len(), 1);
}

#[test]
fn a_dependency_that_is_not_there_is_an_error() {
    let error = missing_dependency("a", "wit/deps/a", span(7));
    assert_eq!(error.msg, "dependency on `a` doesn't exist at: wit/deps/a");
    assert_eq!(error.span, Some(span(7)));
}
