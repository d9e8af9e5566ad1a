//! Merging of resolves.
use indexmap::IndexMap;
use wit_resolve::package::UnresolvedPackage;
use wit_resolve::resolve::Resolve;
use wit_resolve::types::{
    Document, Function, Interface, Param, Record, Results, Span, Type, TypeDef, TypeDefKind,
    TypeOwner, World, WorldItem,
};

fn span(start: u32) -> Span {
    Span { start, end: start + 1 }
}

fn document(name: &str) -> Document {
    Document {
        name: name.to_string(),
        interfaces: IndexMap::new(),
        worlds: IndexMap::new(),
        default_interface: None,
        default_world: None,
        package: None,
    }
}

fn function(name: &str, param: Type) -> Function {
    Function {
        name: name.to_string(),
        params: vec![Param { name: "x".to_string(), ty: param }],
        results: Results::Anon(Type::Bool),
    }
}

fn items<T>(arena: &id_arena::Arena<T>) -> Vec<&T> {
    arena.iter().map(|(_, item)| item).collect()
}

/// Adds a document to a package and returns its position.
fn add_document(pkg: &mut UnresolvedPackage, name: &str) -> usize {
    pkg.documents.alloc(document(name));
    pkg.documents.len() - 1
}

/// Adds an interface with one record type and one function to a document.
fn add_interface(
    pkg: &mut UnresolvedPackage,
    doc: usize,
    name: Option<&str>,
    ty: &str,
    func: &str,
) -> usize {
    let id = pkg.interfaces.len();
    let ty_id = pkg.types.len();
    let mut iface = Interface {
        name: name.map(|n| n.to_string()),
        types: IndexMap::new(),
        functions: IndexMap::new(),
        document: doc,
    };
    iface.types.insert(ty.to_string(), ty_id);
    iface.functions.insert(func.to_string(), function(func, Type::Id(ty_id)));
    pkg.interfaces.alloc(iface);
    pkg.types.alloc(TypeDef {
        name: Some(ty.to_string()),
        kind: TypeDefKind::Record(Record { fields: vec![] }),
        owner: TypeOwner::Interface(id),
    });
    if let Some(name) = name {
        let doc_id = pkg.documents.iter().nth(doc).unwrap().0;
        pkg.documents[doc_id].interfaces.insert(name.to_string(), id);
    }
    id
}

/// Adds a world that imports and exports the given items.
fn add_world(
    pkg: &mut UnresolvedPackage,
    doc: usize,
    name: &str,
    imports: Vec<(&str, WorldItem)>,
    exports: Vec<(&str, WorldItem)>,
) {
    let id = pkg.worlds.len();
    let mut world = World {
        name: name.to_string(),
        imports: IndexMap::new(),
        exports: IndexMap::new(),
        document: doc,
    };
    let spans = (vec![span(1); imports.len()], vec![span(2); exports.len()]);
    for (name, item) in imports {
        world.imports.insert(name.to_string(), item);
    }
    for (name, item) in exports {
        world.exports.insert(name.to_string(), item);
    }
    pkg.worlds.alloc(world);
    pkg.world_spans.push(spans);
    let doc_id = pkg.documents.iter().nth(doc).unwrap().0;
    pkg.documents[doc_id].worlds.insert(name.to_string(), id);
}

fn package(name: &str, url: Option<&str>) -> UnresolvedPackage {
    let mut pkg = UnresolvedPackage::new(name.to_string());
    pkg.url = url.map(|u| u.to_string());
    pkg
}

fn resolve_of(pkgs: Vec<UnresolvedPackage>) -> Resolve {
    let mut resolve = Resolve::new();
    for pkg in pkgs {
        resolve.push(pkg, &IndexMap::new()).unwrap();
    }
    resolve
}

const URL: &str = "https://example.com/io";

/// A package with one document, one interface and one world.
fn io() -> UnresolvedPackage {
    let mut pkg = package("io", Some(URL));
    let doc = add_document(&mut pkg, "streams");
    let reader = add_interface(&mut pkg, doc, Some("reader"), "chunk", "read");
    add_world(
        &mut pkg,
        doc,
        "command",
        vec![("reader", WorldItem::Interface(reader))],
        vec![("run", WorldItem::Function(function("run", Type::U8)))],
    );
    pkg
}

fn first_interface(pkg: &mut UnresolvedPackage) -> &mut Interface {
    let id = pkg.interfaces.iter().next().unwrap().0;
    &mut pkg.interfaces[id]
}

#[test]
fn packages_with_other_names_are_added() {
    let mut into = resolve_of(vec![io()]);
    let mut other = io();
    other.name = "other".to_string();
    let from = resolve_of(vec![other]);
    let remap = into.merge(from).unwrap();
    assert_eq!(remap.packages, [1]);
    assert_eq!(remap.documents, [1]);
    assert_eq!(remap.worlds, [1]);
    assert_eq!(remap.interfaces, [1]);
    assert_eq!(remap.types, [1]);
    let packages = items(&into.packages);
    assert_eq!(packages.len(), 2);
    assert_eq!(packages[1].name, "other");
    assert_eq!(packages[1].documents.get("streams"), Some(&1));
    let docs = items(&into.documents);
    assert_eq!(docs[1].package, Some(1));
    assert_eq!(docs[1].interfaces.get("reader"), Some(&1));
    assert_eq!(docs[1].worlds.get("command"), Some(&1));
    let reader = items(&into.interfaces)[1];
    assert_eq!(reader.document, 1);
    assert_eq!(reader.types.get("chunk"), Some(&1));
    assert_eq!(reader.functions.get("read").unwrap().params[0].ty, Type::Id(1));
    assert_eq!(items(&into.types)[1].owner, TypeOwner::Interface(1));
    let command = items(&into.worlds)[1];
    assert_eq!(command.document, 1);
    assert!(matches!(command.imports["reader"], WorldItem::Interface(1)));
}

#[test]
fn packages_without_a_url_are_added() {
    let mut mine = io();
    mine.url = None;
    let mut theirs = io();
    theirs.url = None;
    let mut into = resolve_of(vec![mine]);
    let remap = into.merge(resolve_of(vec![theirs])).unwrap();
    assert_eq!(remap.packages, [1]);
    assert_eq!(into.packages.len(), 2);
    assert_eq!(into.types.len(), 2);
}

#[test]
fn the_same_package_is_not_added_twice() {
    let mut into = resolve_of(vec![io()]);
    let remap = into.merge(resolve_of(vec![io()])).unwrap();
    assert_eq!(remap.packages, [0]);
    assert_eq!(remap.documents, [0]);
    assert_eq!(remap.worlds, [0]);
    assert_eq!(remap.interfaces, [0]);
    assert_eq!(remap.types, [0]);
    assert_eq!(into.packages.len(), 1);
    assert_eq!(into.documents.len(), 1);
    assert_eq!(into.worlds.len(), 1);
    assert_eq!(into.interfaces.len(), 1);
    assert_eq!(into.types.len(), 1);
}

#[test]
fn the_same_package_is_unioned() {
    let mut into = resolve_of(vec![package("first", None), io()]);
    let mut more = io();
    let writer = add_interface(&mut more, 0, Some("writer"), "buffer", "write");
    add_world(&mut more, 0, "service", vec![("writer", WorldItem::Interface(writer))], vec![]);
    let files = add_document(&mut more, "files");
    add_interface(&mut more, files, Some("stat"), "size", "stat");
    let remap = into.merge(resolve_of(vec![more])).unwrap();
    assert_eq!(remap.packages, [1]);
    assert_eq!(remap.documents, [0, 1]);
    assert_eq!(remap.interfaces, [0, 1, 2]);
    assert_eq!(remap.worlds, [0, 1]);
    assert_eq!(remap.types, [0, 1, 2]);
    let pkg = items(&into.packages)[1];
    assert_eq!(pkg.documents.keys().collect::<Vec<_>>(), ["streams", "files"]);
    let docs = items(&into.documents);
    assert_eq!(docs[0].interfaces.keys().collect::<Vec<_>>(), ["reader", "writer"]);
    assert_eq!(docs[0].interfaces.get("writer"), Some(&1));
    assert_eq!(docs[0].worlds.keys().collect::<Vec<_>>(), ["command", "service"]);
    assert_eq!(docs[0].worlds.get("service"), Some(&1));
    assert_eq!(docs[1].name, "files");
    assert_eq!(docs[1].package, Some(1));
    assert_eq!(items(&into.interfaces)[1].document, 0);
    assert_eq!(items(&into.interfaces)[2].document, 1);
    assert_eq!(items(&into.types)[2].owner, TypeOwner::Interface(2));
}

#[test]
fn what_the_other_resolve_lacks_stays() {
    let mut more = io();
    add_interface(&mut more, 0, Some("writer"), "buffer", "write");
    let mut into = resolve_of(vec![more]);
    let remap = into.merge(resolve_of(vec![io()])).unwrap();
    assert_eq!(remap.interfaces, [0]);
    assert_eq!(into.interfaces.len(), 2);
    let docs = items(&into.documents);
    assert_eq!(docs[0].interfaces.keys().collect::<Vec<_>>(), ["reader", "writer"]);
}

#[test]
fn two_packages_of_one_name_and_url_are_an_error() {
    let mut into = resolve_of(vec![io(), io()]);
    let error = into.merge(Resolve::new()).unwrap_err();
    assert_eq!(
        error.msg,
        "found duplicate name/url combination in current resolve: io/Some(\"https://example.com/io\")"
    );
    assert_eq!(error.context.len(), 0);
    assert_eq!(error.span, None);
}

#[test]
fn a_quote_in_a_url_is_escaped() {
    let mut a = io();
    a.url = Some("x:\"y\"".to_string());
    let mut b = io();
    b.url = Some("x:\"y\"".to_string());
    let mut into = resolve_of(vec![a, b]);
    let error = into.merge(Resolve::new()).unwrap_err();
    assert_eq!(
        error.msg,
        "found duplicate name/url combination in current resolve: io/Some(\"x:\\\"y\\\"\")"
    );
}

#[test]
fn packages_without_a_url_may_share_a_name() {
    let mut into = resolve_of(vec![package("io", None), package("io", None)]);
    let remap = into.merge(Resolve::new()).unwrap();
    assert_eq!(remap.packages.len(), 0);
    assert_eq!(into.packages.len(), 2);
}

#[test]
fn an_interface_with_another_type_is_an_error() {
    let mut into = resolve_of(vec![io()]);
    let mut other = io();
    let types = &mut first_interface(&mut other).types;
    types.clear();
    types.insert("block".to_string(), 0);
    let error = into.merge(resolve_of(vec![other])).unwrap_err();
    assert_eq!(error.msg, "expected type `block` to be present");
    assert_eq!(
        error.context,
        [
            "failed to merge interface `reader`",
            "failed to merge document `streams` into existing copy",
            "failed to merge package `io` into existing copy",
        ]
    );
    assert_eq!(into.types.len(), 1);
    assert_eq!(into.packages.len(), 1);
}

#[test]
fn an_interface_with_another_function_is_an_error() {
    let mut into = resolve_of(vec![io()]);
    let mut other = io();
    first_interface(&mut other)
        .functions
        .insert("poll".to_string(), function("poll", Type::Bool));
    let error = into.merge(resolve_of(vec![other])).unwrap_err();
    assert_eq!(error.msg, "expected function `poll` to be present");
    assert_eq!(error.context[0], "failed to merge interface `reader`");
}

/// A package with a world that imports and exports the given items and nothing else.
fn world_of(
    imports: Vec<(&str, WorldItem)>,
    exports: Vec<(&str, WorldItem)>,
) -> UnresolvedPackage {
    let mut pkg = package("io", Some(URL));
    let doc = add_document(&mut pkg, "streams");
    add_interface(&mut pkg, doc, Some("reader"), "chunk", "read");
    add_interface(&mut pkg, doc, Some("writer"), "buffer", "write");
    add_interface(&mut pkg, doc, None, "inner", "call");
    pkg.types.alloc(TypeDef {
        name: Some("local".to_string()),
        kind: TypeDefKind::List(Type::U8),
        owner: TypeOwner::World(0),
    });
    add_world(&mut pkg, doc, "command", imports, exports);
    pkg
}

fn run(name: &str) -> WorldItem {
    WorldItem::Function(function(name, Type::Bool))
}

#[test]
fn worlds_with_the_same_items_match() {
    let items = || {
        vec![
            ("reader", WorldItem::Interface(0)),
            ("inline", WorldItem::Interface(2)),
            ("run", run("run")),
            ("local", WorldItem::Type(3)),
        ]
    };
    let exports = || vec![("writer", WorldItem::Interface(1))];
    let mut into = resolve_of(vec![world_of(items(), exports())]);
    let remap = into.merge(resolve_of(vec![world_of(items(), exports())])).unwrap();
    assert_eq!(remap.worlds, [0]);
    assert_eq!(remap.interfaces, [0, 1, 2]);
    assert_eq!(remap.types, [0, 1, 2, 3]);
    assert_eq!(into.types.len(), 4);
}

fn world_error(
    mine: (Vec<(&str, WorldItem)>, Vec<(&str, WorldItem)>),
    theirs: (Vec<(&str, WorldItem)>, Vec<(&str, WorldItem)>),
) -> (String, Vec<String>) {
    let mut into = resolve_of(vec![world_of(mine.0, mine.1)]);
    let from = resolve_of(vec![world_of(theirs.0, theirs.1)]);
    let error = into.merge(from).unwrap_err();
    assert_eq!(into.worlds.len(), 1);
    (error.msg, error.context)
}

#[test]
fn worlds_with_more_imports_are_an_error() {
    let (msg, context) = world_error((vec![], vec![]), (vec![("run", run("run"))], vec![]));
    assert_eq!(msg, "world contains different number of imports than expected");
    assert_eq!(context[0], "failed to merge world `command`");
}

#[test]
fn worlds_with_more_exports_are_an_error() {
    let (msg, _) = world_error((vec![], vec![]), (vec![], vec![("run", run("run"))]));
    assert_eq!(msg, "world contains different number of exports than expected");
}

#[test]
fn worlds_with_other_imports_are_an_error() {
    let (msg, context) = world_error(
        (vec![("run", run("run"))], vec![]),
        (vec![("walk", run("walk"))], vec![]),
    );
    assert_eq!(msg, "import `walk` not found in target world");
    assert_eq!(context[0], "failed to merge world `command`");
}

#[test]
fn worlds_with_other_exports_are_an_error() {
    let (msg, _) = world_error(
        (vec![], vec![("run", run("run"))]),
        (vec![], vec![("walk", run("walk"))]),
    );
    assert_eq!(msg, "export `walk` not found in target world");
}

#[test]
fn world_items_of_another_kind_are_an_error() {
    let (msg, context) = world_error(
        (vec![("x", run("x"))], vec![]),
        (vec![("x", WorldItem::Interface(0))], vec![]),
    );
    assert_eq!(msg, "world items do not have the same type");
    assert_eq!(
        context[..2],
        ["import `x` didn't match target world", "failed to merge world `command`"]
    );
}

#[test]
fn world_items_of_another_interface_are_an_error() {
    let (msg, context) = world_error(
        (vec![], vec![("x", WorldItem::Interface(1))]),
        (vec![], vec![("x", WorldItem::Interface(0))]),
    );
    assert_eq!(msg, "interfaces are not the same");
    assert_eq!(context[0], "export `x` didn't match target world");
    let (msg, _) = world_error(
        (vec![("x", WorldItem::Interface(2))], vec![]),
        (vec![("x", WorldItem::Interface(0))], vec![]),
    );
    assert_eq!(msg, "interfaces are not the same");
}

#[test]
fn resolves_can_be_extended_after_a_merge() {
    let mut into = resolve_of(vec![package("first", None)]);
    into.merge(resolve_of(vec![io()])).unwrap();
    let mut client = package("client", None);
    let mut docs = IndexMap::new();
    docs.insert("streams".to_string(), 0);
    client.foreign_deps.insert("io".to_string(), docs);
    client.foreign_dep_spans.push(span(1));
    add_document(&mut client, "streams");
    client.document_spans.push(span(2));
    client.interfaces.alloc(Interface {
        name: Some("reader".to_string()),
        types: IndexMap::new(),
        functions: IndexMap::new(),
        document: 0,
    });
    client.interface_spans.push(span(3));
    let doc = add_document(&mut client, "main");
    add_world(&mut client, doc, "w", vec![("in", WorldItem::Interface(0))], vec![]);
    let mut deps = IndexMap::new();
    deps.insert("io".to_string(), 1);
    let id = into.push(client, &deps).unwrap();
    assert_eq!(id, 2);
    assert!(matches!(items(&into.worlds)[1].imports["in"], WorldItem::Interface(0)));
}

/// Every item is listed by what it says that it belongs to, and the other way round.
fn assert_parents(resolve: &Resolve) {
    let packages = items(&resolve.packages);
    let docs = items(&resolve.documents);
    let interfaces = items(&resolve.interfaces);
    let worlds = items(&resolve.worlds);
    let types = items(&resolve.types);
    for (p, package) in packages.iter().enumerate() {
        for (name, doc) in &package.documents {
            assert_eq!(docs[*doc].package, Some(p));
            assert_eq!(docs[*doc].name, *name);
        }
    }
    for (d, doc) in docs.iter().enumerate() {
        assert_eq!(packages[doc.package.unwrap()].documents.get(&doc.name), Some(&d));
        for (name, id) in &doc.interfaces {
            assert_eq!(interfaces[*id].document, d);
            assert_eq!(interfaces[*id].name.as_ref(), Some(name));
        }
        for (name, id) in &doc.worlds {
            assert_eq!(worlds[*id].document, d);
            assert_eq!(worlds[*id].name, *name);
        }
    }
    for (i, iface) in interfaces.iter().enumerate() {
        if let Some(name) = &iface.name {
            assert_eq!(docs[iface.document].interfaces.get(name), Some(&i));
        }
        for (name, id) in &iface.types {
            assert_eq!(types[*id].owner, TypeOwner::Interface(i));
            assert_eq!(types[*id].name.as_ref(), Some(name));
        }
    }
    for (w, world) in worlds.iter().enumerate() {
        assert_eq!(docs[world.document].worlds.get(&world.name), Some(&w));
        for (name, item) in &world.imports {
            if let WorldItem::Type(id) = item {
                assert_eq!(types[*id].owner, TypeOwner::World(w));
                assert_eq!(types[*id].name.as_ref(), Some(name));
            }
        }
    }
    for (t, ty) in types.iter().enumerate() {
        if let TypeOwner::Interface(i) = ty.owner {
            assert_eq!(interfaces[i].types.get(ty.name.as_ref().unwrap()), Some(&t));
        }
    }
}

#[test]
fn every_item_can_be_traced_back() {
    let imports = || vec![("inline", WorldItem::Interface(2)), ("local", WorldItem::Type(3))];
    let mut into = resolve_of(vec![package("first", None), world_of(imports(), vec![])]);
    assert_parents(&into);
    let mut more = world_of(imports(), vec![]);
    let files = add_document(&mut more, "files");
    add_interface(&mut more, files, Some("stat"), "size", "stat");
    add_interface(&mut more, 0, Some("poll"), "event", "poll");
    let mut other = world_of(imports(), vec![]);
    other.name = "other".to_string();
    let from = resolve_of(vec![other, more]);
    assert_parents(&from);
    into.merge(from).unwrap();
    assert_parents(&into);
    assert_eq!(into.packages.len(), 3);
    assert_eq!(into.documents.len(), 3);
    into.merge_worlds(1, 0).unwrap_err();
    assert_parents(&into);
}

#[test]
fn a_merge_that_fails_changes_nothing() {
    let mut into = resolve_of(vec![io()]);
    let mut other = io();
    first_interface(&mut other)
        .functions
        .insert("poll".to_string(), function("poll", Type::Bool));
    let mut extra = io();
    extra.name = "extra".to_string();
    assert!(into.merge(resolve_of(vec![extra, other])).is_err());
    assert_eq!(into.packages.len(), 1);
    assert_eq!(into.documents.len(), 1);
    assert_eq!(into.interfaces.len(), 1);
    assert_eq!(into.types.len(), 1);
    assert_parents(&into);
}

#[test]
fn a_copy_holds_the_same_items() {
    let items_of = |resolve: &Resolve| format!("{:?}", items(&resolve.types));
    let original = resolve_of(vec![
        io(),
        world_of(vec![("run", run("run"))], vec![("x", WorldItem::Interface(1))]),
    ]);
    let mut copy = original.clone();
    assert_eq!(items_of(&copy), items_of(&original));
    assert_eq!(format!("{:?}", items(&copy.interfaces)), format!("{:?}", items(&original.interfaces)));
    assert_eq!(format!("{:?}", items(&copy.worlds)), format!("{:?}", items(&original.worlds)));
    assert_eq!(format!("{:?}", items(&copy.documents)), format!("{:?}", items(&original.documents)));
    assert_eq!(format!("{:?}", items(&copy.packages)), format!("{:?}", items(&original.packages)));
    assert_eq!(copy.packages.len(), 2);
    copy.push(package("more", None), &IndexMap::new()).unwrap();
    assert_eq!(copy.packages.len(), 3);
    assert_eq!(original.packages.len(), 2);
    assert_parents(&copy);
}

#[test]
fn merging_into_an_empty_resolve_makes_a_copy() {
    let from = resolve_of(vec![package("first", None), io()]);
    let expected = from.clone();
    let mut into = Resolve::new();
    let remap = into.merge(from).unwrap();
    assert_eq!(remap.packages, [0, 1]);
    assert_eq!(remap.types, [0]);
    assert_eq!(format!("{:?}", items(&into.types)), format!("{:?}", items(&expected.types)));
    assert_eq!(format!("{:?}", items(&into.worlds)), format!("{:?}", items(&expected.worlds)));
    let remap = into.merge(Resolve::new()).unwrap();
    assert_eq!(remap.packages.len(), 0);
    assert_eq!(format!("{:?}", items(&into.packages)), format!("{:?}", items(&expected.packages)));
}

fn contents(resolve: &Resolve) -> [String; 5] {
    [
        format!("{:?}", items(&resolve.packages)),
        format!("{:?}", items(&resolve.documents)),
        format!("{:?}", items(&resolve.interfaces)),
        format!("{:?}", items(&resolve.worlds)),
        format!("{:?}", items(&resolve.types)),
    ]
}

/// A resolve with an interface without a name, two documents, and a world that refers to both.
fn shared() -> Resolve {
    let mut more = io();
    let inner = add_interface(&mut more, 0, None, "line", "next");
    let files = add_document(&mut more, "files");
    let stat = add_interface(&mut more, files, Some("stat"), "size", "stat");
    add_world(
        &mut more,
        files,
        "service",
        vec![("lines", WorldItem::Interface(inner)), ("stat", WorldItem::Interface(stat))],
        vec![("reader", WorldItem::Interface(0))],
    );
    let doc = more.interfaces.iter().nth(inner).unwrap().0;
    more.interfaces[doc].document = files;
    resolve_of(vec![more])
}

#[test]
fn merging_again_adds_nothing() {
    let mut into = resolve_of(vec![package("first", None), io()]);
    let first = into.merge(shared()).unwrap();
    assert_eq!(first.packages, [1]);
    assert_eq!(first.documents, [0, 1]);
    assert_eq!(first.interfaces, [0, 1, 2]);
    assert_eq!(first.worlds, [0, 1]);
    let before = contents(&into);
    let second = into.merge(shared()).unwrap();
    assert_eq!(second.packages, first.packages);
    assert_eq!(second.documents, first.documents);
    assert_eq!(second.interfaces, first.interfaces);
    assert_eq!(second.worlds, first.worlds);
    assert_eq!(second.types, first.types);
    assert_eq!(contents(&into), before);
    assert_parents(&into);
}

#[test]
fn types_that_belong_to_nothing_are_added_again() {
    let mut from = shared();
    from.types.alloc(TypeDef {
        name: None,
        kind: TypeDefKind::List(Type::U8),
        owner: TypeOwner::Unowned,
    });
    let mut into = Resolve::new();
    let first = into.merge(from.clone()).unwrap();
    assert_eq!(first.types, [0, 1, 2, 3]);
    let before = contents(&into);
    let second = into.merge(from).unwrap();
    assert_eq!(second.types, [0, 1, 2, 4]);
    assert_eq!(second.interfaces, first.interfaces);
    assert_eq!(contents(&into)[..4], before[..4]);
    assert_eq!(into.types.len(), 5);
}
