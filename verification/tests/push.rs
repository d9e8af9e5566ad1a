//! Pushing packages into a resolve.
use indexmap::IndexMap;
use wit_resolve::package::UnresolvedPackage;
use wit_resolve::resolve::Resolve;
use wit_resolve::types::{
    Document, Enum, Field, Function, Interface, Param, Record, Results, Span, Type, TypeDef,
    TypeDefKind, TypeOwner, World, WorldItem,
};

fn span(start: u32) -> Span {
    Span { start, end: start + 1 }
}

fn document(name: &str) -> Document {
    Document {
        name: name.to_string(),
        interfaces: IndexMap::new(),
        worlds: IndexMap::new(),
        default_interface: None,
        default_world: None,
        package: None,
    }
}

fn interface(name: Option<&str>, document: usize) -> Interface {
    Interface {
        name: name.map(|n| n.to_string()),
        types: IndexMap::new(),
        functions: IndexMap::new(),
        document,
    }
}

fn world(name: &str, document: usize) -> World {
    World {
        name: name.to_string(),
        imports: IndexMap::new(),
        exports: IndexMap::new(),
        document,
    }
}

fn function(name: &str, param: Type) -> Function {
    Function {
        name: name.to_string(),
        params: vec![Param { name: "x".to_string(), ty: param }],
        results: Results::Anon(Type::Bool),
    }
}

/// A package with one document, one interface in it and two types in that.
fn library() -> UnresolvedPackage {
    let mut pkg = UnresolvedPackage::new("library".to_string());
    pkg.url = Some("https://example.com/library".to_string());
    let mut doc = document("errors");
    doc.interfaces.insert("codes".to_string(), 0);
    doc.default_interface = Some(0);
    pkg.documents.alloc(doc);
    let mut codes = interface(Some("codes"), 0);
    codes.types.insert("pair".to_string(), 0);
    codes.types.insert("code".to_string(), 1);
    pkg.interfaces.alloc(codes);
    pkg.types.alloc(TypeDef {
        name: Some("pair".to_string()),
        kind: TypeDefKind::Record(Record {
            fields: vec![
                Field { name: "a".to_string(), ty: Type::U32 },
                Field { name: "b".to_string(), ty: Type::U64 },
            ],
        }),
        owner: TypeOwner::Interface(0),
    });
    pkg.types.alloc(TypeDef {
        name: Some("code".to_string()),
        kind: TypeDefKind::Enum(Enum { cases: vec!["ok".to_string()] }),
        owner: TypeOwner::Interface(0),
    });
    pkg
}

/// A package whose interface uses a type of the library, with a world that imports it.
fn client() -> UnresolvedPackage {
    let mut pkg = UnresolvedPackage::new("client".to_string());
    let mut docs = IndexMap::new();
    docs.insert("errors".to_string(), 0);
    pkg.foreign_deps.insert("library".to_string(), docs);
    pkg.foreign_dep_spans.push(span(10));
    pkg.documents.alloc(document("errors"));
    pkg.document_spans.push(span(11));
    pkg.interfaces.alloc(interface(Some("codes"), 0));
    pkg.interface_spans.push(span(12));
    pkg.types.alloc(TypeDef {
        name: Some("pair".to_string()),
        kind: TypeDefKind::Unknown,
        owner: TypeOwner::Interface(0),
    });
    pkg.unknown_type_spans.push(span(13));

    let mut main = document("main");
    main.interfaces.insert("api".to_string(), 1);
    main.worlds.insert("service".to_string(), 0);
    main.default_world = Some(0);
    pkg.documents.alloc(main);
    let mut api = interface(Some("api"), 1);
    api.types.insert("pair".to_string(), 1);
    api.functions.insert("send".to_string(), function("send", Type::Id(1)));
    pkg.interfaces.alloc(api);
    pkg.types.alloc(TypeDef {
        name: Some("pair".to_string()),
        kind: TypeDefKind::Type(Type::Id(0)),
        owner: TypeOwner::Interface(1),
    });
    let mut service = world("service", 1);
    service.imports.insert("api".to_string(), WorldItem::Interface(1));
    service.exports.insert("run".to_string(), WorldItem::Function(function("run", Type::Id(1))));
    pkg.worlds.alloc(service);
    pkg.world_spans.push((vec![span(20)], vec![span(21)]));
    pkg
}

fn no_deps() -> IndexMap<String, usize> {
    IndexMap::new()
}

fn with_library() -> (Resolve, IndexMap<String, usize>) {
    let mut resolve = Resolve::new();
    let id = resolve.push(library(), &no_deps()).unwrap();
    let mut deps = IndexMap::new();
    deps.insert("library".to_string(), id);
    (resolve, deps)
}

fn names(items: &IndexMap<String, WorldItem>) -> Vec<String> {
    items.keys().cloned().collect()
}

fn items<T>(arena: &id_arena::Arena<T>) -> Vec<&T> {
    arena.iter().map(|(_, item)| item).collect()
}

#[test]
fn a_new_resolve_is_empty() {
    let resolve = Resolve::new();
    assert_eq!(resolve.types.len(), 0);
    assert_eq!(resolve.interfaces.len(), 0);
    assert_eq!(resolve.worlds.len(), 0);
    assert_eq!(resolve.documents.len(), 0);
    assert_eq!(resolve.packages.len(), 0);
    let other = Resolve::default();
    assert_eq!(other.packages.len(), 0);
}

#[test]
fn a_package_without_dependencies_is_pushed() {
    let mut resolve = Resolve::new();
    let id = resolve.push(library(), &no_deps()).unwrap();
    assert_eq!(id, 0);
    let package = items(&resolve.packages)[0];
    assert_eq!(package.name, "library");
    assert_eq!(package.url.as_deref(), Some("https://example.com/library"));
    assert_eq!(package.documents.get("errors"), Some(&0));
    let doc = items(&resolve.documents)[0];
    assert_eq!(doc.package, Some(0));
    assert_eq!(doc.default_interface, Some(0));
    let types = items(&resolve.types);
    assert_eq!(types.len(), 2);
    assert_eq!(types[1].owner, TypeOwner::Interface(0));
}

#[test]
fn references_to_another_package_are_linked() {
    let (mut resolve, deps) = with_library();
    let id = resolve.push(client(), &deps).unwrap();
    assert_eq!(id, 1);
    let types = items(&resolve.types);
    assert_eq!(types.len(), 3);
    assert_eq!(types[2].owner, TypeOwner::Interface(1));
    assert!(matches!(types[2].kind, TypeDefKind::Type(Type::Id(0))));
    let api = items(&resolve.interfaces)[1];
    assert_eq!(api.types.get("pair"), Some(&2));
    assert_eq!(api.document, 1);
    assert_eq!(api.functions.get("send").unwrap().params[0].ty, Type::Id(2));
    let docs = items(&resolve.documents);
    assert_eq!(docs.len(), 2);
    assert_eq!(docs[1].name, "main");
    assert_eq!(docs[1].package, Some(1));
    assert_eq!(docs[1].default_world, Some(0));
}

#[test]
fn a_world_imports_what_its_imports_use() {
    let (mut resolve, deps) = with_library();
    resolve.push(client(), &deps).unwrap();
    let service = items(&resolve.worlds)[0];
    assert_eq!(names(&service.imports), ["codes", "api"]);
    assert!(matches!(service.imports["codes"], WorldItem::Interface(0)));
    assert!(matches!(service.imports["api"], WorldItem::Interface(1)));
    assert_eq!(names(&service.exports), ["run"]);
    match &service.exports["run"] {
        WorldItem::Function(f) => assert_eq!(f.params[0].ty, Type::Id(2)),
        _ => panic!("expected a function"),
    }
    assert_eq!(service.document, 1);
}

#[test]
fn an_exported_interface_imports_what_it_uses() {
    let (mut resolve, deps) = with_library();
    let mut pkg = client();
    let mut exporter = world("exporter", 1);
    exporter.exports.insert("api".to_string(), WorldItem::Interface(1));
    pkg.worlds.alloc(exporter);
    pkg.world_spans.push((vec![], vec![span(30)]));
    resolve.push(pkg, &deps).unwrap();
    let exporter = items(&resolve.worlds)[1];
    assert_eq!(names(&exporter.imports), ["codes"]);
    assert_eq!(names(&exporter.exports), ["api"]);
}

#[test]
fn an_exported_interface_exports_what_the_world_exports() {
    let (mut resolve, deps) = with_library();
    let mut pkg = client();
    let mut exporter = world("exporter", 1);
    exporter.exports.insert("api".to_string(), WorldItem::Interface(1));
    exporter.exports.insert("renamed".to_string(), WorldItem::Interface(0));
    pkg.worlds.alloc(exporter);
    pkg.world_spans.push((vec![], vec![span(30), span(31)]));
    resolve.push(pkg, &deps).unwrap();
    let exporter = items(&resolve.worlds)[1];
    assert_eq!(names(&exporter.imports), Vec::<String>::new());
    assert_eq!(names(&exporter.exports), ["renamed", "api"]);
    assert!(matches!(exporter.exports["renamed"], WorldItem::Interface(0)));
}

#[test]
fn an_imported_type_imports_the_interface_it_comes_from() {
    let (mut resolve, deps) = with_library();
    let mut pkg = client();
    let mut typed = world("typed", 1);
    pkg.types.alloc(TypeDef {
        name: Some("pair".to_string()),
        kind: TypeDefKind::Type(Type::Id(0)),
        owner: TypeOwner::World(1),
    });
    typed.imports.insert("pair".to_string(), WorldItem::Type(2));
    pkg.worlds.alloc(typed);
    pkg.world_spans.push((vec![span(40)], vec![]));
    resolve.push(pkg, &deps).unwrap();
    let typed = items(&resolve.worlds)[1];
    assert_eq!(names(&typed.imports), ["codes", "pair"]);
    assert!(matches!(typed.imports["pair"], WorldItem::Type(3)));
    assert_eq!(items(&resolve.types)[3].owner, TypeOwner::World(1));
}

#[test]
fn what_was_there_before_stays() {
    let (mut resolve, deps) = with_library();
    resolve.push(client(), &deps).unwrap();
    let types = items(&resolve.types);
    match &types[0].kind {
        TypeDefKind::Record(r) => {
            assert_eq!(r.fields.len(), 2);
            assert_eq!(r.fields[1].name, "b");
            assert_eq!(r.fields[1].ty, Type::U64);
        }
        _ => panic!("expected a record"),
    }
    assert_eq!(items(&resolve.packages)[0].name, "library");
    assert_eq!(items(&resolve.documents)[0].package, Some(0));
}

#[test]
fn a_missing_dependency_is_an_error() {
    let mut resolve = Resolve::new();
    let error = resolve.push(client(), &no_deps()).unwrap_err();
    assert_eq!(error.msg, "no package dependency specified for `library`");
    assert_eq!(error.span, Some(span(10)));
    assert_eq!(resolve.types.len(), 0);
}

#[test]
fn a_missing_document_is_an_error() {
    let (mut resolve, deps) = with_library();
    let mut pkg = client();
    let mut docs = IndexMap::new();
    docs.insert("nowhere".to_string(), 0);
    pkg.foreign_deps.insert("library".to_string(), docs);
    let error = resolve.push(pkg, &deps).unwrap_err();
    assert_eq!(error.msg, "package `library` does not define document `nowhere`");
    assert_eq!(error.span, Some(span(11)));
}

#[test]
fn a_missing_interface_is_an_error() {
    let (mut resolve, deps) = with_library();
    let mut pkg = client();
    let id = pkg.interfaces.iter().next().unwrap().0;
    pkg.interfaces[id].name = Some("other".to_string());
    let error = resolve.push(pkg, &deps).unwrap_err();
    assert_eq!(error.msg, "interface not defined in document");
    assert_eq!(error.span, Some(span(12)));
}

#[test]
fn a_missing_default_interface_is_an_error() {
    let mut resolve = Resolve::new();
    let mut lib = library();
    let doc = lib.documents.iter().next().unwrap().0;
    lib.documents[doc].default_interface = None;
    let id = resolve.push(lib, &no_deps()).unwrap();
    let mut deps = IndexMap::new();
    deps.insert("library".to_string(), id);
    let mut pkg = client();
    let iface = pkg.interfaces.iter().next().unwrap().0;
    pkg.interfaces[iface].name = None;
    let error = resolve.push(pkg, &deps).unwrap_err();
    assert_eq!(error.msg, "default interface not specified in document");
    assert_eq!(error.span, Some(span(12)));
}

#[test]
fn a_default_interface_is_linked() {
    let (mut resolve, deps) = with_library();
    let mut pkg = client();
    let iface = pkg.interfaces.iter().next().unwrap().0;
    pkg.interfaces[iface].name = None;
    resolve.push(pkg, &deps).unwrap();
    assert_eq!(resolve.interfaces.len(), 2);
}

#[test]
fn a_missing_type_is_an_error() {
    let (mut resolve, deps) = with_library();
    let mut pkg = client();
    let id = pkg.types.iter().next().unwrap().0;
    pkg.types[id].name = Some("triple".to_string());
    let error = resolve.push(pkg, &deps).unwrap_err();
    assert_eq!(error.msg, "type not defined in interface");
    assert_eq!(error.span, Some(span(13)));
    assert_eq!(resolve.types.len(), 2);
}

#[test]
fn a_name_in_use_is_an_error() {
    let (mut resolve, deps) = with_library();
    let mut pkg = client();
    let mut clash = world("clash", 1);
    clash.imports.insert("codes".to_string(), WorldItem::Interface(1));
    pkg.worlds.alloc(clash);
    pkg.world_spans.push((vec![span(50)], vec![]));
    let error = resolve.push(pkg, &deps).unwrap_err();
    assert_eq!(
        error.msg,
        "import of `codes` conflicts with a previous interface using the name `codes`\n"
    );
    assert_eq!(error.span, Some(span(50)));
}

#[test]
fn a_conflict_names_the_chain_that_led_to_it() {
    let (mut resolve, deps) = with_library();
    let mut pkg = client();
    let mut clash = world("clash", 1);
    pkg.interfaces.alloc(interface(Some("plain"), 1));
    let main = pkg.documents.iter().nth(1).unwrap().0;
    pkg.documents[main].interfaces.insert("plain".to_string(), 2);
    clash.imports.insert("codes".to_string(), WorldItem::Interface(2));
    clash.imports.insert("api".to_string(), WorldItem::Interface(1));
    pkg.worlds.alloc(clash);
    pkg.world_spans.push((vec![span(50), span(51)], vec![]));
    let error = resolve.push(pkg, &deps).unwrap_err();
    assert_eq!(
        error.msg,
        "import of `codes`\n  .. which is depended on by import `api`\nconflicts with a previous interface using the name `codes`\n"
    );
    assert_eq!(error.span, Some(span(51)));
}

#[test]
fn a_failed_world_leaves_types_and_interfaces_behind() {
    let (mut resolve, deps) = with_library();
    let mut pkg = client();
    let mut clash = world("clash", 1);
    clash.imports.insert("codes".to_string(), WorldItem::Interface(1));
    pkg.worlds.alloc(clash);
    pkg.world_spans.push((vec![span(50)], vec![]));
    assert!(resolve.push(pkg, &deps).is_err());
    assert_eq!(resolve.types.len(), 3);
    assert_eq!(resolve.interfaces.len(), 2);
    assert_eq!(resolve.worlds.len(), 1);
    assert_eq!(resolve.documents.len(), 1);
    assert_eq!(resolve.packages.len(), 1);
}

#[test]
fn an_imported_function_must_not_shadow_an_interface() {
    let (mut resolve, deps) = with_library();
    let mut pkg = client();
    let mut clash = world("clash", 1);
    clash.imports.insert("api".to_string(), WorldItem::Interface(1));
    clash
        .imports
        .insert("codes".to_string(), WorldItem::Function(function("codes", Type::Bool)));
    pkg.worlds.alloc(clash);
    pkg.world_spans.push((vec![span(50), span(51)], vec![]));
    let error = resolve.push(pkg, &deps).unwrap_err();
    assert_eq!(
        error.msg,
        "import of function `codes` shadows previously imported interface"
    );
    assert_eq!(error.span, Some(span(51)));
}

#[test]
fn an_imported_type_must_not_shadow_an_interface() {
    let (mut resolve, deps) = with_library();
    let mut pkg = client();
    let mut clash = world("clash", 1);
    clash.imports.insert("api".to_string(), WorldItem::Interface(1));
    clash.imports.insert("codes".to_string(), WorldItem::Type(1));
    pkg.worlds.alloc(clash);
    pkg.world_spans.push((vec![span(50), span(51)], vec![]));
    let error = resolve.push(pkg, &deps).unwrap_err();
    assert_eq!(
        error.msg,
        "export of type `codes` shadows previously imported interface"
    );
    assert_eq!(error.span, Some(span(51)));
}

#[test]
fn exported_functions_follow_exported_interfaces() {
    let (mut resolve, deps) = with_library();
    let mut pkg = client();
    let mut clash = world("clash", 1);
    clash
        .exports
        .insert("codes".to_string(), WorldItem::Function(function("codes", Type::Bool)));
    clash.exports.insert("first".to_string(), WorldItem::Interface(1));
    pkg.worlds.alloc(clash);
    pkg.world_spans.push((vec![], vec![span(50), span(51)]));
    resolve.push(pkg, &deps).unwrap();
    let clash = items(&resolve.worlds)[1];
    assert_eq!(names(&clash.exports), ["first", "codes"]);
}

/// Adds an interface with a type that stands for another type of the same interface.
fn add_alias(pkg: &mut UnresolvedPackage, name: Option<&str>) -> usize {
    let id = pkg.interfaces.len();
    let first = pkg.types.len();
    let mut iface = interface(name, 1);
    iface.types.insert("a".to_string(), first);
    iface.types.insert("b".to_string(), first + 1);
    pkg.interfaces.alloc(iface);
    for (name, kind) in
        [("a", TypeDefKind::Type(Type::U32)), ("b", TypeDefKind::Type(Type::Id(first)))]
    {
        pkg.types.alloc(TypeDef {
            name: Some(name.to_string()),
            kind,
            owner: TypeOwner::Interface(id),
        });
    }
    id
}

#[test]
fn an_interface_without_a_name_may_use_its_own_types() {
    let (mut resolve, deps) = with_library();
    let mut pkg = client();
    let inner = add_alias(&mut pkg, None);
    let other = add_alias(&mut pkg, None);
    let mut inline = world("inline", 1);
    inline.imports.insert("x".to_string(), WorldItem::Interface(inner));
    inline.exports.insert("y".to_string(), WorldItem::Interface(other));
    pkg.worlds.alloc(inline);
    pkg.world_spans.push((vec![span(60)], vec![span(61)]));
    resolve.push(pkg, &deps).unwrap();
    let inline = items(&resolve.worlds)[1];
    assert_eq!(names(&inline.imports), ["x"]);
    assert!(matches!(inline.imports["x"], WorldItem::Interface(2)));
    assert_eq!(names(&inline.exports), ["y"]);
    assert!(matches!(inline.exports["y"], WorldItem::Interface(3)));
}

#[test]
fn an_exported_interface_does_not_import_itself() {
    let (mut resolve, deps) = with_library();
    let mut pkg = client();
    let alias = add_alias(&mut pkg, Some("alias"));
    let main = pkg.documents.iter().nth(1).unwrap().0;
    pkg.documents[main].interfaces.insert("alias".to_string(), alias);
    let mut exporter = world("exporter", 1);
    exporter.exports.insert("alias".to_string(), WorldItem::Interface(alias));
    pkg.worlds.alloc(exporter);
    pkg.world_spans.push((vec![], vec![span(60)]));
    resolve.push(pkg, &deps).unwrap();
    let exporter = items(&resolve.worlds)[1];
    assert_eq!(names(&exporter.imports), Vec::<String>::new());
    assert_eq!(names(&exporter.exports), ["alias"]);
}

#[test]
fn a_world_may_name_an_interface_that_another_one_uses() {
    let (mut resolve, deps) = with_library();
    let mut pkg = client();
    let inner = add_alias(&mut pkg, None);
    let of_inner = pkg.types.len() - 1;
    let user = pkg.interfaces.len();
    let mut iface = interface(Some("user"), 1);
    iface.types.insert("b".to_string(), of_inner + 1);
    pkg.interfaces.alloc(iface);
    pkg.types.alloc(TypeDef {
        name: Some("b".to_string()),
        kind: TypeDefKind::Type(Type::Id(of_inner)),
        owner: TypeOwner::Interface(user),
    });
    let main = pkg.documents.iter().nth(1).unwrap().0;
    pkg.documents[main].interfaces.insert("user".to_string(), user);
    let mut inline = world("inline", 1);
    inline.imports.insert("user".to_string(), WorldItem::Interface(user));
    inline.imports.insert("x".to_string(), WorldItem::Interface(inner));
    pkg.worlds.alloc(inline);
    pkg.world_spans.push((vec![span(60), span(61)], vec![]));
    resolve.push(pkg, &deps).unwrap();
    let inline = items(&resolve.worlds)[1];
    assert_eq!(names(&inline.imports), ["x", "user"]);
    assert!(matches!(inline.imports["x"], WorldItem::Interface(2)));
    assert!(matches!(inline.imports["user"], WorldItem::Interface(3)));
}

#[test]
fn a_world_holds_nothing_that_it_does_not_need() {
    let (mut resolve, deps) = with_library();
    let mut pkg = client();
    let alias = add_alias(&mut pkg, Some("alias"));
    let main = pkg.documents.iter().nth(1).unwrap().0;
    pkg.documents[main].interfaces.insert("alias".to_string(), alias);
    let mut small = world("small", 1);
    small.imports.insert("alias".to_string(), WorldItem::Interface(alias));
    pkg.worlds.alloc(small);
    pkg.world_spans.push((vec![span(60)], vec![]));
    resolve.push(pkg, &deps).unwrap();
    let small = items(&resolve.worlds)[1];
    assert_eq!(names(&small.imports), ["alias"]);
    assert_eq!(small.exports.len(), 0);
}

#[test]
fn an_interface_that_several_others_use_is_imported_once() {
    let (mut resolve, deps) = with_library();
    let mut pkg = client();
    let mut both = world("both", 1);
    both.imports.insert("api".to_string(), WorldItem::Interface(1));
    both.imports.insert("codes".to_string(), WorldItem::Interface(0));
    pkg.types.alloc(TypeDef {
        name: Some("pair".to_string()),
        kind: TypeDefKind::Type(Type::Id(0)),
        owner: TypeOwner::World(1),
    });
    both.imports.insert("pair".to_string(), WorldItem::Type(2));
    pkg.worlds.alloc(both);
    pkg.world_spans.push((vec![span(60), span(61), span(62)], vec![]));
    resolve.push(pkg, &deps).unwrap();
    let both = items(&resolve.worlds)[1];
    assert_eq!(names(&both.imports), ["codes", "api", "pair"]);
}

#[test]
fn what_follows_on_a_conflict_is_not_looked_at() {
    let (mut resolve, deps) = with_library();
    let mut pkg = client();
    add_alias(&mut pkg, None);
    let of_inner = pkg.types.len() - 1;
    let mut clash = world("clash", 1);
    clash.imports.insert("codes".to_string(), WorldItem::Interface(1));
    pkg.types.alloc(TypeDef {
        name: Some("b".to_string()),
        kind: TypeDefKind::Type(Type::Id(of_inner)),
        owner: TypeOwner::World(1),
    });
    clash.imports.insert("b".to_string(), WorldItem::Type(of_inner + 1));
    pkg.worlds.alloc(clash);
    pkg.world_spans.push((vec![span(50), span(51)], vec![]));
    let error = resolve.push(pkg, &deps).unwrap_err();
    assert_eq!(
        error.msg,
        "import of `codes` conflicts with a previous interface using the name `codes`\n"
    );
    assert_eq!(error.span, Some(span(50)));
}

/// Every interface comes after the other interfaces that it uses.
fn assert_sorted(resolve: &Resolve) {
    let types = items(&resolve.types);
    let mut uses = 0;
    for (id, (_, iface)) in resolve.interfaces.iter().enumerate() {
        for ty in iface.types.values() {
            if let TypeDefKind::Type(Type::Id(other)) = types[*ty].kind {
                if let TypeOwner::Interface(owner) = types[other].owner {
                    assert!(owner <= id);
                    uses += 1;
                }
            }
        }
    }
    assert!(uses > 0);
}

#[test]
fn interfaces_stay_sorted() {
    let (mut resolve, deps) = with_library();
    resolve.push(client(), &deps).unwrap();
    assert_sorted(&resolve);
    let mut other = Resolve::new();
    other.push(client_of_nothing(), &no_deps()).unwrap();
    other.merge(resolve).unwrap();
    assert_sorted(&other);
}

/// A package with one interface and no world.
fn client_of_nothing() -> UnresolvedPackage {
    let mut pkg = UnresolvedPackage::new("alone".to_string());
    let mut doc = document("main");
    doc.interfaces.insert("alone".to_string(), 0);
    pkg.documents.alloc(doc);
    pkg.interfaces.alloc(interface(Some("alone"), 0));
    pkg
}

#[test]
fn spans_are_read_only_where_they_are_needed() {
    let (mut resolve, deps) = with_library();
    let mut pkg = client();
    pkg.document_spans.clear();
    resolve.push(pkg, &deps).unwrap();
    assert_eq!(resolve.packages.len(), 2);

    let (mut resolve, _) = with_library();
    let mut pkg = client();
    pkg.document_spans.clear();
    pkg.interface_spans.clear();
    pkg.unknown_type_spans.clear();
    let error = resolve.push(pkg, &no_deps()).unwrap_err();
    assert_eq!(error.msg, "no package dependency specified for `library`");
}

#[test]
fn what_stands_for_items_of_other_packages_is_not_looked_into() {
    let (mut resolve, deps) = with_library();
    let mut pkg = client();
    let doc = pkg.documents.iter().next().unwrap().0;
    pkg.documents[doc].interfaces.insert("nowhere".to_string(), 100);
    pkg.documents[doc].default_world = Some(100);
    let iface = pkg.interfaces.iter().next().unwrap().0;
    pkg.interfaces[iface].types.insert("nothing".to_string(), 100);
    resolve.push(pkg, &deps).unwrap();
    assert_eq!(items(&resolve.interfaces)[0].types.len(), 2);
    assert_eq!(items(&resolve.documents)[0].interfaces.len(), 1);
}

#[test]
fn a_resolve_can_be_used_after_a_push_that_failed() {
    let (mut resolve, deps) = with_library();
    let mut pkg = client();
    let more = document("more");
    pkg.documents.alloc(more);
    let plain = pkg.interfaces.len();
    pkg.interfaces.alloc(interface(Some("plain"), 2));
    let last = pkg.documents.iter().nth(2).unwrap().0;
    pkg.documents[last].interfaces.insert("plain".to_string(), plain);
    let mut clash = world("clash", 2);
    clash.imports.insert("codes".to_string(), WorldItem::Interface(1));
    pkg.worlds.alloc(clash);
    pkg.world_spans.push((vec![span(50)], vec![]));
    assert!(resolve.push(pkg, &deps).is_err());
    assert_eq!(resolve.documents.len(), 1);
    assert_eq!(items(&resolve.interfaces)[2].document, 2);

    assert!(resolve.all_bits_valid(&Type::Id(0)));
    assert!(!resolve.all_bits_valid(&Type::Id(1)));
    assert_eq!(
        resolve.select_world(0, None).unwrap_err().msg,
        "no default world in package"
    );
    assert_eq!(
        resolve.checked_url_of(0).unwrap().as_deref(),
        Some("https://example.com/library/errors/codes")
    );
    let id = resolve.push(client(), &deps).unwrap();
    assert_eq!(id, 1);
    assert_eq!(resolve.documents.len(), 2);
    assert_eq!(resolve.select_world(id, None).unwrap(), 1);
    resolve.merge_worlds(0, 0).unwrap_err();
    let mut other = Resolve::new();
    other.push(client_of_nothing(), &no_deps()).unwrap();
    let remap = resolve.merge(other).unwrap();
    assert_eq!(remap.packages, [2]);
}

#[test]
fn what_follows_on_a_reference_to_nothing_is_not_looked_at() {
    let (mut resolve, deps) = with_library();
    let mut pkg = client();
    let first = pkg.types.iter().next().unwrap().0;
    pkg.types[first].name = Some("other".to_string());
    pkg.world_spans.clear();
    let main = pkg.documents.iter().nth(1).unwrap().0;
    pkg.documents[main].interfaces.insert("nowhere".to_string(), 100);
    let error = resolve.push(pkg, &deps).unwrap_err();
    assert_eq!(error.msg, "type not defined in interface");

    let mut pkg = client();
    let first = pkg.interfaces.iter().next().unwrap().0;
    pkg.interfaces[first].name = Some("other".to_string());
    pkg.types.alloc(TypeDef {
        name: None,
        kind: TypeDefKind::Unknown,
        owner: TypeOwner::Unowned,
    });
    let error = resolve.push(pkg, &deps).unwrap_err();
    assert_eq!(error.msg, "interface not defined in document");
}

#[test]
fn dependencies_that_nothing_refers_to_are_not_looked_up() {
    let (mut resolve, mut deps) = with_library();
    deps.insert("other".to_string(), 100);
    assert_eq!(resolve.push(client(), &deps).unwrap(), 1);
}

#[test]
fn documents_are_not_looked_at_if_a_world_fails() {
    let (mut resolve, deps) = with_library();
    let mut pkg = client();
    let mut clash = world("clash", 100);
    clash.imports.insert("codes".to_string(), WorldItem::Interface(1));
    pkg.worlds.alloc(clash);
    pkg.world_spans.push((vec![span(50)], vec![]));
    pkg.documents.alloc(document("main"));
    let error = resolve.push(pkg, &deps).unwrap_err();
    assert_eq!(
        error.msg,
        "import of `codes` conflicts with a previous interface using the name `codes`\n"
    );

    let mut lib = library();
    let codes = lib.interfaces.iter().next().unwrap().0;
    lib.interfaces[codes].types.clear();
    let mut into = Resolve::new();
    into.push(lib, &no_deps()).unwrap();
    let error = into.merge(resolve).unwrap_err();
    assert_eq!(error.msg, "expected type `pair` to be present");
}
