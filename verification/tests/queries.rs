//! Questions about types and interfaces.
use indexmap::IndexMap;
use wit_resolve::locate::{extend_url, Extended};
use wit_resolve::package::UnresolvedPackage;
use wit_resolve::resolve::Resolve;
use wit_resolve::types::{
    Case, Document, Enum, Field, Flags, Interface, Record, Result_, Stream, Tuple, Type, TypeDef,
    TypeDefKind, TypeOwner, Union, Variant,
};

fn push_type(pkg: &mut UnresolvedPackage, kind: TypeDefKind) -> Type {
    let id = pkg.types.len();
    pkg.types.alloc(TypeDef { name: None, kind, owner: TypeOwner::Unowned });
    Type::Id(id)
}

fn record(types: Vec<Type>) -> TypeDefKind {
    let fields = types
        .into_iter()
        .enumerate()
        .map(|(i, ty)| Field { name: format!("f{i}"), ty })
        .collect();
    TypeDefKind::Record(Record { fields })
}

#[test]
fn every_bit_pattern_of_a_number_is_valid() {
    let resolve = Resolve::new();
    for ty in [
        Type::U8,
        Type::U16,
        Type::U32,
        Type::U64,
        Type::S8,
        Type::S16,
        Type::S32,
        Type::S64,
        Type::Float32,
        Type::Float64,
    ] {
        assert!(resolve.all_bits_valid(&ty));
    }
    for ty in [Type::Bool, Type::Char, Type::String] {
        assert!(!resolve.all_bits_valid(&ty));
    }
}

#[test]
fn every_bit_pattern_of_records_and_tuples_may_be_valid() {
    let mut pkg = UnresolvedPackage::new("p".to_string());
    let good = push_type(&mut pkg, record(vec![Type::U8, Type::Float64]));
    let bad = push_type(&mut pkg, record(vec![Type::U8, Type::Bool]));
    let empty = push_type(&mut pkg, record(vec![]));
    let pair = push_type(&mut pkg, TypeDefKind::Tuple(Tuple { types: vec![good, Type::S8] }));
    let mixed = push_type(&mut pkg, TypeDefKind::Tuple(Tuple { types: vec![pair, bad] }));
    let alias = push_type(&mut pkg, TypeDefKind::Type(pair));
    let bad_alias = push_type(&mut pkg, TypeDefKind::Type(mixed));
    let mut resolve = Resolve::new();
    resolve.push(pkg, &IndexMap::new()).unwrap();
    assert!(resolve.all_bits_valid(&good));
    assert!(!resolve.all_bits_valid(&bad));
    assert!(resolve.all_bits_valid(&empty));
    assert!(resolve.all_bits_valid(&pair));
    assert!(!resolve.all_bits_valid(&mixed));
    assert!(resolve.all_bits_valid(&alias));
    assert!(!resolve.all_bits_valid(&bad_alias));
}

#[test]
fn other_types_have_bit_patterns_that_are_not_valid() {
    let mut pkg = UnresolvedPackage::new("p".to_string());
    let kinds = vec![
        TypeDefKind::Flags(Flags { flags: vec!["a".to_string()] }),
        TypeDefKind::Variant(Variant {
            cases: vec![Case { name: "a".to_string(), ty: Some(Type::U8) }],
        }),
        TypeDefKind::Enum(Enum { cases: vec!["a".to_string()] }),
        TypeDefKind::Option(Type::U8),
        TypeDefKind::Result(Result_ { ok: Some(Type::U8), err: None }),
        TypeDefKind::Union(Union { cases: vec![Type::U8] }),
        TypeDefKind::List(Type::U8),
        TypeDefKind::Future(Some(Type::U8)),
        TypeDefKind::Stream(Stream { element: Some(Type::U8), end: None }),
    ];
    let types: Vec<Type> = kinds.into_iter().map(|kind| push_type(&mut pkg, kind)).collect();
    let mut resolve = Resolve::new();
    resolve.push(pkg, &IndexMap::new()).unwrap();
    for ty in types {
        assert!(!resolve.all_bits_valid(&ty));
    }
}

#[test]
fn later_types_change_nothing() {
    let mut pkg = UnresolvedPackage::new("p".to_string());
    let good = push_type(&mut pkg, record(vec![Type::U8]));
    let mut resolve = Resolve::new();
    resolve.push(pkg, &IndexMap::new()).unwrap();
    let mut more = UnresolvedPackage::new("q".to_string());
    push_type(&mut more, record(vec![Type::Bool]));
    assert!(resolve.all_bits_valid(&good));
    resolve.push(more, &IndexMap::new()).unwrap();
    assert!(resolve.all_bits_valid(&good));
    assert!(!resolve.all_bits_valid(&Type::Id(1)));
}

/// A resolve with one interface, in document `types` of a package with the given URL.
fn located(url: Option<&str>, name: Option<&str>) -> Resolve {
    let mut pkg = UnresolvedPackage::new("p".to_string());
    pkg.url = url.map(|u| u.to_string());
    let mut doc = Document {
        name: "types".to_string(),
        interfaces: IndexMap::new(),
        worlds: IndexMap::new(),
        default_interface: None,
        default_world: None,
        package: None,
    };
    if let Some(name) = name {
        doc.interfaces.insert(name.to_string(), 0);
    }
    pkg.documents.alloc(doc);
    pkg.interfaces.alloc(Interface {
        name: name.map(|n| n.to_string()),
        types: IndexMap::new(),
        functions: IndexMap::new(),
        document: 0,
    });
    let mut resolve = Resolve::new();
    resolve.push(pkg, &IndexMap::new()).unwrap();
    resolve
}

#[test]
fn the_url_of_an_interface_extends_that_of_its_package() {
    let resolve = located(Some("https://example.com/wasi"), Some("errno"));
    let expected = "https://example.com/wasi/types/errno";
    assert_eq!(resolve.url_of(0).as_deref(), Some(expected));
    assert_eq!(resolve.checked_url_of(0).unwrap().as_deref(), Some(expected));
    let resolve = located(Some("path:/dep"), Some("errno"));
    assert_eq!(resolve.url_of(0).as_deref(), Some("path:/dep/types/errno"));
}

#[test]
fn segments_of_a_url_are_escaped() {
    let resolve = located(Some("https://example.com/?q=1"), Some("a b/c"));
    assert_eq!(
        resolve.url_of(0).as_deref(),
        Some("https://example.com/types/a%20b%2Fc?q=1")
    );
}

#[test]
fn an_interface_without_a_name_has_no_url() {
    let resolve = located(Some("https://example.com/wasi"), None);
    assert_eq!(resolve.url_of(0), None);
    assert_eq!(resolve.checked_url_of(0).unwrap(), None);
    let resolve = located(Some("not a url"), None);
    assert_eq!(resolve.checked_url_of(0).unwrap(), None);
}

#[test]
fn an_interface_of_a_package_without_a_url_has_none() {
    let resolve = located(None, Some("errno"));
    assert_eq!(resolve.url_of(0), None);
    assert_eq!(resolve.checked_url_of(0).unwrap(), None);
}

#[test]
fn a_url_that_cannot_be_extended_is_an_error() {
    for url in ["not a url", "mailto:someone@example.com"] {
        let resolve = located(Some(url), Some("errno"));
        let error = resolve.checked_url_of(0).unwrap_err();
        assert_eq!(error.msg, "package `p` has a URL that cannot be extended");
        assert_eq!(error.span, None);
    }
}

#[test]
fn a_host_may_have_long_labels() {
    let label = "a".repeat(32799);
    let resolve = located(Some(&format!("http://{label}.com")), Some("errno"));
    assert_eq!(resolve.url_of(0), Some(format!("http://{label}.com/types/errno")));
    let resolve = located(Some("http://b\u{fc}cher.example/x"), Some("errno"));
    assert_eq!(resolve.url_of(0).as_deref(), Some("http://xn--bcher-kva.example/x/types/errno"));
    for label in ["\u{e9}".repeat(20_000), "\u{4e00}".repeat(60_000), "\u{1f600}".repeat(1_200)] {
        let resolve = located(Some(&format!("http://{label}/")), Some("errno"));
        let url = resolve.url_of(0).unwrap();
        assert!(url.starts_with("http://xn--") && url.ends_with("/types/errno"));
    }
}

#[test]
fn labels_of_a_host_that_are_too_long_to_be_encoded_are_an_error() {
    let label = "a".repeat(32799);
    let long = "\u{e9}".repeat(22_459);
    for host in [format!("{label}\u{20000}"), long, "%".repeat(643)] {
        for url in [
            format!("http://{host}"),
            format!("HTTPS:{host}/x"),
            format!("\twss:/\\/me@x.{host}?y"),
            format!("f\ntp://{host}"),
            format!("file://{host}/x"),
        ] {
            let resolve = located(Some(&url), Some("errno"));
            let error = resolve.checked_url_of(0).unwrap_err();
            assert_eq!(error.msg, "package `p` has a URL that is too long to be extended");
            assert_eq!(error.span, None);
        }
    }
}

#[test]
fn what_is_not_in_a_host_may_be_long() {
    let long = "\u{10ffff}".repeat(201);
    let escaped = "%F4%8F%BF%BF".repeat(201);
    for (base, expected) in [
        (format!("path:/{long}"), format!("path:/{escaped}/types/errno")),
        (format!("x://{long}/"), format!("x://{escaped}/types/errno")),
        (format!("http://a.b/{long}"), format!("http://a.b/{escaped}/types/errno")),
        (format!("http://{long}@a.b/"), format!("http://{escaped}@a.b/types/errno")),
        (format!("http://a.b?{long}"), format!("http://a.b/types/errno?{escaped}")),
        (format!("http://a.b#{long}"), format!("http://a.b/types/errno#{escaped}")),
        (format!("file:///{long}"), format!("file:///{escaped}/types/errno")),
        (format!("file:/{long}"), format!("file:///{escaped}/types/errno")),
    ] {
        let resolve = located(Some(&base), Some("errno"));
        assert_eq!(resolve.url_of(0), Some(expected.clone()));
        assert_eq!(resolve.checked_url_of(0).unwrap(), Some(expected));
    }
}

#[test]
fn segments_follow_each_other() {
    for (base, first, expected) in [
        ("https://a.b/", "c", "https://a.b/c/d"),
        ("https://a.b/x#y", "..", "https://a.b/x/d#y"),
    ] {
        match extend_url(base, first, "d") {
            Extended::Url(url) => assert_eq!(url, expected),
            _ => panic!("{base} was not extended"),
        }
    }
    assert!(matches!(extend_url("a b", "c", "d"), Extended::Refused));
    assert!(matches!(extend_url("mailto:x", "c", "d"), Extended::Refused));
}
