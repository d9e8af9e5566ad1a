//! What the URL of an interface is made of.
use url::Url;
use vstd::prelude::*;

use crate::host::can_parse;
use crate::locate::{can_push_segment, parsed_url, text_of, url_error, with_segment, ExtendedView};
use crate::resolve::ResolveView;
use crate::types::{DocumentId, InterfaceId, PackageId};

verus! {

/// A text is a URL that becomes another one when a segment is pushed to its path and then a second
/// one.
pub open spec fn leads_through(
    base: Seq<char>,
    first: Seq<char>,
    second: Seq<char>,
    a: Url,
    b: Url,
    c: Url,
) -> bool {
    &&& can_parse(base)
    &&& parsed_url(base) == Some(a)
    &&& can_push_segment(a, first)
    &&& with_segment(a, first) == Some(b)
    &&& can_push_segment(b, second)
    &&& with_segment(b, second) == Some(c)
}

/// A text is not too long to be parsed as a URL, and where it is one there is room for the
/// segments, up to the first that cannot be pushed.
pub open spec fn room_left(base: Seq<char>, first: Seq<char>, second: Seq<char>) -> bool {
    &&& can_parse(base)
    &&& parsed_url(base) matches Some(a) ==> {
        &&& can_push_segment(a, first)
        &&& with_segment(a, first) matches Some(b) ==> can_push_segment(b, second)
    }
}

/// The URL of an interface is that of the package which its document belongs to, with the name of
/// that document as a first and its own name as a second segment. It has none exactly if the
/// package has no URL, the interface has no name, or the URL cannot be extended that way.
pub proof fn urls_name_the_document_and_the_interface(
    resolve: ResolveView,
    id: InterfaceId,
    a: Url,
    b: Url,
    c: Url,
)
    requires
        resolve.has_package(id),
    ensures
        ({
            let iface = resolve.interfaces[id as int];
            let doc = resolve.documents[iface.document as int];
            let package = resolve.packages[doc.package.unwrap() as int];
            match (package.url, iface.name) {
                (Some(url), Some(name)) => {
                    &&& leads_through(url, doc.name, name, a, b, c) ==> resolve.can_locate(id)
                        && resolve.url_of(id) == Some(text_of(c))
                    &&& resolve.can_locate(id) ==> exists|a: Url, b: Url, c: Url|
                        #[trigger] leads_through(url, doc.name, name, a, b, c)
                            && resolve.url_of(id) == Some(text_of(c))
                },
                _ => resolve.can_locate(id) && resolve.url_of(id).is_none(),
            }
        }),
{
    let iface = resolve.interfaces[id as int];
    let doc = resolve.documents[iface.document as int];
    let package = resolve.packages[doc.package.unwrap() as int];
    if let (Some(url), Some(name)) = (package.url, iface.name) {
        if resolve.can_locate(id) {
            let x = parsed_url(url).unwrap();
            let y = with_segment(x, doc.name).unwrap();
            let z = with_segment(y, name).unwrap();
            assert(leads_through(url, doc.name, name, x, y, z));
        }
    }
}

/// If a package with a URL lists a document, and the document an interface, then the URL of that
/// interface is the URL of the package extended by the names under which they are listed.
pub proof fn listed_interfaces_are_found_at_their_names(
    resolve: ResolveView,
    p: PackageId,
    d: DocumentId,
    id: InterfaceId,
    url: Seq<char>,
    doc: Seq<char>,
    name: Seq<char>,
    a: Url,
    b: Url,
    c: Url,
)
    requires
        resolve.valid(),
        resolve.parented(),
        p < resolve.packages.len(),
        resolve.packages[p as int].url == Some(url),
        resolve.packages[p as int].documents.contains((doc, d)),
        resolve.documents[d as int].interfaces.contains((name, id)),
        leads_through(url, doc, name, a, b, c),
    ensures
        resolve.has_package(id),
        resolve.can_locate(id),
        resolve.url_of(id) == Some(text_of(c)),
{
    let documents = resolve.packages[p as int].documents;
    assert(resolve.package_valid(p as int));
    assert(resolve.package_lists(p as int));
    let k = choose|k: int| 0 <= k < documents.len() && documents[k] == (doc, d);
    assert(resolve.packages[p as int].documents[k].1 == d);
    assert(documents[k].1 < resolve.documents.len());
    assert(resolve.document_valid(d as int));
    assert(resolve.document_lists(d as int));
    let interfaces = resolve.documents[d as int].interfaces;
    let l = choose|l: int| 0 <= l < interfaces.len() && interfaces[l] == (name, id);
    assert(resolve.documents[d as int].interfaces[l].1 == id);
    assert(interfaces[l].1 < resolve.interfaces.len());
    urls_name_the_document_and_the_interface(resolve, id, a, b, c);
}

/// Where the URL of a package cannot be extended by the names of a document and of an interface of
/// it, the error names that package. It says that the URL is too long if it was not tried.
pub proof fn packages_that_cannot_be_extended_are_named(resolve: ResolveView, id: InterfaceId)
    requires
        resolve.has_package(id),
        !resolve.can_locate(id),
    ensures
        ({
            let iface = resolve.interfaces[id as int];
            let doc = resolve.documents[iface.document as int];
            let package = resolve.packages[doc.package.unwrap() as int];
            let error = url_error(
                resolve.package_of(id),
                resolve.extension(id) == Some(ExtendedView::TooLong),
            );
            &&& package.url.is_some() && iface.name.is_some()
            &&& error.span.is_none() && error.context.len() == 0
            &&& if room_left(package.url.unwrap(), doc.name, iface.name.unwrap()) {
                error.msg == "package `"@ + package.name + "` has a URL that cannot be extended"@
            } else {
                error.msg == "package `"@ + package.name
                    + "` has a URL that is too long to be extended"@
            }
        }),
{
}

} // verus!
