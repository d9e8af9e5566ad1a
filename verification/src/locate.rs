//! The URLs of interfaces.
use url::Url;
use vstd::pervasive::unreached;
use vstd::prelude::*;

use crate::arena;
use crate::error::{failure, sentence, Error, ErrorView};
use crate::host::{can_parse, parses};
use crate::resolve::{Resolve, ResolveView};
use crate::types::{text, InterfaceId, PackageView};

verus! {

/// `url::Url`.
#[verifier::external_type_specification]
#[verifier::external_body]
pub struct ExUrl(url::Url);

/// What `Url::parse` makes of a text, if it is a URL.
pub uninterp spec fn parsed_url(text: Seq<char>) -> Option<Url>;

/// What `PathSegmentsMut::push` makes of a URL and a segment, if the URL has a path with segments.
pub uninterp spec fn with_segment(url: Url, segment: Seq<char>) -> Option<Url>;

/// What `Url::to_string` makes of a URL.
pub uninterp spec fn text_of(url: Url) -> Seq<char>;

/// `Url::parse`: the URL that a text stands for, or none. Of the URL it is only claimed that it
/// follows from the text. A label of a host that has to be encoded, and is very long, may make it
/// panic with overflow checks on. So may a text that is longer than 2 GiB.
#[verifier::external_body]
fn parse_url(text: &str) -> (url: Option<Url>)
    requires
        can_parse(text@),
    ensures
        url == parsed_url(text@),
{
    Url::parse(text).ok()
}

/// `Url::path_segments_mut` and `PathSegmentsMut::push`: adds a segment to the path of a URL,
/// unless the path has no segments. Of the URL it is only claimed that it follows from the one
/// before and the segment. A URL holds positions in its text as 32-bit numbers, and panics where
/// they are not enough. Its text is ASCII, a character of the segment may become twelve, and
/// slashes are added.
#[verifier::external_body]
fn push_segment(url: &mut Url, segment: &str) -> (done: bool)
    requires
        can_push_segment(*old(url), segment@),
    ensures
        with_segment(*old(url), segment@) == if done {
            Some(*final(url))
        } else {
            None
        },
{
    match url.path_segments_mut() {
        Ok(mut path) => {
            path.push(segment);
            true
        },
        Err(()) => false,
    }
}

/// `Url::to_string`: the text of a URL, of which it is only claimed that it follows from the URL.
#[verifier::external_body]
fn url_text(url: &Url) -> (text: String)
    ensures
        text@ == text_of(*url),
{
    url.to_string()
}

/// What comes of adding two segments to the path of a URL.
pub enum Extended {
    /// The URL with the segments.
    Url(String),
    /// The text is not a URL, or its path has no segments.
    Refused,
    /// The text is too long, so that it was not tried.
    TooLong,
}

/// What comes of adding two segments to the path of a URL, with the characters of the URL.
pub enum ExtendedView {
    Url(Seq<char>),
    Refused,
    TooLong,
}

impl View for Extended {
    type V = ExtendedView;

    open spec fn view(&self) -> ExtendedView {
        match *self {
            Extended::Url(url) => ExtendedView::Url(url@),
            Extended::Refused => ExtendedView::Refused,
            Extended::TooLong => ExtendedView::TooLong,
        }
    }
}

/// The text of a URL has room for a segment.
pub open spec fn can_push_segment(url: Url, segment: Seq<char>) -> bool {
    text_of(url).len() + 12 * segment.len() + 2 <= u32::MAX
}

/// What a URL and two segments become when the segments are pushed to its path.
pub open spec fn with_segments(url: Url, first: Seq<char>, second: Seq<char>) -> ExtendedView {
    if !can_push_segment(url, first) {
        ExtendedView::TooLong
    } else {
        match with_segment(url, first) {
            None => ExtendedView::Refused,
            Some(url) => if !can_push_segment(url, second) {
                ExtendedView::TooLong
            } else {
                match with_segment(url, second) {
                    None => ExtendedView::Refused,
                    Some(url) => ExtendedView::Url(text_of(url)),
                }
            },
        }
    }
}

/// What a text and two segments become when the text is parsed as a URL and the segments are pushed
/// to its path.
pub open spec fn extended(base: Seq<char>, first: Seq<char>, second: Seq<char>) -> ExtendedView {
    if !can_parse(base) {
        ExtendedView::TooLong
    } else {
        match parsed_url(base) {
            None => ExtendedView::Refused,
            Some(url) => with_segments(url, first, second),
        }
    }
}

/// Whether the text of a URL has room for a segment.
fn has_room(url: &Url, segment: &str) -> (room: bool)
    ensures
        room == can_push_segment(*url, segment@),
{
    let len: usize = url_text(url).as_str().unicode_len();
    (len as u128) + 12 * (segment.unicode_len() as u128) + 2 <= 0xffff_ffff
}

/// Adds two segments to the path of a URL.
pub fn extend_url(base: &str, first: &str, second: &str) -> (result: Extended)
    ensures
        result@ == extended(base@, first@, second@),
{
    if !parses(base) {
        return Extended::TooLong;
    }
    match parse_url(base) {
        None => Extended::Refused,
        Some(url) => {
            let mut url = url;
            if !has_room(&url, first) {
                return Extended::TooLong;
            }
            if !push_segment(&mut url, first) {
                return Extended::Refused;
            }
            if !has_room(&url, second) {
                return Extended::TooLong;
            }
            if !push_segment(&mut url, second) {
                return Extended::Refused;
            }
            Extended::Url(url_text(&url))
        },
    }
}

impl ResolveView {
    /// The package that an interface is defined in.
    pub open spec fn package_of(self, id: InterfaceId) -> PackageView {
        let doc = self.documents[self.interfaces[id as int].document as int];
        self.packages[doc.package.unwrap() as int]
    }

    /// The interface is there, and so are the document and the package that it is defined in.
    pub open spec fn has_package(self, id: InterfaceId) -> bool {
        &&& id < self.interfaces.len()
        &&& self.interfaces[id as int].document < self.documents.len()
        &&& self.documents[self.interfaces[id as int].document as int].package matches Some(p) && p
            < self.packages.len()
    }

    /// What comes of extending the URL of a package by the names of the document of an interface
    /// and of the interface itself, if there are a URL and a name.
    pub open spec fn extension(self, id: InterfaceId) -> Option<ExtendedView> {
        let iface = self.interfaces[id as int];
        match (self.package_of(id).url, iface.name) {
            (Some(url), Some(name)) => Some(
                extended(url, self.documents[iface.document as int].name, name),
            ),
            _ => None,
        }
    }

    /// An interface that has a name in a package that has a URL has one itself.
    pub open spec fn can_locate(self, id: InterfaceId) -> bool {
        self.extension(id) matches Some(result) ==> result is Url
    }

    /// The URL of an interface: that of its package, with the names of its document and its own as
    /// further segments.
    pub open spec fn url_of(self, id: InterfaceId) -> Option<Seq<char>> {
        match self.extension(id) {
            Some(ExtendedView::Url(url)) => Some(url),
            _ => None,
        }
    }
}

/// The error for a package whose URL was not extended.
pub open spec fn url_error(package: PackageView, too_long: bool) -> ErrorView {
    failure(
        "package `"@ + package.name + if too_long {
            "` has a URL that is too long to be extended"@
        } else {
            "` has a URL that cannot be extended"@
        },
    )
}

impl Resolve {
    /// Extends the URL of the package of an interface, if there are a URL and a name.
    fn extension(&self, interface: InterfaceId) -> (result: Option<Extended>)
        requires
            self@.has_package(interface),
        ensures
            match result {
                Some(result) => self@.extension(interface) == Some(result@),
                None => self@.extension(interface).is_none(),
            },
    {
        let iface = arena::item(&self.interfaces, interface);
        assert(iface@ == self@.interfaces[interface as int]);
        let doc = arena::item(&self.documents, iface.document);
        assert(doc@ == self@.documents[iface.document as int]);
        let package = arena::item(&self.packages, doc.package.unwrap());
        assert(package@ == self@.package_of(interface));
        match (&package.url, &iface.name) {
            (Some(url), Some(name)) => Some(
                extend_url(url.as_str(), doc.name.as_str(), name.as_str()),
            ),
            _ => None,
        }
    }

    /// Returns the URL of the specified `interface`, if available.
    ///
    /// This currently creates a URL based on the URL of the package that `interface` resides in. If
    /// the package owner of `interface` does not specify a URL then `None` will be returned.
    ///
    /// If the `interface` specified does not have a name then `None` will be returned as well.
    pub fn url_of(&self, interface: InterfaceId) -> (url: Option<String>)
        requires
            self@.has_package(interface),
            self@.can_locate(interface),
        ensures
            text(url) == self@.url_of(interface),
    {
        match self.extension(interface) {
            Some(Extended::Url(url)) => Some(url),
            Some(_) => unreached(),
            None => None,
        }
    }

    /// Returns what [`Resolve::url_of`] does, where the URL of the package can be extended, and an
    /// error where it cannot, or where it is too long to be tried.
    pub fn checked_url_of(&self, interface: InterfaceId) -> (result: Result<Option<String>, Error>)
        requires
            self@.has_package(interface),
        ensures
            match result {
                Ok(url) => self@.can_locate(interface) && text(url) == self@.url_of(interface),
                Err(error) => !self@.can_locate(interface) && error@ == url_error(
                    self@.package_of(interface),
                    self@.extension(interface) == Some(ExtendedView::TooLong),
                ),
            },
    {
        let end = match self.extension(interface) {
            None | Some(Extended::Url(_)) => return Ok(self.url_of(interface)),
            Some(Extended::Refused) => "` has a URL that cannot be extended",
            Some(Extended::TooLong) => "` has a URL that is too long to be extended",
        };
        let iface = arena::item(&self.interfaces, interface);
        assert(iface@ == self@.interfaces[interface as int]);
        let doc = arena::item(&self.documents, iface.document);
        assert(doc@ == self@.documents[iface.document as int]);
        let package = arena::item(&self.packages, doc.package.unwrap());
        Err(Error::new(sentence("package `", package.name.as_str(), end)))
    }
}

} // verus!
