//! Loading of a package together with everything that it depends on.
//!
//! A [`Loader`] says which package is to be parsed next and takes the parsed package back. Where
//! packages are stored, and how they are parsed, is not known here: the package to start with has
//! number zero, and the others have numbers in the order in which they are asked for.
use indexmap::IndexMap;
use vstd::prelude::*;
use vstd::string::*;

use crate::error::{failure_at, sentence, Error};
use crate::moving::fresh;
use crate::names::{self, find, lemma_find, Entries};
use crate::order::{
    depends_on, graph_of, graph_within, is_walk, lemma_reaches_self, lemma_reaches_step, reaches,
    Graph,
};
use crate::package::{UnresolvedPackage, UnresolvedView};
use crate::types::{text, Span};

verus! {

/// A package that is to be parsed.
#[derive(Debug)]
pub struct Request {
    pub number: usize,
    /// The name under which other packages depend on it, which the first package does not have.
    pub name: Option<String>,
    /// The URL that it gets.
    pub url: Option<String>,
}

/// View of a [`Request`].
#[verifier::ext_equal]
pub struct RequestView {
    pub number: usize,
    pub name: Option<Seq<char>>,
    pub url: Option<Seq<char>>,
}

impl View for Request {
    type V = RequestView;

    open spec fn view(&self) -> RequestView {
        RequestView { number: self.number, name: text(self.name), url: text(self.url) }
    }
}

/// Packages that were parsed, and those that have yet to be.
pub struct Loader {
    /// The numbers of all the dependencies that were asked for, by name.
    pub(crate) enqueued: IndexMap<String, usize>,
    /// A stack of packages that have yet to be parsed.
    pub(crate) to_parse: Vec<usize>,
    /// The packages that were parsed, in that order.
    pub(crate) parsed: Vec<usize>,
    pub(crate) packages: Vec<Option<UnresolvedPackage>>,
    /// For each package, the packages that it depends on and where it says so.
    pub(crate) deps: Vec<Vec<(usize, Span)>>,
}

/// View of a [`Loader`].
#[verifier::ext_equal]
pub struct LoaderView {
    /// The names of all the dependencies that were asked for. The first one has number one.
    pub names: Seq<Seq<char>>,
    pub to_parse: Seq<usize>,
    pub parsed: Seq<usize>,
    pub packages: Seq<Option<UnresolvedView>>,
    pub deps: Graph,
}

/// The view of an optional package.
pub open spec fn package_view(package: Option<UnresolvedPackage>) -> Option<UnresolvedView> {
    match package {
        Some(package) => Some(package@),
        None => None,
    }
}

impl View for Loader {
    type V = LoaderView;

    open(crate) spec fn view(&self) -> LoaderView {
        LoaderView {
            names: Seq::new(self.enqueued.entries().len(), |i: int| self.enqueued.entries()[i].0),
            to_parse: self.to_parse@,
            parsed: self.parsed@,
            packages: Seq::new(self.packages@.len(), |i: int| package_view(self.packages@[i])),
            deps: graph_of(self.deps@),
        }
    }
}

/// The URL of a dependency.
pub open spec fn dependency_url(name: Seq<char>) -> Seq<char> {
    "path:/"@ + name
}

/// The number of a dependency. One that is not known gets the next number.
pub open spec fn number_of(names: Seq<Seq<char>>, name: Seq<char>) -> usize {
    if names.contains(name) {
        (names.index_of(name) + 1) as usize
    } else {
        (names.len() + 1) as usize
    }
}

/// The names of all dependencies after one more was asked for.
pub open spec fn with_name(names: Seq<Seq<char>>, name: Seq<char>) -> Seq<Seq<char>> {
    if names.contains(name) {
        names
    } else {
        names.push(name)
    }
}

/// The names of all dependencies after the first `n` dependencies of a package were asked for.
pub open spec fn with_names(names: Seq<Seq<char>>, package: UnresolvedView, n: nat) -> Seq<
    Seq<char>,
>
    decreases n,
{
    if n == 0 {
        names
    } else {
        with_name(with_names(names, package, (n - 1) as nat), package.foreign_deps[n - 1].0)
    }
}

/// The first `n` dependencies of a package by number, each with the place where the package says
/// so.
pub open spec fn numbered_deps(names: Seq<Seq<char>>, package: UnresolvedView, n: nat) -> Seq<
    (usize, Span),
> {
    Seq::new(
        n,
        |i: int|
            (
                number_of(with_names(names, package, i as nat), package.foreign_deps[i].0),
                package.foreign_dep_spans[i],
            ),
    )
}

/// Those of the first `n` dependencies of a package that nothing asked for before, each with the
/// place where the package does.
pub open spec fn new_deps(names: Seq<Seq<char>>, package: UnresolvedView, n: nat) -> Seq<
    (Seq<char>, Span),
>
    decreases n,
{
    if n == 0 {
        Seq::empty()
    } else {
        let before = new_deps(names, package, (n - 1) as nat);
        let name = package.foreign_deps[n - 1].0;
        if with_names(names, package, (n - 1) as nat).contains(name) {
            before
        } else {
            before.push((name, package.foreign_dep_spans[n - 1]))
        }
    }
}

impl LoaderView {
    /// Nothing but the first package is to be parsed.
    pub open spec fn start() -> LoaderView {
        LoaderView {
            names: Seq::empty(),
            to_parse: seq![0],
            parsed: Seq::empty(),
            packages: seq![None],
            deps: seq![Seq::empty()],
        }
    }

    /// The package with a number.
    pub open spec fn request(self, number: usize) -> RequestView {
        if number == 0 {
            RequestView { number, name: None, url: None }
        } else {
            let name = self.names[number - 1];
            RequestView { number, name: Some(name), url: Some(dependency_url(name)) }
        }
    }

    /// The state once a package was parsed: what it depends on that nothing asked for before is to
    /// be parsed next, the last one first.
    pub open spec fn with_package(self, request: RequestView, package: UnresolvedView) -> LoaderView {
        let count = package.foreign_deps.len();
        let names = with_names(self.names, package, count);
        let added = (names.len() - self.names.len()) as nat;
        LoaderView {
            names,
            to_parse: self.to_parse + fresh(self.names.len() + 1, added),
            parsed: self.parsed.push(request.number),
            packages: self.packages.update(
                request.number as int,
                Some(UnresolvedView { url: request.url, ..package }),
            ) + Seq::new(added, |i: int| None::<UnresolvedView>),
            deps: self.deps.update(
                request.number as int,
                numbered_deps(self.names, package, count),
            ) + Seq::new(added, |i: int| Seq::<(usize, Span)>::empty()),
        }
    }
}

impl LoaderView {
    /// What is known of the package with a number fits together: it was parsed or has yet to be,
    /// it has the URL that was asked for, and it depends on the packages that it says it does.
    pub open spec fn package_valid(self, number: int, pending: Option<usize>) -> bool {
        match self.packages[number] {
            None => {
                &&& !self.parsed.contains(number as usize)
                &&& self.to_parse.contains(number as usize) != (pending == Some(number as usize))
                &&& self.deps[number].len() == 0
            },
            Some(package) => {
                &&& self.parsed.contains(number as usize)
                &&& !self.to_parse.contains(number as usize)
                &&& pending != Some(number as usize)
                &&& package.url == self.request(number as usize).url
                &&& self.deps[number].len() == package.foreign_deps.len()
                &&& package.foreign_dep_spans.len() >= package.foreign_deps.len()
                &&& forall|j: int|
                    0 <= j < package.foreign_deps.len() ==> #[trigger] self.deps[number][j] == (
                        number_of(self.names, package.foreign_deps[j].0),
                        package.foreign_dep_spans[j],
                    ) && self.names.contains(package.foreign_deps[j].0)
            },
        }
    }

    /// The packages that were parsed, those that have yet to be and the one that is being parsed,
    /// if any, are all the packages. The first package depends on all of them, directly or not.
    pub open spec fn valid(self, pending: Option<usize>) -> bool {
        &&& self.packages.len() == self.names.len() + 1
        &&& self.packages.len() <= usize::MAX
        &&& self.deps.len() == self.packages.len()
        &&& self.names.no_duplicates()
        &&& self.to_parse.no_duplicates()
        &&& self.parsed.no_duplicates()
        &&& forall|i: int|
            0 <= i < self.to_parse.len() ==> #[trigger] self.to_parse[i] < self.packages.len()
        &&& forall|i: int|
            0 <= i < self.parsed.len() ==> #[trigger] self.parsed[i] < self.packages.len()
        &&& pending matches Some(number) ==> number < self.packages.len()
        &&& forall|i: int|
            0 <= i < self.packages.len() ==> #[trigger] self.package_valid(i, pending)
        &&& forall|i: int|
            0 <= i < self.packages.len() ==> #[trigger] reaches(self.deps, 0, i as usize)
        &&& if self.parsed.len() == 0 {
            self.names.len() == 0
        } else {
            self.parsed[0] == 0
        }
    }
}

/// The names that were asked for before keep their places, and no name occurs twice.
pub proof fn lemma_with_names(names: Seq<Seq<char>>, package: UnresolvedView, m: nat, n: nat)
    requires
        names.no_duplicates(),
        m <= n,
    ensures
        with_names(names, package, n).no_duplicates(),
        with_names(names, package, m).is_prefix_of(with_names(names, package, n)),
        names.is_prefix_of(with_names(names, package, n)),
        with_names(names, package, n).len() <= names.len() + n,
    decreases n,
{
    if n > 0 {
        let before = with_names(names, package, (n - 1) as nat);
        if m < n {
            lemma_with_names(names, package, m, (n - 1) as nat);
        } else {
            lemma_with_names(names, package, (n - 1) as nat, (n - 1) as nat);
        }
        let name = package.foreign_deps[n - 1].0;
        if !before.contains(name) {
            let after = before.push(name);
            assert forall|i: int, j: int|
                0 <= i < after.len() && 0 <= j < after.len() && i != j implies after[i]
                != after[j] by {
                if i < before.len() {
                    assert(before.contains(before[i]));
                }
                if j < before.len() {
                    assert(before.contains(before[j]));
                }
            }
        }
    }
}

/// A name keeps its number.
pub proof fn lemma_number_of(before: Seq<Seq<char>>, after: Seq<Seq<char>>, name: Seq<char>)
    requires
        with_name(before, name).is_prefix_of(after),
        after.no_duplicates(),
    ensures
        after.contains(name),
        number_of(after, name) == number_of(before, name),
        before.contains(name) ==> 0 <= before.index_of(name) < before.len() && before[before.index_of(
            name,
        )] == name,
{
    let i = if before.contains(name) {
        before.index_of(name)
    } else {
        before.len() as int
    };
    assert(with_name(before, name)[i] == name);
    assert(after[i] == name);
    assert(after.index_of(name) == i);
}

/// Every name that is new is that of a dependency.
proof fn lemma_new_name(names: Seq<Seq<char>>, package: UnresolvedView, n: nat, i: int) -> (j: int)
    requires
        names.len() <= i < with_names(names, package, n).len(),
    ensures
        0 <= j < n,
        with_names(names, package, n)[i] == package.foreign_deps[j].0,
    decreases n,
{
    if i < with_names(names, package, (n - 1) as nat).len() {
        lemma_new_name(names, package, (n - 1) as nat, i)
    } else {
        n - 1
    }
}

/// Walks stay walks when packages get more dependencies.
proof fn lemma_reaches_more(before: Graph, after: Graph, a: usize, b: usize)
    requires
        reaches(before, a, b),
        before.len() <= after.len(),
        forall|k: int|
            0 <= k < before.len() ==> (#[trigger] before[k]).len() == 0 || before[k] == after[k],
    ensures
        reaches(after, a, b),
{
    let walk = choose|walk: Seq<usize>| #[trigger]
        is_walk(before, walk) && walk.first() == a && walk.last() == b;
    assert forall|i: int| 0 <= i < walk.len() - 1 implies depends_on(
        after,
        #[trigger] walk[i],
        walk[i + 1],
    ) by {
        assert(depends_on(before, walk[i], walk[i + 1]));
        let j = choose|j: int|
            0 <= j < before[walk[i] as int].len() && (#[trigger] before[walk[i] as int][j]).0
                == walk[i + 1];
        assert(after[walk[i] as int][j].0 == walk[i + 1]);
    }
    assert(is_walk(after, walk));
}

/// Taking a parsed package back keeps everything in place.
pub proof fn parsing_keeps_valid(state: LoaderView, number: usize, package: UnresolvedView)
    requires
        state.valid(Some(number)),
        package.foreign_dep_spans.len() >= package.foreign_deps.len(),
        state.with_package(state.request(number), package).packages.len() <= usize::MAX,
    ensures
        state.with_package(state.request(number), package).valid(None),
{
    let count = package.foreign_deps.len();
    let after = state.with_package(state.request(number), package);
    let names = after.names;
    let base = state.packages.len();
    lemma_with_names(state.names, package, 0, count);
    assert(state.package_valid(number as int, Some(number)));
    assert(after.packages.len() == names.len() + 1);
    assert(after.deps.len() == after.packages.len());
    assert forall|i: int| 0 <= i < after.to_parse.len() implies #[trigger] after.to_parse[i]
        < after.packages.len() by {
        if i < state.to_parse.len() {
            assert(after.to_parse[i] == state.to_parse[i]);
        }
    }
    assert(after.to_parse.no_duplicates());
    assert forall|k: usize| #[trigger] after.to_parse.contains(k) <==> state.to_parse.contains(k)
        || base <= k < after.packages.len() by {
        if state.to_parse.contains(k) {
            let i = choose|i: int| 0 <= i < state.to_parse.len() && state.to_parse[i] == k;
            assert(after.to_parse[i] == k);
        }
        if base <= k < after.packages.len() {
            assert(after.to_parse[state.to_parse.len() + (k - base)] == k);
        }
        if after.to_parse.contains(k) && !state.to_parse.contains(k) {
            let i = choose|i: int| 0 <= i < after.to_parse.len() && after.to_parse[i] == k;
            if i < state.to_parse.len() {
                assert(state.to_parse[i] == k);
            }
        }
    }
    assert forall|k: usize| #[trigger] after.parsed.contains(k) <==> state.parsed.contains(k) || k
        == number by {
        if state.parsed.contains(k) {
            let i = choose|i: int| 0 <= i < state.parsed.len() && state.parsed[i] == k;
            assert(after.parsed[i] == k);
        }
        if k == number {
            assert(after.parsed[state.parsed.len() as int] == k);
        }
        if after.parsed.contains(k) && k != number {
            let i = choose|i: int| 0 <= i < after.parsed.len() && after.parsed[i] == k;
            assert(state.parsed[i] == k);
        }
    }
    assert forall|i: int| 0 <= i < after.packages.len() implies #[trigger] after.package_valid(
        i,
        None,
    ) by {
        let k = i as usize;
        assert(after.to_parse.contains(k) <==> state.to_parse.contains(k) || base <= k);
        assert(after.parsed.contains(k) <==> state.parsed.contains(k) || k == number);
        if i == number {
            assert(after.packages[i] == Some(
                UnresolvedView { url: state.request(number).url, ..package },
            ));
            assert(after.deps[i] == numbered_deps(state.names, package, count));
            assert forall|j: int| 0 <= j < count implies #[trigger] after.deps[i][j] == (
                number_of(names, package.foreign_deps[j].0),
                package.foreign_dep_spans[j],
            ) && names.contains(package.foreign_deps[j].0) by {
                lemma_with_names(state.names, package, (j + 1) as nat, count);
                lemma_number_of(
                    with_names(state.names, package, j as nat),
                    names,
                    package.foreign_deps[j].0,
                );
            }
        } else if i < base {
            assert(state.package_valid(i, Some(number)));
            assert(after.deps[i] == state.deps[i]);
            assert(after.packages[i] == state.packages[i]);
            if let Some(other) = state.packages[i] {
                assert forall|j: int| 0 <= j < other.foreign_deps.len() implies
                    #[trigger] after.deps[i][j] == (
                    number_of(names, other.foreign_deps[j].0),
                    other.foreign_dep_spans[j],
                ) && names.contains(other.foreign_deps[j].0) by {
                    assert(state.deps[i][j] == after.deps[i][j]);
                    lemma_number_of(state.names, names, other.foreign_deps[j].0);
                }
            }
        } else {
            assert(after.packages[i].is_none());
            assert(after.deps[i].len() == 0);
            assert(!state.parsed.contains(k));
        }
    }
    assert forall|i: int| 0 <= i < after.packages.len() implies #[trigger] reaches(
        after.deps,
        0,
        i as usize,
    ) by {
        if i < base {
            assert(reaches(state.deps, 0, i as usize));
            lemma_reaches_more(state.deps, after.deps, 0, i as usize);
        } else {
            let j = lemma_new_name(state.names, package, count, i - 1);
            assert(reaches(state.deps, 0, number as int as usize));
            lemma_reaches_more(state.deps, after.deps, 0, number);
            assert(after.package_valid(number as int, None));
            assert(names[i - 1] == package.foreign_deps[j].0);
            assert(names.index_of(names[i - 1]) == i - 1);
            assert(after.deps[number as int][j].0 == i as usize);
            assert(depends_on(after.deps, number, i as usize));
            lemma_reaches_step(after.deps, 0, number, i as usize);
        }
    }
}

/// Every dependency of a package is a package.
pub proof fn lemma_loaded_graph(state: LoaderView, pending: Option<usize>)
    requires
        state.valid(pending),
    ensures
        graph_within(state.deps),
{
    assert forall|i: int, j: int|
        #![trigger state.deps[i][j]]
        0 <= i < state.deps.len() && 0 <= j < state.deps[i].len() implies state.deps[i][j].0
        < state.deps.len() by {
        assert(state.package_valid(i, pending));
        let package = state.packages[i].unwrap();
        assert(state.deps[i][j].0 == number_of(state.names, package.foreign_deps[j].0));
        assert(state.names.is_prefix_of(state.names));
        lemma_number_of(state.names, state.names, package.foreign_deps[j].0);
    }
}

impl Loader {
    /// The numbers of the dependencies are those that go with their names.
    pub closed spec fn inv(&self) -> bool {
        forall|i: int|
            0 <= i < self.enqueued.entries().len() ==> (#[trigger] self.enqueued.entries()[i]).1
                == i + 1
    }

    /// Everything is in place, with at most one package being parsed.
    pub open spec fn ready(&self, pending: Option<usize>) -> bool {
        self.inv() && self@.valid(pending)
    }

    /// Starts to load a package.
    pub fn new() -> (loader: Loader)
        ensures
            loader@ == LoaderView::start(),
            loader.ready(None),
    {
        let loader = Loader {
            enqueued: names::new_ids(),
            to_parse: vec![0],
            parsed: Vec::new(),
            packages: vec![None],
            deps: vec![Vec::new()],
        };
        proof {
            let start = LoaderView::start();
            assert(loader@ =~= start);
            assert(start.to_parse[0] == 0);
            assert(start.to_parse.contains(0));
            assert(start.package_valid(0, None));
            lemma_reaches_self(start.deps, 0);
        }
        loader
    }

    /// The package to parse next, if any is left.
    pub fn next(&mut self) -> (request: Option<Request>)
        requires
            old(self).ready(None),
        ensures
            match request {
                None => {
                    &&& old(self)@.to_parse.len() == 0
                    &&& final(self)@ == old(self)@
                    &&& final(self).ready(None)
                },
                Some(request) => {
                    &&& old(self)@.to_parse.len() > 0
                    &&& request@ == old(self)@.request(old(self)@.to_parse.last())
                    &&& final(self)@ == (LoaderView {
                        to_parse: old(self)@.to_parse.drop_last(),
                        ..old(self)@
                    })
                    &&& final(self).ready(Some(request.number))
                },
            },
    {
        let ghost before = self@;
        match self.to_parse.pop() {
            None => {
                assert(self@ =~= before);
                None
            },
            Some(number) => {
                assert(self@ =~= LoaderView {
                    to_parse: before.to_parse.drop_last(),
                    ..before
                });
                proof {
                    lemma_take_last(before);
                    assert(before.to_parse[before.to_parse.len() - 1] == number);
                }
                if number == 0 {
                    Some(Request { number, name: None, url: None })
                } else {
                    let (name, _) = names::entry(&self.enqueued, number - 1);
                    assert(before.names[number - 1] == name@);
                    let mut url = "path:/".to_owned();
                    url.append(name.as_str());
                    Some(Request { number, name: Some(name.clone()), url: Some(url) })
                }
            },
        }
    }
}

/// Taking the last package off the stack keeps everything in place.
proof fn lemma_take_last(state: LoaderView)
    requires
        state.valid(None),
        state.to_parse.len() > 0,
    ensures
        (LoaderView { to_parse: state.to_parse.drop_last(), ..state }).valid(
            Some(state.to_parse.last()),
        ),
{
    let number = state.to_parse.last();
    let after = LoaderView { to_parse: state.to_parse.drop_last(), ..state };
    assert forall|k: usize| #[trigger] after.to_parse.contains(k) <==> state.to_parse.contains(k)
        && k != number by {
        if state.to_parse.contains(k) && k != number {
            let i = choose|i: int| 0 <= i < state.to_parse.len() && state.to_parse[i] == k;
            assert(after.to_parse[i] == k);
        }
        if after.to_parse.contains(k) {
            let i = choose|i: int| 0 <= i < after.to_parse.len() && after.to_parse[i] == k;
            assert(state.to_parse[i] == k);
        }
    }
    assert(state.to_parse[state.to_parse.len() - 1] == number);
    assert forall|i: int| 0 <= i < after.packages.len() implies #[trigger] after.package_valid(
        i,
        Some(number),
    ) by {
        assert(state.package_valid(i, None));
        assert(after.deps[i] == state.deps[i]);
        if let Some(package) = state.packages[i] {
            assert forall|j: int| 0 <= j < package.foreign_deps.len() implies
                #[trigger] after.deps[i][j] == (
                number_of(after.names, package.foreign_deps[j].0),
                package.foreign_dep_spans[j],
            ) && after.names.contains(package.foreign_deps[j].0) by {
                assert(state.deps[i][j] == after.deps[i][j]);
            }
        }
    }
    assert forall|i: int| 0 <= i < after.packages.len() implies #[trigger] reaches(
        after.deps,
        0,
        i as usize,
    ) by {
        assert(reaches(state.deps, 0, i as usize));
    }
}

/// The dependencies in a list, each with the characters of its name.
pub open spec fn dep_views(deps: Seq<(String, Span)>) -> Seq<(Seq<char>, Span)> {
    Seq::new(deps.len(), |i: int| (deps[i].0@, deps[i].1))
}

impl Loader {
    /// The names of all the dependencies that were asked for.
    spec fn names(&self) -> Seq<Seq<char>> {
        self@.names
    }

    /// The number of the dependency with a name. If this is the first request to parse it then it
    /// is pushed onto our stack, otherwise it's already there so that is skipped.
    fn enqueue(&mut self, name: &String) -> (result: (usize, bool))
        requires
            old(self).inv(),
            old(self).names().no_duplicates(),
            old(self).packages@.len() == old(self).names().len() + 1,
            old(self).deps@.len() == old(self).packages@.len(),
        ensures
            final(self).inv(),
            result.0 == number_of(old(self).names(), name@),
            result.1 == !old(self).names().contains(name@),
            final(self).names() == with_name(old(self).names(), name@),
            final(self).parsed == old(self).parsed,
            result.1 ==> {
                &&& final(self).to_parse@ == old(self).to_parse@.push(result.0)
                &&& final(self).packages@ == old(self).packages@.push(None)
                &&& graph_of(final(self).deps@) == graph_of(old(self).deps@).push(Seq::empty())
            },
            !result.1 ==> {
                &&& final(self).to_parse@ == old(self).to_parse@
                &&& final(self).packages@ == old(self).packages@
                &&& final(self).deps@ == old(self).deps@
            },
    {
        let ghost names = self.names();
        let ghost entries = self.enqueued.entries();
        proof {
            lemma_find(entries, name@);
        }
        match names::get(&self.enqueued, name.as_str()) {
            Some(number) => {
                proof {
                    let i = find(entries, name@).unwrap();
                    assert(names[i] == name@);
                    assert(names.index_of(name@) == i);
                }
                (*number, false)
            },
            None => {
                assert(!names.contains(name@)) by {
                    if names.contains(name@) {
                        let i = choose|i: int| 0 <= i < names.len() && names[i] == name@;
                        assert(entries[i].0 == name@);
                    }
                }
                let number: usize = self.packages.len();
                let ghost deps = self.deps@;
                names::insert(&mut self.enqueued, name.clone(), number);
                self.to_parse.push(number);
                self.packages.push(None);
                self.deps.push(Vec::new());
                assert(self.names() =~= names.push(name@));
                assert(graph_of(self.deps@) =~= graph_of(deps).push(Seq::empty()));
                (number, true)
            },
        }
    }

    /// Takes a parsed package back, and returns those of its dependencies that nothing asked for
    /// before.
    pub fn add(&mut self, request: Request, package: UnresolvedPackage) -> (new: Vec<(String, Span)>)
        requires
            old(self).ready(Some(request.number)),
            request@ == old(self)@.request(request.number),
            package@.foreign_dep_spans.len() >= package@.foreign_deps.len(),
        ensures
            final(self)@ == old(self)@.with_package(request@, package@),
            final(self).ready(None),
            dep_views(new@) == new_deps(
                old(self)@.names,
                package@,
                package@.foreign_deps.len(),
            ),
    {
        let ghost before = self@;
        let ghost view = package@;
        let ghost base = before.packages.len();
        let number: usize = request.number;
        let mut deps: Vec<(usize, Span)> = Vec::new();
        let mut new: Vec<(String, Span)> = Vec::new();
        let n: usize = names::len(&package.foreign_deps);
        proof {
            lemma_with_names(before.names, view, 0, 0);
            assert(self.to_parse@ =~= before.to_parse + fresh(before.names.len() + 1, 0));
            assert(deps@ =~= numbered_deps(before.names, view, 0));
            assert(dep_views(new@) =~= new_deps(before.names, view, 0));
        }
        for j in 0..n
            invariant
                n == view.foreign_deps.len(),
                view == package@,
                view.foreign_dep_spans.len() >= view.foreign_deps.len(),
                before.names.no_duplicates(),
                base == before.packages.len(),
                base == before.names.len() + 1,
                before.deps.len() == base,
                self.inv(),
                self.names() == with_names(before.names, view, j as nat),
                self.names().no_duplicates(),
                base <= self.packages@.len(),
                self.packages@.len() == self.names().len() + 1,
                self.deps@.len() == self.packages@.len(),
                self.parsed@ == before.parsed,
                self.to_parse@ == before.to_parse + fresh(
                    before.names.len() + 1,
                    (self.packages@.len() - base) as nat,
                ),
                forall|i: int|
                    0 <= i < base ==> package_view(#[trigger] self.packages@[i])
                        == before.packages[i],
                forall|i: int|
                    base <= i < self.packages@.len() ==> (#[trigger] self.packages@[i]).is_none(),
                forall|i: int| 0 <= i < base ==> (#[trigger] self.deps@[i])@ == before.deps[i],
                forall|i: int|
                    base <= i < self.deps@.len() ==> (#[trigger] self.deps@[i])@.len() == 0,
                deps@ == numbered_deps(before.names, view, j as nat),
                dep_views(new@) == new_deps(before.names, view, j as nat),
        {
            let (name, _) = names::entry(&package.foreign_deps, j);
            let span = package.foreign_dep_spans[j];
            assert(view.foreign_deps[j as int].0 == name@);
            proof {
                lemma_with_names(before.names, view, 0, (j + 1) as nat);
            }
            let ghost found = new@;
            let (dep, first) = self.enqueue(name);
            proof {
                assert(graph_of(self.deps@).len() == self.deps@.len());
                assert forall|i: int| 0 <= i < self.deps@.len() implies (
                #[trigger] self.deps@[i])@ == graph_of(self.deps@)[i] by {}
                if first {
                    assert(self.to_parse@ =~= before.to_parse + fresh(
                        before.names.len() + 1,
                        (self.packages@.len() - base) as nat,
                    ));
                }
            }
            if first {
                new.push((name.clone(), span));
                assert(dep_views(new@) =~= dep_views(found).push((name@, span)));
            }
            deps.push((dep, span));
            assert(deps@ =~= numbered_deps(before.names, view, (j + 1) as nat));
        }
        let mut package = package;
        package.url = request.url;
        assert(package@ =~= UnresolvedView { url: request@.url, ..view });
        self.parsed.push(number);
        self.packages.set(number, Some(package));
        self.deps.set(number, deps);
        proof {
            let after = before.with_package(request@, view);
            assert(self@.packages =~= after.packages);
            assert(self@.deps =~~= after.deps);
            assert(self@ =~= after);
            assert(self@.packages.len() == self.packages.len());
            parsing_keeps_valid(before, number, view);
        }
        new
    }
}

/// The error for a dependency that is not there.
pub fn missing_dependency(name: &str, path: &str, span: Span) -> (error: Error)
    ensures
        error@ == failure_at(
            span,
            "dependency on `"@ + name@ + "` doesn't exist at: "@ + path@,
        ),
{
    let mut msg = sentence("dependency on `", name, "` doesn't exist at: ");
    msg.append(path);
    Error::at(span, msg)
}

} // verus!
