//! How matched items correspond to each other: a matched item has the name of the item that it is
//! matched with, and what it belongs to is matched with what that one belongs to.
use vstd::prelude::*;

use crate::matching::{
    find_package, lemma_find_package, matched, matched_document, matched_document_interfaces,
    matched_document_worlds, matched_documents, matched_functions, matched_interface, matched_items,
    matched_packages, matched_types, matched_world, same_package, Addition, Plan, Stop,
};
use crate::merge::can_merge;
use crate::names::{find, lemma_find, lookup};
use crate::remap::item_within;
use crate::resolve::ResolveView;
use crate::types::{
    DocumentId, InterfaceId, InterfaceView, ItemView, PackageId, TypeId, TypeOwner, WorldId,
};

verus! {

/// No two packages have the same name and URL.
pub open spec fn packages_differ(resolve: ResolveView) -> bool {
    forall|p: int, q: int|
        #![trigger resolve.packages[p], resolve.packages[q]]
        0 <= p < q < resolve.packages.len() ==> !same_package(
            resolve.packages[p],
            resolve.packages[q],
        )
}

/// Two resolves in which every item can be traced back to its package.
pub open spec fn comparable(from: ResolveView, into: ResolveView) -> bool {
    &&& from.valid()
    &&& into.valid()
    &&& from.parented()
    &&& into.parented()
    &&& packages_differ(from)
}

impl Plan {
    pub open spec fn package_homed(self, from: ResolveView, into: ResolveView, p: PackageId) -> bool {
        &&& p < from.packages.len()
        &&& self.packages[p] < into.packages.len()
        &&& same_package(from.packages[p as int], into.packages[self.packages[p] as int])
    }

    pub open spec fn document_homed(
        self,
        from: ResolveView,
        into: ResolveView,
        d: DocumentId,
    ) -> bool {
        let (a, b) = (from.documents[d as int], into.documents[self.documents[d] as int]);
        &&& d < from.documents.len()
        &&& self.documents[d] < into.documents.len()
        &&& a.name == b.name
        &&& a.package matches Some(p) && self.packages.contains_key(p) && b.package == Some(
            self.packages[p],
        )
    }

    pub open spec fn interface_homed(
        self,
        from: ResolveView,
        into: ResolveView,
        i: InterfaceId,
    ) -> bool {
        let (a, b) = (from.interfaces[i as int], into.interfaces[self.interfaces[i] as int]);
        &&& i < from.interfaces.len()
        &&& self.interfaces[i] < into.interfaces.len()
        &&& a.name == b.name
        &&& self.documents.contains_key(a.document)
        &&& b.document == self.documents[a.document]
        &&& a.name.is_none() ==> self.stands_in_matched(from, i)
    }

    /// An interface stands in a world that is matched.
    pub open spec fn stands_in_matched(self, from: ResolveView, i: InterfaceId) -> bool {
        exists|w: WorldId, import: bool, j: int|
            self.worlds.contains_key(w) && #[trigger] from.stands_at(i, w as int, import, j)
    }

    pub open spec fn world_homed(self, from: ResolveView, into: ResolveView, w: WorldId) -> bool {
        let (a, b) = (from.worlds[w as int], into.worlds[self.worlds[w] as int]);
        &&& w < from.worlds.len()
        &&& self.worlds[w] < into.worlds.len()
        &&& a.name == b.name
        &&& self.documents.contains_key(a.document)
        &&& b.document == self.documents[a.document]
    }

    pub open spec fn type_homed(self, from: ResolveView, into: ResolveView, t: TypeId) -> bool {
        let (a, b) = (from.types[t as int], into.types[self.types[t] as int]);
        &&& t < from.types.len()
        &&& self.types[t] < into.types.len()
        &&& a.name == b.name
        &&& match a.owner {
            TypeOwner::Interface(i) => self.interfaces.contains_key(i) && b.owner
                == TypeOwner::Interface(self.interfaces[i]),
            TypeOwner::World(w) => self.worlds.contains_key(w) && b.owner == TypeOwner::World(
                self.worlds[w],
            ),
            TypeOwner::Unowned => false,
        }
    }

    /// Every matched item corresponds to the one that it is matched with.
    pub open spec fn homed(self, from: ResolveView, into: ResolveView) -> bool {
        &&& forall|p: PackageId| #[trigger]
            self.packages.contains_key(p) ==> self.package_homed(from, into, p)
        &&& forall|d: DocumentId| #[trigger]
            self.documents.contains_key(d) ==> self.document_homed(from, into, d)
        &&& forall|i: InterfaceId| #[trigger]
            self.interfaces.contains_key(i) ==> self.interface_homed(from, into, i)
        &&& forall|w: WorldId| #[trigger]
            self.worlds.contains_key(w) ==> self.world_homed(from, into, w)
        &&& forall|t: TypeId| #[trigger]
            self.types.contains_key(t) ==> self.type_homed(from, into, t)
    }

    /// All types of an interface are matched.
    pub open spec fn interface_done(self, from: ResolveView, i: InterfaceId) -> bool {
        forall|j: int|
            0 <= j < from.interfaces[i as int].types.len() ==> self.types.contains_key(
                (#[trigger] from.interfaces[i as int].types[j]).1,
            )
    }

    /// All types of matched interfaces are matched.
    pub open spec fn interfaces_done(self, from: ResolveView) -> bool {
        forall|i: InterfaceId| #[trigger]
            self.interfaces.contains_key(i) ==> self.interface_done(from, i)
    }
}

proof fn lemma_types_homed(
    plan: Plan,
    from: ResolveView,
    into: ResolveView,
    from_id: InterfaceId,
    into_id: InterfaceId,
    n: nat,
)
    requires
        comparable(from, into),
        plan.homed(from, into),
        plan.interfaces.contains_key(from_id),
        plan.interfaces[from_id] == into_id,
        forall|t: TypeId| #[trigger]
            plan.types.contains_key(t) ==> from.types[t as int].owner != TypeOwner::Interface(
                from_id,
            ),
        n <= from.interfaces[from_id as int].types.len(),
    ensures
        match matched_types(
            plan,
            from.interfaces[from_id as int],
            into.interfaces[into_id as int],
            n,
        ) {
            Err(stop) => stop != Stop::Repeated,
            Ok(after) => {
                let types = from.interfaces[from_id as int].types;
                &&& after == (Plan { types: after.types, ..plan })
                &&& after.homed(from, into)
                &&& forall|t: TypeId| #[trigger]
                    plan.types.contains_key(t) ==> after.types.contains_key(t) && after.types[t]
                        == plan.types[t]
                &&& forall|t: TypeId| #[trigger]
                    after.types.contains_key(t) ==> plan.types.contains_key(t) || exists|j: int|
                        0 <= j < n && (#[trigger] types[j]).1 == t
                &&& forall|j: int|
                    0 <= j < n ==> after.types.contains_key((#[trigger] types[j]).1)
            },
        },
    decreases n,
{
    let a = from.interfaces[from_id as int];
    let b = into.interfaces[into_id as int];
    if n > 0 {
        let m = (n - 1) as nat;
        lemma_types_homed(plan, from, into, from_id, into_id, m);
        if let Ok(before) = matched_types(plan, a, b, m) {
            let (name, id) = a.types[n - 1];
            assert(plan.interface_homed(from, into, from_id));
            assert(from.interface_valid(from_id as int));
            assert(into.interface_valid(into_id as int));
            assert(from.interface_lists(from_id as int));
            assert(into.interface_lists(into_id as int));
            lemma_find(b.types, name);
            if let Some(other) = lookup(b.types, name) {
                let k = find(b.types, name).unwrap();
                assert(b.types[k] == (name, other));
                if before.types.contains_key(id) {
                    assert(from.types[id as int].owner == TypeOwner::Interface(from_id));
                    let j = choose|j: int| 0 <= j < m && (#[trigger] a.types[j]).1 == id;
                    assert(a.types[j].0 != a.types[n - 1].0);
                    assert(from.types[a.types[j].1 as int].name == Some(a.types[j].0));
                }
                let after = Plan { types: before.types.insert(id, other), ..before };
                assert forall|t: TypeId| #[trigger]
                    after.types.contains_key(t) implies after.type_homed(from, into, t) by {
                    if t != id {
                        assert(before.types.contains_key(t));
                        assert(before.type_homed(from, into, t));
                    }
                }
                assert forall|i: InterfaceId| #[trigger]
                    after.interfaces.contains_key(i) implies after.interface_homed(
                    from,
                    into,
                    i,
                ) by {
                    assert(before.interface_homed(from, into, i));
                    lemma_stands_same(before, after, from, i);
                }
                assert(after.homed(from, into));
            }
        }
    }
}

proof fn lemma_stands_same(before: Plan, after: Plan, from: ResolveView, i: InterfaceId)
    requires
        forall|w: WorldId| #[trigger]
            before.worlds.contains_key(w) ==> after.worlds.contains_key(w),
    ensures
        before.stands_in_matched(from, i) ==> after.stands_in_matched(from, i),
{
    if before.stands_in_matched(from, i) {
        let (w, import, j) = choose|w: WorldId, import: bool, j: int|
            before.worlds.contains_key(w) && #[trigger] from.stands_at(i, w as int, import, j);
        assert(after.worlds.contains_key(w) && from.stands_at(i, w as int, import, j));
    }
}

/// Functions are not matched with anything.
proof fn lemma_functions_kept(plan: Plan, from: InterfaceView, into: InterfaceView, n: nat)
    ensures
        match matched_functions(plan, from, into, n) {
            Err(stop) => stop != Stop::Repeated,
            Ok(after) => after == plan,
        },
    decreases n,
{
    if n > 0 {
        lemma_functions_kept(plan, from, into, (n - 1) as nat);
    }
}

/// Nothing that was matched is matched with something else.
pub open spec fn types_kept(before: Plan, after: Plan) -> bool {
    forall|t: TypeId| #[trigger]
        before.types.contains_key(t) ==> after.types.contains_key(t) && after.types[t]
            == before.types[t]
}

proof fn lemma_interface_homed(
    plan: Plan,
    from: ResolveView,
    into: ResolveView,
    from_id: InterfaceId,
    into_id: InterfaceId,
)
    requires
        comparable(from, into),
        plan.homed(from, into),
        plan.interfaces_done(from),
        !plan.interfaces.contains_key(from_id),
        (Plan { interfaces: plan.interfaces.insert(from_id, into_id), ..plan }).interface_homed(
            from,
            into,
            from_id,
        ),
    ensures
        match matched_interface(plan, from, into, from_id, into_id) {
            Err(stop) => stop != Stop::Repeated,
            Ok(after) => {
                &&& after == (Plan {
                    interfaces: plan.interfaces.insert(from_id, into_id),
                    types: after.types,
                    ..plan
                })
                &&& after.homed(from, into)
                &&& after.interfaces_done(from)
                &&& types_kept(plan, after)
                &&& forall|t: TypeId| #[trigger]
                    after.types.contains_key(t) ==> plan.types.contains_key(t)
                        || from.types[t as int].owner == TypeOwner::Interface(from_id)
            },
        },
{
    let a = from.interfaces[from_id as int];
    let b = into.interfaces[into_id as int];
    let paired = Plan { interfaces: plan.interfaces.insert(from_id, into_id), ..plan };
    assert forall|t: TypeId| #[trigger] plan.types.contains_key(t) implies from.types[t as int].owner
        != TypeOwner::Interface(from_id) by {
        assert(plan.type_homed(from, into, t));
    }
    assert(paired.homed(from, into)) by {
        assert forall|i: InterfaceId| #[trigger]
            paired.interfaces.contains_key(i) implies paired.interface_homed(from, into, i) by {
            if i != from_id {
                assert(plan.interface_homed(from, into, i));
                lemma_stands_same(plan, paired, from, i);
            }
        }
        assert forall|t: TypeId| #[trigger] paired.types.contains_key(t) implies paired.type_homed(
            from,
            into,
            t,
        ) by {
            assert(plan.type_homed(from, into, t));
        }
        assert forall|d: DocumentId| #[trigger]
            paired.documents.contains_key(d) implies paired.document_homed(from, into, d) by {
            assert(plan.document_homed(from, into, d));
        }
        assert forall|w: WorldId| #[trigger] paired.worlds.contains_key(w) implies paired.world_homed(
            from,
            into,
            w,
        ) by {
            assert(plan.world_homed(from, into, w));
        }
        assert forall|p: PackageId| #[trigger]
            paired.packages.contains_key(p) implies paired.package_homed(from, into, p) by {
            assert(plan.package_homed(from, into, p));
        }
    }
    let n = a.types.len();
    lemma_types_homed(paired, from, into, from_id, into_id, n);
    if let Ok(typed) = matched_types(paired, a, b, n) {
        lemma_functions_kept(typed, a, b, a.functions.len());
        assert forall|i: InterfaceId| #[trigger]
            typed.interfaces.contains_key(i) implies typed.interface_done(from, i) by {
            if i != from_id {
                assert(plan.interfaces.contains_key(i));
                assert(plan.interface_done(from, i));
                assert forall|j: int|
                    0 <= j < from.interfaces[i as int].types.len() implies typed.types.contains_key(
                    (#[trigger] from.interfaces[i as int].types[j]).1,
                ) by {
                    assert(plan.types.contains_key(from.interfaces[i as int].types[j].1));
                }
            }
        }
        assert forall|t: TypeId| #[trigger]
            typed.types.contains_key(t) implies plan.types.contains_key(t)
            || from.types[t as int].owner == TypeOwner::Interface(from_id) by {
            if !paired.types.contains_key(t) {
                let j = choose|j: int| 0 <= j < n && (#[trigger] a.types[j]).1 == t;
                assert(from.interface_lists(from_id as int));
            }
        }
    }
}

/// What matching the items of a world adds to a plan.
pub open spec fn items_added(
    plan: Plan,
    after: Plan,
    from: ResolveView,
    w: WorldId,
    import: bool,
    n: nat,
) -> bool {
    &&& after == (Plan { interfaces: after.interfaces, types: after.types, ..plan })
    &&& types_kept(plan, after)
    &&& forall|i: InterfaceId| #[trigger]
        plan.interfaces.contains_key(i) ==> after.interfaces.contains_key(i) && after.interfaces[i]
            == plan.interfaces[i]
    &&& forall|i: InterfaceId| #[trigger]
        after.interfaces.contains_key(i) ==> plan.interfaces.contains_key(i) || (
        from.interfaces[i as int].name.is_none() && exists|j: int|
            0 <= j < n && #[trigger] from.stands_at(i, w as int, import, j))
    &&& forall|t: TypeId| #[trigger]
        after.types.contains_key(t) && from.types[t as int].owner == TypeOwner::World(w)
            ==> plan.types.contains_key(t) || exists|j: int|
            0 <= j < n && (#[trigger] from.world_items(w as int, import)[j]).1 == ItemView::Type(t)
}

proof fn lemma_items_homed(
    plan: Plan,
    from: ResolveView,
    into: ResolveView,
    from_id: WorldId,
    into_id: WorldId,
    import: bool,
    desc: Seq<char>,
    n: nat,
)
    requires
        comparable(from, into),
        plan.homed(from, into),
        plan.interfaces_done(from),
        plan.worlds.contains_key(from_id),
        plan.worlds[from_id] == into_id,
        forall|i: InterfaceId, j: int| #[trigger]
            from.stands_at(i, from_id as int, import, j) && from.interfaces[i as int].name.is_none()
                ==> !plan.interfaces.contains_key(i),
        import ==> forall|t: TypeId| #[trigger]
            plan.types.contains_key(t) ==> from.types[t as int].owner != TypeOwner::World(from_id),
        n <= from.world_items(from_id as int, import).len(),
    ensures
        match matched_items(
            plan,
            from,
            into,
            desc,
            from.world_items(from_id as int, import),
            into.world_items(into_id as int, import),
            n,
        ) {
            Err(stop) => stop != Stop::Repeated,
            Ok(after) => {
                &&& after.homed(from, into)
                &&& after.interfaces_done(from)
                &&& items_added(plan, after, from, from_id, import, n)
            },
        },
    decreases n,
{
    if n > 0 {
        let m = (n - 1) as nat;
        let from_items = from.world_items(from_id as int, import);
        let into_items = into.world_items(into_id as int, import);
        lemma_items_homed(plan, from, into, from_id, into_id, import, desc, m);
        if let Ok(before) = matched_items(plan, from, into, desc, from_items, into_items, m) {
            let (name, item) = from_items[n - 1];
            assert(plan.world_homed(from, into, from_id));
            assert(from.world_valid(from_id as int));
            assert(into.world_valid(into_id as int));
            assert(from.world_lists(from_id as int));
            assert(into.world_lists(into_id as int));
            lemma_find(into_items, name);
            if let Some(other) = lookup(into_items, name) {
                let k = find(into_items, name).unwrap();
                assert(into_items[k] == (name, other));
                match (item, other) {
                    (ItemView::Interface(i), ItemView::Interface(x)) => {
                        if from.interfaces[i as int].name.is_none()
                            && into.interfaces[x as int].name.is_none() {
                            assert(from.stands_at(i, from_id as int, import, n - 1));
                            if before.interfaces.contains_key(i) {
                                let j = choose|j: int|
                                    0 <= j < m && #[trigger] from.stands_at(
                                        i,
                                        from_id as int,
                                        import,
                                        j,
                                    );
                                assert(item_within(
                                    item,
                                    from.interfaces.len(),
                                    from.types.len(),
                                ));
                                assert(j == n - 1);
                            }
                            let paired = Plan {
                                interfaces: before.interfaces.insert(i, x),
                                ..before
                            };
                            assert(item_within(item, from.interfaces.len(), from.types.len()));
                            assert(item_within(other, into.interfaces.len(), into.types.len()));
                            assert(paired.worlds.contains_key(from_id));
                            assert(paired.stands_in_matched(from, i));
                            assert(from.interfaces[i as int].document
                                == from.worlds[from_id as int].document);
                            assert(into.interfaces[x as int].document
                                == into.worlds[into_id as int].document);
                            assert(paired.interface_homed(from, into, i));
                            lemma_interface_homed(before, from, into, i, x);
                            if let Ok(after) = matched_interface(before, from, into, i, x) {
                                lemma_items_step(plan, before, after, from, from_id, import, n, i);
                            }
                        } else {
                            lemma_items_more(plan, before, from, from_id, import, n);
                        }
                    },
                    (ItemView::Function(_), ItemView::Function(_)) => {
                        lemma_items_more(plan, before, from, from_id, import, n);
                    },
                    (ItemView::Type(t), ItemView::Type(y)) => {
                        assert(import);
                        assert(from.types[t as int].owner == TypeOwner::World(from_id));
                        assert(from.types[t as int].name == Some(name));
                        assert(into.types[y as int].owner == TypeOwner::World(into_id));
                        assert(into.types[y as int].name == Some(name));
                        assert(item_within(item, from.interfaces.len(), from.types.len()));
                        assert(item_within(other, into.interfaces.len(), into.types.len()));
                        if before.types.contains_key(t) {
                            let j = choose|j: int|
                                0 <= j < m && (#[trigger] from_items[j]).1 == ItemView::Type(t);
                            assert(from_items[j].0 != from_items[n - 1].0);
                            assert(from.worlds[from_id as int].imports[j] == from_items[j]);
                        }
                        let after = Plan { types: before.types.insert(t, y), ..before };
                        lemma_type_homed(before, after, from, into, t);
                        lemma_items_type_step(plan, before, after, from, from_id, n, t);
                    },
                    _ => {},
                }
            }
        }
    }
}

/// One more type of a world is matched.
proof fn lemma_type_homed(
    before: Plan,
    after: Plan,
    from: ResolveView,
    into: ResolveView,
    t: TypeId,
)
    requires
        before.homed(from, into),
        before.interfaces_done(from),
        !before.types.contains_key(t),
        after == (Plan { types: before.types.insert(t, after.types[t]), ..before }),
        after.type_homed(from, into, t),
    ensures
        after.homed(from, into),
        after.interfaces_done(from),
{
    assert forall|x: TypeId| #[trigger] after.types.contains_key(x) implies after.type_homed(
        from,
        into,
        x,
    ) by {
        if x != t {
            assert(before.types.contains_key(x));
            assert(before.type_homed(from, into, x));
        }
    }
    assert forall|i: InterfaceId| #[trigger]
        after.interfaces.contains_key(i) implies after.interface_homed(from, into, i) by {
        assert(before.interface_homed(from, into, i));
        lemma_stands_same(before, after, from, i);
    }
    assert forall|i: InterfaceId| #[trigger]
        after.interfaces.contains_key(i) implies after.interface_done(from, i) by {
        assert(before.interface_done(from, i));
        assert forall|j: int|
            0 <= j < from.interfaces[i as int].types.len() implies after.types.contains_key(
            (#[trigger] from.interfaces[i as int].types[j]).1,
        ) by {
            assert(before.types.contains_key(from.interfaces[i as int].types[j].1));
        }
    }
    assert forall|d: DocumentId| #[trigger]
        after.documents.contains_key(d) implies after.document_homed(from, into, d) by {
        assert(before.document_homed(from, into, d));
    }
    assert forall|w: WorldId| #[trigger] after.worlds.contains_key(w) implies after.world_homed(
        from,
        into,
        w,
    ) by {
        assert(before.world_homed(from, into, w));
    }
    assert forall|p: PackageId| #[trigger] after.packages.contains_key(p) implies after.package_homed(
        from,
        into,
        p,
    ) by {
        assert(before.package_homed(from, into, p));
    }
}

proof fn lemma_items_more(
    plan: Plan,
    after: Plan,
    from: ResolveView,
    w: WorldId,
    import: bool,
    n: nat,
)
    requires
        n > 0,
        items_added(plan, after, from, w, import, (n - 1) as nat),
    ensures
        items_added(plan, after, from, w, import, n),
{
    let m = (n - 1) as nat;
    assert forall|i: InterfaceId| #[trigger]
        after.interfaces.contains_key(i) implies plan.interfaces.contains_key(i) || (
    from.interfaces[i as int].name.is_none() && exists|j: int|
        0 <= j < n && #[trigger] from.stands_at(i, w as int, import, j)) by {
        if !plan.interfaces.contains_key(i) {
            let j = choose|j: int| 0 <= j < m && #[trigger] from.stands_at(i, w as int, import, j);
            assert(from.stands_at(i, w as int, import, j));
        }
    }
    assert forall|t: TypeId| #[trigger]
        after.types.contains_key(t) && from.types[t as int].owner == TypeOwner::World(
            w,
        ) implies plan.types.contains_key(t) || exists|j: int|
        0 <= j < n && (#[trigger] from.world_items(w as int, import)[j]).1 == ItemView::Type(t) by {
        if !plan.types.contains_key(t) {
            let j = choose|j: int|
                0 <= j < m && (#[trigger] from.world_items(w as int, import)[j]).1
                    == ItemView::Type(t);
            assert(from.world_items(w as int, import)[j].1 == ItemView::Type(t));
        }
    }
}

proof fn lemma_items_step(
    plan: Plan,
    before: Plan,
    after: Plan,
    from: ResolveView,
    w: WorldId,
    import: bool,
    n: nat,
    i: InterfaceId,
)
    requires
        n > 0,
        items_added(plan, before, from, w, import, (n - 1) as nat),
        !before.interfaces.contains_key(i),
        from.interfaces[i as int].name.is_none(),
        from.stands_at(i, w as int, import, n - 1),
        after == (Plan {
            interfaces: before.interfaces.insert(i, after.interfaces[i]),
            types: after.types,
            ..before
        }),
        types_kept(before, after),
        forall|t: TypeId| #[trigger]
            after.types.contains_key(t) ==> before.types.contains_key(t)
                || from.types[t as int].owner == TypeOwner::Interface(i),
    ensures
        items_added(plan, after, from, w, import, n),
{
    lemma_items_more(plan, before, from, w, import, n);
    assert forall|x: InterfaceId| #[trigger]
        after.interfaces.contains_key(x) implies plan.interfaces.contains_key(x) || (
    from.interfaces[x as int].name.is_none() && exists|j: int|
        0 <= j < n && #[trigger] from.stands_at(x, w as int, import, j)) by {
        if x != i {
            assert(before.interfaces.contains_key(x));
        }
    }
    assert forall|t: TypeId| #[trigger]
        after.types.contains_key(t) && from.types[t as int].owner == TypeOwner::World(
            w,
        ) implies plan.types.contains_key(t) || exists|j: int|
        0 <= j < n && (#[trigger] from.world_items(w as int, import)[j]).1 == ItemView::Type(t) by {
        assert(before.types.contains_key(t));
    }
    assert forall|t: TypeId| #[trigger] plan.types.contains_key(t) implies after.types.contains_key(t)
        && after.types[t] == plan.types[t] by {
        assert(before.types.contains_key(t));
    }
    assert forall|x: InterfaceId| #[trigger]
        plan.interfaces.contains_key(x) implies after.interfaces.contains_key(x)
        && after.interfaces[x] == plan.interfaces[x] by {
        assert(before.interfaces.contains_key(x));
    }
}

proof fn lemma_items_type_step(
    plan: Plan,
    before: Plan,
    after: Plan,
    from: ResolveView,
    w: WorldId,
    n: nat,
    t: TypeId,
)
    requires
        n > 0,
        items_added(plan, before, from, w, true, (n - 1) as nat),
        !before.types.contains_key(t),
        from.world_items(w as int, true)[n - 1].1 == ItemView::Type(t),
        after == (Plan { types: before.types.insert(t, after.types[t]), ..before }),
    ensures
        items_added(plan, after, from, w, true, n),
{
    lemma_items_more(plan, before, from, w, true, n);
    assert forall|x: TypeId| #[trigger]
        after.types.contains_key(x) && from.types[x as int].owner == TypeOwner::World(
            w,
        ) implies plan.types.contains_key(x) || exists|j: int|
        0 <= j < n && (#[trigger] from.world_items(w as int, true)[j]).1 == ItemView::Type(x) by {
        if x != t {
            assert(before.types.contains_key(x));
        }
    }
    assert forall|x: TypeId| #[trigger] plan.types.contains_key(x) implies after.types.contains_key(x)
        && after.types[x] == plan.types[x] by {
        assert(before.types.contains_key(x));
    }
    assert forall|x: InterfaceId| #[trigger]
        after.interfaces.contains_key(x) implies plan.interfaces.contains_key(x) || (
    from.interfaces[x as int].name.is_none() && exists|j: int|
        0 <= j < n && #[trigger] from.stands_at(x, w as int, true, j)) by {
        assert(before.interfaces.contains_key(x));
    }
}

/// An item is about to be listed.
pub open spec fn queued(new: Seq<Addition>, id: usize) -> bool {
    exists|k: int| 0 <= k < new.len() && (#[trigger] new[k]).2 == id
}

impl Plan {
    /// A document that is to be listed is not matched, and belongs to a package that is matched
    /// with the one that is to list it.
    pub open spec fn new_document_homed(self, from: ResolveView, e: Addition) -> bool {
        &&& e.2 < from.documents.len()
        &&& from.documents[e.2 as int].name == e.0
        &&& from.documents[e.2 as int].package matches Some(p) && self.packages.contains_key(p)
            && self.packages[p] == e.1
        &&& !self.documents.contains_key(e.2)
    }

    /// An interface that is to be listed is not matched, and is defined in a document that is
    /// matched with the one that is to list it.
    pub open spec fn new_interface_homed(self, from: ResolveView, e: Addition) -> bool {
        &&& e.2 < from.interfaces.len()
        &&& from.interfaces[e.2 as int].name == Some(e.0)
        &&& self.documents.contains_key(from.interfaces[e.2 as int].document)
        &&& self.documents[from.interfaces[e.2 as int].document] == e.1
        &&& !self.interfaces.contains_key(e.2)
    }

    /// A world that is to be listed is not matched, and is defined in a document that is matched
    /// with the one that is to list it.
    pub open spec fn new_world_homed(self, from: ResolveView, e: Addition) -> bool {
        &&& e.2 < from.worlds.len()
        &&& from.worlds[e.2 as int].name == e.0
        &&& self.documents.contains_key(from.worlds[e.2 as int].document)
        &&& self.documents[from.worlds[e.2 as int].document] == e.1
        &&& !self.worlds.contains_key(e.2)
    }

    /// What is to be listed corresponds to what is to list it, and nothing is listed twice.
    pub open spec fn additions_homed(self, from: ResolveView) -> bool {
        &&& forall|k: int|
            0 <= k < self.new_documents.len() ==> self.new_document_homed(
                from,
                #[trigger] self.new_documents[k],
            )
        &&& forall|k: int|
            0 <= k < self.new_interfaces.len() ==> self.new_interface_homed(
                from,
                #[trigger] self.new_interfaces[k],
            )
        &&& forall|k: int|
            0 <= k < self.new_worlds.len() ==> self.new_world_homed(
                from,
                #[trigger] self.new_worlds[k],
            )
        &&& self.lists_once()
    }

    /// Everything that is known so far fits together.
    pub open spec fn sane(self, from: ResolveView, into: ResolveView) -> bool {
        &&& self.homed(from, into)
        &&& self.interfaces_done(from)
        &&& self.additions_homed(from)
    }
}

/// Packages that are matched with the same package are the same.
pub proof fn lemma_packages_injective(
    plan: Plan,
    from: ResolveView,
    into: ResolveView,
    p: PackageId,
    q: PackageId,
)
    requires
        comparable(from, into),
        plan.homed(from, into),
        plan.packages.contains_key(p),
        plan.packages.contains_key(q),
        plan.packages[p] == plan.packages[q],
    ensures
        p == q,
{
    assert(plan.package_homed(from, into, p));
    assert(plan.package_homed(from, into, q));
    if p < q {
        assert(!same_package(from.packages[p as int], from.packages[q as int]));
    } else if q < p {
        assert(!same_package(from.packages[q as int], from.packages[p as int]));
    }
}

/// Documents that are matched with the same document are the same.
pub proof fn lemma_documents_injective(
    plan: Plan,
    from: ResolveView,
    into: ResolveView,
    c: DocumentId,
    d: DocumentId,
)
    requires
        comparable(from, into),
        plan.homed(from, into),
        plan.documents.contains_key(c),
        plan.documents.contains_key(d),
        plan.documents[c] == plan.documents[d],
    ensures
        c == d,
{
    assert(plan.document_homed(from, into, c));
    assert(plan.document_homed(from, into, d));
    let p = from.documents[c as int].package.unwrap();
    let q = from.documents[d as int].package.unwrap();
    lemma_packages_injective(plan, from, into, p, q);
    assert(from.document_listed(c as int));
    assert(from.document_listed(d as int));
}

proof fn lemma_world_homed(
    plan: Plan,
    from: ResolveView,
    into: ResolveView,
    from_id: WorldId,
    into_id: WorldId,
)
    requires
        comparable(from, into),
        plan.sane(from, into),
        !plan.worlds.contains_key(from_id),
        !queued(plan.new_worlds, from_id),
        (Plan { worlds: plan.worlds.insert(from_id, into_id), ..plan }).world_homed(
            from,
            into,
            from_id,
        ),
    ensures
        match matched_world(plan, from, into, from_id, into_id) {
            Err(stop) => stop != Stop::Repeated,
            Ok(after) => {
                &&& after.sane(from, into)
                &&& after == (Plan {
                    worlds: plan.worlds.insert(from_id, into_id),
                    interfaces: after.interfaces,
                    types: after.types,
                    ..plan
                })
                &&& types_kept(plan, after)
                &&& interfaces_kept(plan, after)
                &&& forall|i: InterfaceId| #[trigger]
                    after.interfaces.contains_key(i) ==> plan.interfaces.contains_key(i)
                        || from.interfaces[i as int].name.is_none()
            },
        },
{
    let a = from.worlds[from_id as int];
    let b = into.worlds[into_id as int];
    let paired = Plan { worlds: plan.worlds.insert(from_id, into_id), ..plan };
    assert(paired.homed(from, into)) by {
        assert forall|w: WorldId| #[trigger] paired.worlds.contains_key(w) implies paired.world_homed(
            from,
            into,
            w,
        ) by {
            if w != from_id {
                assert(plan.world_homed(from, into, w));
            }
        }
        assert forall|i: InterfaceId| #[trigger]
            paired.interfaces.contains_key(i) implies paired.interface_homed(from, into, i) by {
            assert(plan.interface_homed(from, into, i));
            lemma_stands_same(plan, paired, from, i);
        }
        assert forall|t: TypeId| #[trigger] paired.types.contains_key(t) implies paired.type_homed(
            from,
            into,
            t,
        ) by {
            assert(plan.type_homed(from, into, t));
        }
        assert forall|d: DocumentId| #[trigger]
            paired.documents.contains_key(d) implies paired.document_homed(from, into, d) by {
            assert(plan.document_homed(from, into, d));
        }
        assert forall|p: PackageId| #[trigger]
            paired.packages.contains_key(p) implies paired.package_homed(from, into, p) by {
            assert(plan.package_homed(from, into, p));
        }
    }
    assert(paired.interfaces_done(from)) by {
        assert forall|i: InterfaceId| #[trigger]
            paired.interfaces.contains_key(i) implies paired.interface_done(from, i) by {
            assert(plan.interface_done(from, i));
        }
    }
    // An interface without a name that stands in this world stands in no other one.
    assert forall|i: InterfaceId, import: bool, j: int|
        #![trigger from.stands_at(i, from_id as int, import, j)]
        from.stands_at(i, from_id as int, import, j)
            && from.interfaces[i as int].name.is_none() implies !plan.interfaces.contains_key(i) by {
        if plan.interfaces.contains_key(i) {
            assert(plan.interface_homed(from, into, i));
            let (w, d, k) = choose|w: WorldId, d: bool, k: int|
                plan.worlds.contains_key(w) && #[trigger] from.stands_at(i, w as int, d, k);
            assert(from.stands_at(i, w as int, d, k));
        }
    }
    assert forall|t: TypeId| #[trigger] plan.types.contains_key(t) implies from.types[t as int].owner
        != TypeOwner::World(from_id) by {
        assert(plan.type_homed(from, into, t));
    }
    let n = a.imports.len();
    let m = a.exports.len();
    lemma_items_homed(paired, from, into, from_id, into_id, true, "import"@, n);
    if let Ok(imported) = matched_items(
        paired,
        from,
        into,
        "import"@,
        a.imports,
        b.imports,
        n,
    ) {
        assert forall|i: InterfaceId, j: int| #[trigger]
            from.stands_at(i, from_id as int, false, j)
                && from.interfaces[i as int].name.is_none() implies !imported.interfaces.contains_key(
            i,
        ) by {
            if imported.interfaces.contains_key(i) {
                assert(!paired.interfaces.contains_key(i));
                let k = choose|k: int|
                    0 <= k < n && #[trigger] from.stands_at(i, from_id as int, true, k);
                assert(from.stands_at(i, from_id as int, true, k));
                assert(imported.interface_homed(from, into, i));
            }
        }
        lemma_items_homed(imported, from, into, from_id, into_id, false, "export"@, m);
        if let Ok(after) = matched_items(
            imported,
            from,
            into,
            "export"@,
            a.exports,
            b.exports,
            m,
        ) {
            assert forall|i: InterfaceId| #[trigger]
                after.interfaces.contains_key(i) implies plan.interfaces.contains_key(i)
                || from.interfaces[i as int].name.is_none() by {
                if !imported.interfaces.contains_key(i) {
                } else if !paired.interfaces.contains_key(i) {
                }
            }
            assert(types_kept(plan, after)) by {
                assert forall|t: TypeId| #[trigger]
                    plan.types.contains_key(t) implies after.types.contains_key(t)
                    && after.types[t] == plan.types[t] by {
                    assert(paired.types.contains_key(t));
                    assert(imported.types.contains_key(t));
                }
            }
            assert(interfaces_kept(plan, after)) by {
                assert forall|i: InterfaceId| #[trigger]
                    plan.interfaces.contains_key(i) implies after.interfaces.contains_key(i)
                    && after.interfaces[i] == plan.interfaces[i] by {
                    assert(paired.interfaces.contains_key(i));
                    assert(imported.interfaces.contains_key(i));
                }
            }
            assert forall|k: int|
                0 <= k < after.new_interfaces.len() implies after.new_interface_homed(
                from,
                #[trigger] after.new_interfaces[k],
            ) by {
                assert(plan.new_interface_homed(from, plan.new_interfaces[k]));
            }
            assert forall|k: int| 0 <= k < after.new_worlds.len() implies after.new_world_homed(
                from,
                #[trigger] after.new_worlds[k],
            ) by {
                assert(plan.new_world_homed(from, plan.new_worlds[k]));
            }
            assert forall|k: int|
                0 <= k < after.new_documents.len() implies after.new_document_homed(
                from,
                #[trigger] after.new_documents[k],
            ) by {
                assert(plan.new_document_homed(from, plan.new_documents[k]));
            }
        }
    }
}

/// Nothing that was matched is matched with something else.
pub open spec fn interfaces_kept(before: Plan, after: Plan) -> bool {
    forall|i: InterfaceId| #[trigger]
        before.interfaces.contains_key(i) ==> after.interfaces.contains_key(i)
            && after.interfaces[i] == before.interfaces[i]
}

/// What matching the first `n` interfaces of a document adds to a plan.
pub open spec fn interfaces_added(
    plan: Plan,
    after: Plan,
    from: ResolveView,
    d: DocumentId,
    into_id: DocumentId,
    n: nat,
) -> bool {
    let list = from.documents[d as int].interfaces;
    &&& after == (Plan {
        interfaces: after.interfaces,
        types: after.types,
        new_interfaces: after.new_interfaces,
        ..plan
    })
    &&& types_kept(plan, after)
    &&& interfaces_kept(plan, after)
    &&& plan.new_interfaces.is_prefix_of(after.new_interfaces)
    &&& forall|i: InterfaceId| #[trigger]
        after.interfaces.contains_key(i) ==> plan.interfaces.contains_key(i) || exists|j: int|
            0 <= j < n && (#[trigger] list[j]).1 == i
    &&& forall|j: int|
        0 <= j < n ==> after.interfaces.contains_key((#[trigger] list[j]).1) || queued(
            after.new_interfaces,
            list[j].1,
        )
    &&& forall|k: int|
        plan.new_interfaces.len() <= k < after.new_interfaces.len() ==> exists|j: int|
            0 <= j < n && #[trigger] list[j] == (
                (#[trigger] after.new_interfaces[k]).0,
                after.new_interfaces[k].2,
            )
}

proof fn lemma_queued_more(before: Seq<Addition>, after: Seq<Addition>, id: usize)
    requires
        before.is_prefix_of(after),
        queued(before, id),
    ensures
        queued(after, id),
{
    let k = choose|k: int| 0 <= k < before.len() && (#[trigger] before[k]).2 == id;
    assert(after[k] == before[k]);
}

/// Two places of a list hold different interfaces.
proof fn lemma_interfaces_differ(from: ResolveView, d: DocumentId, j: int, k: int)
    requires
        from.valid(),
        from.parented(),
        d < from.documents.len(),
        0 <= j < k < from.documents[d as int].interfaces.len(),
    ensures
        from.documents[d as int].interfaces[j].1 != from.documents[d as int].interfaces[k].1,
        from.documents[d as int].interfaces[j].0 != from.documents[d as int].interfaces[k].0,
{
    let list = from.documents[d as int].interfaces;
    assert(from.document_valid(d as int));
    assert(from.document_lists(d as int));
    assert(list[j].0 != list[k].0);
    assert(from.interfaces[list[j].1 as int].name == Some(list[j].0));
    assert(from.interfaces[list[k].1 as int].name == Some(list[k].0));
}

proof fn lemma_document_interfaces_homed(
    plan: Plan,
    from: ResolveView,
    into: ResolveView,
    from_id: DocumentId,
    into_id: DocumentId,
    n: nat,
)
    requires
        comparable(from, into),
        plan.sane(from, into),
        plan.documents.contains_key(from_id),
        plan.documents[from_id] == into_id,
        forall|i: InterfaceId| #[trigger]
            plan.interfaces.contains_key(i) && from.interfaces[i as int].name.is_some()
                ==> from.interfaces[i as int].document != from_id,
        forall|k: int|
            0 <= k < plan.new_interfaces.len() ==> from.interfaces[(
            #[trigger] plan.new_interfaces[k]).2 as int].document != from_id,
        n <= from.documents[from_id as int].interfaces.len(),
    ensures
        match matched_document_interfaces(plan, from, into, from_id, into_id, n) {
            Err(stop) => stop != Stop::Repeated,
            Ok(after) => {
                &&& after.sane(from, into)
                &&& interfaces_added(plan, after, from, from_id, into_id, n)
            },
        },
    decreases n,
{
    if n > 0 {
        let m = (n - 1) as nat;
        let list = from.documents[from_id as int].interfaces;
        lemma_document_interfaces_homed(plan, from, into, from_id, into_id, m);
        if let Ok(before) = matched_document_interfaces(plan, from, into, from_id, into_id, m) {
            let (name, id) = list[n - 1];
            assert(plan.document_homed(from, into, from_id));
            assert(from.document_valid(from_id as int));
            assert(into.document_valid(into_id as int));
            assert(from.document_lists(from_id as int));
            assert(into.document_lists(into_id as int));
            assert(list[n - 1].1 < from.interfaces.len());
            let others = into.documents[into_id as int].interfaces;
            lemma_find(others, name);
            assert(!before.interfaces.contains_key(id)) by {
                if before.interfaces.contains_key(id) {
                    let j = choose|j: int| 0 <= j < m && (#[trigger] list[j]).1 == id;
                    lemma_interfaces_differ(from, from_id, j, n - 1);
                }
            }
            assert forall|k: int| 0 <= k < before.new_interfaces.len() implies (
            #[trigger] before.new_interfaces[k]).2 != id && (before.new_interfaces[k].1 == into_id
                ==> before.new_interfaces[k].0 != name) by {
                let e = before.new_interfaces[k];
                assert(before.new_interface_homed(from, e));
                if k < plan.new_interfaces.len() {
                    assert(e == plan.new_interfaces[k]);
                    if e.1 == into_id {
                        let c = from.interfaces[e.2 as int].document;
                        lemma_documents_injective(before, from, into, c, from_id);
                    }
                } else {
                    let j = choose|j: int| 0 <= j < m && #[trigger] list[j] == (e.0, e.2);
                    lemma_interfaces_differ(from, from_id, j, n - 1);
                }
            }
            match lookup(others, name) {
                None => {
                    let e = (name, into_id, id);
                    let after = before.with_new_interface(e);
                    lemma_new_interface(before, after, from, into, e);
                    lemma_interfaces_queued(plan, before, after, from, from_id, into_id, n);
                },
                Some(other) => {
                    let k = find(others, name).unwrap();
                    assert(others[k] == (name, other));
                    assert(into.interfaces[other as int].document == into_id);
                    assert(into.interfaces[other as int].name == Some(name));
                    let paired = Plan {
                        interfaces: before.interfaces.insert(id, other),
                        ..before
                    };
                    assert(paired.interface_homed(from, into, id));
                    lemma_interface_homed(before, from, into, id, other);
                    if let Ok(after) = matched_interface(before, from, into, id, other) {
                        lemma_additions_kept(before, after, from, id);
                        lemma_interfaces_step(
                            plan,
                            before,
                            after,
                            from,
                            from_id,
                            into_id,
                            n,
                        );
                    }
                },
            }
        }
    }
}

/// One more interface is to be listed.
proof fn lemma_new_interface(
    before: Plan,
    after: Plan,
    from: ResolveView,
    into: ResolveView,
    e: Addition,
)
    requires
        before.sane(from, into),
        after == before.with_new_interface(e),
        before.new_interface_homed(from, e),
        forall|k: int|
            0 <= k < before.new_interfaces.len() && (#[trigger] before.new_interfaces[k]).1 == e.1
                ==> before.new_interfaces[k].0 != e.0,
    ensures
        after.sane(from, into),
{
    assert(after.homed(from, into)) by {
        assert forall|i: InterfaceId| #[trigger]
            after.interfaces.contains_key(i) implies after.interface_homed(from, into, i) by {
            assert(before.interface_homed(from, into, i));
            lemma_stands_same(before, after, from, i);
        }
        assert forall|d: DocumentId| #[trigger]
            after.documents.contains_key(d) implies after.document_homed(from, into, d) by {
            assert(before.document_homed(from, into, d));
        }
        assert forall|w: WorldId| #[trigger] after.worlds.contains_key(w) implies after.world_homed(
            from,
            into,
            w,
        ) by {
            assert(before.world_homed(from, into, w));
        }
        assert forall|p: PackageId| #[trigger]
            after.packages.contains_key(p) implies after.package_homed(from, into, p) by {
            assert(before.package_homed(from, into, p));
        }
        assert forall|t: TypeId| #[trigger] after.types.contains_key(t) implies after.type_homed(
            from,
            into,
            t,
        ) by {
            assert(before.type_homed(from, into, t));
        }
    }
    assert forall|i: InterfaceId| #[trigger]
        after.interfaces.contains_key(i) implies after.interface_done(from, i) by {
        assert(before.interface_done(from, i));
    }
    assert forall|k: int| 0 <= k < after.new_interfaces.len() implies after.new_interface_homed(
        from,
        #[trigger] after.new_interfaces[k],
    ) by {
        if k < before.new_interfaces.len() {
            assert(before.new_interface_homed(from, before.new_interfaces[k]));
        }
    }
    assert forall|k: int| 0 <= k < after.new_worlds.len() implies after.new_world_homed(
        from,
        #[trigger] after.new_worlds[k],
    ) by {
        assert(before.new_world_homed(from, before.new_worlds[k]));
    }
    assert forall|k: int| 0 <= k < after.new_documents.len() implies after.new_document_homed(
        from,
        #[trigger] after.new_documents[k],
    ) by {
        assert(before.new_document_homed(from, before.new_documents[k]));
    }
}

/// Matching an interface that is not to be listed does not affect those that are.
proof fn lemma_additions_kept(before: Plan, after: Plan, from: ResolveView, id: InterfaceId)
    requires
        before.additions_homed(from),
        after == (Plan {
            interfaces: before.interfaces.insert(id, after.interfaces[id]),
            types: after.types,
            ..before
        }),
        forall|k: int|
            0 <= k < before.new_interfaces.len() ==> (#[trigger] before.new_interfaces[k]).2 != id,
    ensures
        after.additions_homed(from),
{
    assert forall|k: int| 0 <= k < after.new_interfaces.len() implies after.new_interface_homed(
        from,
        #[trigger] after.new_interfaces[k],
    ) by {
        assert(before.new_interface_homed(from, before.new_interfaces[k]));
    }
    assert forall|k: int| 0 <= k < after.new_worlds.len() implies after.new_world_homed(
        from,
        #[trigger] after.new_worlds[k],
    ) by {
        assert(before.new_world_homed(from, before.new_worlds[k]));
    }
    assert forall|k: int| 0 <= k < after.new_documents.len() implies after.new_document_homed(
        from,
        #[trigger] after.new_documents[k],
    ) by {
        assert(before.new_document_homed(from, before.new_documents[k]));
    }
}

proof fn lemma_interfaces_queued(
    plan: Plan,
    before: Plan,
    after: Plan,
    from: ResolveView,
    d: DocumentId,
    into_id: DocumentId,
    n: nat,
)
    requires
        0 < n <= from.documents[d as int].interfaces.len(),
        interfaces_added(plan, before, from, d, into_id, (n - 1) as nat),
        ({
            let (name, id) = from.documents[d as int].interfaces[n - 1];
            after == before.with_new_interface((name, into_id, id))
        }),
    ensures
        interfaces_added(plan, after, from, d, into_id, n),
{
    let m = (n - 1) as nat;
    let list = from.documents[d as int].interfaces;
    let (name, id) = list[n - 1];
    assert(after.new_interfaces[before.new_interfaces.len() as int].2 == id);
    assert(before.new_interfaces.is_prefix_of(after.new_interfaces));
    assert(plan.new_interfaces.is_prefix_of(after.new_interfaces));
    assert forall|i: InterfaceId| #[trigger]
        after.interfaces.contains_key(i) implies plan.interfaces.contains_key(i) || exists|j: int|
        0 <= j < n && (#[trigger] list[j]).1 == i by {
        if !plan.interfaces.contains_key(i) {
            assert(before.interfaces.contains_key(i));
            let j = choose|j: int| 0 <= j < m && (#[trigger] list[j]).1 == i;
            assert(list[j].1 == i);
        }
    }
    assert forall|j: int| 0 <= j < n implies after.interfaces.contains_key((#[trigger] list[j]).1)
        || queued(after.new_interfaces, list[j].1) by {
        if j < m && !after.interfaces.contains_key(list[j].1) {
            lemma_queued_more(before.new_interfaces, after.new_interfaces, list[j].1);
        }
    }
    assert forall|k: int|
        plan.new_interfaces.len() <= k < after.new_interfaces.len() implies exists|j: int|
        0 <= j < n && #[trigger] list[j] == (
            (#[trigger] after.new_interfaces[k]).0,
            after.new_interfaces[k].2,
        ) by {
        let e = after.new_interfaces[k];
        if k < before.new_interfaces.len() {
            assert(e == before.new_interfaces[k]);
            let j = choose|j: int| 0 <= j < m && #[trigger] list[j] == (e.0, e.2);
            assert(list[j] == (e.0, e.2));
        } else {
            assert(list[n - 1] == (e.0, e.2));
        }
    }
}

proof fn lemma_interfaces_step(
    plan: Plan,
    before: Plan,
    after: Plan,
    from: ResolveView,
    d: DocumentId,
    into_id: DocumentId,
    n: nat,
)
    requires
        0 < n <= from.documents[d as int].interfaces.len(),
        interfaces_added(plan, before, from, d, into_id, (n - 1) as nat),
        ({
            let id = from.documents[d as int].interfaces[n - 1].1;
            &&& !before.interfaces.contains_key(id)
            &&& after == (Plan {
                interfaces: before.interfaces.insert(id, after.interfaces[id]),
                types: after.types,
                ..before
            })
        }),
        types_kept(before, after),
    ensures
        interfaces_added(plan, after, from, d, into_id, n),
{
    let m = (n - 1) as nat;
    let list = from.documents[d as int].interfaces;
    let (name, id) = list[n - 1];
    assert forall|i: InterfaceId| #[trigger]
        after.interfaces.contains_key(i) implies plan.interfaces.contains_key(i) || exists|j: int|
        0 <= j < n && (#[trigger] list[j]).1 == i by {
        if i == id {
            assert(list[n - 1].1 == i);
        } else if !plan.interfaces.contains_key(i) {
            assert(before.interfaces.contains_key(i));
            let j = choose|j: int| 0 <= j < m && (#[trigger] list[j]).1 == i;
            assert(list[j].1 == i);
        }
    }
    assert forall|j: int| 0 <= j < n implies after.interfaces.contains_key((#[trigger] list[j]).1)
        || queued(after.new_interfaces, list[j].1) by {
        if j < m {
            assert(before.interfaces.contains_key(list[j].1) || queued(
                before.new_interfaces,
                list[j].1,
            ));
        }
    }
    assert forall|k: int|
        plan.new_interfaces.len() <= k < after.new_interfaces.len() implies exists|j: int|
        0 <= j < n && #[trigger] list[j] == (
            (#[trigger] after.new_interfaces[k]).0,
            after.new_interfaces[k].2,
        ) by {
        let e = before.new_interfaces[k];
        let j = choose|j: int| 0 <= j < m && #[trigger] list[j] == (e.0, e.2);
        assert(list[j] == (e.0, e.2));
    }
    assert forall|t: TypeId| #[trigger] plan.types.contains_key(t) implies after.types.contains_key(t)
        && after.types[t] == plan.types[t] by {
        assert(before.types.contains_key(t));
    }
    assert forall|i: InterfaceId| #[trigger]
        plan.interfaces.contains_key(i) implies after.interfaces.contains_key(i)
        && after.interfaces[i] == plan.interfaces[i] by {
        assert(before.interfaces.contains_key(i));
    }
}

/// Nothing that was matched is matched with something else.
pub open spec fn worlds_kept(before: Plan, after: Plan) -> bool {
    forall|w: WorldId| #[trigger]
        before.worlds.contains_key(w) ==> after.worlds.contains_key(w) && after.worlds[w]
            == before.worlds[w]
}

/// What matching the first `n` worlds of a document adds to a plan.
pub open spec fn worlds_added(
    plan: Plan,
    after: Plan,
    from: ResolveView,
    d: DocumentId,
    into_id: DocumentId,
    n: nat,
) -> bool {
    let list = from.documents[d as int].worlds;
    &&& after == (Plan {
        worlds: after.worlds,
        interfaces: after.interfaces,
        types: after.types,
        new_worlds: after.new_worlds,
        ..plan
    })
    &&& types_kept(plan, after)
    &&& interfaces_kept(plan, after)
    &&& worlds_kept(plan, after)
    &&& plan.new_worlds.is_prefix_of(after.new_worlds)
    &&& forall|i: InterfaceId| #[trigger]
        after.interfaces.contains_key(i) ==> plan.interfaces.contains_key(i)
            || from.interfaces[i as int].name.is_none()
    &&& forall|w: WorldId| #[trigger]
        after.worlds.contains_key(w) ==> plan.worlds.contains_key(w) || exists|j: int|
            0 <= j < n && (#[trigger] list[j]).1 == w
    &&& forall|j: int|
        0 <= j < n ==> after.worlds.contains_key((#[trigger] list[j]).1) || queued(
            after.new_worlds,
            list[j].1,
        )
    &&& forall|k: int|
        plan.new_worlds.len() <= k < after.new_worlds.len() ==> exists|j: int|
            0 <= j < n && #[trigger] list[j] == (
                (#[trigger] after.new_worlds[k]).0,
                after.new_worlds[k].2,
            )
}

/// Two places of a list hold different worlds.
proof fn lemma_worlds_differ(from: ResolveView, d: DocumentId, j: int, k: int)
    requires
        from.valid(),
        from.parented(),
        d < from.documents.len(),
        0 <= j < k < from.documents[d as int].worlds.len(),
    ensures
        from.documents[d as int].worlds[j].1 != from.documents[d as int].worlds[k].1,
        from.documents[d as int].worlds[j].0 != from.documents[d as int].worlds[k].0,
{
    let list = from.documents[d as int].worlds;
    assert(from.document_valid(d as int));
    assert(from.document_lists(d as int));
    assert(list[j].0 != list[k].0);
    assert(from.worlds[list[j].1 as int].name == list[j].0);
    assert(from.worlds[list[k].1 as int].name == list[k].0);
}

proof fn lemma_document_worlds_homed(
    plan: Plan,
    from: ResolveView,
    into: ResolveView,
    from_id: DocumentId,
    into_id: DocumentId,
    n: nat,
)
    requires
        comparable(from, into),
        plan.sane(from, into),
        plan.documents.contains_key(from_id),
        plan.documents[from_id] == into_id,
        forall|w: WorldId| #[trigger]
            plan.worlds.contains_key(w) ==> from.worlds[w as int].document != from_id,
        forall|k: int|
            0 <= k < plan.new_worlds.len() ==> from.worlds[(
            #[trigger] plan.new_worlds[k]).2 as int].document != from_id,
        n <= from.documents[from_id as int].worlds.len(),
    ensures
        match matched_document_worlds(plan, from, into, from_id, into_id, n) {
            Err(stop) => stop != Stop::Repeated,
            Ok(after) => {
                &&& after.sane(from, into)
                &&& worlds_added(plan, after, from, from_id, into_id, n)
            },
        },
    decreases n,
{
    if n > 0 {
        let m = (n - 1) as nat;
        let list = from.documents[from_id as int].worlds;
        lemma_document_worlds_homed(plan, from, into, from_id, into_id, m);
        if let Ok(before) = matched_document_worlds(plan, from, into, from_id, into_id, m) {
            let (name, id) = list[n - 1];
            assert(plan.document_homed(from, into, from_id));
            assert(from.document_valid(from_id as int));
            assert(into.document_valid(into_id as int));
            assert(from.document_lists(from_id as int));
            assert(into.document_lists(into_id as int));
            assert(list[n - 1].1 < from.worlds.len());
            let others = into.documents[into_id as int].worlds;
            lemma_find(others, name);
            assert(!before.worlds.contains_key(id)) by {
                if before.worlds.contains_key(id) {
                    let j = choose|j: int| 0 <= j < m && (#[trigger] list[j]).1 == id;
                    lemma_worlds_differ(from, from_id, j, n - 1);
                }
            }
            assert forall|k: int| 0 <= k < before.new_worlds.len() implies (
            #[trigger] before.new_worlds[k]).2 != id && (before.new_worlds[k].1 == into_id
                ==> before.new_worlds[k].0 != name) by {
                let e = before.new_worlds[k];
                assert(before.new_world_homed(from, e));
                if k < plan.new_worlds.len() {
                    assert(e == plan.new_worlds[k]);
                    if e.1 == into_id {
                        let c = from.worlds[e.2 as int].document;
                        lemma_documents_injective(before, from, into, c, from_id);
                    }
                } else {
                    let j = choose|j: int| 0 <= j < m && #[trigger] list[j] == (e.0, e.2);
                    lemma_worlds_differ(from, from_id, j, n - 1);
                }
            }
            match lookup(others, name) {
                None => {
                    let e = (name, into_id, id);
                    let after = before.with_new_world(e);
                    lemma_new_world(before, after, from, into, e);
                    lemma_worlds_queued(plan, before, after, from, from_id, into_id, n);
                },
                Some(other) => {
                    let k = find(others, name).unwrap();
                    assert(others[k] == (name, other));
                    assert(into.worlds[other as int].document == into_id);
                    assert(into.worlds[other as int].name == name);
                    let paired = Plan { worlds: before.worlds.insert(id, other), ..before };
                    assert(paired.world_homed(from, into, id));
                    lemma_world_homed(before, from, into, id, other);
                    if let Ok(after) = matched_world(before, from, into, id, other) {
                        lemma_worlds_step(plan, before, after, from, from_id, into_id, n);
                    }
                },
            }
        }
    }
}

/// One more world is to be listed.
proof fn lemma_new_world(
    before: Plan,
    after: Plan,
    from: ResolveView,
    into: ResolveView,
    e: Addition,
)
    requires
        before.sane(from, into),
        after == before.with_new_world(e),
        before.new_world_homed(from, e),
        forall|k: int|
            0 <= k < before.new_worlds.len() && (#[trigger] before.new_worlds[k]).1 == e.1
                ==> before.new_worlds[k].0 != e.0,
    ensures
        after.sane(from, into),
{
    assert(after.homed(from, into)) by {
        assert forall|i: InterfaceId| #[trigger]
            after.interfaces.contains_key(i) implies after.interface_homed(from, into, i) by {
            assert(before.interface_homed(from, into, i));
            lemma_stands_same(before, after, from, i);
        }
        assert forall|d: DocumentId| #[trigger]
            after.documents.contains_key(d) implies after.document_homed(from, into, d) by {
            assert(before.document_homed(from, into, d));
        }
        assert forall|w: WorldId| #[trigger] after.worlds.contains_key(w) implies after.world_homed(
            from,
            into,
            w,
        ) by {
            assert(before.world_homed(from, into, w));
        }
        assert forall|p: PackageId| #[trigger]
            after.packages.contains_key(p) implies after.package_homed(from, into, p) by {
            assert(before.package_homed(from, into, p));
        }
        assert forall|t: TypeId| #[trigger] after.types.contains_key(t) implies after.type_homed(
            from,
            into,
            t,
        ) by {
            assert(before.type_homed(from, into, t));
        }
    }
    assert forall|i: InterfaceId| #[trigger]
        after.interfaces.contains_key(i) implies after.interface_done(from, i) by {
        assert(before.interface_done(from, i));
    }
    assert forall|k: int| 0 <= k < after.new_interfaces.len() implies after.new_interface_homed(
        from,
        #[trigger] after.new_interfaces[k],
    ) by {
        assert(before.new_interface_homed(from, before.new_interfaces[k]));
    }
    assert forall|k: int| 0 <= k < after.new_worlds.len() implies after.new_world_homed(
        from,
        #[trigger] after.new_worlds[k],
    ) by {
        if k < before.new_worlds.len() {
            assert(before.new_world_homed(from, before.new_worlds[k]));
        }
    }
    assert forall|k: int| 0 <= k < after.new_documents.len() implies after.new_document_homed(
        from,
        #[trigger] after.new_documents[k],
    ) by {
        assert(before.new_document_homed(from, before.new_documents[k]));
    }
}

proof fn lemma_worlds_queued(
    plan: Plan,
    before: Plan,
    after: Plan,
    from: ResolveView,
    d: DocumentId,
    into_id: DocumentId,
    n: nat,
)
    requires
        0 < n <= from.documents[d as int].worlds.len(),
        worlds_added(plan, before, from, d, into_id, (n - 1) as nat),
        ({
            let (name, id) = from.documents[d as int].worlds[n - 1];
            after == before.with_new_world((name, into_id, id))
        }),
    ensures
        worlds_added(plan, after, from, d, into_id, n),
{
    let m = (n - 1) as nat;
    let list = from.documents[d as int].worlds;
    let (name, id) = list[n - 1];
    assert(after.new_worlds[before.new_worlds.len() as int].2 == id);
    assert(before.new_worlds.is_prefix_of(after.new_worlds));
    assert(plan.new_worlds.is_prefix_of(after.new_worlds));
    assert forall|w: WorldId| #[trigger]
        after.worlds.contains_key(w) implies plan.worlds.contains_key(w) || exists|j: int|
        0 <= j < n && (#[trigger] list[j]).1 == w by {
        if !plan.worlds.contains_key(w) {
            assert(before.worlds.contains_key(w));
            let j = choose|j: int| 0 <= j < m && (#[trigger] list[j]).1 == w;
            assert(list[j].1 == w);
        }
    }
    assert forall|j: int| 0 <= j < n implies after.worlds.contains_key((#[trigger] list[j]).1)
        || queued(after.new_worlds, list[j].1) by {
        if j < m && !after.worlds.contains_key(list[j].1) {
            lemma_queued_more(before.new_worlds, after.new_worlds, list[j].1);
        }
    }
    assert forall|k: int|
        plan.new_worlds.len() <= k < after.new_worlds.len() implies exists|j: int|
        0 <= j < n && #[trigger] list[j] == (
            (#[trigger] after.new_worlds[k]).0,
            after.new_worlds[k].2,
        ) by {
        let e = after.new_worlds[k];
        if k < before.new_worlds.len() {
            assert(e == before.new_worlds[k]);
            let j = choose|j: int| 0 <= j < m && #[trigger] list[j] == (e.0, e.2);
            assert(list[j] == (e.0, e.2));
        } else {
            assert(list[n - 1] == (e.0, e.2));
        }
    }
}

proof fn lemma_worlds_step(
    plan: Plan,
    before: Plan,
    after: Plan,
    from: ResolveView,
    d: DocumentId,
    into_id: DocumentId,
    n: nat,
)
    requires
        0 < n <= from.documents[d as int].worlds.len(),
        worlds_added(plan, before, from, d, into_id, (n - 1) as nat),
        ({
            let id = from.documents[d as int].worlds[n - 1].1;
            &&& !before.worlds.contains_key(id)
            &&& after == (Plan {
                worlds: before.worlds.insert(id, after.worlds[id]),
                interfaces: after.interfaces,
                types: after.types,
                ..before
            })
        }),
        types_kept(before, after),
        interfaces_kept(before, after),
        forall|i: InterfaceId| #[trigger]
            after.interfaces.contains_key(i) ==> before.interfaces.contains_key(i)
                || from.interfaces[i as int].name.is_none(),
    ensures
        worlds_added(plan, after, from, d, into_id, n),
{
    let m = (n - 1) as nat;
    let list = from.documents[d as int].worlds;
    let (name, id) = list[n - 1];
    assert forall|w: WorldId| #[trigger]
        after.worlds.contains_key(w) implies plan.worlds.contains_key(w) || exists|j: int|
        0 <= j < n && (#[trigger] list[j]).1 == w by {
        if w == id {
            assert(list[n - 1].1 == w);
        } else if !plan.worlds.contains_key(w) {
            assert(before.worlds.contains_key(w));
            let j = choose|j: int| 0 <= j < m && (#[trigger] list[j]).1 == w;
            assert(list[j].1 == w);
        }
    }
    assert forall|j: int| 0 <= j < n implies after.worlds.contains_key((#[trigger] list[j]).1)
        || queued(after.new_worlds, list[j].1) by {
        if j < m {
            assert(before.worlds.contains_key(list[j].1) || queued(
                before.new_worlds,
                list[j].1,
            ));
        }
    }
    assert forall|k: int|
        plan.new_worlds.len() <= k < after.new_worlds.len() implies exists|j: int|
        0 <= j < n && #[trigger] list[j] == (
            (#[trigger] after.new_worlds[k]).0,
            after.new_worlds[k].2,
        ) by {
        let e = before.new_worlds[k];
        let j = choose|j: int| 0 <= j < m && #[trigger] list[j] == (e.0, e.2);
        assert(list[j] == (e.0, e.2));
    }
    assert forall|t: TypeId| #[trigger] plan.types.contains_key(t) implies after.types.contains_key(t)
        && after.types[t] == plan.types[t] by {
        assert(before.types.contains_key(t));
    }
    assert forall|i: InterfaceId| #[trigger]
        plan.interfaces.contains_key(i) implies after.interfaces.contains_key(i)
        && after.interfaces[i] == plan.interfaces[i] by {
        assert(before.interfaces.contains_key(i));
    }
    assert forall|w: WorldId| #[trigger]
        plan.worlds.contains_key(w) implies after.worlds.contains_key(w) && after.worlds[w]
        == plan.worlds[w] by {
        assert(before.worlds.contains_key(w));
    }
    assert forall|i: InterfaceId| #[trigger]
        after.interfaces.contains_key(i) implies plan.interfaces.contains_key(i)
        || from.interfaces[i as int].name.is_none() by {
        if before.interfaces.contains_key(i) {
        }
    }
}

/// A plan only grows.
pub open spec fn grows(before: Plan, after: Plan) -> bool {
    &&& types_kept(before, after)
    &&& interfaces_kept(before, after)
    &&& worlds_kept(before, after)
    &&& forall|d: DocumentId| #[trigger]
        before.documents.contains_key(d) ==> after.documents.contains_key(d) && after.documents[d]
            == before.documents[d]
    &&& forall|p: PackageId| #[trigger]
        before.packages.contains_key(p) ==> after.packages.contains_key(p) && after.packages[p]
            == before.packages[p]
    &&& before.new_documents.is_prefix_of(after.new_documents)
    &&& before.new_interfaces.is_prefix_of(after.new_interfaces)
    &&& before.new_worlds.is_prefix_of(after.new_worlds)
}

impl Plan {
    /// All interfaces and worlds of a document are matched or about to be listed.
    pub open spec fn document_done(self, from: ResolveView, d: DocumentId) -> bool {
        let doc = from.documents[d as int];
        &&& forall|j: int|
            0 <= j < doc.interfaces.len() ==> self.interfaces.contains_key(
                (#[trigger] doc.interfaces[j]).1,
            ) || queued(self.new_interfaces, doc.interfaces[j].1)
        &&& forall|j: int|
            0 <= j < doc.worlds.len() ==> self.worlds.contains_key((#[trigger] doc.worlds[j]).1)
                || queued(self.new_worlds, doc.worlds[j].1)
    }

    pub open spec fn documents_done(self, from: ResolveView) -> bool {
        forall|d: DocumentId| #[trigger]
            self.documents.contains_key(d) ==> self.document_done(from, d)
    }

    /// All documents of a package are matched or about to be listed.
    pub open spec fn package_done(self, from: ResolveView, p: PackageId) -> bool {
        let list = from.packages[p as int].documents;
        forall|j: int|
            0 <= j < list.len() ==> self.documents.contains_key((#[trigger] list[j]).1) || queued(
                self.new_documents,
                list[j].1,
            )
    }

    pub open spec fn packages_done(self, from: ResolveView) -> bool {
        forall|p: PackageId| #[trigger]
            self.packages.contains_key(p) ==> self.package_done(from, p)
    }
}

proof fn lemma_document_done_more(before: Plan, after: Plan, from: ResolveView, d: DocumentId)
    requires
        grows(before, after),
        before.document_done(from, d),
    ensures
        after.document_done(from, d),
{
    let doc = from.documents[d as int];
    assert forall|j: int| 0 <= j < doc.interfaces.len() implies after.interfaces.contains_key(
        (#[trigger] doc.interfaces[j]).1,
    ) || queued(after.new_interfaces, doc.interfaces[j].1) by {
        if !before.interfaces.contains_key(doc.interfaces[j].1) {
            lemma_queued_more(before.new_interfaces, after.new_interfaces, doc.interfaces[j].1);
        }
    }
    assert forall|j: int| 0 <= j < doc.worlds.len() implies after.worlds.contains_key(
        (#[trigger] doc.worlds[j]).1,
    ) || queued(after.new_worlds, doc.worlds[j].1) by {
        if !before.worlds.contains_key(doc.worlds[j].1) {
            lemma_queued_more(before.new_worlds, after.new_worlds, doc.worlds[j].1);
        }
    }
}

proof fn lemma_package_done_more(before: Plan, after: Plan, from: ResolveView, p: PackageId)
    requires
        grows(before, after),
        before.package_done(from, p),
    ensures
        after.package_done(from, p),
{
    let list = from.packages[p as int].documents;
    assert forall|j: int| 0 <= j < list.len() implies after.documents.contains_key(
        (#[trigger] list[j]).1,
    ) || queued(after.new_documents, list[j].1) by {
        if !before.documents.contains_key(list[j].1) {
            lemma_queued_more(before.new_documents, after.new_documents, list[j].1);
        }
    }
}

proof fn lemma_document_homed(
    plan: Plan,
    from: ResolveView,
    into: ResolveView,
    from_id: DocumentId,
    into_id: DocumentId,
)
    requires
        comparable(from, into),
        plan.sane(from, into),
        !plan.documents.contains_key(from_id),
        !queued(plan.new_documents, from_id),
        (Plan { documents: plan.documents.insert(from_id, into_id), ..plan }).document_homed(
            from,
            into,
            from_id,
        ),
    ensures
        match matched_document(plan, from, into, from_id, into_id) {
            Err(stop) => stop != Stop::Repeated,
            Ok(after) => {
                &&& after.sane(from, into)
                &&& grows(plan, after)
                &&& after.documents == plan.documents.insert(from_id, into_id)
                &&& after.packages == plan.packages
                &&& after.new_documents == plan.new_documents
                &&& after.document_done(from, from_id)
            },
        },
{
    let paired = Plan { documents: plan.documents.insert(from_id, into_id), ..plan };
    let doc = from.documents[from_id as int];
    lemma_paired_document(plan, paired, from, into, from_id);
    assert forall|i: InterfaceId| #[trigger]
        paired.interfaces.contains_key(i)
            && from.interfaces[i as int].name.is_some() implies from.interfaces[i as int].document
        != from_id by {
        assert(plan.interface_homed(from, into, i));
    }
    assert forall|k: int| 0 <= k < paired.new_interfaces.len() implies from.interfaces[(
    #[trigger] paired.new_interfaces[k]).2 as int].document != from_id by {
        assert(plan.new_interface_homed(from, plan.new_interfaces[k]));
    }
    let n = doc.interfaces.len();
    let m = doc.worlds.len();
    lemma_document_interfaces_homed(paired, from, into, from_id, into_id, n);
    if let Ok(middle) = matched_document_interfaces(paired, from, into, from_id, into_id, n) {
        assert forall|w: WorldId| #[trigger]
            middle.worlds.contains_key(w) implies from.worlds[w as int].document != from_id by {
            assert(plan.worlds.contains_key(w));
            assert(plan.world_homed(from, into, w));
        }
        assert forall|k: int| 0 <= k < middle.new_worlds.len() implies from.worlds[(
        #[trigger] middle.new_worlds[k]).2 as int].document != from_id by {
            assert(plan.new_world_homed(from, plan.new_worlds[k]));
        }
        lemma_document_worlds_homed(middle, from, into, from_id, into_id, m);
        if let Ok(after) = matched_document_worlds(middle, from, into, from_id, into_id, m) {
            assert(grows(plan, after)) by {
                assert forall|t: TypeId| #[trigger]
                    plan.types.contains_key(t) implies after.types.contains_key(t)
                    && after.types[t] == plan.types[t] by {
                    assert(paired.types.contains_key(t));
                    assert(middle.types.contains_key(t));
                }
                assert forall|i: InterfaceId| #[trigger]
                    plan.interfaces.contains_key(i) implies after.interfaces.contains_key(i)
                    && after.interfaces[i] == plan.interfaces[i] by {
                    assert(paired.interfaces.contains_key(i));
                    assert(middle.interfaces.contains_key(i));
                }
                assert forall|w: WorldId| #[trigger]
                    plan.worlds.contains_key(w) implies after.worlds.contains_key(w)
                    && after.worlds[w] == plan.worlds[w] by {
                    assert(middle.worlds.contains_key(w));
                }
            }
            assert forall|j: int| 0 <= j < n implies after.interfaces.contains_key(
                (#[trigger] doc.interfaces[j]).1,
            ) || queued(after.new_interfaces, doc.interfaces[j].1) by {
                assert(middle.interfaces.contains_key(doc.interfaces[j].1) || queued(
                    middle.new_interfaces,
                    doc.interfaces[j].1,
                ));
            }
        }
    }
}

/// One more document is matched.
proof fn lemma_paired_document(
    plan: Plan,
    paired: Plan,
    from: ResolveView,
    into: ResolveView,
    d: DocumentId,
)
    requires
        plan.sane(from, into),
        !plan.documents.contains_key(d),
        !queued(plan.new_documents, d),
        paired == (Plan { documents: plan.documents.insert(d, paired.documents[d]), ..plan }),
        paired.document_homed(from, into, d),
    ensures
        paired.sane(from, into),
{
    assert(paired.homed(from, into)) by {
        assert forall|i: InterfaceId| #[trigger]
            paired.interfaces.contains_key(i) implies paired.interface_homed(from, into, i) by {
            assert(plan.interface_homed(from, into, i));
            lemma_stands_same(plan, paired, from, i);
        }
        assert forall|c: DocumentId| #[trigger]
            paired.documents.contains_key(c) implies paired.document_homed(from, into, c) by {
            if c != d {
                assert(plan.document_homed(from, into, c));
            }
        }
        assert forall|w: WorldId| #[trigger] paired.worlds.contains_key(w) implies paired.world_homed(
            from,
            into,
            w,
        ) by {
            assert(plan.world_homed(from, into, w));
        }
        assert forall|p: PackageId| #[trigger]
            paired.packages.contains_key(p) implies paired.package_homed(from, into, p) by {
            assert(plan.package_homed(from, into, p));
        }
        assert forall|t: TypeId| #[trigger] paired.types.contains_key(t) implies paired.type_homed(
            from,
            into,
            t,
        ) by {
            assert(plan.type_homed(from, into, t));
        }
    }
    assert forall|i: InterfaceId| #[trigger]
        paired.interfaces.contains_key(i) implies paired.interface_done(from, i) by {
        assert(plan.interface_done(from, i));
    }
    assert forall|k: int| 0 <= k < paired.new_interfaces.len() implies paired.new_interface_homed(
        from,
        #[trigger] paired.new_interfaces[k],
    ) by {
        assert(plan.new_interface_homed(from, plan.new_interfaces[k]));
    }
    assert forall|k: int| 0 <= k < paired.new_worlds.len() implies paired.new_world_homed(
        from,
        #[trigger] paired.new_worlds[k],
    ) by {
        assert(plan.new_world_homed(from, plan.new_worlds[k]));
    }
    assert forall|k: int| 0 <= k < paired.new_documents.len() implies paired.new_document_homed(
        from,
        #[trigger] paired.new_documents[k],
    ) by {
        assert(plan.new_document_homed(from, plan.new_documents[k]));
    }
}

/// What matching the first `n` documents of a package adds to a plan.
pub open spec fn documents_added(
    plan: Plan,
    after: Plan,
    from: ResolveView,
    p: PackageId,
    n: nat,
) -> bool {
    let list = from.packages[p as int].documents;
    &&& grows(plan, after)
    &&& after.packages == plan.packages
    &&& after.documents_done(from)
    &&& forall|d: DocumentId| #[trigger]
        after.documents.contains_key(d) ==> plan.documents.contains_key(d) || exists|j: int|
            0 <= j < n && (#[trigger] list[j]).1 == d
    &&& forall|j: int|
        0 <= j < n ==> after.documents.contains_key((#[trigger] list[j]).1) || queued(
            after.new_documents,
            list[j].1,
        )
    &&& forall|k: int|
        plan.new_documents.len() <= k < after.new_documents.len() ==> exists|j: int|
            0 <= j < n && #[trigger] list[j] == (
                (#[trigger] after.new_documents[k]).0,
                after.new_documents[k].2,
            )
}

/// Two places of a list hold different documents.
proof fn lemma_documents_differ(from: ResolveView, p: PackageId, j: int, k: int)
    requires
        from.valid(),
        from.parented(),
        p < from.packages.len(),
        0 <= j < k < from.packages[p as int].documents.len(),
    ensures
        from.packages[p as int].documents[j].1 != from.packages[p as int].documents[k].1,
        from.packages[p as int].documents[j].0 != from.packages[p as int].documents[k].0,
{
    let list = from.packages[p as int].documents;
    assert(from.package_valid(p as int));
    assert(from.package_lists(p as int));
    assert(list[j].0 != list[k].0);
    assert(from.documents[list[j].1 as int].name == list[j].0);
    assert(from.documents[list[k].1 as int].name == list[k].0);
}

proof fn lemma_documents_homed(
    plan: Plan,
    from: ResolveView,
    into: ResolveView,
    from_id: PackageId,
    into_id: PackageId,
    n: nat,
)
    requires
        comparable(from, into),
        plan.sane(from, into),
        plan.documents_done(from),
        plan.packages.contains_key(from_id),
        plan.packages[from_id] == into_id,
        forall|d: DocumentId| #[trigger]
            plan.documents.contains_key(d) ==> from.documents[d as int].package != Some(from_id),
        forall|k: int|
            0 <= k < plan.new_documents.len() ==> from.documents[(
            #[trigger] plan.new_documents[k]).2 as int].package != Some(from_id),
        n <= from.packages[from_id as int].documents.len(),
    ensures
        match matched_documents(plan, from, into, from_id, into_id, n) {
            Err(stop) => stop != Stop::Repeated,
            Ok(after) => {
                &&& after.sane(from, into)
                &&& documents_added(plan, after, from, from_id, n)
            },
        },
    decreases n,
{
    let list = from.packages[from_id as int].documents;
    if n > 0 {
        let m = (n - 1) as nat;
        lemma_documents_homed(plan, from, into, from_id, into_id, m);
        if let Ok(before) = matched_documents(plan, from, into, from_id, into_id, m) {
            let (name, id) = list[n - 1];
            assert(plan.package_homed(from, into, from_id));
            assert(from.package_valid(from_id as int));
            assert(into.package_valid(into_id as int));
            assert(from.package_lists(from_id as int));
            assert(into.package_lists(into_id as int));
            assert(list[n - 1].1 < from.documents.len());
            let others = into.packages[into_id as int].documents;
            lemma_find(others, name);
            assert(!before.documents.contains_key(id)) by {
                if before.documents.contains_key(id) {
                    let j = choose|j: int| 0 <= j < m && (#[trigger] list[j]).1 == id;
                    lemma_documents_differ(from, from_id, j, n - 1);
                }
            }
            assert forall|k: int| 0 <= k < before.new_documents.len() implies (
            #[trigger] before.new_documents[k]).2 != id && (before.new_documents[k].1 == into_id
                ==> before.new_documents[k].0 != name) by {
                let e = before.new_documents[k];
                assert(before.new_document_homed(from, e));
                if k < plan.new_documents.len() {
                    assert(e == plan.new_documents[k]);
                    if e.1 == into_id {
                        let p = from.documents[e.2 as int].package.unwrap();
                        lemma_packages_injective(before, from, into, p, from_id);
                    }
                } else {
                    let j = choose|j: int| 0 <= j < m && #[trigger] list[j] == (e.0, e.2);
                    lemma_documents_differ(from, from_id, j, n - 1);
                }
            }
            match lookup(others, name) {
                None => {
                    let e = (name, into_id, id);
                    let after = before.with_new_document(e);
                    lemma_new_document(before, after, from, into, e);
                    lemma_documents_queued(plan, before, after, from, from_id, into_id, n);
                },
                Some(other) => {
                    let k = find(others, name).unwrap();
                    assert(others[k] == (name, other));
                    let paired = Plan { documents: before.documents.insert(id, other), ..before };
                    assert(paired.document_homed(from, into, id));
                    lemma_document_homed(before, from, into, id, other);
                    if let Ok(after) = matched_document(before, from, into, id, other) {
                        lemma_documents_step(plan, before, after, from, from_id, n);
                    }
                },
            }
        }
    }
}

/// One more document is to be listed.
proof fn lemma_new_document(
    before: Plan,
    after: Plan,
    from: ResolveView,
    into: ResolveView,
    e: Addition,
)
    requires
        before.sane(from, into),
        after == before.with_new_document(e),
        before.new_document_homed(from, e),
        forall|k: int|
            0 <= k < before.new_documents.len() && (#[trigger] before.new_documents[k]).1 == e.1
                ==> before.new_documents[k].0 != e.0,
    ensures
        after.sane(from, into),
{
    assert(after.homed(from, into)) by {
        assert forall|i: InterfaceId| #[trigger]
            after.interfaces.contains_key(i) implies after.interface_homed(from, into, i) by {
            assert(before.interface_homed(from, into, i));
            lemma_stands_same(before, after, from, i);
        }
        assert forall|d: DocumentId| #[trigger]
            after.documents.contains_key(d) implies after.document_homed(from, into, d) by {
            assert(before.document_homed(from, into, d));
        }
        assert forall|w: WorldId| #[trigger] after.worlds.contains_key(w) implies after.world_homed(
            from,
            into,
            w,
        ) by {
            assert(before.world_homed(from, into, w));
        }
        assert forall|p: PackageId| #[trigger]
            after.packages.contains_key(p) implies after.package_homed(from, into, p) by {
            assert(before.package_homed(from, into, p));
        }
        assert forall|t: TypeId| #[trigger] after.types.contains_key(t) implies after.type_homed(
            from,
            into,
            t,
        ) by {
            assert(before.type_homed(from, into, t));
        }
    }
    assert forall|i: InterfaceId| #[trigger]
        after.interfaces.contains_key(i) implies after.interface_done(from, i) by {
        assert(before.interface_done(from, i));
    }
    assert forall|k: int| 0 <= k < after.new_interfaces.len() implies after.new_interface_homed(
        from,
        #[trigger] after.new_interfaces[k],
    ) by {
        assert(before.new_interface_homed(from, before.new_interfaces[k]));
    }
    assert forall|k: int| 0 <= k < after.new_worlds.len() implies after.new_world_homed(
        from,
        #[trigger] after.new_worlds[k],
    ) by {
        assert(before.new_world_homed(from, before.new_worlds[k]));
    }
    assert forall|k: int| 0 <= k < after.new_documents.len() implies after.new_document_homed(
        from,
        #[trigger] after.new_documents[k],
    ) by {
        if k < before.new_documents.len() {
            assert(before.new_document_homed(from, before.new_documents[k]));
        }
    }
}

proof fn lemma_documents_queued(
    plan: Plan,
    before: Plan,
    after: Plan,
    from: ResolveView,
    p: PackageId,
    into_id: PackageId,
    n: nat,
)
    requires
        0 < n <= from.packages[p as int].documents.len(),
        documents_added(plan, before, from, p, (n - 1) as nat),
        ({
            let (name, id) = from.packages[p as int].documents[n - 1];
            after == before.with_new_document((name, into_id, id))
        }),
    ensures
        documents_added(plan, after, from, p, n),
{
    let m = (n - 1) as nat;
    let list = from.packages[p as int].documents;
    let (name, id) = list[n - 1];
    assert(after.new_documents[before.new_documents.len() as int].2 == id);
    assert(before.new_documents.is_prefix_of(after.new_documents));
    assert(plan.new_documents.is_prefix_of(after.new_documents));
    assert(grows(before, after));
    assert forall|d: DocumentId| #[trigger]
        after.documents.contains_key(d) implies after.document_done(from, d) by {
        assert(before.documents.contains_key(d));
        lemma_document_done_more(before, after, from, d);
    }
    assert forall|d: DocumentId| #[trigger]
        after.documents.contains_key(d) implies plan.documents.contains_key(d) || exists|j: int|
        0 <= j < n && (#[trigger] list[j]).1 == d by {
        if !plan.documents.contains_key(d) {
            assert(before.documents.contains_key(d));
            let j = choose|j: int| 0 <= j < m && (#[trigger] list[j]).1 == d;
            assert(list[j].1 == d);
        }
    }
    assert forall|j: int| 0 <= j < n implies after.documents.contains_key((#[trigger] list[j]).1)
        || queued(after.new_documents, list[j].1) by {
        if j < m && !after.documents.contains_key(list[j].1) {
            lemma_queued_more(before.new_documents, after.new_documents, list[j].1);
        }
    }
    assert forall|k: int|
        plan.new_documents.len() <= k < after.new_documents.len() implies exists|j: int|
        0 <= j < n && #[trigger] list[j] == (
            (#[trigger] after.new_documents[k]).0,
            after.new_documents[k].2,
        ) by {
        let e = after.new_documents[k];
        if k < before.new_documents.len() {
            assert(e == before.new_documents[k]);
            let j = choose|j: int| 0 <= j < m && #[trigger] list[j] == (e.0, e.2);
            assert(list[j] == (e.0, e.2));
        } else {
            assert(list[n - 1] == (e.0, e.2));
        }
    }
}

proof fn lemma_documents_step(
    plan: Plan,
    before: Plan,
    after: Plan,
    from: ResolveView,
    p: PackageId,
    n: nat,
)
    requires
        0 < n <= from.packages[p as int].documents.len(),
        documents_added(plan, before, from, p, (n - 1) as nat),
        grows(before, after),
        after.packages == before.packages,
        after.new_documents == before.new_documents,
        ({
            let id = from.packages[p as int].documents[n - 1].1;
            &&& after.documents == before.documents.insert(id, after.documents[id])
            &&& after.document_done(from, id)
        }),
    ensures
        documents_added(plan, after, from, p, n),
{
    let m = (n - 1) as nat;
    let list = from.packages[p as int].documents;
    let (name, id) = list[n - 1];
    lemma_grows_further(plan, before, after);
    assert forall|d: DocumentId| #[trigger]
        after.documents.contains_key(d) implies after.document_done(from, d) by {
        if d != id {
            assert(before.documents.contains_key(d));
            lemma_document_done_more(before, after, from, d);
        }
    }
    assert forall|d: DocumentId| #[trigger]
        after.documents.contains_key(d) implies plan.documents.contains_key(d) || exists|j: int|
        0 <= j < n && (#[trigger] list[j]).1 == d by {
        if d == id {
            assert(list[n - 1].1 == d);
        } else if !plan.documents.contains_key(d) {
            assert(before.documents.contains_key(d));
            let j = choose|j: int| 0 <= j < m && (#[trigger] list[j]).1 == d;
            assert(list[j].1 == d);
        }
    }
    assert forall|j: int| 0 <= j < n implies after.documents.contains_key((#[trigger] list[j]).1)
        || queued(after.new_documents, list[j].1) by {
        if j < m {
            assert(before.documents.contains_key(list[j].1) || queued(
                before.new_documents,
                list[j].1,
            ));
        }
    }
    assert forall|k: int|
        plan.new_documents.len() <= k < after.new_documents.len() implies exists|j: int|
        0 <= j < n && #[trigger] list[j] == (
            (#[trigger] after.new_documents[k]).0,
            after.new_documents[k].2,
        ) by {
        let e = before.new_documents[k];
        let j = choose|j: int| 0 <= j < m && #[trigger] list[j] == (e.0, e.2);
        assert(list[j] == (e.0, e.2));
    }
}

proof fn lemma_grows_further(first: Plan, second: Plan, third: Plan)
    requires
        grows(first, second),
        grows(second, third),
    ensures
        grows(first, third),
{
    assert forall|t: TypeId| #[trigger] first.types.contains_key(t) implies third.types.contains_key(
        t,
    ) && third.types[t] == first.types[t] by {
        assert(second.types.contains_key(t));
    }
    assert forall|i: InterfaceId| #[trigger]
        first.interfaces.contains_key(i) implies third.interfaces.contains_key(i)
        && third.interfaces[i] == first.interfaces[i] by {
        assert(second.interfaces.contains_key(i));
    }
    assert forall|w: WorldId| #[trigger]
        first.worlds.contains_key(w) implies third.worlds.contains_key(w) && third.worlds[w]
        == first.worlds[w] by {
        assert(second.worlds.contains_key(w));
    }
    assert forall|d: DocumentId| #[trigger]
        first.documents.contains_key(d) implies third.documents.contains_key(d)
        && third.documents[d] == first.documents[d] by {
        assert(second.documents.contains_key(d));
    }
    assert forall|p: PackageId| #[trigger]
        first.packages.contains_key(p) implies third.packages.contains_key(p)
        && third.packages[p] == first.packages[p] by {
        assert(second.packages.contains_key(p));
    }
    assert(first.new_documents.is_prefix_of(third.new_documents));
    assert(first.new_interfaces.is_prefix_of(third.new_interfaces));
    assert(first.new_worlds.is_prefix_of(third.new_worlds));
}

/// One more package is matched.
proof fn lemma_paired_package(
    plan: Plan,
    paired: Plan,
    from: ResolveView,
    into: ResolveView,
    p: PackageId,
)
    requires
        plan.sane(from, into),
        !plan.packages.contains_key(p),
        paired == (Plan { packages: plan.packages.insert(p, paired.packages[p]), ..plan }),
        paired.package_homed(from, into, p),
    ensures
        paired.sane(from, into),
{
    assert(paired.homed(from, into)) by {
        assert forall|i: InterfaceId| #[trigger]
            paired.interfaces.contains_key(i) implies paired.interface_homed(from, into, i) by {
            assert(plan.interface_homed(from, into, i));
            lemma_stands_same(plan, paired, from, i);
        }
        assert forall|d: DocumentId| #[trigger]
            paired.documents.contains_key(d) implies paired.document_homed(from, into, d) by {
            assert(plan.document_homed(from, into, d));
        }
        assert forall|w: WorldId| #[trigger] paired.worlds.contains_key(w) implies paired.world_homed(
            from,
            into,
            w,
        ) by {
            assert(plan.world_homed(from, into, w));
        }
        assert forall|q: PackageId| #[trigger]
            paired.packages.contains_key(q) implies paired.package_homed(from, into, q) by {
            if q != p {
                assert(plan.package_homed(from, into, q));
            }
        }
        assert forall|t: TypeId| #[trigger] paired.types.contains_key(t) implies paired.type_homed(
            from,
            into,
            t,
        ) by {
            assert(plan.type_homed(from, into, t));
        }
    }
    assert forall|i: InterfaceId| #[trigger]
        paired.interfaces.contains_key(i) implies paired.interface_done(from, i) by {
        assert(plan.interface_done(from, i));
    }
    assert forall|k: int| 0 <= k < paired.new_interfaces.len() implies paired.new_interface_homed(
        from,
        #[trigger] paired.new_interfaces[k],
    ) by {
        assert(plan.new_interface_homed(from, plan.new_interfaces[k]));
    }
    assert forall|k: int| 0 <= k < paired.new_worlds.len() implies paired.new_world_homed(
        from,
        #[trigger] paired.new_worlds[k],
    ) by {
        assert(plan.new_world_homed(from, plan.new_worlds[k]));
    }
    assert forall|k: int| 0 <= k < paired.new_documents.len() implies paired.new_document_homed(
        from,
        #[trigger] paired.new_documents[k],
    ) by {
        assert(plan.new_document_homed(from, plan.new_documents[k]));
    }
}

proof fn lemma_packages_homed(from: ResolveView, into: ResolveView, n: nat)
    requires
        comparable(from, into),
        n <= from.packages.len(),
    ensures
        match matched_packages(Plan::start(), from, into, n) {
            Err(stop) => stop != Stop::Repeated,
            Ok(after) => {
                &&& after.sane(from, into)
                &&& after.documents_done(from)
                &&& after.packages_done(from)
                &&& forall|p: PackageId| #[trigger] after.packages.contains_key(p) ==> p < n
                &&& forall|p: PackageId|
                    p < n && find_package(
                        into.packages,
                        from.packages[p as int],
                        into.packages.len(),
                    ).is_some() ==> #[trigger] after.packages.contains_key(p)
            },
        },
    decreases n,
{
    if n > 0 {
        lemma_packages_homed(from, into, (n - 1) as nat);
        if let Ok(plan) = matched_packages(Plan::start(), from, into, (n - 1) as nat) {
            let package = from.packages[n - 1];
            lemma_find_package(into.packages, package, into.packages.len());
            if let Some(i) = find_package(into.packages, package, into.packages.len()) {
                let from_id = (n - 1) as usize;
                let into_id = i as usize;
                let paired = Plan { packages: plan.packages.insert(from_id, into_id), ..plan };
                assert(paired.package_homed(from, into, from_id));
                lemma_paired_package(plan, paired, from, into, from_id);
                assert forall|d: DocumentId| #[trigger]
                    paired.documents.contains_key(d) implies from.documents[d as int].package
                    != Some(from_id) by {
                    assert(plan.document_homed(from, into, d));
                }
                assert forall|k: int| 0 <= k < paired.new_documents.len() implies from.documents[(
                #[trigger] paired.new_documents[k]).2 as int].package != Some(from_id) by {
                    assert(plan.new_document_homed(from, plan.new_documents[k]));
                }
                assert forall|d: DocumentId| #[trigger]
                    paired.documents.contains_key(d) implies paired.document_done(from, d) by {
                    assert(plan.document_done(from, d));
                    lemma_document_done_more(plan, paired, from, d);
                }
                let m = package.documents.len();
                lemma_documents_homed(paired, from, into, from_id, into_id, m);
                if let Ok(after) = matched_documents(paired, from, into, from_id, into_id, m) {
                    assert forall|p: PackageId| #[trigger]
                        after.packages.contains_key(p) implies after.package_done(from, p) by {
                        if p != from_id {
                            assert(plan.package_done(from, p));
                            lemma_package_done_more(plan, paired, from, p);
                            lemma_package_done_more(paired, after, from, p);
                        }
                    }
                }
            }
        }
    }
}

/// Resolves in which every item can be traced back to its package can be merged: no item is matched
/// twice, and none is listed twice.
pub proof fn parented_resolves_merge(from: ResolveView, into: ResolveView)
    requires
        comparable(from, into),
    ensures
        can_merge(into, from),
{
    lemma_packages_homed(from, into, from.packages.len());
}

/// What is matched corresponds to what it is matched with, and whatever belongs to something that
/// is matched is matched itself or about to be listed. Every package is matched whose name and URL
/// a package of the other resolve has.
pub proof fn matched_items_correspond(from: ResolveView, into: ResolveView)
    requires
        comparable(from, into),
    ensures
        matched(from, into) matches Ok(plan) ==> {
            &&& plan.sane(from, into)
            &&& plan.documents_done(from)
            &&& plan.packages_done(from)
            &&& forall|p: PackageId|
                p < from.packages.len() && find_package(
                    into.packages,
                    from.packages[p as int],
                    into.packages.len(),
                ).is_some() ==> #[trigger] plan.packages.contains_key(p)
        },
{
    lemma_packages_homed(from, into, from.packages.len());
}

} // verus!
