//! What pushing and merging make of the order of interfaces.
use vstd::prelude::*;

use crate::append::{can_push, elaborated_worlds, pushed, pushed_map, with_interfaces, with_package};
use crate::closure::{interfaces_sorted, uses};
use crate::correspondence::{comparable, matched_items_correspond, parented_resolves_merge};
use crate::elaborate::use_of;
use crate::lineage::{lemma_source, merge_of, merging_maps_parents};
use crate::link::{lemma_linked, linked, Deps};
use crate::matching::{lemma_matched_within, matched, Plan};
use crate::merge::merged;
use crate::merge_laws::{
    lemma_moved_before_grows, lemma_renumbered_at, lemma_union_len, mapped_owner,
    merging_keeps_items, merging_keeps_valid, merging_maps_items, moved_before,
};
use crate::package::UnresolvedView;
use crate::readiness::lemma_use_moved;
use crate::remap::{mapped_ids, mapped_kind, RemapView};
use crate::resolve::ResolveView;
use crate::types::{InterfaceId, TypeOwner};

verus! {

impl UnresolvedView {
    /// Each interface of the package stands behind the others of it that it uses.
    pub open spec fn interfaces_sorted(self) -> bool {
        forall|i: int, j: int|
            #![trigger self.interfaces[i].types[j]]
            self.foreign_interfaces() <= i < self.interfaces.len() && 0 <= j
                < self.interfaces[i].types.len() ==> (self.local_use(
                self.interfaces[i].types[j].1 as int,
            ) matches Some(id) ==> id == i || id < i)
    }
}

/// Interfaces stay sorted topologically when a package is pushed whose interfaces are.
pub proof fn pushing_keeps_order(resolve: ResolveView, package: UnresolvedView, deps: Deps)
    requires
        can_push(resolve, package, deps),
        resolve.valid(),
        resolve.parented(),
        interfaces_sorted(resolve.types, resolve.interfaces),
        package.parented(),
        package.interfaces_sorted(),
        pushed(resolve, package, deps).0.fits(),
    ensures
        pushed(resolve, package, deps) matches (after, Ok(_)) ==> interfaces_sorted(
            after.types,
            after.interfaces,
        ),
{
    reveal(can_push);
    reveal(pushed);
    if let Ok(link) = linked(resolve, package, deps) {
        let map = pushed_map(resolve, package, link);
        let middle = with_interfaces(resolve, package, map);
        let (worlds, error) = elaborated_worlds(middle, package, map, package.worlds.len());
        if error.is_none() {
            let after = with_package(resolve, middle, package, map, worlds);
            let base = resolve.interfaces.len();
            lemma_linked(resolve, package, deps);
            assert forall|a: InterfaceId, b: InterfaceId|
                a < after.interfaces.len() && a != b && #[trigger] uses(
                    after.types,
                    after.interfaces,
                    a,
                    b,
                ) implies b < a by {
                let j = choose|j: int|
                    0 <= j < after.interfaces[a as int].types.len() && use_of(
                        after.types,
                        (#[trigger] after.interfaces[a as int].types[j]).1,
                    ) == Some(b);
                let t = after.interfaces[a as int].types[j].1;
                if a < base {
                    assert(after.interfaces[a as int] == resolve.interfaces[a as int]);
                    assert(resolve.interface_valid(a as int));
                    assert(resolve.interfaces[a as int].types[j].1 == t);
                    assert(after.types[t as int] == resolve.types[t as int]);
                    assert(resolve.type_valid(t as int));
                    let other = resolve.types[t as int].kind->Type_0->Id_0;
                    assert(after.types[other as int] == resolve.types[other as int]);
                    assert(use_of(resolve.types, t) == Some(b));
                    assert(uses(resolve.types, resolve.interfaces, a, b));
                } else {
                    let k = package.foreign_interfaces() + (a - base);
                    assert(after.interfaces[a as int].types == mapped_ids(
                        map.types,
                        package.interfaces[k].types,
                    ));
                    assert(package.interface_lists(k));
                    assert(package.interface_valid(k));
                    let old = package.interfaces[k].types[j].1;
                    assert(t == map.types[old as int]);
                    lemma_use_moved(resolve, package, deps, link, old as int);
                    assert(after.types[t as int].kind == middle.types[t as int].kind);
                    let other = middle.types[t as int].kind->Type_0->Id_0;
                    assert(middle.types[other as int].owner == TypeOwner::Interface(b));
                    assert(use_of(middle.types, t) == Some(b));
                    if let Some(id) = package.local_use(old as int) {
                        assert(id == k || id < k);
                        assert(b == map.interfaces[id as int]);
                        if id >= package.foreign_interfaces() {
                            assert(map.interfaces[id as int] == base + (id
                                - package.foreign_interfaces()));
                        } else {
                            assert(link.interfaces[id as int] < base);
                        }
                    }
                }
            }
        }
    }
}

/// Interfaces stay sorted topologically when one resolve is merged into another, if those of both
/// are.
pub proof fn merging_keeps_order(into: ResolveView, from: ResolveView)
    requires
        comparable(from, into),
        interfaces_sorted(into.types, into.interfaces),
        interfaces_sorted(from.types, from.interfaces),
        merged(into, from).0.fits(),
    ensures
        interfaces_sorted(merged(into, from).0.types, merged(into, from).0.interfaces),
{
    parented_resolves_merge(from, into);
    if matched(from, into).is_ok() && merged(into, from).1.is_ok() {
        let plan = matched(from, into)->Ok_0;
        let (after, map) = (merged(into, from).0, merged(into, from).1->Ok_0);
        merging_keeps_items(into, from);
        assert(merge_of(into, from, plan, after, map));
        assert forall|a: InterfaceId, b: InterfaceId|
            a < after.interfaces.len() && a != b && #[trigger] uses(
                after.types,
                after.interfaces,
                a,
                b,
            ) implies b < a by {
            if a < into.interfaces.len() {
                assert(after.interfaces[a as int] == into.interfaces[a as int]);
                assert(into.interface_valid(a as int));
                let j = choose|j: int|
                    0 <= j < after.interfaces[a as int].types.len() && use_of(
                        after.types,
                        (#[trigger] after.interfaces[a as int].types[j]).1,
                    ) == Some(b);
                let t = into.interfaces[a as int].types[j].1;
                assert(after.types[t as int] == into.types[t as int]);
                assert(into.type_valid(t as int));
                let other = into.types[t as int].kind->Type_0->Id_0;
                assert(after.types[other as int] == into.types[other as int]);
                assert(use_of(into.types, t) == Some(b));
                assert(uses(into.types, into.interfaces, a, b));
            } else {
                lemma_moved_order(into, from, plan, after, map, a, b);
            }
        }
    }
}

proof fn lemma_moved_order(
    into: ResolveView,
    from: ResolveView,
    plan: Plan,
    after: ResolveView,
    map: RemapView,
    a: InterfaceId,
    b: InterfaceId,
)
    requires
        merge_of(into, from, plan, after, map),
        interfaces_sorted(from.types, from.interfaces),
        into.interfaces.len() <= a < after.interfaces.len(),
        a != b,
        uses(after.types, after.interfaces, a, b),
    ensures
        b < a,
{
    lemma_matched_within(from, into);
    lemma_union_len(into, from, plan);
    merging_keeps_valid(into, from);
    merging_maps_items(into, from);
    merging_maps_parents(into, from);
    matched_items_correspond(from, into);
    let n = from.interfaces.len() as int;
    let base = into.interfaces.len();
    let k = lemma_source(base, plan.interfaces, n, a as int);
    assert(map.interfaces[k] == a);
    let old = from.interfaces[k].types;
    assert(after.interfaces[a as int].types == mapped_ids(map.types, old));
    let j = choose|j: int|
        0 <= j < after.interfaces[a as int].types.len() && use_of(
            after.types,
            (#[trigger] after.interfaces[a as int].types[j]).1,
        ) == Some(b);
    assert(from.interface_lists(k));
    assert(from.interface_valid(k));
    let t = from.interfaces[k].types[j].1;
    assert(after.interfaces[a as int].types[j].1 == map.types[t as int]);
    if plan.types.contains_key(t) {
        assert(plan.type_homed(from, into, t));
    }
    assert(after.types[map.types[t as int] as int].kind == mapped_kind(
        map.types,
        from.types[t as int].kind,
    ));
    assert(from.type_valid(t as int));
    let other = from.types[t as int].kind->Type_0->Id_0;
    assert(from.type_valid(other as int));
    let target = map.types[other as int];
    assert(after.types[target as int].owner == mapped_owner(map, from.types[other as int].owner));
    let owner = from.types[other as int].owner->Interface_0;
    assert(from.types[other as int].owner == TypeOwner::Interface(owner));
    assert(b == map.interfaces[owner as int]);
    assert(use_of(from.types, t) == Some(owner));
    assert(uses(from.types, from.interfaces, k as usize, owner));
    assert(owner != k);
    assert(owner < k);
    lemma_renumbered_at(base, plan.interfaces, n, owner as int);
    lemma_renumbered_at(base, plan.interfaces, n, k);
    if !plan.interfaces.contains_key(owner) {
        lemma_moved_before_grows(plan.interfaces, owner + 1, k);
        assert(moved_before(plan.interfaces, owner as int) < moved_before(plan.interfaces, k));
    }
}

} // verus!
