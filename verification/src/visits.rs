//! What taking up an interface does to the state of an elaboration, whether or not it fails.
use vstd::prelude::*;

use crate::bound::lemma_unused_decreases;
use crate::elaborate::{lemma_nodes_push, node, nodes, Chain, Progress, Scope};
use crate::error::ErrorView;
use crate::types::{InterfaceId, ItemView, Span};

verus! {

impl Scope {
    /// An interface that was taken up stays so, and if it was not imported or exported before then
    /// taking up another one does not import or export it.
    proof fn lemma_reached(
        self,
        state: Progress,
        chain: Chain,
        id: InterfaceId,
        import: bool,
        span: Span,
        x: InterfaceId,
        d: bool,
    )
        ensures
            self.visit(state, chain, id, import, span) matches Ok(after) ==> self.reached(
                state,
                chain,
                id,
                import,
                span,
            ) == after,
            state.taken(x, d) ==> self.reached(state, chain, id, import, span).taken(x, d),
            state.taken(x, d) && !state.placed(x, d) ==> !self.reached(
                state,
                chain,
                id,
                import,
                span,
            ).placed(x, d),
        decreases self.room(chain), 0nat,
    {
        if !state.taken(id, import) && id < self.graph.uses.len() && !chain.contains((id, import)) {
            let inner = chain.push((id, import));
            let taken = state.take(id, import);
            lemma_nodes_push(chain, (id, import));
            lemma_unused_decreases(2 * self.graph.uses.len(), nodes(chain), node((id, import)));
            let n = self.graph.uses[id as int].len();
            self.lemma_reached_uses(taken, inner, id, import, span, n, x, d);
            let used = self.reached_uses(taken, inner, id, import, span, n);
            assert(taken.items(d) == state.items(d));
            assert(state.taken(x, d) ==> taken.taken(x, d));
            if let Ok(after) = self.place(used, chain, id, import, span) {
                assert(after.taken(x, d) == used.taken(x, d));
                if state.taken(x, d) && !state.placed(x, d) {
                    assert(!used.placed(x, d));
                    assert((x, d) != (id, import));
                    if after.placed(x, d) {
                        let p = choose|p: int|
                            0 <= p < after.items(d).len() && (#[trigger] after.items(d)[p]).1
                                == ItemView::Interface(x);
                        assert(p < used.items(d).len());
                        assert(used.items(d)[p] == after.items(d)[p]);
                    }
                }
            }
        }
    }

    proof fn lemma_reached_uses(
        self,
        state: Progress,
        chain: Chain,
        id: InterfaceId,
        import: bool,
        span: Span,
        n: nat,
        x: InterfaceId,
        d: bool,
    )
        ensures
            self.visit_uses(state, chain, id, import, span, n) matches Ok(after)
                ==> self.reached_uses(state, chain, id, import, span, n) == after,
            state.taken(x, d) ==> self.reached_uses(state, chain, id, import, span, n).taken(x, d),
            state.taken(x, d) && !state.placed(x, d) ==> !self.reached_uses(
                state,
                chain,
                id,
                import,
                span,
                n,
            ).placed(x, d),
        decreases self.room(chain), n,
    {
        if n > 0 {
            let m = (n - 1) as nat;
            self.lemma_reached_uses(state, chain, id, import, span, m, x, d);
            let before = self.reached_uses(state, chain, id, import, span, m);
            if let Some(dep) = self.graph.uses[id as int][n - 1] {
                let direction = self.imports_use(dep, import);
                self.lemma_reached(before, chain, dep, direction, span, x, d);
            }
        }
    }

    /// An interface that was taken up is taken up once: taking it up again in the same direction
    /// succeeds and changes nothing, wherever it is asked for.
    pub proof fn interfaces_are_taken_up_once(
        self,
        state: Progress,
        chain: Chain,
        id: InterfaceId,
        import: bool,
        span: Span,
        other_chain: Chain,
        other_span: Span,
    )
        requires
            id < self.graph.uses.len(),
            state.covers(chain),
        ensures
            self.visit(state, chain, id, import, span) matches Ok(after) ==> {
                &&& after.taken(id, import)
                &&& self.visit(after, other_chain, id, import, other_span) == Ok::<
                    Progress,
                    ErrorView,
                >(after)
                &&& self.reached(after, other_chain, id, import, other_span) == after
            },
    {
        if chain.contains((id, import)) {
            let i = choose|i: int| 0 <= i < chain.len() && chain[i] == (id, import);
            assert(state.taken(chain[i].0, chain[i].1));
        }
        if !state.taken(id, import) {
            let inner = chain.push((id, import));
            let taken = state.take(id, import);
            let n = self.graph.uses[id as int].len();
            self.lemma_reached_uses(taken, inner, id, import, span, n, id, import);
        }
    }

    /// An interface that cannot be taken up is not imported or exported, nor is anything else that
    /// was in progress. Where its name is in use, what is imported and exported is what was once
    /// everything that it uses was taken up.
    pub proof fn interfaces_that_fail_stay_out(
        self,
        state: Progress,
        chain: Chain,
        id: InterfaceId,
        import: bool,
        span: Span,
    )
        requires
            !state.taken(id, import),
            !state.placed(id, import),
        ensures
            self.visit(state, chain, id, import, span).is_err() ==> {
                let n = self.graph.uses[id as int].len();
                let inner = chain.push((id, import));
                let after = self.reached(state, chain, id, import, span);
                &&& !after.placed(id, import)
                &&& forall|x: InterfaceId, d: bool|
                    state.taken(x, d) && !state.placed(x, d) ==> !#[trigger] after.placed(x, d)
                &&& self.visit_uses(
                    state.take(id, import),
                    inner,
                    id,
                    import,
                    span,
                    n,
                ) matches Ok(used) ==> after == used
            },
    {
        if self.visit(state, chain, id, import, span).is_err() {
            let inner = chain.push((id, import));
            let taken = state.take(id, import);
            let n = self.graph.uses[id as int].len();
            let after = self.reached(state, chain, id, import, span);
            assert(taken.items(import) == state.items(import));
            self.lemma_reached_uses(taken, inner, id, import, span, n, id, import);
            assert forall|x: InterfaceId, d: bool|
                state.taken(x, d) && !state.placed(x, d) implies !#[trigger] after.placed(x, d) by {
                self.lemma_reached(state, chain, id, import, span, x, d);
            }
        }
    }
}

} // verus!
