//! The graph walker: a small-step traversal machine over a crate catalog,
//! and the executable walk that implements it.
//!
//! The machine pops one pending task per step, guards it with the visited
//! set, resolves it, and dispatches on the resolved item's kind: modules
//! and enums queue their members, re-exports queue their target (crossing
//! a crate boundary when the path's first segment names a loaded crate),
//! structs emit a document, leaves do nothing, and unsupported kinds raise
//! a typed error that halts the machine.

use vstd::prelude::*;
use vstd::set_lib::lemma_len_subset;

use crate::catalog::{Catalog, CrateDesc, desc_wf, find_crate, item_wf, lemma_find_crate_props,
    lemma_resolve_wf, resolve_spec};
use crate::document::{DocSpec, StructDocument, document_struct, render_spec, struct_doc_spec};
use crate::items::{Id, Item, ItemKind, ResolveTarget, StructKind, item_ids};
use crate::paths::{first_segment, path_first_segment, str_eq};
use crate::universe::{lemma_member_in_universe, lemma_task_in_universe, lemma_universe_finite,
    universe};

verus! {

/// A typed traversal failure.
#[derive(Clone, Copy, PartialEq, Eq, Structural, Debug)]
pub enum WalkError {
    /// An item of a schema variant the walker does not support was
    /// reached, at the given crate slot and resolution target.
    Unsupported { crate_index: usize, target: ResolveTarget },
}

/// The walker's complete state between steps.
#[verifier::ext_equal]
pub ghost struct WalkState {
    /// Pending tasks; the task at the end is processed next.
    pub stack: Seq<(usize, ResolveTarget)>,
    /// The cycle/dedup guard: pairs already processed.
    pub visited: Set<(usize, ResolveTarget)>,
    /// The pairs processed so far, in processing order.
    pub trace: Seq<(usize, ResolveTarget)>,
    /// Documents emitted so far, in traversal order.
    pub docs: Seq<DocSpec>,
    /// The fatal condition, once one is reached.
    pub error: Option<WalkError>,
}

/// The machine's starting state: enter the target crate at its root.
pub open spec fn init_state() -> WalkState {
    WalkState {
        stack: seq![(0usize, ResolveTarget::CrateRoot)],
        visited: Set::empty(),
        trace: Seq::empty(),
        docs: Seq::empty(),
        error: None,
    }
}

/// The tasks that queue a member list: one task per identifier, same
/// crate, reversed so that the first member ends nearest the stack top.
pub open spec fn child_tasks(c: usize, ids: Seq<Id>) -> Seq<(usize, ResolveTarget)> {
    ids.reverse().map_values(|i: Id| (c, ResolveTarget::ById(i)))
}

/// Dispatch on a resolved item, after the task has been recorded in the
/// visited set and `st.stack` no longer holds it.
pub open spec fn step_dispatch(
    cat: Catalog,
    st: WalkState,
    c: usize,
    t: ResolveTarget,
    desc: CrateDesc,
    item: Item,
) -> WalkState {
    match item.kind {
        ItemKind::Module { children } => WalkState {
            stack: st.stack + child_tasks(c, children@),
            ..st
        },
        ItemKind::Use { source, id } => {
            let seg = first_segment(source@);
            if seg == "crate"@ || seg == "super"@ {
                match id {
                    Some(i) => WalkState {
                        stack: st.stack.push((c, ResolveTarget::ById(i))),
                        ..st
                    },
                    None => st,
                }
            } else {
                match find_crate(cat.slots@, seg) {
                    Some(j) => WalkState {
                        stack: st.stack.push((j as usize, ResolveTarget::CrateRoot)),
                        ..st
                    },
                    None => match id {
                        Some(i) => WalkState {
                            stack: st.stack.push((c, ResolveTarget::ById(i))),
                            ..st
                        },
                        None => st,
                    },
                }
            }
        },
        ItemKind::Struct { kind } => WalkState {
            docs: st.docs.push(struct_doc_spec(desc.index@, item, kind)),
            ..st
        },
        ItemKind::Enum { variants } => WalkState {
            stack: st.stack + child_tasks(c, variants@),
            ..st
        },
        _ => {
            if item.kind.is_leaf() {
                st
            } else {
                WalkState {
                    error: Some(WalkError::Unsupported { crate_index: c, target: t }),
                    ..st
                }
            }
        },
    }
}

/// One step of the machine.  A finished machine steps to itself.
pub open spec fn step(cat: Catalog, st: WalkState) -> WalkState {
    if st.error is Some || st.stack.len() == 0 {
        st
    } else {
        let task = st.stack.last();
        let c = task.0;
        let t = task.1;
        let popped = WalkState { stack: st.stack.drop_last(), ..st };
        if st.visited.contains(task) {
            popped
        } else {
            let marked = WalkState {
                visited: st.visited.insert(task),
                trace: st.trace.push(task),
                ..popped
            };
            if c >= cat.slots@.len() || cat.slots@[c as int] is None {
                marked
            } else {
                let desc = cat.slots@[c as int]->Some_0;
                match resolve_spec(desc, t) {
                    None => marked,
                    Some(item) => step_dispatch(cat, marked, c, t, desc, item),
                }
            }
        }
    }
}

/// `n` steps of the machine.
pub open spec fn run(cat: Catalog, st: WalkState, n: nat) -> WalkState
    decreases n,
{
    if n == 0 {
        st
    } else {
        run(cat, step(cat, st), (n - 1) as nat)
    }
}

/// A finished machine: the pending stack is drained, or a fatal condition
/// was reached.
pub open spec fn is_done(st: WalkState) -> bool {
    st.error is Some || st.stack.len() == 0
}

/// The traversal of this catalog reaches a finished state.
pub open spec fn terminates(cat: Catalog) -> bool {
    exists|n: nat| is_done(run(cat, init_state(), n))
}

/// The finished state the traversal reaches (meaningful once `terminates`
/// holds; unique by `lemma_final_unique`).
pub open spec fn final_state(cat: Catalog) -> WalkState {
    run(cat, init_state(), choose|n: nat| is_done(run(cat, init_state(), n)))
}

/// Law: a finished machine never moves again.  In particular, once the
/// fatal error is raised, no further documents are emitted: everything
/// reached strictly after the offending item stays undocumented.
pub proof fn lemma_done_stable(cat: Catalog, st: WalkState, n: nat)
    requires
        is_done(st),
    ensures
        run(cat, st, n) == st,
    decreases n,
{
    if n > 0 {
        assert(step(cat, st) == st);
        lemma_done_stable(cat, st, (n - 1) as nat);
    }
}

/// Splitting a run into two legs.
pub proof fn lemma_run_sum(cat: Catalog, st: WalkState, m: nat, n: nat)
    ensures
        run(cat, st, m + n) == run(cat, run(cat, st, m), n),
    decreases m,
{
    if m > 0 {
        lemma_run_sum(cat, step(cat, st), (m - 1) as nat, n);
    }
}

/// Law: determinism — any two finished runs over the same catalog agree,
/// state for state; walking an unchanged catalog twice therefore emits the
/// identical document sequence.
pub proof fn lemma_walk_deterministic(cat: Catalog, n1: nat, n2: nat)
    requires
        is_done(run(cat, init_state(), n1)),
        is_done(run(cat, init_state(), n2)),
    ensures
        run(cat, init_state(), n1) == run(cat, init_state(), n2),
{
    if n1 <= n2 {
        lemma_run_sum(cat, init_state(), n1, (n2 - n1) as nat);
        lemma_done_stable(cat, run(cat, init_state(), n1), (n2 - n1) as nat);
    } else {
        lemma_run_sum(cat, init_state(), n2, (n1 - n2) as nat);
        lemma_done_stable(cat, run(cat, init_state(), n2), (n1 - n2) as nat);
    }
}

/// Law: idempotence — the documents of any two finished runs over an
/// unchanged catalog render to identical text, document for document.
pub proof fn lemma_idempotent_output(cat: Catalog, n1: nat, n2: nat)
    requires
        is_done(run(cat, init_state(), n1)),
        is_done(run(cat, init_state(), n2)),
    ensures
        run(cat, init_state(), n1).docs.map_values(|d: DocSpec| render_spec(d)) == run(
            cat,
            init_state(),
            n2,
        ).docs.map_values(|d: DocSpec| render_spec(d)),
{
    lemma_walk_deterministic(cat, n1, n2);
}

/// Any finished run is the final state.
pub proof fn lemma_final_unique(cat: Catalog, n: nat)
    requires
        is_done(run(cat, init_state(), n)),
    ensures
        terminates(cat),
        is_done(final_state(cat)),
        final_state(cat) == run(cat, init_state(), n),
{
    assert(terminates(cat));
    let n0 = choose|m: nat| is_done(run(cat, init_state(), m));
    lemma_walk_deterministic(cat, n0, n);
}

/// The guard invariant behind the at-most-once law: processed pairs are
/// distinct, and every one of them is in the visited set.
pub open spec fn guard_inv(st: WalkState) -> bool {
    &&& st.trace.no_duplicates()
    &&& forall|p: (usize, ResolveTarget)| st.trace.contains(p) ==> st.visited.contains(p)
}

proof fn lemma_step_guard(cat: Catalog, st: WalkState)
    requires
        guard_inv(st),
    ensures
        guard_inv(step(cat, st)),
{
    let st2 = step(cat, st);
    if st.error is Some || st.stack.len() == 0 {
    } else {
        let task = st.stack.last();
        if st.visited.contains(task) {
        } else {
            assert(!st.trace.contains(task));
            assert(st2.trace == st.trace.push(task));
            assert forall|k: int| 0 <= k < st.trace.len() implies st.trace.push(task)[k]
                == st.trace[k] by {}
            assert(st2.trace.no_duplicates());
            assert forall|p: (usize, ResolveTarget)| st2.trace.contains(p) implies st2
                .visited.contains(p) by {
                let k = choose|k: int| 0 <= k < st2.trace.len() && st2.trace[k] == p;
                if k < st.trace.len() {
                    assert(st.trace.contains(p));
                }
            }
        }
    }
}

/// Law: termination's companion guarantee — in any number of steps from
/// the start, the walker processes each (crate, target) pair at most once:
/// the processing trace has no duplicates.
pub proof fn lemma_visits_at_most_once(cat: Catalog, n: nat)
    ensures
        run(cat, init_state(), n).trace.no_duplicates(),
{
    lemma_guard_holds(cat, n);
}

proof fn lemma_guard_holds(cat: Catalog, n: nat)
    ensures
        guard_inv(run(cat, init_state(), n)),
    decreases n,
{
    if n == 0 {
    } else {
        lemma_guard_holds(cat, (n - 1) as nat);
        lemma_run_sum(cat, init_state(), (n - 1) as nat, 1);
        lemma_step_guard(cat, run(cat, init_state(), (n - 1) as nat));
        let prev = run(cat, init_state(), (n - 1) as nat);
        assert(run(cat, step(cat, prev), 0) == step(cat, prev));
        assert(run(cat, prev, 1) == step(cat, prev));
        assert(run(cat, init_state(), n) == run(cat, prev, 1));
    }
}

/// Law: unsupported-variant abort — from a state whose fatal condition is
/// raised, any number of further steps changes nothing; in particular no
/// document is emitted past the offending item.
pub proof fn lemma_abort_freezes_output(cat: Catalog, st: WalkState, k: nat)
    requires
        st.error is Some,
    ensures
        run(cat, st, k) == st,
{
    lemma_done_stable(cat, st, k);
}

/// Law: crate-boundary resolution — when the machine processes an
/// unvisited re-export whose path's first segment names a loaded crate, it
/// queues that crate's root: the walker enters the foreign crate instead
/// of failing or looping.
pub proof fn lemma_use_crosses_boundary(
    cat: Catalog,
    st: WalkState,
    item: Item,
    src: String,
    id: Option<Id>,
    j: int,
)
    requires
        st.error is None,
        st.stack.len() > 0,
        !st.visited.contains(st.stack.last()),
        st.stack.last().0 < cat.slots@.len(),
        cat.slots@[st.stack.last().0 as int] is Some,
        resolve_spec(cat.slots@[st.stack.last().0 as int]->Some_0, st.stack.last().1) == Some(
            item,
        ),
        item.kind == (ItemKind::Use { source: src, id: id }),
        first_segment(src@) != "crate"@,
        first_segment(src@) != "super"@,
        find_crate(cat.slots@, first_segment(src@)) == Some(j),
    ensures
        step(cat, st).stack == st.stack.drop_last().push((j as usize, ResolveTarget::CrateRoot)),
        step(cat, st).error is None,
        step(cat, st).docs == st.docs,
{
}

/// Law: local fallback — an unvisited re-export whose first path segment
/// is no self- or parent-reference marker and matches no loaded crate name
/// queues its own resolved target within the current crate; the machine
/// never fails on it.
pub proof fn lemma_use_local_fallback(
    cat: Catalog,
    st: WalkState,
    item: Item,
    src: String,
    i: Id,
)
    requires
        st.error is None,
        st.stack.len() > 0,
        !st.visited.contains(st.stack.last()),
        st.stack.last().0 < cat.slots@.len(),
        cat.slots@[st.stack.last().0 as int] is Some,
        resolve_spec(cat.slots@[st.stack.last().0 as int]->Some_0, st.stack.last().1) == Some(
            item,
        ),
        item.kind == (ItemKind::Use { source: src, id: Some(i) }),
        first_segment(src@) != "crate"@,
        first_segment(src@) != "super"@,
        find_crate(cat.slots@, first_segment(src@)) is None,
    ensures
        step(cat, st).stack == st.stack.drop_last().push(
            (st.stack.last().0, ResolveTarget::ById(i)),
        ),
        step(cat, st).error is None,
        step(cat, st).docs == st.docs,
{
}

/// Law: field locality — the document emitted for a struct is built from
/// the index of the crate slot the struct was reached in: its fields are
/// resolved there, never against the crate the traversal came from.
pub proof fn lemma_field_locality(cat: Catalog, st: WalkState, item: Item, kind: StructKind)
    requires
        st.error is None,
        st.stack.len() > 0,
        !st.visited.contains(st.stack.last()),
        st.stack.last().0 < cat.slots@.len(),
        cat.slots@[st.stack.last().0 as int] is Some,
        resolve_spec(cat.slots@[st.stack.last().0 as int]->Some_0, st.stack.last().1) == Some(
            item,
        ),
        item.kind == (ItemKind::Struct { kind: kind }),
    ensures
        step(cat, st).docs == st.docs.push(
            struct_doc_spec(
                cat.slots@[st.stack.last().0 as int]->Some_0.index@,
                item,
                kind,
            ),
        ),
        step(cat, st).stack == st.stack.drop_last(),
        step(cat, st).error is None,
{
}

proof fn lemma_run_succ(cat: Catalog, n: nat)
    ensures
        run(cat, init_state(), (n + 1) as nat) == step(cat, run(cat, init_state(), n)),
{
    lemma_run_sum(cat, init_state(), n, 1);
    let prev = run(cat, init_state(), n);
    assert(run(cat, step(cat, prev), 0) == step(cat, prev));
    assert(run(cat, init_state(), (n + 1) as nat) == run(cat, prev, 1));
}

/// The mathematical content of a document batch.
pub open spec fn docs_views(s: Seq<StructDocument>) -> Seq<DocSpec> {
    s.map_values(|d: StructDocument| d@)
}

/// Whether the pair is already recorded in the visited list.
fn seen(visited: &Vec<(usize, ResolveTarget)>, c: usize, t: ResolveTarget) -> (b: bool)
    ensures
        b == visited@.to_set().contains((c, t)),
{
    let n = visited.len();
    let mut k: usize = 0;
    while k < n
        invariant
            n == visited@.len(),
            0 <= k <= n,
            forall|m: int| 0 <= m < k ==> #[trigger] visited@[m] != (c, t),
        decreases n - k,
    {
        let e = &visited[k];
        if e.0 == c && e.1 == t {
            proof {
                assert(visited@[k as int] == (c, t));
                assert(visited@.contains((c, t)));
            }
            return true;
        }
        k += 1;
    }
    proof {
        if visited@.to_set().contains((c, t)) {
            let m = choose|m: int| 0 <= m < visited@.len() && visited@[m] == (c, t);
            assert(visited@[m] != (c, t));
        }
    }
    false
}

/// Queue a member list: push its tasks in reverse, so the first member is
/// processed first.
fn push_member_tasks(stack: &mut Vec<(usize, ResolveTarget)>, c: usize, ids: &Vec<Id>)
    ensures
        final(stack)@ == old(stack)@ + child_tasks(c, ids@),
{
    let n = ids.len();
    let mut k: usize = n;
    proof {
        assert(stack@ =~= old(stack)@ + child_tasks(c, ids@).take(0));
    }
    while k > 0
        invariant
            n == ids@.len(),
            0 <= k <= n,
            child_tasks(c, ids@).len() == n,
            stack@ == old(stack)@ + child_tasks(c, ids@).take(n - k),
        decreases k,
    {
        k = k - 1;
        stack.push((c, ResolveTarget::ById(ids[k])));
        proof {
            assert(child_tasks(c, ids@)[n - k - 1] == (c, ResolveTarget::ById(ids@[k as int])));
            assert(stack@ =~= old(stack)@ + child_tasks(c, ids@).take(n - k));
        }
    }
    proof {
        assert(child_tasks(c, ids@).take(n as int) =~= child_tasks(c, ids@));
    }
}

/// Traverse the catalog from the target crate's root and return the
/// emitted struct documents in traversal order, together with the fatal
/// condition when one was reached.
///
/// The traversal is proved to terminate on every well-formed catalog —
/// re-export cycles included — and its outcome is exactly the machine's
/// unique finished state.
pub fn walk(cat: &Catalog) -> (r: (Vec<StructDocument>, Option<WalkError>))
    requires
        cat.wf(),
    ensures
        terminates(*cat),
        is_done(final_state(*cat)),
        docs_views(r.0@) == final_state(*cat).docs,
        r.1 == final_state(*cat).error,
{
    let mut stack: Vec<(usize, ResolveTarget)> = Vec::new();
    stack.push((0usize, ResolveTarget::CrateRoot));
    let mut visited: Vec<(usize, ResolveTarget)> = Vec::new();
    let mut docs: Vec<StructDocument> = Vec::new();
    let mut error: Option<WalkError> = None;
    let ghost mut n: nat = 0;
    proof {
        assert(run(*cat, init_state(), 0) == init_state());
        assert(stack@ =~= init_state().stack);
        assert(visited@.to_set() =~= init_state().visited);
        assert(docs_views(docs@) =~= init_state().docs);
        lemma_universe_finite(*cat);
        lemma_task_in_universe(*cat, 0, ResolveTarget::CrateRoot);
    }
    while stack.len() != 0 && error.is_none()
        invariant
            cat.wf(),
            ({
                let st = run(*cat, init_state(), n);
                &&& st.stack == stack@
                &&& st.visited == visited@.to_set()
                &&& st.docs == docs_views(docs@)
                &&& st.error == error
            }),
            visited@.no_duplicates(),
            visited@.len() <= universe(*cat).len(),
            universe(*cat).finite(),
            forall|m: int|
                0 <= m < visited@.len() ==> universe(*cat).contains(#[trigger] visited@[m]),
            forall|m: int|
                0 <= m < stack@.len() ==> {
                    &&& (#[trigger] stack@[m]).0 < cat.slots@.len()
                    &&& cat.slots@[stack@[m].0 as int] is Some
                    &&& universe(*cat).contains(stack@[m])
                },
        decreases universe(*cat).len() - visited@.len(), stack@.len(),
    {
        let ghost st = run(*cat, init_state(), n);
        let task = match stack.pop() {
            Some(p) => p,
            None => {
                proof {
                    assert(false);
                }
                (0usize, ResolveTarget::CrateRoot)
            },
        };
        let c = task.0;
        let t = task.1;
        proof {
            assert(task == st.stack.last());
            assert(stack@ == st.stack.drop_last());
        }
        if seen(&visited, c, t) {
            proof {
                lemma_run_succ(*cat, n);
                let st2 = step(*cat, st);
                assert(st.visited.contains((c, t)));
                assert(st2.stack == stack@);
                assert(st2.visited == visited@.to_set());
                assert(st2.docs == docs_views(docs@));
                assert(st2.error == error);
                n = n + 1;
            }
        } else {
            let ghost prev_visited = visited@;
            visited.push(task);
            proof {
                // the visited list stays duplicate-free and inside the universe
                assert(!prev_visited.contains((c, t)));
                assert forall|i: int, j: int|
                    0 <= i < j < visited@.len() implies visited@[i] != visited@[j] by {
                    if j < prev_visited.len() {
                        assert(prev_visited[i] != prev_visited[j]);
                    } else {
                        assert(visited@[j] == task);
                        assert(visited@[i] == prev_visited[i]);
                        assert(!prev_visited.contains(task));
                    }
                }
                assert forall|p: (usize, ResolveTarget)|
                    visited@.to_set().contains(p) == st.visited.insert(task).contains(p) by {
                    if visited@.contains(p) {
                        let m = choose|m: int| 0 <= m < visited@.len() && visited@[m] == p;
                        if m < prev_visited.len() {
                            assert(prev_visited[m] == p);
                            assert(prev_visited.contains(p));
                        } else {
                            assert(p == task);
                        }
                    }
                    if prev_visited.contains(p) {
                        let m = choose|m: int| 0 <= m < prev_visited.len() && prev_visited[m] == p;
                        assert(visited@[m] == p);
                        assert(visited@.contains(p));
                    }
                    if p == task {
                        assert(visited@[prev_visited.len() as int] == p);
                        assert(visited@.contains(p));
                    }
                }
                assert(visited@.to_set() =~= st.visited.insert(task));
                // the measure stays well-founded
                visited@.unique_seq_to_set();
                assert forall|p: (usize, ResolveTarget)|
                    visited@.to_set().contains(p) implies universe(*cat).contains(p) by {
                    let m = choose|m: int| 0 <= m < visited@.len() && visited@[m] == p;
                }
                lemma_len_subset(visited@.to_set(), universe(*cat));
            }
            let ghost marked = (WalkState {
                stack: st.stack.drop_last(),
                visited: st.visited.insert(task),
                trace: st.trace.push(task),
                docs: st.docs,
                error: st.error,
            });
            match &cat.slots[c] {
                Some(desc) => {
                    proof {
                        assert(cat.slots@[c as int] == Some(*desc));
                        assert(desc_wf(*desc));
                        lemma_resolve_wf(*desc, t);
                    }
                    match desc.resolve(t) {
                        None => {
                            proof {
                                assert(false);
                            }
                        },
                        Some(item) => {
                            proof {
                                assert(resolve_spec(*desc, t) == Some(*item));
                                assert(item_wf(desc.index@, *item));
                            }
                            match &item.kind {
                                ItemKind::Module { children } => {
                                    let ghost base = stack@;
                                    push_member_tasks(&mut stack, c, children);
                                    proof {
                                        assert(item_ids(*item) == children@);
                                        assert forall|m: int|
                                            0 <= m < stack@.len() implies {
                                            &&& (#[trigger] stack@[m]).0 < cat.slots@.len()
                                            &&& cat.slots@[stack@[m].0 as int] is Some
                                            &&& universe(*cat).contains(stack@[m])
                                        } by {
                                            if m < base.len() {
                                                assert(stack@[m] == base[m]);
                                            } else {
                                                let j = m - base.len();
                                                assert(stack@[m] == child_tasks(c, children@)[j]);
                                                let x = children@[children@.len() - 1 - j];
                                                assert(child_tasks(c, children@)[j] == (
                                                    c,
                                                    ResolveTarget::ById(x),
                                                ));
                                                assert(item_ids(*item).contains(x));
                                                lemma_member_in_universe(*cat, c, t, x);
                                            }
                                        }
                                        lemma_run_succ(*cat, n);
                                        let st2 = step(*cat, st);
                                        assert(st2 == step_dispatch(
                                            *cat,
                                            marked,
                                            c,
                                            t,
                                            *desc,
                                            *item,
                                        ));
                                        assert(st2.stack == marked.stack + child_tasks(
                                            c,
                                            children@,
                                        ));
                                        assert(st2.stack =~= stack@);
                                        assert(st2.visited == visited@.to_set());
                                        assert(st2.docs == docs_views(docs@));
                                        assert(st2.error == error);
                                        n = n + 1;
                                    }
                                },
                                ItemKind::Enum { variants } => {
                                    let ghost base = stack@;
                                    push_member_tasks(&mut stack, c, variants);
                                    proof {
                                        assert(item_ids(*item) == variants@);
                                        assert forall|m: int|
                                            0 <= m < stack@.len() implies {
                                            &&& (#[trigger] stack@[m]).0 < cat.slots@.len()
                                            &&& cat.slots@[stack@[m].0 as int] is Some
                                            &&& universe(*cat).contains(stack@[m])
                                        } by {
                                            if m < base.len() {
                                                assert(stack@[m] == base[m]);
                                            } else {
                                                let j = m - base.len();
                                                assert(stack@[m] == child_tasks(c, variants@)[j]);
                                                let x = variants@[variants@.len() - 1 - j];
                                                assert(child_tasks(c, variants@)[j] == (
                                                    c,
                                                    ResolveTarget::ById(x),
                                                ));
                                                assert(item_ids(*item).contains(x));
                                                lemma_member_in_universe(*cat, c, t, x);
                                            }
                                        }
                                        lemma_run_succ(*cat, n);
                                        let st2 = step(*cat, st);
                                        assert(st2 == step_dispatch(
                                            *cat,
                                            marked,
                                            c,
                                            t,
                                            *desc,
                                            *item,
                                        ));
                                        assert(st2.stack == marked.stack + child_tasks(
                                            c,
                                            variants@,
                                        ));
                                        assert(st2.stack =~= stack@);
                                        assert(st2.visited == visited@.to_set());
                                        assert(st2.docs == docs_views(docs@));
                                        assert(st2.error == error);
                                        n = n + 1;
                                    }
                                },
                                ItemKind::Use { source, id } => {
                                    let seg = path_first_segment(source.as_str());
                                    let local = str_eq(seg.as_str(), "crate") || str_eq(
                                        seg.as_str(),
                                        "super",
                                    );
                                    let mut crossed: Option<usize> = None;
                                    if !local {
                                        crossed = cat.find_crate(seg.as_str());
                                    }
                                    match crossed {
                                        Some(j) => {
                                            proof {
                                                lemma_find_crate_props(cat.slots@, seg@, 0);
                                                lemma_task_in_universe(
                                                    *cat,
                                                    j,
                                                    ResolveTarget::CrateRoot,
                                                );
                                            }
                                            stack.push((j, ResolveTarget::CrateRoot));
                                            proof {
                                                lemma_run_succ(*cat, n);
                                                let st2 = step(*cat, st);
                                                assert(st2 == step_dispatch(
                                                    *cat,
                                                    marked,
                                                    c,
                                                    t,
                                                    *desc,
                                                    *item,
                                                ));
                                                assert(st2.stack =~= stack@);
                                                assert(st2.visited == visited@.to_set());
                                                assert(st2.docs == docs_views(docs@));
                                                assert(st2.error == error);
                                                n = n + 1;
                                            }
                                        },
                                        None => {
                                            match *id {
                                                Some(i) => {
                                                    proof {
                                                        assert(item_ids(*item) == seq![i]);
                                                        assert(item_ids(*item)[0] == i);
                                                        assert(item_ids(*item).contains(i));
                                                        lemma_member_in_universe(*cat, c, t, i);
                                                    }
                                                    stack.push((c, ResolveTarget::ById(i)));
                                                    proof {
                                                        lemma_run_succ(*cat, n);
                                                        let st2 = step(*cat, st);
                                                        assert(st2 == step_dispatch(
                                                            *cat,
                                                            marked,
                                                            c,
                                                            t,
                                                            *desc,
                                                            *item,
                                                        ));
                                                        assert(st2.stack =~= stack@);
                                                        assert(st2.visited == visited@.to_set());
                                                        assert(st2.docs == docs_views(docs@));
                                                        assert(st2.error == error);
                                                        n = n + 1;
                                                    }
                                                },
                                                None => {
                                                    proof {
                                                        assert(false);
                                                    }
                                                },
                                            }
                                        },
                                    }
                                },
                                ItemKind::Struct { kind } => {
                                    let doc = document_struct(desc, item, kind);
                                    let ghost gdoc = doc;
                                    let ghost prev_docs = docs@;
                                    docs.push(doc);
                                    proof {
                                        lemma_run_succ(*cat, n);
                                        let st2 = step(*cat, st);
                                        assert(st2 == step_dispatch(
                                            *cat,
                                            marked,
                                            c,
                                            t,
                                            *desc,
                                            *item,
                                        ));
                                        assert(st2.stack == stack@);
                                        assert(st2.visited == visited@.to_set());
                                        assert(docs@ == prev_docs.push(gdoc));
                                        assert(st2.docs =~= docs_views(docs@));
                                        assert(st2.error == error);
                                        n = n + 1;
                                    }
                                },
                                ItemKind::StructField
                                | ItemKind::Variant
                                | ItemKind::Function
                                | ItemKind::Trait
                                | ItemKind::Impl
                                | ItemKind::TypeAlias
                                | ItemKind::Constant
                                | ItemKind::Static
                                | ItemKind::Macro
                                | ItemKind::ProcMacro
                                | ItemKind::AssocType => {
                                    proof {
                                        lemma_run_succ(*cat, n);
                                        let st2 = step(*cat, st);
                                        assert(st2 == step_dispatch(
                                            *cat,
                                            marked,
                                            c,
                                            t,
                                            *desc,
                                            *item,
                                        ));
                                        assert(st2.stack == stack@);
                                        assert(st2.visited == visited@.to_set());
                                        assert(st2.docs == docs_views(docs@));
                                        assert(st2.error == error);
                                        n = n + 1;
                                    }
                                },
                                ItemKind::Union
                                | ItemKind::TraitAlias
                                | ItemKind::ExternCrate
                                | ItemKind::ExternType
                                | ItemKind::Primitive
                                | ItemKind::AssocConst => {
                                    error = Some(
                                        WalkError::Unsupported { crate_index: c, target: t },
                                    );
                                    proof {
                                        lemma_run_succ(*cat, n);
                                        let st2 = step(*cat, st);
                                        assert(st2 == step_dispatch(
                                            *cat,
                                            marked,
                                            c,
                                            t,
                                            *desc,
                                            *item,
                                        ));
                                        assert(st2.stack == stack@);
                                        assert(st2.visited == visited@.to_set());
                                        assert(st2.docs == docs_views(docs@));
                                        assert(st2.error == error);
                                        n = n + 1;
                                    }
                                },
                            }
                        },
                    }
                },
                None => {
                    proof {
                        assert(false);
                    }
                },
            }
        }
    }
    proof {
        let st = run(*cat, init_state(), n);
        assert(is_done(st));
        lemma_final_unique(*cat, n);
    }
    (docs, error)
}

} // verus!
