//! Putting the global declarations of a module in an order in which each one
//! comes after those that it refers to.

use vstd::prelude::*;

use crate::bridge;
use crate::dedup;
use crate::defs;
use crate::defs::DefAnalyzer;
use crate::merging;
use crate::model;
use crate::model::{Duplicate, InstView, ModuleView, SpvInst, SpvModule};
use crate::rename;
use topological_sort::TopologicalSort;

verus! {

/// Whether a declaration of `succ` refers to `prec`.
pub open spec fn depends(globals: Seq<InstView>, prec: u32, succ: u32) -> bool {
    exists|k: int|
        0 <= k < globals.len() && (#[trigger] globals[k]).result_id == Some(succ)
            && globals[k].uses(prec)
}

/// Whether a declaration of one of two ids refers to the other.
pub open spec fn adjacent(globals: Seq<InstView>, x: u32, y: u32) -> bool {
    depends(globals, x, y) || depends(globals, y, x)
}

/// The ids that refer to an id, or that an id refers to.
pub open spec fn involved(globals: Seq<InstView>) -> Set<u32> {
    Set::new(|x: u32| exists|y: u32| adjacent(globals, x, y))
}

/// The ids among `left` that refer to none of `left`.
pub open spec fn ready(globals: Seq<InstView>, left: Set<u32>) -> Set<u32> {
    left.filter(|x: u32| forall|p: u32| #[trigger] left.contains(p) ==> !depends(globals, p, x))
}

/// A round that hands out ids leaves fewer.
pub proof fn lemma_round(globals: Seq<InstView>, left: Set<u32>)
    requires
        left.finite(),
    ensures
        left.difference(ready(globals, left)).finite(),
        ready(globals, left) != Set::<u32>::empty() ==> left.difference(
            ready(globals, left),
        ).len() < left.len(),
{
    let first = ready(globals, left);
    let rest = left.difference(first);
    if first != Set::<u32>::empty() {
        let x = first.choose();
        assert(first.contains(x)) by {
            if forall|y: u32| !first.contains(y) {
                assert(first =~= Set::empty());
            }
        }
        vstd::set_lib::lemma_len_subset(rest, left.remove(x));
    }
}

/// The numbers of a set in ascending order.
pub open spec fn ascending(s: Set<u32>) -> Seq<u32> {
    s.to_seq().sort_by(|x: u32, y: u32| x <= y)
}

/// The ids `left` in rounds: first those that refer to none of the others, in
/// ascending order, then those that refer to these alone, and so on. Ids that
/// refer to each other in a circle are left out.
pub open spec fn rounds(globals: Seq<InstView>, left: Set<u32>) -> Seq<u32>
    decreases left.len(),
    when left.finite()
{
    let first = ready(globals, left);
    proof {
        lemma_round(globals, left);
    }
    if first == Set::<u32>::empty() {
        Seq::empty()
    } else {
        ascending(first) + rounds(globals, left.difference(first))
    }
}

/// Whether the rounds take in all ids `left`: none of them refer to each other in
/// a circle.
pub open spec fn exhausted(globals: Seq<InstView>, left: Set<u32>) -> bool
    decreases left.len(),
    when left.finite()
{
    let first = ready(globals, left);
    proof {
        lemma_round(globals, left);
    }
    left == Set::<u32>::empty() || first != Set::<u32>::empty() && exhausted(
        globals,
        left.difference(first),
    )
}

proof fn lemma_to_seq(s: Set<u32>)
    requires
        s.finite(),
    ensures
        s.to_seq().no_duplicates(),
        forall|x: u32| #[trigger] s.to_seq().contains(x) <==> s.contains(x),
    decreases s.len(),
{
    s.lemma_to_seq_to_set_id();
    assert forall|x: u32| #[trigger] s.to_seq().contains(x) <==> s.contains(x) by {
        assert(s.to_seq().contains(x) <==> s.to_seq().to_set().contains(x));
    }
    if s.len() > 0 {
        let x = s.choose();
        lemma_to_seq(s.remove(x));
        let rest = s.remove(x).to_seq();
        assert(s.to_seq() =~= seq![x] + rest);
        assert(!rest.contains(x));
    }
}

proof fn lemma_ascending(v: Seq<u32>, s: Set<u32>)
    requires
        s.finite(),
        v.no_duplicates(),
        forall|x: u32| #[trigger] v.contains(x) <==> s.contains(x),
        forall|i: int, j: int| 0 <= i <= j < v.len() ==> v[i] <= v[j],
    ensures
        v == ascending(s),
{
    broadcast use vstd::seq_lib::group_to_multiset_ensures;

    let leq = |x: u32, y: u32| x <= y;
    let t = s.to_seq();
    lemma_to_seq(s);
    t.lemma_sort_by_ensures(leq);
    v.lemma_multiset_has_no_duplicates();
    t.lemma_multiset_has_no_duplicates();
    assert forall|x: u32| v.to_multiset().count(x) == t.to_multiset().count(x) by {
        assert(v.contains(x) <==> t.contains(x));
        assert(v.to_multiset().contains(x) <==> t.to_multiset().contains(x));
    }
    assert(v.to_multiset() =~= t.to_multiset());
    vstd::seq_lib::lemma_sorted_unique(v, ascending(s), leq);
}

proof fn lemma_depends_step(globals: Seq<InstView>, k: int, prec: u32, succ: u32)
    requires
        0 <= k < globals.len(),
    ensures
        depends(globals.take(k + 1), prec, succ) <==> depends(globals.take(k), prec, succ)
            || globals[k].result_id == Some(succ) && globals[k].uses(prec),
{
    let before = globals.take(k);
    let after = globals.take(k + 1);
    if depends(before, prec, succ) {
        let j = choose|j: int|
            0 <= j < before.len() && (#[trigger] before[j]).result_id == Some(succ)
                && before[j].uses(prec);
        assert(after[j] == before[j]);
    }
    if globals[k].result_id == Some(succ) && globals[k].uses(prec) {
        assert(after[k] == globals[k]);
    }
    if depends(after, prec, succ) {
        let j = choose|j: int|
            0 <= j < after.len() && (#[trigger] after[j]).result_id == Some(succ) && after[j].uses(
                prec,
            );
        if j < k {
            assert(before[j] == after[j]);
        }
    }
}

/// Whether one of two ids is linked to the other.
spec fn joined(links: spec_fn(u32, u32) -> bool, x: u32, y: u32) -> bool {
    links(x, y) || links(y, x)
}

/// Whether a sorter holds exactly the given links, and the items that occur in
/// them.
spec fn holds(sorter: TopologicalSort<u32>, links: spec_fn(u32, u32) -> bool) -> bool {
    &&& bridge::items_of(sorter).finite()
    &&& forall|p: u32, s: u32| #[trigger]
        bridge::links_of(sorter).contains((p, s)) <==> links(p, s)
    &&& forall|x: u32| #[trigger]
        bridge::items_of(sorter).contains(x) <==> exists|y: u32| joined(links, x, y)
}

proof fn lemma_holds_same(
    sorter: TopologicalSort<u32>,
    links: spec_fn(u32, u32) -> bool,
    others: spec_fn(u32, u32) -> bool,
)
    requires
        holds(sorter, links),
        forall|p: u32, s: u32| #[trigger] links(p, s) == others(p, s),
    ensures
        holds(sorter, others),
{
    assert(links =~= others);
}

/// Adds a link to a sorter.
fn add_link(
    sorter: &mut TopologicalSort<u32>,
    prec: u32,
    succ: u32,
    Ghost(links): Ghost<spec_fn(u32, u32) -> bool>,
)
    requires
        holds(*old(sorter), links),
    ensures
        holds(
            *final(sorter),
            (|p: u32, s: u32| links(p, s) || p == prec && s == succ),
        ),
{
    let ghost before = *sorter;
    let ghost more = |p: u32, s: u32| links(p, s) || p == prec && s == succ;
    bridge::add_dependency(sorter, prec, succ);
    proof {
        let items = bridge::items_of(*sorter);
        assert forall|x: u32| #[trigger] items.contains(x) <==> exists|y: u32|
            joined(more, x, y) by {
            if bridge::items_of(before).contains(x) {
                let y = choose|y: u32| joined(links, x, y);
                assert(joined(more, x, y));
            }
            if x == prec {
                assert(joined(more, x, succ));
            }
            if x == succ {
                assert(joined(more, x, prec));
            }
            if exists|y: u32| joined(more, x, y) {
                let y = choose|y: u32| joined(more, x, y);
                if joined(links, x, y) {
                    assert(bridge::items_of(before).contains(x));
                }
            }
        }
    }
}

/// The links of the declarations before `k`, and of declaration `k` up to operand
/// `j`.
spec fn links_upto(globals: Seq<InstView>, k: int, j: int) -> spec_fn(u32, u32) -> bool {
    |p: u32, s: u32|
        depends(globals.take(k), p, s) || globals[k].result_id == Some(s) && (
        globals[k].result_type == Some(p) || model::refers(globals[k].operands.take(j), p))
}

/// A sorter with the links among global declarations.
fn link_globals(globals: &Vec<SpvInst>) -> (r: TopologicalSort<u32>)
    ensures
        holds(r, (|p: u32, s: u32| depends(model::views(globals@), p, s))),
{
    let ghost all = model::views(globals@);
    let mut sorter = bridge::new_sorter();
    assert(holds(sorter, |p: u32, s: u32| depends(all.take(0), p, s)));
    for k in 0..globals.len()
        invariant
            all == model::views(globals@),
            holds(sorter, |p: u32, s: u32| depends(all.take(k as int), p, s)),
    {
        let t = &globals[k];
        let ghost start = |p: u32, s: u32| depends(all.take(k as int), p, s);
        let ghost here = all[k as int];
        assert(here == t@);
        if let Some(result_id) = t.result_id {
            let ghost typed = links_upto(all, k as int, 0);
            if let Some(result_type) = t.result_type {
                add_link(&mut sorter, result_type, result_id, Ghost(start));
                proof {
                    lemma_holds_same(
                        sorter,
                        |p: u32, s: u32| start(p, s) || p == result_type && s == result_id,
                        typed,
                    );
                }
            } else {
                proof {
                    lemma_holds_same(sorter, start, typed);
                }
            }
            for j in 0..t.operands.len()
                invariant
                    0 <= k < all.len(),
                    here == all[k as int],
                    here == t@,
                    here.result_id == Some(result_id),
                    holds(sorter, links_upto(all, k as int, j as int)),
            {
                let ghost links = links_upto(all, k as int, j as int);
                let ghost more = links_upto(all, k as int, j + 1);
                assert(here.operands[j as int] == t.operands@[j as int]@);
                let id = t.operands[j].id();
                if let Some(w) = id {
                    add_link(&mut sorter, w, result_id, Ghost(links));
                }
                proof {
                    assert forall|p: u32, s: u32| #[trigger] more(p, s) == (links(p, s) || id == Some(p)
                        && s == result_id) by {
                        model::lemma_refers_step(here.operands, j as int, p);
                    }
                    if id is Some {
                        let w = id->0;
                        lemma_holds_same(
                            sorter,
                            |p: u32, s: u32| links(p, s) || p == w && s == result_id,
                            more,
                        );
                    } else {
                        lemma_holds_same(sorter, links, more);
                    }
                }
            }
            proof {
                let links = links_upto(all, k as int, here.operands.len() as int);
                let next = |p: u32, s: u32| depends(all.take(k + 1), p, s);
                assert forall|p: u32, s: u32| #[trigger] links(p, s) == next(p, s) by {
                    lemma_depends_step(all, k as int, p, s);
                    assert(here.operands.take(here.operands.len() as int) =~= here.operands);
                }
                lemma_holds_same(sorter, links, next);
            }
        } else {
            proof {
                let next = |p: u32, s: u32| depends(all.take(k + 1), p, s);
                assert forall|p: u32, s: u32| #[trigger] start(p, s) == next(p, s) by {
                    lemma_depends_step(all, k as int, p, s);
                }
                lemma_holds_same(sorter, start, next);
            }
        }
    }
    assert(all.take(all.len() as int) =~= all);
    sorter
}

/// The ids that global declarations refer to or define, in rounds; `None` where
/// some refer to each other in a circle.
pub fn order_globals(globals: &Vec<SpvInst>) -> (r: Option<Vec<u32>>)
    ensures
        involved(model::views(globals@)).finite(),
        r is Some <==> exhausted(model::views(globals@), involved(model::views(globals@))),
        r is Some ==> (r->0)@ == rounds(
            model::views(globals@),
            involved(model::views(globals@)),
        ),
{
    let ghost all = model::views(globals@);
    let ghost whole = involved(all);
    let mut sorter = link_globals(globals);
    proof {
        let links = |p: u32, s: u32| depends(all, p, s);
        assert forall|x: u32| bridge::items_of(sorter).contains(x) <==> whole.contains(x) by {
            if exists|y: u32| joined(links, x, y) {
                let y = choose|y: u32| joined(links, x, y);
                assert(adjacent(all, x, y));
            }
            if exists|y: u32| adjacent(all, x, y) {
                let y = choose|y: u32| adjacent(all, x, y);
                assert(joined(links, x, y));
            }
        }
        assert(bridge::items_of(sorter) =~= whole);
        assert forall|p: u32, s: u32| #[trigger]
            bridge::links_of(sorter).contains((p, s)) implies whole.contains(p) by {
            assert(adjacent(all, p, s));
        }
    }
    let mut order: Vec<u32> = Vec::new();
    assert(order@ + rounds(all, whole) =~= rounds(all, whole));
    while !bridge::is_sorter_empty(&sorter)
        invariant
            bridge::items_of(sorter).finite(),
            forall|p: u32, s: u32| #[trigger]
                bridge::links_of(sorter).contains((p, s)) <==> bridge::items_of(sorter).contains(p)
                    && depends(all, p, s),
            order@ + rounds(all, bridge::items_of(sorter)) == rounds(all, whole),
            exhausted(all, bridge::items_of(sorter)) == exhausted(all, whole),
            all == model::views(globals@),
            whole == involved(all),
            whole.finite(),
        decreases bridge::items_of(sorter).len(),
    {
        let ghost left = bridge::items_of(sorter);
        let ghost links = bridge::links_of(sorter);
        let ghost first = ready(all, left);
        let mut v = bridge::pop_all(&mut sorter);
        proof {
            assert forall|x: u32| #[trigger] v@.contains(x) <==> first.contains(x) by {
                if first.contains(x) {
                    assert forall|p: u32| !links.contains((p, x)) by {
                        if links.contains((p, x)) {
                            assert(left.contains(p));
                        }
                    }
                }
                if v@.contains(x) {
                    assert forall|p: u32| #[trigger] left.contains(p) implies !depends(
                        all,
                        p,
                        x,
                    ) by {
                        assert(!links.contains((p, x)));
                    }
                }
            }
            assert(bridge::items_of(sorter) =~= left.difference(first));
            lemma_round(all, left);
        }
        if v.len() == 0 {
            proof {
                assert(first =~= Set::<u32>::empty()) by {
                    assert forall|x: u32| !first.contains(x) by {
                        assert(!v@.contains(x));
                    }
                }
            }
            return None;
        }
        assert(v@.contains(v@[0]));
        assert(first.contains(v@[0]));
        let ghost popped = v@;
        bridge::sort_ids(&mut v);
        proof {
            broadcast use vstd::seq_lib::group_to_multiset_ensures;

            popped.lemma_multiset_has_no_duplicates();
            v@.lemma_multiset_has_no_duplicates_conv();
            assert forall|x: u32| #[trigger] v@.contains(x) <==> first.contains(x) by {
                assert(v@.to_multiset().contains(x) <==> popped.to_multiset().contains(x));
                assert(popped.contains(x) <==> first.contains(x));
            }
            vstd::set_lib::lemma_len_subset(first, left);
            lemma_ascending(v@, first);
        }
        let ghost before = order@;
        order.append(&mut v);
        assert(order@ + rounds(all, left.difference(first)) =~= before + rounds(all, left));
    }
    proof {
        assert(ready(all, Set::<u32>::empty()) =~= Set::<u32>::empty());
        assert(order@ + rounds(all, Set::<u32>::empty()) =~= order@);
    }
    Some(order)
}

/// The declarations without an id.
pub open spec fn untied(globals: Seq<InstView>) -> Seq<InstView> {
    globals.filter(|i: InstView| i.result_id is None)
}

/// The declarations without an id, which cannot be ordered, and then the
/// definitions of the ids that take part in dependencies, in rounds.
pub open spec fn arranged(m: ModuleView) -> Seq<InstView> {
    let globals = m.types_global_values;
    untied(globals) + rounds(globals, involved(globals)).map_values(
        |x: u32| defs::definitions(m)[x],
    )
}

/// Whether the declarations can be arranged: none refer to each other in a circle,
/// and the ids that take part in dependencies are defined.
pub open spec fn arrangeable(m: ModuleView) -> bool {
    let globals = m.types_global_values;
    &&& exhausted(globals, involved(globals))
    &&& forall|x: u32| #[trigger]
        involved(globals).contains(x) ==> defs::definitions(m).contains_key(x)
}

/// The module with its declarations arranged. Where that would lose or add some,
/// they stay as they are.
pub open spec fn with_sorted_globals(m: ModuleView) -> ModuleView {
    if arranged(m).len() == m.types_global_values.len() {
        ModuleView { types_global_values: arranged(m), ..m }
    } else {
        m
    }
}

pub proof fn lemma_rounds_within(globals: Seq<InstView>, left: Set<u32>)
    requires
        left.finite(),
    ensures
        forall|x: u32| #[trigger] rounds(globals, left).contains(x) ==> left.contains(x),
        exhausted(globals, left) ==> forall|x: u32| #[trigger]
            left.contains(x) ==> rounds(globals, left).contains(x),
        rounds(globals, left).no_duplicates(),
    decreases left.len(),
{
    let first = ready(globals, left);
    let rest = left.difference(first);
    lemma_round(globals, left);
    if first != Set::<u32>::empty() {
        lemma_rounds_within(globals, rest);
        vstd::set_lib::lemma_len_subset(first, left);
        lemma_ascending_elements(first);
        let head = ascending(first);
        let tail = rounds(globals, rest);
        assert(rounds(globals, left) == head + tail);
        assert forall|x: u32| #[trigger] rounds(globals, left).contains(x) implies left.contains(
            x,
        ) by {
            let i = choose|i: int| 0 <= i < (head + tail).len() && (head + tail)[i] == x;
            if i < head.len() {
                assert(head.contains(head[i]));
            } else {
                assert(tail.contains(tail[i - head.len()]));
            }
        }
        if exhausted(globals, left) {
            assert forall|x: u32| #[trigger] left.contains(x) implies rounds(
                globals,
                left,
            ).contains(x) by {
                if first.contains(x) {
                    assert(head.contains(x));
                    let i = choose|i: int| 0 <= i < head.len() && head[i] == x;
                    assert((head + tail)[i] == x);
                } else {
                    assert(rest.contains(x));
                    assert(tail.contains(x));
                    let i = choose|i: int| 0 <= i < tail.len() && tail[i] == x;
                    assert((head + tail)[head.len() + i] == x);
                }
            }
        }
        assert forall|i: int, j: int|
            0 <= i < j < (head + tail).len() implies (head + tail)[i] != (head + tail)[j] by {
            if i < head.len() && j >= head.len() {
                assert(head.contains(head[i]));
                assert(tail.contains(tail[j - head.len()]));
                assert(!rest.contains(head[i]));
            }
        }
    }
}

proof fn lemma_ascending_elements(s: Set<u32>)
    requires
        s.finite(),
    ensures
        ascending(s).no_duplicates(),
        forall|x: u32| #[trigger] ascending(s).contains(x) <==> s.contains(x),
{
    broadcast use vstd::seq_lib::group_to_multiset_ensures;

    let leq = |x: u32, y: u32| x <= y;
    let t = s.to_seq();
    lemma_to_seq(s);
    t.lemma_sort_by_ensures(leq);
    t.lemma_multiset_has_no_duplicates();
    ascending(s).lemma_multiset_has_no_duplicates_conv();
    assert forall|x: u32| #[trigger] ascending(s).contains(x) <==> s.contains(x) by {
        assert(ascending(s).to_multiset().contains(x) <==> t.to_multiset().contains(x));
        assert(t.contains(x) <==> s.contains(x));
    }
}

/// The declarations of a module in the order of their dependencies, if they can be
/// arranged.
pub fn arrange_globals(module: &SpvModule) -> (r: Option<Vec<SpvInst>>)
    ensures
        r is Some <==> arrangeable(module@),
        r is Some ==> model::views((r->0)@) == arranged(module@),
{
    let ghost all = module@.types_global_values;
    let ghost loose = |i: InstView| i.result_id is None;
    let globals = &module.types_global_values;
    let order = match order_globals(globals) {
        Some(order) => order,
        None => {
            return None;
        },
    };
    let mut out: Vec<SpvInst> = Vec::new();
    assert(model::views(out@) =~= all.take(0).filter(loose)) by {
        reveal(Seq::filter);
    }
    for k in 0..globals.len()
        invariant
            all == model::views(globals@),
            loose == (|i: InstView| i.result_id is None),
            model::views(out@) == all.take(k as int).filter(loose),
    {
        broadcast use model::lemma_views_push;

        reveal(Seq::filter);
        assert(all.take(k + 1).drop_last() =~= all.take(k as int));
        assert(all.take(k + 1).last() == globals@[k as int]@);
        if globals[k].result_id.is_none() {
            out.push(globals[k].duplicate());
        }
    }
    assert(all.take(all.len() as int) =~= all);
    let defs = DefAnalyzer::new(module);
    let ghost find = |x: u32| defs@[x];
    proof {
        lemma_rounds_within(all, involved(all));
    }
    assert(untied(all) + order@.take(0).map_values(find) =~= untied(all));
    for k in 0..order.len()
        invariant
            defs@ == defs::definitions(module@),
            find == (|x: u32| defs@[x]),
            all == module@.types_global_values,
            order@ == rounds(all, involved(all)),
            forall|x: u32| #[trigger] order@.contains(x) ==> involved(all).contains(x),
            forall|j: int| 0 <= j < k ==> defs@.contains_key(#[trigger] order@[j]),
            model::views(out@) == untied(all) + order@.take(k as int).map_values(find),
    {
        broadcast use model::lemma_views_push;

        match defs.def(order[k]) {
            Some(inst) => {
                out.push(inst.duplicate());
                assert(model::views(out@) =~= untied(all) + order@.take(k + 1).map_values(find));
            },
            None => {
                assert(order@.contains(order@[k as int]));
                return None;
            },
        }
    }
    assert(order@.take(order@.len() as int) =~= order@);
    Some(out)
}

/// Arranges the declarations of a module so that each id is defined before the
/// declarations that refer to it. They stay as they are where that would lose or
/// add some: an id that takes part in no dependency is not among those arranged.
/// The result then is the number of declarations, and of those arranged.
pub fn sort_globals(module: &mut SpvModule) -> (r: Option<(usize, usize)>)
    requires
        arrangeable(old(module)@),
    ensures
        final(module)@ == with_sorted_globals(old(module)@),
        r is None <==> arranged(old(module)@).len() == old(module)@.types_global_values.len(),
        r matches Some((given, kept)) ==> given == old(module)@.types_global_values.len() && kept
            == arranged(old(module)@).len(),
{
    let sorted = arrange_globals(module).unwrap();
    if module.types_global_values.len() == sorted.len() {
        module.types_global_values = sorted;
        None
    } else {
        Some((module.types_global_values.len(), sorted.len()))
    }
}

/// Finitely many ids take part in dependencies.
pub proof fn lemma_involved_finite(globals: Seq<InstView>)
    ensures
        involved(globals).finite(),
{
    let ids = rename::id_list(globals);
    assert forall|x: u32| #[trigger] involved(globals).contains(x) implies ids.to_set().contains(
        x,
    ) by {
        let y = choose|y: u32| adjacent(globals, x, y);
        rename::lemma_id_list(globals, x);
        let (p, s) = if depends(globals, x, y) {
            (x, y)
        } else {
            (y, x)
        };
        let k = choose|k: int|
            0 <= k < globals.len() && (#[trigger] globals[k]).result_id == Some(s)
                && globals[k].uses(p);
        assert(globals[k].mentions(x));
    }
    vstd::seq_lib::seq_to_set_is_finite(ids);
    vstd::set_lib::lemma_len_subset(involved(globals), ids.to_set());
}

/// Whether `x` occurs before `y`.
pub open spec fn comes_before<A>(s: Seq<A>, x: A, y: A) -> bool {
    exists|i: int, j: int| 0 <= i < j < s.len() && #[trigger] s[i] == x && #[trigger] s[j] == y
}

proof fn lemma_rounds_in_order(globals: Seq<InstView>, left: Set<u32>, p: u32, s: u32)
    requires
        left.finite(),
        exhausted(globals, left),
        left.contains(p),
        left.contains(s),
        depends(globals, p, s),
    ensures
        comes_before(rounds(globals, left), p, s),
    decreases left.len(),
{
    let first = ready(globals, left);
    let rest = left.difference(first);
    lemma_round(globals, left);
    assert(left != Set::<u32>::empty());
    assert(!first.contains(s));
    vstd::set_lib::lemma_len_subset(first, left);
    lemma_ascending_elements(first);
    lemma_rounds_within(globals, rest);
    let head = ascending(first);
    let tail = rounds(globals, rest);
    let all = rounds(globals, left);
    assert(all == head + tail);
    if first.contains(p) {
        assert(head.contains(p));
        assert(rest.contains(s));
        assert(tail.contains(s));
        let i = choose|i: int| 0 <= i < head.len() && head[i] == p;
        let j = choose|j: int| 0 <= j < tail.len() && tail[j] == s;
        assert(all[i] == p && all[head.len() + j] == s);
    } else {
        assert(rest.contains(p) && rest.contains(s));
        lemma_rounds_in_order(globals, rest, p, s);
        let (i, j) = choose|i: int, j: int|
            0 <= i < j < tail.len() && #[trigger] tail[i] == p && #[trigger] tail[j] == s;
        assert(all[head.len() + i] == p && all[head.len() + j] == s);
    }
}

/// Where declarations are arranged, the definition of each id comes before the
/// definitions of the ids whose declarations refer to it.
pub proof fn law_arranged_in_order(m: ModuleView, prec: u32, succ: u32)
    requires
        arrangeable(m),
        depends(m.types_global_values, prec, succ),
    ensures
        comes_before(
            arranged(m),
            defs::definitions(m)[prec],
            defs::definitions(m)[succ],
        ),
{
    let globals = m.types_global_values;
    let left = involved(globals);
    lemma_involved_finite(globals);
    assert(adjacent(globals, prec, succ) && adjacent(globals, succ, prec));
    lemma_rounds_in_order(globals, left, prec, succ);
    let order = rounds(globals, left);
    let (i, j) = choose|i: int, j: int|
        0 <= i < j < order.len() && #[trigger] order[i] == prec && #[trigger] order[j] == succ;
    let n = untied(globals).len();
    assert(arranged(m)[n + i] == defs::definitions(m)[prec]);
    assert(arranged(m)[n + j] == defs::definitions(m)[succ]);
}

/// Whether the ids that take part in dependencies are exactly those declared.
pub open spec fn self_contained(globals: Seq<InstView>) -> bool {
    forall|x: u32| #[trigger]
        involved(globals).contains(x) <==> exists|k: int|
            0 <= k < globals.len() && (#[trigger] globals[k]).result_id == Some(x)
}

/// The declarations with an id.
spec fn tied(globals: Seq<InstView>) -> Seq<InstView> {
    globals.filter(|i: InstView| i.result_id is Some)
}

proof fn lemma_contains_push<A>(s: Seq<A>, x: A, y: A)
    ensures
        s.push(x).contains(y) <==> s.contains(y) || x == y,
{
    if s.contains(y) {
        let k = choose|k: int| 0 <= k < s.len() && s[k] == y;
        assert(s.push(x)[k] == y);
    }
    if x == y {
        assert(s.push(x)[s.len() as int] == y);
    }
}

proof fn lemma_tied(globals: Seq<InstView>)
    requires
        merging::defined_once(globals),
    ensures
        globals.len() == untied(globals).len() + tied(globals).len(),
        forall|i: InstView| #[trigger]
            tied(globals).contains(i) <==> globals.contains(i) && i.result_id is Some,
        forall|i: InstView| #[trigger]
            untied(globals).contains(i) <==> globals.contains(i) && i.result_id is None,
        tied(globals).map_values(|i: InstView| i.result_id->0).no_duplicates(),
    decreases globals.len(),
{
    reveal(Seq::filter);
    let key = |i: InstView| i.result_id->0;
    if globals.len() > 0 {
        let rest = globals.drop_last();
        let last = globals.last();
        assert(merging::defined_once(rest)) by {
            assert forall|i: int, j: int|
                #![trigger rest[i], rest[j]]
                0 <= i < j < rest.len() && rest[i].result_id is Some implies rest[i].result_id
                != rest[j].result_id by {
                assert(globals[i] == rest[i] && globals[j] == rest[j]);
            }
        }
        lemma_tied(rest);
        assert(globals =~= rest.push(last));
        let a = tied(rest);
        let b = untied(rest);
        assert forall|i: InstView| #[trigger] tied(globals).contains(i) <==> globals.contains(i)
            && i.result_id is Some by {
            assert(a.contains(i) <==> rest.contains(i) && i.result_id is Some);
            lemma_contains_push(rest, last, i);
            lemma_contains_push(a, last, i);
        }
        assert forall|i: InstView| #[trigger] untied(globals).contains(i) <==> globals.contains(i)
            && i.result_id is None by {
            assert(b.contains(i) <==> rest.contains(i) && i.result_id is None);
            lemma_contains_push(rest, last, i);
            lemma_contains_push(b, last, i);
        }
        if last.result_id is Some {
            assert(tied(globals) == a.push(last));
            assert(a.push(last).map_values(key) =~= a.map_values(key).push(key(last)));
            if a.map_values(key).contains(key(last)) {
                let k = choose|k: int| 0 <= k < a.len() && a.map_values(key)[k] == key(last);
                assert(a.contains(a[k]));
                let j = choose|j: int| 0 <= j < rest.len() && rest[j] == a[k];
                assert(globals[j].result_id != globals[globals.len() - 1].result_id);
            }
        }
    }
}

/// Whether the ids that take part in dependencies are all declared.
pub open spec fn refers_within(globals: Seq<InstView>) -> bool {
    forall|x: u32| #[trigger]
        involved(globals).contains(x) ==> exists|k: int|
            0 <= k < globals.len() && (#[trigger] globals[k]).result_id == Some(x)
}

/// The ids of the declarations with an id.
spec fn tied_ids(globals: Seq<InstView>) -> Seq<u32> {
    tied(globals).map_values(|i: InstView| i.result_id->0)
}

proof fn lemma_tied_ids(globals: Seq<InstView>, x: u32)
    requires
        merging::defined_once(globals),
    ensures
        tied_ids(globals).contains(x) <==> exists|k: int|
            0 <= k < globals.len() && (#[trigger] globals[k]).result_id == Some(x),
{
    let a = tied(globals);
    let ids = tied_ids(globals);
    lemma_tied(globals);
    if ids.contains(x) {
        let k = choose|k: int| 0 <= k < ids.len() && ids[k] == x;
        assert(a.contains(a[k]));
        let j = choose|j: int| 0 <= j < globals.len() && globals[j] == a[k];
        assert(globals[j].result_id == Some(x));
    }
    if exists|k: int| 0 <= k < globals.len() && (#[trigger] globals[k]).result_id == Some(x) {
        let j = choose|j: int| 0 <= j < globals.len() && (#[trigger] globals[j]).result_id == Some(x);
        assert(globals.contains(globals[j]));
        assert(a.contains(globals[j]));
        let k = choose|k: int| 0 <= k < a.len() && a[k] == globals[j];
        assert(ids[k] == x);
    }
}

/// Where arranging neither loses nor adds a declaration, all ids that are declared
/// take part in dependencies.
proof fn lemma_self_contained(m: ModuleView)
    requires
        arrangeable(m),
        merging::defined_once(m.all_insts()),
        refers_within(m.types_global_values),
        arranged(m).len() == m.types_global_values.len(),
    ensures
        self_contained(m.types_global_values),
{
    let globals = m.types_global_values;
    let left = involved(globals);
    let order = rounds(globals, left);
    let ids = tied_ids(globals);
    lemma_involved_finite(globals);
    lemma_rounds_within(globals, left);
    merging::lemma_globals_defined(m);
    lemma_tied(globals);
    order.unique_seq_to_set();
    ids.unique_seq_to_set();
    assert(order.to_set() =~= left);
    vstd::seq_lib::seq_to_set_is_finite(ids);
    assert(left.subset_of(ids.to_set())) by {
        assert forall|x: u32| left.contains(x) implies ids.to_set().contains(x) by {
            lemma_tied_ids(globals, x);
        }
    }
    assert(left.len() == ids.to_set().len());
    vstd::set_lib::lemma_subset_equality(left, ids.to_set());
    assert forall|x: u32| #[trigger] left.contains(x) <==> exists|k: int|
        0 <= k < globals.len() && (#[trigger] globals[k]).result_id == Some(x) by {
        lemma_tied_ids(globals, x);
        assert(left.contains(x) <==> ids.to_set().contains(x));
    }
}

proof fn lemma_rounds_same(a: Seq<InstView>, b: Seq<InstView>, left: Set<u32>)
    requires
        left.finite(),
        forall|p: u32, s: u32| depends(a, p, s) == #[trigger] depends(b, p, s),
    ensures
        rounds(a, left) == rounds(b, left),
        exhausted(a, left) == exhausted(b, left),
    decreases left.len(),
{
    let first = ready(a, left);
    assert forall|x: u32| first.contains(x) <==> ready(b, left).contains(x) by {
        if ready(b, left).contains(x) {
            assert forall|p: u32| #[trigger] left.contains(p) implies !depends(a, p, x) by {
                assert(!depends(b, p, x));
            }
        }
    }
    assert(first =~= ready(b, left));
    lemma_round(a, left);
    if first != Set::<u32>::empty() {
        lemma_rounds_same(a, b, left.difference(first));
    }
}

proof fn lemma_depends_same(a: Seq<InstView>, b: Seq<InstView>, p: u32, s: u32)
    requires
        forall|i: InstView| #[trigger] a.contains(i) ==> b.contains(i),
        depends(a, p, s),
    ensures
        depends(b, p, s),
{
    let k = choose|k: int|
        0 <= k < a.len() && (#[trigger] a[k]).result_id == Some(s) && a[k].uses(p);
    assert(a.contains(a[k]));
    let j = choose|j: int| 0 <= j < b.len() && b[j] == a[k];
    assert(b[j].result_id == Some(s));
}

/// The definition of a declared id does not depend on the order of the declarations.
proof fn lemma_definition_stays(m: ModuleView, other: Seq<InstView>, x: u32)
    requires
        merging::defined_once(m.all_insts()),
        other.len() == m.types_global_values.len(),
        forall|i: InstView| #[trigger] other.contains(i) <==> m.types_global_values.contains(i),
        exists|k: int|
            0 <= k < m.types_global_values.len() && (
            #[trigger] m.types_global_values[k]).result_id == Some(x),
    ensures
        ({
            let n = ModuleView { types_global_values: other, ..m };
            &&& defs::definitions(n).contains_key(x)
            &&& defs::definitions(n)[x] == defs::definitions(m)[x]
        }),
{
    let globals = m.types_global_values;
    let n = ModuleView { types_global_values: other, ..m };
    let all = m.all_insts();
    let new = n.all_insts();
    let head = merging::headed(m).all_insts().len();
    let k = choose|k: int| 0 <= k < globals.len() && (#[trigger] globals[k]).result_id == Some(x);
    merging::lemma_globals_defined(m);
    merging::lemma_split(m);
    merging::lemma_split(n);
    assert(merging::headed(n) =~= merging::headed(m));
    assert(all[head + k] == globals[k]);
    assert(globals.contains(globals[k]));
    assert(other.contains(globals[k]));
    let j = choose|j: int| 0 <= j < other.len() && other[j] == globals[k];
    assert(new[head + j] == globals[k]);
    assert(defs::has_def(new, x));
    defs::lemma_last_def(new, x);
    let d = defs::last_def(new, x);
    if head <= d < head + globals.len() {
        assert(new[d] == other[d - head]);
        assert(other.contains(new[d]));
        let i = choose|i: int| 0 <= i < globals.len() && globals[i] == new[d];
        if i != k {
            let (a, b) = if i < k {
                (i, k)
            } else {
                (k, i)
            };
            assert(globals[a].result_id != globals[b].result_id);
        }
    } else {
        assert(all[d] == new[d]);
        if d < head + k {
            assert(all[d].result_id != all[head + k].result_id);
        } else {
            assert(all[head + k].result_id != all[d].result_id);
        }
    }
}

/// Arranging the declarations of a module twice changes nothing more, where no id is
/// defined twice and the declarations refer to each other alone.
pub proof fn law_sorted_twice(m: ModuleView)
    requires
        arrangeable(m),
        merging::defined_once(m.all_insts()),
        refers_within(m.types_global_values),
    ensures
        arrangeable(with_sorted_globals(m)),
        with_sorted_globals(with_sorted_globals(m)) == with_sorted_globals(m),
{
    let globals = m.types_global_values;
    let left = involved(globals);
    let out = arranged(m);
    let n = with_sorted_globals(m);
    if out.len() == globals.len() {
        lemma_self_contained(m);
        law_arranged_is_complete(m);
        lemma_involved_finite(globals);
        lemma_rounds_within(globals, left);
        assert forall|p: u32, s: u32| depends(globals, p, s) == #[trigger] depends(out, p, s) by {
            if depends(globals, p, s) {
                lemma_depends_same(globals, out, p, s);
            }
            if depends(out, p, s) {
                lemma_depends_same(out, globals, p, s);
            }
        }
        assert(involved(out) =~= left) by {
            assert forall|x: u32| involved(out).contains(x) <==> left.contains(x) by {
                if involved(out).contains(x) {
                    let y = choose|y: u32| adjacent(out, x, y);
                    assert(adjacent(globals, x, y));
                }
                if left.contains(x) {
                    let y = choose|y: u32| adjacent(globals, x, y);
                    assert(adjacent(out, x, y));
                }
            }
        }
        lemma_rounds_same(globals, out, left);
        let order = rounds(globals, left);
        assert forall|x: u32| #[trigger] left.contains(x) implies defs::definitions(
            n,
        ).contains_key(x) && defs::definitions(n)[x] == defs::definitions(m)[x] by {
            lemma_definition_stays(m, out, x);
        }
        let found = order.map_values(|x: u32| defs::definitions(m)[x]);
        let again = order.map_values(|x: u32| defs::definitions(n)[x]);
        assert forall|k: int| 0 <= k < order.len() implies again[k] == found[k] by {
            assert(order.contains(order[k]));
            assert(left.contains(order[k]));
        }
        assert(again =~= found);
        let loose = |i: InstView| i.result_id is None;
        let first = untied(globals);
        assert(out == first + found);
        Seq::filter_distributes_over_add(first, found, loose);
        assert(first.filter(loose) == first) by {
            assert forall|k: int| 0 <= k < first.len() implies loose(#[trigger] first[k]) by {
                globals.lemma_filter_pred(loose, k);
            }
            model::lemma_filter_whole(first, loose);
        }
        assert(found.filter(loose) =~= Seq::empty()) by {
            let none = found.filter(loose);
            if none.len() > 0 {
                found.lemma_filter_pred(loose, 0);
                assert(none.contains(none[0]));
                found.lemma_filter_contains_rev(loose, none[0]);
                let k = choose|k: int| 0 <= k < found.len() && found[k] == none[0];
                assert(order.contains(order[k]));
                assert(left.contains(order[k]));
                defs::lemma_last_def(m.all_insts(), order[k]);
            }
        }
        assert(untied(out) =~= first);
        assert(arranged(n) =~= out);
    }
}

/// Where no id is defined twice and the ids that take part in dependencies are those
/// declared, arranging loses and adds no declaration, so that the arranged order is
/// the one that is used.
pub proof fn law_arranged_is_complete(m: ModuleView)
    requires
        arrangeable(m),
        merging::defined_once(m.all_insts()),
        self_contained(m.types_global_values),
    ensures
        with_sorted_globals(m).types_global_values == arranged(m),
        forall|i: InstView| #[trigger]
            arranged(m).contains(i) <==> m.types_global_values.contains(i),
{
    let globals = m.types_global_values;
    let left = involved(globals);
    let order = rounds(globals, left);
    let find = |x: u32| defs::definitions(m)[x];
    let key = |i: InstView| i.result_id->0;
    lemma_involved_finite(globals);
    lemma_rounds_within(globals, left);
    merging::lemma_globals_defined(m);
    lemma_tied(globals);
    let a = tied(globals);
    let ids = a.map_values(key);
    assert forall|x: u32| #[trigger] ids.contains(x) <==> left.contains(x) by {
        if ids.contains(x) {
            let k = choose|k: int| 0 <= k < ids.len() && ids[k] == x;
            assert(a.contains(a[k]));
            let j = choose|j: int| 0 <= j < globals.len() && globals[j] == a[k];
            assert(globals[j].result_id == Some(x));
        }
        if left.contains(x) {
            let j = choose|j: int| 0 <= j < globals.len() && (#[trigger] globals[j]).result_id == Some(x);
            assert(globals.contains(globals[j]));
            assert(a.contains(globals[j]));
            let k = choose|k: int| 0 <= k < a.len() && a[k] == globals[j];
            assert(ids[k] == x);
        }
    }
    ids.unique_seq_to_set();
    order.unique_seq_to_set();
    assert(ids.to_set() =~= left);
    assert(order.to_set() =~= left);
    assert(arranged(m).len() == globals.len());
    let b = untied(globals);
    let out = arranged(m);
    assert forall|i: InstView| #[trigger] out.contains(i) <==> globals.contains(i) by {
        if out.contains(i) {
            let k = choose|k: int| 0 <= k < out.len() && out[k] == i;
            if k < b.len() {
                assert(b.contains(b[k]));
            } else {
                let x = order[k - b.len()];
                assert(order.contains(x));
                assert(left.contains(x));
                let j = choose|j: int|
                    0 <= j < globals.len() && (#[trigger] globals[j]).result_id == Some(x);
                assert(globals[j] == i);
            }
        }
        if globals.contains(i) {
            let j = choose|j: int| 0 <= j < globals.len() && globals[j] == i;
            if i.result_id is Some {
                let x = i.result_id->0;
                assert(globals[j].result_id == Some(x));
                assert(left.contains(x));
                assert(order.contains(x));
                let k = choose|k: int| 0 <= k < order.len() && order[k] == x;
                assert(out[b.len() + k] == find(x));
            } else {
                assert(b.contains(i));
                let k = choose|k: int| 0 <= k < b.len() && b[k] == i;
                assert(out[k] == i);
            }
        }
    }
}

/// Where no id is defined twice and the declarations refer to each other alone, arranging
/// them leaves the same declarations, and changes nothing else.
pub proof fn law_sorted_keeps(m: ModuleView)
    requires
        arrangeable(m),
        merging::defined_once(m.all_insts()),
        refers_within(m.types_global_values),
    ensures
        ({
            let r = with_sorted_globals(m);
            &&& r == (ModuleView { types_global_values: r.types_global_values, ..m })
            &&& r.types_global_values.len() == m.types_global_values.len()
            &&& forall|i: InstView| #[trigger]
                r.types_global_values.contains(i) <==> m.types_global_values.contains(i)
        }),
{
    if arranged(m).len() == m.types_global_values.len() {
        lemma_self_contained(m);
        law_arranged_is_complete(m);
    }
}

/// Where no id is defined twice and the ids that take part in dependencies are those
/// declared, a declaration comes after those that it refers to.
pub proof fn law_sorted_in_order(m: ModuleView, x: int, y: int, id: u32)
    requires
        arrangeable(m),
        merging::defined_once(m.all_insts()),
        self_contained(m.types_global_values),
        0 <= x < m.types_global_values.len(),
        0 <= y < m.types_global_values.len(),
        with_sorted_globals(m).types_global_values[x].result_id is Some,
        with_sorted_globals(m).types_global_values[x].uses(id),
        with_sorted_globals(m).types_global_values[y].result_id == Some(id),
    ensures
        y < x,
{
    let globals = m.types_global_values;
    let left = involved(globals);
    let order = rounds(globals, left);
    let out = arranged(m);
    let n = untied(globals).len();
    law_arranged_is_complete(m);
    lemma_involved_finite(globals);
    lemma_rounds_within(globals, left);
    let s = out[x].result_id->0;
    assert(out.contains(out[x]));
    let k = choose|k: int| 0 <= k < globals.len() && globals[k] == out[x];
    assert(globals[k].result_id == Some(s) && globals[k].uses(id));
    assert(depends(globals, id, s));
    assert(adjacent(globals, id, s) && adjacent(globals, s, id));
    assert(left.contains(id) && left.contains(s));
    lemma_rounds_in_order(globals, left, id, s);
    let (i, j) = choose|i: int, j: int|
        0 <= i < j < order.len() && #[trigger] order[i] == id && #[trigger] order[j] == s;
    lemma_place_of(m, x, s);
    lemma_place_of(m, y, id);
    assert(order[x - n] == s && order[y - n] == id);
}

/// A declaration with an id stands where the order has the id.
proof fn lemma_place_of(m: ModuleView, x: int, id: u32)
    requires
        arrangeable(m),
        0 <= x < arranged(m).len(),
        arranged(m)[x].result_id == Some(id),
    ensures
        ({
            let globals = m.types_global_values;
            let n = untied(globals).len();
            let order = rounds(globals, involved(globals));
            n <= x && x - n < order.len() && order[x - n] == id
        }),
{
    let globals = m.types_global_values;
    let left = involved(globals);
    let n = untied(globals).len();
    let order = rounds(globals, left);
    lemma_involved_finite(globals);
    lemma_rounds_within(globals, left);
    if x < n {
        globals.lemma_filter_pred(|i: InstView| i.result_id is None, x);
    } else {
        let w = order[x - n];
        assert(order.contains(w));
        assert(left.contains(w));
        defs::lemma_last_def(m.all_insts(), w);
    }
}

/// Whether an id can be handed out within `n` rounds after the first: it refers to no id
/// among `left`, or only to ids that can be handed out in an earlier round.
pub open spec fn is_settled(globals: Seq<InstView>, left: Set<u32>, x: u32, n: nat) -> bool
    decreases n,
{
    forall|p: u32|
        #![trigger depends(globals, p, x)]
        left.contains(p) && depends(globals, p, x) ==> n > 0 && is_settled(
            globals,
            left,
            p,
            (n - 1) as nat,
        )
}

/// Once the ids of the first round are handed out, the others are settled a round earlier.
pub proof fn lemma_settled_later(globals: Seq<InstView>, left: Set<u32>, x: u32, n: nat)
    ensures
        is_settled(globals, left, x, n + 1) <==> is_settled(
            globals,
            left.difference(ready(globals, left)),
            x,
            n,
        ),
    decreases n,
{
    let first = ready(globals, left);
    let rest = left.difference(first);
    assert forall|p: u32| left.contains(p) implies (#[trigger] first.contains(p) <==> is_settled(
        globals,
        left,
        p,
        0,
    )) by {
        if is_settled(globals, left, p, 0) {
            assert forall|q: u32| #[trigger] left.contains(q) implies !depends(globals, q, p) by {}
        }
    }
    if n > 0 {
        assert forall|p: u32| #[trigger] first.contains(p) implies is_settled(globals, left, p, n) by {
            assert forall|q: u32|
                #![trigger depends(globals, q, p)]
                left.contains(q) && depends(globals, q, p) implies n > 0 && is_settled(
                globals,
                left,
                q,
                (n - 1) as nat,
            ) by {
                assert(left.contains(q));
            }
        }
        assert forall|p: u32| #[trigger] is_settled(globals, left, p, n) <==> is_settled(
            globals,
            rest,
            p,
            (n - 1) as nat,
        ) by {
            lemma_settled_later(globals, left, p, (n - 1) as nat);
        }
    }
    if is_settled(globals, left, x, n + 1) {
        assert forall|p: u32|
            #![trigger depends(globals, p, x)]
            rest.contains(p) && depends(globals, p, x) implies n > 0 && is_settled(
            globals,
            rest,
            p,
            (n - 1) as nat,
        ) by {
            assert(left.contains(p) && !first.contains(p));
            assert(is_settled(globals, left, p, n));
        }
    }
    if is_settled(globals, rest, x, n) {
        assert forall|p: u32|
            #![trigger depends(globals, p, x)]
            left.contains(p) && depends(globals, p, x) implies is_settled(globals, left, p, n) by {
            if !first.contains(p) {
                assert(rest.contains(p));
                assert(is_settled(globals, rest, p, (n - 1) as nat));
            }
        }
    }
}

/// Whether `x` is to be handed out before `y`: in an earlier round, or in the same one
/// under a lower number.
pub open spec fn goes_first(globals: Seq<InstView>, left: Set<u32>, x: u32, y: u32) -> bool {
    ||| exists|n: nat| #[trigger]
        is_settled(globals, left, x, n) && !is_settled(globals, left, y, n)
    ||| x < y && forall|n: nat|
        #![trigger is_settled(globals, left, x, n)]
        is_settled(globals, left, x, n) <==> is_settled(globals, left, y, n)
}

/// Ids are handed out in the order of the rounds in which they are settled, and in each
/// round in ascending order.
pub proof fn law_rounds(globals: Seq<InstView>, left: Set<u32>, x: u32, y: u32)
    requires
        left.finite(),
        exhausted(globals, left),
        left.contains(x),
        left.contains(y),
        goes_first(globals, left, x, y),
    ensures
        comes_before(rounds(globals, left), x, y),
    decreases left.len(),
{
    let first = ready(globals, left);
    let rest = left.difference(first);
    lemma_round(globals, left);
    assert(left != Set::<u32>::empty());
    vstd::set_lib::lemma_len_subset(first, left);
    lemma_ascending_elements(first);
    lemma_rounds_within(globals, rest);
    let head = ascending(first);
    let tail = rounds(globals, rest);
    let all = rounds(globals, left);
    assert(all == head + tail);
    assert forall|p: u32| left.contains(p) implies (#[trigger] first.contains(p) <==> is_settled(
        globals,
        left,
        p,
        0,
    )) by {
        if is_settled(globals, left, p, 0) {
            assert forall|q: u32| #[trigger] left.contains(q) implies !depends(globals, q, p) by {}
        }
    }
    assert forall|p: u32, n: nat| #[trigger] first.contains(p) implies #[trigger] is_settled(
        globals,
        left,
        p,
        n,
    ) by {
        assert forall|q: u32|
            #![trigger depends(globals, q, p)]
            left.contains(q) && depends(globals, q, p) implies n > 0 && is_settled(
            globals,
            left,
            q,
            (n - 1) as nat,
        ) by {
            assert(left.contains(q));
        }
    }
    if first.contains(x) {
        assert(head.contains(x));
        let i = choose|i: int| 0 <= i < head.len() && head[i] == x;
        if first.contains(y) {
            assert(x < y);
            assert(head.contains(y));
            let j = choose|j: int| 0 <= j < head.len() && head[j] == y;
            lemma_ascending_sorted(first);
            if j <= i {
                assert(head[j] <= head[i]);
            }
            assert(all[i] == x && all[j] == y);
        } else {
            assert(rest.contains(y));
            assert(tail.contains(y));
            let j = choose|j: int| 0 <= j < tail.len() && tail[j] == y;
            assert(all[i] == x && all[head.len() + j] == y);
        }
    } else {
        assert(!is_settled(globals, left, x, 0));
        assert(!first.contains(y)) by {
            if first.contains(y) {
                assert(is_settled(globals, left, y, 0));
            }
        }
        assert(rest.contains(x) && rest.contains(y));
        if exists|n: nat| #[trigger]
            is_settled(globals, left, x, n) && !is_settled(globals, left, y, n) {
            let n = choose|n: nat| #[trigger]
                is_settled(globals, left, x, n) && !is_settled(globals, left, y, n);
            let k = (n - 1) as nat;
            lemma_settled_later(globals, left, x, k);
            lemma_settled_later(globals, left, y, k);
            assert(is_settled(globals, rest, x, k) && !is_settled(globals, rest, y, k));
        } else {
            assert forall|n: nat|
                #![trigger is_settled(globals, rest, x, n)]
                is_settled(globals, rest, x, n) <==> is_settled(globals, rest, y, n) by {
                lemma_settled_later(globals, left, x, n);
                lemma_settled_later(globals, left, y, n);
                assert(is_settled(globals, left, x, n + 1) <==> is_settled(
                    globals,
                    left,
                    y,
                    n + 1,
                ));
            }
        }
        law_rounds(globals, rest, x, y);
        let (i, j) = choose|i: int, j: int|
            0 <= i < j < tail.len() && #[trigger] tail[i] == x && #[trigger] tail[j] == y;
        assert(all[head.len() + i] == x && all[head.len() + j] == y);
    }
}

proof fn lemma_ascending_sorted(s: Set<u32>)
    requires
        s.finite(),
    ensures
        forall|i: int, j: int|
            0 <= i <= j < ascending(s).len() ==> ascending(s)[i] <= ascending(s)[j],
{
    let leq = |x: u32, y: u32| x <= y;
    let t = s.to_seq();
    t.lemma_sort_by_ensures(leq);
    let v = ascending(s);
    assert forall|i: int, j: int| 0 <= i <= j < v.len() implies v[i] <= v[j] by {
        if i < j {
            assert(leq(v[i], v[j]));
        }
    }
}

/// Where declarations are arranged, those without an id come first, in the order in which
/// they stood.
pub proof fn law_untied_come_first(m: ModuleView)
    requires
        arrangeable(m),
        merging::defined_once(m.all_insts()),
        self_contained(m.types_global_values),
    ensures
        ({
            let out = with_sorted_globals(m).types_global_values;
            let n = untied(m.types_global_values).len();
            &&& n <= out.len()
            &&& forall|k: int|
                0 <= k < out.len() ==> ((#[trigger] out[k]).result_id is None <==> k < n)
            &&& dedup::is_subsequence(out.take(n as int), m.types_global_values)
            &&& forall|i: InstView|
                i.result_id is None ==> (#[trigger] out.take(n as int).contains(i)
                    <==> m.types_global_values.contains(i))
        }),
{
    let globals = m.types_global_values;
    let left = involved(globals);
    let order = rounds(globals, left);
    let first = untied(globals);
    let n = first.len();
    let out = arranged(m);
    let loose = |i: InstView| i.result_id is None;
    law_arranged_is_complete(m);
    lemma_involved_finite(globals);
    lemma_rounds_within(globals, left);
    let places = merging::lemma_filter_places(globals, loose);
    assert forall|k: int| 0 <= k < out.len() implies ((#[trigger] out[k]).result_id is None <==> k
        < n) by {
        if k < n {
            assert(loose(first[k]));
        } else {
            let x = order[k - n];
            assert(order.contains(x));
            assert(left.contains(x));
            defs::lemma_last_def(m.all_insts(), x);
        }
    }
    assert(out.take(n as int) =~= first);
    assert(dedup::stand_at(first, globals, places));
    assert forall|i: InstView| i.result_id is None implies (#[trigger] out.take(n as int).contains(i)
        <==> globals.contains(i)) by {
        if globals.contains(i) {
            let k = choose|k: int| 0 <= k < globals.len() && globals[k] == i;
            assert(loose(globals[k]));
            let j = choose|j: int| 0 <= j < places.len() && places[j] == k;
            assert(first[j] == i);
        }
        if first.contains(i) {
            let j = choose|j: int| 0 <= j < first.len() && first[j] == i;
            assert(globals[places[j]] == i);
        }
    }
}

} // verus!
