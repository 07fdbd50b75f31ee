//! What merging repeated declarations leaves of a module.

use vstd::prelude::*;

use crate::bridge;
use crate::bridge::LoaderView;
use crate::convert;
use crate::dedup;
use crate::defs;
use crate::joining;
use crate::model;
use crate::model::{InstView, ModuleView, OperandView};
use crate::opcode;
use crate::rename;
use crate::sections;
use crate::sweep;
use crate::types;

verus! {

/// Whether no id is defined twice.
pub open spec fn defined_once(insts: Seq<InstView>) -> bool {
    forall|i: int, j: int|
        #![trigger insts[i], insts[j]]
        0 <= i < j < insts.len() && insts[i].result_id is Some ==> insts[i].result_id
            != insts[j].result_id
}

/// An instruction after a sequence of merges, each of them a dropped id and the id
/// that is kept for it. Only merges whose dropped id the instruction used at the
/// start concern it.
pub open spec fn after_merges(i: InstView, merges: Seq<(u32, u32)>) -> InstView
    decreases merges.len(),
{
    if merges.len() == 0 {
        i
    } else {
        let before = after_merges(i, merges.drop_last());
        if i.uses(merges.last().0) {
            rename::replaced(before, merges.last().0, merges.last().1)
        } else {
            before
        }
    }
}

/// Merges leave the opcode, the id and the number of operands of an instruction.
pub proof fn lemma_after_merges(i: InstView, merges: Seq<(u32, u32)>)
    ensures
        after_merges(i, merges).opcode == i.opcode,
        after_merges(i, merges).result_id == i.result_id,
        after_merges(i, merges).operands.len() == i.operands.len(),
    decreases merges.len(),
{
    if merges.len() > 0 {
        lemma_after_merges(i, merges.drop_last());
    }
}

/// The dropped ids of merges.
pub open spec fn dropped_ids(merges: Seq<(u32, u32)>) -> Seq<u32> {
    merges.map_values(|p: (u32, u32)| p.0)
}

/// Whether the declaration of a dropped id has been blanked out.
spec fn is_blank(start: InstView, cur: InstView, merges: Seq<(u32, u32)>) -> bool {
    &&& cur == types::nop_inst()
    &&& start.opcode != opcode::NOP
    &&& start.result_id is Some
    &&& dropped_ids(merges).contains(start.result_id->0)
}

/// Whether `cur` is what the merges have made of `start`.
spec fn is_after(
    start: Seq<InstView>,
    cur: Seq<InstView>,
    slots: Seq<int>,
    merges: Seq<(u32, u32)>,
) -> bool {
    &&& cur.len() == start.len()
    &&& forall|p: int|
        #![trigger cur[p]]
        0 <= p < cur.len() ==> cur[p] == after_merges(start[p], merges) || slots.contains(p)
            && is_blank(start[p], cur[p], merges)
    &&& forall|k: int|
        #![trigger merges[k]]
        0 <= k < merges.len() ==> exists|p: int|
            0 <= p < start.len() && (#[trigger] start[p]).result_id == Some(merges[k].0) && is_blank(
                start[p],
                cur[p],
                merges,
            )
}

proof fn lemma_merge_step(
    start: Seq<InstView>,
    cur: Seq<InstView>,
    slots: Seq<int>,
    merges: Seq<(u32, u32)>,
    b: int,
    a: int,
)
    requires
        is_after(start, cur, slots, merges),
        types::slots_have_ids(cur, slots),
        0 <= b < cur.len(),
        cur[b].opcode != opcode::NOP,
        slots.contains(b),
    ensures
        is_after(
            start,
            types::merged(start, cur, b, a),
            slots,
            merges.push((cur[b].result_id->0, cur[a].result_id->0)),
        ),
        types::slots_have_ids(types::merged(start, cur, b, a), slots),
{
    let before = cur[b].result_id->0;
    let after = cur[a].result_id->0;
    let more = merges.push((before, after));
    let next = types::merged(start, cur, b, a);
    assert(more.drop_last() =~= merges);
    assert(dropped_ids(more) =~= dropped_ids(merges).push(before));
    lemma_after_merges(start[b], merges);
    let at = choose|at: int| 0 <= at < slots.len() && slots[at] == b;
    assert(slots[at] == b);
    assert(cur[b] == after_merges(start[b], merges));
    assert(dropped_ids(more).contains(before)) by {
        assert(dropped_ids(more)[merges.len() as int] == before);
    }
    assert forall|id: u32| dropped_ids(merges).contains(id) implies dropped_ids(more).contains(
        id,
    ) by {
        let k = choose|k: int| 0 <= k < merges.len() && dropped_ids(merges)[k] == id;
        assert(dropped_ids(more)[k] == id);
    }
    assert forall|p: int|
        #![trigger next[p]]
        0 <= p < next.len() implies next[p] == after_merges(start[p], more) || slots.contains(p)
        && is_blank(start[p], next[p], more) by {
        if p != b && cur[p] != after_merges(start[p], merges) {
            let r = rename::replaced(cur[p], before, after);
            assert(r.operands =~= cur[p].operands);
            assert(r == cur[p]);
        }
    }
    assert forall|k: int|
        #![trigger more[k]]
        0 <= k < more.len() implies exists|p: int|
        0 <= p < start.len() && (#[trigger] start[p]).result_id == Some(more[k].0) && is_blank(
            start[p],
            next[p],
            more,
        ) by {
        if k < merges.len() {
            assert(merges[k] == more[k]);
            let p = choose|p: int|
                0 <= p < start.len() && (#[trigger] start[p]).result_id == Some(merges[k].0)
                    && is_blank(start[p], cur[p], merges);
            let r = rename::replaced(cur[p], before, after);
            assert(r.operands =~= cur[p].operands);
            assert(is_blank(start[p], next[p], more));
        } else {
            assert(is_blank(start[b], next[b], more));
        }
    }
    assert forall|j: int| 0 <= j < slots.len() implies {
        let k = #[trigger] slots[j];
        0 <= k < next.len() && (next[k].opcode != opcode::NOP ==> next[k].result_id is Some)
    } by {
        let k = slots[j];
        assert(cur[k].opcode != opcode::NOP ==> cur[k].result_id is Some);
    }
}

/// The merges that are made until no duplicate is left, after those already made.
pub open spec fn merge_list(
    start: Seq<InstView>,
    cur: Seq<InstView>,
    slots: Seq<int>,
    merges: Seq<(u32, u32)>,
) -> Seq<(u32, u32)>
    decreases types::live(cur),
{
    proof {
        types::lemma_duplicate(cur, slots);
        if types::first_duplicate(cur, slots) is Some {
            let d = types::first_duplicate(cur, slots)->0;
            types::lemma_merged_live(start, cur, d.0, d.1);
        }
    }
    match types::first_duplicate(cur, slots) {
        Some((b, a)) => merge_list(
            start,
            types::merged(start, cur, b, a),
            slots,
            merges.push((cur[b].result_id->0, cur[a].result_id->0)),
        ),
        None => merges,
    }
}

/// The merges among the declarations of a module but for those with the ids `apart`:
/// each a dropped id and the id that is kept for it.
pub open spec fn merges_of(m: ModuleView, apart: Seq<u32>) -> Seq<(u32, u32)> {
    let all = m.all_insts();
    merge_list(all, all, types::slots(all, m.types_global_values, apart), Seq::empty())
}

proof fn lemma_merge_all(
    start: Seq<InstView>,
    cur: Seq<InstView>,
    slots: Seq<int>,
    merges: Seq<(u32, u32)>,
)
    requires
        is_after(start, cur, slots, merges),
        types::slots_have_ids(cur, slots),
    ensures
        ({
            let r = types::merge_duplicates(start, cur, slots, dropped_ids(merges));
            let all = merge_list(start, cur, slots, merges);
            &&& is_after(start, r.0, slots, all)
            &&& r.1 == dropped_ids(all)
            &&& types::first_duplicate(r.0, slots) is None
        }),
    decreases types::live(cur),
{
    types::lemma_duplicate(cur, slots);
    if types::first_duplicate(cur, slots) is Some {
        let (b, a) = types::first_duplicate(cur, slots)->0;
        let more = merges.push((cur[b].result_id->0, cur[a].result_id->0));
        types::lemma_merged_live(start, cur, b, a);
        lemma_merge_step(start, cur, slots, merges, b, a);
        assert(dropped_ids(more) =~= dropped_ids(merges).push(cur[b].result_id->0));
        lemma_merge_all(start, types::merged(start, cur, b, a), slots, more);
    }
}

/// Where there is no duplicate, no two slots have the same key.
proof fn lemma_no_duplicate(cur: Seq<InstView>, slots: Seq<int>, i: int, j: int)
    requires
        types::first_duplicate(cur, slots) is None,
        0 <= i < j < slots.len(),
        types::slot_key(cur, slots[i]) is Some,
    ensures
        types::slot_key(cur, slots[i]) != types::slot_key(cur, slots[j]),
    decreases slots.len(),
{
    let rest = slots.drop_last();
    let key = |k: int| types::slot_key(cur, k);
    assert(rest[i] == slots[i]);
    if j < rest.len() {
        assert(rest[j] == slots[j]);
        lemma_no_duplicate(cur, rest, i, j);
    } else if key(slots[i]) == key(slots[j]) {
        assert(dedup::has_key(rest, key, key(slots[i])->0));
    }
}

/// The module without its declarations and functions.
pub open spec fn headed(m: ModuleView) -> ModuleView {
    ModuleView { types_global_values: Seq::empty(), functions: Seq::empty(), ..m }
}

/// The declarations and the functions of a module come after all other instructions.
pub proof fn lemma_split(m: ModuleView)
    ensures
        m.all_insts() == headed(m).all_insts() + m.types_global_values + model::function_insts(
            m.functions,
        ),
{
    assert(model::function_insts(headed(m).functions) =~= Seq::empty());
    assert(m.all_insts() =~= headed(m).all_insts() + m.types_global_values
        + model::function_insts(m.functions));
}

/// Where the declarations of a module are defined, if no id is defined twice.
proof fn lemma_slots(m: ModuleView, apart: Seq<u32>, n: int)
    requires
        defined_once(m.all_insts()),
        0 <= n <= m.types_global_values.len(),
    ensures
        ({
            let slots = types::slots(m.all_insts(), m.types_global_values.take(n), apart);
            let head = headed(m).all_insts().len();
            &&& forall|j: int|
                0 <= j < slots.len() ==> {
                    &&& head <= #[trigger] slots[j] < head + m.types_global_values.len()
                    &&& m.types_global_values[slots[j] - head].result_id is Some
                    &&& !apart.contains(m.types_global_values[slots[j] - head].result_id->0)
                }
            &&& forall|q: int|
                0 <= q < n && (#[trigger] m.types_global_values[q]).result_id is Some
                    && !apart.contains(m.types_global_values[q].result_id->0) ==> slots.contains(
                    head + q,
                )
            &&& forall|i: int, j: int| 0 <= i < j < slots.len() ==> slots[i] < slots[j]
            &&& slots.len() > 0 ==> slots.last() < head + n
        }),
    decreases n,
{
    let all = m.all_insts();
    let globals = m.types_global_values;
    let head = headed(m).all_insts().len();
    lemma_split(m);
    let slots = types::slots(all, globals.take(n), apart);
    if n > 0 {
        lemma_slots(m, apart, n - 1);
        assert(globals.take(n).drop_last() =~= globals.take(n - 1));
        let rest = types::slots(all, globals.take(n - 1), apart);
        let i = globals[n - 1];
        if i.result_id is Some && !apart.contains(i.result_id->0) {
            let id = i.result_id->0;
            let p = head + n - 1;
            assert(all[p] == i);
            assert(defs::has_def(all, id));
            defs::lemma_last_def(all, id);
            let d = defs::last_def(all, id);
            if d < p {
                assert(all[d].result_id != all[p].result_id);
            }
            if p < d {
                assert(all[p].result_id != all[d].result_id);
            }
            assert(slots =~= rest.push(p));
            assert(slots[rest.len() as int] == p);
        }
        assert forall|q: int|
            0 <= q < n && (#[trigger] globals[q]).result_id is Some && !apart.contains(
                globals[q].result_id->0,
            ) implies slots.contains(head + q) by {
            if q < n - 1 {
                assert(rest.contains(head + q));
                let j = choose|j: int| 0 <= j < rest.len() && rest[j] == head + q;
                assert(slots[j] == head + q);
            }
        }
    }
}

/// Where no id is defined twice, the definition of a declared id is its declaration.
pub proof fn lemma_globals_defined(m: ModuleView)
    requires
        defined_once(m.all_insts()),
    ensures
        defined_once(m.types_global_values),
        forall|q: int|
            0 <= q < m.types_global_values.len() && (
            #[trigger] m.types_global_values[q]).result_id is Some ==> defs::definitions(
                m,
            ).contains_key(m.types_global_values[q].result_id->0) && defs::definitions(
                m,
            )[m.types_global_values[q].result_id->0] == m.types_global_values[q],
{
    let all = m.all_insts();
    let globals = m.types_global_values;
    let head = headed(m).all_insts().len();
    lemma_split(m);
    assert forall|i: int, j: int|
        #![trigger globals[i], globals[j]]
        0 <= i < j < globals.len() && globals[i].result_id is Some implies globals[i].result_id
        != globals[j].result_id by {
        assert(all[head + i] == globals[i] && all[head + j] == globals[j]);
    }
    assert forall|q: int| 0 <= q < globals.len() && (#[trigger] globals[q]).result_id is Some implies
        defs::definitions(m).contains_key(globals[q].result_id->0) && defs::definitions(
        m,
    )[globals[q].result_id->0] == globals[q] by {
        let id = globals[q].result_id->0;
        let p = head + q;
        assert(all[p] == globals[q]);
        assert(defs::has_def(all, id));
        defs::lemma_last_def(all, id);
        let d = defs::last_def(all, id);
        if d < p {
            assert(all[d].result_id != all[p].result_id);
        }
        if p < d {
            assert(all[p].result_id != all[d].result_id);
        }
    }
}

/// Whether a declaration is one of those dropped.
pub open spec fn is_dropped(i: InstView, dropped: Seq<u32>) -> bool {
    i.result_id matches Some(id) && dropped.contains(id)
}

/// The declarations that are kept.
pub open spec fn kept(globals: Seq<InstView>, dropped: Seq<u32>) -> Seq<InstView> {
    globals.filter(|i: InstView| !is_dropped(i, dropped))
}

/// A loader leaves out the declarations that have been blanked out.
proof fn lemma_feed_blanked(s: LoaderView, globals: Seq<InstView>, mid: Seq<InstView>, merges: Seq<
    (u32, u32),
>)
    requires
        sections::is_idle(s),
        mid.len() == globals.len(),
        model::each(globals, |i: InstView| sections::is_global(i.opcode)),
        forall|q: int|
            #![trigger mid[q]]
            0 <= q < mid.len() ==> mid[q] == if is_dropped(globals[q], dropped_ids(merges)) {
                types::nop_inst()
            } else {
                after_merges(globals[q], merges)
            },
    ensures
        sections::fed(s, mid) == (LoaderView {
            module: ModuleView {
                types_global_values: s.module.types_global_values + kept(
                    globals,
                    dropped_ids(merges),
                ).map_values(|i: InstView| after_merges(i, merges)),
                ..s.module
            },
            ..s
        }),
    decreases mid.len(),
{
    let f = |i: InstView| after_merges(i, merges);
    let dropped = dropped_ids(merges);
    let before = s.module.types_global_values;
    reveal(Seq::filter);
    if mid.len() == 0 {
        assert(before + kept(globals, dropped).map_values(f) =~= before);
    } else {
        let a = globals.drop_last();
        let b = mid.drop_last();
        assert(sections::is_global(globals[globals.len() - 1].opcode));
        assert forall|q: int| 0 <= q < a.len() implies sections::is_global(
            (#[trigger] a[q]).opcode,
        ) by {
            assert(a[q] == globals[q]);
        }
        assert forall|q: int|
            #![trigger b[q]]
            0 <= q < b.len() implies b[q] == if is_dropped(a[q], dropped) {
            types::nop_inst()
        } else {
            f(a[q])
        } by {
            assert(b[q] == mid[q] && a[q] == globals[q]);
        }
        lemma_feed_blanked(s, a, b, merges);
        let i = globals.last();
        let last = mid.last();
        assert(mid[mid.len() - 1] == last);
        lemma_after_merges(i, merges);
        let left = before + kept(a, dropped).map_values(f);
        if !is_dropped(i, dropped) {
            assert(kept(globals, dropped) == kept(a, dropped).push(i));
            assert(left.push(last) =~= before + kept(globals, dropped).map_values(f));
        }
    }
}

/// Whether a module declares `id`.
pub open spec fn declares(m: ModuleView, id: u32) -> bool {
    exists|q: int|
        0 <= q < m.types_global_values.len() && (#[trigger] m.types_global_values[q]).result_id
            == Some(id)
}

/// Whether a declaration has an id that is not kept apart.
pub open spec fn can_merge(i: InstView, apart: Seq<u32>) -> bool {
    i.result_id matches Some(id) && !apart.contains(id)
}

/// Whether no two declarations with ids that are not kept apart say the same.
pub open spec fn distinct_keys(globals: Seq<InstView>, apart: Seq<u32>) -> bool {
    forall|i: int, j: int|
        #![trigger globals[i], globals[j]]
        0 <= i < j < globals.len() && can_merge(globals[i], apart) && can_merge(globals[j], apart)
            ==> types::declaration_key(globals[i]) != types::declaration_key(globals[j])
}

/// A module after merges: without its header and the dropped declarations, and with
/// the kept ids in place of the dropped ones.
pub open spec fn merged_module(m: ModuleView, merges: Seq<(u32, u32)>) -> ModuleView {
    let f = |i: InstView| after_merges(i, merges);
    ModuleView {
        header: None,
        types_global_values: kept(m.types_global_values, dropped_ids(merges)).map_values(f),
        ..m.map_insts(f)
    }
}

proof fn lemma_loaded_merged(m: ModuleView, insts: Seq<InstView>, merges: Seq<(u32, u32)>)
    requires
        sections::well_placed(m),
        insts.len() == m.all_insts().len(),
        ({
            let head = headed(m).all_insts().len();
            let globals = m.types_global_values;
            forall|p: int|
                #![trigger insts[p]]
                0 <= p < insts.len() ==> insts[p] == if head <= p < head + globals.len()
                    && is_dropped(globals[p - head], dropped_ids(merges)) {
                    types::nop_inst()
                } else {
                    after_merges(m.all_insts()[p], merges)
                }
        }),
    ensures
        convert::loaded(insts) == merged_module(m, merges),
{
    let f = |i: InstView| after_merges(i, merges);
    let all = m.all_insts();
    let globals = m.types_global_values;
    let n = m.map_insts(f);
    let h = headed(n);
    assert forall|i: InstView| #[trigger] f(i).opcode == i.opcode by {
        lemma_after_merges(i, merges);
    }
    sections::lemma_well_placed_map(m, f);
    model::lemma_map_insts(m, f);
    model::lemma_map_insts(headed(m), f);
    assert(headed(m).map_insts(f) =~= h);
    lemma_split(m);
    lemma_split(n);
    let head = headed(m).all_insts().len();
    let pre = h.all_insts();
    let post = model::function_insts(n.functions);
    let mid = Seq::new(globals.len(), |q: int| insts[head + q]);
    assert(n.all_insts().len() == all.len());
    assert forall|p: int| 0 <= p < insts.len() implies insts[p] == (pre + mid + post)[p] by {
        if p < head {
            assert(pre[p] == f(headed(m).all_insts()[p]));
            assert(all[p] == headed(m).all_insts()[p]);
        } else if p >= head + globals.len() {
            assert(n.all_insts()[p] == f(all[p]));
            assert(post[p - head - globals.len()] == n.all_insts()[p]);
        }
    }
    assert(insts =~= pre + mid + post);
    assert forall|q: int|
        #![trigger mid[q]]
        0 <= q < mid.len() implies mid[q] == if is_dropped(globals[q], dropped_ids(merges)) {
        types::nop_inst()
    } else {
        after_merges(globals[q], merges)
    } by {
        assert(all[head + q] == globals[q]);
        assert(insts[head + q] == mid[q]);
    }
    let s = bridge::empty_loader();
    sections::lemma_fed_from_empty(insts);
    sections::lemma_fed_add(s, pre + mid, post);
    sections::lemma_fed_add(s, pre, mid);
    sections::lemma_feed_module(s, h);
    let s1 = sections::fed(s, pre);
    lemma_feed_blanked(s1, globals, mid, merges);
    let s2 = sections::fed(s1, mid);
    sections::lemma_feed_functions(s2, n.functions);
    assert(sections::fed(s2, post).module =~= merged_module(m, merges));
}

pub proof fn lemma_filter_places<A>(s: Seq<A>, p: spec_fn(A) -> bool) -> (places: Seq<int>)
    ensures
        dedup::stand_at(s.filter(p), s, places),
        forall|i: int| 0 <= i < s.filter(p).len() ==> p(#[trigger] s.filter(p)[i]),
        forall|j: int| 0 <= j < s.len() && p(#[trigger] s[j]) ==> places.contains(j),
    decreases s.len(),
{
    reveal(Seq::filter);
    if s.len() == 0 {
        Seq::empty()
    } else {
        let rest = s.drop_last();
        let n = s.len() - 1;
        let before = lemma_filter_places(rest, p);
        let places = if p(s.last()) {
            before.push(n)
        } else {
            before
        };
        assert forall|j: int| 0 <= j < s.len() && p(#[trigger] s[j]) implies places.contains(j) by {
            if j < n {
                assert(rest[j] == s[j]);
                let k = choose|k: int| 0 <= k < before.len() && before[k] == j;
                assert(places[k] == j);
            } else {
                assert(places[before.len() as int] == n);
            }
        }
        places
    }
}

proof fn lemma_distinct_keys(
    m: ModuleView,
    apart: Seq<u32>,
    insts: Seq<InstView>,
    merges: Seq<(u32, u32)>,
)
    requires
        sections::well_placed(m),
        defined_once(m.all_insts()),
        insts.len() == m.all_insts().len(),
        types::first_duplicate(
            insts,
            types::slots(m.all_insts(), m.types_global_values, apart),
        ) is None,
        ({
            let head = headed(m).all_insts().len();
            let globals = m.types_global_values;
            forall|q: int|
                #![trigger globals[q]]
                0 <= q < globals.len() && !is_dropped(globals[q], dropped_ids(merges)) ==> insts[head
                    + q] == after_merges(globals[q], merges)
        }),
    ensures
        distinct_keys(merged_module(m, merges).types_global_values, apart),
{
    let f = |i: InstView| after_merges(i, merges);
    let globals = m.types_global_values;
    let head = headed(m).all_insts().len();
    let slots = types::slots(m.all_insts(), globals, apart);
    let left = kept(globals, dropped_ids(merges));
    let out = left.map_values(f);
    lemma_slots(m, apart, globals.len() as int);
    assert(globals.take(globals.len() as int) =~= globals);
    lemma_split(m);
    let places = lemma_filter_places(
        globals,
        |i: InstView| !is_dropped(i, dropped_ids(merges)),
    );
    assert forall|i: int, j: int|
        #![trigger out[i], out[j]]
        0 <= i < j < out.len() && can_merge(out[i], apart) && can_merge(
            out[j],
            apart,
        ) implies types::declaration_key(out[i])
        != types::declaration_key(out[j]) by {
        let a = places[i];
        let b = places[j];
        lemma_after_merges(left[i], merges);
        lemma_after_merges(left[j], merges);
        assert(globals[a] == left[i] && globals[b] == left[j]);
        assert(sections::is_global(globals[a].opcode) && sections::is_global(globals[b].opcode));
        assert(slots.contains(head + a) && slots.contains(head + b));
        let x = choose|x: int| 0 <= x < slots.len() && slots[x] == head + a;
        let y = choose|y: int| 0 <= y < slots.len() && slots[y] == head + b;
        if y < x {
            assert(slots[y] < slots[x]);
        }
        assert(insts[head + a] == out[i] && insts[head + b] == out[j]);
        lemma_no_duplicate(insts, slots, x, y);
    }
}

/// Merging the declarations of a well-placed module in which no id is defined
/// twice removes the declarations of the dropped ids, puts the kept ids in place of
/// the dropped ones where these were used, and changes nothing else but for the
/// annotations about dropped ids. No two declarations that are left say the same,
/// and none that is kept apart is dropped.
#[verifier::spinoff_prover]
#[verifier::rlimit(40)]
pub proof fn law_with_distinct_types(m: ModuleView, apart: Seq<u32>)
    requires
        sections::well_placed(m),
        defined_once(m.all_insts()),
    ensures
        types::with_merged_types(m, apart) == sweep::without_all_annotations(
            merged_module(m, merges_of(m, apart)),
            dropped_ids(merges_of(m, apart)),
        ),
        forall|id: u32| #[trigger]
            dropped_ids(merges_of(m, apart)).contains(id) ==> declares(m, id) && !apart.contains(
                id,
            ),
        distinct_keys(types::with_merged_types(m, apart).types_global_values, apart),
{
    let all = m.all_insts();
    let globals = m.types_global_values;
    let slots = types::slots(all, globals, apart);
    let head = headed(m).all_insts().len();
    types::lemma_types_defined(m);
    types::lemma_slots_start(all, globals, apart);
    lemma_slots(m, apart, globals.len() as int);
    lemma_split(m);
    assert(globals.take(globals.len() as int) =~= globals);
    let none = Seq::<(u32, u32)>::empty();
    assert(dropped_ids(none) =~= Seq::<u32>::empty());
    assert(is_after(all, all, slots, none)) by {
        assert forall|p: int|
            #![trigger all[p]]
            0 <= p < all.len() implies all[p] == after_merges(all[p], none) by {}
    }
    lemma_merge_all(all, all, slots, none);
    let merges = merges_of(m, apart);
    let (insts, dropped) = types::merged_insts(m, apart);
    assert forall|id: u32| #[trigger] dropped_ids(merges).contains(id) implies exists|q: int|
        0 <= q < globals.len() && (#[trigger] globals[q]).result_id == Some(id) && insts[head + q]
            == types::nop_inst() && !apart.contains(id) by {
        let k = choose|k: int| 0 <= k < merges.len() && dropped_ids(merges)[k] == id;
        assert(merges[k].0 == id);
        let p = choose|p: int|
            0 <= p < all.len() && (#[trigger] all[p]).result_id == Some(merges[k].0) && is_blank(
                all[p],
                insts[p],
                merges,
            );
        lemma_after_merges(all[p], merges);
        assert(insts[p] != after_merges(all[p], merges));
        assert(slots.contains(p));
        let x = choose|x: int| 0 <= x < slots.len() && slots[x] == p;
        assert(head <= slots[x] < head + globals.len());
        assert(globals[p - head] == all[p]);
    }
    assert forall|p: int|
        #![trigger insts[p]]
        0 <= p < insts.len() implies insts[p] == if head <= p < head + globals.len() && is_dropped(
        globals[p - head],
        dropped_ids(merges),
    ) {
        types::nop_inst()
    } else {
        after_merges(all[p], merges)
    } by {
        if slots.contains(p) {
            let x = choose|x: int| 0 <= x < slots.len() && slots[x] == p;
            assert(head <= slots[x] < head + globals.len());
        }
        if head <= p < head + globals.len() {
            assert(all[p] == globals[p - head]);
            if is_dropped(globals[p - head], dropped_ids(merges)) {
                let id = all[p].result_id->0;
                let q = choose|q: int|
                    0 <= q < globals.len() && (#[trigger] globals[q]).result_id == Some(id)
                        && insts[head + q] == types::nop_inst() && !apart.contains(id);
                assert(all[head + q] == globals[q]);
                if head + q < p {
                    assert(all[head + q].result_id != all[p].result_id);
                }
                if p < head + q {
                    assert(all[p].result_id != all[head + q].result_id);
                }
            }
        }
    }
    lemma_loaded_merged(m, insts, merges);
    assert forall|q: int|
        #![trigger globals[q]]
        0 <= q < globals.len() && !is_dropped(globals[q], dropped_ids(merges)) implies insts[head
        + q] == after_merges(globals[q], merges) by {
        assert(all[head + q] == globals[q]);
    }
    lemma_distinct_keys(m, apart, insts, merges);
    sweep::lemma_without_all_annotations(merged_module(m, merges), dropped_ids(merges));
    assert forall|id: u32| #[trigger] dropped_ids(merges).contains(id) implies declares(m, id)
        && !apart.contains(id) by {
        let q = choose|q: int|
            0 <= q < globals.len() && (#[trigger] globals[q]).result_id == Some(id) && insts[head
                + q] == types::nop_inst() && !apart.contains(id);
    }
}

/// Where no two slots have the same key, there is no duplicate.
proof fn lemma_all_distinct(cur: Seq<InstView>, slots: Seq<int>)
    requires
        forall|i: int, j: int|
            #![trigger slots[i], slots[j]]
            0 <= i < j < slots.len() && types::slot_key(cur, slots[i]) is Some ==> types::slot_key(
                cur,
                slots[i],
            ) != types::slot_key(cur, slots[j]),
    ensures
        types::first_duplicate(cur, slots) is None,
    decreases slots.len(),
{
    if slots.len() > 0 {
        let rest = slots.drop_last();
        let key = |k: int| types::slot_key(cur, k);
        assert forall|i: int, j: int|
            #![trigger rest[i], rest[j]]
            0 <= i < j < rest.len() && types::slot_key(cur, rest[i]) is Some implies types::slot_key(
            cur,
            rest[i],
        ) != types::slot_key(cur, rest[j]) by {
            assert(rest[i] == slots[i] && rest[j] == slots[j]);
        }
        lemma_all_distinct(cur, rest);
        if key(slots.last()) is Some && dedup::has_key(rest, key, key(slots.last())->0) {
            let i = choose|i: int| 0 <= i < rest.len() && key(#[trigger] rest[i]) == key(slots.last());
            assert(slots[i] == rest[i]);
            assert(slots[slots.len() - 1] == slots.last());
        }
    }
}

/// What merging leaves is well placed, and no id is defined twice in it.
pub proof fn lemma_merged_types(m: ModuleView, apart: Seq<u32>)
    requires
        sections::well_placed(m),
        defined_once(m.all_insts()),
    ensures
        sections::well_placed(types::with_merged_types(m, apart)),
        defined_once(types::with_merged_types(m, apart).all_insts()),
        types::with_merged_types(m, apart).header is None,
{
    let merges = merges_of(m, apart);
    let dropped = dropped_ids(merges);
    let f = |i: InstView| after_merges(i, merges);
    let keep = |i: InstView| !is_dropped(i, dropped);
    let n = merged_module(m, merges);
    let whole = m.map_insts(f);
    let r = types::with_merged_types(m, apart);
    law_with_distinct_types(m, apart);
    assert forall|i: InstView| (#[trigger] f(i)).opcode == i.opcode && f(i).result_id
        == i.result_id by {
        lemma_after_merges(i, merges);
    }
    sections::lemma_well_placed_map(m, f);
    model::lemma_map_insts(m, f);
    let left = kept(m.types_global_values, dropped);
    assert forall|k: int| 0 <= k < n.types_global_values.len() implies sections::is_global(
        (#[trigger] n.types_global_values[k]).opcode,
    ) by {
        assert(left.contains(left[k]));
        m.types_global_values.lemma_filter_contains_rev(keep, left[k]);
        let j = choose|j: int|
            0 <= j < m.types_global_values.len() && m.types_global_values[j] == left[k];
        assert(sections::is_global(m.types_global_values[j].opcode));
    }
    assert(sections::well_placed(n));
    sections::lemma_well_placed_without(n, dropped);
    sweep::lemma_without_all_annotations(n, dropped);
    assert forall|id: u32| #[trigger] joining::definers(r.all_insts(), id) <= 1 by {
        joining::lemma_once_definers(m.all_insts(), id);
        joining::lemma_definers_map(m.all_insts(), f, id);
        joining::lemma_definers_in(whole, id);
        joining::lemma_definers_in(r, id);
        joining::lemma_definers_filter(m.types_global_values, keep, id);
        joining::lemma_definers_map(m.types_global_values, f, id);
        joining::lemma_definers_map(left, f, id);
        joining::lemma_definers_without(n, dropped, id);
    }
    joining::lemma_definers_once(r.all_insts());
}

/// Merging declarations twice changes nothing more.
pub proof fn law_merging_twice(m: ModuleView, apart: Seq<u32>)
    requires
        sections::well_placed(m),
        defined_once(m.all_insts()),
    ensures
        types::with_merged_types(types::with_merged_types(m, apart), apart)
            == types::with_merged_types(m, apart),
{
    let r = types::with_merged_types(m, apart);
    let all = r.all_insts();
    let globals = r.types_global_values;
    let slots = types::slots(all, globals, apart);
    let head = headed(r).all_insts().len();
    law_with_distinct_types(m, apart);
    lemma_merged_types(m, apart);
    lemma_slots(r, apart, globals.len() as int);
    assert(globals.take(globals.len() as int) =~= globals);
    lemma_split(r);
    assert forall|i: int, j: int|
        #![trigger slots[i], slots[j]]
        0 <= i < j < slots.len() && types::slot_key(all, slots[i]) is Some implies types::slot_key(
        all,
        slots[i],
    ) != types::slot_key(all, slots[j]) by {
        let a = slots[i] - head;
        let b = slots[j] - head;
        assert(slots[i] < slots[j]);
        assert(all[slots[i]] == globals[a] && all[slots[j]] == globals[b]);
        assert(can_merge(globals[a], apart) && can_merge(globals[b], apart));
    }
    lemma_all_distinct(all, slots);
    sections::law_reload(r);
}

/// Merging all declarations that say the same, and then once more, changes nothing
/// the second time.
pub proof fn law_distinct_types_twice(m: ModuleView)
    requires
        sections::well_placed(m),
        defined_once(m.all_insts()),
    ensures
        types::with_distinct_types(types::with_distinct_types(m)) == types::with_distinct_types(
            m,
        ),
{
    law_merging_twice(m, Seq::empty());
}

/// The place among the slots of the first duplicate: there is none before it, and
/// what it repeats comes before it.
proof fn lemma_duplicate_at(cur: Seq<InstView>, slots: Seq<int>) -> (r: (int, int))
    requires
        types::first_duplicate(cur, slots) is Some,
    ensures
        0 <= r.1 < r.0 < slots.len(),
        types::first_duplicate(cur, slots) == Some((slots[r.0], slots[r.1])),
        types::first_duplicate(cur, slots.take(r.0)) is None,
    decreases slots.len(),
{
    let rest = slots.drop_last();
    let key = |k: int| types::slot_key(cur, k);
    if types::first_duplicate(cur, rest) is Some {
        let r = lemma_duplicate_at(cur, rest);
        assert(rest.take(r.0) =~= slots.take(r.0));
        r
    } else {
        dedup::lemma_first_with(rest, key, key(slots.last())->0);
        let x = dedup::first_with(rest, key, key(slots.last())->0);
        assert(slots.take(slots.len() - 1) =~= rest);
        (slots.len() - 1, x)
    }
}

/// Whether no id that is kept for another is itself dropped.
pub open spec fn kept_stay(merges: Seq<(u32, u32)>) -> bool {
    forall|j: int, k: int|
        #![trigger merges[j], merges[k]]
        0 <= j < merges.len() && 0 <= k < merges.len() ==> merges[j].1 != merges[k].0
}

/// Whether the instruction at a slot before slot `y` defines `id`.
spec fn sits_before(start: Seq<InstView>, slots: Seq<int>, id: u32, y: int) -> bool {
    exists|x: int|
        0 <= x < y && x < slots.len() && start[#[trigger] slots[x]].result_id == Some(id)
}

/// Whether the instructions at the slots refer to earlier slots only.
spec fn refer_back(start: Seq<InstView>, slots: Seq<int>) -> bool {
    forall|x: int, y: int|
        #![trigger slots[x], slots[y]]
        0 <= x < slots.len() && 0 <= y < slots.len() && start[slots[y]].result_id is Some
            && start[slots[x]].uses(start[slots[y]].result_id->0) ==> y < x
}

/// Whether two declarations say the same: they have the same opcode, the same type and
/// the same operands, word for word.
pub open spec fn say_the_same(a: InstView, b: InstView) -> bool {
    &&& a.opcode == b.opcode
    &&& a.result_type == b.result_type
    &&& bridge::operands_words(a.operands) == bridge::operands_words(b.operands)
}

/// Declarations with the same key say the same.
proof fn lemma_same_key(a: InstView, b: InstView)
    requires
        types::declaration_key(a) == types::declaration_key(b),
    ensures
        say_the_same(a, b),
{
    let x = types::declaration_key(a);
    let y = types::declaration_key(b);
    assert(x[0] == a.opcode && y[0] == b.opcode);
    let wa = bridge::operands_words(a.operands);
    let wb = bridge::operands_words(b.operands);
    assert(x[1] == if a.result_type is Some {
        types::TYPED
    } else {
        types::UNTYPED
    });
    assert(y[1] == if b.result_type is Some {
        types::TYPED
    } else {
        types::UNTYPED
    });
    if a.result_type is Some {
        assert(x[2] == a.result_type->0 && y[2] == b.result_type->0);
        assert(x.skip(3) =~= wa);
        assert(y.skip(3) =~= wb);
    } else {
        assert(x.skip(2) =~= wa);
        assert(y.skip(2) =~= wb);
    }
}

/// Declarations that say the same have the same key.
pub proof fn lemma_key_of_same(a: InstView, b: InstView)
    requires
        say_the_same(a, b),
    ensures
        types::declaration_key(a) == types::declaration_key(b),
{
}

/// Whether merge `k` is of two declarations at slots before slot `y` that say the
/// same after all merges.
spec fn is_sound_merge(
    start: Seq<InstView>,
    slots: Seq<int>,
    merges: Seq<(u32, u32)>,
    k: int,
    y: int,
) -> bool {
    exists|p: int, q: int|
        {
            &&& 0 <= p < y
            &&& 0 <= q < y
            &&& p < slots.len()
            &&& q < slots.len()
            &&& start[#[trigger] slots[p]].result_id == Some(merges[k].0)
            &&& start[#[trigger] slots[q]].result_id == Some(merges[k].1)
            &&& say_the_same(
                after_merges(start[slots[p]], merges),
                after_merges(start[slots[q]], merges),
            )
        }
}

/// A merge that a declaration is not concerned by leaves it as it is.
proof fn lemma_sound_merge_stays(
    start: Seq<InstView>,
    slots: Seq<int>,
    merges: Seq<(u32, u32)>,
    more: (u32, u32),
    k: int,
    done: int,
    y: int,
)
    requires
        0 <= k < merges.len(),
        is_sound_merge(start, slots, merges, k, done),
        done <= y < slots.len(),
        refer_back(start, slots),
        start[slots[y]].result_id == Some(more.0),
    ensures
        is_sound_merge(start, slots, merges.push(more), k, y + 1),
{
    let (p, q) = choose|p: int, q: int|
        {
            &&& 0 <= p < done
            &&& 0 <= q < done
            &&& p < slots.len()
            &&& q < slots.len()
            &&& start[#[trigger] slots[p]].result_id == Some(merges[k].0)
            &&& start[#[trigger] slots[q]].result_id == Some(merges[k].1)
            &&& say_the_same(
                after_merges(start[slots[p]], merges),
                after_merges(start[slots[q]], merges),
            )
        };
    let list = merges.push(more);
    assert(list.drop_last() =~= merges);
    assert(!start[slots[p]].uses(start[slots[y]].result_id->0));
    assert(!start[slots[q]].uses(start[slots[y]].result_id->0));
    assert(after_merges(start[slots[p]], list) == after_merges(start[slots[p]], merges));
    assert(after_merges(start[slots[q]], list) == after_merges(start[slots[q]], merges));
    assert(list[k] == merges[k]);
}

#[verifier::spinoff_prover]
#[verifier::rlimit(60)]
proof fn lemma_kept_stay(
    start: Seq<InstView>,
    cur: Seq<InstView>,
    slots: Seq<int>,
    merges: Seq<(u32, u32)>,
    done: int,
)
    requires
        is_after(start, cur, slots, merges),
        types::slots_have_ids(cur, slots),
        defined_once(start),
        refer_back(start, slots),
        forall|i: int, j: int| 0 <= i < j < slots.len() ==> slots[i] < slots[j],
        0 <= done <= slots.len(),
        types::first_duplicate(cur, slots.take(done)) is None,
        kept_stay(merges),
        forall|k: int|
            #![trigger merges[k]]
            0 <= k < merges.len() ==> sits_before(start, slots, merges[k].1, done),
        forall|k: int|
            #![trigger merges[k]]
            0 <= k < merges.len() ==> is_sound_merge(start, slots, merges, k, done),
    ensures
        kept_stay(merge_list(start, cur, slots, merges)),
        forall|k: int|
            #![trigger merge_list(start, cur, slots, merges)[k]]
            0 <= k < merge_list(start, cur, slots, merges).len() ==> is_sound_merge(
                start,
                slots,
                merge_list(start, cur, slots, merges),
                k,
                slots.len() as int,
            ),
    decreases types::live(cur),
{
    types::lemma_duplicate(cur, slots);
    if types::first_duplicate(cur, slots) is Some {
        let (y, x) = lemma_duplicate_at(cur, slots);
        let b = slots[y];
        let a = slots[x];
        let before = cur[b].result_id->0;
        let after = cur[a].result_id->0;
        let more = merges.push((before, after));
        let next = types::merged(start, cur, b, a);
        assert(a < b);
        lemma_after_merges(start[a], merges);
        lemma_after_merges(start[b], merges);
        assert(cur[a] == after_merges(start[a], merges));
        assert(cur[b] == after_merges(start[b], merges));
        assert(start[a].result_id == Some(after) && start[b].result_id == Some(before));
        lemma_duplicate_before(cur, slots, done, x, y);
        types::lemma_merged_live(start, cur, b, a);
        lemma_merge_step(start, cur, slots, merges, b, a);
        assert forall|k: int|
            #![trigger more[k]]
            0 <= k < more.len() implies sits_before(start, slots, more[k].1, y + 1) by {
            if k < merges.len() {
                assert(merges[k] == more[k]);
                let z = choose|z: int|
                    0 <= z < done && z < slots.len() && start[#[trigger] slots[z]].result_id == Some(
                        merges[k].1,
                    );
                assert(start[slots[z]].result_id == Some(more[k].1));
            } else {
                assert(start[slots[x]].result_id == Some(after));
            }
        }
        assert forall|j: int, k: int|
            #![trigger more[j], more[k]]
            0 <= j < more.len() && 0 <= k < more.len() implies more[j].1 != more[k].0 by {
            if j < merges.len() {
                assert(merges[j] == more[j]);
                if k < merges.len() {
                    assert(merges[k] == more[k]);
                } else {
                    let z = choose|z: int|
                        0 <= z < done && z < slots.len() && start[#[trigger] slots[z]].result_id
                            == Some(merges[j].1);
                    assert(slots[z] < b);
                    assert(start[slots[z]].result_id != start[b].result_id);
                }
            } else if k < merges.len() {
                assert(merges[k] == more[k]);
                let p = choose|p: int|
                    0 <= p < start.len() && (#[trigger] start[p]).result_id == Some(merges[k].0)
                        && is_blank(start[p], cur[p], merges);
                assert(p != a);
                if p < a {
                    assert(start[p].result_id != start[a].result_id);
                } else {
                    assert(start[a].result_id != start[p].result_id);
                }
            } else {
                assert(start[a].result_id != start[b].result_id);
            }
        }
        let front = slots.take(y + 1);
        assert forall|i: int, j: int|
            #![trigger front[i], front[j]]
            0 <= i < j < front.len() && types::slot_key(next, front[i]) is Some implies
            types::slot_key(next, front[i]) != types::slot_key(next, front[j]) by {
            assert(front[i] == slots[i] && front[j] == slots[j]);
            if j < y {
                lemma_unchanged(start, cur, slots, b, a, y, i);
                lemma_unchanged(start, cur, slots, b, a, y, j);
                let shorter = slots.take(y);
                assert(shorter[i] == slots[i] && shorter[j] == slots[j]);
                lemma_no_duplicate(cur, shorter, i, j);
            } else {
                assert(types::slot_key(next, b) is None);
            }
        }
        lemma_all_distinct(next, front);
        assert forall|k: int|
            #![trigger more[k]]
            0 <= k < more.len() implies is_sound_merge(start, slots, more, k, y + 1) by {
            if k < merges.len() {
                assert(merges[k] == more[k]);
                lemma_sound_merge_stays(start, slots, merges, (before, after), k, done, y);
            } else {
                assert(more.drop_last() =~= merges);
                assert(!start[slots[x]].uses(start[slots[y]].result_id->0));
                assert(!start[slots[y]].uses(start[slots[y]].result_id->0));
                assert(after_merges(start[slots[x]], more) == cur[a]);
                assert(after_merges(start[slots[y]], more) == cur[b]);
                lemma_same_key(cur[b], cur[a]);
                assert(start[slots[y]].result_id == Some(more[k].0));
                assert(start[slots[x]].result_id == Some(more[k].1));
            }
        }
        lemma_kept_stay(start, next, slots, more, y + 1);
    } else {
        assert forall|k: int|
            #![trigger merges[k]]
            0 <= k < merges.len() implies is_sound_merge(
            start,
            slots,
            merges,
            k,
            slots.len() as int,
        ) by {
            let (p, q) = choose|p: int, q: int|
                {
                    &&& 0 <= p < done
                    &&& 0 <= q < done
                    &&& p < slots.len()
                    &&& q < slots.len()
                    &&& start[#[trigger] slots[p]].result_id == Some(merges[k].0)
                    &&& start[#[trigger] slots[q]].result_id == Some(merges[k].1)
                    &&& say_the_same(
                        after_merges(start[slots[p]], merges),
                        after_merges(start[slots[q]], merges),
                    )
                };
            assert(start[slots[p]].result_id == Some(merges[k].0));
            assert(start[slots[q]].result_id == Some(merges[k].1));
        }
    }
}

/// The first duplicate does not lie among slots without a duplicate.
proof fn lemma_duplicate_before(cur: Seq<InstView>, slots: Seq<int>, done: int, x: int, y: int)
    requires
        0 <= x < y < slots.len(),
        0 <= done <= slots.len(),
        types::first_duplicate(cur, slots.take(done)) is None,
        types::first_duplicate(cur, slots) == Some((slots[y], slots[x])),
    ensures
        done <= y,
{
    if y < done {
        let head = slots.take(done);
        types::lemma_duplicate(cur, slots);
        assert(head[x] == slots[x] && head[y] == slots[y]);
        lemma_no_duplicate(cur, head, x, y);
    }
}

/// A merge leaves the slots before the dropped one as they are.
proof fn lemma_unchanged(
    start: Seq<InstView>,
    cur: Seq<InstView>,
    slots: Seq<int>,
    b: int,
    a: int,
    y: int,
    i: int,
)
    requires
        refer_back(start, slots),
        0 <= i < y < slots.len(),
        slots[y] == b,
        slots[i] != b,
        0 <= b < cur.len(),
        start[b].result_id is Some,
        start[b].result_id == cur[b].result_id,
    ensures
        types::slot_key(types::merged(start, cur, b, a), slots[i]) == types::slot_key(
            cur,
            slots[i],
        ),
{
    assert(!start[slots[i]].uses(start[slots[y]].result_id->0));
}

proof fn lemma_merged_uses(i: InstView, merges: Seq<(u32, u32)>, id: u32)
    requires
        kept_stay(merges),
        after_merges(i, merges).uses(id),
    ensures
        (exists|j: int| 0 <= j < merges.len() && (#[trigger] merges[j]).1 == id) || i.uses(id)
            && !dropped_ids(merges).contains(id),
    decreases merges.len(),
{
    if merges.len() == 0 {
        assert(!dropped_ids(merges).contains(id));
    } else {
        let rest = merges.drop_last();
        let last = merges.last();
        let n = merges.len() - 1;
        let prev = after_merges(i, rest);
        assert(merges[n] == last);
        assert forall|j: int, k: int|
            #![trigger rest[j], rest[k]]
            0 <= j < rest.len() && 0 <= k < rest.len() implies rest[j].1 != rest[k].0 by {
            assert(rest[j] == merges[j] && rest[k] == merges[k]);
        }
        assert(dropped_ids(merges) =~= dropped_ids(rest).push(last.0));
        if i.uses(last.0) {
            rename::lemma_replaced_uses(prev, last.0, last.1, id);
            assert(merges[n].1 != merges[n].0);
        }
        if id != last.1 {
            assert(prev.uses(id));
            lemma_merged_uses(i, rest, id);
            if exists|j: int| 0 <= j < rest.len() && (#[trigger] rest[j]).1 == id {
                let j = choose|j: int| 0 <= j < rest.len() && (#[trigger] rest[j]).1 == id;
                assert(merges[j] == rest[j]);
            } else {
                assert(i.uses(id) && !dropped_ids(rest).contains(id));
                assert(id != last.0);
                if dropped_ids(merges).contains(id) {
                    let k = choose|k: int| 0 <= k < merges.len() && dropped_ids(merges)[k] == id;
                    assert(dropped_ids(rest)[k] == id);
                }
            }
        }
    }
}

/// Whether the declarations refer to earlier ones only.
pub open spec fn declared_in_order(globals: Seq<InstView>) -> bool {
    forall|x: int, y: int|
        #![trigger globals[x], globals[y]]
        0 <= x < globals.len() && 0 <= y < globals.len() && globals[y].result_id is Some
            && globals[x].uses(globals[y].result_id->0) ==> y < x
}

proof fn lemma_in_order(m: ModuleView, apart: Seq<u32>)
    requires
        defined_once(m.all_insts()),
        declared_in_order(m.types_global_values),
    ensures
        refer_back(m.all_insts(), types::slots(m.all_insts(), m.types_global_values, apart)),
{
    let all = m.all_insts();
    let globals = m.types_global_values;
    let slots = types::slots(all, globals, apart);
    let head = headed(m).all_insts().len();
    lemma_split(m);
    lemma_slots(m, apart, globals.len() as int);
    assert(globals.take(globals.len() as int) =~= globals);
    assert forall|x: int, y: int|
        #![trigger slots[x], slots[y]]
        0 <= x < slots.len() && 0 <= y < slots.len() && all[slots[y]].result_id is Some
            && all[slots[x]].uses(all[slots[y]].result_id->0) implies y < x by {
        let p = slots[x] - head;
        let q = slots[y] - head;
        assert(all[slots[x]] == globals[p] && all[slots[y]] == globals[q]);
        assert(q < p);
        if x < y {
            assert(slots[x] < slots[y]);
        }
    }
}

/// Where declarations refer to earlier ones only, an id that merging drops is
/// neither declared nor used any more.
pub proof fn law_dropped_ids_are_gone(m: ModuleView, apart: Seq<u32>, id: u32)
    requires
        sections::well_placed(m),
        defined_once(m.all_insts()),
        declared_in_order(m.types_global_values),
        dropped_ids(merges_of(m, apart)).contains(id),
    ensures
        !rename::is_used(types::with_merged_types(m, apart), id),
        !declares(types::with_merged_types(m, apart), id),
{
    let all = m.all_insts();
    let globals = m.types_global_values;
    let slots = types::slots(all, globals, apart);
    let merges = merges_of(m, apart);
    let dropped = dropped_ids(merges);
    let f = |i: InstView| after_merges(i, merges);
    let n = merged_module(m, merges);
    let none = Seq::<(u32, u32)>::empty();
    law_with_distinct_types(m, apart);
    lemma_in_order(m, apart);
    lemma_slots(m, apart, globals.len() as int);
    assert(globals.take(globals.len() as int) =~= globals);
    types::lemma_types_defined(m);
    types::lemma_slots_start(all, globals, apart);
    assert(is_after(all, all, slots, none)) by {
        assert forall|p: int|
            #![trigger all[p]]
            0 <= p < all.len() implies all[p] == after_merges(all[p], none) by {}
    }
    assert(slots.take(0) =~= Seq::<int>::empty());
    lemma_kept_stay(all, all, slots, none, 0);
    let k = choose|k: int| 0 <= k < merges.len() && dropped[k] == id;
    assert(merges[k].0 == id);
    let p = |i: InstView| !i.uses(id);
    assert forall|i: InstView| p(#[trigger] f(i)) by {
        if f(i).uses(id) {
            lemma_merged_uses(i, merges, id);
            let j = choose|j: int| 0 <= j < merges.len() && (#[trigger] merges[j]).1 == id;
            assert(merges[j].1 != merges[k].0);
        }
    }
    let whole = m.map_insts(f);
    model::lemma_map_insts(m, f);
    assert(model::each(whole.all_insts(), p));
    model::lemma_every(whole, p);
    assert(model::each(n.types_global_values, p));
    assert(n.every(p));
    sweep::lemma_no_new_use(n, dropped, id);
    let r = types::with_merged_types(m, apart);
    model::lemma_every(r, p);
    if rename::is_used(r, id) {
        let j = choose|j: int| 0 <= j < r.all_insts().len() && (#[trigger] r.all_insts()[j]).uses(id);
        assert(p(r.all_insts()[j]));
    }
    sweep::lemma_without_all_annotations(n, dropped);
    if declares(r, id) {
        let q = choose|q: int|
            0 <= q < r.types_global_values.len() && (
            #[trigger] r.types_global_values[q]).result_id == Some(id);
        let left = kept(globals, dropped);
        lemma_filter_places(globals, |i: InstView| !is_dropped(i, dropped));
        lemma_after_merges(left[q], merges);
        assert(is_dropped(left[q], dropped));
    }
}

/// Where no kept id is dropped, merges replace each id that an instruction refers to
/// by what becomes of it.
pub proof fn lemma_merged_ids(i: InstView, merges: Seq<(u32, u32)>)
    requires
        kept_stay(merges),
    ensures
        after_merges(i, merges) == i.renamed(|x: u32| x, |x: u32| rename::followed(merges, x)),
    decreases merges.len(),
{
    let f = |x: u32| rename::followed(merges, x);
    let r = i.renamed(|x: u32| x, f);
    if merges.len() == 0 {
        assert(r.operands =~= i.operands);
        assert(r =~= i);
    } else {
        let rest = merges.drop_last();
        let last = merges.last();
        let n = merges.len() - 1;
        assert(merges[n] == last);
        assert forall|j: int, k: int|
            #![trigger rest[j], rest[k]]
            0 <= j < rest.len() && 0 <= k < rest.len() implies rest[j].1 != rest[k].0 by {
            assert(rest[j] == merges[j] && rest[k] == merges[k]);
        }
        lemma_merged_ids(i, rest);
        let prev = after_merges(i, rest);
        assert forall|x: u32| #[trigger] i.uses(x) && !i.uses(last.0) implies rename::followed(
            rest,
            x,
        ) != last.0 by {
            lemma_followed_kept(rest, x);
            if rename::followed(rest, x) == last.0 && x != last.0 {
                let k = choose|k: int|
                    0 <= k < rest.len() && (#[trigger] rest[k]).0 == x && rename::followed(rest, x)
                        == rest[k].1;
                assert(merges[k] == rest[k]);
                assert(merges[k].1 != merges[n].0);
            }
        }
        let out = after_merges(i, merges);
        assert forall|k: int| 0 <= k < i.operands.len() implies out.operands[k] == r.operands[k] by {
            if i.operands[k].id() is Some {
                assert(i.operand_uses(i.operands[k].id()->0));
                assert(i.uses(i.operands[k].id()->0));
            }
        }
        assert(out.operands =~= r.operands);
        if i.result_type is Some {
            assert(i.uses(i.result_type->0));
        }
        assert(out =~= r);
    }
}

/// Where no kept id is dropped, an id either stays or becomes the one kept for it.
pub proof fn lemma_followed_kept(merges: Seq<(u32, u32)>, id: u32)
    requires
        kept_stay(merges),
    ensures
        dropped_ids(merges).contains(id) ==> exists|k: int|
            0 <= k < merges.len() && (#[trigger] merges[k]).0 == id && rename::followed(merges, id)
                == merges[k].1,
        !dropped_ids(merges).contains(id) ==> rename::followed(merges, id) == id,
        !dropped_ids(merges).contains(rename::followed(merges, id)),
        rename::followed(merges, id) != id ==> exists|k: int|
            0 <= k < merges.len() && (#[trigger] merges[k]).0 == id && rename::followed(merges, id)
                == merges[k].1,
{
    assert forall|i: int, j: int|
        #![trigger merges[i], merges[j]]
        0 <= i < merges.len() && 0 <= j < merges.len() implies merges[i].0 != merges[j].1 by {
        assert(merges[j].1 != merges[i].0);
    }
    rename::lemma_followed_once(merges, id);
    if dropped_ids(merges).contains(id) {
        let k = choose|k: int| 0 <= k < merges.len() && dropped_ids(merges)[k] == id;
        assert(merges[k].0 == id);
        let j = choose|j: int|
            0 <= j < merges.len() && (#[trigger] merges[j]).0 == id && rename::followed(merges, id)
                == merges[j].1;
        if dropped_ids(merges).contains(merges[j].1) {
            let l = choose|l: int| 0 <= l < merges.len() && dropped_ids(merges)[l] == merges[j].1;
            assert(merges[l].0 == merges[j].1);
        }
    } else {
        assert forall|k: int| 0 <= k < merges.len() implies (#[trigger] merges[k]).0 != id by {
            assert(dropped_ids(merges)[k] == merges[k].0);
        }
    }
}

/// Whether merge `k` is of two declarations that said the same when it was made, and
/// keeps the first of them.
pub open spec fn is_timely_merge(globals: Seq<InstView>, merges: Seq<(u32, u32)>, k: int) -> bool {
    exists|p: int, q: int|
        {
            &&& 0 <= p < globals.len()
            &&& 0 <= q < globals.len()
            &&& (#[trigger] globals[p]).result_id == Some(merges[k].0)
            &&& (#[trigger] globals[q]).result_id == Some(merges[k].1)
            &&& q < p
            &&& say_the_same(
                after_merges(globals[p], merges.take(k)),
                after_merges(globals[q], merges.take(k)),
            )
        }
}

proof fn lemma_timely_step(
    m: ModuleView,
    apart: Seq<u32>,
    cur: Seq<InstView>,
    merges: Seq<(u32, u32)>,
    x: int,
    y: int,
)
    requires
        defined_once(m.all_insts()),
        is_after(
            m.all_insts(),
            cur,
            types::slots(m.all_insts(), m.types_global_values, apart),
            merges,
        ),
        0 <= x < y < types::slots(m.all_insts(), m.types_global_values, apart).len(),
        ({
            let slots = types::slots(m.all_insts(), m.types_global_values, apart);
            &&& cur[slots[x]].opcode != opcode::NOP
            &&& cur[slots[y]].opcode != opcode::NOP
            &&& types::declaration_key(cur[slots[y]]) == types::declaration_key(cur[slots[x]])
        }),
    ensures
        ({
            let slots = types::slots(m.all_insts(), m.types_global_values, apart);
            is_timely_merge(
                m.types_global_values,
                merges.push((cur[slots[y]].result_id->0, cur[slots[x]].result_id->0)),
                merges.len() as int,
            )
        }),
{
    let all = m.all_insts();
    let globals = m.types_global_values;
    let slots = types::slots(all, globals, apart);
    let head = headed(m).all_insts().len();
    let b = slots[y];
    let a = slots[x];
    let more = merges.push((cur[b].result_id->0, cur[a].result_id->0));
    lemma_slots(m, apart, globals.len() as int);
    assert(globals.take(globals.len() as int) =~= globals);
    lemma_split(m);
    assert(slots[x] < slots[y]);
    lemma_after_merges(all[a], merges);
    lemma_after_merges(all[b], merges);
    assert(cur[a] == after_merges(all[a], merges));
    assert(cur[b] == after_merges(all[b], merges));
    assert(all[a] == globals[a - head] && all[b] == globals[b - head]);
    assert(more.take(merges.len() as int) =~= merges);
    lemma_same_key(cur[b], cur[a]);
    assert(globals[b - head].result_id == Some(more[merges.len() as int].0));
    assert(globals[a - head].result_id == Some(more[merges.len() as int].1));
}

/// Whether all merges are of declarations that said the same when they were made.
pub open spec fn are_timely(globals: Seq<InstView>, merges: Seq<(u32, u32)>) -> bool {
    forall|k: int| 0 <= k < merges.len() ==> #[trigger] is_timely_merge(globals, merges, k)
}

proof fn lemma_timely_push(globals: Seq<InstView>, merges: Seq<(u32, u32)>, more: (u32, u32))
    requires
        are_timely(globals, merges),
        is_timely_merge(globals, merges.push(more), merges.len() as int),
    ensures
        are_timely(globals, merges.push(more)),
{
    let list = merges.push(more);
    assert forall|k: int| 0 <= k < list.len() implies #[trigger] is_timely_merge(globals, list, k) by {
        if k < merges.len() {
            assert(is_timely_merge(globals, merges, k));
            assert(list.take(k) =~= merges.take(k));
            assert(list[k] == merges[k]);
        }
    }
}

proof fn lemma_timely(
    m: ModuleView,
    apart: Seq<u32>,
    cur: Seq<InstView>,
    merges: Seq<(u32, u32)>,
)
    requires
        defined_once(m.all_insts()),
        is_after(
            m.all_insts(),
            cur,
            types::slots(m.all_insts(), m.types_global_values, apart),
            merges,
        ),
        types::slots_have_ids(cur, types::slots(m.all_insts(), m.types_global_values, apart)),
        are_timely(m.types_global_values, merges),
    ensures
        are_timely(
            m.types_global_values,
            merge_list(
                m.all_insts(),
                cur,
                types::slots(m.all_insts(), m.types_global_values, apart),
                merges,
            ),
        ),
    decreases types::live(cur),
{
    let all = m.all_insts();
    let globals = m.types_global_values;
    let slots = types::slots(all, globals, apart);
    types::lemma_duplicate(cur, slots);
    if types::first_duplicate(cur, slots) is Some {
        let (y, x) = lemma_duplicate_at(cur, slots);
        let b = slots[y];
        let a = slots[x];
        let last = (cur[b].result_id->0, cur[a].result_id->0);
        let more = merges.push(last);
        types::lemma_merged_live(all, cur, b, a);
        lemma_merge_step(all, cur, slots, merges, b, a);
        lemma_timely_step(m, apart, cur, merges, x, y);
        lemma_timely_push(globals, merges, last);
        lemma_timely(m, apart, types::merged(all, cur, b, a), more);
        assert(merge_list(all, cur, slots, merges) == merge_list(
            all,
            types::merged(all, cur, b, a),
            slots,
            more,
        ));
    }
}

/// Only declarations that say the same are merged: when a declaration is dropped, it
/// has the opcode, the type and the operand words of the one that is kept for it, which
/// comes before it.
pub proof fn law_only_the_same_is_merged(m: ModuleView, apart: Seq<u32>, k: int)
    requires
        defined_once(m.all_insts()),
        0 <= k < merges_of(m, apart).len(),
    ensures
        is_timely_merge(m.types_global_values, merges_of(m, apart), k),
{
    let all = m.all_insts();
    let slots = types::slots(all, m.types_global_values, apart);
    let none = Seq::<(u32, u32)>::empty();
    types::lemma_types_defined(m);
    types::lemma_slots_start(all, m.types_global_values, apart);
    assert(is_after(all, all, slots, none)) by {
        assert forall|p: int|
            #![trigger all[p]]
            0 <= p < all.len() implies all[p] == after_merges(all[p], none) by {}
    }
    lemma_timely(m, apart, all, none);
}

/// An instruction with the ids that it refers to replaced.
pub open spec fn redirected(i: InstView, sigma: spec_fn(u32) -> u32) -> InstView {
    i.renamed(|x: u32| x, sigma)
}

/// Whether `r` is `m` with ids that stand for the same replaced by one of them, as
/// `sigma` says:
/// - An id that is not declared, or is kept apart, stays.
/// - What is declared under an id is declared in `r` under the id that it becomes.
/// - No declaration is new, and they keep their order.
/// - No two declarations that may be merged say the same.
/// - All else but annotations and debug instructions only has its ids replaced.
pub open spec fn is_quotient(
    m: ModuleView,
    apart: Seq<u32>,
    r: ModuleView,
    sigma: spec_fn(u32) -> u32,
) -> bool {
    let n = m.map_insts(|i: InstView| redirected(i, sigma));
    &&& forall|x: u32| !declares(m, x) || apart.contains(x) ==> #[trigger] sigma(x) == x
    &&& forall|q: int|
        0 <= q < m.types_global_values.len() && (#[trigger] m.types_global_values[q]).result_id is Some
            ==> has_same(
            r.types_global_values,
            redirected(m.types_global_values[q], sigma),
            sigma(m.types_global_values[q].result_id->0),
        )
    &&& forall|q: int|
        0 <= q < m.types_global_values.len() && (#[trigger] m.types_global_values[q]).result_id is None
            ==> r.types_global_values.contains(redirected(m.types_global_values[q], sigma))
    &&& dedup::is_subsequence(r.types_global_values, n.types_global_values)
    &&& forall|i: int, j: int|
        #![trigger r.types_global_values[i], r.types_global_values[j]]
        0 <= i < j < r.types_global_values.len() && can_merge(r.types_global_values[i], apart)
            && can_merge(r.types_global_values[j], apart) ==> !say_the_same(
            r.types_global_values[i],
            r.types_global_values[j],
        )
    &&& r.capabilities == n.capabilities
    &&& r.extensions == n.extensions
    &&& r.ext_inst_imports == n.ext_inst_imports
    &&& r.memory_model == n.memory_model
    &&& r.entry_points == n.entry_points
    &&& r.execution_modes == n.execution_modes
    &&& r.functions == n.functions
}

/// Whether a declaration under `id` says the same as `i`.
pub open spec fn has_same(globals: Seq<InstView>, i: InstView, id: u32) -> bool {
    exists|j: int|
        {
            &&& 0 <= j < globals.len()
            &&& (#[trigger] globals[j]).result_id == Some(id)
            &&& say_the_same(globals[j], i)
        }
}

/// What the merges of a module make of its ids.
pub open spec fn merged_id(m: ModuleView, apart: Seq<u32>, id: u32) -> u32 {
    rename::followed(merges_of(m, apart), id)
}

/// Where declarations refer to earlier ones only, no kept id is dropped, and those
/// merged say the same after all merges.
pub proof fn lemma_merges_in_order(m: ModuleView, apart: Seq<u32>)
    requires
        sections::well_placed(m),
        defined_once(m.all_insts()),
        declared_in_order(m.types_global_values),
    ensures
        kept_stay(merges_of(m, apart)),
        forall|k: int|
            0 <= k < merges_of(m, apart).len() ==> !apart.contains(
                (#[trigger] merges_of(m, apart)[k]).1,
            ),
        forall|k: int|
            #![trigger merges_of(m, apart)[k]]
            0 <= k < merges_of(m, apart).len() ==> exists|p: int, q: int|
                {
                    &&& 0 <= p < m.types_global_values.len()
                    &&& 0 <= q < m.types_global_values.len()
                    &&& (#[trigger] m.types_global_values[p]).result_id == Some(
                        merges_of(m, apart)[k].0,
                    )
                    &&& (#[trigger] m.types_global_values[q]).result_id == Some(
                        merges_of(m, apart)[k].1,
                    )
                    &&& say_the_same(
                        after_merges(m.types_global_values[p], merges_of(m, apart)),
                        after_merges(m.types_global_values[q], merges_of(m, apart)),
                    )
                },
{
    let all = m.all_insts();
    let globals = m.types_global_values;
    let slots = types::slots(all, globals, apart);
    let head = headed(m).all_insts().len();
    let merges = merges_of(m, apart);
    let none = Seq::<(u32, u32)>::empty();
    lemma_in_order(m, apart);
    lemma_slots(m, apart, globals.len() as int);
    assert(globals.take(globals.len() as int) =~= globals);
    lemma_split(m);
    types::lemma_types_defined(m);
    types::lemma_slots_start(all, globals, apart);
    assert(is_after(all, all, slots, none)) by {
        assert forall|p: int|
            #![trigger all[p]]
            0 <= p < all.len() implies all[p] == after_merges(all[p], none) by {}
    }
    assert(slots.take(0) =~= Seq::<int>::empty());
    lemma_kept_stay(all, all, slots, none, 0);
    assert forall|k: int|
        #![trigger merges[k]]
        0 <= k < merges.len() implies exists|p: int, q: int|
        {
            &&& 0 <= p < globals.len()
            &&& 0 <= q < globals.len()
            &&& (#[trigger] globals[p]).result_id == Some(merges[k].0)
            &&& (#[trigger] globals[q]).result_id == Some(merges[k].1)
            &&& say_the_same(
                after_merges(globals[p], merges),
                after_merges(globals[q], merges),
            )
        } by {
        assert(is_sound_merge(all, slots, merges, k, slots.len() as int));
        let (p, q) = choose|p: int, q: int|
            {
                &&& 0 <= p < slots.len()
                &&& 0 <= q < slots.len()
                &&& p < slots.len()
                &&& q < slots.len()
                &&& all[#[trigger] slots[p]].result_id == Some(merges[k].0)
                &&& all[#[trigger] slots[q]].result_id == Some(merges[k].1)
                &&& say_the_same(
                    after_merges(all[slots[p]], merges),
                    after_merges(all[slots[q]], merges),
                )
            };
        assert(all[slots[p]] == globals[slots[p] - head]);
        assert(all[slots[q]] == globals[slots[q] - head]);
    }
    assert forall|k: int| 0 <= k < merges.len() implies !apart.contains(
        (#[trigger] merges[k]).1,
    ) by {
        assert(is_sound_merge(all, slots, merges, k, slots.len() as int));
        let (p, q) = choose|p: int, q: int|
            {
                &&& 0 <= p < slots.len()
                &&& 0 <= q < slots.len()
                &&& p < slots.len()
                &&& q < slots.len()
                &&& all[#[trigger] slots[p]].result_id == Some(merges[k].0)
                &&& all[#[trigger] slots[q]].result_id == Some(merges[k].1)
                &&& say_the_same(
                    after_merges(all[slots[p]], merges),
                    after_merges(all[slots[q]], merges),
                )
            };
        assert(all[slots[q]] == globals[slots[q] - head]);
    }
}

/// Merging declarations that refer to earlier ones only replaces ids by ids that stand
/// for the same, and loses nothing else.
pub proof fn law_merging_is_a_quotient(m: ModuleView, apart: Seq<u32>)
    requires
        sections::well_placed(m),
        defined_once(m.all_insts()),
        declared_in_order(m.types_global_values),
    ensures
        is_quotient(
            m,
            apart,
            types::with_merged_types(m, apart),
            |x: u32| merged_id(m, apart, x),
        ),
{
    let globals = m.types_global_values;
    let merges = merges_of(m, apart);
    let dropped = dropped_ids(merges);
    let sigma = |x: u32| merged_id(m, apart, x);
    let f = |i: InstView| after_merges(i, merges);
    let g = |i: InstView| redirected(i, sigma);
    let r = types::with_merged_types(m, apart);
    let t = merged_module(m, merges);
    law_with_distinct_types(m, apart);
    lemma_merges_in_order(m, apart);
    sweep::lemma_without_all_annotations(t, dropped);
    assert forall|i: InstView| #[trigger] f(i) == g(i) by {
        lemma_merged_ids(i, merges);
        assert((|x: u32| rename::followed(merges, x)) =~= sigma);
    }
    assert(f =~= g);
    let n = m.map_insts(g);
    let keep = |i: InstView| !is_dropped(i, dropped);
    let left = kept(globals, dropped);
    let places = lemma_filter_places(globals, keep);
    assert(r.types_global_values == left.map_values(f));
    assert(dedup::stand_at(r.types_global_values, n.types_global_values, places)) by {
        assert forall|i: int| 0 <= i < r.types_global_values.len() implies 0 <= #[trigger] places[i]
            < n.types_global_values.len() && n.types_global_values[places[i]]
            == r.types_global_values[i] by {
            assert(globals[places[i]] == left[i]);
        }
    }
    assert forall|x: u32| !declares(m, x) || apart.contains(x) implies #[trigger] sigma(x) == x by {
        lemma_followed_kept(merges, x);
    }
    assert forall|q: int| 0 <= q < globals.len() && keep(#[trigger] globals[q]) implies exists|j: int|
        0 <= j < r.types_global_values.len() && (#[trigger] r.types_global_values[j]) == f(
            globals[q],
        ) by {
        globals.lemma_filter_contains(keep, q);
        let j = choose|j: int| 0 <= j < left.len() && left[j] == globals[q];
        assert(r.types_global_values[j] == f(globals[q]));
    }
    assert forall|q: int| 0 <= q < globals.len() && (#[trigger] globals[q]).result_id is Some implies
        has_same(r.types_global_values, g(globals[q]), sigma(globals[q].result_id->0)) by {
        let x = globals[q].result_id->0;
        lemma_followed_kept(merges, x);
        if dropped.contains(x) {
            let k = choose|k: int|
                0 <= k < merges.len() && (#[trigger] merges[k]).0 == x && rename::followed(merges, x)
                    == merges[k].1;
            let (a, b) = choose|a: int, b: int|
                {
                    &&& 0 <= a < globals.len()
                    &&& 0 <= b < globals.len()
                    &&& (#[trigger] globals[a]).result_id == Some(merges[k].0)
                    &&& (#[trigger] globals[b]).result_id == Some(merges[k].1)
                    &&& say_the_same(
                        after_merges(globals[a], merges),
                        after_merges(globals[b], merges),
                    )
                };
            lemma_globals_defined(m);
            if a != q {
                let (c, d) = if a < q {
                    (a, q)
                } else {
                    (q, a)
                };
                assert(globals[c].result_id != globals[d].result_id);
            }
            assert(keep(globals[b]));
            let j = choose|j: int|
                0 <= j < r.types_global_values.len() && (#[trigger] r.types_global_values[j]) == f(
                    globals[b],
                );
            lemma_after_merges(globals[b], merges);
            assert(r.types_global_values[j].result_id == Some(sigma(x)));
        } else {
            assert(keep(globals[q]));
            let j = choose|j: int|
                0 <= j < r.types_global_values.len() && (#[trigger] r.types_global_values[j]) == f(
                    globals[q],
                );
            lemma_after_merges(globals[q], merges);
            assert(r.types_global_values[j].result_id == Some(sigma(x)));
        }
    }
    assert forall|q: int| 0 <= q < globals.len() && (#[trigger] globals[q]).result_id is None implies
        r.types_global_values.contains(g(globals[q])) by {
        assert(keep(globals[q]));
    }
    assert forall|i: int, j: int|
        #![trigger r.types_global_values[i], r.types_global_values[j]]
        0 <= i < j < r.types_global_values.len() && can_merge(r.types_global_values[i], apart)
            && can_merge(r.types_global_values[j], apart) implies !say_the_same(
        r.types_global_values[i],
        r.types_global_values[j],
    ) by {
        if say_the_same(r.types_global_values[i], r.types_global_values[j]) {
            lemma_key_of_same(r.types_global_values[i], r.types_global_values[j]);
        }
    }
}

/// Whether two operands are of the same kind, and no strings.
pub open spec fn are_of_a_kind(x: OperandView, y: OperandView) -> bool {
    match (x, y) {
        (OperandView::IdRef(_), OperandView::IdRef(_)) => true,
        (OperandView::IdScope(_), OperandView::IdScope(_)) => true,
        (OperandView::IdMemorySemantics(_), OperandView::IdMemorySemantics(_)) => true,
        (OperandView::LiteralBit32(_), OperandView::LiteralBit32(_)) => true,
        (OperandView::LiteralBit64(_), OperandView::LiteralBit64(_)) => true,
        (OperandView::Enumerant(_), OperandView::Enumerant(_)) => true,
        _ => false,
    }
}

/// Whether two operands are the same, or enumerants with the same number.
pub open spec fn mean_the_same(x: OperandView, y: OperandView) -> bool {
    x == y || match (x, y) {
        (OperandView::Enumerant(e), OperandView::Enumerant(f)) => e.code == f.code,
        _ => false,
    }
}

proof fn lemma_last_words(x: OperandView, y: OperandView, a: Seq<u32>, b: Seq<u32>)
    requires
        are_of_a_kind(x, y),
        a + bridge::operand_words(x) == b + bridge::operand_words(y),
    ensures
        a == b,
        mean_the_same(x, y),
{
    let p = bridge::operand_words(x);
    let q = bridge::operand_words(y);
    let s = a + p;
    let t = b + q;
    assert(p.len() == q.len());
    assert(s == t);
    assert(s.len() == a.len() + p.len() && t.len() == b.len() + q.len());
    assert(a.len() == b.len());
    assert(s.take(a.len() as int) =~= a);
    assert(t.take(b.len() as int) =~= b);
    assert(s.skip(a.len() as int) =~= p);
    assert(t.skip(b.len() as int) =~= q);
    assert(p[0] == q[0]);
    if x is LiteralBit64 {
        let v = x->LiteralBit64_0;
        let w = y->LiteralBit64_0;
        assert(p[1] == q[1]);
        assert((v % 0x1_0000_0000) as u32 == v % 0x1_0000_0000);
        assert((w % 0x1_0000_0000) as u32 == w % 0x1_0000_0000);
        assert((v / 0x1_0000_0000) as u32 == v / 0x1_0000_0000);
        assert((w / 0x1_0000_0000) as u32 == w / 0x1_0000_0000);
        assert(v == w);
    }
}

/// Operands of the same kinds that take up the same words are the same, one by one: they
/// refer to the same ids and hold the same numbers.
pub proof fn law_same_words(a: Seq<OperandView>, b: Seq<OperandView>)
    requires
        a.len() == b.len(),
        forall|k: int| 0 <= k < a.len() ==> are_of_a_kind(#[trigger] a[k], b[k]),
        bridge::operands_words(a) == bridge::operands_words(b),
    ensures
        forall|k: int| 0 <= k < a.len() ==> mean_the_same(#[trigger] a[k], b[k]),
    decreases a.len(),
{
    if a.len() > 0 {
        let x = a.drop_last();
        let y = b.drop_last();
        let n = a.len() - 1;
        assert(are_of_a_kind(a[n], b[n]));
        lemma_last_words(
            a.last(),
            b.last(),
            bridge::operands_words(x),
            bridge::operands_words(y),
        );
        assert forall|k: int| 0 <= k < x.len() implies are_of_a_kind(#[trigger] x[k], y[k]) by {
            assert(a[k] == x[k] && b[k] == y[k]);
        }
        law_same_words(x, y);
        assert forall|k: int| 0 <= k < a.len() implies mean_the_same(#[trigger] a[k], b[k]) by {
            if k < n {
                assert(x[k] == a[k] && y[k] == b[k]);
            }
        }
    }
}

/// Dropping all duplicates among declarations that refer to earlier ones only keeps no
/// declaration apart.
pub proof fn law_all_duplicates_are_merged(m: ModuleView)
    requires
        sections::well_placed(m),
        defined_once(m.all_insts()),
        declared_in_order(m.types_global_values),
    ensures
        is_quotient(
            m,
            Seq::empty(),
            types::with_distinct_types(m),
            |x: u32| merged_id(m, Seq::empty(), x),
        ),
{
    law_merging_is_a_quotient(m, Seq::empty());
}

} // verus!
