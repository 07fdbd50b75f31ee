//! What moving, replacing and renumbering ids does to a module, place by place.

use vstd::prelude::*;

use crate::merging;
use crate::model;
use crate::model::{InstView, ModuleView, OperandView};
use crate::rename;
use crate::types;

verus! {

/// Whether an operand is another one with its id, if it is one, replaced as `f` says.
pub open spec fn is_operand_under(o: OperandView, r: OperandView, f: spec_fn(u32) -> u32) -> bool {
    match o {
        OperandView::IdRef(w) => r == OperandView::IdRef(f(w)),
        OperandView::IdScope(w) => r == OperandView::IdScope(f(w)),
        OperandView::IdMemorySemantics(w) => r == OperandView::IdMemorySemantics(f(w)),
        OperandView::LiteralBit32(_) => r == o,
        OperandView::LiteralBit64(_) => r == o,
        OperandView::LiteralString(_) => r == o,
        OperandView::Enumerant(_) => r == o,
    }
}

/// Whether an instruction is another one with its own id replaced as `def` says and the
/// ids that it refers to as `used` says.
pub open spec fn is_under(
    i: InstView,
    r: InstView,
    def: spec_fn(u32) -> u32,
    used: spec_fn(u32) -> u32,
) -> bool {
    &&& r.opcode == i.opcode
    &&& r.result_id is Some <==> i.result_id is Some
    &&& i.result_id is Some ==> r.result_id->0 == def(i.result_id->0)
    &&& r.result_type is Some <==> i.result_type is Some
    &&& i.result_type is Some ==> r.result_type->0 == used(i.result_type->0)
    &&& r.operands.len() == i.operands.len()
    &&& forall|k: int|
        #![trigger i.operands[k]]
        #![trigger r.operands[k]]
        0 <= k < i.operands.len() ==> is_operand_under(i.operands[k], r.operands[k], used)
}

/// Whether the instructions of a module are those of another one with their ids replaced,
/// one by one, and all sections are as long.
pub open spec fn are_under(
    m: ModuleView,
    r: ModuleView,
    def: spec_fn(u32) -> u32,
    used: spec_fn(u32) -> u32,
) -> bool {
    let a = m.all_insts();
    let b = r.all_insts();
    &&& a.len() == b.len()
    &&& forall|k: int|
        #![trigger a[k]]
        #![trigger b[k]]
        0 <= k < a.len() ==> is_under(a[k], b[k], def, used)
    &&& r.header == m.header
    &&& r.capabilities.len() == m.capabilities.len()
    &&& r.extensions.len() == m.extensions.len()
    &&& r.ext_inst_imports.len() == m.ext_inst_imports.len()
    &&& r.memory_model is Some <==> m.memory_model is Some
    &&& r.entry_points.len() == m.entry_points.len()
    &&& r.execution_modes.len() == m.execution_modes.len()
    &&& r.debug_string_source.len() == m.debug_string_source.len()
    &&& r.debug_names.len() == m.debug_names.len()
    &&& r.debug_module_processed.len() == m.debug_module_processed.len()
    &&& r.annotations.len() == m.annotations.len()
    &&& r.types_global_values.len() == m.types_global_values.len()
    &&& r.functions.len() == m.functions.len()
}

proof fn lemma_under(
    m: ModuleView,
    f: spec_fn(InstView) -> InstView,
    def: spec_fn(u32) -> u32,
    used: spec_fn(u32) -> u32,
)
    requires
        forall|i: InstView| #[trigger] f(i) == i.renamed(def, used),
    ensures
        are_under(m, m.map_insts(f), def, used),
{
    let a = m.all_insts();
    let b = m.map_insts(f).all_insts();
    model::lemma_map_insts(m, f);
    assert forall|k: int|
        #![trigger a[k]]
        #![trigger b[k]]
        0 <= k < a.len() implies is_under(a[k], b[k], def, used) by {
        assert(b[k] == f(a[k]));
    }
}

/// Moving the ids of a module up adds the same number to every id, wherever it stands,
/// and changes nothing else.
pub proof fn law_shifted(m: ModuleView, add: u32)
    requires
        rename::shiftable(m, add),
    ensures
        are_under(
            m,
            rename::shifted(m, add),
            |id: u32| (id + add) as u32,
            |id: u32| (id + add) as u32,
        ),
        forall|id: u32| #[trigger] rename::occurs(m, id) ==> id + add <= u32::MAX,
{
    let by = rename::Shift { add };
    let f = |i: InstView| rename::renamed(&by, i);
    let g = |id: u32| (id + add) as u32;
    assert forall|i: InstView| #[trigger] f(i) == i.renamed(g, g) by {
        assert((|id: u32| rename::Renaming::def(&by, id)) =~= g);
        assert((|id: u32| rename::Renaming::used(&by, id)) =~= g);
    }
    lemma_under(m, f, g, g);
    assert(f =~= (|i: InstView| rename::renamed(&rename::Shift { add }, i)));
    let p = |i: InstView| rename::covered(&rename::Shift { add }, i);
    model::lemma_every(m, p);
    assert forall|id: u32| #[trigger] rename::occurs(m, id) implies id + add <= u32::MAX by {
        let all = m.all_insts();
        let k = choose|k: int| 0 <= k < all.len() && (#[trigger] all[k]).mentions(id);
        assert(p(all[k]));
    }
}

/// A number can be added to the ids of a module exactly where it can be added to each id
/// that stands in it.
pub proof fn law_shiftable(m: ModuleView, add: u32)
    ensures
        rename::shiftable(m, add) <==> forall|k: int, p: int, id: u32| #[trigger]
            stands_at(m, k, p, id) ==> id + add <= u32::MAX,
{
    let all = m.all_insts();
    let c = |i: InstView| rename::covered(&rename::Shift { add }, i);
    model::lemma_every(m, c);
    if rename::shiftable(m, add) {
        assert forall|k: int, p: int, id: u32| #[trigger] stands_at(m, k, p, id) implies id + add
            <= u32::MAX by {
            if p >= 2 {
                assert(all[k].operands[p - 2].id() == Some(id));
                assert(all[k].operand_uses(id));
            }
            assert(c(all[k]));
            assert(all[k].mentions(id));
        }
    }
    if forall|k: int, p: int, id: u32| #[trigger]
        stands_at(m, k, p, id) ==> id + add <= u32::MAX {
        assert forall|k: int| 0 <= k < all.len() implies c(#[trigger] all[k]) by {
            assert forall|id: u32| #[trigger] all[k].mentions(id) implies rename::Renaming::covers(
                &rename::Shift { add },
                id,
            ) by {
                let p = lemma_mentioned(all[k], id);
                assert(stands_at(m, k, p, id));
            }
        }
    }
}

/// Replacing the uses of an id replaces each of them, wherever it stands, and changes
/// neither definitions nor anything else.
pub proof fn law_replaced(m: ModuleView, before: u32, after: u32)
    ensures
        are_under(
            m,
            rename::replaced_all(m, before, after),
            |id: u32| id,
            |id: u32|
                if id == before {
                    after
                } else {
                    id
                },
        ),
{
    let by = rename::Replace { before, after };
    let f = |i: InstView| rename::replaced(i, before, after);
    let d = |id: u32| id;
    let u = |id: u32|
        if id == before {
            after
        } else {
            id
        };
    assert forall|i: InstView| #[trigger] f(i) == i.renamed(d, u) by {
        assert((|id: u32| rename::Renaming::def(&by, id)) =~= d);
        assert((|id: u32| rename::Renaming::used(&by, id)) =~= u);
    }
    lemma_under(m, f, d, u);
}

/// Whether `id` stands in place `p` of an instruction: first its own id, then its type,
/// then its operands.
pub open spec fn stands_in(i: InstView, p: int, id: u32) -> bool {
    ||| p == 0 && i.result_id == Some(id)
    ||| p == 1 && i.result_type == Some(id)
    ||| 2 <= p < 2 + i.operands.len() && i.operands[p - 2].id() == Some(id)
}

/// Whether `id` stands in place `p` of instruction `k` of a module.
pub open spec fn stands_at(m: ModuleView, k: int, p: int, id: u32) -> bool {
    0 <= k < m.all_insts().len() && stands_in(m.all_insts()[k], p, id)
}

proof fn lemma_first_seen_prefix(a: Seq<u32>, b: Seq<u32>)
    ensures
        rename::first_seen(a).len() <= rename::first_seen(a + b).len(),
        rename::first_seen(a + b).take(rename::first_seen(a).len() as int) == rename::first_seen(
            a,
        ),
    decreases b.len(),
{
    let s = rename::first_seen(a);
    if b.len() == 0 {
        assert(a + b =~= a);
        assert(s.take(s.len() as int) =~= s);
    } else {
        let c = b.drop_last();
        lemma_first_seen_prefix(a, c);
        assert((a + b).drop_last() =~= a + c);
        assert((a + b).last() == b.last());
        let t = rename::first_seen(a + c);
        assert(rename::first_seen(a + b).take(s.len() as int) =~= t.take(s.len() as int));
    }
}

proof fn lemma_id_list_split(insts: Seq<InstView>, k: int) -> (rest: Seq<u32>)
    requires
        0 <= k < insts.len(),
    ensures
        rename::id_list(insts) == rename::id_list(insts.take(k)) + rename::inst_ids(insts[k])
            + rest,
    decreases insts.len(),
{
    let head = insts.drop_last();
    if k == insts.len() - 1 {
        assert(insts.take(k) =~= head);
        let rest = Seq::<u32>::empty();
        assert(rename::id_list(insts) =~= rename::id_list(insts.take(k)) + rename::inst_ids(
            insts[k],
        ) + rest);
        rest
    } else {
        let before = lemma_id_list_split(head, k);
        assert(head.take(k) =~= insts.take(k));
        let rest = before + rename::inst_ids(insts.last());
        assert(rename::id_list(insts) =~= rename::id_list(insts.take(k)) + rename::inst_ids(
            insts[k],
        ) + rest);
        rest
    }
}

proof fn lemma_operand_ids_split(ops: Seq<OperandView>, n: int) -> (rest: Seq<u32>)
    requires
        0 <= n <= ops.len(),
    ensures
        rename::operand_ids(ops) == rename::operand_ids(ops.take(n)) + rest,
    decreases ops.len(),
{
    if n == ops.len() {
        assert(ops.take(n) =~= ops);
        let rest = Seq::<u32>::empty();
        assert(rename::operand_ids(ops) =~= rename::operand_ids(ops.take(n)) + rest);
        rest
    } else {
        let head = ops.drop_last();
        let before = lemma_operand_ids_split(head, n);
        assert(head.take(n) =~= ops.take(n));
        let rest = before + model::opt_seq(ops.last().id());
        assert(rename::operand_ids(ops) =~= rename::operand_ids(ops.take(n)) + rest);
        rest
    }
}

/// The ids of an instruction up to a place, and those after it.
proof fn lemma_inst_ids_split(i: InstView, p: int) -> (r: (Seq<u32>, Seq<u32>))
    requires
        0 <= p < 2 + i.operands.len(),
    ensures
        rename::inst_ids(i) == r.0 + r.1,
        forall|id: u32| #[trigger]
            r.0.contains(id) <==> exists|q: int| 0 <= q <= p && #[trigger] stands_in(i, q, id),
{
    let a = model::opt_seq(i.result_id);
    let b = model::opt_seq(i.result_type);
    let ids = rename::operand_ids(i.operands);
    if p == 0 {
        let r = (a, b + ids);
        assert(rename::inst_ids(i) =~= r.0 + r.1);
        assert forall|id: u32| #[trigger] r.0.contains(id) <==> exists|q: int|
            0 <= q <= p && #[trigger] stands_in(i, q, id) by {
            if r.0.contains(id) {
                assert(stands_in(i, 0, id));
            }
            if exists|q: int| 0 <= q <= p && #[trigger] stands_in(i, q, id) {
                assert(a[0] == id);
            }
        }
        r
    } else if p == 1 {
        let r = (a + b, ids);
        assert(rename::inst_ids(i) =~= r.0 + r.1);
        assert forall|id: u32| #[trigger] r.0.contains(id) <==> exists|q: int|
            0 <= q <= p && #[trigger] stands_in(i, q, id) by {
            if r.0.contains(id) {
                let j = choose|j: int| 0 <= j < r.0.len() && r.0[j] == id;
                if j < a.len() {
                    assert(stands_in(i, 0, id));
                } else {
                    assert(stands_in(i, 1, id));
                }
            }
            if exists|q: int| 0 <= q <= p && #[trigger] stands_in(i, q, id) {
                let q = choose|q: int| 0 <= q <= p && #[trigger] stands_in(i, q, id);
                if q == 0 {
                    assert(r.0[0] == id);
                } else {
                    assert(r.0[a.len() as int] == id);
                }
            }
        }
        r
    } else {
        let n = p - 1;
        let rest = lemma_operand_ids_split(i.operands, n);
        let front = rename::operand_ids(i.operands.take(n));
        let r = (a + b + front, rest);
        assert(rename::inst_ids(i) =~= r.0 + r.1);
        assert forall|id: u32| #[trigger] r.0.contains(id) <==> exists|q: int|
            0 <= q <= p && #[trigger] stands_in(i, q, id) by {
            rename::lemma_operand_ids(i.operands.take(n), id);
            if r.0.contains(id) {
                let j = choose|j: int| 0 <= j < r.0.len() && r.0[j] == id;
                if j < a.len() {
                    assert(stands_in(i, 0, id));
                } else if j < a.len() + b.len() {
                    assert(stands_in(i, 1, id));
                } else {
                    assert(front[j - a.len() - b.len()] == id);
                    assert(front.contains(id));
                    let l = choose|l: int|
                        0 <= l < i.operands.take(n).len() && (
                        #[trigger] i.operands.take(n)[l]).id() == Some(id);
                    assert(stands_in(i, 2 + l, id));
                }
            }
            if exists|q: int| 0 <= q <= p && #[trigger] stands_in(i, q, id) {
                let q = choose|q: int| 0 <= q <= p && #[trigger] stands_in(i, q, id);
                if q == 0 {
                    assert(r.0[0] == id);
                } else if q == 1 {
                    assert(r.0[a.len() as int] == id);
                } else {
                    assert(i.operands.take(n)[q - 2].id() == Some(id));
                    assert(front.contains(id));
                    let j = choose|j: int| 0 <= j < front.len() && front[j] == id;
                    assert(r.0[a.len() + b.len() + j] == id);
                }
            }
        }
        r
    }
}

/// What stands in a place of an instruction is mentioned in it.
pub proof fn lemma_mentioned(i: InstView, id: u32) -> (p: int)
    requires
        i.mentions(id),
    ensures
        stands_in(i, p, id),
        0 <= p < 2 + i.operands.len(),
{
    if i.result_id == Some(id) {
        0
    } else if i.result_type == Some(id) {
        1
    } else {
        let k = choose|k: int| 0 <= k < i.operands.len() && (#[trigger] i.operands[k]).id() == Some(id);
        k + 2
    }
}

/// Whether all that is said of `id` in a module comes after place `p` of instruction `k`.
pub open spec fn comes_after(m: ModuleView, k: int, p: int, id: u32) -> bool {
    forall|j: int, q: int| #[trigger] stands_at(m, j, q, id) ==> k < j || k == j && p < q
}

/// An id that stands in a module before another one first does gets a lower number.
pub proof fn law_numbers_follow_order(m: ModuleView, a: u32, b: u32, k: int, p: int)
    requires
        rename::numberable(m),
        rename::occurs(m, a),
        rename::occurs(m, b),
        stands_at(m, k, p, a),
        comes_after(m, k, p, b),
    ensures
        rename::number_in(rename::ids_in_order(m), a) < rename::number_in(
            rename::ids_in_order(m),
            b,
        ),
{
    let all = m.all_insts();
    let ids = rename::id_list(all);
    let order = rename::ids_in_order(m);
    let i = all[k];
    let tail = lemma_id_list_split(all, k);
    let (x, y) = lemma_inst_ids_split(i, p);
    let head = rename::id_list(all.take(k));
    let front = head + x;
    assert(ids =~= front + (y + tail));
    let s = rename::first_seen(front);
    lemma_first_seen_prefix(front, y + tail);
    rename::lemma_first_seen(front);
    rename::lemma_first_seen(ids);
    rename::lemma_id_list(all, a);
    rename::lemma_id_list(all, b);
    rename::lemma_id_list(all.take(k), b);
    assert(x.contains(a));
    let e = choose|e: int| 0 <= e < x.len() && x[e] == a;
    assert(front[head.len() + e] == a);
    assert(front.contains(a));
    assert(s.contains(a));
    let u = choose|u: int| 0 <= u < s.len() && s[u] == a;
    assert(order.take(s.len() as int)[u] == a);
    assert(order[u] == a);
    assert(!front.contains(b)) by {
        if front.contains(b) {
            let e = choose|e: int| 0 <= e < front.len() && front[e] == b;
            if e < head.len() {
                assert(head[e] == b);
                assert(head.contains(b));
                let j = choose|j: int|
                    0 <= j < all.take(k).len() && (#[trigger] all.take(k)[j]).mentions(b);
                let q = lemma_mentioned(all[j], b);
                assert(stands_at(m, j, q, b));
            } else {
                assert(x[e - head.len()] == b);
                assert(x.contains(b));
                let q = choose|q: int| 0 <= q <= p && #[trigger] stands_in(i, q, b);
                assert(stands_at(m, k, q, b));
            }
        }
    }
    assert(order.contains(b));
    let v = order.index_of(b);
    assert(0 <= v < order.len() && order[v] == b);
    if v < s.len() {
        assert(order.take(s.len() as int)[v] == b);
        assert(s.contains(b));
    }
    let w = order.index_of(a);
    assert(0 <= w < order.len() && order[w] == a);
    assert(w == u);
}

/// Renumbering gives each id one number, wherever it stands, and changes nothing else.
pub proof fn law_renumbered(m: ModuleView)
    requires
        rename::numberable(m),
    ensures
        ({
            let f = |id: u32| rename::number_in(rename::ids_in_order(m), id);
            &&& are_under(m, rename::compacted(m), f, f)
            &&& forall|a: u32, b: u32|
                #![trigger f(a), f(b)]
                rename::occurs(m, a) && rename::occurs(m, b) && f(a) == f(b) ==> a == b
        }),
{
    let order = rename::ids_in_order(m);
    let f = |id: u32| rename::number_in(order, id);
    let g = |i: InstView|
        i.renamed(|id: u32| rename::number_in(order, id), |id: u32| rename::number_in(order, id));
    assert forall|i: InstView| #[trigger] g(i) == i.renamed(f, f) by {}
    lemma_under(m, g, f, f);
    assert forall|a: u32, b: u32|
        #![trigger f(a), f(b)]
        rename::occurs(m, a) && rename::occurs(m, b) && f(a) == f(b) implies a == b by {
        rename::law_compacted(m, a, b);
    }
}

/// An instruction with the ids that it refers to replaced keeps all else.
pub proof fn law_redirected(i: InstView, sigma: spec_fn(u32) -> u32)
    ensures
        is_under(i, merging::redirected(i, sigma), |id: u32| id, sigma),
{
}

/// Replacing each use of an id changes the instructions that used it at the start, in the
/// places where it stands now, and no others.
pub proof fn law_uses_replaced(
    start: Seq<InstView>,
    cur: Seq<InstView>,
    before: u32,
    after: u32,
    k: int,
)
    requires
        start.len() == cur.len(),
        0 <= k < cur.len(),
    ensures
        ({
            let r = types::uses_replaced(start, cur, before, after);
            let f = |id: u32|
                if id == before {
                    after
                } else {
                    id
                };
            &&& r.len() == cur.len()
            &&& start[k].uses(before) ==> is_under(cur[k], r[k], |id: u32| id, f)
            &&& !start[k].uses(before) ==> r[k] == cur[k]
        }),
{
}

} // verus!
