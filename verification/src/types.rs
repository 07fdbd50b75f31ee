//! Merging types, constants and global variables that are declared more than
//! once.

use vstd::prelude::*;

use crate::bridge;
use crate::convert;
use crate::dedup;
use crate::defs;
use crate::model;
use crate::model::{Duplicate, InstView, ModuleView, OperandView, SpvInst, SpvModule};
use crate::opcode;
use crate::rename;
use crate::sweep;
use std::collections::HashMap;

verus! {

/// Where the instructions with the ids that `types` declare are defined, without
/// those that are kept apart.
pub open spec fn slots(insts: Seq<InstView>, types: Seq<InstView>, apart: Seq<u32>) -> Seq<int>
    decreases types.len(),
{
    if types.len() == 0 {
        Seq::empty()
    } else {
        let p = slots(insts, types.drop_last(), apart);
        match types.last().result_id {
            Some(id) => if apart.contains(id) {
                p
            } else {
                p.push(defs::last_def(insts, id))
            },
            None => p,
        }
    }
}

/// Marks that tell an instruction with a type from one without.
pub const TYPED: u32 = 0xffff_ffff;

pub const UNTYPED: u32 = 0xffff_fffe;

/// What tells one declaration from another: its opcode, its type and the words of
/// its operands.
pub open spec fn declaration_key(i: InstView) -> Seq<u32> {
    seq![i.opcode] + (match i.result_type {
        Some(t) => seq![TYPED, t],
        None => seq![UNTYPED],
    }) + bridge::operands_words(i.operands)
}

/// The key of the instruction at index `k`, unless it has been blanked out.
pub open spec fn slot_key(cur: Seq<InstView>, k: int) -> Option<Seq<u32>> {
    if 0 <= k < cur.len() && cur[k].opcode != opcode::NOP {
        Some(declaration_key(cur[k]))
    } else {
        None
    }
}

/// The first slot whose instruction has the key of an earlier slot, and that
/// earlier slot.
pub open spec fn first_duplicate(cur: Seq<InstView>, slots: Seq<int>) -> Option<(int, int)>
    decreases slots.len(),
{
    if slots.len() == 0 {
        None
    } else {
        let rest = slots.drop_last();
        let key = |k: int| slot_key(cur, k);
        match first_duplicate(cur, rest) {
            Some(d) => Some(d),
            None => if key(slots.last()) is Some && dedup::has_key(
                rest,
                key,
                key(slots.last())->0,
            ) {
                Some((slots.last(), rest[dedup::first_with(rest, key, key(slots.last())->0)]))
            } else {
                None
            },
        }
    }
}

/// The instruction that stands for a dropped one.
pub open spec fn nop_inst() -> InstView {
    InstView {
        opcode: opcode::NOP,
        result_type: None,
        result_id: None,
        operands: Seq::empty(),
    }
}

/// The instructions with the uses of `before` replaced by `after`, in those that
/// used `before` at the start.
pub open spec fn uses_replaced(
    start: Seq<InstView>,
    cur: Seq<InstView>,
    before: u32,
    after: u32,
) -> Seq<InstView> {
    Seq::new(
        cur.len(),
        |i: int|
            if start[i].uses(before) {
                rename::replaced(cur[i], before, after)
            } else {
                cur[i]
            },
    )
}

/// The instructions after the one at index `b` has been merged into the one at
/// index `a`.
pub open spec fn merged(start: Seq<InstView>, cur: Seq<InstView>, b: int, a: int) -> Seq<
    InstView,
> {
    uses_replaced(start, cur, cur[b].result_id->0, cur[a].result_id->0).update(b, nop_inst())
}

/// The number of instructions that have not been blanked out.
pub open spec fn live(cur: Seq<InstView>) -> nat
    decreases cur.len(),
{
    if cur.len() == 0 {
        0
    } else {
        live(cur.drop_last()) + if cur.last().opcode == opcode::NOP {
            0nat
        } else {
            1nat
        }
    }
}

proof fn lemma_live(a: Seq<InstView>, b: Seq<InstView>, k: int)
    requires
        a.len() == b.len(),
        0 <= k < a.len() ==> a[k].opcode != opcode::NOP && b[k].opcode == opcode::NOP,
        forall|i: int| 0 <= i < a.len() && i != k ==> a[i].opcode == (#[trigger] b[i]).opcode,
    ensures
        live(b) == live(a) - if 0 <= k < a.len() {
            1int
        } else {
            0int
        },
    decreases a.len(),
{
    if a.len() > 0 {
        let x = a.drop_last();
        let y = b.drop_last();
        assert forall|i: int| 0 <= i < x.len() && i != k implies x[i].opcode == (
        #[trigger] y[i]).opcode by {
            assert(b[i] == y[i]);
        }
        if k == a.len() - 1 {
            lemma_live(x, y, -1);
        } else {
            assert(b[a.len() - 1] == b.last());
            lemma_live(x, y, k);
        }
    }
}

pub proof fn lemma_duplicate(cur: Seq<InstView>, slots: Seq<int>)
    ensures
        first_duplicate(cur, slots) matches Some(d) ==> {
            &&& 0 <= d.0 < cur.len()
            &&& 0 <= d.1 < cur.len()
            &&& cur[d.0].opcode != opcode::NOP
            &&& cur[d.1].opcode != opcode::NOP
            &&& declaration_key(cur[d.0]) == declaration_key(cur[d.1])
            &&& slots.contains(d.0)
            &&& slots.contains(d.1)
        },
    decreases slots.len(),
{
    if slots.len() > 0 {
        let rest = slots.drop_last();
        let key = |k: int| slot_key(cur, k);
        lemma_duplicate(cur, rest);
        match first_duplicate(cur, rest) {
            Some(d) => {
                let i = choose|i: int| 0 <= i < rest.len() && rest[i] == d.0;
                let j = choose|j: int| 0 <= j < rest.len() && rest[j] == d.1;
                assert(slots[i] == d.0);
                assert(slots[j] == d.1);
            },
            None => {
                if key(slots.last()) is Some && dedup::has_key(rest, key, key(slots.last())->0) {
                    dedup::lemma_first_with(rest, key, key(slots.last())->0);
                    let j = dedup::first_with(rest, key, key(slots.last())->0);
                    assert(slots[j] == rest[j]);
                    assert(slots[slots.len() - 1] == slots.last());
                }
            },
        }
    }
}

pub proof fn lemma_merged_live(start: Seq<InstView>, cur: Seq<InstView>, b: int, a: int)
    requires
        0 <= b < cur.len(),
        cur[b].opcode != opcode::NOP,
    ensures
        live(merged(start, cur, b, a)) == live(cur) - 1,
{
    lemma_live(cur, merged(start, cur, b, a), b);
}

/// Merges duplicates until none is left. The result is the instructions, and the
/// ids of those that have been merged into others.
pub open spec fn merge_duplicates(
    start: Seq<InstView>,
    cur: Seq<InstView>,
    slots: Seq<int>,
    dropped: Seq<u32>,
) -> (Seq<InstView>, Seq<u32>)
    decreases live(cur),
{
    proof {
        lemma_duplicate(cur, slots);
        if first_duplicate(cur, slots) is Some {
            let d = first_duplicate(cur, slots)->0;
            lemma_merged_live(start, cur, d.0, d.1);
        }
    }
    match first_duplicate(cur, slots) {
        Some((b, a)) => merge_duplicates(
            start,
            merged(start, cur, b, a),
            slots,
            dropped.push(cur[b].result_id->0),
        ),
        None => (cur, dropped),
    }
}

/// The instructions of a module with the duplicates among its types, constants
/// and global variables merged, apart from those with the given ids, and the ids
/// that have been dropped.
pub open spec fn merged_insts(m: ModuleView, apart: Seq<u32>) -> (Seq<InstView>, Seq<u32>) {
    let all = m.all_insts();
    merge_duplicates(all, all, slots(all, m.types_global_values, apart), Seq::empty())
}

/// The module with the duplicates among its types, constants and global variables
/// merged, apart from those with the given ids, and without annotations about the
/// dropped ones.
pub open spec fn with_merged_types(m: ModuleView, apart: Seq<u32>) -> ModuleView {
    let (insts, dropped) = merged_insts(m, apart);
    sweep::without_all_annotations(convert::loaded(insts), dropped)
}

/// The module with all duplicates among its types, constants and global variables
/// merged.
pub open spec fn with_distinct_types(m: ModuleView) -> ModuleView {
    with_merged_types(m, Seq::empty())
}

/// The indices of the instructions whose type is `id`, in ascending order.
pub open spec fn typed_by(insts: Seq<InstView>, id: u32) -> Seq<int>
    decreases insts.len(),
{
    if insts.len() == 0 {
        Seq::empty()
    } else {
        let p = typed_by(insts.drop_last(), id);
        if insts.last().result_type == Some(id) {
            p.push(insts.len() - 1)
        } else {
            p
        }
    }
}

/// `at`, once for each operand that refers to `id`.
pub open spec fn once_each(ops: Seq<OperandView>, id: u32, at: int) -> Seq<int>
    decreases ops.len(),
{
    if ops.len() == 0 {
        Seq::empty()
    } else {
        let p = once_each(ops.drop_last(), id, at);
        if ops.last().id() == Some(id) {
            p.push(at)
        } else {
            p
        }
    }
}

/// The indices of the instructions with operands that refer to `id`, in ascending
/// order, each as often as there are such operands.
pub open spec fn used_by(insts: Seq<InstView>, id: u32) -> Seq<int>
    decreases insts.len(),
{
    if insts.len() == 0 {
        Seq::empty()
    } else {
        used_by(insts.drop_last(), id) + once_each(
            insts.last().operands,
            id,
            insts.len() - 1,
        )
    }
}

proof fn lemma_typed_by(insts: Seq<InstView>, id: u32, i: int)
    ensures
        typed_by(insts, id).contains(i) <==> 0 <= i < insts.len() && insts[i].result_type == Some(
            id,
        ),
    decreases insts.len(),
{
    if insts.len() > 0 {
        let rest = insts.drop_last();
        let p = typed_by(rest, id);
        lemma_typed_by(rest, id, i);
        lemma_contains_add(p, seq![insts.len() - 1], i);
        assert(p.push(insts.len() - 1) =~= p + seq![insts.len() - 1]);
        assert(seq![insts.len() - 1].contains(i) <==> i == insts.len() - 1) by {
            assert(seq![insts.len() - 1][0] == insts.len() - 1);
        }
    }
}

proof fn lemma_contains_add(a: Seq<int>, b: Seq<int>, i: int)
    ensures
        (a + b).contains(i) <==> a.contains(i) || b.contains(i),
{
    if a.contains(i) {
        let k = choose|k: int| 0 <= k < a.len() && a[k] == i;
        assert((a + b)[k] == i);
    }
    if b.contains(i) {
        let k = choose|k: int| 0 <= k < b.len() && b[k] == i;
        assert((a + b)[a.len() + k] == i);
    }
    if (a + b).contains(i) {
        let k = choose|k: int| 0 <= k < (a + b).len() && (a + b)[k] == i;
        if k < a.len() {
            assert(a[k] == i);
        } else {
            assert(b[k - a.len()] == i);
        }
    }
}

proof fn lemma_once_each(ops: Seq<OperandView>, id: u32, at: int, i: int)
    ensures
        once_each(ops, id, at).contains(i) <==> i == at && model::refers(ops, id),
    decreases ops.len(),
{
    if ops.len() > 0 {
        let n = ops.len() - 1;
        let p = once_each(ops.drop_last(), id, at);
        lemma_once_each(ops.drop_last(), id, at, i);
        model::lemma_refers_step(ops, n, id);
        assert(ops.take(n) =~= ops.drop_last());
        assert(ops.take(n + 1) =~= ops);
        lemma_contains_add(p, seq![at], i);
        assert(p.push(at) =~= p + seq![at]);
        assert(seq![at].contains(i) <==> i == at) by {
            assert(seq![at][0] == at);
        }
    }
}

proof fn lemma_used_by(insts: Seq<InstView>, id: u32, i: int)
    ensures
        used_by(insts, id).contains(i) <==> 0 <= i < insts.len() && insts[i].operand_uses(id),
    decreases insts.len(),
{
    if insts.len() > 0 {
        let rest = insts.drop_last();
        let n = insts.len() - 1;
        lemma_used_by(rest, id, i);
        lemma_once_each(insts.last().operands, id, n, i);
        lemma_contains_add(used_by(rest, id), once_each(insts.last().operands, id, n), i);
    }
}

/// The list of `id`, which is empty where there is none.
pub open spec fn entries(map: Map<u32, Vec<usize>>, id: u32) -> Seq<int> {
    if map.contains_key(id) {
        map[id]@.map_values(|i: usize| i as int)
    } else {
        Seq::empty()
    }
}

/// Whether no list of a table is empty.
pub open spec fn no_empty_list(map: Map<u32, Vec<usize>>) -> bool {
    forall|id: u32| #[trigger] map.contains_key(id) ==> map[id]@.len() > 0
}

/// The instructions of a module with tables of where ids are defined and used.
///
/// The tables are made once; they keep saying what the instructions defined and
/// used at the start.
pub struct DefUseAnalyzer {
    pub def_ids: HashMap<u32, usize>,
    pub use_ids: HashMap<u32, Vec<usize>>,
    pub use_result_type_ids: HashMap<u32, Vec<usize>>,
    pub instructions: Vec<SpvInst>,
    pub start: Ghost<Seq<InstView>>,
}

fn add_use(map: &mut HashMap<u32, Vec<usize>>, id: u32, idx: usize)
    requires
        no_empty_list(old(map)@),
    ensures
        no_empty_list(final(map)@),
        entries(final(map)@, id) == entries(old(map)@, id).push(idx as int),
        forall|x: u32| x != id ==> #[trigger] entries(final(map)@, x) == entries(old(map)@, x),
{
    broadcast use vstd::std_specs::hash::group_hash_axioms;

    let mut list: Vec<usize> = match map.remove(&id) {
        Some(v) => v,
        None => Vec::new(),
    };
    let ghost before = list@;
    assert(entries(old(map)@, id) =~= before.map_values(|i: usize| i as int));
    list.push(idx);
    map.insert(id, list);
    assert(entries(map@, id) =~= entries(old(map)@, id).push(idx as int));
}

impl DefUseAnalyzer {
    /// Whether the tables describe the first `n` instructions of the start.
    pub open spec fn describes(&self, n: int) -> bool {
        let start = self.start@;
        &&& self.instructions@.len() == start.len()
        &&& forall|id: u32| #[trigger]
            self.def_ids@.contains_key(id) <==> defs::has_def(start.take(n), id)
        &&& forall|id: u32| #[trigger]
            self.def_ids@.contains_key(id) ==> self.def_ids@[id] == defs::last_def(start.take(n), id)
        &&& no_empty_list(self.use_ids@)
        &&& forall|id: u32| #[trigger]
            entries(self.use_ids@, id) == used_by(start.take(n), id)
        &&& no_empty_list(self.use_result_type_ids@)
        &&& forall|id: u32| #[trigger]
            entries(self.use_result_type_ids@, id) == typed_by(start.take(n), id)
    }

    /// Whether the tables describe all instructions of the start.
    pub open spec fn wf(&self) -> bool {
        self.describes(self.start@.len() as int)
    }

    /// The instructions as they are now.
    pub open spec fn insts(&self) -> Seq<InstView> {
        model::views(self.instructions@)
    }

    /// Makes the tables for the given instructions.
    pub fn new(instructions: Vec<SpvInst>) -> (r: DefUseAnalyzer)
        ensures
            r.wf(),
            r.start@ == model::views(instructions@),
            r.insts() == model::views(instructions@),
    {
        broadcast use vstd::std_specs::hash::group_hash_axioms;

        let n: usize = instructions.len();
        let ghost start = model::views(instructions@);
        let mut a = DefUseAnalyzer {
            def_ids: HashMap::new(),
            use_ids: HashMap::new(),
            use_result_type_ids: HashMap::new(),
            instructions,
            start: Ghost(start),
        };
        for k in 0..n
            invariant
                n == start.len(),
                a.start@ == start,
                a.insts() == start,
                a.describes(k as int),
        {
            broadcast use vstd::std_specs::hash::group_hash_axioms;

            let ghost here = start[k as int];
            assert(here == a.instructions@[k as int]@);
            let ghost prefix = start.take(k as int);
            let ghost longer = start.take(k + 1);
            let ghost old_ids = a.def_ids@;
            assert(longer.drop_last() =~= prefix);
            assert(longer.last() == here);
            if let Some(id) = a.instructions[k].result_id {
                a.def_ids.insert(id, k);
            }
            assert forall|id: u32| #[trigger] a.def_ids@.contains_key(id) <==> defs::has_def(
                longer,
                id,
            ) by {
                assert(old_ids.contains_key(id) <==> defs::has_def(prefix, id));
                defs::lemma_has_def_step(start, k as int, id);
            }
            assert(forall|id: u32| #[trigger]
                a.def_ids@.contains_key(id) ==> a.def_ids@[id] == defs::last_def(longer, id)) by {
                assert(forall|id: u32| #[trigger]
                    old_ids.contains_key(id) ==> old_ids[id] == defs::last_def(prefix, id));
            }
            let ghost old_types = a.use_result_type_ids@;
            let ghost old_uses = a.use_ids@;
            if let Some(id) = a.instructions[k].result_type {
                add_use(&mut a.use_result_type_ids, id, k);
            }
            assert forall|id: u32| #[trigger] entries(a.use_result_type_ids@, id) == typed_by(
                longer,
                id,
            ) by {
                assert(entries(old_types, id) == typed_by(prefix, id));
            }
            assert forall|id: u32| #[trigger] entries(a.use_ids@, id) == used_by(prefix, id)
                + once_each(here.operands.take(0), id, k as int) by {
                assert(entries(old_uses, id) == used_by(prefix, id));
                assert(used_by(prefix, id) + Seq::<int>::empty() =~= used_by(prefix, id));
            }
            let ghost operands = here.operands;
            let m: usize = a.instructions[k].operands.len();
            for j in 0..m
                invariant
                    0 <= k < n,
                    n == start.len(),
                    a.start@ == start,
                    a.insts() == start,
                    a.instructions@.len() == start.len(),
                    here == start[k as int],
                    here == a.instructions@[k as int]@,
                    operands == here.operands,
                    m == operands.len(),
                    prefix == start.take(k as int),
                    longer == start.take(k + 1),
                    forall|id: u32| #[trigger]
                        a.def_ids@.contains_key(id) <==> defs::has_def(longer, id),
                    forall|id: u32| #[trigger]
                        a.def_ids@.contains_key(id) ==> a.def_ids@[id] == defs::last_def(longer, id),
                    no_empty_list(a.use_ids@),
                    forall|id: u32| #[trigger]
                        entries(a.use_ids@, id) == used_by(prefix, id) + once_each(
                            operands.take(j as int),
                            id,
                            k as int,
                        ),
                    no_empty_list(a.use_result_type_ids@),
                    forall|id: u32| #[trigger]
                        entries(a.use_result_type_ids@, id) == typed_by(longer, id),
            {
                let ghost before = a.use_ids@;
                let op_id = a.instructions[k].operands[j].id();
                assert(operands[j as int] == a.instructions@[k as int].operands@[j as int]@);
                if let Some(id) = op_id {
                    add_use(&mut a.use_ids, id, k);
                }
                let ghost here_so_far = operands.take(j as int);
                assert(operands.take(j + 1).drop_last() =~= here_so_far);
                assert forall|id: u32| #[trigger] entries(a.use_ids@, id) == used_by(prefix, id)
                    + once_each(operands.take(j + 1), id, k as int) by {
                    assert(entries(before, id) == used_by(prefix, id) + once_each(
                        here_so_far,
                        id,
                        k as int,
                    ));
                    assert((used_by(prefix, id) + once_each(here_so_far, id, k as int)).push(
                        k as int,
                    ) =~= used_by(prefix, id) + once_each(here_so_far, id, k as int).push(
                        k as int,
                    ));
                }
            }
            assert(operands.take(m as int) =~= operands);
        }
        assert(start.take(n as int) =~= start);
        a
    }

    /// The index of the instruction that defines `id`, the last one if there are
    /// several.
    pub fn def_idx(&self, id: u32) -> (r: usize)
        requires
            self.wf(),
            defs::has_def(self.start@, id),
        ensures
            r == defs::last_def(self.start@, id),
    {
        broadcast use vstd::std_specs::hash::group_hash_axioms;

        assert(self.start@.take(self.start@.len() as int) =~= self.start@);
        *self.def_ids.get(&id).unwrap()
    }

    /// The instruction that defines `id`, with its index.
    pub fn def(&self, id: u32) -> (r: (usize, &SpvInst))
        requires
            self.wf(),
            defs::has_def(self.start@, id),
        ensures
            r.0 == defs::last_def(self.start@, id),
            r.1@ == self.insts()[r.0 as int],
    {
        let idx = self.def_idx(id);
        proof {
            defs::lemma_last_def(self.start@, id);
        }
        (idx, &self.instructions[idx])
    }

    /// Replaces the uses of `before` by `after` in the listed instructions.
    fn replace_in(&mut self, list: &Vec<usize>, before: u32, after: u32)
        requires
            forall|j: int| 0 <= j < list@.len() ==> (#[trigger] list@[j]) < old(
                self,
            ).instructions@.len(),
        ensures
            *final(self) == (DefUseAnalyzer {
                instructions: final(self).instructions,
                ..*old(self)
            }),
            final(self).instructions@.len() == old(self).instructions@.len(),
            forall|i: int|
                0 <= i < old(self).insts().len() ==> #[trigger] final(self).insts()[i]
                    == if lists(list@, i) {
                    rename::replaced(old(self).insts()[i], before, after)
                } else {
                    old(self).insts()[i]
                },
    {
        let ghost first = self.insts();
        for k in 0..list.len()
            invariant
                forall|j: int| 0 <= j < list@.len() ==> (#[trigger] list@[j]) < first.len(),
                *self == (DefUseAnalyzer { instructions: self.instructions, ..*old(self) }),
                self.instructions@.len() == first.len(),
                forall|i: int|
                    0 <= i < first.len() ==> (#[trigger] self.insts()[i]) == if exists|j: int|
                        0 <= j < k && (#[trigger] list@[j]) == i {
                        rename::replaced(first[i], before, after)
                    } else {
                        first[i]
                    },
        {
            let ghost current = self.insts();
            let idx: usize = list[k];
            rename::replace_uses(&mut self.instructions[idx], before, after);
            assert forall|i: int| 0 <= i < first.len() implies (#[trigger] self.insts()[i]) == if exists|
                j: int,
            | 0 <= j < k + 1 && (#[trigger] list@[j]) == i {
                rename::replaced(first[i], before, after)
            } else {
                first[i]
            } by {
                rename::lemma_replaced_twice(first[i], before, after);
                assert(current[i] == first[i] || current[i] == rename::replaced(
                    first[i],
                    before,
                    after,
                ));
                if i == idx {
                    assert(list@[k as int] == i);
                } else {
                    assert(self.insts()[i] == current[i]);
                    if exists|j: int| 0 <= j < k + 1 && (#[trigger] list@[j]) == i {
                        let j = choose|j: int| 0 <= j < k + 1 && (#[trigger] list@[j]) == i;
                        assert(j < k);
                    }
                }
            }
        }
    }

    /// Replaces the uses of `before` by `after` in the instructions that used
    /// `before` at the start, as their type or in an operand.
    pub fn replace_each_use(&mut self, before: u32, after: u32)
        requires
            old(self).wf(),
        ensures
            final(self).wf(),
            final(self).start == old(self).start,
            final(self).insts() == uses_replaced(
                old(self).start@,
                old(self).insts(),
                before,
                after,
            ),
    {
        broadcast use vstd::std_specs::hash::group_hash_axioms;

        let ghost start = self.start@;
        let ghost first = self.insts();
        let typed = copy_list(&self.use_result_type_ids, before);
        let used = copy_list(&self.use_ids, before);
        assert(start.take(start.len() as int) =~= start);
        assert forall|i: int| #[trigger] lists(typed@, i) <==> 0 <= i < start.len()
            && start[i].result_type == Some(before) by {
            lemma_typed_by(start, before, i);
            lemma_lists(typed@, i);
        }
        assert forall|i: int| #[trigger] lists(used@, i) <==> 0 <= i < start.len()
            && start[i].operand_uses(before) by {
            lemma_used_by(start, before, i);
            lemma_lists(used@, i);
        }
        assert forall|j: int| 0 <= j < typed@.len() implies (#[trigger] typed@[j])
            < self.instructions@.len() by {
            assert(lists(typed@, typed@[j] as int));
        }
        assert forall|j: int| 0 <= j < used@.len() implies (#[trigger] used@[j])
            < self.instructions@.len() by {
            assert(lists(used@, used@[j] as int));
        }
        self.replace_in(&typed, before, after);
        self.replace_in(&used, before, after);
        assert forall|i: int| 0 <= i < first.len() implies #[trigger] self.insts()[i]
            == uses_replaced(start, first, before, after)[i] by {
            rename::lemma_replaced_twice(first[i], before, after);
            assert(lists(typed@, i) <==> start[i].result_type == Some(before));
            assert(lists(used@, i) <==> start[i].operand_uses(before));
        }
        assert(self.insts() =~= uses_replaced(start, first, before, after));
    }
}

/// Whether `i` is one of the given indices.
spec fn lists(list: Seq<usize>, i: int) -> bool {
    exists|j: int| 0 <= j < list.len() && (#[trigger] list[j]) == i
}

proof fn lemma_lists(list: Seq<usize>, i: int)
    ensures
        lists(list, i) <==> list.map_values(|i: usize| i as int).contains(i),
{
    let ints = list.map_values(|i: usize| i as int);
    if lists(list, i) {
        let j = choose|j: int| 0 <= j < list.len() && (#[trigger] list[j]) == i;
        assert(ints[j] == i);
    }
    if ints.contains(i) {
        let j = choose|j: int| 0 <= j < ints.len() && ints[j] == i;
        assert(list[j] == i);
    }
}

fn copy_list(map: &HashMap<u32, Vec<usize>>, id: u32) -> (r: Vec<usize>)
    ensures
        r@.map_values(|i: usize| i as int) == entries(map@, id),
{
    broadcast use vstd::std_specs::hash::group_hash_axioms;

    match map.get(&id) {
        Some(v) => {
            let r = v.clone();
            assert(r@ =~= v@);
            r
        },
        None => {
            let r: Vec<usize> = Vec::new();
            assert(r@.map_values(|i: usize| i as int) =~= Seq::<int>::empty());
            r
        },
    }
}

/// The words that tell one declaration from another.
fn declaration_words(inst: &SpvInst) -> (r: Vec<u32>)
    ensures
        r@ == declaration_key(inst@),
{
    let mut data: Vec<u32> = Vec::new();
    data.push(inst.opcode());
    match inst.result_type {
        Some(t) => {
            data.push(TYPED);
            data.push(t);
        },
        None => {
            data.push(UNTYPED);
        },
    }
    let ghost head = data@;
    dedup::append_operands_words(&mut data, &inst.operands);
    assert(head =~= seq![inst@.opcode] + (match inst@.result_type {
        Some(t) => seq![TYPED, t],
        None => seq![UNTYPED],
    }));
    data
}

/// Whether every id that `types` declare is defined by an instruction.
pub open spec fn all_defined(insts: Seq<InstView>, types: Seq<InstView>) -> bool {
    forall|k: int|
        0 <= k < types.len() && (#[trigger] types[k]).result_id is Some ==> defs::has_def(
            insts,
            types[k].result_id->0,
        )
}

/// Finds the first declaration that repeats an earlier one, leaving out those that are
/// kept apart.
fn find_duplicate(a: &DefUseAnalyzer, types: &Vec<SpvInst>, apart: &Vec<u32>) -> (r: Option<
    (usize, usize),
>)
    requires
        a.wf(),
        all_defined(a.start@, model::views(types@)),
    ensures
        match first_duplicate(a.insts(), slots(a.start@, model::views(types@), apart@)) {
            Some(d) => r matches Some(p) && p.0 == d.0 && p.1 == d.1,
            None => r is None,
        },
{
    let ghost start = a.start@;
    let ghost cur = a.insts();
    let ghost all = model::views(types@);
    let ghost key = |k: int| slot_key(cur, k);
    let mut keys: Vec<Vec<u32>> = Vec::new();
    let mut places: Vec<usize> = Vec::new();
    for i in 0..types.len()
        invariant
            a.wf(),
            start == a.start@,
            cur == a.insts(),
            all == model::views(types@),
            key == (|k: int| slot_key(cur, k)),
            all_defined(start, all),
            first_duplicate(cur, slots(start, all.take(i as int), apart@)) is None,
            keys@.len() == places@.len(),
            forall|w: Seq<u32>| #[trigger]
                dedup::listed(keys@, w) <==> dedup::has_key(
                    slots(start, all.take(i as int), apart@),
                    key,
                    w,
                ),
            forall|j: int|
                0 <= j < places@.len() ==> (#[trigger] places@[j]) == slots(
                    start,
                    all.take(i as int),
                    apart@,
                )[dedup::first_with(slots(start, all.take(i as int), apart@), key, keys@[j]@)],
    {
        let ghost p = slots(start, all.take(i as int), apart@);
        let ghost q = slots(start, all.take(i + 1), apart@);
        assert(all.take(i + 1).drop_last() =~= all.take(i as int));
        assert(all.take(i + 1).last() == all[i as int]);
        assert(all[i as int] == types@[i as int]@);
        let considered = match types[i].result_id {
            Some(id) => if lists_id(apart, id) {
                None
            } else {
                Some(id)
            },
            None => None,
        };
        if let Some(result_id) = considered {
            let (idx, inst) = a.def(result_id);
            proof {
                defs::lemma_last_def(start, result_id);
                assert(q == p.push(idx as int));
                assert(q.drop_last() =~= p);
                assert(q.last() == idx);
                assert(inst@ == cur[idx as int]);
            }
            if inst.opcode() != opcode::NOP {
                let words = declaration_words(inst);
                let ghost here = words@;
                assert(key(idx as int) == Some(here));
                let found = dedup::find_words(&keys, &words);
                match found {
                    Some(j) => {
                        let place: usize = places[j];
                        proof {
                            assert(dedup::listed(keys@, here));
                            assert(first_duplicate(cur, q) == Some((idx as int, place as int)));
                            lemma_duplicate_prefix(start, cur, all, apart@, i + 1);
                        }
                        return Some((idx, place));
                    },
                    None => {
                        let ghost old_keys = keys@;
                        keys.push(words);
                        places.push(idx);
                        proof {
                            assert(!dedup::listed(old_keys, here));
                            assert(!dedup::has_key(p, key, here));
                            assert forall|w: Seq<u32>| #[trigger]
                                dedup::listed(keys@, w) <==> dedup::has_key(q, key, w) by {
                                dedup::lemma_listed_push(old_keys, keys@.last(), w);
                                assert(old_keys.push(keys@.last()) =~= keys@);
                                assert(dedup::listed(old_keys, w) <==> dedup::has_key(p, key, w));
                                lemma_has_key_push(p, idx as int, key, w);
                            }
                            assert forall|j: int| 0 <= j < places@.len() implies (
                            #[trigger] places@[j]) == q[dedup::first_with(q, key, keys@[j]@)] by {
                                if j < old_keys.len() {
                                    assert(dedup::listed(old_keys, old_keys[j]@));
                                    assert(dedup::has_key(p, key, old_keys[j]@));
                                    dedup::lemma_first_with(p, key, old_keys[j]@);
                                } else {
                                    assert(dedup::first_with(q, key, here) == p.len());
                                }
                            }
                        }
                    },
                }
            } else {
                proof {
                    assert(key(idx as int) is None);
                    assert forall|w: Seq<u32>| #[trigger]
                        dedup::listed(keys@, w) <==> dedup::has_key(q, key, w) by {
                        lemma_has_key_push(p, idx as int, key, w);
                    }
                    assert forall|j: int| 0 <= j < places@.len() implies (#[trigger] places@[j])
                        == q[dedup::first_with(q, key, keys@[j]@)] by {
                        assert(dedup::listed(keys@, keys@[j]@));
                        dedup::lemma_first_with(p, key, keys@[j]@);
                    }
                }
            }
        }
    }
    assert(all.take(all.len() as int) =~= all);
    None
}

proof fn lemma_has_key_push<A, K>(s: Seq<A>, x: A, key: spec_fn(A) -> Option<K>, k: K)
    ensures
        dedup::has_key(s.push(x), key, k) <==> dedup::has_key(s, key, k) || key(x) == Some(k),
{
    dedup::lemma_has_key_step(s.push(x), s.len() as int, key, k);
    assert(s.push(x).take(s.len() as int) =~= s);
    assert(s.push(x).take(s.len() as int + 1) =~= s.push(x));
}

/// A duplicate among the first declarations is the first duplicate of all.
proof fn lemma_duplicate_prefix(
    start: Seq<InstView>,
    cur: Seq<InstView>,
    types: Seq<InstView>,
    apart: Seq<u32>,
    n: int,
)
    requires
        0 <= n <= types.len(),
        first_duplicate(cur, slots(start, types.take(n), apart)) is Some,
    ensures
        first_duplicate(cur, slots(start, types, apart)) == first_duplicate(
            cur,
            slots(start, types.take(n), apart),
        ),
    decreases types.len() - n,
{
    if n == types.len() {
        assert(types.take(n) =~= types);
    } else {
        let p = slots(start, types.take(n), apart);
        let q = slots(start, types.take(n + 1), apart);
        assert(types.take(n + 1).drop_last() =~= types.take(n));
        if q != p {
            assert(q.drop_last() =~= p);
        }
        lemma_duplicate_prefix(start, cur, types, apart, n + 1);
    }
}

/// The declarations of a module are among its instructions.
pub proof fn lemma_types_defined(m: ModuleView)
    ensures
        all_defined(m.all_insts(), m.types_global_values),
{
    let all = m.all_insts();
    let types = m.types_global_values;
    let p = |i: InstView| i.result_id is Some ==> defs::has_def(all, i.result_id->0);
    assert forall|k: int| 0 <= k < all.len() implies p(#[trigger] all[k]) by {
        if all[k].result_id is Some {
            assert(defs::has_def(all, all[k].result_id->0));
        }
    }
    model::lemma_every(m, p);
    assert(model::each(types, p));
    assert forall|k: int|
        0 <= k < types.len() && (#[trigger] types[k]).result_id is Some implies defs::has_def(
        all,
        types[k].result_id->0,
    ) by {
        assert(p(types[k]));
    }
}

/// Whether the instructions at the slots that have not been blanked out have ids.
pub open spec fn slots_have_ids(cur: Seq<InstView>, slots: Seq<int>) -> bool {
    forall|j: int|
        0 <= j < slots.len() ==> {
            let k = #[trigger] slots[j];
            0 <= k < cur.len() && (cur[k].opcode != opcode::NOP ==> cur[k].result_id is Some)
        }
}

pub proof fn lemma_slots_start(insts: Seq<InstView>, types: Seq<InstView>, apart: Seq<u32>)
    requires
        all_defined(insts, types),
    ensures
        slots_have_ids(insts, slots(insts, types, apart)),
    decreases types.len(),
{
    if types.len() > 0 {
        let rest = types.drop_last();
        assert forall|k: int|
            0 <= k < rest.len() && (#[trigger] rest[k]).result_id is Some implies defs::has_def(
            insts,
            rest[k].result_id->0,
        ) by {
            assert(rest[k] == types[k]);
        }
        lemma_slots_start(insts, rest, apart);
        assert(types[types.len() - 1] == types.last());
        if let Some(id) = types.last().result_id {
            defs::lemma_last_def(insts, id);
        }
    }
}

/// Tells whether an id is listed.
pub(crate) fn lists_id(ids: &Vec<u32>, id: u32) -> (r: bool)
    ensures
        r == ids@.contains(id),
{
    for k in 0..ids.len()
        invariant
            forall|j: int| 0 <= j < k ==> ids@[j] != id,
    {
        if ids[k] == id {
            return true;
        }
    }
    false
}

/// Merges the types, constants and global variables that are declared more than
/// once into the first declaration, until no two are the same, and removes the
/// annotations about the dropped ones.
///
/// Types can refer to each other: merging two of them can make two others the
/// same, so every round starts over. Declarations without an id stay as they are.
pub fn remove_duplicate_types(module: SpvModule) -> (r: SpvModule)
    ensures
        r@ == with_distinct_types(module@),
{
    let none: Vec<u32> = Vec::new();
    assert(none@ =~= Seq::<u32>::empty());
    merge_types(module, &none)
}

/// Merges declarations as `remove_duplicate_types` does, but for those with the ids
/// `apart`: they are merged into no other, and no other is merged into them.
pub fn merge_types(module: SpvModule, apart: &Vec<u32>) -> (r: SpvModule)
    ensures
        r@ == with_merged_types(module@, apart@),
{
    let mut a = DefUseAnalyzer::new(module.all_insts());
    let mut dropped: Vec<u32> = Vec::new();
    let ghost all = module@.all_insts();
    let ghost places = slots(all, module@.types_global_values, apart@);
    let ghost goal = merged_insts(module@, apart@);
    proof {
        lemma_types_defined(module@);
        lemma_slots_start(all, module@.types_global_values, apart@);
        assert(dropped@ =~= Seq::<u32>::empty());
    }
    loop
        invariant
            a.wf(),
            a.start@ == all,
            a.insts().len() == all.len(),
            all_defined(all, module@.types_global_values),
            places == slots(all, module@.types_global_values, apart@),
            slots_have_ids(a.insts(), places),
            goal == merge_duplicates(all, a.insts(), places, dropped@),
        ensures
            goal == (a.insts(), dropped@),
        decreases live(a.insts()),
    {
        let ghost cur = a.insts();
        match find_duplicate(&a, &module.types_global_values, apart) {
            None => {
                break;
            },
            Some((b, k)) => {
                proof {
                    lemma_duplicate(cur, places);
                    lemma_merged_live(all, cur, b as int, k as int);
                    let i = choose|i: int| 0 <= i < places.len() && places[i] == b;
                    let j = choose|j: int| 0 <= j < places.len() && places[j] == k;
                    assert(places[i] == b && places[j] == k);
                }
                assert(cur[b as int] == a.instructions@[b as int]@);
                assert(cur[k as int] == a.instructions@[k as int]@);
                let before_id: u32 = a.instructions[b].result_id.unwrap();
                let after_id: u32 = a.instructions[k].result_id.unwrap();
                dropped.push(before_id);
                a.replace_each_use(before_id, after_id);
                let nop = SpvInst::new(bridge::op_nop(), None, None, Vec::new());
                assert(nop@ =~= nop_inst());
                a.instructions.set(b, nop);
                proof {
                    let next = merged(all, cur, b as int, k as int);
                    assert(a.insts() =~= next);
                    assert forall|j: int| 0 <= j < places.len() implies {
                        let k = #[trigger] places[j];
                        0 <= k < next.len() && (next[k].opcode != opcode::NOP
                            ==> next[k].result_id is Some)
                    } by {
                        let k = places[j];
                        assert(cur[k].opcode != opcode::NOP ==> cur[k].result_id is Some);
                    }
                }
            },
        }
    }
    let mut out = convert::load_instructions(&a.instructions);
    sweep::kill_all_annotations(&mut out, &dropped);
    out
}

/// The list of the instructions of a type holds the indices of those whose type it is,
/// ascending.
pub proof fn law_typed_by(insts: Seq<InstView>, id: u32)
    ensures
        forall|i: int| #[trigger]
            typed_by(insts, id).contains(i) <==> 0 <= i < insts.len() && insts[i].result_type
                == Some(id),
        forall|j: int, k: int|
            0 <= j < k < typed_by(insts, id).len() ==> typed_by(insts, id)[j] < typed_by(
                insts,
                id,
            )[k],
    decreases insts.len(),
{
    assert forall|i: int| #[trigger] typed_by(insts, id).contains(i) <==> 0 <= i < insts.len()
        && insts[i].result_type == Some(id) by {
        lemma_typed_by(insts, id, i);
    }
    if insts.len() > 0 {
        let rest = insts.drop_last();
        let p = typed_by(rest, id);
        law_typed_by(rest, id);
        assert forall|j: int, k: int| 0 <= j < k < typed_by(insts, id).len() implies typed_by(
            insts,
            id,
        )[j] < typed_by(insts, id)[k] by {
            assert(p.contains(p[j]));
        }
    }
}

/// Whether a list holds, for each operand of instructions that refers to `id`, the index
/// of its instruction, in the order of the operands, whose places are given.
pub open spec fn are_uses(
    insts: Seq<InstView>,
    id: u32,
    list: Seq<int>,
    places: Seq<int>,
) -> bool {
    &&& places.len() == list.len()
    &&& forall|k: int|
        0 <= k < list.len() ==> {
            &&& 0 <= #[trigger] list[k] < insts.len()
            &&& 0 <= places[k] < insts[list[k]].operands.len()
            &&& insts[list[k]].operands[places[k]].id() == Some(id)
        }
    &&& forall|j: int, k: int|
        #![trigger list[j], list[k]]
        0 <= j < k < list.len() ==> list[j] < list[k] || list[j] == list[k] && places[j]
            < places[k]
    &&& forall|i: int, p: int|
        #![trigger insts[i].operands[p]]
        0 <= i < insts.len() && 0 <= p < insts[i].operands.len() && insts[i].operands[p].id()
            == Some(id) ==> exists|k: int|
            0 <= k < list.len() && #[trigger] list[k] == i && places[k] == p
}

proof fn lemma_once_each_places(ops: Seq<OperandView>, id: u32, at: int) -> (places: Seq<int>)
    ensures
        places.len() == once_each(ops, id, at).len(),
        forall|k: int|
            0 <= k < places.len() ==> {
                &&& 0 <= #[trigger] places[k] < ops.len()
                &&& ops[places[k]].id() == Some(id)
                &&& once_each(ops, id, at)[k] == at
            },
        forall|j: int, k: int| 0 <= j < k < places.len() ==> places[j] < places[k],
        forall|p: int|
            0 <= p < ops.len() && (#[trigger] ops[p]).id() == Some(id) ==> places.contains(p),
    decreases ops.len(),
{
    if ops.len() == 0 {
        Seq::empty()
    } else {
        let rest = ops.drop_last();
        let n = ops.len() - 1;
        let before = lemma_once_each_places(rest, id, at);
        let places = if ops.last().id() == Some(id) {
            before.push(n)
        } else {
            before
        };
        assert forall|k: int| 0 <= k < places.len() implies {
            &&& 0 <= #[trigger] places[k] < ops.len()
            &&& ops[places[k]].id() == Some(id)
            &&& once_each(ops, id, at)[k] == at
        } by {
            if k < before.len() {
                assert(before[k] == places[k]);
                assert(rest[before[k]] == ops[before[k]]);
            }
        }
        assert forall|p: int| 0 <= p < ops.len() && (#[trigger] ops[p]).id() == Some(id) implies places.contains(
            p,
        ) by {
            if p < n {
                assert(rest[p] == ops[p]);
                let k = choose|k: int| 0 <= k < before.len() && before[k] == p;
                assert(places[k] == p);
            } else {
                assert(places[before.len() as int] == p);
            }
        }
        places
    }
}

/// The list of the uses of an id holds the index of an instruction for each of its
/// operands that refers to the id, in their order.
pub proof fn law_used_by(insts: Seq<InstView>, id: u32) -> (places: Seq<int>)
    ensures
        are_uses(insts, id, used_by(insts, id), places),
    decreases insts.len(),
{
    if insts.len() == 0 {
        Seq::empty()
    } else {
        let rest = insts.drop_last();
        let n = insts.len() - 1;
        let ops = insts.last().operands;
        let before = law_used_by(rest, id);
        let more = lemma_once_each_places(ops, id, n);
        let a = used_by(rest, id);
        let b = once_each(ops, id, n);
        let list = used_by(insts, id);
        let places = before + more;
        assert(list == a + b);
        assert forall|k: int| 0 <= k < list.len() implies {
            &&& 0 <= #[trigger] list[k] < insts.len()
            &&& 0 <= places[k] < insts[list[k]].operands.len()
            &&& insts[list[k]].operands[places[k]].id() == Some(id)
        } by {
            if k < a.len() {
                assert(list[k] == a[k]);
                assert(rest[a[k]] == insts[a[k]]);
            } else {
                assert(list[k] == b[k - a.len()]);
                assert(places[k] == more[k - a.len()]);
            }
        }
        assert forall|j: int, k: int|
            #![trigger list[j], list[k]]
            0 <= j < k < list.len() implies list[j] < list[k] || list[j] == list[k] && places[j]
            < places[k] by {
            if k < a.len() {
                assert(list[j] == a[j] && list[k] == a[k]);
            } else if j < a.len() {
                assert(list[j] == a[j] && list[k] == b[k - a.len()]);
                assert(more[k - a.len()] >= 0);
            } else {
                assert(more[j - a.len()] < more[k - a.len()]);
                assert(list[j] == b[j - a.len()] && list[k] == b[k - a.len()]);
            }
        }
        assert forall|i: int, p: int|
            #![trigger insts[i].operands[p]]
            0 <= i < insts.len() && 0 <= p < insts[i].operands.len() && insts[i].operands[p].id()
                == Some(id) implies exists|k: int|
            0 <= k < list.len() && #[trigger] list[k] == i && places[k] == p by {
            if i < n {
                assert(rest[i].operands[p] == insts[i].operands[p]);
                let k = choose|k: int| 0 <= k < a.len() && #[trigger] a[k] == i && before[k] == p;
                assert(list[k] == i && places[k] == p);
            } else {
                assert(ops[p].id() == Some(id));
                let k = choose|k: int| 0 <= k < more.len() && more[k] == p;
                assert(places[a.len() + k] == p);
                assert(list[a.len() + k] == b[k]);
            }
        }
        places
    }
}

} // verus!
