//! Passes that rename ids throughout a module.

use vstd::prelude::*;

use crate::model;
use crate::model::{
    InstView, ModuleView, OperandView, SpvBlock, SpvFunction, SpvInst, SpvModule, SpvOperand,
};
use std::collections::HashMap;

verus! {

/// A way to rename ids: what an id becomes where it is defined, and what it
/// becomes where it is used.
pub trait Renaming {
    spec fn def(&self, id: u32) -> u32;

    spec fn used(&self, id: u32) -> u32;

    /// The ids that can be renamed.
    spec fn covers(&self, id: u32) -> bool;

    fn rename_def(&self, id: u32) -> (r: u32)
        requires
            self.covers(id),
        ensures
            r == self.def(id),
    ;

    fn rename_use(&self, id: u32) -> (r: u32)
        requires
            self.covers(id),
        ensures
            r == self.used(id),
    ;
}

/// An instruction under a renaming.
pub open spec fn renamed<R: Renaming>(r: &R, inst: InstView) -> InstView {
    inst.renamed(|id: u32| r.def(id), |id: u32| r.used(id))
}

/// Whether all ids of an instruction can be renamed.
pub open spec fn covered<R: Renaming>(r: &R, inst: InstView) -> bool {
    forall|id: u32| #[trigger] inst.mentions(id) ==> r.covers(id)
}

/// Renames the ids of an instruction.
fn rename_inst<R: Renaming>(inst: &mut SpvInst, r: &R)
    requires
        covered(r, old(inst)@),
    ensures
        final(inst)@ == renamed(r, old(inst)@),
{
    let ghost start = inst@;
    if let Some(id) = inst.result_id {
        assert(start.mentions(id));
        inst.result_id = Some(r.rename_def(id));
    }
    if let Some(id) = inst.result_type {
        assert(start.mentions(id));
        inst.result_type = Some(r.rename_use(id));
    }
    let n: usize = inst.operands.len();
    for i in 0..n
        invariant
            n == inst.operands@.len(),
            n == start.operands.len(),
            covered(r, start),
            inst@.opcode == start.opcode,
            inst@.result_id == model::opt_map(start.result_id, |id: u32| r.def(id)),
            inst@.result_type == model::opt_map(start.result_type, |id: u32| r.used(id)),
            forall|j: int|
                0 <= j < i ==> (#[trigger] inst.operands@[j])@ == start.operands[j].renamed(
                    |id: u32| r.used(id),
                ),
            forall|j: int| i <= j < n ==> (#[trigger] inst.operands@[j])@ == start.operands[j],
    {
        assert(inst.operands@[i as int]@ == start.operands[i as int]);
        if let Some(id) = inst.operands[i].id() {
            assert(start.operand_uses(id));
            assert(start.mentions(id));
            let new_id: u32 = r.rename_use(id);
            let op: SpvOperand = match &inst.operands[i] {
                SpvOperand::IdMemorySemantics(_) => SpvOperand::IdMemorySemantics(new_id),
                SpvOperand::IdScope(_) => SpvOperand::IdScope(new_id),
                _ => SpvOperand::IdRef(new_id),
            };
            inst.operands.set(i, op);
        }
    }
    assert(inst@ =~= renamed(r, start));
}

/// Renames the ids of a section.
fn rename_section<R: Renaming>(v: &mut Vec<SpvInst>, r: &R)
    requires
        model::each(model::views(old(v)@), |i: InstView| covered(r, i)),
    ensures
        model::views(final(v)@) == model::views(old(v)@).map_values(|i: InstView| renamed(r, i)),
{
    let ghost start = model::views(v@);
    let n: usize = v.len();
    for i in 0..n
        invariant
            n == v@.len(),
            n == start.len(),
            model::each(start, |i: InstView| covered(r, i)),
            forall|j: int| 0 <= j < i ==> (#[trigger] v@[j])@ == renamed(r, start[j]),
            forall|j: int| i <= j < n ==> (#[trigger] v@[j])@ == start[j],
    {
        assert(v@[i as int]@ == start[i as int]);
        rename_inst(&mut v[i], r);
    }
    assert(model::views(v@) =~= start.map_values(|i: InstView| renamed(r, i)));
}

/// Renames the ids of an instruction that may be missing.
fn rename_option<R: Renaming>(o: &mut Option<SpvInst>, r: &R)
    requires
        *old(o) is Some ==> covered(r, old(o)->0@),
    ensures
        model::opt_view(*final(o)) == model::opt_map(
            model::opt_view(*old(o)),
            |i: InstView| renamed(r, i),
        ),
{
    match o {
        Some(inst) => rename_inst(inst, r),
        None => {},
    }
}

/// Renames the ids of a block.
fn rename_block<R: Renaming>(b: &mut SpvBlock, r: &R)
    requires
        old(b)@.every(|i: InstView| covered(r, i)),
    ensures
        final(b)@ == old(b)@.map_insts(|i: InstView| renamed(r, i)),
{
    rename_option(&mut b.label, r);
    rename_section(&mut b.instructions, r);
}

/// Renames the ids of a function.
fn rename_function<R: Renaming>(f: &mut SpvFunction, r: &R)
    requires
        old(f)@.every(|i: InstView| covered(r, i)),
    ensures
        final(f)@ == old(f)@.map_insts(|i: InstView| renamed(r, i)),
{
    let ghost p = |i: InstView| covered(r, i);
    let ghost g = |i: InstView| renamed(r, i);
    let ghost start = f@;
    rename_option(&mut f.def, r);
    rename_option(&mut f.end, r);
    rename_section(&mut f.parameters, r);
    let n: usize = f.blocks.len();
    for i in 0..n
        invariant
            n == f.blocks@.len(),
            n == start.blocks.len(),
            p == (|i: InstView| covered(r, i)),
            g == (|i: InstView| renamed(r, i)),
            start.every(p),
            f@.def == model::opt_map(start.def, g),
            f@.end == model::opt_map(start.end, g),
            f@.parameters == start.parameters.map_values(g),
            forall|j: int| 0 <= j < i ==> (#[trigger] f.blocks@[j])@ == start.blocks[j].map_insts(g),
            forall|j: int| i <= j < n ==> (#[trigger] f.blocks@[j])@ == start.blocks[j],
    {
        assert(f.blocks@[i as int]@ == start.blocks[i as int]);
        rename_block(&mut f.blocks[i], r);
    }
    assert(f@ =~= start.map_insts(g));
}

/// Renames the ids of a module.
pub fn rename_module<R: Renaming>(m: &mut SpvModule, r: &R)
    requires
        old(m)@.every(|i: InstView| covered(r, i)),
    ensures
        final(m)@ == old(m)@.map_insts(|i: InstView| renamed(r, i)),
{
    let ghost p = |i: InstView| covered(r, i);
    let ghost g = |i: InstView| renamed(r, i);
    let ghost start = m@;
    rename_section(&mut m.capabilities, r);
    rename_section(&mut m.extensions, r);
    rename_section(&mut m.ext_inst_imports, r);
    rename_option(&mut m.memory_model, r);
    rename_section(&mut m.entry_points, r);
    rename_section(&mut m.execution_modes, r);
    rename_section(&mut m.debug_string_source, r);
    rename_section(&mut m.debug_names, r);
    rename_section(&mut m.debug_module_processed, r);
    rename_section(&mut m.annotations, r);
    rename_section(&mut m.types_global_values, r);
    let ghost half = m@;
    let n: usize = m.functions.len();
    for i in 0..n
        invariant
            n == m.functions@.len(),
            n == start.functions.len(),
            p == (|i: InstView| covered(r, i)),
            g == (|i: InstView| renamed(r, i)),
            start.every(p),
            half == (ModuleView { functions: start.functions, ..start.map_insts(g) }),
            m@ == (ModuleView { functions: m@.functions, ..half }),
            forall|j: int|
                0 <= j < i ==> (#[trigger] m.functions@[j])@ == start.functions[j].map_insts(g),
            forall|j: int| i <= j < n ==> (#[trigger] m.functions@[j])@ == start.functions[j],
    {
        assert(m.functions@[i as int]@ == start.functions[i as int]);
        rename_function(&mut m.functions[i], r);
    }
    assert(m@.functions =~= start.map_insts(g).functions);
}

/// Adds a constant to every id.
pub struct Shift {
    pub add: u32,
}

impl Renaming for Shift {
    open spec fn def(&self, id: u32) -> u32 {
        (id + self.add) as u32
    }

    open spec fn used(&self, id: u32) -> u32 {
        (id + self.add) as u32
    }

    open spec fn covers(&self, id: u32) -> bool {
        id + self.add <= u32::MAX
    }

    fn rename_def(&self, id: u32) -> (r: u32) {
        id + self.add
    }

    fn rename_use(&self, id: u32) -> (r: u32) {
        id + self.add
    }
}

/// Replaces the uses of one id by another; definitions stay.
pub struct Replace {
    pub before: u32,
    pub after: u32,
}

impl Renaming for Replace {
    open spec fn def(&self, id: u32) -> u32 {
        id
    }

    open spec fn used(&self, id: u32) -> u32 {
        if id == self.before {
            self.after
        } else {
            id
        }
    }

    open spec fn covers(&self, id: u32) -> bool {
        true
    }

    fn rename_def(&self, id: u32) -> (r: u32) {
        id
    }

    fn rename_use(&self, id: u32) -> (r: u32) {
        if id == self.before {
            self.after
        } else {
            id
        }
    }
}

/// The module with `add` added to every id.
pub open spec fn shifted(m: ModuleView, add: u32) -> ModuleView {
    m.map_insts(|i: InstView| renamed(&Shift { add }, i))
}

/// Whether `add` can be added to every id of the module.
pub open spec fn shiftable(m: ModuleView, add: u32) -> bool {
    m.every(|i: InstView| covered(&Shift { add }, i))
}

/// An instruction with the uses of `before` replaced by `after`.
pub open spec fn replaced(i: InstView, before: u32, after: u32) -> InstView {
    renamed(&Replace { before, after }, i)
}

/// The module with the uses of `before` replaced by `after`.
pub open spec fn replaced_all(m: ModuleView, before: u32, after: u32) -> ModuleView {
    m.map_insts(|i: InstView| replaced(i, before, after))
}

/// Tells whether `add` can be added to every id of the module.
pub fn can_shift(module: &SpvModule, add: u32) -> (r: bool)
    ensures
        r == shiftable(module@, add),
{
    let insts = module.all_insts();
    let shift = Shift { add };
    let ghost all = module@.all_insts();
    let ghost p = |i: InstView| covered(&shift, i);
    proof {
        model::lemma_every(module@, p);
        assert(p =~= (|i: InstView| covered(&Shift { add }, i)));
    }
    for k in 0..insts.len()
        invariant
            all == model::views(insts@),
            shift.add == add,
            p == (|i: InstView| covered(&shift, i)),
            forall|j: int| 0 <= j < k ==> p(#[trigger] all[j]),
            shiftable(module@, add) == model::each(all, p),
    {
        let inst = &insts[k];
        let ghost here = all[k as int];
        assert(here == inst@);
        let mut fits = true;
        if let Some(id) = inst.result_id {
            fits = fits && id <= u32::MAX - add;
        }
        if let Some(id) = inst.result_type {
            fits = fits && id <= u32::MAX - add;
        }
        let ghost head = fits;
        for j in 0..inst.operands.len()
            invariant
                here == inst@,
                fits == (head && forall|l: int|
                    0 <= l < j ==> ((#[trigger] here.operands[l]).id() matches Some(w) ==> w <= u32::MAX
                        - add)),
        {
            assert(here.operands[j as int] == inst.operands@[j as int]@);
            if let Some(id) = inst.operands[j].id() {
                fits = fits && id <= u32::MAX - add;
            }
        }
        proof {
            if p(here) {
                if here.result_id is Some {
                    assert(here.mentions(here.result_id->0));
                }
                if here.result_type is Some {
                    assert(here.mentions(here.result_type->0));
                }
                assert forall|l: int| 0 <= l < here.operands.len() implies ((
                #[trigger] here.operands[l]).id() matches Some(w) ==> w <= u32::MAX - add) by {
                    if here.operands[l].id() is Some {
                        let w = here.operands[l].id()->0;
                        assert(here.operand_uses(w));
                        assert(here.mentions(w));
                    }
                }
            }
            if fits {
                assert forall|id: u32| #[trigger] here.mentions(id) implies shift.covers(id) by {
                    if here.operand_uses(id) {
                        let l = choose|l: int|
                            0 <= l < here.operands.len() && (#[trigger] here.operands[l]).id()
                                == Some(id);
                    }
                }
            }
        }
        if !fits {
            return false;
        }
    }
    true
}

/// Adds `add` to every id of the module.
pub fn shift_ids(module: &mut SpvModule, add: u32)
    requires
        shiftable(old(module)@, add),
    ensures
        final(module)@ == shifted(old(module)@, add),
{
    rename_module(module, &Shift { add });
}

/// Replacing an id a second time changes nothing.
pub proof fn lemma_replaced_twice(i: InstView, before: u32, after: u32)
    ensures
        replaced(replaced(i, before, after), before, after) == replaced(i, before, after),
{
    let once = replaced(i, before, after);
    assert(replaced(once, before, after).operands =~= once.operands);
}

/// Replaces the uses of `before` in one instruction by `after`.
pub fn replace_uses(inst: &mut SpvInst, before: u32, after: u32)
    ensures
        final(inst)@ == replaced(old(inst)@, before, after),
{
    rename_inst(inst, &Replace { before, after });
}

/// Replaces every use of `before`, as a type or as an operand, by `after`.
pub fn replace_all_uses_with(module: &mut SpvModule, before: u32, after: u32)
    ensures
        final(module)@ == replaced_all(old(module)@, before, after),
{
    let r = Replace { before, after };
    proof {
        let p = |i: InstView| covered(&r, i);
        model::lemma_every(module@, p);
        assert((|i: InstView| renamed(&r, i)) =~= (|i: InstView| replaced(i, before, after)));
    }
    rename_module(module, &r);
}

/// The module with the uses of the first id of each pair replaced by the second,
/// pair after pair.
pub open spec fn replaced_pairs(m: ModuleView, pairs: Seq<(u32, u32)>) -> ModuleView
    decreases pairs.len(),
{
    if pairs.len() == 0 {
        m
    } else {
        replaced_all(replaced_pairs(m, pairs.drop_last()), pairs.last().0, pairs.last().1)
    }
}

/// An instruction with the uses of the first id of each pair replaced by the second,
/// pair after pair.
pub open spec fn replaced_by(i: InstView, pairs: Seq<(u32, u32)>) -> InstView
    decreases pairs.len(),
{
    if pairs.len() == 0 {
        i
    } else {
        replaced(replaced_by(i, pairs.drop_last()), pairs.last().0, pairs.last().1)
    }
}

/// Replacing ids in a module replaces them in each instruction.
pub proof fn lemma_replaced_pairs(m: ModuleView, pairs: Seq<(u32, u32)>)
    ensures
        replaced_pairs(m, pairs) == m.map_insts(|i: InstView| replaced_by(i, pairs)),
    decreases pairs.len(),
{
    let f = |i: InstView| replaced_by(i, pairs);
    if pairs.len() == 0 {
        assert(f =~= (|i: InstView| i));
        model::lemma_map_identity(m);
    } else {
        let rest = pairs.drop_last();
        let last = pairs.last();
        let g = |i: InstView| replaced_by(i, rest);
        let h = |i: InstView| replaced(i, last.0, last.1);
        lemma_replaced_pairs(m, rest);
        model::lemma_map_twice(m, g, h);
        assert(f =~= (|i: InstView| h(g(i))));
    }
}

/// What becomes of an id where the first id of each pair is replaced by the second,
/// pair after pair.
pub open spec fn followed(pairs: Seq<(u32, u32)>, id: u32) -> u32
    decreases pairs.len(),
{
    if pairs.len() == 0 {
        id
    } else {
        let before = followed(pairs.drop_last(), id);
        if before == pairs.last().0 {
            pairs.last().1
        } else {
            before
        }
    }
}

/// Replacing ids pair after pair replaces each id that an instruction refers to by
/// what becomes of it.
pub proof fn lemma_followed(i: InstView, pairs: Seq<(u32, u32)>)
    ensures
        replaced_by(i, pairs) == i.renamed(|x: u32| x, |x: u32| followed(pairs, x)),
    decreases pairs.len(),
{
    let r = i.renamed(|x: u32| x, |x: u32| followed(pairs, x));
    if pairs.len() == 0 {
        assert(r.operands =~= i.operands);
        assert(r =~= i);
    } else {
        let rest = pairs.drop_last();
        lemma_followed(i, rest);
        assert(replaced_by(i, pairs).operands =~= r.operands);
        assert(replaced_by(i, pairs) =~= r);
    }
}

/// Where no second id is also a first one, an id that is no first one stays, and any
/// other becomes the second id of one of its pairs.
pub proof fn lemma_followed_once(pairs: Seq<(u32, u32)>, id: u32)
    requires
        forall|i: int, j: int|
            #![trigger pairs[i], pairs[j]]
            0 <= i < pairs.len() && 0 <= j < pairs.len() ==> pairs[i].0 != pairs[j].1,
    ensures
        (exists|k: int| 0 <= k < pairs.len() && (#[trigger] pairs[k]).0 == id) ==> exists|k: int|
            0 <= k < pairs.len() && (#[trigger] pairs[k]).0 == id && followed(pairs, id)
                == pairs[k].1,
        (forall|k: int| 0 <= k < pairs.len() ==> (#[trigger] pairs[k]).0 != id) ==> followed(
            pairs,
            id,
        ) == id,
    decreases pairs.len(),
{
    if pairs.len() > 0 {
        let rest = pairs.drop_last();
        let n = pairs.len() - 1;
        assert forall|i: int, j: int|
            #![trigger rest[i], rest[j]]
            0 <= i < rest.len() && 0 <= j < rest.len() implies rest[i].0 != rest[j].1 by {
            assert(pairs[i] == rest[i] && pairs[j] == rest[j]);
        }
        lemma_followed_once(rest, id);
        assert(pairs[n] == pairs.last());
        if exists|k: int| 0 <= k < rest.len() && (#[trigger] rest[k]).0 == id {
            let k = choose|k: int|
                0 <= k < rest.len() && (#[trigger] rest[k]).0 == id && followed(rest, id)
                    == rest[k].1;
            assert(pairs[k] == rest[k]);
            assert(pairs[n].0 != pairs[k].1);
        } else {
            assert forall|k: int| 0 <= k < rest.len() implies (#[trigger] rest[k]).0 != id by {}
            assert(followed(rest, id) == id);
            if pairs[n].0 != id {
                assert forall|k: int| 0 <= k < pairs.len() implies (#[trigger] pairs[k]).0 != id by {
                    if k < n {
                        assert(rest[k] == pairs[k]);
                    }
                }
            }
        }
    }
}

/// Replacing ids leaves the opcode, the id and the number of operands of an
/// instruction, and all operands that are no ids.
pub proof fn lemma_replaced_by(i: InstView, pairs: Seq<(u32, u32)>)
    ensures
        replaced_by(i, pairs).opcode == i.opcode,
        replaced_by(i, pairs).result_id == i.result_id,
        replaced_by(i, pairs).operands.len() == i.operands.len(),
        forall|k: int|
            0 <= k < i.operands.len() && (#[trigger] i.operands[k]).id() is None ==> replaced_by(
                i,
                pairs,
            ).operands[k] == i.operands[k],
        forall|k: int|
            0 <= k < i.operands.len() && (#[trigger] i.operands[k]) is IdRef ==> replaced_by(
                i,
                pairs,
            ).operands[k] is IdRef,
    decreases pairs.len(),
{
    if pairs.len() > 0 {
        lemma_replaced_by(i, pairs.drop_last());
    }
}

/// Replaces the uses of the first id of each pair by the second.
pub fn replace_pairs(module: &mut SpvModule, pairs: &Vec<(u32, u32)>)
    ensures
        final(module)@ == replaced_pairs(old(module)@, pairs@),
{
    assert(pairs@.take(0) =~= Seq::empty());
    for j in 0..pairs.len()
        invariant
            module@ == replaced_pairs(old(module)@, pairs@.take(j as int)),
    {
        replace_all_uses_with(module, pairs[j].0, pairs[j].1);
        assert(pairs@.take(j + 1).drop_last() =~= pairs@.take(j as int));
    }
    assert(pairs@.take(pairs@.len() as int) =~= pairs@);
}

/// The ids that operands refer to, in order.
pub open spec fn operand_ids(operands: Seq<OperandView>) -> Seq<u32>
    decreases operands.len(),
{
    if operands.len() == 0 {
        Seq::empty()
    } else {
        operand_ids(operands.drop_last()) + model::opt_seq(operands.last().id())
    }
}

/// The ids of an instruction: its result, its type and its operands.
pub open spec fn inst_ids(i: InstView) -> Seq<u32> {
    model::opt_seq(i.result_id) + model::opt_seq(i.result_type) + operand_ids(i.operands)
}

/// The ids of a sequence of instructions, in order.
pub open spec fn id_list(insts: Seq<InstView>) -> Seq<u32>
    decreases insts.len(),
{
    if insts.len() == 0 {
        Seq::empty()
    } else {
        id_list(insts.drop_last()) + inst_ids(insts.last())
    }
}

/// The different ids of a list, in the order in which they first occur.
pub open spec fn first_seen(ids: Seq<u32>) -> Seq<u32>
    decreases ids.len(),
{
    if ids.len() == 0 {
        Seq::empty()
    } else {
        let p = first_seen(ids.drop_last());
        if p.contains(ids.last()) {
            p
        } else {
            p.push(ids.last())
        }
    }
}

/// The different ids of a module, in the order in which they first occur.
pub open spec fn ids_in_order(m: ModuleView) -> Seq<u32> {
    first_seen(id_list(m.all_insts()))
}

/// The number of an id: 1 for the first that occurs, 2 for the second, and so on.
pub open spec fn number_in(order: Seq<u32>, id: u32) -> u32 {
    (order.index_of(id) + 1) as u32
}

/// The module with each id replaced by its number.
pub open spec fn compacted(m: ModuleView) -> ModuleView {
    let order = ids_in_order(m);
    m.map_insts(
        |i: InstView| i.renamed(|id: u32| number_in(order, id), |id: u32| number_in(order, id)),
    )
}

/// Whether the numbers of the module's ids, and the bound above them, fit a word.
pub open spec fn numberable(m: ModuleView) -> bool {
    ids_in_order(m).len() < u32::MAX
}

pub proof fn lemma_operand_ids(operands: Seq<OperandView>, id: u32)
    ensures
        operand_ids(operands).contains(id) <==> exists|i: int|
            0 <= i < operands.len() && (#[trigger] operands[i]).id() == Some(id),
    decreases operands.len(),
{
    if operands.len() > 0 {
        let rest = operands.drop_last();
        let last = model::opt_seq(operands.last().id());
        lemma_operand_ids(rest, id);
        assert(operand_ids(operands) == operand_ids(rest) + last);
        if operand_ids(operands).contains(id) {
            let k = choose|k: int|
                0 <= k < operand_ids(operands).len() && operand_ids(operands)[k] == id;
            if k < operand_ids(rest).len() {
                assert(operand_ids(rest)[k] == id);
                let i = choose|i: int| 0 <= i < rest.len() && (#[trigger] rest[i]).id() == Some(id);
                assert(operands[i].id() == Some(id));
            } else {
                assert(last[k - operand_ids(rest).len()] == id);
                assert(operands[operands.len() - 1].id() == Some(id));
            }
        }
        if exists|i: int| 0 <= i < operands.len() && (#[trigger] operands[i]).id() == Some(id) {
            let i = choose|i: int|
                0 <= i < operands.len() && (#[trigger] operands[i]).id() == Some(id);
            if i < rest.len() {
                assert(rest[i].id() == Some(id));
                let k = choose|k: int|
                    0 <= k < operand_ids(rest).len() && operand_ids(rest)[k] == id;
                assert(operand_ids(operands)[k] == id);
            } else {
                assert(operand_ids(operands)[operand_ids(rest).len() as int] == id);
            }
        }
    }
}

/// `inst_ids` lists exactly the ids that an instruction mentions.
pub proof fn lemma_inst_ids(i: InstView, id: u32)
    ensures
        inst_ids(i).contains(id) <==> i.mentions(id),
{
    lemma_operand_ids(i.operands, id);
    let a = model::opt_seq(i.result_id);
    let b = model::opt_seq(i.result_type);
    let c = operand_ids(i.operands);
    if inst_ids(i).contains(id) {
        let k = choose|k: int| 0 <= k < inst_ids(i).len() && inst_ids(i)[k] == id;
        if k >= a.len() + b.len() {
            assert(c[k - a.len() - b.len()] == id);
        }
    }
    if i.mentions(id) {
        if i.result_id == Some(id) {
            assert(inst_ids(i)[0] == id);
        } else if i.result_type == Some(id) {
            assert(inst_ids(i)[a.len() as int] == id);
        } else {
            let k = choose|k: int| 0 <= k < c.len() && c[k] == id;
            assert(inst_ids(i)[a.len() + b.len() + k] == id);
        }
    }
}

/// `id_list` lists exactly the ids that the instructions mention.
pub proof fn lemma_id_list(insts: Seq<InstView>, id: u32)
    ensures
        id_list(insts).contains(id) <==> exists|k: int|
            0 <= k < insts.len() && (#[trigger] insts[k]).mentions(id),
    decreases insts.len(),
{
    if insts.len() > 0 {
        let rest = insts.drop_last();
        lemma_id_list(rest, id);
        lemma_inst_ids(insts.last(), id);
        let a = id_list(rest);
        let b = inst_ids(insts.last());
        assert(id_list(insts) == a + b);
        if id_list(insts).contains(id) {
            let k = choose|k: int| 0 <= k < (a + b).len() && (a + b)[k] == id;
            if k < a.len() {
                assert(a[k] == id);
                let j = choose|j: int| 0 <= j < rest.len() && (#[trigger] rest[j]).mentions(id);
                assert(insts[j].mentions(id));
            } else {
                assert(b[k - a.len()] == id);
                assert(insts[insts.len() - 1].mentions(id));
            }
        }
        if exists|k: int| 0 <= k < insts.len() && (#[trigger] insts[k]).mentions(id) {
            let k = choose|k: int| 0 <= k < insts.len() && (#[trigger] insts[k]).mentions(id);
            if k < rest.len() {
                assert(rest[k].mentions(id));
                let j = choose|j: int| 0 <= j < a.len() && a[j] == id;
                assert((a + b)[j] == id);
            } else {
                let j = choose|j: int| 0 <= j < b.len() && b[j] == id;
                assert((a + b)[a.len() + j] == id);
            }
        }
    }
}

/// `first_seen` has the elements of the list, each of them once.
pub proof fn lemma_first_seen(ids: Seq<u32>)
    ensures
        first_seen(ids).no_duplicates(),
        forall|id: u32|
            #![trigger first_seen(ids).contains(id)]
            #![trigger ids.contains(id)]
            first_seen(ids).contains(id) <==> ids.contains(id),
    decreases ids.len(),
{
    if ids.len() > 0 {
        let rest = ids.drop_last();
        let p = first_seen(rest);
        lemma_first_seen(rest);
        assert forall|id: u32| first_seen(ids).contains(id) <==> ids.contains(id) by {
            if ids.contains(id) {
                let k = choose|k: int| 0 <= k < ids.len() && ids[k] == id;
                if k < rest.len() {
                    assert(rest[k] == id);
                    assert(rest.contains(id) && first_seen(rest).contains(id));
                    let j = choose|j: int| 0 <= j < p.len() && p[j] == id;
                    assert(first_seen(ids)[j] == id);
                } else if !p.contains(id) {
                    assert(first_seen(ids)[p.len() as int] == id);
                }
            }
            if first_seen(ids).contains(id) {
                let j = choose|j: int| 0 <= j < first_seen(ids).len() && first_seen(ids)[j] == id;
                if j < p.len() {
                    assert(p[j] == id);
                    assert(first_seen(rest).contains(id) && rest.contains(id));
                    let k = choose|k: int| 0 <= k < rest.len() && rest[k] == id;
                    assert(ids[k] == id);
                }
            }
        }
    }
}

/// Gives each id the number under which a table holds it.
pub struct Numbering {
    pub numbers: HashMap<u32, u32>,
}

impl Numbering {
    /// Whether the table numbers the ids of `order` from 1 on.
    pub open spec fn follows(&self, order: Seq<u32>) -> bool {
        &&& order.no_duplicates()
        &&& self.numbers@.len() == order.len()
        &&& forall|id: u32| #[trigger] self.numbers@.contains_key(id) <==> order.contains(id)
        &&& forall|k: int|
            0 <= k < order.len() ==> self.numbers@[#[trigger] order[k]] as int == k + 1
    }

    /// Adds an id that may be new. The answer is whether the table has room.
    fn insert(&mut self, id: u32, Ghost(ids): Ghost<Seq<u32>>) -> (r: bool)
        requires
            old(self).follows(first_seen(ids)),
            first_seen(ids).len() < u32::MAX,
        ensures
            r == (first_seen(ids.push(id)).len() < u32::MAX),
            r ==> final(self).follows(first_seen(ids.push(id))),
    {
        broadcast use vstd::std_specs::hash::group_hash_axioms;

        let ghost order = first_seen(ids);
        assert(ids.push(id).drop_last() =~= ids);
        assert(ids.push(id).last() == id);
        if self.numbers.contains_key(&id) {
            return true;
        }
        let n: usize = self.numbers.len();
        if n >= u32::MAX as usize - 1 {
            return false;
        }
        let number: u32 = n as u32 + 1;
        self.numbers.insert(id, number);
        proof {
            let next = order.push(id);
            assert forall|x: u32| #[trigger] self.numbers@.contains_key(x) <==> next.contains(x) by {
                if order.contains(x) {
                    let j = choose|j: int| 0 <= j < order.len() && order[j] == x;
                    assert(next[j] == x);
                }
                if x == id {
                    assert(next[order.len() as int] == x);
                }
                if next.contains(x) && x != id {
                    let j = choose|j: int| 0 <= j < next.len() && next[j] == x;
                    assert(order[j] == x);
                }
            }
            assert forall|k: int| 0 <= k < next.len() implies self.numbers@[#[trigger] next[k]] as int
                == k + 1 by {
                if k < order.len() {
                    assert(order.contains(order[k]));
                }
            }
        }
        true
    }
}

impl Renaming for Numbering {
    open spec fn def(&self, id: u32) -> u32 {
        self.numbers@[id]
    }

    open spec fn used(&self, id: u32) -> u32 {
        self.numbers@[id]
    }

    open spec fn covers(&self, id: u32) -> bool {
        self.numbers@.contains_key(id)
    }

    fn rename_def(&self, id: u32) -> (r: u32) {
        broadcast use vstd::std_specs::hash::group_hash_axioms;

        *self.numbers.get(&id).unwrap()
    }

    fn rename_use(&self, id: u32) -> (r: u32) {
        broadcast use vstd::std_specs::hash::group_hash_axioms;

        *self.numbers.get(&id).unwrap()
    }
}

/// Appends the ids of an instruction.
fn append_ids(out: &mut Vec<u32>, inst: &SpvInst)
    ensures
        final(out)@ == old(out)@ + inst_ids(inst@),
{
    if let Some(id) = inst.result_id {
        out.push(id);
    }
    if let Some(id) = inst.result_type {
        out.push(id);
    }
    let ghost ops = inst@.operands;
    let ghost head = old(out)@ + model::opt_seq(inst.result_id) + model::opt_seq(inst.result_type);
    assert(out@ =~= head + operand_ids(ops.take(0)));
    for j in 0..inst.operands.len()
        invariant
            ops == inst@.operands,
            out@ == head + operand_ids(ops.take(j as int)),
    {
        assert(ops.take(j + 1).drop_last() =~= ops.take(j as int));
        assert(ops.take(j + 1).last() == ops[j as int]);
        if let Some(id) = inst.operands[j].id() {
            out.push(id);
        }
        assert(out@ =~= head + operand_ids(ops.take(j + 1)));
    }
    assert(ops.take(ops.len() as int) =~= ops);
    assert(out@ =~= old(out)@ + inst_ids(inst@));
}

/// The ids of a module, in order.
fn list_ids(m: &SpvModule) -> (r: Vec<u32>)
    ensures
        r@ == id_list(m@.all_insts()),
{
    let insts = m.all_insts();
    let ghost all = m@.all_insts();
    let mut out: Vec<u32> = Vec::new();
    assert(out@ =~= id_list(all.take(0)));
    for k in 0..insts.len()
        invariant
            all == model::views(insts@),
            out@ == id_list(all.take(k as int)),
    {
        append_ids(&mut out, &insts[k]);
        assert(all.take(k + 1).drop_last() =~= all.take(k as int));
        assert(all.take(k + 1).last() == insts@[k as int]@);
    }
    assert(all.take(insts@.len() as int) =~= all);
    out
}

proof fn lemma_first_seen_prefix(ids: Seq<u32>, k: int)
    requires
        0 <= k <= ids.len(),
    ensures
        first_seen(ids.take(k)).len() <= first_seen(ids).len(),
    decreases ids.len() - k,
{
    if k < ids.len() {
        assert(ids.take(k + 1).drop_last() =~= ids.take(k));
        lemma_first_seen_prefix(ids, k + 1);
    } else {
        assert(ids.take(k) =~= ids);
    }
}

/// Numbers the ids of a module in the order in which they first occur, unless
/// there are more than a word can number.
fn number_ids(m: &SpvModule) -> (r: Option<Numbering>)
    ensures
        r is Some <==> numberable(m@),
        r is Some ==> r->0.follows(ids_in_order(m@)),
{
    broadcast use vstd::std_specs::hash::group_hash_axioms;

    let list = list_ids(m);
    let ghost ids = list@;
    let mut table = Numbering { numbers: HashMap::new() };
    for k in 0..list.len()
        invariant
            ids == list@,
            ids == id_list(m@.all_insts()),
            first_seen(ids.take(k as int)).len() < u32::MAX,
            table.follows(first_seen(ids.take(k as int))),
    {
        let fits = table.insert(list[k], Ghost(ids.take(k as int)));
        assert(ids.take(k as int).push(ids[k as int]) =~= ids.take(k + 1));
        if !fits {
            proof {
                lemma_first_seen_prefix(ids, k + 1);
            }
            return None;
        }
    }
    assert(ids.take(list@.len() as int) =~= ids);
    Some(table)
}

/// Whether the ids of a module can be numbered.
pub fn can_compact_ids(m: &SpvModule) -> (r: bool)
    ensures
        r == numberable(m@),
{
    number_ids(m).is_some()
}

/// Renumbers the ids of a module from 1 on, in the order in which they first
/// occur, and returns the bound of the new ids.
pub fn compact_ids(module: &mut SpvModule) -> (bound: u32)
    requires
        numberable(old(module)@),
    ensures
        final(module)@ == compacted(old(module)@),
        bound == ids_in_order(old(module)@).len() + 1,
{
    let table = number_ids(module).unwrap();
    let ghost order = ids_in_order(module@);
    proof {
        let m = module@;
        let all = m.all_insts();
        let f = |i: InstView| renamed(&table, i);
        let g = |i: InstView|
            i.renamed(|id: u32| number_in(order, id), |id: u32| number_in(order, id));
        let p = |i: InstView| covered(&table, i);
        let q = |i: InstView| f(i) == g(i);
        assert forall|k: int| 0 <= k < all.len() implies p(#[trigger] all[k]) && q(all[k]) by {
            let i = all[k];
            assert forall|id: u32| #[trigger] i.mentions(id) implies table.covers(id)
                && table.numbers@[id] == number_in(order, id) by {
                lemma_id_list(all, id);
                lemma_first_seen(id_list(all));
                assert(id_list(all).contains(id) && first_seen(id_list(all)).contains(id));
                let n = order.index_of(id);
                assert(order[n] == id);
            }
            assert forall|j: int| 0 <= j < i.operands.len() && i.operands[j].id() is Some implies
                i.mentions(#[trigger] i.operands[j].id()->0) by {
                assert(i.operand_uses(i.operands[j].id()->0));
            }
            if i.result_id is Some {
                assert(i.mentions(i.result_id->0));
            }
            if i.result_type is Some {
                assert(i.mentions(i.result_type->0));
            }
            assert(f(i).operands =~= g(i).operands);
            assert(f(i) =~= g(i));
        }
        model::lemma_every(m, p);
        model::lemma_every(m, q);
        model::lemma_map_agree(m, f, g);
    }
    let count: usize = table.numbers.len();
    rename_module(module, &table);
    count as u32 + 1
}

/// Whether an instruction of the module uses `id`.
pub open spec fn is_used(m: ModuleView, id: u32) -> bool {
    exists|k: int| 0 <= k < m.all_insts().len() && (#[trigger] m.all_insts()[k]).uses(id)
}

/// Whether `id` occurs in the module.
pub open spec fn occurs(m: ModuleView, id: u32) -> bool {
    exists|k: int| 0 <= k < m.all_insts().len() && (#[trigger] m.all_insts()[k]).mentions(id)
}

pub proof fn lemma_replaced_uses(i: InstView, before: u32, after: u32, id: u32)
    ensures
        replaced(i, before, after).uses(id) <==> (id != before || before == after) && i.uses(id)
            || id == after && i.uses(before),
{
    let r = replaced(i, before, after);
    if r.operand_uses(id) {
        let k = choose|k: int| 0 <= k < r.operands.len() && (#[trigger] r.operands[k]).id() == Some(
            id,
        );
        let o = i.operands[k];
        assert(o.id() is Some);
        assert(i.operand_uses(o.id()->0));
    }
    if i.operand_uses(id) && id != before {
        let k = choose|k: int| 0 <= k < i.operands.len() && (#[trigger] i.operands[k]).id() == Some(
            id,
        );
        assert(r.operands[k].id() == Some(id));
    }
    if i.operand_uses(before) {
        let k = choose|k: int| 0 <= k < i.operands.len() && (#[trigger] i.operands[k]).id() == Some(
            before,
        );
        assert(r.operands[k].id() == Some(after));
    }
}

/// Adding to the ids of a module twice is adding the sum once.
pub proof fn law_shifted_twice(m: ModuleView, a: u32, b: u32)
    requires
        a + b <= u32::MAX,
        shiftable(m, (a + b) as u32),
    ensures
        shiftable(m, a),
        shiftable(shifted(m, a), b),
        shifted(shifted(m, a), b) == shifted(m, (a + b) as u32),
{
    let c = (a + b) as u32;
    let p = |i: InstView| covered(&Shift { add: c }, i);
    let f = |i: InstView| renamed(&Shift { add: a }, i);
    let g = |i: InstView| renamed(&Shift { add: b }, i);
    let h = |i: InstView| renamed(&Shift { add: c }, i);
    let all = m.all_insts();
    let q = |i: InstView| covered(&Shift { add: a }, i);
    let r = |i: InstView| covered(&Shift { add: b }, i);
    let s = |i: InstView| g(f(i)) == h(i);
    model::lemma_every(m, p);
    model::lemma_every(m, q);
    model::lemma_every(m, s);
    model::lemma_map_insts(m, f);
    model::lemma_every(shifted(m, a), r);
    assert forall|k: int| 0 <= k < all.len() implies q(#[trigger] all[k]) && r(f(all[k])) && s(
        all[k],
    ) by {
        assert(p(all[k]));
        lemma_shift_step(all[k], a, b);
    }
    assert forall|k: int| 0 <= k < all.len() implies r(#[trigger] all.map_values(f)[k]) by {
        assert(q(all[k]));
    }
    model::lemma_map_twice(m, f, g);
    let fg = |i: InstView| g(f(i));
    assert(m.every(|i: InstView| fg(i) == h(i))) by {
        assert(s =~= (|i: InstView| fg(i) == h(i)));
    }
    model::lemma_map_agree(m, fg, h);
}

proof fn lemma_shift_step(i: InstView, a: u32, b: u32)
    requires
        a + b <= u32::MAX,
        covered(&Shift { add: (a + b) as u32 }, i),
    ensures
        covered(&Shift { add: a }, i),
        covered(&Shift { add: b }, renamed(&Shift { add: a }, i)),
        renamed(&Shift { add: b }, renamed(&Shift { add: a }, i)) == renamed(
            &Shift { add: (a + b) as u32 },
            i,
        ),
{
    let c = (a + b) as u32;
    let j = renamed(&Shift { add: a }, i);
    let x = renamed(&Shift { add: b }, j);
    let y = renamed(&Shift { add: c }, i);
    assert forall|id: u32| #[trigger] i.mentions(id) implies id + c <= u32::MAX by {
        assert(Shift { add: c }.covers(id));
    }
    if i.result_id is Some {
        assert(i.mentions(i.result_id->0));
    }
    if i.result_type is Some {
        assert(i.mentions(i.result_type->0));
    }
    assert forall|k: int| 0 <= k < i.operands.len() && (#[trigger] i.operands[k]).id() is Some implies
        i.mentions(i.operands[k].id()->0) by {
        assert(i.operand_uses(i.operands[k].id()->0));
    }
    assert forall|id: u32| #[trigger] j.mentions(id) implies id + b <= u32::MAX by {
        if j.operand_uses(id) {
            let k = choose|k: int|
                0 <= k < j.operands.len() && (#[trigger] j.operands[k]).id() == Some(id);
            assert(i.operands[k].id() is Some);
        }
    }
    assert forall|k: int| 0 <= k < x.operands.len() implies x.operands[k] == y.operands[k] by {
        assert(i.operands[k].id() is Some ==> i.mentions(i.operands[k].id()->0));
    }
    assert(x.operands =~= y.operands);
    assert(x =~= y);
}

/// Once the uses of an id are replaced by another one, the first has no uses and
/// the second has those of both.
pub proof fn law_replaced_all(m: ModuleView, before: u32, after: u32, id: u32)
    requires
        before != after,
    ensures
        !is_used(replaced_all(m, before, after), before),
        is_used(replaced_all(m, before, after), after) <==> is_used(m, before) || is_used(m, after),
        id != before && id != after ==> (is_used(replaced_all(m, before, after), id) <==> is_used(
            m,
            id,
        )),
{
    let f = |i: InstView| replaced(i, before, after);
    let n = replaced_all(m, before, after);
    model::lemma_map_insts(m, f);
    let a = m.all_insts();
    let b = n.all_insts();
    assert forall|x: u32| #[trigger] is_used(n, x) <==> x != before && is_used(m, x) || x == after
        && is_used(m, before) by {
        if is_used(n, x) {
            let k = choose|k: int| 0 <= k < b.len() && (#[trigger] b[k]).uses(x);
            lemma_replaced_uses(a[k], before, after, x);
            assert(a[k].uses(x) || a[k].uses(before));
        }
        if x != before && is_used(m, x) {
            let k = choose|k: int| 0 <= k < a.len() && (#[trigger] a[k]).uses(x);
            lemma_replaced_uses(a[k], before, after, x);
            assert(b[k].uses(x));
        }
        if x == after && is_used(m, before) {
            let k = choose|k: int| 0 <= k < a.len() && (#[trigger] a[k]).uses(before);
            lemma_replaced_uses(a[k], before, after, x);
            assert(b[k].uses(x));
        }
    }
}

/// Once the uses of the first id of each pair are replaced by the second, no first
/// id has a use left, provided that none of them is also a second.
pub proof fn law_replaced_pairs(m: ModuleView, pairs: Seq<(u32, u32)>, k: int)
    requires
        0 <= k < pairs.len(),
        forall|i: int, j: int|
            #![trigger pairs[i], pairs[j]]
            0 <= i < pairs.len() && 0 <= j < pairs.len() ==> pairs[i].0 != pairs[j].1,
    ensures
        !is_used(replaced_pairs(m, pairs), pairs[k].0),
    decreases pairs.len(),
{
    let rest = pairs.drop_last();
    let id = pairs[k].0;
    let last = pairs.last();
    assert(pairs[pairs.len() - 1] == last);
    law_replaced_all(replaced_pairs(m, rest), last.0, last.1, id);
    if id != last.0 {
        assert(rest[k] == pairs[k]);
        assert forall|i: int, j: int|
            #![trigger rest[i], rest[j]]
            0 <= i < rest.len() && 0 <= j < rest.len() implies rest[i].0 != rest[j].1 by {
            assert(pairs[i] == rest[i] && pairs[j] == rest[j]);
        }
        law_replaced_pairs(m, rest, k);
    }
}

proof fn lemma_operand_ids_renamed(ops: Seq<OperandView>, f: spec_fn(u32) -> u32)
    ensures
        operand_ids(ops.map_values(|o: OperandView| o.renamed(f))) == operand_ids(ops).map_values(
            f,
        ),
    decreases ops.len(),
{
    let g = |o: OperandView| o.renamed(f);
    if ops.len() > 0 {
        lemma_operand_ids_renamed(ops.drop_last(), f);
        assert(ops.map_values(g).drop_last() =~= ops.drop_last().map_values(g));
        assert(operand_ids(ops.map_values(g)) =~= operand_ids(ops).map_values(f));
    } else {
        assert(operand_ids(ops.map_values(g)) =~= operand_ids(ops).map_values(f));
    }
}

proof fn lemma_id_list_renamed(insts: Seq<InstView>, f: spec_fn(u32) -> u32)
    ensures
        id_list(insts.map_values(|i: InstView| i.renamed(f, f))) == id_list(insts).map_values(f),
    decreases insts.len(),
{
    let g = |i: InstView| i.renamed(f, f);
    if insts.len() > 0 {
        let i = insts.last();
        lemma_id_list_renamed(insts.drop_last(), f);
        assert(insts.map_values(g).drop_last() =~= insts.drop_last().map_values(g));
        lemma_operand_ids_renamed(i.operands, f);
        assert(inst_ids(g(i)) =~= inst_ids(i).map_values(f));
        assert(id_list(insts.map_values(g)) =~= id_list(insts).map_values(f));
    } else {
        assert(id_list(insts.map_values(g)) =~= id_list(insts).map_values(f));
    }
}

proof fn lemma_first_seen_renamed(ids: Seq<u32>, f: spec_fn(u32) -> u32)
    requires
        forall|a: u32, b: u32|
            #![trigger f(a), f(b)]
            ids.contains(a) && ids.contains(b) && f(a) == f(b) ==> a == b,
    ensures
        first_seen(ids.map_values(f)) == first_seen(ids).map_values(f),
    decreases ids.len(),
{
    if ids.len() > 0 {
        let rest = ids.drop_last();
        let x = ids.last();
        assert(ids.map_values(f).drop_last() =~= rest.map_values(f));
        assert forall|a: u32| rest.contains(a) implies ids.contains(a) by {
            let k = choose|k: int| 0 <= k < rest.len() && rest[k] == a;
            assert(ids[k] == a);
        }
        lemma_first_seen_renamed(rest, f);
        lemma_first_seen(rest);
        let p = first_seen(rest);
        let q = p.map_values(f);
        assert(ids.contains(x));
        if p.contains(x) {
            let k = choose|k: int| 0 <= k < p.len() && p[k] == x;
            assert(q[k] == f(x));
        }
        if q.contains(f(x)) {
            let k = choose|k: int| 0 <= k < q.len() && q[k] == f(x);
            assert(p.contains(p[k]));
            assert(rest.contains(p[k]));
        }
        assert(first_seen(ids.map_values(f)) =~= first_seen(ids).map_values(f));
    } else {
        assert(first_seen(ids.map_values(f)) =~= first_seen(ids).map_values(f));
    }
}

/// The ids of a renumbered module are 1, 2, 3 and so on, in the order in which they
/// first occur, and there are as many as before. Different ids get different
/// numbers.
pub proof fn law_compacted(m: ModuleView, a: u32, b: u32)
    requires
        numberable(m),
        occurs(m, a),
        occurs(m, b),
    ensures
        ids_in_order(compacted(m)) == Seq::new(
            ids_in_order(m).len(),
            |k: int| (k + 1) as u32,
        ),
        number_in(ids_in_order(m), a) == number_in(ids_in_order(m), b) ==> a == b,
{
    lemma_compacted(m);
    let ids = id_list(m.all_insts());
    lemma_id_list(m.all_insts(), a);
    lemma_id_list(m.all_insts(), b);
    lemma_numbers(ids, a);
    lemma_numbers(ids, b);
}

/// The number of an id that occurs is the place where it first occurs.
proof fn lemma_numbers(ids: Seq<u32>, a: u32)
    requires
        first_seen(ids).len() < u32::MAX,
        ids.contains(a),
    ensures
        0 < number_in(first_seen(ids), a) <= first_seen(ids).len(),
        first_seen(ids)[number_in(first_seen(ids), a) - 1] == a,
{
    lemma_first_seen(ids);
    let order = first_seen(ids);
    assert(order.contains(a));
    let k = order.index_of(a);
    assert(0 <= k < order.len() && order[k] == a);
}

proof fn lemma_compacted(m: ModuleView)
    requires
        numberable(m),
    ensures
        ids_in_order(compacted(m)) == Seq::new(
            ids_in_order(m).len(),
            |k: int| (k + 1) as u32,
        ),
{
    let order = ids_in_order(m);
    let f = |id: u32| number_in(order, id);
    let g = |i: InstView| i.renamed(f, f);
    let ids = id_list(m.all_insts());
    model::lemma_map_insts(m, g);
    lemma_id_list_renamed(m.all_insts(), f);
    assert forall|a: u32, b: u32|
        #![trigger f(a), f(b)]
        ids.contains(a) && ids.contains(b) && f(a) == f(b) implies a == b by {
        lemma_numbers(ids, a);
        lemma_numbers(ids, b);
    }
    lemma_first_seen_renamed(ids, f);
    lemma_first_seen(ids);
    assert forall|k: int| 0 <= k < order.len() implies f(#[trigger] order[k]) == k + 1 by {
        assert(order.contains(order[k]));
        lemma_numbers(ids, order[k]);
    }
    assert(order.map_values(f) =~= Seq::new(order.len(), |k: int| (k + 1) as u32));
}

/// The ids of a renumbered module are exactly the numbers above 0 and below the
/// bound, which is one more than the number of ids.
pub proof fn law_compacted_bound(m: ModuleView, id: u32)
    requires
        numberable(m),
    ensures
        occurs(compacted(m), id) <==> 0 < id < ids_in_order(m).len() + 1,
{
    lemma_compacted(m);
    let n = compacted(m);
    let order = ids_in_order(n);
    lemma_id_list(n.all_insts(), id);
    lemma_first_seen(id_list(n.all_insts()));
    assert(order.contains(id) <==> occurs(n, id));
    if 0 < id < order.len() + 1 {
        assert(order[id - 1] == id);
    }
}

/// Renumbering a second time changes nothing.
pub proof fn law_compacted_twice(m: ModuleView)
    requires
        numberable(m),
    ensures
        compacted(compacted(m)) == compacted(m),
{
    lemma_compacted(m);
    let n = compacted(m);
    let order = ids_in_order(n);
    let f = |id: u32| number_in(order, id);
    let g = |i: InstView| i.renamed(f, f);
    let h = |i: InstView| i;
    let all = n.all_insts();
    lemma_first_seen(id_list(all));
    let p = |i: InstView| g(i) == h(i);
    assert forall|k: int| 0 <= k < all.len() implies p(#[trigger] all[k]) by {
        let i = all[k];
        assert forall|id: u32| #[trigger] i.mentions(id) implies f(id) == id by {
            lemma_id_list(all, id);
            assert(id_list(all).contains(id));
            lemma_numbers(id_list(all), id);
        }
        assert forall|j: int| 0 <= j < i.operands.len() && i.operands[j].id() is Some implies
            i.mentions(#[trigger] i.operands[j].id()->0) by {
            assert(i.operand_uses(i.operands[j].id()->0));
        }
        if i.result_id is Some {
            assert(i.mentions(i.result_id->0));
        }
        if i.result_type is Some {
            assert(i.mentions(i.result_type->0));
        }
        assert(g(i).operands =~= i.operands);
        assert(g(i) =~= i);
    }
    model::lemma_every(n, p);
    model::lemma_map_agree(n, g, h);
    model::lemma_map_identity(n);
}

} // verus!
