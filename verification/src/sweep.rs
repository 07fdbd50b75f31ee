//! Removing instructions from a section.

use vstd::prelude::*;

use crate::model;
use crate::model::{InstView, ModuleView, OperandView, SpvInst, SpvModule, SpvOperand};
use crate::opcode;

verus! {

/// A test on instructions.
pub trait Condition {
    spec fn holds(&self, i: InstView) -> bool;

    /// The instructions that can be tested.
    spec fn readable(&self, i: InstView) -> bool;

    fn test(&self, inst: &SpvInst) -> (r: bool)
        requires
            self.readable(inst@),
        ensures
            r == self.holds(inst@),
    ;
}

/// What removing element `i` leaves when the last element takes its place.
pub open spec fn swap_removed<A>(s: Seq<A>, i: int) -> Seq<A> {
    s.update(i, s.last()).drop_last()
}

/// What is left of `s` when the first `n` elements are visited from the back and
/// each one for which `dead` holds is removed, the last element taking its place.
pub open spec fn swept_below<A>(s: Seq<A>, dead: spec_fn(A) -> bool, n: nat) -> Seq<A>
    decreases n,
{
    if n == 0 {
        s
    } else {
        let i = n - 1;
        let t = if dead(s[i]) {
            swap_removed(s, i)
        } else {
            s
        };
        swept_below(t, dead, i as nat)
    }
}

/// What is left of `s` when all elements for which `dead` holds are removed.
pub open spec fn swept<A>(s: Seq<A>, dead: spec_fn(A) -> bool) -> Seq<A> {
    swept_below(s, dead, s.len())
}

/// Removes the instructions for which the condition holds. The order of the
/// others may change.
pub fn kill_with<C: Condition>(insts: &mut Vec<SpvInst>, c: &C)
    requires
        model::each(model::views(old(insts)@), |i: InstView| c.readable(i)),
    ensures
        model::views(final(insts)@) == swept(model::views(old(insts)@), |i: InstView| c.holds(i)),
{
    let ghost dead = |i: InstView| c.holds(i);
    let ghost goal = swept(model::views(insts@), dead);
    let mut n: usize = insts.len();
    while n > 0
        invariant
            n <= insts@.len(),
            dead == (|i: InstView| c.holds(i)),
            goal == swept_below(model::views(insts@), dead, n as nat),
            model::each(model::views(insts@), |i: InstView| c.readable(i)),
        decreases n,
    {
        let idx: usize = n - 1;
        let ghost s = model::views(insts@);
        assert(s[idx as int] == insts@[idx as int]@);
        if c.test(&insts[idx]) {
            insts.swap_remove(idx);
            assert(model::views(insts@) =~= swap_removed(s, idx as int));
            assert forall|j: int| 0 <= j < model::views(insts@).len() implies c.readable(
                #[trigger] model::views(insts@)[j],
            ) by {
                assert(model::views(insts@)[j] == if j == idx {
                    s[s.len() - 1]
                } else {
                    s[j]
                });
            }
        }
        n = idx;
    }
}

/// Whether the first operand refers to an id.
pub struct FirstOperandIs {
    pub id: u32,
}

/// Whether the first operand of an instruction refers to `id`.
pub open spec fn about(i: InstView, id: u32) -> bool {
    i.operands.len() > 0 && i.operands[0].id() == Some(id)
}

impl Condition for FirstOperandIs {
    open spec fn holds(&self, i: InstView) -> bool {
        about(i, self.id)
    }

    open spec fn readable(&self, i: InstView) -> bool {
        true
    }

    fn test(&self, inst: &SpvInst) -> (r: bool) {
        if inst.operands.len() == 0 {
            return false;
        }
        match inst.operands[0].id() {
            Some(w) => w == self.id,
            None => false,
        }
    }
}

/// The section without the instructions about `id`.
pub open spec fn without_id(s: Seq<InstView>, id: u32) -> Seq<InstView> {
    swept(s, |i: InstView| about(i, id))
}

/// Removes the instructions about `id`.
pub fn kill_with_id(insts: &mut Vec<SpvInst>, id: u32)
    ensures
        model::views(final(insts)@) == without_id(model::views(old(insts)@), id),
{
    let c = FirstOperandIs { id };
    assert((|i: InstView| c.holds(i)) =~= (|i: InstView| about(i, id)));
    kill_with(insts, &c);
}

/// Whether a group decoration keeps an operand when `id` is removed.
pub open spec fn stays_in_group(o: OperandView, id: u32) -> bool {
    o matches OperandView::IdRef(w) && w != id
}

/// A group decoration without the target `id`; other instructions stay as they
/// are.
pub open spec fn pruned(i: InstView, id: u32) -> InstView {
    if i.opcode == opcode::GROUP_DECORATE {
        InstView { operands: i.operands.filter(|o: OperandView| stays_in_group(o, id)), ..i }
    } else {
        i
    }
}

/// The module without the annotations, names and other debug instructions about
/// `id`, and without `id` among the targets of group decorations.
pub open spec fn without_annotations(m: ModuleView, id: u32) -> ModuleView {
    ModuleView {
        annotations: without_id(m.annotations, id).map_values(|i: InstView| pruned(i, id)),
        debug_string_source: without_id(m.debug_string_source, id),
        debug_names: without_id(m.debug_names, id),
        debug_module_processed: without_id(m.debug_module_processed, id),
        ..m
    }
}

/// The module without the annotations about any of `ids`.
pub open spec fn without_all_annotations(m: ModuleView, ids: Seq<u32>) -> ModuleView
    decreases ids.len(),
{
    if ids.len() == 0 {
        m
    } else {
        without_annotations(without_all_annotations(m, ids.drop_last()), ids.last())
    }
}

/// Removes a target from a group decoration.
fn prune(inst: &mut SpvInst, id: u32)
    ensures
        final(inst)@ == pruned(old(inst)@, id),
{
    if inst.opcode() != opcode::GROUP_DECORATE {
        return;
    }
    let ghost start = inst@;
    let ghost keep = |o: OperandView| stays_in_group(o, id);
    let mut kept: Vec<SpvOperand> = Vec::new();
    assert(model::views(kept@) =~= start.operands.take(0).filter(keep)) by {
        reveal(Seq::filter);
    }
    for j in 0..inst.operands.len()
        invariant
            start == inst@,
            keep == (|o: OperandView| stays_in_group(o, id)),
            model::views(kept@) == start.operands.take(j as int).filter(keep),
    {
        broadcast use model::lemma_views_push;

        reveal(Seq::filter);
        let ghost ops = start.operands;
        assert(ops.take(j + 1).drop_last() =~= ops.take(j as int));
        assert(ops.take(j + 1).last() == inst.operands@[j as int]@);
        if let SpvOperand::IdRef(w) = &inst.operands[j] {
            if *w != id {
                kept.push(SpvOperand::IdRef(*w));
            }
        }
    }
    assert(start.operands.take(inst.operands@.len() as int) =~= start.operands);
    inst.operands = kept;
}

/// Removes the annotations, names and other debug instructions about `id`, and
/// `id` itself from the targets of group decorations.
pub fn kill_annotations_and_debug(module: &mut SpvModule, id: u32)
    ensures
        final(module)@ == without_annotations(old(module)@, id),
{
    kill_with_id(&mut module.annotations, id);
    let ghost swept = model::views(module.annotations@);
    let ghost half = module@;
    let n: usize = module.annotations.len();
    for j in 0..n
        invariant
            n == module.annotations@.len(),
            n == swept.len(),
            module@ == (ModuleView { annotations: module@.annotations, ..half }),
            forall|k: int| 0 <= k < j ==> (#[trigger] module.annotations@[k])@ == pruned(swept[k], id),
            forall|k: int| j <= k < n ==> (#[trigger] module.annotations@[k])@ == swept[k],
    {
        assert(module.annotations@[j as int]@ == swept[j as int]);
        prune(&mut module.annotations[j], id);
    }
    assert(module@.annotations =~= swept.map_values(|i: InstView| pruned(i, id)));
    kill_with_id(&mut module.debug_string_source, id);
    kill_with_id(&mut module.debug_names, id);
    kill_with_id(&mut module.debug_module_processed, id);
}

/// Removes the annotations about each of `ids`.
pub fn kill_all_annotations(module: &mut SpvModule, ids: &Vec<u32>)
    ensures
        final(module)@ == without_all_annotations(old(module)@, ids@),
{
    assert(ids@.take(0) =~= Seq::empty());
    for j in 0..ids.len()
        invariant
            module@ == without_all_annotations(old(module)@, ids@.take(j as int)),
    {
        kill_annotations_and_debug(module, ids[j]);
        assert(ids@.take(j + 1).drop_last() =~= ids@.take(j as int));
    }
    assert(ids@.take(ids@.len() as int) =~= ids@);
}

proof fn lemma_swept_below<A>(s: Seq<A>, dead: spec_fn(A) -> bool, n: nat, x: A)
    requires
        n <= s.len(),
        forall|i: int| n <= i < s.len() ==> !dead(#[trigger] s[i]),
    ensures
        swept_below(s, dead, n).to_multiset().count(x) == if dead(x) {
            0
        } else {
            s.to_multiset().count(x)
        },
    decreases n,
{
    broadcast use vstd::seq_lib::group_to_multiset_ensures;

    if n == 0 {
        if dead(x) && s.to_multiset().count(x) > 0 {
            assert(s.contains(x));
        }
    } else {
        let i = n - 1;
        if dead(s[i]) {
            let t = swap_removed(s, i);
            let u = s.update(i, s.last());
            assert(t =~= u.remove(u.len() - 1));
            assert(u.to_multiset() =~= s.to_multiset().remove(s[i]).insert(s.last()));
            assert(t.to_multiset() =~= s.to_multiset().remove(s[i]));
            lemma_swept_below(t, dead, i as nat, x);
        } else {
            lemma_swept_below(s, dead, i as nat, x);
        }
    }
}

/// Sweeping keeps each element that is not dead, as often as it occurred, and
/// none that is dead.
pub proof fn law_swept<A>(s: Seq<A>, dead: spec_fn(A) -> bool, x: A)
    ensures
        swept(s, dead).to_multiset().count(x) == if dead(x) {
            0
        } else {
            s.to_multiset().count(x)
        },
        swept(s, dead).contains(x) <==> s.contains(x) && !dead(x),
{
    broadcast use vstd::seq_lib::group_to_multiset_ensures;

    lemma_swept_below(s, dead, s.len(), x);
}

proof fn lemma_swept_places<A>(s: Seq<A>, dead: spec_fn(A) -> bool, n: nat) -> (places: Seq<int>)
    requires
        n <= s.len(),
    ensures
        places.len() == swept_below(s, dead, n).len(),
        forall|k: int|
            0 <= k < places.len() ==> 0 <= #[trigger] places[k] < s.len() && s[places[k]]
                == swept_below(s, dead, n)[k],
        places.no_duplicates(),
    decreases n,
{
    if n == 0 {
        Seq::new(s.len(), |k: int| k)
    } else {
        let i = n - 1;
        if dead(s[i]) {
            let t = swap_removed(s, i);
            let last = s.len() - 1;
            let inner = lemma_swept_places(t, dead, i as nat);
            let places = inner.map_values(
                |k: int|
                    if k == i {
                        last
                    } else {
                        k
                    },
            );
            assert forall|k: int| 0 <= k < places.len() implies 0 <= #[trigger] places[k] < s.len()
                && s[places[k]] == swept_below(s, dead, n)[k] by {
                assert(0 <= inner[k] < t.len());
                assert(t[inner[k]] == s[places[k]]);
            }
            assert forall|a: int, b: int|
                0 <= a < places.len() && 0 <= b < places.len() && a != b implies places[a]
                != places[b] by {
                assert(inner[a] != inner[b]);
                assert(0 <= inner[a] < t.len() && 0 <= inner[b] < t.len());
            }
            places
        } else {
            lemma_swept_places(s, dead, i as nat)
        }
    }
}

/// Sweeping leaves elements of the sequence, each of them from a place of its own.
pub proof fn law_swept_places<A>(s: Seq<A>, dead: spec_fn(A) -> bool) -> (places: Seq<int>)
    ensures
        places.len() == swept(s, dead).len(),
        forall|k: int|
            0 <= k < places.len() ==> 0 <= #[trigger] places[k] < s.len() && s[places[k]] == swept(
                s,
                dead,
            )[k],
        places.no_duplicates(),
{
    lemma_swept_places(s, dead, s.len())
}

proof fn lemma_swept_in_place<A>(s: Seq<A>, dead: spec_fn(A) -> bool, n: nat, k: int)
    requires
        n <= s.len(),
        0 <= k < swept_below(s, dead, n).len(),
        k >= n || !dead(s[k]),
    ensures
        swept_below(s, dead, n).len() <= s.len(),
        swept_below(s, dead, n)[k] == s[k],
    decreases n,
{
    if n > 0 {
        let i = n - 1;
        lemma_swept_len(s, dead, n);
        if dead(s[i]) {
            let t = swap_removed(s, i);
            lemma_swept_len(t, dead, i as nat);
            lemma_swept_in_place(t, dead, i as nat, k);
        } else {
            lemma_swept_in_place(s, dead, i as nat, k);
        }
    }
}

proof fn lemma_swept_len<A>(s: Seq<A>, dead: spec_fn(A) -> bool, n: nat)
    requires
        n <= s.len(),
    ensures
        swept_below(s, dead, n).len() <= s.len(),
    decreases n,
{
    if n > 0 {
        let i = n - 1;
        if dead(s[i]) {
            lemma_swept_len(swap_removed(s, i), dead, i as nat);
        } else {
            lemma_swept_len(s, dead, i as nat);
        }
    }
}

/// Sweeping leaves an element that is not dead in its place, unless that place is gone
/// because the sequence has become shorter.
pub proof fn law_swept_in_place<A>(s: Seq<A>, dead: spec_fn(A) -> bool, k: int)
    requires
        0 <= k < swept(s, dead).len(),
    ensures
        swept(s, dead).len() <= s.len(),
        !dead(s[k]) ==> swept(s, dead)[k] == s[k],
{
    lemma_swept_len(s, dead, s.len());
    if !dead(s[k]) {
        lemma_swept_in_place(s, dead, s.len(), k);
    }
}

/// Removing annotations leaves the sections alone that hold none.
pub proof fn lemma_without_all_annotations(m: ModuleView, ids: Seq<u32>)
    ensures
        without_all_annotations(m, ids) == (ModuleView {
            annotations: without_all_annotations(m, ids).annotations,
            debug_string_source: without_all_annotations(m, ids).debug_string_source,
            debug_names: without_all_annotations(m, ids).debug_names,
            debug_module_processed: without_all_annotations(m, ids).debug_module_processed,
            ..m
        }),
    decreases ids.len(),
{
    if ids.len() > 0 {
        lemma_without_all_annotations(m, ids.drop_last());
    }
}

pub proof fn lemma_each_swept<A>(s: Seq<A>, dead: spec_fn(A) -> bool, p: spec_fn(A) -> bool)
    requires
        model::each(s, p),
    ensures
        model::each(swept(s, dead), p),
{
    let t = swept(s, dead);
    assert forall|k: int| 0 <= k < t.len() implies p(#[trigger] t[k]) by {
        assert(t.contains(t[k]));
        law_swept(s, dead, t[k]);
        let j = choose|j: int| 0 <= j < s.len() && s[j] == t[k];
        assert(p(s[j]));
    }
}

/// What holds of every instruction still does once annotations are removed, if
/// taking targets out of group decorations leaves it so.
pub proof fn lemma_every_without(m: ModuleView, ids: Seq<u32>, p: spec_fn(InstView) -> bool)
    requires
        m.every(p),
        forall|i: InstView, id: u32| p(i) ==> p(#[trigger] pruned(i, id)),
    ensures
        without_all_annotations(m, ids).every(p),
    decreases ids.len(),
{
    if ids.len() > 0 {
        lemma_every_without(m, ids.drop_last(), p);
        let n = without_all_annotations(m, ids.drop_last());
        let id = ids.last();
        let dead = |i: InstView| about(i, id);
        lemma_each_swept(n.annotations, dead, p);
        lemma_each_swept(n.debug_string_source, dead, p);
        lemma_each_swept(n.debug_names, dead, p);
        lemma_each_swept(n.debug_module_processed, dead, p);
        let a = without_id(n.annotations, id);
        let b = a.map_values(|i: InstView| pruned(i, id));
        assert forall|k: int| 0 <= k < b.len() implies p(#[trigger] b[k]) by {
            assert(p(a[k]));
            assert(b[k] == pruned(a[k], id));
        }
    }
}

/// Removing annotations adds no use of an id.
pub proof fn lemma_no_new_use(m: ModuleView, ids: Seq<u32>, x: u32)
    requires
        m.every(|i: InstView| !i.uses(x)),
    ensures
        without_all_annotations(m, ids).every(|i: InstView| !i.uses(x)),
{
    let p = |i: InstView| !i.uses(x);
    assert forall|i: InstView, id: u32| p(i) implies p(#[trigger] pruned(i, id)) by {
        lemma_pruned_uses(i, id, x);
    }
    lemma_every_without(m, ids, p);
}

/// An annotation that is no group decoration and about none of the ids stays.
pub proof fn lemma_annotation_kept(m: ModuleView, ids: Seq<u32>, x: InstView)
    requires
        m.annotations.contains(x),
        x.opcode != opcode::GROUP_DECORATE,
        forall|id: u32| #[trigger] ids.contains(id) ==> !about(x, id),
    ensures
        without_all_annotations(m, ids).annotations.contains(x),
    decreases ids.len(),
{
    if ids.len() > 0 {
        let rest = ids.drop_last();
        let id = ids.last();
        let n = without_all_annotations(m, rest);
        assert forall|w: u32| #[trigger] rest.contains(w) implies !about(x, w) by {
            let j = choose|j: int| 0 <= j < rest.len() && rest[j] == w;
            assert(ids[j] == w);
            assert(ids.contains(w));
        }
        lemma_annotation_kept(m, rest, x);
        assert(ids[ids.len() - 1] == id);
        assert(ids.contains(id));
        law_swept(n.annotations, |i: InstView| about(i, id), x);
        let a = without_id(n.annotations, id);
        let b = a.map_values(|i: InstView| pruned(i, id));
        let k = choose|k: int| 0 <= k < a.len() && a[k] == x;
        assert(b[k] == x);
    }
}

/// Whether no annotation, name or other debug instruction is about `id`, and no
/// group decoration lists it.
pub open spec fn says_nothing_about(m: ModuleView, id: u32) -> bool {
    &&& model::each(
        m.annotations,
        |i: InstView|
            !about(i, id) && (i.opcode == opcode::GROUP_DECORATE ==> !i.operand_uses(id)),
    )
    &&& model::each(m.debug_string_source, |i: InstView| !about(i, id))
    &&& model::each(m.debug_names, |i: InstView| !about(i, id))
    &&& model::each(m.debug_module_processed, |i: InstView| !about(i, id))
}

proof fn lemma_pruned_uses(i: InstView, other: u32, id: u32)
    ensures
        i.opcode == opcode::GROUP_DECORATE && pruned(i, other).operand_uses(id)
            ==> i.operand_uses(id) && id != other,
{
    if i.opcode == opcode::GROUP_DECORATE {
        let ops = pruned(i, other).operands;
        let keep = |o: OperandView| stays_in_group(o, other);
        if pruned(i, other).operand_uses(id) {
            let j = choose|j: int| 0 <= j < ops.len() && (#[trigger] ops[j]).id() == Some(id);
            i.operands.lemma_filter_pred(keep, j);
            i.operands.lemma_filter_contains_rev(keep, ops[j]);
            let l = choose|l: int| 0 <= l < i.operands.len() && i.operands[l] == ops[j];
            assert(i.operands[l].id() == Some(id));
        }
    }
}

proof fn lemma_says_nothing(m: ModuleView, other: u32, id: u32)
    requires
        other == id || says_nothing_about(m, id),
    ensures
        says_nothing_about(without_annotations(m, other), id),
{
    let dead = |i: InstView| about(i, other);
    let quiet = |i: InstView| !about(i, id);
    let p = |i: InstView|
        !about(i, id) && (i.opcode == opcode::GROUP_DECORATE ==> !i.operand_uses(id));
    let a = without_id(m.annotations, other);
    let b = a.map_values(|i: InstView| pruned(i, other));
    assert forall|k: int| 0 <= k < b.len() implies p(#[trigger] b[k]) by {
        let i = a[k];
        assert(a.contains(i));
        law_swept(m.annotations, dead, i);
        let j = choose|j: int| 0 <= j < m.annotations.len() && m.annotations[j] == i;
        if other != id {
            assert(p(m.annotations[j]));
        }
        lemma_pruned_uses(i, other, id);
        if about(b[k], id) {
            assert(b[k].operands[0].id() == Some(id));
            assert(b[k].operand_uses(id));
        }
    }
    if other == id {
        lemma_quiet(m.debug_string_source, id);
        lemma_quiet(m.debug_names, id);
        lemma_quiet(m.debug_module_processed, id);
    } else {
        lemma_each_swept(m.debug_string_source, dead, quiet);
        lemma_each_swept(m.debug_names, dead, quiet);
        lemma_each_swept(m.debug_module_processed, dead, quiet);
    }
}

proof fn lemma_quiet(s: Seq<InstView>, id: u32)
    ensures
        model::each(without_id(s, id), |i: InstView| !about(i, id)),
{
    let t = without_id(s, id);
    assert forall|k: int| 0 <= k < t.len() implies !about(#[trigger] t[k], id) by {
        assert(t.contains(t[k]));
        law_swept(s, |i: InstView| about(i, id), t[k]);
    }
}

/// Once the annotations about ids are removed, nothing is said about them any more.
pub proof fn law_without_all_annotations(m: ModuleView, ids: Seq<u32>, id: u32)
    requires
        ids.contains(id),
    ensures
        says_nothing_about(without_all_annotations(m, ids), id),
    decreases ids.len(),
{
    let rest = ids.drop_last();
    if ids.last() != id {
        let k = choose|k: int| 0 <= k < ids.len() && ids[k] == id;
        assert(rest[k] == id);
        law_without_all_annotations(m, rest, id);
    }
    lemma_says_nothing(without_all_annotations(m, rest), ids.last(), id);
}

} // verus!
