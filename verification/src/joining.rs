//! What merging modules leaves of them.

use vstd::prelude::*;

use crate::bridge;
use crate::defs;
use crate::ids;
use crate::link;
use crate::load;
use crate::merging;
use crate::model;
use crate::model::{FunctionView, InstView, ModuleView};
use crate::rename;
use crate::sections;
use crate::sweep;

verus! {

/// Whether the ids of a module lie between 0 and its bound.
pub open spec fn within_bound(m: ModuleView) -> bool {
    forall|id: u32| #[trigger] rename::occurs(m, id) ==> 0 < id < (m.header->0).bound
}

/// Whether a module has a bound that its ids keep, every instruction of it stands
/// where it belongs, and no id is defined twice.
pub open spec fn is_valid(m: ModuleView) -> bool {
    &&& sections::well_placed(m)
    &&& link::is_bounded(m)
    &&& within_bound(m)
    &&& merging::defined_once(m.all_insts())
}

proof fn lemma_shifted_occurs(m: ModuleView, add: u32, id: u32)
    requires
        rename::shiftable(m, add),
        rename::occurs(rename::shifted(m, add), id),
    ensures
        id >= add,
        rename::occurs(m, (id - add) as u32),
{
    let r = rename::Shift { add };
    let f = |i: InstView| rename::renamed(&r, i);
    let p = |i: InstView| rename::covered(&r, i);
    assert(p =~= (|i: InstView| rename::covered(&rename::Shift { add }, i)));
    assert(f =~= (|i: InstView| rename::renamed(&rename::Shift { add }, i)));
    model::lemma_every(m, p);
    model::lemma_map_insts(m, f);
    let a = m.all_insts();
    let b = rename::shifted(m, add).all_insts();
    let k = choose|k: int| 0 <= k < b.len() && (#[trigger] b[k]).mentions(id);
    let i = a[k];
    assert(p(i));
    assert(b[k] == f(i));
    if b[k].operand_uses(id) {
        let ops = b[k].operands;
        let j = choose|j: int| 0 <= j < ops.len() && (#[trigger] ops[j]).id() == Some(id);
        let w = i.operands[j].id()->0;
        assert(i.operands[j].id() == Some(w));
        assert(i.operand_uses(w));
        assert(i.mentions(w));
        assert(w == id - add);
    } else if b[k].result_id == Some(id) {
        assert(i.mentions(i.result_id->0));
    } else {
        assert(i.mentions(i.result_type->0));
    }
    assert(a[k].mentions((id - add) as u32));
}

/// The ids of module `k`, moved apart from those of the others, lie above the
/// offset of the module and up to the offset of the next.
proof fn lemma_moved_ids(inputs: Seq<ModuleView>, k: int, id: u32)
    requires
        link::joinable(inputs),
        0 <= k < inputs.len(),
        within_bound(inputs[k]),
        rename::occurs(link::moved_apart(inputs)[k], id),
    ensures
        link::offset(inputs, k) < id <= link::offset(inputs, k + 1),
{
    assert(link::is_bounded(inputs[k]));
    assert(link::offset(inputs, 0) == 0);
    if k > 0 {
        link::lemma_offset_grows(inputs, k, inputs.len() as int);
        let add = link::offset(inputs, k) as u32;
        assert(rename::shiftable(inputs[k], add));
        lemma_shifted_occurs(inputs[k], add, id);
    }
}

/// Modules that keep their bounds share no id once they are moved apart.
pub proof fn law_moved_apart(inputs: Seq<ModuleView>, j: int, k: int, id: u32)
    requires
        link::joinable(inputs),
        0 <= j < inputs.len(),
        0 <= k < inputs.len(),
        within_bound(inputs[j]),
        within_bound(inputs[k]),
        rename::occurs(link::moved_apart(inputs)[j], id),
        rename::occurs(link::moved_apart(inputs)[k], id),
    ensures
        j == k,
{
    lemma_moved_ids(inputs, j, id);
    lemma_moved_ids(inputs, k, id);
    if j < k {
        link::lemma_offset_grows(inputs, j + 1, k);
    }
    if k < j {
        link::lemma_offset_grows(inputs, k + 1, j);
    }
}

/// The sections of all modules, one module after the other, without a header.
pub open spec fn joined_all(modules: Seq<ModuleView>) -> ModuleView
    decreases modules.len(),
{
    if modules.len() == 0 {
        model::empty_module()
    } else {
        sections::joined(joined_all(modules.drop_last()), modules.last())
    }
}

proof fn lemma_joined_all(modules: Seq<ModuleView>)
    requires
        forall|k: int| 0 <= k < modules.len() ==> sections::well_placed(#[trigger] modules[k]),
    ensures
        sections::fed(bridge::empty_loader(), link::joined_insts(modules)) == (
        bridge::LoaderView { module: joined_all(modules), function: None, block: None }),
    decreases modules.len(),
{
    let s = bridge::empty_loader();
    if modules.len() > 0 {
        let rest = modules.drop_last();
        assert forall|k: int| 0 <= k < rest.len() implies sections::well_placed(
            #[trigger] rest[k],
        ) by {
            assert(rest[k] == modules[k]);
        }
        assert(modules[modules.len() - 1] == modules.last());
        lemma_joined_all(rest);
        sections::lemma_fed_add(s, link::joined_insts(rest), modules.last().all_insts());
        sections::lemma_feed_module(
            sections::fed(s, link::joined_insts(rest)),
            modules.last(),
        );
    }
}

proof fn lemma_shifted_well_placed(m: ModuleView, add: u32)
    requires
        sections::well_placed(m),
    ensures
        sections::well_placed(rename::shifted(m, add)),
{
    let f = |i: InstView| rename::renamed(&rename::Shift { add }, i);
    sections::lemma_well_placed_map(m, f);
}

/// Merging well-placed modules puts the sections of the modules, with their ids
/// moved apart, one after the other.
pub proof fn law_merged(inputs: Seq<ModuleView>)
    requires
        forall|k: int| 0 <= k < inputs.len() ==> sections::well_placed(#[trigger] inputs[k]),
    ensures
        link::merged(inputs) == joined_all(link::moved_apart(inputs)),
{
    let apart = link::moved_apart(inputs);
    assert forall|k: int| 0 <= k < apart.len() implies sections::well_placed(
        #[trigger] apart[k],
    ) by {
        assert(sections::well_placed(inputs[k]));
        if k > 0 {
            lemma_shifted_well_placed(inputs[k], link::offset(inputs, k) as u32);
        }
    }
    lemma_joined_all(apart);
    sections::lemma_fed_from_empty(link::joined_insts(apart));
}

/// A binary that is read gives a well-placed module with a header.
pub proof fn law_binary_is_well_placed(bytes: Seq<u8>)
    ensures
        sections::well_placed(load::binary_module(bytes)),
        load::binary_module(bytes).header is Some,
{
    sections::law_loaded_is_well_placed(bridge::parsed(bytes)->0);
}

/// How many instructions define `id`.
pub open spec fn definers(s: Seq<InstView>, id: u32) -> nat
    decreases s.len(),
{
    if s.len() == 0 {
        0
    } else {
        definers(s.drop_last(), id) + if s.last().result_id == Some(id) {
            1nat
        } else {
            0nat
        }
    }
}

pub proof fn lemma_definers_add(a: Seq<InstView>, b: Seq<InstView>, id: u32)
    ensures
        definers(a + b, id) == definers(a, id) + definers(b, id),
    decreases b.len(),
{
    if b.len() == 0 {
        assert(a + b =~= a);
    } else {
        assert((a + b).drop_last() =~= a + b.drop_last());
        lemma_definers_add(a, b.drop_last(), id);
    }
}

pub proof fn lemma_definers_map(s: Seq<InstView>, f: spec_fn(InstView) -> InstView, id: u32)
    requires
        forall|i: InstView| (#[trigger] f(i)).result_id == i.result_id,
    ensures
        definers(s.map_values(f), id) == definers(s, id),
    decreases s.len(),
{
    if s.len() > 0 {
        assert(s.map_values(f).drop_last() =~= s.drop_last().map_values(f));
        lemma_definers_map(s.drop_last(), f, id);
    }
}

pub proof fn lemma_definers_filter(s: Seq<InstView>, p: spec_fn(InstView) -> bool, id: u32)
    ensures
        definers(s.filter(p), id) <= definers(s, id),
    decreases s.len(),
{
    reveal(Seq::filter);
    if s.len() > 0 {
        let rest = s.drop_last().filter(p);
        lemma_definers_filter(s.drop_last(), p, id);
        assert(rest.push(s.last()).drop_last() =~= rest);
    }
}

pub proof fn lemma_definers_swept(s: Seq<InstView>, dead: spec_fn(InstView) -> bool, n: nat, id: u32)
    requires
        n <= s.len(),
    ensures
        definers(sweep::swept_below(s, dead, n), id) <= definers(s, id),
    decreases n,
{
    if n > 0 {
        let i = n - 1;
        if dead(s[i]) {
            let t = sweep::swap_removed(s, i);
            lemma_definers_swap(s, i, id);
            lemma_definers_swept(t, dead, i as nat, id);
        } else {
            lemma_definers_swept(s, dead, i as nat, id);
        }
    }
}

proof fn lemma_definers_swap(s: Seq<InstView>, i: int, id: u32)
    requires
        0 <= i < s.len(),
    ensures
        definers(sweep::swap_removed(s, i), id) <= definers(s, id),
{
    let t = sweep::swap_removed(s, i);
    let last = s.len() - 1;
    let a = s.take(i);
    if i == last {
        assert(t =~= s.drop_last());
    } else {
        let b = s.subrange(i + 1, last);
        assert(t =~= a + seq![s[last]] + b);
        assert(s =~= a + seq![s[i]] + b + seq![s[last]]);
        lemma_definers_add(a + seq![s[last]], b, id);
        lemma_definers_add(a, seq![s[last]], id);
        lemma_definers_add(a + seq![s[i]] + b, seq![s[last]], id);
        lemma_definers_add(a + seq![s[i]], b, id);
        lemma_definers_add(a, seq![s[i]], id);
    }
}

/// Removing annotations adds no definition of an id.
pub proof fn lemma_definers_without(m: ModuleView, ids: Seq<u32>, id: u32)
    ensures
        definers_in(sweep::without_all_annotations(m, ids), id) <= definers_in(m, id),
    decreases ids.len(),
{
    if ids.len() > 0 {
        let n = sweep::without_all_annotations(m, ids.drop_last());
        let x = ids.last();
        let dead = |i: InstView| sweep::about(i, x);
        lemma_definers_without(m, ids.drop_last(), id);
        lemma_definers_swept(n.annotations, dead, n.annotations.len(), id);
        lemma_definers_swept(n.debug_string_source, dead, n.debug_string_source.len(), id);
        lemma_definers_swept(n.debug_names, dead, n.debug_names.len(), id);
        lemma_definers_swept(n.debug_module_processed, dead, n.debug_module_processed.len(), id);
        lemma_definers_map(
            sweep::without_id(n.annotations, x),
            |i: InstView| sweep::pruned(i, x),
            id,
        );
    }
}

pub proof fn lemma_definers_some(s: Seq<InstView>, id: u32)
    ensures
        definers(s, id) > 0 <==> defs::has_def(s, id),
    decreases s.len(),
{
    if s.len() > 0 {
        let rest = s.drop_last();
        lemma_definers_some(rest, id);
        if defs::has_def(s, id) {
            let k = choose|k: int| 0 <= k < s.len() && (#[trigger] s[k]).result_id == Some(id);
            if k < rest.len() {
                assert(rest[k].result_id == Some(id));
            }
        }
        if defs::has_def(rest, id) {
            let k = choose|k: int| 0 <= k < rest.len() && (#[trigger] rest[k]).result_id == Some(
                id,
            );
            assert(s[k].result_id == Some(id));
        }
        if s.last().result_id == Some(id) {
            assert(s[s.len() - 1].result_id == Some(id));
        }
    }
}

pub proof fn lemma_once_definers(s: Seq<InstView>, id: u32)
    requires
        merging::defined_once(s),
    ensures
        definers(s, id) <= 1,
    decreases s.len(),
{
    if s.len() > 0 {
        let rest = s.drop_last();
        assert forall|i: int, j: int|
            #![trigger rest[i], rest[j]]
            0 <= i < j < rest.len() && rest[i].result_id is Some implies rest[i].result_id
            != rest[j].result_id by {
            assert(s[i] == rest[i] && s[j] == rest[j]);
        }
        lemma_once_definers(rest, id);
        if s.last().result_id == Some(id) && definers(rest, id) > 0 {
            lemma_definers_some(rest, id);
            let k = choose|k: int| 0 <= k < rest.len() && (#[trigger] rest[k]).result_id == Some(
                id,
            );
            assert(s[k].result_id != s[s.len() - 1].result_id);
        }
    }
}

pub proof fn lemma_definers_once(s: Seq<InstView>)
    requires
        forall|id: u32| #[trigger] definers(s, id) <= 1,
    ensures
        merging::defined_once(s),
    decreases s.len(),
{
    if s.len() > 0 {
        let rest = s.drop_last();
        assert forall|id: u32| #[trigger] definers(rest, id) <= 1 by {
            assert(definers(s, id) <= 1);
        }
        lemma_definers_once(rest);
        assert forall|i: int, j: int|
            #![trigger s[i], s[j]]
            0 <= i < j < s.len() && s[i].result_id is Some implies s[i].result_id != s[j].result_id by {
            assert(rest[i] == s[i]);
            if j < rest.len() {
                assert(rest[j] == s[j]);
            } else if s[i].result_id == s[j].result_id {
                let id = s[i].result_id->0;
                assert(rest[i].result_id == Some(id));
                lemma_definers_some(rest, id);
                assert(definers(s, id) <= 1);
            }
        }
    }
}

/// Leaving functions out adds no definition of an id.
pub proof fn lemma_definers_left_out(
    functions: Seq<FunctionView>,
    keep: spec_fn(FunctionView) -> bool,
    id: u32,
)
    ensures
        definers(model::function_insts(functions.filter(keep)), id) <= definers(
            model::function_insts(functions),
            id,
        ),
    decreases functions.len(),
{
    reveal(Seq::filter);
    if functions.len() > 0 {
        let rest = functions.drop_last();
        let last = functions.last();
        let left = rest.filter(keep);
        lemma_definers_left_out(rest, keep, id);
        lemma_definers_add(model::function_insts(rest), last.all_insts(), id);
        if keep(last) {
            assert(left.push(last).drop_last() =~= left);
            lemma_definers_add(model::function_insts(left), last.all_insts(), id);
        }
    }
}

proof fn lemma_definers_functions(a: Seq<FunctionView>, b: Seq<FunctionView>, id: u32)
    ensures
        definers(model::function_insts(a + b), id) == definers(model::function_insts(a), id)
            + definers(model::function_insts(b), id),
    decreases b.len(),
{
    if b.len() == 0 {
        assert(a + b =~= a);
        assert(model::function_insts(b) =~= Seq::empty());
    } else {
        assert((a + b).drop_last() =~= a + b.drop_last());
        lemma_definers_functions(a, b.drop_last(), id);
        lemma_definers_add(
            model::function_insts((a + b).drop_last()),
            b.last().all_insts(),
            id,
        );
        lemma_definers_add(model::function_insts(b.drop_last()), b.last().all_insts(), id);
    }
}

/// How many instructions of a module define `id`, section by section.
pub open spec fn definers_in(m: ModuleView, id: u32) -> nat {
    definers(m.capabilities, id) + definers(m.extensions, id) + definers(m.ext_inst_imports, id)
        + definers(model::opt_seq(m.memory_model), id) + definers(m.entry_points, id) + definers(
        m.execution_modes,
        id,
    ) + definers(m.debug_string_source, id) + definers(m.debug_names, id) + definers(
        m.debug_module_processed,
        id,
    ) + definers(m.annotations, id) + definers(m.types_global_values, id) + definers(
        model::function_insts(m.functions),
        id,
    )
}

pub proof fn lemma_definers_in(m: ModuleView, id: u32)
    ensures
        definers(m.all_insts(), id) == definers_in(m, id),
{
    let a1 = m.capabilities + m.extensions;
    let a2 = a1 + m.ext_inst_imports;
    let a3 = a2 + model::opt_seq(m.memory_model);
    let a4 = a3 + m.entry_points;
    let a5 = a4 + m.execution_modes;
    let a6 = a5 + m.debug_string_source;
    let a7 = a6 + m.debug_names;
    let a8 = a7 + m.debug_module_processed;
    let a9 = a8 + m.annotations;
    let a10 = a9 + m.types_global_values;
    lemma_definers_add(m.capabilities, m.extensions, id);
    lemma_definers_add(a1, m.ext_inst_imports, id);
    lemma_definers_add(a2, model::opt_seq(m.memory_model), id);
    lemma_definers_add(a3, m.entry_points, id);
    lemma_definers_add(a4, m.execution_modes, id);
    lemma_definers_add(a5, m.debug_string_source, id);
    lemma_definers_add(a6, m.debug_names, id);
    lemma_definers_add(a7, m.debug_module_processed, id);
    lemma_definers_add(a8, m.annotations, id);
    lemma_definers_add(a9, m.types_global_values, id);
    lemma_definers_add(a10, model::function_insts(m.functions), id);
}

proof fn lemma_definers_joined(m: ModuleView, n: ModuleView, id: u32)
    ensures
        definers(sections::joined(m, n).all_insts(), id) <= definers(m.all_insts(), id) + definers(
            n.all_insts(),
            id,
        ),
{
    let r = sections::joined(m, n);
    lemma_definers_in(m, id);
    lemma_definers_in(n, id);
    lemma_definers_in(r, id);
    lemma_definers_add(m.capabilities, n.capabilities, id);
    lemma_definers_add(m.extensions, n.extensions, id);
    lemma_definers_add(m.ext_inst_imports, n.ext_inst_imports, id);
    lemma_definers_add(m.entry_points, n.entry_points, id);
    lemma_definers_add(m.execution_modes, n.execution_modes, id);
    lemma_definers_add(m.debug_string_source, n.debug_string_source, id);
    lemma_definers_add(m.debug_names, n.debug_names, id);
    lemma_definers_add(m.debug_module_processed, n.debug_module_processed, id);
    lemma_definers_add(m.annotations, n.annotations, id);
    lemma_definers_add(m.types_global_values, n.types_global_values, id);
    lemma_definers_functions(m.functions, n.functions, id);
}

proof fn lemma_shifted_definers(m: ModuleView, add: u32)
    requires
        rename::shiftable(m, add),
        merging::defined_once(m.all_insts()),
    ensures
        merging::defined_once(rename::shifted(m, add).all_insts()),
{
    let r = rename::Shift { add };
    let f = |i: InstView| rename::renamed(&r, i);
    let p = |i: InstView| rename::covered(&r, i);
    assert(p =~= (|i: InstView| rename::covered(&rename::Shift { add }, i)));
    assert(f =~= (|i: InstView| rename::renamed(&rename::Shift { add }, i)));
    model::lemma_every(m, p);
    model::lemma_map_insts(m, f);
    let a = m.all_insts();
    let b = rename::shifted(m, add).all_insts();
    assert forall|i: int, j: int|
        #![trigger b[i], b[j]]
        0 <= i < j < b.len() && b[i].result_id is Some implies b[i].result_id != b[j].result_id by {
        assert(p(a[i]) && p(a[j]));
        assert(a[i].result_id != a[j].result_id);
        assert(b[i] == f(a[i]) && b[j] == f(a[j]));
        assert(a[i].mentions(a[i].result_id->0));
        if a[j].result_id is Some {
            assert(a[j].mentions(a[j].result_id->0));
        }
    }
}

/// An id that two of the modules moved apart define is defined at most as often as
/// they define it together, so none is defined twice.
proof fn lemma_joined_once(inputs: Seq<ModuleView>, n: int, id: u32)
    requires
        link::joinable(inputs),
        forall|k: int| 0 <= k < inputs.len() ==> is_valid(#[trigger] inputs[k]),
        0 <= n <= inputs.len(),
    ensures
        definers(joined_all(link::moved_apart(inputs).take(n)).all_insts(), id) <= 1,
        definers(joined_all(link::moved_apart(inputs).take(n)).all_insts(), id) > 0 ==> id
            <= link::offset(inputs, n),
    decreases n,
{
    let apart = link::moved_apart(inputs);
    let front = apart.take(n);
    if n == 0 {
        let e = model::empty_module();
        assert(model::function_insts(e.functions) =~= Seq::empty());
        assert(e.all_insts() =~= Seq::empty());
    } else {
        let k = n - 1;
        assert(front.drop_last() =~= apart.take(k));
        assert(front.last() == apart[k]);
        lemma_joined_once(inputs, k, id);
        lemma_definers_joined(joined_all(apart.take(k)), apart[k], id);
        assert(is_valid(inputs[k]));
        if k > 0 {
            assert(rename::shiftable(inputs[k], link::offset(inputs, k) as u32));
            lemma_shifted_definers(inputs[k], link::offset(inputs, k) as u32);
        }
        lemma_once_definers(apart[k].all_insts(), id);
        link::lemma_offset_grows(inputs, k, n);
        if definers(apart[k].all_insts(), id) > 0 {
            let all = apart[k].all_insts();
            lemma_definers_some(all, id);
            let j = choose|j: int| 0 <= j < all.len() && (#[trigger] all[j]).result_id == Some(id);
            assert(all[j].mentions(id));
            assert(rename::occurs(apart[k], id));
            lemma_moved_ids(inputs, k, id);
        }
    }
}

/// What valid modules are merged into is well placed, and no id is defined twice in
/// it.
pub proof fn law_merged_is_valid(inputs: Seq<ModuleView>)
    requires
        link::joinable(inputs),
        forall|k: int| 0 <= k < inputs.len() ==> is_valid(#[trigger] inputs[k]),
    ensures
        sections::well_placed(link::merged(inputs)),
        merging::defined_once(link::merged(inputs).all_insts()),
{
    let apart = link::moved_apart(inputs);
    assert forall|k: int| 0 <= k < inputs.len() implies sections::well_placed(
        #[trigger] inputs[k],
    ) by {
        assert(is_valid(inputs[k]));
    }
    law_merged(inputs);
    sections::law_loaded_is_well_placed(link::joined_insts(apart));
    assert(apart.take(apart.len() as int) =~= apart);
    assert forall|id: u32| #[trigger] definers(link::merged(inputs).all_insts(), id) <= 1 by {
        lemma_joined_once(inputs, inputs.len() as int, id);
    }
    lemma_definers_once(link::merged(inputs).all_insts());
}

/// Whether `a` stands in `b` from place `base` on.
pub open spec fn is_run<A>(a: Seq<A>, b: Seq<A>, base: nat) -> bool {
    &&& base + a.len() <= b.len()
    &&& forall|j: int| 0 <= j < a.len() ==> b[base + j] == #[trigger] a[j]
}

/// The sum of what `f` says of modules.
pub open spec fn summed(modules: Seq<ModuleView>, f: spec_fn(ModuleView) -> nat) -> nat
    decreases modules.len(),
{
    if modules.len() == 0 {
        0
    } else {
        summed(modules.drop_last(), f) + f(modules.last())
    }
}

/// Whether each section of `m` holds that of `n` as a whole, right after as many
/// instructions as the modules `before` have there.
pub open spec fn holds_after(m: ModuleView, n: ModuleView, before: Seq<ModuleView>) -> bool {
    &&& is_run(
        n.capabilities,
        m.capabilities,
        summed(before, |x: ModuleView| x.capabilities.len()),
    )
    &&& is_run(
        n.extensions,
        m.extensions,
        summed(before, |x: ModuleView| x.extensions.len()),
    )
    &&& is_run(
        n.ext_inst_imports,
        m.ext_inst_imports,
        summed(before, |x: ModuleView| x.ext_inst_imports.len()),
    )
    &&& is_run(
        n.entry_points,
        m.entry_points,
        summed(before, |x: ModuleView| x.entry_points.len()),
    )
    &&& is_run(
        n.execution_modes,
        m.execution_modes,
        summed(before, |x: ModuleView| x.execution_modes.len()),
    )
    &&& is_run(
        n.debug_string_source,
        m.debug_string_source,
        summed(before, |x: ModuleView| x.debug_string_source.len()),
    )
    &&& is_run(
        n.debug_names,
        m.debug_names,
        summed(before, |x: ModuleView| x.debug_names.len()),
    )
    &&& is_run(
        n.debug_module_processed,
        m.debug_module_processed,
        summed(before, |x: ModuleView| x.debug_module_processed.len()),
    )
    &&& is_run(
        n.annotations,
        m.annotations,
        summed(before, |x: ModuleView| x.annotations.len()),
    )
    &&& is_run(
        n.types_global_values,
        m.types_global_values,
        summed(before, |x: ModuleView| x.types_global_values.len()),
    )
    &&& is_run(
        n.functions,
        m.functions,
        summed(before, |x: ModuleView| x.functions.len()),
    )
}

/// Whether each section of `m` is as long as those of modules together.
pub open spec fn is_as_long(m: ModuleView, modules: Seq<ModuleView>) -> bool {
    &&& m.capabilities.len() == summed(modules, |x: ModuleView| x.capabilities.len())
    &&& m.extensions.len() == summed(modules, |x: ModuleView| x.extensions.len())
    &&& m.ext_inst_imports.len() == summed(modules, |x: ModuleView| x.ext_inst_imports.len())
    &&& m.entry_points.len() == summed(modules, |x: ModuleView| x.entry_points.len())
    &&& m.execution_modes.len() == summed(modules, |x: ModuleView| x.execution_modes.len())
    &&& m.debug_string_source.len() == summed(modules, |x: ModuleView| x.debug_string_source.len())
    &&& m.debug_names.len() == summed(modules, |x: ModuleView| x.debug_names.len())
    &&& m.debug_module_processed.len() == summed(modules, |x: ModuleView| x.debug_module_processed.len())
    &&& m.annotations.len() == summed(modules, |x: ModuleView| x.annotations.len())
    &&& m.types_global_values.len() == summed(modules, |x: ModuleView| x.types_global_values.len())
    &&& m.functions.len() == summed(modules, |x: ModuleView| x.functions.len())
}

#[verifier::spinoff_prover]
proof fn lemma_as_long(modules: Seq<ModuleView>)
    ensures
        is_as_long(joined_all(modules), modules),
    decreases modules.len(),
{
    if modules.len() > 0 {
        let rest = modules.drop_last();
        let last = modules.last();
        lemma_as_long(rest);
        assert(summed(modules, |x: ModuleView| x.capabilities.len()) == summed(
            rest,
            |x: ModuleView| x.capabilities.len(),
        ) + last.capabilities.len());
        assert(summed(modules, |x: ModuleView| x.extensions.len()) == summed(
            rest,
            |x: ModuleView| x.extensions.len(),
        ) + last.extensions.len());
        assert(summed(modules, |x: ModuleView| x.ext_inst_imports.len()) == summed(
            rest,
            |x: ModuleView| x.ext_inst_imports.len(),
        ) + last.ext_inst_imports.len());
        assert(summed(modules, |x: ModuleView| x.entry_points.len()) == summed(
            rest,
            |x: ModuleView| x.entry_points.len(),
        ) + last.entry_points.len());
        assert(summed(modules, |x: ModuleView| x.execution_modes.len()) == summed(
            rest,
            |x: ModuleView| x.execution_modes.len(),
        ) + last.execution_modes.len());
        assert(summed(modules, |x: ModuleView| x.debug_string_source.len()) == summed(
            rest,
            |x: ModuleView| x.debug_string_source.len(),
        ) + last.debug_string_source.len());
        assert(summed(modules, |x: ModuleView| x.debug_names.len()) == summed(
            rest,
            |x: ModuleView| x.debug_names.len(),
        ) + last.debug_names.len());
        assert(summed(modules, |x: ModuleView| x.debug_module_processed.len()) == summed(
            rest,
            |x: ModuleView| x.debug_module_processed.len(),
        ) + last.debug_module_processed.len());
        assert(summed(modules, |x: ModuleView| x.annotations.len()) == summed(
            rest,
            |x: ModuleView| x.annotations.len(),
        ) + last.annotations.len());
        assert(summed(modules, |x: ModuleView| x.types_global_values.len()) == summed(
            rest,
            |x: ModuleView| x.types_global_values.len(),
        ) + last.types_global_values.len());
        assert(summed(modules, |x: ModuleView| x.functions.len()) == summed(
            rest,
            |x: ModuleView| x.functions.len(),
        ) + last.functions.len());
    }
}

#[verifier::spinoff_prover]
#[verifier::rlimit(40)]
proof fn lemma_holds(modules: Seq<ModuleView>, k: int)
    requires
        0 <= k < modules.len(),
    ensures
        holds_after(joined_all(modules), modules[k], modules.take(k)),
    decreases modules.len(),
{
    let rest = modules.drop_last();
    let n = modules.len() - 1;
    let m = joined_all(rest);
    if k < n {
        lemma_holds(rest, k);
        assert(rest[k] == modules[k]);
        assert(rest.take(k) =~= modules.take(k));
    } else {
        assert(modules.take(k) =~= rest);
        lemma_as_long(rest);
    }
}

/// What a module adds to a sum does not change when its ids are moved.
proof fn lemma_summed_moved(inputs: Seq<ModuleView>, f: spec_fn(ModuleView) -> nat, k: int)
    requires
        0 <= k <= inputs.len(),
        forall|j: int|
            0 <= j < inputs.len() ==> f(#[trigger] link::moved_apart(inputs)[j]) == f(inputs[j]),
    ensures
        summed(link::moved_apart(inputs).take(k), f) == summed(inputs.take(k), f),
    decreases k,
{
    if k > 0 {
        let apart = link::moved_apart(inputs);
        lemma_summed_moved(inputs, f, k - 1);
        assert(apart.take(k).drop_last() =~= apart.take(k - 1));
        assert(inputs.take(k).drop_last() =~= inputs.take(k - 1));
        assert(f(apart[k - 1]) == f(inputs[k - 1]));
    }
}

/// Merging modules puts each section of each module, with the same number added to all its
/// ids, after those of the modules before it, and adds nothing else. The number is how many
/// ids lie below the bounds of the modules before.
pub proof fn law_merged_holds_all(inputs: Seq<ModuleView>, k: int)
    requires
        link::joinable(inputs),
        forall|j: int| 0 <= j < inputs.len() ==> sections::well_placed(#[trigger] inputs[j]),
        0 <= k < inputs.len(),
    ensures
        ({
            let m = link::merged(inputs);
            let n = link::moved_apart(inputs)[k];
            let add = link::offset(inputs, k);
            &&& holds_after(m, n, inputs.take(k))
            &&& is_as_long(m, inputs)
            &&& ids::are_under(
                inputs[k],
                n,
                |id: u32| (id + add) as u32,
                |id: u32| (id + add) as u32,
            )
            &&& forall|id: u32| #[trigger]
                rename::occurs(inputs[k], id) ==> id + add <= u32::MAX
            &&& link::offset(inputs, 0) == 0
            &&& link::offset(inputs, k + 1) == add + (inputs[k].header->0).bound - 1
        }),
{
    let apart = link::moved_apart(inputs);
    let n = inputs.len() as int;
    let add = link::offset(inputs, k);
    law_merged(inputs);
    lemma_holds(apart, k);
    lemma_as_long(apart);
    assert(apart.take(n) =~= apart);
    assert(inputs.take(n) =~= inputs);
    lemma_summed_moved(inputs, |x: ModuleView| x.capabilities.len(), n);
    lemma_summed_moved(inputs, |x: ModuleView| x.extensions.len(), n);
    lemma_summed_moved(inputs, |x: ModuleView| x.ext_inst_imports.len(), n);
    lemma_summed_moved(inputs, |x: ModuleView| x.entry_points.len(), n);
    lemma_summed_moved(inputs, |x: ModuleView| x.execution_modes.len(), n);
    lemma_summed_moved(inputs, |x: ModuleView| x.debug_string_source.len(), n);
    lemma_summed_moved(inputs, |x: ModuleView| x.debug_names.len(), n);
    lemma_summed_moved(inputs, |x: ModuleView| x.debug_module_processed.len(), n);
    lemma_summed_moved(inputs, |x: ModuleView| x.annotations.len(), n);
    lemma_summed_moved(inputs, |x: ModuleView| x.types_global_values.len(), n);
    lemma_summed_moved(inputs, |x: ModuleView| x.functions.len(), n);
    assert(summed(apart.take(k), |x: ModuleView| x.capabilities.len()) == summed(
        inputs.take(k),
        |x: ModuleView| x.capabilities.len(),
    )) by {
        lemma_summed_moved(inputs, |x: ModuleView| x.capabilities.len(), k);
    }
    assert(summed(apart.take(k), |x: ModuleView| x.extensions.len()) == summed(
        inputs.take(k),
        |x: ModuleView| x.extensions.len(),
    )) by {
        lemma_summed_moved(inputs, |x: ModuleView| x.extensions.len(), k);
    }
    assert(summed(apart.take(k), |x: ModuleView| x.ext_inst_imports.len()) == summed(
        inputs.take(k),
        |x: ModuleView| x.ext_inst_imports.len(),
    )) by {
        lemma_summed_moved(inputs, |x: ModuleView| x.ext_inst_imports.len(), k);
    }
    assert(summed(apart.take(k), |x: ModuleView| x.entry_points.len()) == summed(
        inputs.take(k),
        |x: ModuleView| x.entry_points.len(),
    )) by {
        lemma_summed_moved(inputs, |x: ModuleView| x.entry_points.len(), k);
    }
    assert(summed(apart.take(k), |x: ModuleView| x.execution_modes.len()) == summed(
        inputs.take(k),
        |x: ModuleView| x.execution_modes.len(),
    )) by {
        lemma_summed_moved(inputs, |x: ModuleView| x.execution_modes.len(), k);
    }
    assert(summed(apart.take(k), |x: ModuleView| x.debug_string_source.len()) == summed(
        inputs.take(k),
        |x: ModuleView| x.debug_string_source.len(),
    )) by {
        lemma_summed_moved(inputs, |x: ModuleView| x.debug_string_source.len(), k);
    }
    assert(summed(apart.take(k), |x: ModuleView| x.debug_names.len()) == summed(
        inputs.take(k),
        |x: ModuleView| x.debug_names.len(),
    )) by {
        lemma_summed_moved(inputs, |x: ModuleView| x.debug_names.len(), k);
    }
    assert(summed(apart.take(k), |x: ModuleView| x.debug_module_processed.len()) == summed(
        inputs.take(k),
        |x: ModuleView| x.debug_module_processed.len(),
    )) by {
        lemma_summed_moved(inputs, |x: ModuleView| x.debug_module_processed.len(), k);
    }
    assert(summed(apart.take(k), |x: ModuleView| x.annotations.len()) == summed(
        inputs.take(k),
        |x: ModuleView| x.annotations.len(),
    )) by {
        lemma_summed_moved(inputs, |x: ModuleView| x.annotations.len(), k);
    }
    assert(summed(apart.take(k), |x: ModuleView| x.types_global_values.len()) == summed(
        inputs.take(k),
        |x: ModuleView| x.types_global_values.len(),
    )) by {
        lemma_summed_moved(inputs, |x: ModuleView| x.types_global_values.len(), k);
    }
    assert(summed(apart.take(k), |x: ModuleView| x.functions.len()) == summed(
        inputs.take(k),
        |x: ModuleView| x.functions.len(),
    )) by {
        lemma_summed_moved(inputs, |x: ModuleView| x.functions.len(), k);
    }
    link::lemma_offset_grows(inputs, k, n);
    let f = |id: u32| (id + add) as u32;
    if k == 0 {
        assert(link::offset(inputs, 0) == 0);
        assert forall|i: InstView| #[trigger] ids::is_under(i, i, f, f) by {}
    } else {
        assert(rename::shiftable(inputs[k], add as u32));
        ids::law_shifted(inputs[k], add as u32);
        let g = |id: u32| (id + add as u32) as u32;
        assert(f =~= g);
    }
}

/// The memory model of merged modules is that of the last module that has one.
pub proof fn law_merged_memory_model(inputs: Seq<ModuleView>, k: int)
    requires
        link::joinable(inputs),
        forall|j: int| 0 <= j < inputs.len() ==> sections::well_placed(#[trigger] inputs[j]),
        0 <= k < inputs.len(),
        forall|j: int| k < j < inputs.len() ==> (#[trigger] inputs[j]).memory_model is None,
        inputs[k].memory_model is Some,
    ensures
        link::merged(inputs).memory_model == link::moved_apart(inputs)[k].memory_model,
{
    let apart = link::moved_apart(inputs);
    law_merged(inputs);
    assert forall|j: int| k < j < apart.len() implies (#[trigger] apart[j]).memory_model is None by {
        assert(inputs[j].memory_model is None);
    }
    lemma_last_memory_model(apart, k);
}

proof fn lemma_last_memory_model(modules: Seq<ModuleView>, k: int)
    requires
        0 <= k < modules.len(),
        forall|j: int| k < j < modules.len() ==> (#[trigger] modules[j]).memory_model is None,
        modules[k].memory_model is Some,
    ensures
        joined_all(modules).memory_model == modules[k].memory_model,
    decreases modules.len(),
{
    let rest = modules.drop_last();
    if k < rest.len() {
        assert forall|j: int| k < j < rest.len() implies (#[trigger] rest[j]).memory_model is None by {
            assert(rest[j] == modules[j]);
        }
        assert(modules[modules.len() - 1].memory_model is None);
        lemma_last_memory_model(rest, k);
    }
}

/// How many ids lie below the bound of a module.
pub open spec fn ids_below(m: ModuleView) -> nat {
    ((m.header->0).bound - 1) as nat
}

proof fn lemma_offset(inputs: Seq<ModuleView>, k: int)
    requires
        0 <= k <= inputs.len(),
        forall|j: int| 0 <= j < inputs.len() ==> link::is_bounded(#[trigger] inputs[j]),
    ensures
        link::offset(inputs, k) == summed(inputs.take(k), |m: ModuleView| ids_below(m)),
    decreases k,
{
    if k > 0 {
        lemma_offset(inputs, k - 1);
        assert(inputs.take(k).drop_last() =~= inputs.take(k - 1));
        assert(link::is_bounded(inputs[k - 1]));
    }
}

/// Valid modules can be merged exactly where there are any and the ids below their bounds,
/// taken together, are not too many.
pub proof fn law_joinable(inputs: Seq<ModuleView>)
    requires
        forall|k: int| 0 <= k < inputs.len() ==> is_valid(#[trigger] inputs[k]),
    ensures
        link::joinable(inputs) <==> inputs.len() > 0 && summed(
            inputs,
            |m: ModuleView| ids_below(m),
        ) <= u32::MAX,
{
    let n = inputs.len() as int;
    assert forall|j: int| 0 <= j < inputs.len() implies link::is_bounded(#[trigger] inputs[j]) by {
        assert(is_valid(inputs[j]));
    }
    lemma_offset(inputs, n);
    assert(inputs.take(n) =~= inputs);
    if link::offset(inputs, n) <= u32::MAX {
        assert forall|k: int| 1 <= k < inputs.len() implies rename::shiftable(
            #[trigger] inputs[k],
            link::offset(inputs, k) as u32,
        ) by {
            let add = link::offset(inputs, k);
            assert(is_valid(inputs[k]));
            link::lemma_offset_grows(inputs, k, n);
            link::lemma_offset_grows(inputs, k + 1, n);
            assert forall|l: int, p: int, id: u32| #[trigger] ids::stands_at(inputs[k], l, p, id) implies
                id + add as u32 <= u32::MAX by {
                let all = inputs[k].all_insts();
                if p >= 2 {
                    assert(all[l].operands[p - 2].id() == Some(id));
                    assert(all[l].operand_uses(id));
                }
                assert(all[l].mentions(id));
                assert(rename::occurs(inputs[k], id));
            }
            ids::law_shiftable(inputs[k], add as u32);
        }
    }
}

} // verus!
