//! What a linked module holds of the modules that it was linked from.
//!
//! The statements relate the linked module to the merged one, which holds the
//! instructions of all modules with their ids moved apart.

use vstd::prelude::*;

use crate::dedup;
use crate::defs;
use crate::effects;
use crate::globals;
use crate::joining;
use crate::laws;
use crate::link;
use crate::linkage;
use crate::linkage::Options;
use crate::merging;
use crate::model;
use crate::model::{FunctionView, InstView, ModuleView, OperandView};
use crate::opcode;
use crate::pairing;
use crate::rename;
use crate::sections;
use crate::sweep;
use crate::symbols;
use crate::symbols::{InfoView, PairView, SymbolView};
use crate::types;

verus! {

/// Whether modules are linked without an error, and all of them are valid.
pub open spec fn links_valid(inputs: Seq<ModuleView>, opts: Options) -> bool {
    &&& laws::links(inputs, opts)
    &&& forall|k: int| 0 <= k < inputs.len() ==> joining::is_valid(#[trigger] inputs[k])
}

/// What becomes of an instruction of the merged module: the ids that it refers to are
/// replaced by those that stand in for them, and all ids are renumbered.
pub open spec fn moved(inputs: Seq<ModuleView>, opts: Options, i: InstView) -> InstView {
    laws::numbered(
        laws::before_numbering(inputs, opts),
        laws::carried(link::merged(inputs), laws::info_of_merged(inputs, opts), i),
    )
}

/// The pairs of imports and exports of the merged module.
pub open spec fn pairs(inputs: Seq<ModuleView>, opts: Options) -> Seq<PairView> {
    laws::info_of_merged(inputs, opts).pairs
}

/// What becomes of an instruction keeps the opcode and all operands that are no ids, in
/// their places, and ids stay ids. So do a type and an id, if it has them.
pub proof fn law_moved(inputs: Seq<ModuleView>, opts: Options, i: InstView)
    ensures
        ({
            let r = moved(inputs, opts, i);
            &&& r.opcode == i.opcode
            &&& r.result_id is Some <==> i.result_id is Some
            &&& r.operands.len() == i.operands.len()
            &&& forall|k: int|
                0 <= k < i.operands.len() && (#[trigger] i.operands[k]).id() is None
                    ==> r.operands[k] == i.operands[k]
            &&& forall|k: int|
                0 <= k < i.operands.len() && (#[trigger] i.operands[k]).id() is Some
                    ==> r.operands[k].id() is Some
        }),
{
    let c = laws::before_numbering(inputs, opts);
    let y = laws::carried(link::merged(inputs), laws::info_of_merged(inputs, opts), i);
    laws::lemma_carried(link::merged(inputs), laws::info_of_merged(inputs, opts), i);
    laws::lemma_numbered(c, y);
    let r = laws::numbered(c, y);
    assert forall|k: int| 0 <= k < i.operands.len() && (#[trigger] i.operands[k]).id() is None implies
        r.operands[k] == i.operands[k] by {
        assert(y.operands[k] == i.operands[k]);
    }
    assert forall|k: int| 0 <= k < i.operands.len() && (#[trigger] i.operands[k]).id() is Some implies
        r.operands[k].id() is Some by {
        if r.operands[k].id() is None {
            assert(y.operands[k] == r.operands[k]);
            assert(y.operands[k] == i.operands[k]);
        }
    }
}

proof fn lemma_valid(inputs: Seq<ModuleView>, opts: Options)
    requires
        links_valid(inputs, opts),
    ensures
        sections::well_placed(link::merged(inputs)),
        merging::defined_once(link::merged(inputs).all_insts()),
{
    joining::law_merged_is_valid(inputs);
}

proof fn lemma_map_moved(inputs: Seq<ModuleView>, opts: Options, s: Seq<InstView>)
    ensures
        ({
            let m = link::merged(inputs);
            let info = laws::info_of_merged(inputs, opts);
            let c = laws::before_numbering(inputs, opts);
            s.map_values(|i: InstView| laws::carried(m, info, i)).map_values(
                |i: InstView| laws::numbered(c, i),
            ) == s.map_values(|i: InstView| moved(inputs, opts, i))
        }),
{
    let m = link::merged(inputs);
    let info = laws::info_of_merged(inputs, opts);
    let c = laws::before_numbering(inputs, opts);
    assert(s.map_values(|i: InstView| laws::carried(m, info, i)).map_values(
        |i: InstView| laws::numbered(c, i),
    ) =~= s.map_values(|i: InstView| moved(inputs, opts, i)));
}

/// The sections of the linked module are those before it is renumbered, renumbered.
proof fn lemma_finished(inputs: Seq<ModuleView>, opts: Options)
    requires
        laws::links(inputs, opts),
    ensures
        ({
            let c = laws::before_numbering(inputs, opts);
            let r = laws::result(inputs, opts);
            let n = c.map_insts(|i: InstView| laws::numbered(c, i));
            &&& r.capabilities == n.capabilities
            &&& r.extensions == n.extensions
            &&& r.ext_inst_imports == n.ext_inst_imports
            &&& r.memory_model == n.memory_model
            &&& r.entry_points == n.entry_points
            &&& r.execution_modes == n.execution_modes
            &&& r.debug_string_source == n.debug_string_source
            &&& r.debug_names == n.debug_names
            &&& r.debug_module_processed == n.debug_module_processed.push(link::processed())
            &&& r.annotations == n.annotations
            &&& r.types_global_values == n.types_global_values
            &&& r.functions == n.functions
        }),
{
    laws::lemma_links(inputs, opts);
    let c = laws::before_numbering(inputs, opts);
    let order = rename::ids_in_order(c);
    let f = |i: InstView| laws::numbered(c, i);
    let g = |i: InstView|
        i.renamed(|id: u32| rename::number_in(order, id), |id: u32| rename::number_in(order, id));
    assert forall|i: InstView| #[trigger] f(i) == g(i) by {}
    assert(f =~= g);
}

/// The extensions, the memory model and the execution modes of the modules are all in
/// the linked module, in order.
pub proof fn law_preamble_is_kept(inputs: Seq<ModuleView>, opts: Options)
    requires
        links_valid(inputs, opts),
    ensures
        ({
            let n = link::merged(inputs).map_insts(|i: InstView| moved(inputs, opts, i));
            let r = laws::result(inputs, opts);
            &&& r.extensions == n.extensions
            &&& r.memory_model == n.memory_model
            &&& r.execution_modes == n.execution_modes
        }),
{
    let m = link::merged(inputs);
    let info = laws::info_of_merged(inputs, opts);
    lemma_valid(inputs, opts);
    lemma_finished(inputs, opts);
    laws::lemma_resolved_sections(m, info);
    lemma_map_moved(inputs, opts, m.extensions);
    lemma_map_moved(inputs, opts, m.execution_modes);
}

/// The functions of the linked module are those of the modules that are no imports of
/// pairs, in order, instruction by instruction.
pub proof fn law_functions_are_kept(inputs: Seq<ModuleView>, opts: Options)
    requires
        links_valid(inputs, opts),
    ensures
        ({
            let m = link::merged(inputs);
            let n = m.map_insts(|i: InstView| moved(inputs, opts, i));
            let r = laws::result(inputs, opts);
            exists|places: Seq<int>|
                {
                    &&& #[trigger] dedup::stand_at(r.functions, n.functions, places)
                    &&& forall|j: int|
                        0 <= j < m.functions.len() && (#[trigger] m.functions[j]).def is Some && (
                        m.functions[j].def->0).result_id is Some ==> (places.contains(j)
                            <==> !effects::defines_import_of(
                            pairs(inputs, opts),
                            m.functions[j].def->0,
                        ))
                }
        }),
{
    let m = link::merged(inputs);
    let info = laws::info_of_merged(inputs, opts);
    let c = laws::before_numbering(inputs, opts);
    let r = laws::result(inputs, opts);
    let a = link::resolved(m, info);
    let f = |i: InstView| laws::carried(m, info, i);
    let h = |i: InstView| laws::numbered(c, i);
    let g = |i: InstView| moved(inputs, opts, i);
    let n = m.map_insts(g);
    lemma_valid(inputs, opts);
    lemma_finished(inputs, opts);
    laws::lemma_resolved_sections(m, info);
    model::lemma_map_twice(m, f, h);
    assert((|i: InstView| h(f(i))) =~= g);
    let keep = |f: FunctionView| !linkage::is_imported(info.pairs, linkage::function_id(f));
    let places = merging::lemma_filter_places(a.functions, keep);
    assert(c.functions == a.functions.filter(keep));
    assert forall|k: int| 0 <= k < r.functions.len() implies 0 <= #[trigger] places[k]
        < n.functions.len() && n.functions[places[k]] == r.functions[k] by {
        assert(a.functions[places[k]] == c.functions[k]);
        assert(m.map_insts(f).map_insts(h).functions[places[k]] == c.functions[k].map_insts(h));
    }
    assert(dedup::stand_at(r.functions, n.functions, places));
    assert forall|j: int|
        0 <= j < m.functions.len() && (#[trigger] m.functions[j]).def is Some && (
        m.functions[j].def->0).result_id is Some implies (places.contains(j)
        <==> !effects::defines_import_of(info.pairs, m.functions[j].def->0)) by {
        let d = m.functions[j].def->0;
        laws::lemma_carried(m, info, d);
        assert(a.functions[j].def == Some(f(d)));
        assert(linkage::function_id(a.functions[j]) == d.result_id->0);
        if places.contains(j) {
            let k = choose|k: int| 0 <= k < places.len() && places[k] == j;
            assert(keep(c.functions[k]));
            assert(a.functions[places[k]] == c.functions[k]);
        } else {
            assert(!keep(a.functions[j]));
        }
    }
}

/// Renumbering keeps operands apart that occur in an entry point.
proof fn lemma_numbered_operand(c: ModuleView, k: int, x: int, y: int)
    requires
        rename::numberable(c),
        0 <= k < c.entry_points.len(),
        0 <= x < c.entry_points[k].operands.len(),
        0 <= y < c.entry_points[k].operands.len(),
        laws::numbered(c, c.entry_points[k]).operands[x] == laws::numbered(
            c,
            c.entry_points[k],
        ).operands[y],
    ensures
        c.entry_points[k].operands[x] == c.entry_points[k].operands[y],
{
    let i = c.entry_points[k];
    laws::lemma_numbered(c, i);
    let o = i.operands[x];
    let q = i.operands[y];
    if o.id() is Some && q.id() is Some {
        assert(i.operand_uses(o.id()->0) && i.operand_uses(q.id()->0));
        laws::lemma_entry_point_occurs(c, k, o.id()->0);
        laws::lemma_entry_point_occurs(c, k, q.id()->0);
        rename::law_compacted(c, o.id()->0, q.id()->0);
    }
}

/// Each entry point of the modules is in the linked module, in order. Its model, function
/// and name stay. None of its interface variables is lost, each is named once, and they
/// keep the order in which they are first named.
pub proof fn law_interfaces_are_kept(inputs: Seq<ModuleView>, opts: Options)
    requires
        links_valid(inputs, opts),
    ensures
        ({
            let m = link::merged(inputs);
            let r = laws::result(inputs, opts);
            &&& r.entry_points.len() == m.entry_points.len()
            &&& forall|k: int|
                #![trigger m.entry_points[k]]
                #![trigger r.entry_points[k]]
                0 <= k < m.entry_points.len() ==> exists|places: Seq<int>| #[trigger]
                    effects::names_each_once(
                        moved(inputs, opts, m.entry_points[k]),
                        r.entry_points[k],
                        places,
                    )
        }),
{
    let m = link::merged(inputs);
    let info = laws::info_of_merged(inputs, opts);
    let c = laws::before_numbering(inputs, opts);
    let r = laws::result(inputs, opts);
    let a = link::resolved(m, info);
    lemma_valid(inputs, opts);
    lemma_finished(inputs, opts);
    laws::lemma_links(inputs, opts);
    laws::lemma_resolved_sections(m, info);
    let u = linkage::unlinked(a, info.pairs, opts.lib);
    effects::law_distinct_interfaces(u);
    assert forall|k: int|
        #![trigger m.entry_points[k]]
        #![trigger r.entry_points[k]]
        0 <= k < m.entry_points.len() implies exists|places: Seq<int>| #[trigger]
        effects::names_each_once(
            moved(inputs, opts, m.entry_points[k]),
            r.entry_points[k],
            places,
        ) by {
        let i = m.entry_points[k];
        let y = laws::carried(m, info, i);
        let z = c.entry_points[k];
        laws::lemma_carried(m, info, i);
        assert(i.opcode == opcode::ENTRY_POINT);
        assert(u.entry_points[k] == y);
        let places = choose|places: Seq<int>| #[trigger] effects::names_each_once(y, z, places);
        lemma_names_numbered(c, k, y, places);
        assert(r.entry_points[k] == laws::numbered(c, z));
    }
}

proof fn lemma_names_numbered(c: ModuleView, k: int, y: InstView, places: Seq<int>)
    requires
        rename::numberable(c),
        0 <= k < c.entry_points.len(),
        effects::names_each_once(y, c.entry_points[k], places),
    ensures
        effects::names_each_once(
            laws::numbered(c, y),
            laws::numbered(c, c.entry_points[k]),
            places,
        ),
{
    let z = c.entry_points[k];
    let i = laws::numbered(c, y);
    let r = laws::numbered(c, z);
    let n = effects::BEFORE_INTERFACE as int;
    laws::lemma_numbered(c, y);
    laws::lemma_numbered(c, z);
    let f = |id: u32| rename::number_in(rename::ids_in_order(c), id);
    assert forall|l: int| 0 <= l < r.operands.len() implies 0 <= #[trigger] places[l]
        < i.operands.len() && i.operands[places[l]] == r.operands[l] by {
        assert(y.operands[places[l]] == z.operands[l]);
    }
    assert forall|l: int| n <= l < i.operands.len() implies effects::is_in_interface(
        r,
        #[trigger] i.operands[l],
    ) by {
        assert(effects::is_in_interface(z, y.operands[l]));
        let j = choose|j: int| n <= j < z.operands.len() && (#[trigger] z.operands[j]) == y.operands[l];
        assert(r.operands[j] == i.operands[l]);
    }
    assert forall|j: int, l: int|
        #![trigger places[j], i.operands[l]]
        n <= j < r.operands.len() && r.operands[j] is IdRef && n <= l < places[j] implies
        i.operands[l] != r.operands[j] by {
        assert(y.operands[l] != z.operands[j]) by {
            assert(z.operands[j] is IdRef);
        }
        assert(effects::is_in_interface(z, y.operands[l]));
        let q = choose|q: int| n <= q < z.operands.len() && (#[trigger] z.operands[q]) == y.operands[l];
        if i.operands[l] == r.operands[j] {
            assert(r.operands[q] == r.operands[j]);
            lemma_numbered_operand(c, k, q, j);
        }
    }
    assert forall|l: int|
        #![trigger i.operands[l]]
        n <= l < i.operands.len() && !(i.operands[l] is IdRef) implies places.contains(l) by {
        assert(!(y.operands[l] is IdRef));
    }
    assert(dedup::stand_at(r.operands, i.operands, places));
}

/// Whether a declaration of the merged module is dropped because another one says the
/// same.
pub open spec fn is_merged_away(inputs: Seq<ModuleView>, opts: Options, id: u32) -> bool {
    let m = link::merged(inputs);
    merging::dropped_ids(
        merging::merges_of(laws::prepared(m), link::set_apart(m, pairs(inputs, opts))),
    ).contains(id)
}

/// Whether a module imports an instruction set under `id`.
pub open spec fn is_set(m: ModuleView, id: u32) -> bool {
    exists|k: int|
        0 <= k < m.ext_inst_imports.len() && (#[trigger] m.ext_inst_imports[k]).result_id == Some(id)
}

/// Whether `id` is that of a symbol or of a parameter of a symbol.
pub open spec fn is_part_of(symbols: Seq<SymbolView>, id: u32) -> bool {
    exists|k: int| 0 <= k < symbols.len() && #[trigger] is_part_of_one(symbols[k], id)
}

/// Whether `id` is that of a symbol or of one of its parameters.
pub open spec fn is_part_of_one(s: SymbolView, id: u32) -> bool {
    ||| s.id == id
    ||| exists|j: int|
        0 <= j < s.parameters.len() && (#[trigger] s.parameters[j]).result_id == Some(id)
}

/// What is said about imports is what is said about the imports themselves and about
/// their parameters.
pub proof fn law_imported_ids(imports: Seq<SymbolView>, id: u32)
    requires
        forall|k: int, j: int|
            0 <= k < imports.len() && 0 <= j < imports[k].parameters.len() ==> (
            #[trigger] imports[k].parameters[j]).result_id is Some,
    ensures
        linkage::imported_ids(imports).contains(id) <==> is_part_of(imports, id),
    decreases imports.len(),
{
    if imports.len() > 0 {
        let rest = imports.drop_last();
        let n = imports.len() - 1;
        let last = imports.last();
        let a = linkage::imported_ids(rest);
        let p = linkage::parameter_ids(last.parameters);
        let b = linkage::imported_ids(imports);
        assert(imports[n] == last);
        assert forall|k: int, j: int|
            0 <= k < rest.len() && 0 <= j < rest[k].parameters.len() implies (
        #[trigger] rest[k].parameters[j]).result_id is Some by {
            assert(imports[k].parameters[j].result_id is Some);
        }
        law_imported_ids(rest, id);
        assert(b == a.push(last.id) + p);
        if b.contains(id) {
            let k = choose|k: int| 0 <= k < b.len() && b[k] == id;
            if k < a.len() {
                assert(a[k] == id);
                let j = choose|j: int| 0 <= j < rest.len() && #[trigger] is_part_of_one(rest[j], id);
                assert(is_part_of_one(imports[j], id));
            } else if k > a.len() {
                let j = k - a.len() - 1;
                assert(p[j] == id);
                assert(imports[n].parameters[j].result_id is Some);
                assert(last.parameters[j].result_id == Some(id));
                assert(is_part_of_one(imports[n], id));
            } else {
                assert(is_part_of_one(imports[n], id));
            }
        }
        if is_part_of(imports, id) {
            let k = choose|k: int| 0 <= k < imports.len() && #[trigger] is_part_of_one(imports[k], id);
            if k < n {
                assert(is_part_of_one(rest[k], id));
                let j = choose|j: int| 0 <= j < a.len() && a[j] == id;
                assert(b[j] == id);
            } else if last.id == id {
                assert(b[a.len() as int] == id);
            } else {
                let j = choose|j: int|
                    0 <= j < last.parameters.len() && (#[trigger] last.parameters[j]).result_id
                        == Some(id);
                assert(p[j] == id);
                assert(b[a.len() + 1 + j] == id);
            }
        }
    }
}

/// Whether what an instruction says is about no import that has an export, no parameter
/// of one, no declaration that another one says the same as, and no instruction set.
pub open spec fn stays_said(inputs: Seq<ModuleView>, opts: Options, v: InstView) -> bool {
    forall|id: u32| #[trigger]
        effects::speaks_of(v, id) ==> {
            &&& !linkage::imported_ids(laws::info_of_merged(inputs, opts).imports).contains(id)
            &&& !is_merged_away(inputs, opts, id)
            &&& !is_set(link::merged(inputs), id)
        }
}

/// Merges leave an operand that refers to no dropped id.
proof fn lemma_merged_operand(i: InstView, merges: Seq<(u32, u32)>, k: int)
    requires
        0 <= k < i.operands.len(),
        i.operands[k].id() matches Some(w) ==> !merging::dropped_ids(merges).contains(w),
    ensures
        merging::after_merges(i, merges).operands.len() == i.operands.len(),
        merging::after_merges(i, merges).operands[k] == i.operands[k],
    decreases merges.len(),
{
    if merges.len() > 0 {
        let rest = merges.drop_last();
        if i.operands[k].id() is Some {
            let w = i.operands[k].id()->0;
            if merging::dropped_ids(rest).contains(w) {
                let j = choose|j: int| 0 <= j < rest.len() && merging::dropped_ids(rest)[j] == w;
                assert(merging::dropped_ids(merges)[j] == w);
            }
            assert(merging::dropped_ids(merges)[merges.len() - 1] == merges.last().0);
        }
        lemma_merged_operand(i, rest, k);
    }
}

/// Replacing ids leaves an operand that refers to none that is replaced.
proof fn lemma_replaced_operand(i: InstView, swaps: Seq<(u32, u32)>, k: int)
    requires
        0 <= k < i.operands.len(),
        i.operands[k].id() matches Some(w) ==> forall|j: int|
            0 <= j < swaps.len() ==> (#[trigger] swaps[j]).0 != w,
    ensures
        rename::replaced_by(i, swaps).operands.len() == i.operands.len(),
        rename::replaced_by(i, swaps).operands[k] == i.operands[k],
    decreases swaps.len(),
{
    if swaps.len() > 0 {
        let rest = swaps.drop_last();
        if i.operands[k].id() is Some {
            assert(swaps[swaps.len() - 1].0 != i.operands[k].id()->0);
            assert forall|j: int| 0 <= j < rest.len() implies (#[trigger] rest[j]).0
                != i.operands[k].id()->0 by {
                assert(swaps[j] == rest[j]);
            }
        }
        lemma_replaced_operand(i, rest, k);
    }
}

/// An instruction of the merged module once duplicates are dropped.
pub open spec fn kept_inst(m: ModuleView, info: InfoView, v: InstView) -> InstView {
    merging::after_merges(
        rename::replaced_by(v, dedup::import_remap(m.ext_inst_imports)),
        merging::merges_of(laws::prepared(m), link::set_apart(m, info.pairs)),
    )
}

/// What stays said is about the same once duplicates are dropped.
proof fn lemma_stays_said(inputs: Seq<ModuleView>, opts: Options, v: InstView)
    requires
        stays_said(inputs, opts, v),
    ensures
        ({
            let m = link::merged(inputs);
            let info = laws::info_of_merged(inputs, opts);
            let z = kept_inst(m, info, v);
            &&& z.opcode == v.opcode
            &&& z.operands.len() == v.operands.len()
            &&& v.operands.len() > 0 ==> z.operands[0] == v.operands[0]
            &&& !effects::speaks_of_any(
                z,
                merging::dropped_ids(
                    merging::merges_of(laws::prepared(m), link::set_apart(m, info.pairs)),
                ),
            )
            &&& !effects::speaks_of_any(z, linkage::imported_ids(info.imports))
        }),
{
    let m = link::merged(inputs);
    let info = laws::info_of_merged(inputs, opts);
    let remap = dedup::import_remap(m.ext_inst_imports);
    let merges = merging::merges_of(laws::prepared(m), link::set_apart(m, info.pairs));
    let u = rename::replaced_by(v, remap);
    rename::lemma_replaced_by(v, remap);
    merging::lemma_after_merges(u, merges);
    if v.operands.len() > 0 {
        if v.operands[0].id() is Some {
            let w = v.operands[0].id()->0;
            assert(effects::speaks_of(v, w));
            assert forall|j: int| 0 <= j < remap.len() implies (#[trigger] remap[j]).0 != w by {
                laws::lemma_remap(m.ext_inst_imports, j);
            }
        }
        lemma_replaced_operand(v, remap, 0);
        lemma_merged_operand(u, merges, 0);
        let z = kept_inst(m, info, v);
        let dropped = merging::dropped_ids(merges);
        let ids = linkage::imported_ids(info.imports);
        if effects::speaks_of_any(z, dropped) {
            let k = choose|k: int| 0 <= k < dropped.len() && effects::speaks_of(z, #[trigger] dropped[k]);
            assert(effects::speaks_of(v, dropped[k]));
            assert(dropped.contains(dropped[k]));
        }
        if effects::speaks_of_any(z, ids) {
            let k = choose|k: int| 0 <= k < ids.len() && effects::speaks_of(z, #[trigger] ids[k]);
            assert(effects::speaks_of(v, ids[k]));
            assert(ids.contains(ids[k]));
        }
    }
}

/// What is said in the merged module and stays said is said in the resolved one, and
/// nothing else is.
proof fn lemma_resolved_said(m: ModuleView, info: InfoView, v: InstView)
    requires
        sections::well_placed(m),
        merging::defined_once(m.all_insts()),
        v.opcode != opcode::GROUP_DECORATE,
        !effects::speaks_of_any(
            kept_inst(m, info, v),
            merging::dropped_ids(
                merging::merges_of(laws::prepared(m), link::set_apart(m, info.pairs)),
            ),
        ),
        !effects::speaks_of_any(kept_inst(m, info, v), linkage::imported_ids(info.imports)),
    ensures
        ({
            let r = link::resolved(m, info);
            let y = laws::carried(m, info, v);
            &&& m.annotations.contains(v) ==> r.annotations.contains(y)
            &&& m.debug_names.contains(v) ==> r.debug_names.contains(y)
            &&& m.debug_string_source.contains(v) ==> r.debug_string_source.contains(y)
            &&& m.debug_module_processed.contains(v) ==> r.debug_module_processed.contains(y)
        }),
{
    let remap = dedup::import_remap(m.ext_inst_imports);
    let apart = link::set_apart(m, info.pairs);
    let p = laws::prepared(m);
    let merges = merging::merges_of(p, apart);
    let dropped = merging::dropped_ids(merges);
    let ids = linkage::imported_ids(info.imports);
    let swaps = link::pair_ids(info.pairs);
    let t = merging::merged_module(p, merges);
    let d = types::with_merged_types(p, apart);
    let x = sweep::without_all_annotations(d, ids);
    let r = link::resolved(m, info);
    let y = laws::carried(m, info, v);
    let z = kept_inst(m, info, v);
    let f1 = |i: InstView| rename::replaced_by(i, remap);
    let f2 = |i: InstView| merging::after_merges(i, merges);
    let f3 = |i: InstView| rename::replaced_by(i, swaps);
    laws::lemma_prepared(m);
    merging::law_with_distinct_types(p, apart);
    let a = dedup::with_distinct_capabilities(m);
    let b = ModuleView {
        ext_inst_imports: dedup::keep_first(
            a.ext_inst_imports,
            |i: InstView| dedup::import_name(i),
        ),
        ..a
    };
    rename::lemma_replaced_pairs(b, remap);
    rename::lemma_replaced_pairs(x, swaps);
    rename::lemma_replaced_by(v, remap);
    merging::lemma_after_merges(f1(v), merges);
    effects::law_silenced(t, dropped, z);
    effects::law_silenced(d, ids, z);
    lemma_map_contains(m.annotations, f1, v);
    lemma_map_contains(p.annotations, f2, f1(v));
    lemma_map_contains(x.annotations, f3, z);
    lemma_map_contains(m.debug_names, f1, v);
    lemma_map_contains(p.debug_names, f2, f1(v));
    lemma_map_contains(x.debug_names, f3, z);
    lemma_map_contains(m.debug_string_source, f1, v);
    lemma_map_contains(p.debug_string_source, f2, f1(v));
    lemma_map_contains(x.debug_string_source, f3, z);
    lemma_map_contains(m.debug_module_processed, f1, v);
    lemma_map_contains(p.debug_module_processed, f2, f1(v));
    lemma_map_contains(x.debug_module_processed, f3, z);
}

proof fn lemma_map_contains<A, B>(s: Seq<A>, f: spec_fn(A) -> B, x: A)
    ensures
        s.contains(x) ==> s.map_values(f).contains(f(x)),
{
    if s.contains(x) {
        let k = choose|k: int| 0 <= k < s.len() && s[k] == x;
        assert(s.map_values(f)[k] == f(x));
    }
}

proof fn lemma_annotation_stays(inputs: Seq<ModuleView>, opts: Options, v: InstView)
    requires
        links_valid(inputs, opts),
        link::merged(inputs).annotations.contains(v),
        v.opcode != opcode::GROUP_DECORATE,
        stays_said(inputs, opts, v),
        !effects::only_links(
            pairs(inputs, opts),
            opts.lib,
            laws::carried(link::merged(inputs), laws::info_of_merged(inputs, opts), v),
        ),
    ensures
        laws::result(inputs, opts).annotations.contains(moved(inputs, opts, v)),
{
    let m = link::merged(inputs);
    let info = laws::info_of_merged(inputs, opts);
    let c = laws::before_numbering(inputs, opts);
    let a = link::resolved(m, info);
    let y = laws::carried(m, info, v);
    lemma_valid(inputs, opts);
    lemma_finished(inputs, opts);
    lemma_stays_said(inputs, opts, v);
    lemma_resolved_said(m, info, v);
    let u = linkage::unlinked(a, info.pairs, opts.lib);
    effects::law_unlinked(a, info.pairs, opts.lib);
    assert(u.annotations.contains(y));
    let w = dedup::with_distinct_interfaces(u);
    effects::law_distinct_annotations(w);
    assert(dedup::with_distinct_annotations(w).annotations.contains(y));
    assert(c.annotations.contains(y));
    lemma_map_contains(c.annotations, |i: InstView| laws::numbered(c, i), y);
}

/// An annotation of the modules that does not mark a symbol for linking is in the linked
/// module, unless it is about an import, a parameter of one or a declaration that another
/// one says the same as. What it is about may well be exported.
pub proof fn law_annotations_are_kept(inputs: Seq<ModuleView>, opts: Options, v: InstView)
    requires
        links_valid(inputs, opts),
        link::merged(inputs).annotations.contains(v),
        v.opcode != opcode::GROUP_DECORATE,
        !effects::marks_symbol(v),
        stays_said(inputs, opts, v),
    ensures
        laws::result(inputs, opts).annotations.contains(moved(inputs, opts, v)),
{
    let m = link::merged(inputs);
    let info = laws::info_of_merged(inputs, opts);
    let y = laws::carried(m, info, v);
    laws::lemma_carried(m, info, v);
    if effects::marks_symbol(y) {
        assert(y.operands[1] == v.operands[1]);
    }
    lemma_annotation_stays(inputs, opts, v);
}

/// In a library, a decoration that marks a symbol as exported stays, unless the symbol
/// has been matched with an import.
pub proof fn law_library_exports_are_kept(
    inputs: Seq<ModuleView>,
    opts: Options,
    v: InstView,
    id: u32,
)
    requires
        links_valid(inputs, opts),
        opts.lib,
        link::merged(inputs).annotations.contains(v),
        effects::marks_symbol(v),
        v.operands[0] == OperandView::IdRef(id),
        !effects::is_import_of(pairs(inputs, opts), id),
        !effects::is_export_of(pairs(inputs, opts), id),
        stays_said(inputs, opts, v),
    ensures
        laws::result(inputs, opts).annotations.contains(moved(inputs, opts, v)),
{
    let m = link::merged(inputs);
    let info = laws::info_of_merged(inputs, opts);
    let swaps = link::pair_ids(info.pairs);
    let z = kept_inst(m, info, v);
    let y = laws::carried(m, info, v);
    lemma_stays_said(inputs, opts, v);
    assert forall|j: int| 0 <= j < swaps.len() implies (#[trigger] swaps[j]).0 != id by {
        assert(info.pairs[j].import.id != id);
    }
    lemma_replaced_operand(z, swaps, 0);
    lemma_annotation_stays(inputs, opts, v);
}

/// What the modules say about names and sources is said in the linked module, unless it
/// is about an import, a parameter of one or a declaration that another one says the same
/// as. So are the notes of what the modules were processed by.
pub proof fn law_debug_is_kept(inputs: Seq<ModuleView>, opts: Options, v: InstView)
    requires
        links_valid(inputs, opts),
        stays_said(inputs, opts, v),
    ensures
        ({
            let m = link::merged(inputs);
            let r = laws::result(inputs, opts);
            let w = moved(inputs, opts, v);
            &&& m.debug_names.contains(v) ==> r.debug_names.contains(w)
            &&& m.debug_string_source.contains(v) ==> r.debug_string_source.contains(w)
            &&& m.debug_module_processed.contains(v) ==> r.debug_module_processed.contains(w)
        }),
{
    let m = link::merged(inputs);
    let info = laws::info_of_merged(inputs, opts);
    let c = laws::before_numbering(inputs, opts);
    let y = laws::carried(m, info, v);
    let h = |i: InstView| laws::numbered(c, i);
    lemma_valid(inputs, opts);
    lemma_finished(inputs, opts);
    lemma_stays_said(inputs, opts, v);
    if m.debug_names.contains(v) {
        let k = choose|k: int| 0 <= k < m.debug_names.len() && m.debug_names[k] == v;
        assert(opcode::is_name(m.debug_names[k].opcode));
    }
    if m.debug_string_source.contains(v) {
        let k = choose|k: int| 0 <= k < m.debug_string_source.len() && m.debug_string_source[k] == v;
        assert(opcode::is_string_source(m.debug_string_source[k].opcode));
    }
    if m.debug_module_processed.contains(v) {
        let k = choose|k: int|
            0 <= k < m.debug_module_processed.len() && m.debug_module_processed[k] == v;
        assert(m.debug_module_processed[k].opcode == opcode::MODULE_PROCESSED);
    }
    if v.opcode != opcode::GROUP_DECORATE {
        lemma_resolved_said(m, info, v);
        lemma_map_contains(c.debug_names, h, y);
        lemma_map_contains(c.debug_string_source, h, y);
        lemma_map_contains(c.debug_module_processed, h, y);
        let n = c.debug_module_processed.map_values(h);
        if n.contains(h(y)) {
            let k = choose|k: int| 0 <= k < n.len() && n[k] == h(y);
            assert(n.push(link::processed())[k] == h(y));
        }
    }
}

proof fn lemma_map_source<A, B>(s: Seq<A>, f: spec_fn(A) -> B, y: B) -> (x: A)
    requires
        s.map_values(f).contains(y),
    ensures
        s.contains(x),
        f(x) == y,
{
    let k = choose|k: int| 0 <= k < s.len() && s.map_values(f)[k] == y;
    s[k]
}

/// Where an annotation of a resolved module comes from.
proof fn lemma_annotation_source(m: ModuleView, info: InfoView, y: InstView) -> (v: InstView)
    requires
        sections::well_placed(m),
        merging::defined_once(m.all_insts()),
        link::resolved(m, info).annotations.contains(y),
        y.opcode != opcode::GROUP_DECORATE,
    ensures
        m.annotations.contains(v),
        y == laws::carried(m, info, v),
        !effects::speaks_of_any(kept_inst(m, info, v), linkage::imported_ids(info.imports)),
{
    let remap = dedup::import_remap(m.ext_inst_imports);
    let apart = link::set_apart(m, info.pairs);
    let p = laws::prepared(m);
    let merges = merging::merges_of(p, apart);
    let dropped = merging::dropped_ids(merges);
    let ids = linkage::imported_ids(info.imports);
    let swaps = link::pair_ids(info.pairs);
    let t = merging::merged_module(p, merges);
    let d = types::with_merged_types(p, apart);
    let x = sweep::without_all_annotations(d, ids);
    let f1 = |i: InstView| rename::replaced_by(i, remap);
    let f2 = |i: InstView| merging::after_merges(i, merges);
    let f3 = |i: InstView| rename::replaced_by(i, swaps);
    laws::lemma_prepared(m);
    merging::law_with_distinct_types(p, apart);
    let a = dedup::with_distinct_capabilities(m);
    let b = ModuleView {
        ext_inst_imports: dedup::keep_first(
            a.ext_inst_imports,
            |i: InstView| dedup::import_name(i),
        ),
        ..a
    };
    rename::lemma_replaced_pairs(b, remap);
    rename::lemma_replaced_pairs(x, swaps);
    let z = lemma_map_source(x.annotations, f3, y);
    rename::lemma_replaced_by(z, swaps);
    effects::law_silenced(d, ids, z);
    effects::law_silenced(t, dropped, z);
    let u = lemma_map_source(p.annotations, f2, z);
    lemma_map_source(m.annotations, f1, u)
}

/// An annotation of the linked module is one of the modules, does not merely serve
/// linking, and is about no import. Decorations of groups are another matter.
pub proof fn law_annotations_are_no_others(inputs: Seq<ModuleView>, opts: Options, k: int)
    requires
        links_valid(inputs, opts),
        0 <= k < laws::result(inputs, opts).annotations.len(),
        laws::result(inputs, opts).annotations[k].opcode != opcode::GROUP_DECORATE,
    ensures
        ({
            let m = link::merged(inputs);
            exists|j: int|
                {
                    &&& 0 <= j < m.annotations.len()
                    &&& laws::result(inputs, opts).annotations[k] == moved(
                        inputs,
                        opts,
                        #[trigger] m.annotations[j],
                    )
                    &&& !effects::only_links(
                        pairs(inputs, opts),
                        opts.lib,
                        laws::carried(m, laws::info_of_merged(inputs, opts), m.annotations[j]),
                    )
                    &&& !effects::speaks_of_any(
                        kept_inst(m, laws::info_of_merged(inputs, opts), m.annotations[j]),
                        linkage::imported_ids(laws::info_of_merged(inputs, opts).imports),
                    )
                }
        }),
{
    let m = link::merged(inputs);
    let info = laws::info_of_merged(inputs, opts);
    let c = laws::before_numbering(inputs, opts);
    let a = link::resolved(m, info);
    lemma_valid(inputs, opts);
    lemma_finished(inputs, opts);
    let y = c.annotations[k];
    laws::lemma_numbered(c, y);
    assert(laws::result(inputs, opts).annotations[k] == laws::numbered(c, y));
    let u = linkage::unlinked(a, info.pairs, opts.lib);
    let w = dedup::with_distinct_interfaces(u);
    effects::law_distinct_annotations(w);
    effects::law_unlinked(a, info.pairs, opts.lib);
    assert(c.annotations.contains(y));
    assert(u.annotations.contains(y));
    let v = lemma_annotation_source(m, info, y);
    let j = choose|j: int| 0 <= j < m.annotations.len() && m.annotations[j] == v;
    assert(laws::result(inputs, opts).annotations[k] == moved(inputs, opts, m.annotations[j]));
}

/// Renumbering keeps instructions of a module apart.
proof fn lemma_numbered_apart(c: ModuleView, x: InstView, y: InstView)
    requires
        rename::numberable(c),
        c.all_insts().contains(x),
        c.all_insts().contains(y),
        laws::numbered(c, x) == laws::numbered(c, y),
    ensures
        x == y,
{
    let all = c.all_insts();
    let a = choose|a: int| 0 <= a < all.len() && all[a] == x;
    let b = choose|b: int| 0 <= b < all.len() && all[b] == y;
    assert forall|v: u32, w: u32|
        #![trigger x.mentions(v), y.mentions(w)]
        x.mentions(v) && y.mentions(w) && rename::number_in(rename::ids_in_order(c), v)
            == rename::number_in(rename::ids_in_order(c), w) implies v == w by {
        assert(all[a].mentions(v) && all[b].mentions(w));
        rename::law_compacted(c, v, w);
    }
    if x.result_id is Some {
        assert(x.mentions(x.result_id->0) && y.mentions(y.result_id->0));
    }
    if x.result_type is Some {
        assert(x.mentions(x.result_type->0) && y.mentions(y.result_type->0));
    }
    let r = laws::numbered(c, x);
    let s = laws::numbered(c, y);
    assert(r.operands.len() == x.operands.len() && s.operands.len() == y.operands.len());
    assert forall|k: int| 0 <= k < x.operands.len() implies x.operands[k] == y.operands[k] by {
        assert(r.operands[k] == s.operands[k]);
        if x.operands[k].id() is Some {
            assert(x.operand_uses(x.operands[k].id()->0));
            assert(y.operand_uses(y.operands[k].id()->0));
            assert(x.mentions(x.operands[k].id()->0) && y.mentions(y.operands[k].id()->0));
        }
    }
    assert(x.operands =~= y.operands);
    assert(x =~= y);
}

/// No annotation stands twice in a linked module.
pub proof fn law_annotations_are_distinct(inputs: Seq<ModuleView>, opts: Options)
    requires
        laws::links(inputs, opts),
    ensures
        laws::result(inputs, opts).annotations.no_duplicates(),
{
    let info = laws::info_of_merged(inputs, opts);
    let c = laws::before_numbering(inputs, opts);
    let r = laws::result(inputs, opts);
    let a = link::resolved(link::merged(inputs), info);
    laws::lemma_links(inputs, opts);
    lemma_finished(inputs, opts);
    let w = dedup::with_distinct_interfaces(linkage::unlinked(a, info.pairs, opts.lib));
    effects::law_distinct_annotations(w);
    assert(c.annotations == dedup::with_distinct_annotations(w).annotations);
    assert forall|i: int, j: int|
        0 <= i < r.annotations.len() && 0 <= j < r.annotations.len() && i != j implies
        r.annotations[i] != r.annotations[j] by {
        let x = c.annotations[i];
        let y = c.annotations[j];
        assert(x != y);
        if laws::numbered(c, x) == laws::numbered(c, y) {
            lemma_annotation_within(c, i);
            lemma_annotation_within(c, j);
            lemma_numbered_apart(c, x, y);
        }
    }
}

proof fn lemma_annotation_within(c: ModuleView, k: int)
    requires
        0 <= k < c.annotations.len(),
    ensures
        c.all_insts().contains(c.annotations[k]),
{
    let n = c.capabilities.len() + c.extensions.len() + c.ext_inst_imports.len() + model::opt_seq(
        c.memory_model,
    ).len() + c.entry_points.len() + c.execution_modes.len() + c.debug_string_source.len()
        + c.debug_names.len() + c.debug_module_processed.len() + k;
    assert(c.all_insts()[n as int] == c.annotations[k]);
}

/// The capabilities of a linked module are those of the modules without that to link.
pub proof fn law_capabilities_are_kept(inputs: Seq<ModuleView>, opts: Options, code: u32)
    requires
        links_valid(inputs, opts),
        code != opcode::CAPABILITY_LINKAGE,
    ensures
        ({
            let m = link::merged(inputs);
            let r = laws::result(inputs, opts);
            (exists|k: int|
                0 <= k < m.capabilities.len() && effects::declares_capability(
                    #[trigger] m.capabilities[k],
                    code,
                )) <==> exists|j: int|
                0 <= j < r.capabilities.len() && effects::declares_capability(
                    #[trigger] r.capabilities[j],
                    code,
                )
        }),
{
    let m = link::merged(inputs);
    let info = laws::info_of_merged(inputs, opts);
    let c = laws::before_numbering(inputs, opts);
    let r = laws::result(inputs, opts);
    let a = link::resolved(m, info);
    let d = dedup::with_distinct_capabilities(m);
    let f = |i: InstView| laws::carried(m, info, i);
    let h = |i: InstView| laws::numbered(c, i);
    lemma_valid(inputs, opts);
    lemma_finished(inputs, opts);
    laws::lemma_links(inputs, opts);
    laws::lemma_resolved_sections(m, info);
    effects::law_unlinked(a, info.pairs, opts.lib);
    let u = linkage::unlinked(a, info.pairs, opts.lib);
    assert(c.capabilities == u.capabilities);
    assert(dedup::all_have_operands(m.capabilities));
    assert forall|k: int| 0 <= k < m.capabilities.len() implies (
    #[trigger] m.capabilities[k]).operands.len() > 0 by {}
    effects::law_distinct_capabilities(m, code);
    assert forall|i: InstView|
        effects::declares_capability(i, code) <==> effects::declares_capability(
            h(#[trigger] f(i)),
            code,
        ) by {
        laws::lemma_carried(m, info, i);
        laws::lemma_numbered(c, f(i));
        if i.operands.len() > 0 {
            assert(i.operands[0].id() is None || f(i).operands[0].id() is None ==> f(
                i,
            ).operands[0] == i.operands[0]);
            assert(f(i).operands[0].id() is None || h(f(i)).operands[0].id() is None ==> h(
                f(i),
            ).operands[0] == f(i).operands[0]);
        }
    }
    if exists|k: int|
        0 <= k < m.capabilities.len() && effects::declares_capability(
            #[trigger] m.capabilities[k],
            code,
        ) {
        let k = choose|k: int|
            0 <= k < m.capabilities.len() && effects::declares_capability(
                #[trigger] m.capabilities[k],
                code,
            );
        let j = choose|j: int|
            0 <= j < d.capabilities.len() && effects::declares_capability(
                #[trigger] d.capabilities[j],
                code,
            );
        let i = d.capabilities[j];
        laws::lemma_carried(m, info, i);
        assert(f(i).operands[0] == i.operands[0]);
        assert(a.capabilities[j] == f(i));
        assert(a.capabilities.contains(f(i)));
        assert(u.capabilities.contains(f(i)));
        let l = choose|l: int| 0 <= l < u.capabilities.len() && u.capabilities[l] == f(i);
        assert(r.capabilities[l] == h(f(i)));
    }
    if exists|j: int|
        0 <= j < r.capabilities.len() && effects::declares_capability(
            #[trigger] r.capabilities[j],
            code,
        ) {
        let j = choose|j: int|
            0 <= j < r.capabilities.len() && effects::declares_capability(
                #[trigger] r.capabilities[j],
                code,
            );
        let y = u.capabilities[j];
        assert(r.capabilities[j] == h(y));
        assert(u.capabilities.contains(y));
        let i = lemma_map_source(d.capabilities, f, y);
        assert(h(f(i)) == r.capabilities[j]);
        let q = choose|q: int| 0 <= q < d.capabilities.len() && d.capabilities[q] == i;
        let places = choose|places: Seq<int>|
            dedup::stand_at(d.capabilities, m.capabilities, places);
        assert(m.capabilities[places[q]] == i);
    }
}

/// The number that an id gets in the linked module.
pub open spec fn new_id(inputs: Seq<ModuleView>, opts: Options, id: u32) -> u32 {
    rename::number_in(rename::ids_in_order(laws::before_numbering(inputs, opts)), id)
}

/// Ids of what is linked stay apart when they are renumbered.
pub proof fn law_new_ids_are_distinct(inputs: Seq<ModuleView>, opts: Options, v: u32, w: u32)
    requires
        laws::links(inputs, opts),
        rename::occurs(laws::before_numbering(inputs, opts), v),
        rename::occurs(laws::before_numbering(inputs, opts), w),
        new_id(inputs, opts, v) == new_id(inputs, opts, w),
    ensures
        v == w,
{
    laws::lemma_links(inputs, opts);
    rename::law_compacted(laws::before_numbering(inputs, opts), v, w);
}

proof fn lemma_once_in_imports(m: ModuleView)
    requires
        merging::defined_once(m.all_insts()),
    ensures
        merging::defined_once(m.ext_inst_imports),
{
    let all = m.all_insts();
    let n = m.capabilities.len() + m.extensions.len();
    let s = m.ext_inst_imports;
    assert forall|i: int, j: int|
        #![trigger s[i], s[j]]
        0 <= i < j < s.len() && s[i].result_id is Some implies s[i].result_id != s[j].result_id by {
        assert(all[n + i] == s[i] && all[n + j] == s[j]);
    }
}

/// The id of an instruction set is no id of a declaration.
proof fn lemma_set_is_no_declaration(m: ModuleView, k: int)
    requires
        merging::defined_once(m.all_insts()),
        0 <= k < m.ext_inst_imports.len(),
        m.ext_inst_imports[k].result_id is Some,
    ensures
        !merging::declares(m, m.ext_inst_imports[k].result_id->0),
{
    let all = m.all_insts();
    let id = m.ext_inst_imports[k].result_id->0;
    let a = m.capabilities.len() + m.extensions.len() + k;
    if merging::declares(m, id) {
        let q = choose|q: int|
            0 <= q < m.types_global_values.len() && (
            #[trigger] m.types_global_values[q]).result_id == Some(id);
        let b = merging::headed(m).all_insts().len() + q;
        merging::lemma_split(m);
        assert(all[a] == m.ext_inst_imports[k]);
        assert(all[b] == m.types_global_values[q]);
        assert(all[a].result_id != all[b].result_id);
    }
}

/// The instruction sets that modules import are imported in the linked module, each
/// once, and no others are.
pub proof fn law_sets_are_kept(inputs: Seq<ModuleView>, opts: Options)
    requires
        links_valid(inputs, opts),
    ensures
        ({
            let m = link::merged(inputs);
            let r = laws::result(inputs, opts);
            &&& forall|k: int, id: u32, name: Seq<char>|
                #![trigger effects::imports_set(m.ext_inst_imports[k], id, name)]
                0 <= k < m.ext_inst_imports.len() && effects::imports_set(
                    m.ext_inst_imports[k],
                    id,
                    name,
                ) ==> imports_set(r, new_id(inputs, opts, effects::set_id(m, id)), name)
            &&& forall|i: int, j: int, x: u32, y: u32, name: Seq<char>|
                #![trigger effects::imports_set(r.ext_inst_imports[i], x, name), effects::imports_set(r.ext_inst_imports[j], y, name)]
                0 <= i < r.ext_inst_imports.len() && 0 <= j < r.ext_inst_imports.len()
                    && effects::imports_set(r.ext_inst_imports[i], x, name)
                    && effects::imports_set(r.ext_inst_imports[j], y, name) ==> i == j
            &&& dedup::is_subsequence(
                r.ext_inst_imports,
                m.map_insts(|i: InstView| moved(inputs, opts, i)).ext_inst_imports,
            )
        }),
{
    let m = link::merged(inputs);
    let info = laws::info_of_merged(inputs, opts);
    let c = laws::before_numbering(inputs, opts);
    let r = laws::result(inputs, opts);
    let a = link::resolved(m, info);
    let remap = dedup::import_remap(m.ext_inst_imports);
    let key = |i: InstView| dedup::import_name(i);
    let kept = dedup::keep_first(m.ext_inst_imports, key);
    let f = |i: InstView| laws::carried(m, info, i);
    let f1 = |i: InstView| rename::replaced_by(i, remap);
    let h = |i: InstView| laws::numbered(c, i);
    let g = |i: InstView| moved(inputs, opts, i);
    lemma_valid(inputs, opts);
    lemma_finished(inputs, opts);
    laws::lemma_resolved_sections(m, info);
    lemma_once_in_imports(m);
    effects::law_distinct_imports(m);
    let d = dedup::with_distinct_imports(m);
    let b = ModuleView { ext_inst_imports: kept, ..m };
    rename::lemma_replaced_pairs(b, remap);
    assert(d.ext_inst_imports == kept.map_values(f1));
    assert(c.ext_inst_imports == kept.map_values(f));
    lemma_map_moved(inputs, opts, kept);
    assert(r.ext_inst_imports == kept.map_values(g));
    assert forall|j: int, id: u32, name: Seq<char>|
        0 <= j < kept.len() && #[trigger] effects::imports_set(d.ext_inst_imports[j], id, name) implies
        effects::imports_set(r.ext_inst_imports[j], new_id(inputs, opts, id), name) by {
        lemma_set_moved(inputs, opts, kept[j], id, name);
    }
    assert forall|k: int, id: u32, name: Seq<char>|
        #![trigger effects::imports_set(m.ext_inst_imports[k], id, name)]
        0 <= k < m.ext_inst_imports.len() && effects::imports_set(m.ext_inst_imports[k], id, name) implies
        imports_set(r, new_id(inputs, opts, effects::set_id(m, id)), name) by {
        let w = effects::set_id(m, id);
        let j = choose|j: int|
            0 <= j < d.ext_inst_imports.len() && effects::imports_set(
                #[trigger] d.ext_inst_imports[j],
                w,
                name,
            );
        assert(effects::imports_set(r.ext_inst_imports[j], new_id(inputs, opts, w), name));
    }
    assert forall|i: int, j: int, x: u32, y: u32, name: Seq<char>|
        #![trigger effects::imports_set(r.ext_inst_imports[i], x, name), effects::imports_set(r.ext_inst_imports[j], y, name)]
        0 <= i < r.ext_inst_imports.len() && 0 <= j < r.ext_inst_imports.len()
            && effects::imports_set(r.ext_inst_imports[i], x, name) && effects::imports_set(
            r.ext_inst_imports[j],
            y,
            name,
        ) implies i == j by {
        let v = lemma_set_source(inputs, opts, kept[i], x, name);
        let w = lemma_set_source(inputs, opts, kept[j], y, name);
        assert(effects::imports_set(d.ext_inst_imports[i], v, name));
        assert(effects::imports_set(d.ext_inst_imports[j], w, name));
    }
    let places = effects::lemma_keep_first_places(m.ext_inst_imports, key);
    assert(dedup::stand_at(r.ext_inst_imports, m.map_insts(g).ext_inst_imports, places)) by {
        assert forall|k: int| 0 <= k < r.ext_inst_imports.len() implies 0 <= #[trigger] places[k]
            < m.ext_inst_imports.len() && m.map_insts(g).ext_inst_imports[places[k]]
            == r.ext_inst_imports[k] by {
            assert(m.ext_inst_imports[places[k]] == kept[k]);
        }
    }
}

/// Whether a module imports the instruction set of the given name under `id`.
pub open spec fn imports_set(m: ModuleView, id: u32, name: Seq<char>) -> bool {
    exists|j: int|
        0 <= j < m.ext_inst_imports.len() && effects::imports_set(
            #[trigger] m.ext_inst_imports[j],
            id,
            name,
        )
}

/// What becomes of an import of an instruction set imports the same one.
proof fn lemma_set_moved(
    inputs: Seq<ModuleView>,
    opts: Options,
    i: InstView,
    id: u32,
    name: Seq<char>,
)
    requires
        effects::imports_set(
            rename::replaced_by(
                i,
                dedup::import_remap(link::merged(inputs).ext_inst_imports),
            ),
            id,
            name,
        ),
    ensures
        effects::imports_set(moved(inputs, opts, i), new_id(inputs, opts, id), name),
{
    let m = link::merged(inputs);
    let info = laws::info_of_merged(inputs, opts);
    let c = laws::before_numbering(inputs, opts);
    let remap = dedup::import_remap(m.ext_inst_imports);
    rename::lemma_replaced_by(i, remap);
    let y = laws::carried(m, info, i);
    laws::lemma_carried(m, info, i);
    laws::lemma_numbered(c, y);
    rename::lemma_followed(i, remap);
    assert(i.operands[0].id() is None);
    assert(y.operands[0] == i.operands[0]);
    assert(i.result_id == Some(id));
}

/// What imports an instruction set once it is moved imported the same one before.
proof fn lemma_set_source(
    inputs: Seq<ModuleView>,
    opts: Options,
    i: InstView,
    id: u32,
    name: Seq<char>,
) -> (v: u32)
    requires
        effects::imports_set(moved(inputs, opts, i), id, name),
    ensures
        effects::imports_set(
            rename::replaced_by(
                i,
                dedup::import_remap(link::merged(inputs).ext_inst_imports),
            ),
            v,
            name,
        ),
{
    let m = link::merged(inputs);
    let info = laws::info_of_merged(inputs, opts);
    let c = laws::before_numbering(inputs, opts);
    let remap = dedup::import_remap(m.ext_inst_imports);
    rename::lemma_replaced_by(i, remap);
    let y = laws::carried(m, info, i);
    laws::lemma_carried(m, info, i);
    laws::lemma_numbered(c, y);
    rename::lemma_followed(i, remap);
    assert(y.operands[0] == moved(inputs, opts, i).operands[0]);
    assert(i.operands[0] == y.operands[0]);
    i.result_id->0
}

/// An operand that names an instruction set names, in what becomes of the instruction,
/// an import of the instruction set of the same name.
pub proof fn law_set_operands(
    inputs: Seq<ModuleView>,
    opts: Options,
    i: InstView,
    p: int,
    id: u32,
    name: Seq<char>,
)
    requires
        links_valid(inputs, opts),
        0 <= p < i.operands.len(),
        i.operands[p].id() == Some(id),
        imports_set(link::merged(inputs), id, name),
    ensures
        moved(inputs, opts, i).operands[p].id() is Some,
        imports_set(
            laws::result(inputs, opts),
            moved(inputs, opts, i).operands[p].id()->0,
            name,
        ),
{
    let m = link::merged(inputs);
    let info = laws::info_of_merged(inputs, opts);
    let c = laws::before_numbering(inputs, opts);
    let remap = dedup::import_remap(m.ext_inst_imports);
    let apart = link::set_apart(m, info.pairs);
    let q = laws::prepared(m);
    let merges = merging::merges_of(q, apart);
    let swaps = link::pair_ids(info.pairs);
    let k = choose|k: int|
        0 <= k < m.ext_inst_imports.len() && effects::imports_set(
            #[trigger] m.ext_inst_imports[k],
            id,
            name,
        );
    lemma_valid(inputs, opts);
    laws::lemma_links(inputs, opts);
    law_sets_are_kept(inputs, opts);
    lemma_once_in_imports(m);
    effects::law_distinct_imports(m);
    let d = dedup::with_distinct_imports(m);
    let sigma = |x: u32| effects::set_id(m, x);
    let whole = m.map_insts(|i: InstView| merging::redirected(i, sigma)).ext_inst_imports;
    assert(dedup::is_subsequence(d.ext_inst_imports, whole));
    let w = effects::set_id(m, id);
    let j = choose|j: int|
        0 <= j < d.ext_inst_imports.len() && effects::imports_set(
            #[trigger] d.ext_inst_imports[j],
            w,
            name,
        );
    laws::lemma_prepared(m);
    merging::law_with_distinct_types(q, apart);
    assert(q.ext_inst_imports == d.ext_inst_imports) by {
        let b = dedup::with_distinct_capabilities(m);
        let key = |i: InstView| dedup::import_name(i);
        let kept = dedup::keep_first(m.ext_inst_imports, key);
        rename::lemma_replaced_pairs(ModuleView { ext_inst_imports: kept, ..m }, remap);
        rename::lemma_replaced_pairs(ModuleView { ext_inst_imports: kept, ..b }, remap);
    }
    lemma_set_is_no_declaration(q, j);
    let u = rename::replaced_by(i, remap);
    rename::lemma_followed(i, remap);
    assert(u.operands[p].id() == Some(w));
    lemma_merged_operand(u, merges, p);
    let z = merging::after_merges(u, merges);
    assert forall|l: int| 0 <= l < swaps.len() implies (#[trigger] swaps[l]).0 != w by {
        let v = laws::lemma_pair_decoration(inputs, opts, l);
        let places = choose|places: Seq<int>|
            dedup::stand_at(d.ext_inst_imports, whole, places);
        let at = places[j];
        assert(m.ext_inst_imports[at].result_id == Some(w));
        laws::lemma_symbol_is_no_set(m, v, at);
    }
    lemma_replaced_operand(z, swaps, p);
    let y = laws::carried(m, info, i);
    assert(y.operands[p].id() == Some(w));
    assert(moved(inputs, opts, i).operands[p].id() == Some(new_id(inputs, opts, w)));
}

proof fn lemma_redirected_twice(i: InstView, f: spec_fn(u32) -> u32, g: spec_fn(u32) -> u32)
    ensures
        merging::redirected(merging::redirected(i, f), g) == merging::redirected(
            i,
            |x: u32| g(f(x)),
        ),
{
    let a = merging::redirected(merging::redirected(i, f), g);
    let b = merging::redirected(i, |x: u32| g(f(x)));
    assert(a.operands =~= b.operands);
    assert(a =~= b);
}

/// An id that pairs replace becomes the second id of one of them.
proof fn lemma_followed_to(swaps: Seq<(u32, u32)>, id: u32)
    ensures
        rename::followed(swaps, id) != id ==> exists|k: int|
            0 <= k < swaps.len() && (#[trigger] swaps[k]).1 == rename::followed(swaps, id),
    decreases swaps.len(),
{
    if swaps.len() > 0 {
        let rest = swaps.drop_last();
        lemma_followed_to(rest, id);
        if rename::followed(swaps, id) != id {
            if rename::followed(rest, id) == swaps.last().0 {
                assert(swaps[swaps.len() - 1].1 == rename::followed(swaps, id));
            } else {
                let k = choose|k: int|
                    0 <= k < rest.len() && (#[trigger] rest[k]).1 == rename::followed(rest, id);
                assert(swaps[k] == rest[k]);
            }
        }
    }
}

/// Importing each instruction set once makes no id one that is declared.
proof fn lemma_set_id_undeclared(m: ModuleView, id: u32)
    requires
        merging::defined_once(m.all_insts()),
        merging::declares(m, effects::set_id(m, id)),
    ensures
        effects::set_id(m, id) == id,
{
    let s = m.ext_inst_imports;
    let remap = dedup::import_remap(s);
    lemma_followed_to(remap, id);
    if effects::set_id(m, id) != id {
        let k = choose|k: int|
            0 <= k < remap.len() && (#[trigger] remap[k]).1 == rename::followed(remap, id);
        effects::lemma_remap_entry(s, k);
        let (a, b) = choose|a: int, b: int|
            {
                &&& 0 <= a < b < s.len()
                &&& (#[trigger] s[b]).result_id == Some(remap[k].0)
                &&& (#[trigger] s[a]).result_id == Some(remap[k].1)
            };
        lemma_set_is_no_declaration(m, a);
    }
}

/// Importing each instruction set once leaves the declarations in order.
proof fn lemma_prepared_in_order(m: ModuleView)
    requires
        sections::well_placed(m),
        merging::defined_once(m.all_insts()),
        merging::declared_in_order(m.types_global_values),
    ensures
        merging::declared_in_order(laws::prepared(m).types_global_values),
        forall|id: u32| #[trigger]
            merging::declares(laws::prepared(m), id) == merging::declares(m, id),
{
    let p = laws::prepared(m);
    let remap = dedup::import_remap(m.ext_inst_imports);
    let a = dedup::with_distinct_capabilities(m);
    let b = ModuleView {
        ext_inst_imports: dedup::keep_first(
            a.ext_inst_imports,
            |i: InstView| dedup::import_name(i),
        ),
        ..a
    };
    let g = m.types_global_values;
    let h = p.types_global_values;
    rename::lemma_replaced_pairs(b, remap);
    assert forall|k: int| 0 <= k < g.len() implies (#[trigger] h[k]).result_id == g[k].result_id && h[k]
        == rename::replaced_by(g[k], remap) by {
        rename::lemma_replaced_by(g[k], remap);
    }
    assert forall|x: int, y: int|
        #![trigger h[x], h[y]]
        0 <= x < h.len() && 0 <= y < h.len() && h[y].result_id is Some && h[x].uses(
            h[y].result_id->0,
        ) implies y < x by {
        let w = h[y].result_id->0;
        assert(g[y].result_id == Some(w));
        rename::lemma_followed(g[x], remap);
        let v = lemma_redirected_uses(g[x], |v: u32| rename::followed(remap, v), w);
        assert(merging::declares(m, w));
        lemma_set_id_undeclared(m, v);
        assert(g[x].uses(g[y].result_id->0));
    }
    assert forall|id: u32| #[trigger] merging::declares(p, id) == merging::declares(m, id) by {
        if merging::declares(p, id) {
            let k = choose|k: int| 0 <= k < h.len() && (#[trigger] h[k]).result_id == Some(id);
            assert(g[k].result_id == Some(id));
        }
        if merging::declares(m, id) {
            let k = choose|k: int| 0 <= k < g.len() && (#[trigger] g[k]).result_id == Some(id);
            assert(h[k].result_id == Some(id));
        }
    }
}

/// What a redirected instruction refers to is what becomes of something that it referred
/// to.
proof fn lemma_redirected_uses(i: InstView, f: spec_fn(u32) -> u32, w: u32) -> (v: u32)
    requires
        merging::redirected(i, f).uses(w),
    ensures
        i.uses(v),
        f(v) == w,
{
    let r = merging::redirected(i, f);
    if r.result_type == Some(w) {
        i.result_type->0
    } else {
        let k = choose|k: int| 0 <= k < r.operands.len() && (#[trigger] r.operands[k]).id() == Some(w);
        let v = i.operands[k].id()->0;
        assert(i.operands[k].id() == Some(v));
        assert(i.operand_uses(v));
        v
    }
}

/// The id that an id of the merged module has once duplicates are dropped.
pub open spec fn kept_id(inputs: Seq<ModuleView>, opts: Options, id: u32) -> u32 {
    let m = link::merged(inputs);
    merging::merged_id(
        laws::prepared(m),
        link::set_apart(m, pairs(inputs, opts)),
        effects::set_id(m, id),
    )
}

/// The id that stands in for an id once its import is resolved.
pub open spec fn resolved_id(inputs: Seq<ModuleView>, opts: Options, id: u32) -> u32 {
    rename::followed(link::pair_ids(pairs(inputs, opts)), id)
}

/// Whether modules are linked, all of them are valid, and their declarations refer to
/// earlier ones only.
pub open spec fn links_in_order(inputs: Seq<ModuleView>, opts: Options) -> bool {
    &&& links_valid(inputs, opts)
    &&& merging::declared_in_order(link::merged(inputs).types_global_values)
}

proof fn lemma_kept_inst(inputs: Seq<ModuleView>, opts: Options, i: InstView)
    requires
        links_in_order(inputs, opts),
    ensures
        kept_inst(link::merged(inputs), laws::info_of_merged(inputs, opts), i)
            == merging::redirected(i, |x: u32| kept_id(inputs, opts, x)),
{
    let m = link::merged(inputs);
    let info = laws::info_of_merged(inputs, opts);
    let remap = dedup::import_remap(m.ext_inst_imports);
    let apart = link::set_apart(m, info.pairs);
    let p = laws::prepared(m);
    let merges = merging::merges_of(p, apart);
    lemma_valid(inputs, opts);
    laws::lemma_prepared(m);
    lemma_prepared_in_order(m);
    merging::lemma_merges_in_order(p, apart);
    let f = |x: u32| rename::followed(remap, x);
    let g = |x: u32| rename::followed(merges, x);
    rename::lemma_followed(i, remap);
    merging::lemma_merged_ids(merging::redirected(i, f), merges);
    lemma_redirected_twice(i, f, g);
    assert((|x: u32| g(f(x))) =~= (|x: u32| kept_id(inputs, opts, x)));
}

/// Where declarations refer to earlier ones only, what becomes of an instruction has the
/// number of its id, and in the place of each id that it refers to the number of the id
/// that stands in for it.
pub proof fn law_moved_ids(inputs: Seq<ModuleView>, opts: Options, i: InstView)
    requires
        links_in_order(inputs, opts),
    ensures
        moved(inputs, opts, i) == i.renamed(
            |x: u32| new_id(inputs, opts, x),
            |x: u32| new_id(inputs, opts, resolved_id(inputs, opts, kept_id(inputs, opts, x))),
        ),
{
    let m = link::merged(inputs);
    let info = laws::info_of_merged(inputs, opts);
    let swaps = link::pair_ids(info.pairs);
    let f = |x: u32| kept_id(inputs, opts, x);
    let g = |x: u32| rename::followed(swaps, x);
    lemma_kept_inst(inputs, opts, i);
    let z = kept_inst(m, info, i);
    rename::lemma_followed(z, swaps);
    lemma_redirected_twice(i, f, g);
    let r = moved(inputs, opts, i);
    let e = i.renamed(
        |x: u32| new_id(inputs, opts, x),
        |x: u32| new_id(inputs, opts, resolved_id(inputs, opts, kept_id(inputs, opts, x))),
    );
    assert(r.operands =~= e.operands);
    assert(r =~= e);
}

/// What stands in for an id:
/// - For an instruction set, an import of the same one.
/// - For an import that has an export, an export of the same name.
/// - For what is neither of them nor declared, the id itself.
pub proof fn law_what_stands_in(inputs: Seq<ModuleView>, opts: Options, id: u32)
    requires
        links_in_order(inputs, opts),
        forall|i: int, j: int|
            #![trigger pairs(inputs, opts)[i], pairs(inputs, opts)[j]]
            0 <= i < pairs(inputs, opts).len() && 0 <= j < pairs(inputs, opts).len() ==> pairs(
                inputs,
                opts,
            )[i].import.id != pairs(inputs, opts)[j].export.id,
    ensures
        ({
            let m = link::merged(inputs);
            let w = resolved_id(inputs, opts, kept_id(inputs, opts, id));
            &&& forall|name: Seq<char>| #[trigger]
                imports_set(m, id, name) ==> imports_set(
                    laws::result(inputs, opts),
                    new_id(inputs, opts, w),
                    name,
                )
            &&& effects::is_import_of(pairs(inputs, opts), id) ==> exists|k: int|
                {
                    &&& 0 <= k < pairs(inputs, opts).len()
                    &&& (#[trigger] pairs(inputs, opts)[k]).import.id == id
                    &&& pairs(inputs, opts)[k].export.id == w
                    &&& pairs(inputs, opts)[k].import.name == pairs(inputs, opts)[k].export.name
                }
            &&& !is_set(m, id) && !merging::declares(m, id) && !effects::is_import_of(
                pairs(inputs, opts),
                id,
            ) ==> w == id
        }),
{
    let m = link::merged(inputs);
    let info = laws::info_of_merged(inputs, opts);
    let remap = dedup::import_remap(m.ext_inst_imports);
    let apart = link::set_apart(m, info.pairs);
    let p = laws::prepared(m);
    let merges = merging::merges_of(p, apart);
    let swaps = link::pair_ids(info.pairs);
    let w = resolved_id(inputs, opts, kept_id(inputs, opts, id));
    lemma_valid(inputs, opts);
    laws::lemma_prepared(m);
    lemma_prepared_in_order(m);
    merging::law_with_distinct_types(p, apart);
    merging::lemma_merges_in_order(p, apart);
    lemma_once_in_imports(m);
    effects::law_distinct_imports(m);
    laws::lemma_links(inputs, opts);
    assert forall|name: Seq<char>| #[trigger] imports_set(m, id, name) implies imports_set(
        laws::result(inputs, opts),
        new_id(inputs, opts, w),
        name,
    ) by {
        let i = InstView {
            opcode: opcode::EXT_INST_IMPORT,
            result_type: None,
            result_id: None,
            operands: seq![OperandView::IdRef(id)],
        };
        law_set_operands(inputs, opts, i, 0, id, name);
        law_moved_ids(inputs, opts, i);
        assert(moved(inputs, opts, i).operands[0] == OperandView::IdRef(new_id(inputs, opts, w)));
    }
    assert forall|i: int, j: int|
        #![trigger swaps[i], swaps[j]]
        0 <= i < swaps.len() && 0 <= j < swaps.len() implies swaps[i].0 != swaps[j].1 by {
        assert(info.pairs[i].import.id != info.pairs[j].export.id);
    }
    if effects::is_import_of(info.pairs, id) {
        let k = choose|k: int| 0 <= k < info.pairs.len() && (#[trigger] info.pairs[k]).import.id == id;
        let v = laws::lemma_pair_decoration(inputs, opts, k);
        laws::lemma_pair_import(inputs, opts, k);
        if is_set(m, id) {
            let j = choose|j: int|
                0 <= j < m.ext_inst_imports.len() && (#[trigger] m.ext_inst_imports[j]).result_id
                    == Some(id);
            laws::lemma_symbol_is_no_set(m, v, j);
        }
        assert(effects::set_id(m, id) == id) by {
            assert forall|k: int| 0 <= k < m.ext_inst_imports.len() implies (
            #[trigger] m.ext_inst_imports[k]).result_id != Some(id) by {}
            let sigma = |x: u32| effects::set_id(m, x);
            assert(sigma(id) == id);
        }
        merging::lemma_followed_kept(merges, id);
        assert(kept_id(inputs, opts, id) == id);
        assert(swaps[k].0 == id);
        rename::lemma_followed_once(swaps, id);
        let q = choose|q: int|
            0 <= q < swaps.len() && (#[trigger] swaps[q]).0 == id && rename::followed(swaps, id)
                == swaps[q].1;
        assert(info.pairs[q].import.id == id && info.pairs[q].export.id == w);
        symbols::law_pairs(info.imports, info.exports);
        assert(info.pairs[q].import == info.imports[q]);
    } else if !is_set(m, id) && !merging::declares(m, id) {
        assert(effects::set_id(m, id) == id) by {
            assert forall|k: int| 0 <= k < m.ext_inst_imports.len() implies (
            #[trigger] m.ext_inst_imports[k]).result_id != Some(id) by {}
            let sigma = |x: u32| effects::set_id(m, x);
            assert(sigma(id) == id);
        }
        merging::lemma_followed_kept(merges, id);
        assert(!merging::declares(p, id));
        assert forall|k: int| 0 <= k < swaps.len() implies (#[trigger] swaps[k]).0 != id by {
            assert(info.pairs[k].import.id != id);
        }
        rename::lemma_followed_once(swaps, id);
    }
}

/// Resolving adds no definition of an id.
proof fn lemma_resolved_definers(m: ModuleView, info: InfoView, id: u32)
    requires
        sections::well_placed(m),
        merging::defined_once(m.all_insts()),
    ensures
        joining::definers_in(link::resolved(m, info), id) <= 1,
{
    let apart = link::set_apart(m, info.pairs);
    let p = laws::prepared(m);
    let merges = merging::merges_of(p, apart);
    let dropped = merging::dropped_ids(merges);
    let ids = linkage::imported_ids(info.imports);
    let swaps = link::pair_ids(info.pairs);
    let t = merging::merged_module(p, merges);
    let d = types::with_merged_types(p, apart);
    let x = sweep::without_all_annotations(d, ids);
    let f2 = |i: InstView| merging::after_merges(i, merges);
    let f3 = |i: InstView| rename::replaced_by(i, swaps);
    laws::lemma_prepared(m);
    merging::law_with_distinct_types(p, apart);
    let n = ModuleView {
        header: None,
        types_global_values: merging::kept(p.types_global_values, dropped),
        ..p
    };
    assert(t =~= n.map_insts(f2));
    assert forall|i: InstView| (#[trigger] f2(i)).result_id == i.result_id by {
        merging::lemma_after_merges(i, merges);
    }
    assert forall|i: InstView| (#[trigger] f3(i)).result_id == i.result_id by {
        rename::lemma_replaced_by(i, swaps);
    }
    joining::lemma_once_definers(p.all_insts(), id);
    joining::lemma_definers_in(p, id);
    joining::lemma_definers_in(n, id);
    joining::lemma_definers_filter(
        p.types_global_values,
        |i: InstView| !merging::is_dropped(i, dropped),
        id,
    );
    model::lemma_map_insts(n, f2);
    joining::lemma_definers_map(n.all_insts(), f2, id);
    joining::lemma_definers_in(t, id);
    joining::lemma_definers_without(t, dropped, id);
    joining::lemma_definers_without(d, ids, id);
    rename::lemma_replaced_pairs(x, swaps);
    model::lemma_map_insts(x, f3);
    joining::lemma_definers_in(x, id);
    joining::lemma_definers_map(x.all_insts(), f3, id);
    joining::lemma_definers_in(link::resolved(m, info), id);
}

/// Cleaning adds no definition of an id.
proof fn lemma_cleaned_definers(a: ModuleView, pairs: Seq<PairView>, lib: bool, id: u32)
    ensures
        joining::definers_in(link::cleaned(a, pairs, lib), id) <= joining::definers_in(a, id),
{
    let on_pair = |i: InstView| linkage::links_pair(pairs, i);
    let on_export = |i: InstView| linkage::links_export(i);
    let wants = |i: InstView| linkage::wants_linkage(i);
    let rest = sweep::swept(a.annotations, on_pair);
    joining::lemma_definers_left_out(
        a.functions,
        |f: FunctionView| !linkage::is_imported(pairs, linkage::function_id(f)),
        id,
    );
    joining::lemma_definers_filter(
        a.types_global_values,
        |i: InstView| !linkage::defines_import(pairs, i),
        id,
    );
    joining::lemma_definers_swept(a.capabilities, wants, a.capabilities.len(), id);
    joining::lemma_definers_swept(a.annotations, on_pair, a.annotations.len(), id);
    joining::lemma_definers_swept(rest, on_export, rest.len(), id);
    let u = linkage::unlinked(a, pairs, lib);
    joining::lemma_definers_map(
        u.entry_points,
        |i: InstView| dedup::with_distinct_interface(i),
        id,
    );
    laws::lemma_keep_first_definers(u.annotations, |i: InstView| Some(i), id);
}

/// What is linked from valid modules defines no id twice, before its declarations are
/// put in order and its ids are renumbered.
proof fn lemma_cleaned_once(inputs: Seq<ModuleView>, opts: Options)
    requires
        links_valid(inputs, opts),
    ensures
        merging::defined_once(
            link::cleaned(
                link::resolved(link::merged(inputs), laws::info_of_merged(inputs, opts)),
                pairs(inputs, opts),
                opts.lib,
            ).all_insts(),
        ),
{
    let m = link::merged(inputs);
    let info = laws::info_of_merged(inputs, opts);
    let a = link::resolved(m, info);
    let b = link::cleaned(a, info.pairs, opts.lib);
    lemma_valid(inputs, opts);
    assert forall|id: u32| #[trigger] joining::definers(b.all_insts(), id) <= 1 by {
        lemma_resolved_definers(m, info, id);
        lemma_cleaned_definers(a, info.pairs, opts.lib, id);
        joining::lemma_definers_in(b, id);
    }
    joining::lemma_definers_once(b.all_insts());
}

/// The declarations of what is linked, before they are put in order.
pub open spec fn linked_globals(inputs: Seq<ModuleView>, opts: Options) -> Seq<InstView> {
    link::cleaned(
        link::resolved(link::merged(inputs), laws::info_of_merged(inputs, opts)),
        pairs(inputs, opts),
        opts.lib,
    ).types_global_values
}

/// Whether the linked module declares under `id` what `i` says.
pub open spec fn has_declaration(
    inputs: Seq<ModuleView>,
    opts: Options,
    i: InstView,
    id: u32,
) -> bool {
    exists|y: InstView|
        {
            &&& y.result_id == Some(id)
            &&& #[trigger] merging::say_the_same(y, i)
            &&& laws::result(inputs, opts).types_global_values.contains(
                y.renamed(
                    |x: u32| new_id(inputs, opts, x),
                    |x: u32| new_id(inputs, opts, resolved_id(inputs, opts, x)),
                ),
            )
        }
}

proof fn lemma_resolved_globals(m: ModuleView, info: InfoView)
    requires
        sections::well_placed(m),
        merging::defined_once(m.all_insts()),
    ensures
        link::resolved(m, info).types_global_values == types::with_merged_types(
            laws::prepared(m),
            link::set_apart(m, info.pairs),
        ).types_global_values.map_values(
            |i: InstView| rename::replaced_by(i, link::pair_ids(info.pairs)),
        ),
{
    let d = types::with_merged_types(laws::prepared(m), link::set_apart(m, info.pairs));
    let ids = linkage::imported_ids(info.imports);
    let x = sweep::without_all_annotations(d, ids);
    sweep::lemma_without_all_annotations(d, ids);
    rename::lemma_replaced_pairs(x, link::pair_ids(info.pairs));
}

/// What the modules declare is declared in the linked module, apart from the imports that
/// have an export: the declaration that stands for one has, once ids are replaced, the same
/// opcode, the same type and the same operands, word for word. This is so where
/// declarations refer to earlier ones only, and, once linked, to each other alone.
pub proof fn law_declarations_are_kept(inputs: Seq<ModuleView>, opts: Options, q: int)
    requires
        links_in_order(inputs, opts),
        globals::refers_within(linked_globals(inputs, opts)),
        0 <= q < link::merged(inputs).types_global_values.len(),
        !effects::defines_import_of(
            pairs(inputs, opts),
            link::merged(inputs).types_global_values[q],
        ),
    ensures
        ({
            let i = link::merged(inputs).types_global_values[q];
            &&& i.result_id matches Some(id) ==> has_declaration(
                inputs,
                opts,
                merging::redirected(i, |x: u32| kept_id(inputs, opts, x)),
                kept_id(inputs, opts, id),
            )
            &&& i.result_id is None ==> laws::result(
                inputs,
                opts,
            ).types_global_values.contains(moved(inputs, opts, i))
        }),
{
    let m = link::merged(inputs);
    let i = m.types_global_values[q];
    let info = laws::info_of_merged(inputs, opts);
    let apart = link::set_apart(m, info.pairs);
    let swaps = link::pair_ids(info.pairs);
    let p = laws::prepared(m);
    let merges = merging::merges_of(p, apart);
    let d = types::with_merged_types(p, apart);
    let a = link::resolved(m, info);
    let u = linkage::unlinked(a, info.pairs, opts.lib);
    let b = link::cleaned(a, info.pairs, opts.lib);
    let c = laws::before_numbering(inputs, opts);
    let r = laws::result(inputs, opts);
    let remap = dedup::import_remap(m.ext_inst_imports);
    let sigma = |x: u32| merging::merged_id(p, apart, x);
    let f = |x: u32| rename::followed(remap, x);
    let f3 = |i: InstView| rename::replaced_by(i, swaps);
    let h = |i: InstView| laws::numbered(c, i);
    lemma_valid(inputs, opts);
    laws::lemma_prepared(m);
    lemma_prepared_in_order(m);
    lemma_finished(inputs, opts);
    laws::lemma_links(inputs, opts);
    merging::law_merging_is_a_quotient(p, apart);
    merging::lemma_merges_in_order(p, apart);
    lemma_resolved_globals(m, info);
    lemma_cleaned_once(inputs, opts);
    globals::law_sorted_keeps(b);
    effects::law_unlinked(a, info.pairs, opts.lib);
    let k0 = dedup::with_distinct_capabilities(m);
    let b0 = ModuleView {
        ext_inst_imports: dedup::keep_first(
            k0.ext_inst_imports,
            |i: InstView| dedup::import_name(i),
        ),
        ..k0
    };
    rename::lemma_replaced_pairs(b0, remap);
    rename::lemma_followed(i, remap);
    rename::lemma_replaced_by(i, remap);
    let j = p.types_global_values[q];
    assert(j == merging::redirected(i, f));
    lemma_redirected_twice(i, f, sigma);
    assert((|x: u32| sigma(f(x))) =~= (|x: u32| kept_id(inputs, opts, x)));
    assert(merging::redirected(j, sigma) == merging::redirected(
        i,
        |x: u32| kept_id(inputs, opts, x),
    ));
    if i.result_id is Some {
        let id = i.result_id->0;
        assert(merging::declares(m, id));
        assert(f(id) == id) by {
            if is_set(m, id) {
                let k = choose|k: int|
                    0 <= k < m.ext_inst_imports.len() && (
                    #[trigger] m.ext_inst_imports[k]).result_id == Some(id);
                lemma_set_is_no_declaration(m, k);
            }
            lemma_once_in_imports(m);
            effects::law_distinct_imports(m);
            assert forall|k: int| 0 <= k < m.ext_inst_imports.len() implies (
            #[trigger] m.ext_inst_imports[k]).result_id != Some(id) by {}
            let set = |x: u32| effects::set_id(m, x);
            assert(set(id) == id);
        }
        let w = sigma(id);
        assert(w == kept_id(inputs, opts, id));
        assert(p.types_global_values[q].result_id is Some);
        assert(merging::has_same(d.types_global_values, merging::redirected(j, sigma), w));
        let k = choose|k: int|
            {
                &&& 0 <= k < d.types_global_values.len()
                &&& (#[trigger] d.types_global_values[k]).result_id == Some(w)
                &&& merging::say_the_same(
                    d.types_global_values[k],
                    merging::redirected(j, sigma),
                )
            };
        let y = d.types_global_values[k];
        let z = f3(y);
        rename::lemma_replaced_by(y, swaps);
        rename::lemma_followed(y, swaps);
        assert(a.types_global_values[k] == z);
        if effects::is_import_of(info.pairs, w) {
            let l = choose|l: int|
                0 <= l < info.pairs.len() && (#[trigger] info.pairs[l]).import.id == w;
            laws::lemma_pair_import(inputs, opts, l);
            merging::lemma_followed_kept(merges, id);
            assert(w != id);
            let e = choose|e: int|
                0 <= e < merges.len() && (#[trigger] merges[e]).0 == id && rename::followed(
                    merges,
                    id,
                ) == merges[e].1;
            assert(!apart.contains(merges[e].1));
        }
        assert(!effects::defines_import_of(info.pairs, z));
        assert(a.types_global_values.contains(z));
        assert(u.types_global_values.contains(z));
        assert(c.types_global_values.contains(z));
        lemma_map_contains(c.types_global_values, h, z);
        let e = y.renamed(
            |x: u32| new_id(inputs, opts, x),
            |x: u32| new_id(inputs, opts, resolved_id(inputs, opts, x)),
        );
        assert(h(z).operands =~= e.operands);
        assert(h(z) =~= e);
        assert(merging::say_the_same(
            y,
            merging::redirected(i, |x: u32| kept_id(inputs, opts, x)),
        ));
    } else {
        let y = merging::redirected(j, sigma);
        assert(p.types_global_values[q].result_id is None);
        assert(d.types_global_values.contains(y));
        lemma_kept_inst(inputs, opts, i);
        lemma_map_contains(d.types_global_values, f3, y);
        let z = f3(y);
        rename::lemma_replaced_by(y, swaps);
        assert(z == laws::carried(m, info, i));
        assert(!effects::defines_import_of(info.pairs, z));
        assert(u.types_global_values.contains(z));
        assert(c.types_global_values.contains(z));
        lemma_map_contains(c.types_global_values, h, z);
    }
}

/// What the linked module declares is declared in one of the modules.
pub proof fn law_declarations_are_no_others(inputs: Seq<ModuleView>, opts: Options, k: int)
    requires
        links_valid(inputs, opts),
        globals::refers_within(linked_globals(inputs, opts)),
        0 <= k < laws::result(inputs, opts).types_global_values.len(),
    ensures
        ({
            let m = link::merged(inputs);
            exists|q: int|
                {
                    &&& 0 <= q < m.types_global_values.len()
                    &&& laws::result(inputs, opts).types_global_values[k] == moved(
                        inputs,
                        opts,
                        #[trigger] m.types_global_values[q],
                    )
                    &&& !effects::defines_import_of(
                        pairs(inputs, opts),
                        m.types_global_values[q],
                    )
                }
        }),
{
    let m = link::merged(inputs);
    let info = laws::info_of_merged(inputs, opts);
    let apart = link::set_apart(m, info.pairs);
    let swaps = link::pair_ids(info.pairs);
    let p = laws::prepared(m);
    let merges = merging::merges_of(p, apart);
    let dropped = merging::dropped_ids(merges);
    let d = types::with_merged_types(p, apart);
    let t = merging::merged_module(p, merges);
    let a = link::resolved(m, info);
    let b = link::cleaned(a, info.pairs, opts.lib);
    let c = laws::before_numbering(inputs, opts);
    let r = laws::result(inputs, opts);
    let remap = dedup::import_remap(m.ext_inst_imports);
    let f1 = |i: InstView| rename::replaced_by(i, remap);
    let f2 = |i: InstView| merging::after_merges(i, merges);
    let f3 = |i: InstView| rename::replaced_by(i, swaps);
    let h = |i: InstView| laws::numbered(c, i);
    lemma_valid(inputs, opts);
    laws::lemma_prepared(m);
    lemma_finished(inputs, opts);
    laws::lemma_links(inputs, opts);
    merging::law_with_distinct_types(p, apart);
    sweep::lemma_without_all_annotations(t, dropped);
    lemma_resolved_globals(m, info);
    lemma_cleaned_once(inputs, opts);
    globals::law_sorted_keeps(b);
    effects::law_unlinked(a, info.pairs, opts.lib);
    let k0 = dedup::with_distinct_capabilities(m);
    let b0 = ModuleView {
        ext_inst_imports: dedup::keep_first(
            k0.ext_inst_imports,
            |i: InstView| dedup::import_name(i),
        ),
        ..k0
    };
    rename::lemma_replaced_pairs(b0, remap);
    let z = c.types_global_values[k];
    assert(r.types_global_values[k] == h(z));
    assert(c.types_global_values.contains(z));
    assert(b.types_global_values.contains(z));
    let u = linkage::unlinked(a, info.pairs, opts.lib);
    assert(u.types_global_values.contains(z));
    let y = lemma_map_source(d.types_global_values, f3, z);
    let left = merging::kept(p.types_global_values, dropped);
    let x = lemma_map_source(left, f2, y);
    p.types_global_values.lemma_filter_contains_rev(
        |i: InstView| !merging::is_dropped(i, dropped),
        x,
    );
    let v = lemma_map_source(m.types_global_values, f1, x);
    laws::lemma_carried(m, info, v);
    assert(z == laws::carried(m, info, v));
    let q = choose|q: int| 0 <= q < m.types_global_values.len() && m.types_global_values[q] == v;
    assert(r.types_global_values[k] == moved(inputs, opts, m.types_global_values[q]));
}

/// The last note of what a linked module was processed by names this linker.
pub proof fn law_note(inputs: Seq<ModuleView>, opts: Options)
    requires
        laws::links(inputs, opts),
    ensures
        ({
            let notes = laws::result(inputs, opts).debug_module_processed;
            &&& notes.len() > 0
            &&& notes.last().opcode == opcode::MODULE_PROCESSED
            &&& notes.last().result_id is None
            &&& notes.last().result_type is None
            &&& notes.last().operands == seq![
                OperandView::LiteralString("Linked by rspirv-linker"@),
            ]
        }),
{
    lemma_finished(inputs, opts);
}

/// A linked module asks for no capability twice.
pub proof fn law_capabilities_are_distinct(
    inputs: Seq<ModuleView>,
    opts: Options,
    code: u32,
    i: int,
    j: int,
)
    requires
        links_valid(inputs, opts),
        0 <= i < j < laws::result(inputs, opts).capabilities.len(),
        effects::declares_capability(laws::result(inputs, opts).capabilities[i], code),
    ensures
        !effects::declares_capability(laws::result(inputs, opts).capabilities[j], code),
{
    let m = link::merged(inputs);
    let info = laws::info_of_merged(inputs, opts);
    let c = laws::before_numbering(inputs, opts);
    let r = laws::result(inputs, opts);
    let a = link::resolved(m, info);
    let d = dedup::with_distinct_capabilities(m);
    lemma_valid(inputs, opts);
    lemma_finished(inputs, opts);
    laws::lemma_links(inputs, opts);
    laws::lemma_resolved_sections(m, info);
    let wants = |i: InstView| linkage::wants_linkage(i);
    let places = sweep::law_swept_places(a.capabilities, wants);
    assert(c.capabilities == sweep::swept(a.capabilities, wants));
    assert(dedup::all_have_operands(m.capabilities));
    assert forall|k: int| 0 <= k < m.capabilities.len() implies (
    #[trigger] m.capabilities[k]).operands.len() > 0 by {}
    effects::law_distinct_capabilities(m, code);
    if effects::declares_capability(r.capabilities[j], code) {
        lemma_declares_source(inputs, opts, places[i], i, code);
        lemma_declares_source(inputs, opts, places[j], j, code);
        assert(places[i] != places[j]);
        if places[i] < places[j] {
            assert(!effects::declares_capability(d.capabilities[places[j]], code));
        } else {
            assert(!effects::declares_capability(d.capabilities[places[i]], code));
        }
    }
}

proof fn lemma_declares_source(
    inputs: Seq<ModuleView>,
    opts: Options,
    p: int,
    i: int,
    code: u32,
)
    requires
        links_valid(inputs, opts),
        0 <= i < laws::result(inputs, opts).capabilities.len(),
        effects::declares_capability(laws::result(inputs, opts).capabilities[i], code),
        ({
            let a = link::resolved(link::merged(inputs), laws::info_of_merged(inputs, opts));
            &&& 0 <= p < a.capabilities.len()
            &&& laws::before_numbering(inputs, opts).capabilities[i] == a.capabilities[p]
        }),
    ensures
        ({
            let d = dedup::with_distinct_capabilities(link::merged(inputs));
            &&& p < d.capabilities.len()
            &&& effects::declares_capability(d.capabilities[p], code)
        }),
{
    let m = link::merged(inputs);
    let info = laws::info_of_merged(inputs, opts);
    let c = laws::before_numbering(inputs, opts);
    let d = dedup::with_distinct_capabilities(m);
    lemma_valid(inputs, opts);
    lemma_finished(inputs, opts);
    laws::lemma_resolved_sections(m, info);
    let x = d.capabilities[p];
    let y = laws::carried(m, info, x);
    assert(link::resolved(m, info).capabilities[p] == y);
    laws::lemma_carried(m, info, x);
    laws::lemma_numbered(c, y);
    assert(laws::result(inputs, opts).capabilities[i] == laws::numbered(c, y));
    assert(laws::numbered(c, y).operands[0] == y.operands[0]);
    assert(y.operands[0] == x.operands[0]);
}

/// What a renumbered instruction refers to is the number of something that it referred to.
proof fn lemma_numbered_uses(c: ModuleView, i: InstView, w: u32) -> (v: u32)
    requires
        laws::numbered(c, i).uses(w),
    ensures
        i.uses(v),
        rename::number_in(rename::ids_in_order(c), v) == w,
{
    let r = laws::numbered(c, i);
    if r.result_type == Some(w) {
        i.result_type->0
    } else {
        let k = choose|k: int| 0 <= k < r.operands.len() && (#[trigger] r.operands[k]).id() == Some(w);
        let v = i.operands[k].id()->0;
        assert(i.operands[k].id() == Some(v));
        assert(i.operand_uses(v));
        v
    }
}

/// A declaration of a linked module comes after those that it refers to, where the
/// declarations refer to each other alone and none stands alone.
pub proof fn law_declarations_are_in_order(
    inputs: Seq<ModuleView>,
    opts: Options,
    x: int,
    y: int,
    w: u32,
)
    requires
        links_valid(inputs, opts),
        globals::self_contained(linked_globals(inputs, opts)),
        0 <= x < laws::result(inputs, opts).types_global_values.len(),
        0 <= y < laws::result(inputs, opts).types_global_values.len(),
        laws::result(inputs, opts).types_global_values[x].result_id is Some,
        laws::result(inputs, opts).types_global_values[x].uses(w),
        laws::result(inputs, opts).types_global_values[y].result_id == Some(w),
    ensures
        y < x,
{
    let m = link::merged(inputs);
    let info = laws::info_of_merged(inputs, opts);
    let b = link::cleaned(link::resolved(m, info), info.pairs, opts.lib);
    let c = laws::before_numbering(inputs, opts);
    let r = laws::result(inputs, opts);
    let all = c.all_insts();
    laws::lemma_links(inputs, opts);
    lemma_finished(inputs, opts);
    lemma_cleaned_once(inputs, opts);
    globals::law_arranged_is_complete(b);
    let i = c.types_global_values[x];
    let j = c.types_global_values[y];
    assert(r.types_global_values[x] == laws::numbered(c, i));
    assert(r.types_global_values[y] == laws::numbered(c, j));
    let v = lemma_numbered_uses(c, i, w);
    let u = j.result_id->0;
    let head = merging::headed(c).all_insts().len();
    merging::lemma_split(c);
    assert(all[head + x] == i && all[head + y] == j);
    assert(all[head + x].mentions(v) && all[head + y].mentions(u));
    rename::law_compacted(c, v, u);
    globals::law_sorted_in_order(b, x, y, u);
}

/// Of the declarations that may be merged, no two say the same once modules are linked,
/// before ids are renumbered, where none of them refers to an import that has an export.
pub proof fn law_declarations_are_distinct(inputs: Seq<ModuleView>, opts: Options, x: int, y: int)
    requires
        links_valid(inputs, opts),
        globals::refers_within(linked_globals(inputs, opts)),
        ({
            let m = link::merged(inputs);
            let d = link::without_duplicates(m, link::set_apart(m, pairs(inputs, opts)));
            forall|q: int, k: int|
                #![trigger d.types_global_values[q], pairs(inputs, opts)[k]]
                0 <= q < d.types_global_values.len() && 0 <= k < pairs(inputs, opts).len()
                    ==> !d.types_global_values[q].uses(pairs(inputs, opts)[k].import.id)
        }),
        0 <= x < laws::before_numbering(inputs, opts).types_global_values.len(),
        0 <= y < laws::before_numbering(inputs, opts).types_global_values.len(),
        laws::before_numbering(inputs, opts).types_global_values[x]
            != laws::before_numbering(inputs, opts).types_global_values[y],
        merging::can_merge(
            laws::before_numbering(inputs, opts).types_global_values[x],
            link::set_apart(link::merged(inputs), pairs(inputs, opts)),
        ),
        merging::can_merge(
            laws::before_numbering(inputs, opts).types_global_values[y],
            link::set_apart(link::merged(inputs), pairs(inputs, opts)),
        ),
    ensures
        !merging::say_the_same(
            laws::before_numbering(inputs, opts).types_global_values[x],
            laws::before_numbering(inputs, opts).types_global_values[y],
        ),
{
    let m = link::merged(inputs);
    let info = laws::info_of_merged(inputs, opts);
    let apart = link::set_apart(m, info.pairs);
    let p = laws::prepared(m);
    let d = types::with_merged_types(p, apart);
    let a = link::resolved(m, info);
    let b = link::cleaned(a, info.pairs, opts.lib);
    let c = laws::before_numbering(inputs, opts);
    let swaps = link::pair_ids(info.pairs);
    let f3 = |i: InstView| rename::replaced_by(i, swaps);
    lemma_valid(inputs, opts);
    laws::lemma_prepared(m);
    laws::lemma_links(inputs, opts);
    merging::law_with_distinct_types(p, apart);
    lemma_resolved_globals(m, info);
    lemma_cleaned_once(inputs, opts);
    globals::law_sorted_keeps(b);
    effects::law_unlinked(a, info.pairs, opts.lib);
    assert(d == link::without_duplicates(m, apart));
    let i = c.types_global_values[x];
    let j = c.types_global_values[y];
    assert(c.types_global_values.contains(i) && c.types_global_values.contains(j));
    assert(b.types_global_values.contains(i) && b.types_global_values.contains(j));
    let u = linkage::unlinked(a, info.pairs, opts.lib);
    assert(u.types_global_values.contains(i) && u.types_global_values.contains(j));
    let v = lemma_map_source(d.types_global_values, f3, i);
    let w = lemma_map_source(d.types_global_values, f3, j);
    let e = choose|e: int| 0 <= e < d.types_global_values.len() && d.types_global_values[e] == v;
    let g = choose|g: int| 0 <= g < d.types_global_values.len() && d.types_global_values[g] == w;
    assert forall|k: int| 0 <= k < swaps.len() implies !d.types_global_values[e].uses(
        (#[trigger] swaps[k]).0,
    ) && !d.types_global_values[g].uses(swaps[k].0) by {
        assert(!d.types_global_values[e].uses(info.pairs[k].import.id));
        assert(!d.types_global_values[g].uses(info.pairs[k].import.id));
    }
    lemma_replaced_none(v, swaps);
    lemma_replaced_none(w, swaps);
    if merging::say_the_same(i, j) {
        merging::lemma_key_of_same(i, j);
        if e < g {
            assert(types::declaration_key(d.types_global_values[e]) != types::declaration_key(
                d.types_global_values[g],
            ));
        } else {
            assert(types::declaration_key(d.types_global_values[g]) != types::declaration_key(
                d.types_global_values[e],
            ));
        }
    }
}

/// Replacing ids that an instruction does not refer to leaves it as it is.
proof fn lemma_replaced_none(i: InstView, swaps: Seq<(u32, u32)>)
    requires
        forall|k: int| 0 <= k < swaps.len() ==> !i.uses((#[trigger] swaps[k]).0),
    ensures
        rename::replaced_by(i, swaps) == i,
    decreases swaps.len(),
{
    if swaps.len() > 0 {
        let rest = swaps.drop_last();
        assert forall|k: int| 0 <= k < rest.len() implies !i.uses((#[trigger] rest[k]).0) by {
            assert(rest[k] == swaps[k]);
        }
        lemma_replaced_none(i, rest);
        let last = swaps.last();
        assert(swaps[swaps.len() - 1] == last);
        let r = rename::replaced(i, last.0, last.1);
        assert forall|k: int| 0 <= k < i.operands.len() implies r.operands[k] == i.operands[k] by {
            if i.operands[k].id() is Some {
                assert(i.operand_uses(i.operands[k].id()->0));
            }
        }
        assert(r.operands =~= i.operands);
        assert(r =~= i);
    }
}

proof fn lemma_filter_map<A, B>(s: Seq<A>, f: spec_fn(A) -> B, keep: spec_fn(B) -> bool)
    ensures
        s.map_values(f).filter(keep) == s.filter(|x: A| keep(f(x))).map_values(f),
    decreases s.len(),
{
    reveal(Seq::filter);
    let t = s.map_values(f);
    let test = |x: A| keep(f(x));
    if s.len() == 0 {
        assert(t.filter(keep) =~= s.filter(test).map_values(f));
    } else {
        let rest = s.drop_last();
        lemma_filter_map(rest, f, keep);
        assert(t.drop_last() =~= rest.map_values(f));
        assert(t.last() == f(s.last()));
        assert(t.filter(keep) =~= s.filter(test).map_values(f));
    }
}

/// A decoration of a group without the targets that are imports with an export, or
/// parameters of such imports.
pub open spec fn without_imports(inputs: Seq<ModuleView>, opts: Options, g: InstView) -> InstView {
    let ids = linkage::imported_ids(laws::info_of_merged(inputs, opts).imports);
    InstView {
        operands: g.operands.filter(
            |o: OperandView|
                o matches OperandView::IdRef(w) && !ids.contains(kept_id(inputs, opts, w)),
        ),
        ..g
    }
}

/// Taking ids out of the targets of a group that has none of them leaves it as it is.
proof fn lemma_no_targets(z: InstView, ids: Seq<u32>)
    requires
        forall|k: int|
            0 <= k < z.operands.len() ==> (#[trigger] z.operands[k]) is IdRef && !ids.contains(
                z.operands[k]->IdRef_0,
            ),
    ensures
        effects::without_targets(z, ids) == z,
{
    let keep = |o: OperandView| o matches OperandView::IdRef(w) && !ids.contains(w);
    assert forall|k: int| 0 <= k < z.operands.len() implies keep(#[trigger] z.operands[k]) by {}
    model::lemma_filter_whole(z.operands, keep);
}

/// A decoration of a group is in the linked module, for all its targets that are neither
/// imports with an export nor parameters of them, and for the group that stands in for
/// its own.
pub proof fn law_groups_are_kept(inputs: Seq<ModuleView>, opts: Options, g: InstView)
    requires
        links_in_order(inputs, opts),
        link::merged(inputs).annotations.contains(g),
        g.opcode == opcode::GROUP_DECORATE,
        g.operands.len() > 0,
        forall|k: int| 0 <= k < g.operands.len() ==> #[trigger] g.operands[k] is IdRef,
        !linkage::imported_ids(laws::info_of_merged(inputs, opts).imports).contains(
            kept_id(inputs, opts, g.operands[0]->IdRef_0),
        ),
    ensures
        laws::result(inputs, opts).annotations.contains(
            moved(inputs, opts, without_imports(inputs, opts, g)),
        ),
{
    let m = link::merged(inputs);
    let info = laws::info_of_merged(inputs, opts);
    let remap = dedup::import_remap(m.ext_inst_imports);
    let apart = link::set_apart(m, info.pairs);
    let p = laws::prepared(m);
    let merges = merging::merges_of(p, apart);
    let dropped = merging::dropped_ids(merges);
    let ids = linkage::imported_ids(info.imports);
    let swaps = link::pair_ids(info.pairs);
    let t = merging::merged_module(p, merges);
    let d = types::with_merged_types(p, apart);
    let x = sweep::without_all_annotations(d, ids);
    let a = link::resolved(m, info);
    let c = laws::before_numbering(inputs, opts);
    let f1 = |i: InstView| rename::replaced_by(i, remap);
    let f2 = |i: InstView| merging::after_merges(i, merges);
    let f3 = |i: InstView| rename::replaced_by(i, swaps);
    let kept = |w: u32| kept_id(inputs, opts, w);
    lemma_valid(inputs, opts);
    laws::lemma_prepared(m);
    lemma_prepared_in_order(m);
    lemma_finished(inputs, opts);
    merging::law_with_distinct_types(p, apart);
    merging::lemma_merges_in_order(p, apart);
    let k0 = dedup::with_distinct_capabilities(m);
    let b0 = ModuleView {
        ext_inst_imports: dedup::keep_first(
            k0.ext_inst_imports,
            |i: InstView| dedup::import_name(i),
        ),
        ..k0
    };
    rename::lemma_replaced_pairs(b0, remap);
    rename::lemma_replaced_pairs(x, swaps);
    lemma_map_contains(m.annotations, f1, g);
    lemma_map_contains(p.annotations, f2, f1(g));
    let z = kept_inst(m, info, g);
    assert(t.annotations.contains(z));
    lemma_kept_inst(inputs, opts, g);
    assert(z == merging::redirected(g, kept));
    assert forall|k: int| 0 <= k < z.operands.len() implies (#[trigger] z.operands[k])
        == OperandView::IdRef(kept(g.operands[k]->IdRef_0)) && !dropped.contains(
        z.operands[k]->IdRef_0,
    ) by {
        assert(g.operands[k] is IdRef);
        merging::lemma_followed_kept(merges, effects::set_id(m, g.operands[k]->IdRef_0));
    }
    lemma_no_targets(z, dropped);
    assert(d.annotations.contains(z)) by {
        if dropped.len() > 0 {
            effects::law_groups_lose_targets(t, dropped, z);
        }
    }
    let w = effects::without_targets(z, ids);
    assert(x.annotations.contains(w)) by {
        if ids.len() > 0 {
            effects::law_groups_lose_targets(d, ids, z);
        } else {
            lemma_no_targets(z, ids);
        }
    }
    let h = without_imports(inputs, opts, g);
    assert(w == kept_inst(m, info, h)) by {
        lemma_kept_inst(inputs, opts, h);
        let rename_one = |o: OperandView| o.renamed(kept);
        let keep = |o: OperandView| o matches OperandView::IdRef(v) && !ids.contains(v);
        let test = |o: OperandView|
            o matches OperandView::IdRef(v) && !ids.contains(kept_id(inputs, opts, v));
        lemma_filter_map(g.operands, rename_one, keep);
        assert((|o: OperandView| keep(rename_one(o))) =~= test);
        assert(w.operands =~= merging::redirected(h, kept).operands);
        assert(w =~= merging::redirected(h, kept));
    }
    lemma_map_contains(x.annotations, f3, w);
    let y = laws::carried(m, info, h);
    assert(f3(w) == y);
    assert(a.annotations.contains(y));
    laws::lemma_carried(m, info, h);
    assert(!effects::marks_symbol(y));
    let u = linkage::unlinked(a, info.pairs, opts.lib);
    effects::law_unlinked(a, info.pairs, opts.lib);
    assert(u.annotations.contains(y));
    let v = dedup::with_distinct_interfaces(u);
    effects::law_distinct_annotations(v);
    assert(dedup::with_distinct_annotations(v).annotations.contains(y));
    assert(c.annotations.contains(y));
    lemma_map_contains(c.annotations, |i: InstView| laws::numbered(c, i), y);
}

/// A declaration of valid modules is dropped only for an earlier one that, when it was
/// dropped, had the same opcode, the same type and the same operands, word for word.
pub proof fn law_merged_away_for_the_same(inputs: Seq<ModuleView>, opts: Options, id: u32)
    requires
        links_valid(inputs, opts),
        is_merged_away(inputs, opts, id),
    ensures
        ({
            let m = link::merged(inputs);
            let p = laws::prepared(m);
            let merges = merging::merges_of(p, link::set_apart(m, pairs(inputs, opts)));
            exists|k: int|
                {
                    &&& 0 <= k < merges.len()
                    &&& (#[trigger] merges[k]).0 == id
                    &&& merging::is_timely_merge(p.types_global_values, merges, k)
                }
        }),
{
    let m = link::merged(inputs);
    let p = laws::prepared(m);
    let apart = link::set_apart(m, pairs(inputs, opts));
    let merges = merging::merges_of(p, apart);
    let dropped = merging::dropped_ids(merges);
    lemma_valid(inputs, opts);
    laws::lemma_prepared(m);
    let k = choose|k: int| 0 <= k < dropped.len() && dropped[k] == id;
    assert(merges[k].0 == id);
    merging::law_only_the_same_is_merged(p, apart, k);
}

/// Symbols are not merged away: neither those that decorations mark as imported nor the
/// exports of pairs.
pub proof fn law_symbols_are_not_merged(inputs: Seq<ModuleView>, opts: Options, id: u32)
    requires
        links_valid(inputs, opts),
        effects::is_export_of(pairs(inputs, opts), id) || exists|a: int, name: Seq<char>|
            0 <= a < link::merged(inputs).annotations.len() && #[trigger] pairing::marks(
                link::merged(inputs).annotations[a],
                id,
                name,
                true,
            ),
    ensures
        !is_merged_away(inputs, opts, id),
{
    let m = link::merged(inputs);
    lemma_valid(inputs, opts);
    laws::lemma_prepared(m);
    pairing::law_set_apart(inputs, opts, id);
    merging::law_with_distinct_types(
        laws::prepared(m),
        link::set_apart(m, pairs(inputs, opts)),
    );
}

/// The export of a pair is no instruction set.
proof fn lemma_export_is_no_set(inputs: Seq<ModuleView>, opts: Options, k: int)
    requires
        links_valid(inputs, opts),
        0 <= k < pairs(inputs, opts).len(),
    ensures
        !is_set(link::merged(inputs), pairs(inputs, opts)[k].export.id),
{
    let m = link::merged(inputs);
    let ds = defs::definitions(m);
    let all = m.all_insts();
    let info = laws::info_of_merged(inputs, opts);
    let id = info.pairs[k].export.id;
    lemma_valid(inputs, opts);
    laws::lemma_links(inputs, opts);
    symbols::law_pairs(info.imports, info.exports);
    assert(info.pairs[k].import == info.imports[k]);
    pairing::law_symbols(m, ds);
    let places = choose|places: Seq<int>| #[trigger]
        pairing::are_read_from(m, ds, m.annotations, info.exports, false, places);
    let e = choose|e: int| 0 <= e < info.exports.len() && info.exports[e] == info.pairs[k].export;
    assert(pairing::is_read_from(m, ds, m.annotations[places[e]], info.exports[e], false));
    if is_set(m, id) {
        let j = choose|j: int|
            0 <= j < m.ext_inst_imports.len() && (#[trigger] m.ext_inst_imports[j]).result_id
                == Some(id);
        let n = m.capabilities.len() + m.extensions.len() + j;
        assert(all[n as int] == m.ext_inst_imports[j]);
        assert forall|l: int| n < l < all.len() implies (#[trigger] all[l]).result_id
            != all[n as int].result_id by {}
        pairing::law_definitions(m, n as int);
        assert(m.ext_inst_imports[j].opcode == opcode::EXT_INST_IMPORT);
    }
}

/// What is said about an export that stands in for an import stays said, apart from what
/// marks it for linking, unless the export is itself imported.
pub proof fn law_export_annotations_are_kept(
    inputs: Seq<ModuleView>,
    opts: Options,
    k: int,
    v: InstView,
)
    requires
        links_valid(inputs, opts),
        0 <= k < pairs(inputs, opts).len(),
        link::merged(inputs).annotations.contains(v),
        v.opcode != opcode::GROUP_DECORATE,
        !effects::marks_symbol(v),
        effects::speaks_of(v, pairs(inputs, opts)[k].export.id),
        !linkage::imported_ids(laws::info_of_merged(inputs, opts).imports).contains(
            pairs(inputs, opts)[k].export.id,
        ),
    ensures
        laws::result(inputs, opts).annotations.contains(moved(inputs, opts, v)),
{
    let id = pairs(inputs, opts)[k].export.id;
    assert(effects::is_export_of(pairs(inputs, opts), id));
    law_symbols_are_not_merged(inputs, opts, id);
    lemma_export_is_no_set(inputs, opts, k);
    law_annotations_are_kept(inputs, opts, v);
}

} // verus!
