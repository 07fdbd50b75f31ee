//! What holds of linking as a whole.

use vstd::prelude::*;

use crate::bridge;
use crate::dedup;
use crate::defs;
use crate::error::ErrorView;
use crate::globals;
use crate::joining;
use crate::link;
use crate::linkage;
use crate::linkage::Options;
use crate::merging;
use crate::model;
use crate::model::{FunctionView, InstView, ModuleView, OperandView};
use crate::opcode;
use crate::rename;
use crate::sections;
use crate::sweep;
use crate::symbols;
use crate::symbols::{InfoView, PairView, SymbolView};
use crate::types;

verus! {

/// A merged module without repeated capabilities and imports of instruction sets.
pub open spec fn prepared(m: ModuleView) -> ModuleView {
    dedup::with_distinct_imports(dedup::with_distinct_capabilities(m))
}

pub proof fn lemma_keep_first_definers<K>(
    s: Seq<InstView>,
    key: spec_fn(InstView) -> Option<K>,
    id: u32,
)
    ensures
        joining::definers(dedup::keep_first(s, key), id) <= joining::definers(s, id),
    decreases s.len(),
{
    if s.len() > 0 {
        let rest = s.drop_last();
        lemma_keep_first_definers(rest, key, id);
        let p = dedup::keep_first(rest, key);
        assert(p.push(s.last()).drop_last() =~= p);
    }
}

proof fn lemma_each_keep_first<A, K>(
    s: Seq<A>,
    key: spec_fn(A) -> Option<K>,
    p: spec_fn(A) -> bool,
)
    requires
        model::each(s, p),
    ensures
        model::each(dedup::keep_first(s, key), p),
{
    let r = dedup::keep_first(s, key);
    dedup::law_keep_first(s, key);
    let places = choose|places: Seq<int>| dedup::stand_at(r, s, places);
    assert forall|k: int| 0 <= k < r.len() implies p(#[trigger] r[k]) by {
        assert(s[places[k]] == r[k]);
    }
}

/// Without repeated capabilities and imports of instruction sets a module is still
/// well placed, and no id is defined twice.
pub proof fn lemma_prepared(m: ModuleView)
    requires
        sections::well_placed(m),
        merging::defined_once(m.all_insts()),
    ensures
        sections::well_placed(prepared(m)),
        merging::defined_once(prepared(m).all_insts()),
{
    let a = dedup::with_distinct_capabilities(m);
    let b = ModuleView {
        ext_inst_imports: dedup::keep_first(
            a.ext_inst_imports,
            |i: InstView| dedup::import_name(i),
        ),
        ..a
    };
    let remap = dedup::import_remap(m.ext_inst_imports);
    let f = |i: InstView| rename::replaced_by(i, remap);
    lemma_each_keep_first(
        m.capabilities,
        |i: InstView| dedup::capability_key(i),
        |i: InstView| i.opcode == opcode::CAPABILITY,
    );
    lemma_each_keep_first(
        m.ext_inst_imports,
        |i: InstView| dedup::import_name(i),
        |i: InstView| i.opcode == opcode::EXT_INST_IMPORT,
    );
    assert(sections::well_placed(b));
    rename::lemma_replaced_pairs(b, remap);
    assert forall|i: InstView| (#[trigger] f(i)).opcode == i.opcode && f(i).result_id
        == i.result_id by {
        rename::lemma_replaced_by(i, remap);
    }
    sections::lemma_well_placed_map(b, f);
    model::lemma_map_insts(b, f);
    assert forall|id: u32| #[trigger] joining::definers(prepared(m).all_insts(), id) <= 1 by {
        joining::lemma_definers_map(b.all_insts(), f, id);
        joining::lemma_once_definers(m.all_insts(), id);
        joining::lemma_definers_in(m, id);
        joining::lemma_definers_in(b, id);
        lemma_keep_first_definers(m.capabilities, |i: InstView| dedup::capability_key(i), id);
        lemma_keep_first_definers(
            m.ext_inst_imports,
            |i: InstView| dedup::import_name(i),
            id,
        );
    }
    joining::lemma_definers_once(prepared(m).all_insts());
}

/// Whether modules are linked without an error.
pub open spec fn links(inputs: Seq<ModuleView>, opts: Options) -> bool {
    link::linkable(inputs, opts) && link::linked(inputs, opts) is Ok
}

/// The imports, exports and pairs of what modules are merged into.
pub open spec fn info_of_merged(inputs: Seq<ModuleView>, opts: Options) -> InfoView {
    let m = link::merged(inputs);
    symbols::info_of(m, defs::definitions(m), opts.partial)->Ok_0
}

/// The linked module before its ids are renumbered.
pub open spec fn before_numbering(inputs: Seq<ModuleView>, opts: Options) -> ModuleView {
    let info = info_of_merged(inputs, opts);
    globals::with_sorted_globals(
        link::cleaned(link::resolved(link::merged(inputs), info), info.pairs, opts.lib),
    )
}

/// The linked module.
pub open spec fn result(inputs: Seq<ModuleView>, opts: Options) -> ModuleView {
    link::linked(inputs, opts)->Ok_0
}

pub proof fn lemma_links(inputs: Seq<ModuleView>, opts: Options)
    requires
        links(inputs, opts),
    ensures
        result(inputs, opts) == link::finished(before_numbering(inputs, opts)),
        rename::numberable(before_numbering(inputs, opts)),
        globals::arrangeable(
            link::cleaned(
                link::resolved(link::merged(inputs), info_of_merged(inputs, opts)),
                info_of_merged(inputs, opts).pairs,
                opts.lib,
            ),
        ),
        symbols::symbols_readable(
            link::merged(inputs),
            defs::definitions(link::merged(inputs)),
        ),
        symbols::info_of(
            link::merged(inputs),
            defs::definitions(link::merged(inputs)),
            opts.partial,
        ) == Ok::<InfoView, ErrorView>(info_of_merged(inputs, opts)),
{
}

/// Renumbering an instruction.
pub open spec fn numbered(m: ModuleView, i: InstView) -> InstView {
    let order = rename::ids_in_order(m);
    i.renamed(|id: u32| rename::number_in(order, id), |id: u32| rename::number_in(order, id))
}

pub proof fn lemma_numbered(m: ModuleView, i: InstView)
    ensures
        numbered(m, i).opcode == i.opcode,
        numbered(m, i).operands.len() == i.operands.len(),
        forall|k: int|
            0 <= k < i.operands.len() && (#[trigger] i.operands[k]).id() is None ==> numbered(
                m,
                i,
            ).operands[k] == i.operands[k],
        forall|k: int|
            0 <= k < i.operands.len() && (#[trigger] numbered(m, i).operands[k]).id() is None
                ==> numbered(m, i).operands[k] == i.operands[k],
{
}

/// A linked module does not ask for the `Linkage` capability.
pub proof fn law_no_linkage_capability(inputs: Seq<ModuleView>, opts: Options)
    requires
        links(inputs, opts),
    ensures
        forall|k: int|
            0 <= k < result(inputs, opts).capabilities.len() ==> !linkage::wants_linkage(
                #[trigger] result(inputs, opts).capabilities[k],
            ),
{
    lemma_links(inputs, opts);
    let info = info_of_merged(inputs, opts);
    let a = link::resolved(link::merged(inputs), info);
    let c = before_numbering(inputs, opts);
    let r = result(inputs, opts);
    let dead = |i: InstView| linkage::wants_linkage(i);
    assert(c.capabilities == sweep::swept(a.capabilities, dead));
    assert forall|k: int| 0 <= k < r.capabilities.len() implies !linkage::wants_linkage(
        #[trigger] r.capabilities[k],
    ) by {
        let i = c.capabilities[k];
        assert(r.capabilities[k] == numbered(c, i));
        lemma_numbered(c, i);
        assert(c.capabilities.contains(i));
        sweep::law_swept(a.capabilities, dead, i);
        assert(!dead(i));
    }
}

/// Whether the operands of an instruction that are no ids are those of another.
pub open spec fn same_literals(a: InstView, b: InstView) -> bool {
    &&& a.opcode == b.opcode
    &&& a.operands.len() == b.operands.len()
    &&& forall|k: int|
        #![trigger a.operands[k]]
        #![trigger b.operands[k]]
        0 <= k < a.operands.len() && (a.operands[k].id() is None || b.operands[k].id() is None)
            ==> a.operands[k] == b.operands[k]
}

proof fn lemma_same_linkage(a: InstView, b: InstView)
    requires
        same_literals(a, b),
    ensures
        symbols::is_linkage(a) == symbols::is_linkage(b),
        symbols::marks_import(a) == symbols::marks_import(b),
        symbols::marks_export(a) == symbols::marks_export(b),
{
    if a.operands.len() > 1 {
        assert(a.operands[1] == b.operands[1] || a.operands[1].id() is Some);
    }
    if a.operands.len() > 3 {
        assert(a.operands[3] == b.operands[3] || a.operands[3].id() is Some);
    }
}

/// Unless the result is a library, a linked module has no symbol marked as exported.
pub proof fn law_no_export_linkage(inputs: Seq<ModuleView>, opts: Options)
    requires
        links(inputs, opts),
        !opts.lib,
    ensures
        forall|k: int|
            0 <= k < result(inputs, opts).annotations.len() ==> !linkage::links_export(
                #[trigger] result(inputs, opts).annotations[k],
            ),
{
    let c = before_numbering(inputs, opts);
    let r = result(inputs, opts);
    lemma_links(inputs, opts);
    assert forall|k: int| 0 <= k < r.annotations.len() implies !linkage::links_export(
        #[trigger] r.annotations[k],
    ) by {
        let i = c.annotations[k];
        assert(r.annotations[k] == numbered(c, i));
        lemma_numbered(c, i);
        lemma_same_linkage(r.annotations[k], i);
        lemma_cleaned_annotation(
            link::resolved(link::merged(inputs), info_of_merged(inputs, opts)),
            info_of_merged(inputs, opts).pairs,
            false,
            i,
        );
    }
}

/// An annotation of a cleaned module is one of those before that does not mark a
/// paired symbol nor, unless the result is a library, an export.
proof fn lemma_cleaned_annotation(a: ModuleView, pairs: Seq<PairView>, lib: bool, i: InstView)
    requires
        link::cleaned(a, pairs, lib).annotations.contains(i),
    ensures
        a.annotations.contains(i),
        !linkage::links_pair(pairs, i),
        !lib ==> !linkage::links_export(i),
{
    let u = linkage::unlinked_annotations(a.annotations, pairs, lib);
    let key = |i: InstView| Some(i);
    let kept = dedup::keep_first(u, key);
    dedup::law_keep_first(u, key);
    let places = choose|places: Seq<int>| dedup::stand_at(kept, u, places);
    let k = choose|k: int| 0 <= k < kept.len() && kept[k] == i;
    assert(u[places[k]] == i);
    assert(u.contains(i));
    let dead = |i: InstView| linkage::links_pair(pairs, i);
    let rest = sweep::swept(a.annotations, dead);
    if !lib {
        sweep::law_swept(rest, |i: InstView| linkage::links_export(i), i);
    }
    sweep::law_swept(a.annotations, dead, i);
}

proof fn lemma_imports_found(m: ModuleView, defs: Map<u32, InstView>, annotations: Seq<InstView>, v:
    InstView)
    requires
        symbols::symbols_of(m, defs, annotations) is Some,
        annotations.contains(v),
        symbols::is_linkage(v),
        symbols::marks_import(v),
    ensures
        ({
            let imports = (symbols::symbols_of(m, defs, annotations)->0).0;
            exists|k: int|
                0 <= k < imports.len() && symbols::symbol_of(m, defs, v) == Some(
                    #[trigger] imports[k],
                )
        }),
    decreases annotations.len(),
{
    let rest = annotations.drop_last();
    let imports = (symbols::symbols_of(m, defs, annotations)->0).0;
    let at = choose|at: int| 0 <= at < annotations.len() && annotations[at] == v;
    if at < rest.len() {
        assert(rest[at] == v);
        lemma_imports_found(m, defs, rest, v);
        let before = (symbols::symbols_of(m, defs, rest)->0).0;
        let k = choose|k: int|
            0 <= k < before.len() && symbols::symbol_of(m, defs, v) == Some(#[trigger] before[k]);
        assert(imports[k] == before[k]);
    } else {
        assert(imports.last() == symbols::symbol_of(m, defs, v)->0);
        assert(imports[imports.len() - 1] == imports.last());
    }
}

proof fn lemma_imported_ids(imports: Seq<SymbolView>, k: int)
    requires
        0 <= k < imports.len(),
    ensures
        linkage::imported_ids(imports).contains(imports[k].id),
    decreases imports.len(),
{
    let rest = imports.drop_last();
    let a = linkage::imported_ids(rest);
    let b = linkage::imported_ids(imports);
    if k < rest.len() {
        assert(rest[k] == imports[k]);
        lemma_imported_ids(rest, k);
        let j = choose|j: int| 0 <= j < a.len() && a[j] == imports[k].id;
        assert(b[j] == imports[k].id);
    } else {
        assert(b[a.len() as int] == imports[k].id);
    }
}

/// An annotation that stays when those about ids are removed was there before, and
/// is about none of the ids.
proof fn lemma_annotation_stays(m: ModuleView, ids: Seq<u32>, x: InstView)
    requires
        sweep::without_all_annotations(m, ids).annotations.contains(x),
        x.opcode != opcode::GROUP_DECORATE,
    ensures
        m.annotations.contains(x),
        forall|id: u32| #[trigger] ids.contains(id) ==> !sweep::about(x, id),
    decreases ids.len(),
{
    if ids.len() > 0 {
        let rest = ids.drop_last();
        let id = ids.last();
        let n = sweep::without_all_annotations(m, rest);
        let a = sweep::without_id(n.annotations, id);
        let b = a.map_values(|i: InstView| sweep::pruned(i, id));
        let k = choose|k: int| 0 <= k < b.len() && b[k] == x;
        assert(a[k] == x);
        assert(a.contains(x));
        sweep::law_swept(n.annotations, |i: InstView| sweep::about(i, id), x);
        lemma_annotation_stays(m, rest, x);
        assert forall|w: u32| #[trigger] ids.contains(w) implies !sweep::about(x, w) by {
            let j = choose|j: int| 0 <= j < ids.len() && ids[j] == w;
            if j < rest.len() {
                assert(rest[j] == w);
                assert(rest.contains(w));
            }
        }
    }
}

proof fn lemma_replaced_literals(i: InstView, pairs: Seq<(u32, u32)>)
    ensures
        same_literals(rename::replaced_by(i, pairs), i),
    decreases pairs.len(),
{
    if pairs.len() > 0 {
        lemma_replaced_literals(i, pairs.drop_last());
    }
}

proof fn lemma_merged_literals(i: InstView, merges: Seq<(u32, u32)>)
    ensures
        same_literals(merging::after_merges(i, merges), i),
    decreases merges.len(),
{
    if merges.len() > 0 {
        lemma_merged_literals(i, merges.drop_last());
    }
}

proof fn lemma_replaced_other(i: InstView, pairs: Seq<(u32, u32)>, w: u32)
    requires
        i.operands.len() > 0,
        i.operands[0] == OperandView::IdRef(w),
        forall|k: int| 0 <= k < pairs.len() ==> (#[trigger] pairs[k]).0 != w,
    ensures
        rename::replaced_by(i, pairs).operands.len() > 0,
        rename::replaced_by(i, pairs).operands[0] == OperandView::IdRef(w),
    decreases pairs.len(),
{
    if pairs.len() > 0 {
        let rest = pairs.drop_last();
        assert forall|k: int| 0 <= k < rest.len() implies (#[trigger] rest[k]).0 != w by {
            assert(rest[k] == pairs[k]);
        }
        assert(pairs[pairs.len() - 1].0 != w);
        lemma_replaced_other(i, rest, w);
    }
}

proof fn lemma_merged_other(i: InstView, merges: Seq<(u32, u32)>, w: u32)
    requires
        i.operands.len() > 0,
        i.operands[0] == OperandView::IdRef(w),
        !merging::dropped_ids(merges).contains(w),
    ensures
        merging::after_merges(i, merges).operands.len() > 0,
        merging::after_merges(i, merges).operands[0] == OperandView::IdRef(w),
    decreases merges.len(),
{
    if merges.len() > 0 {
        let rest = merges.drop_last();
        if merging::dropped_ids(rest).contains(w) {
            let k = choose|k: int| 0 <= k < rest.len() && merging::dropped_ids(rest)[k] == w;
            assert(merging::dropped_ids(merges)[k] == w);
        }
        assert(merging::dropped_ids(merges)[merges.len() - 1] == merges.last().0);
        lemma_merged_other(i, rest, w);
    }
}

pub proof fn lemma_remap(s: Seq<InstView>, k: int)
    requires
        0 <= k < dedup::import_remap(s).len(),
    ensures
        exists|j: int|
            0 <= j < s.len() && (#[trigger] s[j]).result_id == Some(dedup::import_remap(s)[k].0),
    decreases s.len(),
{
    if s.len() > 0 {
        let rest = s.drop_last();
        let p = dedup::import_remap(rest);
        if k < p.len() {
            lemma_remap(rest, k);
            let j = choose|j: int| 0 <= j < rest.len() && (#[trigger] rest[j]).result_id == Some(p[k].0);
            assert(s[j] == rest[j]);
        } else {
            assert(s[s.len() - 1] == s.last());
        }
    }
}

/// Where an annotation of a resolved module comes from: an annotation of the merged
/// module with the same literals, which is about no import unless the dropping of
/// duplicates changed what it is about.
proof fn lemma_resolved_annotation(m: ModuleView, info: InfoView, y: InstView) -> (v: InstView)
    requires
        sections::well_placed(m),
        merging::defined_once(m.all_insts()),
        link::resolved(m, info).annotations.contains(y),
        y.opcode != opcode::GROUP_DECORATE,
    ensures
        m.annotations.contains(v),
        same_literals(y, v),
        ({
            let u = rename::replaced_by(v, dedup::import_remap(m.ext_inst_imports));
            let z = merging::after_merges(u, merging::merges_of(prepared(m), link::set_apart(m, info.pairs)));
            forall|id: u32| #[trigger]
                linkage::imported_ids(info.imports).contains(id) ==> !sweep::about(z, id)
        }),
{
    let remap = dedup::import_remap(m.ext_inst_imports);
    let p = prepared(m);
    let apart = link::set_apart(m, info.pairs);
    let merges = merging::merges_of(p, apart);
    let t = merging::merged_module(p, merges);
    let ids = linkage::imported_ids(info.imports);
    let swaps = link::pair_ids(info.pairs);
    lemma_prepared(m);
    merging::law_with_distinct_types(p, apart);
    let d = types::with_merged_types(p, apart);
    let x = sweep::without_all_annotations(d, ids);
    rename::lemma_replaced_pairs(x, swaps);
    let n = link::resolved(m, info);
    let k = choose|k: int| 0 <= k < n.annotations.len() && n.annotations[k] == y;
    let z = x.annotations[k];
    assert(y == rename::replaced_by(z, swaps));
    lemma_replaced_literals(z, swaps);
    assert(x.annotations.contains(z));
    lemma_annotation_stays(d, ids, z);
    lemma_annotation_stays(t, merging::dropped_ids(merges), z);
    let j = choose|j: int| 0 <= j < t.annotations.len() && t.annotations[j] == z;
    let u = p.annotations[j];
    assert(z == merging::after_merges(u, merges));
    lemma_merged_literals(u, merges);
    let a = dedup::with_distinct_capabilities(m);
    let b = ModuleView {
        ext_inst_imports: dedup::keep_first(
            a.ext_inst_imports,
            |i: InstView| dedup::import_name(i),
        ),
        ..a
    };
    rename::lemma_replaced_pairs(b, remap);
    let v = m.annotations[j];
    assert(u == rename::replaced_by(v, remap));
    lemma_replaced_literals(v, remap);
    assert(m.annotations.contains(v));
    lemma_literals_chain(y, z, u);
    lemma_literals_chain(y, u, v);
    v
}

proof fn lemma_literals_chain(a: InstView, b: InstView, c: InstView)
    requires
        same_literals(a, b),
        same_literals(b, c),
    ensures
        same_literals(a, c),
{
    assert forall|k: int|
        #![trigger a.operands[k]]
        #![trigger c.operands[k]]
        0 <= k < a.operands.len() && (a.operands[k].id() is None || c.operands[k].id() is None)
            implies a.operands[k] == c.operands[k] by {
        assert(b.operands[k].id() is None ==> a.operands[k] == b.operands[k]);
    }
}

/// The id of a symbol is no import of an instruction set.
pub proof fn lemma_symbol_is_no_set(m: ModuleView, v: InstView, j: int)
    requires
        sections::well_placed(m),
        merging::defined_once(m.all_insts()),
        symbols::symbol_of(m, defs::definitions(m), v) is Some,
        0 <= j < m.ext_inst_imports.len(),
    ensures
        m.ext_inst_imports[j].result_id != Some(v.operands[0]->IdRef_0),
{
    let all = m.all_insts();
    let id = v.operands[0]->IdRef_0;
    let d = defs::last_def(all, id);
    defs::lemma_last_def(all, id);
    let n = m.capabilities.len() + m.extensions.len() + j;
    assert(all[n] == m.ext_inst_imports[j]);
    assert(m.ext_inst_imports[j].opcode == opcode::EXT_INST_IMPORT);
    if m.ext_inst_imports[j].result_id == Some(id) {
        if n < d {
            assert(all[n].result_id != all[d].result_id);
        }
        if d < n {
            assert(all[d].result_id != all[n].result_id);
        }
    }
}

/// Unless the result is a library or linking may be partial, a linked module has no
/// linkage decoration at all, provided that those of the modules mark imports and
/// exports only.
pub proof fn law_no_linkage_left(inputs: Seq<ModuleView>, opts: Options)
    requires
        links(inputs, opts),
        !opts.lib,
        !opts.partial,
        forall|k: int| 0 <= k < inputs.len() ==> joining::is_valid(#[trigger] inputs[k]),
        forall|k: int|
            0 <= k < link::merged(inputs).annotations.len() && symbols::is_linkage(
                #[trigger] link::merged(inputs).annotations[k],
            ) ==> symbols::marks_import(link::merged(inputs).annotations[k])
                || symbols::marks_export(link::merged(inputs).annotations[k]),
    ensures
        forall|k: int|
            0 <= k < result(inputs, opts).annotations.len() ==> !symbols::is_linkage(
                #[trigger] result(inputs, opts).annotations[k],
            ),
{
    let m = link::merged(inputs);
    let info = info_of_merged(inputs, opts);
    let ds = defs::definitions(m);
    let c = before_numbering(inputs, opts);
    let r = result(inputs, opts);
    let remap = dedup::import_remap(m.ext_inst_imports);
    let merges = merging::merges_of(prepared(m), link::set_apart(m, info.pairs));
    let a = link::resolved(m, info);
    let apart = link::set_apart(m, info.pairs);
    lemma_links(inputs, opts);
    joining::law_merged_is_valid(inputs);
    lemma_prepared(m);
    merging::law_with_distinct_types(prepared(m), apart);
    assert forall|k: int| 0 <= k < r.annotations.len() implies !symbols::is_linkage(
        #[trigger] r.annotations[k],
    ) by {
        let y = c.annotations[k];
        assert(r.annotations[k] == numbered(c, y));
        lemma_numbered(c, y);
        lemma_same_linkage(r.annotations[k], y);
        if symbols::is_linkage(y) {
            assert(c.annotations.contains(y));
            lemma_cleaned_annotation(a, info.pairs, opts.lib, y);
            let v = lemma_resolved_annotation(m, info, y);
            lemma_same_linkage(y, v);
            let at = choose|at: int| 0 <= at < m.annotations.len() && m.annotations[at] == v;
            assert(symbols::is_linkage(m.annotations[at]));
            lemma_imports_found(m, ds, m.annotations, v);
            let j = choose|j: int|
                0 <= j < info.imports.len() && symbols::symbol_of(m, ds, v) == Some(
                    #[trigger] info.imports[j],
                );
            let id = info.imports[j].id;
            assert(v.operands[0] == OperandView::IdRef(id));
            assert forall|l: int| 0 <= l < remap.len() implies (#[trigger] remap[l]).0 != id by {
                lemma_remap(m.ext_inst_imports, l);
                let q = choose|q: int|
                    0 <= q < m.ext_inst_imports.len() && (
                    #[trigger] m.ext_inst_imports[q]).result_id == Some(remap[l].0);
                lemma_symbol_is_no_set(m, v, q);
            }
            lemma_replaced_other(v, remap, id);
            let u = rename::replaced_by(v, remap);
            assert(link::symbol_ids(info.imports)[j] == id);
            assert(apart[j] == id);
            assert(apart.contains(id));
            lemma_merged_other(u, merges, id);
            let z = merging::after_merges(u, merges);
            lemma_imported_ids(info.imports, j);
            assert(!sweep::about(z, id));
        }
    }
}

/// What dropping duplicates and resolving imports makes of an instruction that stays.
pub open spec fn carried(m: ModuleView, info: InfoView, i: InstView) -> InstView {
    rename::replaced_by(
        merging::after_merges(
            rename::replaced_by(i, dedup::import_remap(m.ext_inst_imports)),
            merging::merges_of(prepared(m), link::set_apart(m, info.pairs)),
        ),
        link::pair_ids(info.pairs),
    )
}

pub proof fn lemma_carried(m: ModuleView, info: InfoView, i: InstView)
    ensures
        same_literals(carried(m, info, i), i),
        carried(m, info, i).result_id == i.result_id,
{
    let a = rename::replaced_by(i, dedup::import_remap(m.ext_inst_imports));
    let b = merging::after_merges(a, merging::merges_of(prepared(m), link::set_apart(m, info.pairs)));
    lemma_replaced_literals(i, dedup::import_remap(m.ext_inst_imports));
    lemma_merged_literals(a, merging::merges_of(prepared(m), link::set_apart(m, info.pairs)));
    lemma_replaced_literals(b, link::pair_ids(info.pairs));
    lemma_literals_chain(carried(m, info, i), b, a);
    lemma_literals_chain(carried(m, info, i), a, i);
    rename::lemma_replaced_by(i, dedup::import_remap(m.ext_inst_imports));
    merging::lemma_after_merges(a, merging::merges_of(prepared(m), link::set_apart(m, info.pairs)));
    rename::lemma_replaced_by(b, link::pair_ids(info.pairs));
}

/// What resolving makes of the sections that hold neither declarations nor what is said
/// about ids.
pub proof fn lemma_resolved_sections(m: ModuleView, info: InfoView)
    requires
        sections::well_placed(m),
        merging::defined_once(m.all_insts()),
    ensures
        ({
            let f = |i: InstView| carried(m, info, i);
            &&& link::resolved(m, info).entry_points == m.map_insts(f).entry_points
            &&& link::resolved(m, info).functions == m.map_insts(f).functions
            &&& link::resolved(m, info).extensions == m.map_insts(f).extensions
            &&& link::resolved(m, info).memory_model == m.map_insts(f).memory_model
            &&& link::resolved(m, info).execution_modes == m.map_insts(f).execution_modes
            &&& link::resolved(m, info).capabilities == dedup::with_distinct_capabilities(
                m,
            ).map_insts(f).capabilities
            &&& link::resolved(m, info).ext_inst_imports == dedup::keep_first(
                m.ext_inst_imports,
                |i: InstView| dedup::import_name(i),
            ).map_values(f)
        }),
{
    let remap = dedup::import_remap(m.ext_inst_imports);
    let swaps = link::pair_ids(info.pairs);
    let p = prepared(m);
    let apart = link::set_apart(m, info.pairs);
    let merges = merging::merges_of(p, apart);
    let f = |i: InstView| carried(m, info, i);
    let f1 = |i: InstView| rename::replaced_by(i, remap);
    let f2 = |i: InstView| merging::after_merges(i, merges);
    let f3 = |i: InstView| rename::replaced_by(i, swaps);
    let f12 = |i: InstView| f2(f1(i));
    lemma_prepared(m);
    merging::law_with_distinct_types(p, apart);
    let a = dedup::with_distinct_capabilities(m);
    let b = ModuleView {
        ext_inst_imports: dedup::keep_first(
            a.ext_inst_imports,
            |i: InstView| dedup::import_name(i),
        ),
        ..a
    };
    rename::lemma_replaced_pairs(b, remap);
    let t = merging::merged_module(p, merges);
    let d = types::with_merged_types(p, apart);
    sweep::lemma_without_all_annotations(t, merging::dropped_ids(merges));
    let x = sweep::without_all_annotations(d, linkage::imported_ids(info.imports));
    sweep::lemma_without_all_annotations(d, linkage::imported_ids(info.imports));
    rename::lemma_replaced_pairs(x, swaps);
    model::lemma_map_twice(m, f1, f2);
    model::lemma_map_twice(m, f12, f3);
    assert((|i: InstView| f3(f12(i))) =~= f);
    assert(p.functions == m.map_insts(f1).functions);
    assert(x.functions == m.map_insts(f12).functions);
    model::lemma_map_twice(b, f1, f2);
    model::lemma_map_twice(b, f12, f3);
}

/// How many entry points modules have together.
pub open spec fn entry_points_of(inputs: Seq<ModuleView>) -> nat
    decreases inputs.len(),
{
    if inputs.len() == 0 {
        0
    } else {
        entry_points_of(inputs.drop_last()) + inputs.last().entry_points.len()
    }
}

proof fn lemma_entry_points(modules: Seq<ModuleView>)
    ensures
        joining::joined_all(modules).entry_points.len() == entry_points_of(modules),
    decreases modules.len(),
{
    if modules.len() > 0 {
        lemma_entry_points(modules.drop_last());
    }
}

proof fn lemma_entry_points_moved(inputs: Seq<ModuleView>, n: int)
    requires
        0 <= n <= inputs.len(),
    ensures
        entry_points_of(link::moved_apart(inputs).take(n)) == entry_points_of(inputs.take(n)),
    decreases n,
{
    if n > 0 {
        let apart = link::moved_apart(inputs);
        lemma_entry_points_moved(inputs, n - 1);
        assert(apart.take(n).drop_last() =~= apart.take(n - 1));
        assert(inputs.take(n).drop_last() =~= inputs.take(n - 1));
        assert(apart.take(n).last() == apart[n - 1]);
    }
}

/// Every entry point of the modules survives, with its literal operands up to its
/// name.
pub proof fn law_entry_points_survive(inputs: Seq<ModuleView>, opts: Options)
    requires
        links(inputs, opts),
        forall|k: int| 0 <= k < inputs.len() ==> joining::is_valid(#[trigger] inputs[k]),
    ensures
        result(inputs, opts).entry_points.len() == entry_points_of(inputs),
        result(inputs, opts).entry_points.len() == link::merged(inputs).entry_points.len(),
        forall|k: int, j: int|
            #![trigger link::merged(inputs).entry_points[k].operands[j]]
            0 <= k < link::merged(inputs).entry_points.len() && 0 <= j < dedup::INTERFACE_START && j
                < link::merged(inputs).entry_points[k].operands.len() && link::merged(
                inputs,
            ).entry_points[k].operands[j].id() is None ==> {
                &&& j < result(inputs, opts).entry_points[k].operands.len()
                &&& result(inputs, opts).entry_points[k].operands[j] == link::merged(
                    inputs,
                ).entry_points[k].operands[j]
            },
{
    let m = link::merged(inputs);
    let info = info_of_merged(inputs, opts);
    let c = before_numbering(inputs, opts);
    let r = result(inputs, opts);
    let f = |i: InstView| carried(m, info, i);
    lemma_links(inputs, opts);
    joining::law_merged_is_valid(inputs);
    lemma_resolved_sections(m, info);
    assert forall|k: int| 0 <= k < inputs.len() implies sections::well_placed(
        #[trigger] inputs[k],
    ) by {
        assert(joining::is_valid(inputs[k]));
    }
    joining::law_merged(inputs);
    lemma_entry_points(link::moved_apart(inputs));
    lemma_entry_points_moved(inputs, inputs.len() as int);
    assert(link::moved_apart(inputs).take(inputs.len() as int) =~= link::moved_apart(inputs));
    assert(inputs.take(inputs.len() as int) =~= inputs);
    let a = link::resolved(m, info);
    assert(c.entry_points == a.entry_points.map_values(
        |i: InstView| dedup::with_distinct_interface(i),
    ));
    assert forall|k: int, j: int|
        #![trigger m.entry_points[k].operands[j]]
        0 <= k < m.entry_points.len() && 0 <= j < dedup::INTERFACE_START && j
            < m.entry_points[k].operands.len() && m.entry_points[k].operands[j].id() is None implies {
        &&& j < r.entry_points[k].operands.len()
        &&& r.entry_points[k].operands[j] == m.entry_points[k].operands[j]
    } by {
        let i = m.entry_points[k];
        let y = f(i);
        lemma_carried(m, info, i);
        assert(a.entry_points[k] == y);
        assert(y.operands[j] == i.operands[j]);
        let z = dedup::with_distinct_interface(y);
        assert(c.entry_points[k] == z);
        assert(z.operands[j] == y.operands[j]);
        lemma_numbered(c, z);
        assert(r.entry_points[k] == numbered(c, z));
        assert(z.operands[j].id() is None);
    }
}

/// Where every function of the modules that has no body is an import, every function
/// of the linked module has a body.
pub proof fn law_functions_have_bodies(inputs: Seq<ModuleView>, opts: Options)
    requires
        links(inputs, opts),
        forall|k: int| 0 <= k < inputs.len() ==> joining::is_valid(#[trigger] inputs[k]),
        forall|k: int|
            0 <= k < link::merged(inputs).functions.len() && (
            #[trigger] link::merged(inputs).functions[k]).blocks.len() == 0
                ==> linkage::is_imported(
                info_of_merged(inputs, opts).pairs,
                linkage::function_id(link::merged(inputs).functions[k]),
            ),
    ensures
        forall|k: int|
            0 <= k < result(inputs, opts).functions.len() ==> (
            #[trigger] result(inputs, opts).functions[k]).blocks.len() > 0,
{
    let m = link::merged(inputs);
    let info = info_of_merged(inputs, opts);
    let c = before_numbering(inputs, opts);
    let r = result(inputs, opts);
    let f = |i: InstView| carried(m, info, i);
    lemma_links(inputs, opts);
    joining::law_merged_is_valid(inputs);
    lemma_resolved_sections(m, info);
    let a = link::resolved(m, info);
    let keep = |g: FunctionView| !linkage::is_imported(info.pairs, linkage::function_id(g));
    assert(c.functions == a.functions.filter(keep));
    assert forall|k: int| 0 <= k < r.functions.len() implies (#[trigger] r.functions[k]).blocks.len()
        > 0 by {
        let g = c.functions[k];
        assert(r.functions[k].blocks.len() == g.blocks.len());
        a.functions.lemma_filter_pred(keep, k);
        assert(c.functions.contains(g));
        a.functions.lemma_filter_contains_rev(keep, g);
        let j = choose|j: int| 0 <= j < a.functions.len() && a.functions[j] == g;
        let h = m.functions[j];
        assert(g == h.map_insts(f));
        assert(sections::is_closed_function(h));
        lemma_carried(m, info, h.def->0);
        assert(linkage::function_id(g) == linkage::function_id(h));
        assert(g.blocks.len() == h.blocks.len());
    }
}

/// A function that is not imported stays, with what dropping duplicates and resolving
/// imports makes of its instructions, under the number of its id.
pub proof fn law_functions_stay(inputs: Seq<ModuleView>, opts: Options, j: int)
    requires
        links(inputs, opts),
        forall|k: int| 0 <= k < inputs.len() ==> joining::is_valid(#[trigger] inputs[k]),
        0 <= j < link::merged(inputs).functions.len(),
        !linkage::is_imported(
            info_of_merged(inputs, opts).pairs,
            linkage::function_id(link::merged(inputs).functions[j]),
        ),
        linkage::is_named(link::merged(inputs).functions[j]),
    ensures
        exists|k: int|
            {
                &&& 0 <= k < result(inputs, opts).functions.len()
                &&& before_numbering(inputs, opts).functions[k] == link::merged(
                    inputs,
                ).functions[j].map_insts(
                    |i: InstView| carried(
                        link::merged(inputs),
                        info_of_merged(inputs, opts),
                        i,
                    ),
                )
                &&& linkage::is_named(#[trigger] result(inputs, opts).functions[k])
                &&& linkage::function_id(result(inputs, opts).functions[k]) == rename::number_in(
                    rename::ids_in_order(before_numbering(inputs, opts)),
                    linkage::function_id(link::merged(inputs).functions[j]),
                )
                &&& result(inputs, opts).functions[k].blocks.len() == link::merged(
                    inputs,
                ).functions[j].blocks.len()
            },
{
    let m = link::merged(inputs);
    let info = info_of_merged(inputs, opts);
    let c = before_numbering(inputs, opts);
    let r = result(inputs, opts);
    let f = |i: InstView| carried(m, info, i);
    lemma_links(inputs, opts);
    joining::law_merged_is_valid(inputs);
    lemma_resolved_sections(m, info);
    let a = link::resolved(m, info);
    let keep = |g: FunctionView| !linkage::is_imported(info.pairs, linkage::function_id(g));
    assert(c.functions == a.functions.filter(keep));
    let h = m.functions[j];
    let g = a.functions[j];
    assert(g == h.map_insts(f));
    lemma_carried(m, info, h.def->0);
    assert(linkage::function_id(g) == linkage::function_id(h));
    a.functions.lemma_filter_contains(keep, j);
    let k = choose|k: int| 0 <= k < c.functions.len() && c.functions[k] == g;
    assert(linkage::is_named(r.functions[k]));
}

/// The ids of a linked module lie between 0 and the bound in its header, and each
/// number between them is an id.
pub proof fn law_ids_are_dense(inputs: Seq<ModuleView>, opts: Options, id: u32)
    requires
        links(inputs, opts),
    ensures
        result(inputs, opts).header is Some,
        rename::occurs(result(inputs, opts), id) <==> 0 < id < (result(
            inputs,
            opts,
        ).header->0).bound,
{
    let c = before_numbering(inputs, opts);
    let r = result(inputs, opts);
    let n = rename::compacted(c);
    lemma_links(inputs, opts);
    let p = |i: InstView| !i.mentions(id);
    model::lemma_every(n, p);
    model::lemma_every(r, p);
    let note = link::processed();
    assert(p(note)) by {
        if note.operand_uses(id) {
            let k = choose|k: int|
                0 <= k < note.operands.len() && (#[trigger] note.operands[k]).id() == Some(id);
        }
    }
    let x = n.debug_module_processed;
    let y = r.debug_module_processed;
    assert(model::each(x, p) <==> model::each(y, p)) by {
        if model::each(y, p) {
            assert forall|k: int| 0 <= k < x.len() implies p(#[trigger] x[k]) by {
                assert(y[k] == x[k]);
            }
        }
    }
    assert(r.every(p) == n.every(p));
    assert(rename::occurs(r, id) == !model::each(r.all_insts(), p));
    assert(rename::occurs(n, id) == !model::each(n.all_insts(), p));
    rename::law_compacted_bound(c, id);
}

proof fn lemma_each_filter<A>(s: Seq<A>, keep: spec_fn(A) -> bool, p: spec_fn(A) -> bool)
    requires
        model::each(s, p),
    ensures
        model::each(s.filter(keep), p),
{
    let t = s.filter(keep);
    assert forall|k: int| 0 <= k < t.len() implies p(#[trigger] t[k]) by {
        assert(t.contains(t[k]));
        s.lemma_filter_contains_rev(keep, t[k]);
        let j = choose|j: int| 0 <= j < s.len() && s[j] == t[k];
        assert(p(s[j]));
    }
}

/// Naming each interface variable once adds no use of an id.
proof fn lemma_interface_uses(i: InstView, id: u32)
    requires
        !i.uses(id),
    ensures
        !dedup::with_distinct_interface(i).uses(id),
{
    let r = dedup::with_distinct_interface(i);
    if r.operand_uses(id) {
        let k = choose|k: int| 0 <= k < r.operands.len() && (#[trigger] r.operands[k]).id() == Some(
            id,
        );
        let n = dedup::INTERFACE_START as int;
        if i.opcode == opcode::ENTRY_POINT && i.operands.len() > n {
            if k < n {
                assert(i.operands[k].id() == Some(id));
            } else {
                let rest = i.operands.skip(n);
                let key = |o: OperandView| dedup::interface_key(o);
                let kept = dedup::keep_first(rest, key);
                dedup::law_keep_first(rest, key);
                let places = choose|places: Seq<int>| dedup::stand_at(kept, rest, places);
                assert(rest[places[k - n]] == kept[k - n]);
                assert(i.operands[n + places[k - n]].id() == Some(id));
            }
        }
        assert(i.operand_uses(id));
    }
}

/// What holds of every instruction still does once a module is cleaned and its
/// declarations are in order, if naming each interface variable once leaves it so.
proof fn lemma_cleaned_every(
    a: ModuleView,
    pairs: Seq<PairView>,
    lib: bool,
    p: spec_fn(InstView) -> bool,
)
    requires
        a.every(p),
        forall|i: InstView| p(i) ==> p(#[trigger] dedup::with_distinct_interface(i)),
        globals::arrangeable(link::cleaned(a, pairs, lib)),
    ensures
        link::cleaned(a, pairs, lib).every(p),
        globals::with_sorted_globals(link::cleaned(a, pairs, lib)).every(p),
{
    let u = linkage::unlinked(a, pairs, lib);
    lemma_each_filter(
        a.functions,
        |f: FunctionView| !linkage::is_imported(pairs, linkage::function_id(f)),
        |g: FunctionView| g.every(p),
    );
    lemma_each_filter(
        a.types_global_values,
        |i: InstView| !linkage::defines_import(pairs, i),
        p,
    );
    sweep::lemma_each_swept(a.capabilities, |i: InstView| linkage::wants_linkage(i), p);
    sweep::lemma_each_swept(a.annotations, |i: InstView| linkage::links_pair(pairs, i), p);
    let rest = sweep::swept(a.annotations, |i: InstView| linkage::links_pair(pairs, i));
    sweep::lemma_each_swept(rest, |i: InstView| linkage::links_export(i), p);
    assert(u.every(p));
    let v = dedup::with_distinct_interfaces(u);
    assert forall|k: int| 0 <= k < v.entry_points.len() implies p(#[trigger] v.entry_points[k]) by {
        assert(p(u.entry_points[k]));
        assert(p(dedup::with_distinct_interface(u.entry_points[k])));
    }
    lemma_each_keep_first(v.annotations, |i: InstView| Some(i), p);
    let b = link::cleaned(a, pairs, lib);
    assert(b.every(p));
    model::lemma_every(b, p);
    let out = globals::arranged(b);
    let types = b.types_global_values;
    let n = globals::untied(types).len();
    let order = globals::rounds(types, globals::involved(types));
    globals::lemma_involved_finite(types);
    globals::lemma_rounds_within(types, globals::involved(types));
    lemma_each_filter(types, |i: InstView| i.result_id is None, p);
    assert forall|k: int| 0 <= k < out.len() implies p(#[trigger] out[k]) by {
        if k < n {
            assert(p(globals::untied(types)[k]));
        } else {
            let x = order[k - n];
            assert(order.contains(x));
            assert(globals::involved(types).contains(x));
            let all = b.all_insts();
            defs::lemma_last_def(all, x);
            assert(p(all[defs::last_def(all, x)]));
        }
    }
}

/// Cleaning a module and ordering its declarations adds no use of an id.
proof fn lemma_cleaned_uses(a: ModuleView, pairs: Seq<PairView>, lib: bool, id: u32)
    requires
        a.every(|i: InstView| !i.uses(id)),
        globals::arrangeable(link::cleaned(a, pairs, lib)),
    ensures
        globals::with_sorted_globals(link::cleaned(a, pairs, lib)).every(
            |i: InstView| !i.uses(id),
        ),
{
    let p = |i: InstView| !i.uses(id);
    assert forall|i: InstView| p(i) implies p(#[trigger] dedup::with_distinct_interface(i)) by {
        lemma_interface_uses(i, id);
    }
    lemma_cleaned_every(a, pairs, lib, p);
}

/// Once a module is linked, and before its ids are renumbered, no import is used,
/// declared or defined as a function any more, provided that no import is also an
/// export.
pub proof fn law_imports_are_gone(inputs: Seq<ModuleView>, opts: Options, k: int)
    requires
        links(inputs, opts),
        0 <= k < info_of_merged(inputs, opts).pairs.len(),
        forall|i: int, j: int|
            #![trigger info_of_merged(inputs, opts).pairs[i], info_of_merged(inputs, opts).pairs[j]]
            0 <= i < info_of_merged(inputs, opts).pairs.len() && 0 <= j < info_of_merged(
                inputs,
                opts,
            ).pairs.len() ==> info_of_merged(inputs, opts).pairs[i].import.id != info_of_merged(
                inputs,
                opts,
            ).pairs[j].export.id,
    ensures
        ({
            let c = before_numbering(inputs, opts);
            let id = info_of_merged(inputs, opts).pairs[k].import.id;
            &&& !rename::is_used(c, id)
            &&& forall|j: int|
                0 <= j < c.types_global_values.len() ==> (
                #[trigger] c.types_global_values[j]).result_id != Some(id)
            &&& forall|j: int|
                0 <= j < c.functions.len() ==> linkage::function_id(#[trigger] c.functions[j])
                    != id
        }),
{
    let m = link::merged(inputs);
    let info = info_of_merged(inputs, opts);
    let pairs = info.pairs;
    let id = pairs[k].import.id;
    let swaps = link::pair_ids(pairs);
    let x = sweep::without_all_annotations(
        link::without_duplicates(m, link::set_apart(m, pairs)),
        linkage::imported_ids(info.imports),
    );
    let a = link::resolved(m, info);
    let b = link::cleaned(a, pairs, opts.lib);
    let c = before_numbering(inputs, opts);
    let p = |i: InstView| !i.uses(id);
    lemma_links(inputs, opts);
    assert forall|i: int, j: int|
        #![trigger swaps[i], swaps[j]]
        0 <= i < swaps.len() && 0 <= j < swaps.len() implies swaps[i].0 != swaps[j].1 by {
        assert(pairs[i].import.id != pairs[j].export.id);
    }
    assert(swaps[k].0 == id);
    rename::law_replaced_pairs(x, swaps, k);
    assert(model::each(a.all_insts(), p)) by {
        assert forall|j: int| 0 <= j < a.all_insts().len() implies p(
            #[trigger] a.all_insts()[j],
        ) by {
            assert(!a.all_insts()[j].uses(id));
        }
    }
    model::lemma_every(a, p);
    lemma_cleaned_uses(a, pairs, opts.lib, id);
    model::lemma_every(c, p);
    if rename::is_used(c, id) {
        let j = choose|j: int| 0 <= j < c.all_insts().len() && (#[trigger] c.all_insts()[j]).uses(id);
        assert(p(c.all_insts()[j]));
    }
    assert(linkage::is_imported(pairs, id));
    let keep = |i: InstView| !linkage::defines_import(pairs, i);
    let types = b.types_global_values;
    assert(types == a.types_global_values.filter(keep));
    assert forall|j: int| 0 <= j < types.len() implies (#[trigger] types[j]).result_id != Some(
        id,
    ) by {
        a.types_global_values.lemma_filter_pred(keep, j);
    }
    let order = globals::rounds(types, globals::involved(types));
    globals::lemma_involved_finite(types);
    globals::lemma_rounds_within(types, globals::involved(types));
    lemma_cleaned_no_use(a, pairs, opts.lib, id);
    assert forall|j: int| 0 <= j < c.types_global_values.len() implies (
    #[trigger] c.types_global_values[j]).result_id != Some(id) by {
        if c.types_global_values != types {
            let n = globals::untied(types).len();
            if j < n {
                types.lemma_filter_pred(|i: InstView| i.result_id is None, j);
            } else {
                let w = order[j - n];
                assert(order.contains(w));
                assert(globals::involved(types).contains(w));
                defs::lemma_last_def(b.all_insts(), w);
                if w == id {
                    let v = choose|v: u32| globals::adjacent(types, w, v);
                    if globals::depends(types, w, v) {
                        let l = choose|l: int|
                            0 <= l < types.len() && (#[trigger] types[l]).result_id == Some(v)
                                && types[l].uses(w);
                    } else {
                        let l = choose|l: int|
                            0 <= l < types.len() && (#[trigger] types[l]).result_id == Some(w)
                                && types[l].uses(v);
                    }
                }
            }
        }
    }
    let keep_function = |f: FunctionView|
        !linkage::is_imported(pairs, linkage::function_id(f));
    assert(c.functions == a.functions.filter(keep_function));
    assert forall|j: int| 0 <= j < c.functions.len() implies linkage::function_id(
        #[trigger] c.functions[j],
    ) != id by {
        a.functions.lemma_filter_pred(keep_function, j);
    }
}

proof fn lemma_cleaned_no_use(a: ModuleView, pairs: Seq<PairView>, lib: bool, id: u32)
    requires
        a.every(|i: InstView| !i.uses(id)),
    ensures
        forall|j: int|
            0 <= j < link::cleaned(a, pairs, lib).types_global_values.len() ==> !(
            #[trigger] link::cleaned(a, pairs, lib).types_global_values[j]).uses(id),
{
    lemma_each_filter(
        a.types_global_values,
        |i: InstView| !linkage::defines_import(pairs, i),
        |i: InstView| !i.uses(id),
    );
}

proof fn lemma_map_every(
    m: ModuleView,
    f: spec_fn(InstView) -> InstView,
    p: spec_fn(InstView) -> bool,
)
    requires
        m.every(p),
        forall|i: InstView| p(i) ==> p(#[trigger] f(i)),
    ensures
        m.map_insts(f).every(p),
{
    let all = m.all_insts();
    model::lemma_every(m, p);
    model::lemma_map_insts(m, f);
    model::lemma_every(m.map_insts(f), p);
    assert forall|k: int| 0 <= k < all.len() implies p(#[trigger] all.map_values(f)[k]) by {
        assert(p(all[k]));
        assert(p(f(all[k])));
    }
}

/// What the opcode and the id of an instruction and whether it has a type decide, and
/// what holds of every instruction of a merged module, holds of every instruction of
/// the resolved one.
proof fn lemma_resolved_every(m: ModuleView, info: InfoView, p: spec_fn(InstView) -> bool)
    requires
        sections::well_placed(m),
        merging::defined_once(m.all_insts()),
        m.every(p),
        forall|i: InstView, j: InstView|
            #![trigger p(i), p(j)]
            p(i) && i.opcode == j.opcode && i.result_id == j.result_id && (i.result_type is Some
                <==> j.result_type is Some) ==> p(j),
    ensures
        link::resolved(m, info).every(p),
{
    let remap = dedup::import_remap(m.ext_inst_imports);
    let swaps = link::pair_ids(info.pairs);
    let apart = link::set_apart(m, info.pairs);
    let n = prepared(m);
    let merges = merging::merges_of(n, apart);
    let dropped = merging::dropped_ids(merges);
    let f1 = |i: InstView| rename::replaced_by(i, remap);
    let f2 = |i: InstView| merging::after_merges(i, merges);
    let f3 = |i: InstView| rename::replaced_by(i, swaps);
    lemma_prepared(m);
    merging::law_with_distinct_types(n, apart);
    let a = dedup::with_distinct_capabilities(m);
    let b = ModuleView {
        ext_inst_imports: dedup::keep_first(
            a.ext_inst_imports,
            |i: InstView| dedup::import_name(i),
        ),
        ..a
    };
    lemma_each_keep_first(m.capabilities, |i: InstView| dedup::capability_key(i), p);
    lemma_each_keep_first(m.ext_inst_imports, |i: InstView| dedup::import_name(i), p);
    assert(b.every(p));
    rename::lemma_replaced_pairs(b, remap);
    assert forall|i: InstView| p(i) implies p(#[trigger] f1(i)) by {
        rename::lemma_replaced_by(i, remap);
        lemma_replaced_type(i, remap);
    }
    lemma_map_every(b, f1, p);
    assert(n.every(p));
    assert forall|i: InstView| p(i) implies p(#[trigger] f2(i)) by {
        merging::lemma_after_merges(i, merges);
        lemma_merged_type(i, merges);
    }
    lemma_map_every(n, f2, p);
    let t = merging::merged_module(n, merges);
    let left = merging::kept(n.types_global_values, dropped);
    lemma_each_filter(
        n.types_global_values,
        |i: InstView| !merging::is_dropped(i, dropped),
        p,
    );
    assert forall|k: int| 0 <= k < t.types_global_values.len() implies p(
        #[trigger] t.types_global_values[k],
    ) by {
        assert(p(left[k]));
        assert(p(f2(left[k])));
    }
    assert(t.every(p));
    assert forall|i: InstView, id: u32| p(i) implies p(#[trigger] sweep::pruned(i, id)) by {}
    sweep::lemma_every_without(t, dropped, p);
    let d = types::with_merged_types(n, apart);
    let ids = linkage::imported_ids(info.imports);
    sweep::lemma_every_without(d, ids, p);
    let x = sweep::without_all_annotations(d, ids);
    rename::lemma_replaced_pairs(x, swaps);
    assert forall|i: InstView| p(i) implies p(#[trigger] f3(i)) by {
        rename::lemma_replaced_by(i, swaps);
        lemma_replaced_type(i, swaps);
    }
    lemma_map_every(x, f3, p);
}

/// A declaration of a merged module whose id is kept apart is still there once the
/// module is resolved.
proof fn lemma_resolved_global(m: ModuleView, info: InfoView, q: int)
    requires
        sections::well_placed(m),
        merging::defined_once(m.all_insts()),
        0 <= q < m.types_global_values.len(),
        m.types_global_values[q].result_id is Some,
        link::set_apart(m, info.pairs).contains(m.types_global_values[q].result_id->0),
    ensures
        link::resolved(m, info).types_global_values.contains(
            carried(m, info, m.types_global_values[q]),
        ),
{
    let i = m.types_global_values[q];
    let remap = dedup::import_remap(m.ext_inst_imports);
    let swaps = link::pair_ids(info.pairs);
    let apart = link::set_apart(m, info.pairs);
    let n = prepared(m);
    let merges = merging::merges_of(n, apart);
    let dropped = merging::dropped_ids(merges);
    let f1 = |i: InstView| rename::replaced_by(i, remap);
    let f2 = |i: InstView| merging::after_merges(i, merges);
    lemma_prepared(m);
    merging::law_with_distinct_types(n, apart);
    let a = dedup::with_distinct_capabilities(m);
    let b = ModuleView {
        ext_inst_imports: dedup::keep_first(
            a.ext_inst_imports,
            |i: InstView| dedup::import_name(i),
        ),
        ..a
    };
    rename::lemma_replaced_pairs(b, remap);
    rename::lemma_replaced_by(i, remap);
    let j = f1(i);
    assert(n.types_global_values[q] == j);
    assert(!merging::is_dropped(j, dropped));
    let keep = |i: InstView| !merging::is_dropped(i, dropped);
    n.types_global_values.lemma_filter_contains(keep, q);
    let left = merging::kept(n.types_global_values, dropped);
    let k = choose|k: int| 0 <= k < left.len() && left[k] == j;
    let t = merging::merged_module(n, merges);
    assert(t.types_global_values[k] == f2(j));
    let d = types::with_merged_types(n, apart);
    sweep::lemma_without_all_annotations(t, dropped);
    let x = sweep::without_all_annotations(d, linkage::imported_ids(info.imports));
    sweep::lemma_without_all_annotations(d, linkage::imported_ids(info.imports));
    rename::lemma_replaced_pairs(x, swaps);
    assert(link::resolved(m, info).types_global_values[k] == carried(m, info, i));
}

/// Whether a module declares a variable under `id`.
pub open spec fn declares_variable(m: ModuleView, id: u32) -> bool {
    exists|q: int|
        {
            &&& 0 <= q < m.types_global_values.len()
            &&& (#[trigger] m.types_global_values[q]).result_id == Some(id)
            &&& m.types_global_values[q].opcode == opcode::VARIABLE
            &&& m.types_global_values[q].result_type is Some
        }
}

/// Replacing ids leaves an instruction a type if it has one.
proof fn lemma_carried_type(m: ModuleView, info: InfoView, i: InstView)
    ensures
        carried(m, info, i).result_type is Some <==> i.result_type is Some,
{
    let remap = dedup::import_remap(m.ext_inst_imports);
    let merges = merging::merges_of(prepared(m), link::set_apart(m, info.pairs));
    let a = rename::replaced_by(i, remap);
    lemma_replaced_type(i, remap);
    lemma_merged_type(a, merges);
    lemma_replaced_type(merging::after_merges(a, merges), link::pair_ids(info.pairs));
}

proof fn lemma_replaced_type(i: InstView, pairs: Seq<(u32, u32)>)
    ensures
        rename::replaced_by(i, pairs).result_type is Some <==> i.result_type is Some,
    decreases pairs.len(),
{
    if pairs.len() > 0 {
        lemma_replaced_type(i, pairs.drop_last());
    }
}

proof fn lemma_merged_type(i: InstView, merges: Seq<(u32, u32)>)
    ensures
        merging::after_merges(i, merges).result_type is Some <==> i.result_type is Some,
    decreases merges.len(),
{
    if merges.len() > 0 {
        lemma_merged_type(i, merges.drop_last());
    }
}

/// A global variable that is exported to an import, or that is an import without an
/// export, is in the linked module, under the number of its id. It is not merged
/// with a variable that is declared in the same words.
pub proof fn law_variables_stay(inputs: Seq<ModuleView>, opts: Options, id: u32)
    requires
        links(inputs, opts),
        forall|k: int| 0 <= k < inputs.len() ==> joining::is_valid(#[trigger] inputs[k]),
        declares_variable(link::merged(inputs), id),
        link::set_apart(link::merged(inputs), info_of_merged(inputs, opts).pairs).contains(id),
        !linkage::is_imported(info_of_merged(inputs, opts).pairs, id),
    ensures
        declares_variable(before_numbering(inputs, opts), id),
        declares_variable(
            result(inputs, opts),
            rename::number_in(rename::ids_in_order(before_numbering(inputs, opts)), id),
        ),
{
    let m = link::merged(inputs);
    let info = info_of_merged(inputs, opts);
    let pairs = info.pairs;
    let a = link::resolved(m, info);
    let b = link::cleaned(a, pairs, opts.lib);
    let c = before_numbering(inputs, opts);
    let r = result(inputs, opts);
    lemma_links(inputs, opts);
    joining::law_merged_is_valid(inputs);
    let q = choose|q: int|
        {
            &&& 0 <= q < m.types_global_values.len()
            &&& (#[trigger] m.types_global_values[q]).result_id == Some(id)
            &&& m.types_global_values[q].opcode == opcode::VARIABLE
            &&& m.types_global_values[q].result_type is Some
        };
    let i = m.types_global_values[q];
    let p = |i: InstView|
        i.result_id == Some(id) ==> i.opcode == opcode::VARIABLE && i.result_type is Some;
    assert(m.every(p)) by {
        let all = m.all_insts();
        let head = merging::headed(m).all_insts().len();
        merging::lemma_split(m);
        assert(all[head + q] == i);
        assert forall|k: int| 0 <= k < all.len() implies p(#[trigger] all[k]) by {
            if all[k].result_id == Some(id) && k != head + q {
                if k < head + q {
                    assert(all[k].result_id != all[head + q].result_id);
                } else {
                    assert(all[head + q].result_id != all[k].result_id);
                }
            }
        }
        model::lemma_every(m, p);
    }
    lemma_resolved_every(m, info, p);
    assert forall|i: InstView| p(i) implies p(#[trigger] dedup::with_distinct_interface(i)) by {}
    lemma_cleaned_every(a, pairs, opts.lib, p);
    lemma_resolved_global(m, info, q);
    lemma_carried(m, info, i);
    lemma_carried_type(m, info, i);
    let w = carried(m, info, i);
    let keep = |i: InstView| !linkage::defines_import(pairs, i);
    let at = choose|at: int| 0 <= at < a.types_global_values.len() && a.types_global_values[at] == w;
    a.types_global_values.lemma_filter_contains(keep, at);
    let types = b.types_global_values;
    assert(types.contains(w));
    let j = choose|j: int| 0 <= j < types.len() && types[j] == w;
    let left = globals::involved(types);
    let order = globals::rounds(types, left);
    globals::lemma_involved_finite(types);
    globals::lemma_rounds_within(types, left);
    let ty = w.result_type->0;
    assert(types[j].uses(ty));
    assert(globals::depends(types, ty, id));
    assert(globals::adjacent(types, id, ty));
    assert(left.contains(id));
    assert(order.contains(id));
    let k = choose|k: int| 0 <= k < order.len() && order[k] == id;
    let out = globals::arranged(b);
    let n = globals::untied(types).len();
    let found = defs::definitions(b)[id];
    assert(out[n + k] == found);
    let l = if c.types_global_values == types {
        j
    } else {
        n + k
    };
    assert(c.types_global_values[l].result_id == Some(id)) by {
        defs::lemma_last_def(b.all_insts(), id);
    }
    model::lemma_every(b, p);
    assert(p(c.types_global_values[l]));
    assert(declares_variable(c, id));
    assert(r.types_global_values[l] == numbered(c, c.types_global_values[l]));
    lemma_numbered(c, c.types_global_values[l]);
}

proof fn lemma_replaced_keeps(i: InstView, pairs: Seq<(u32, u32)>, id: u32)
    requires
        i.uses(id),
        forall|k: int| 0 <= k < pairs.len() ==> (#[trigger] pairs[k]).0 != id,
    ensures
        rename::replaced_by(i, pairs).uses(id),
    decreases pairs.len(),
{
    if pairs.len() > 0 {
        let rest = pairs.drop_last();
        let last = pairs.last();
        assert forall|k: int| 0 <= k < rest.len() implies (#[trigger] rest[k]).0 != id by {
            assert(rest[k] == pairs[k]);
        }
        assert(pairs[pairs.len() - 1].0 != id);
        lemma_replaced_keeps(i, rest, id);
        rename::lemma_replaced_uses(rename::replaced_by(i, rest), last.0, last.1, id);
    }
}

proof fn lemma_merged_keeps(i: InstView, merges: Seq<(u32, u32)>, id: u32)
    requires
        i.uses(id),
        !merging::dropped_ids(merges).contains(id),
    ensures
        merging::after_merges(i, merges).uses(id),
    decreases merges.len(),
{
    if merges.len() > 0 {
        let rest = merges.drop_last();
        let last = merges.last();
        if merging::dropped_ids(rest).contains(id) {
            let k = choose|k: int| 0 <= k < rest.len() && merging::dropped_ids(rest)[k] == id;
            assert(merging::dropped_ids(merges)[k] == id);
        }
        assert(merging::dropped_ids(merges)[merges.len() - 1] == last.0);
        lemma_merged_keeps(i, rest, id);
        rename::lemma_replaced_uses(merging::after_merges(i, rest), last.0, last.1, id);
    }
}

/// A use of the first id of a pair becomes a use of the second.
proof fn lemma_rematched(i: InstView, pairs: Seq<(u32, u32)>, k: int) -> (q: int)
    requires
        0 <= k < pairs.len(),
        i.uses(pairs[k].0),
        forall|i: int, j: int|
            #![trigger pairs[i], pairs[j]]
            0 <= i < pairs.len() && 0 <= j < pairs.len() ==> pairs[i].0 != pairs[j].1,
    ensures
        0 <= q < pairs.len(),
        pairs[q].0 == pairs[k].0,
        rename::replaced_by(i, pairs).uses(pairs[q].1),
    decreases pairs.len(),
{
    let rest = pairs.drop_last();
    let last = pairs.last();
    let n = pairs.len() - 1;
    let id = pairs[k].0;
    let prev = rename::replaced_by(i, rest);
    assert(pairs[n] == last);
    if exists|j: int| 0 <= j < rest.len() && (#[trigger] rest[j]).0 == id {
        let j = choose|j: int| 0 <= j < rest.len() && (#[trigger] rest[j]).0 == id;
        assert forall|i: int, j: int|
            #![trigger rest[i], rest[j]]
            0 <= i < rest.len() && 0 <= j < rest.len() implies rest[i].0 != rest[j].1 by {
            assert(pairs[i] == rest[i] && pairs[j] == rest[j]);
        }
        let q = lemma_rematched(i, rest, j);
        assert(rest[q] == pairs[q]);
        assert(pairs[n].0 != pairs[q].1);
        rename::lemma_replaced_uses(prev, last.0, last.1, pairs[q].1);
        q
    } else {
        if k < n {
            assert(rest[k].0 == id);
        }
        lemma_replaced_keeps(i, rest, id);
        rename::lemma_replaced_uses(prev, last.0, last.1, last.1);
        n
    }
}

/// A use of an import becomes a use of the export that stands in for it, provided
/// that no import is also an export.
pub proof fn law_uses_are_rematched(inputs: Seq<ModuleView>, opts: Options, i: InstView, k: int)
    requires
        links(inputs, opts),
        forall|k: int| 0 <= k < inputs.len() ==> joining::is_valid(#[trigger] inputs[k]),
        0 <= k < info_of_merged(inputs, opts).pairs.len(),
        i.uses(info_of_merged(inputs, opts).pairs[k].import.id),
        forall|i: int, j: int|
            #![trigger info_of_merged(inputs, opts).pairs[i], info_of_merged(inputs, opts).pairs[j]]
            0 <= i < info_of_merged(inputs, opts).pairs.len() && 0 <= j < info_of_merged(
                inputs,
                opts,
            ).pairs.len() ==> info_of_merged(inputs, opts).pairs[i].import.id != info_of_merged(
                inputs,
                opts,
            ).pairs[j].export.id,
    ensures
        exists|q: int|
            {
                &&& 0 <= q < info_of_merged(inputs, opts).pairs.len()
                &&& (#[trigger] info_of_merged(inputs, opts).pairs[q]).import.id == info_of_merged(
                    inputs,
                    opts,
                ).pairs[k].import.id
                &&& carried(link::merged(inputs), info_of_merged(inputs, opts), i).uses(
                    info_of_merged(inputs, opts).pairs[q].export.id,
                )
            },
{
    let m = link::merged(inputs);
    let ds = defs::definitions(m);
    let info = info_of_merged(inputs, opts);
    let pairs = info.pairs;
    let swaps = link::pair_ids(pairs);
    let id = pairs[k].import.id;
    let remap = dedup::import_remap(m.ext_inst_imports);
    let apart = link::set_apart(m, pairs);
    let merges = merging::merges_of(prepared(m), apart);
    lemma_links(inputs, opts);
    joining::law_merged_is_valid(inputs);
    lemma_prepared(m);
    merging::law_with_distinct_types(prepared(m), apart);
    lemma_pair_import(inputs, opts, k);
    let v = lemma_pair_decoration(inputs, opts, k);
    assert forall|l: int| 0 <= l < remap.len() implies (#[trigger] remap[l]).0 != id by {
        lemma_remap(m.ext_inst_imports, l);
        let q = choose|q: int|
            0 <= q < m.ext_inst_imports.len() && (#[trigger] m.ext_inst_imports[q]).result_id
                == Some(remap[l].0);
        lemma_symbol_is_no_set(m, v, q);
    }
    lemma_replaced_keeps(i, remap, id);
    let a = rename::replaced_by(i, remap);
    lemma_merged_keeps(a, merges, id);
    let b = merging::after_merges(a, merges);
    assert forall|i: int, j: int|
        #![trigger swaps[i], swaps[j]]
        0 <= i < swaps.len() && 0 <= j < swaps.len() implies swaps[i].0 != swaps[j].1 by {
        assert(pairs[i].import.id != pairs[j].export.id);
    }
    assert(swaps[k].0 == id);
    let q = lemma_rematched(b, swaps, k);
    assert(pairs[q].import.id == id);
}

/// The import of a pair is one of the imports of the merged module.
pub proof fn lemma_pair_import(inputs: Seq<ModuleView>, opts: Options, k: int)
    requires
        links(inputs, opts),
        0 <= k < info_of_merged(inputs, opts).pairs.len(),
    ensures
        symbols::imports_of(
            link::merged(inputs),
            defs::definitions(link::merged(inputs)),
        ).contains(info_of_merged(inputs, opts).pairs[k].import),
        link::set_apart(link::merged(inputs), info_of_merged(inputs, opts).pairs).contains(
            info_of_merged(inputs, opts).pairs[k].import.id,
        ),
{
    let m = link::merged(inputs);
    let ds = defs::definitions(m);
    let info = info_of_merged(inputs, opts);
    let all = symbols::imports_of(m, ds);
    lemma_links(inputs, opts);
    symbols::law_pairs(info.imports, info.exports);
    let import = info.pairs[k].import;
    assert(import == info.imports[k]);
    if opts.partial {
        assert(info.imports.contains(import));
        all.lemma_filter_contains_rev(
            |s: SymbolView| symbols::is_offered(s, info.exports),
            import,
        );
    }
    let j = choose|j: int| 0 <= j < all.len() && all[j] == import;
    let apart = link::set_apart(m, info.pairs);
    assert(link::symbol_ids(all)[j] == import.id);
    assert(apart[j] == import.id);
}

/// The decoration that declares the import of a pair.
pub proof fn lemma_pair_decoration(inputs: Seq<ModuleView>, opts: Options, k: int) -> (v: InstView)
    requires
        links(inputs, opts),
        0 <= k < info_of_merged(inputs, opts).pairs.len(),
    ensures
        symbols::symbol_of(
            link::merged(inputs),
            defs::definitions(link::merged(inputs)),
            v,
        ) == Some(info_of_merged(inputs, opts).pairs[k].import),
{
    let m = link::merged(inputs);
    let ds = defs::definitions(m);
    lemma_links(inputs, opts);
    lemma_pair_import(inputs, opts, k);
    lemma_import_decoration(m, ds, m.annotations, info_of_merged(inputs, opts).pairs[k].import)
}

proof fn lemma_import_decoration(
    m: ModuleView,
    defs: Map<u32, InstView>,
    annotations: Seq<InstView>,
    import: SymbolView,
) -> (v: InstView)
    requires
        symbols::symbols_of(m, defs, annotations) is Some,
        (symbols::symbols_of(m, defs, annotations)->0).0.contains(import),
    ensures
        symbols::symbol_of(m, defs, v) == Some(import),
    decreases annotations.len(),
{
    if annotations.len() == 0 {
        annotations[0]
    } else {
        let rest = annotations.drop_last();
        let v = annotations.last();
        let before = (symbols::symbols_of(m, defs, rest)->0).0;
        if symbols::is_linkage(v) && symbols::symbol_of(m, defs, v) == Some(import) {
            v
        } else {
            let imports = (symbols::symbols_of(m, defs, annotations)->0).0;
            let k = choose|k: int| 0 <= k < imports.len() && imports[k] == import;
            assert(before[k] == import);
            lemma_import_decoration(m, defs, rest, import)
        }
    }
}

/// With partial linking, the decoration of an import that no export has the name of
/// stays: it marks the same symbol as an import under the same name. This is so
/// provided that the symbol is not imported or exported under another name as well,
/// and is no parameter of an import.
pub proof fn law_unresolved_imports_stay(inputs: Seq<ModuleView>, opts: Options, v: InstView)
    requires
        links(inputs, opts),
        opts.partial,
        forall|k: int| 0 <= k < inputs.len() ==> joining::is_valid(#[trigger] inputs[k]),
        link::merged(inputs).annotations.contains(v),
        symbols::is_linkage(v),
        symbols::marks_import(v),
        !linkage::imported_ids(info_of_merged(inputs, opts).imports).contains(
            v.operands[0]->IdRef_0,
        ),
        !linkage::is_paired(info_of_merged(inputs, opts).pairs, v.operands[0]->IdRef_0),
    ensures
        exists|k: int|
            {
                &&& 0 <= k < result(inputs, opts).annotations.len()
                &&& symbols::is_linkage(#[trigger] result(inputs, opts).annotations[k])
                &&& symbols::marks_import(result(inputs, opts).annotations[k])
                &&& result(inputs, opts).annotations[k].operands[0] == OperandView::IdRef(
                    rename::number_in(
                        rename::ids_in_order(before_numbering(inputs, opts)),
                        v.operands[0]->IdRef_0,
                    ),
                )
                &&& result(inputs, opts).annotations[k].operands[2] == v.operands[2]
            },
{
    let m = link::merged(inputs);
    let ds = defs::definitions(m);
    let info = info_of_merged(inputs, opts);
    let pairs = info.pairs;
    let swaps = link::pair_ids(pairs);
    let id = v.operands[0]->IdRef_0;
    let remap = dedup::import_remap(m.ext_inst_imports);
    let apart = link::set_apart(m, pairs);
    let p = prepared(m);
    let merges = merging::merges_of(p, apart);
    let dropped = merging::dropped_ids(merges);
    let ids = linkage::imported_ids(info.imports);
    lemma_links(inputs, opts);
    joining::law_merged_is_valid(inputs);
    lemma_prepared(m);
    merging::law_with_distinct_types(p, apart);
    lemma_imports_found(m, ds, m.annotations, v);
    let all = symbols::imports_of(m, ds);
    let at = choose|at: int|
        0 <= at < all.len() && symbols::symbol_of(m, ds, v) == Some(#[trigger] all[at]);
    assert(v.operands[0] == OperandView::IdRef(id));
    assert(link::symbol_ids(all)[at] == id);
    assert(apart[at] == id);
    assert(apart.contains(id));
    assert forall|l: int| 0 <= l < remap.len() implies (#[trigger] remap[l]).0 != id by {
        lemma_remap(m.ext_inst_imports, l);
        let q = choose|q: int|
            0 <= q < m.ext_inst_imports.len() && (#[trigger] m.ext_inst_imports[q]).result_id
                == Some(remap[l].0);
        lemma_symbol_is_no_set(m, v, q);
    }
    let u = rename::replaced_by(v, remap);
    let z = merging::after_merges(u, merges);
    let y = rename::replaced_by(z, swaps);
    lemma_replaced_other(v, remap, id);
    lemma_merged_other(u, merges, id);
    assert forall|k: int| 0 <= k < swaps.len() implies (#[trigger] swaps[k]).0 != id by {
        assert(pairs[k].import.id != id);
    }
    lemma_replaced_other(z, swaps, id);
    lemma_carried(m, info, v);
    lemma_same_linkage(y, v);
    rename::lemma_replaced_by(v, remap);
    merging::lemma_after_merges(u, merges);
    let a = dedup::with_distinct_capabilities(m);
    let b = ModuleView {
        ext_inst_imports: dedup::keep_first(
            a.ext_inst_imports,
            |i: InstView| dedup::import_name(i),
        ),
        ..a
    };
    rename::lemma_replaced_pairs(b, remap);
    let j = choose|j: int| 0 <= j < m.annotations.len() && m.annotations[j] == v;
    assert(p.annotations[j] == u);
    let t = merging::merged_module(p, merges);
    assert(t.annotations[j] == z);
    assert(t.annotations.contains(z));
    assert forall|w: u32| #[trigger] dropped.contains(w) implies !sweep::about(z, w) by {}
    sweep::lemma_annotation_kept(t, dropped, z);
    let d = types::with_merged_types(p, apart);
    assert forall|w: u32| #[trigger] ids.contains(w) implies !sweep::about(z, w) by {}
    sweep::lemma_annotation_kept(d, ids, z);
    let x = sweep::without_all_annotations(d, ids);
    rename::lemma_replaced_pairs(x, swaps);
    let n = link::resolved(m, info);
    let l = choose|l: int| 0 <= l < x.annotations.len() && x.annotations[l] == z;
    assert(n.annotations[l] == y);
    assert(n.annotations.contains(y));
    lemma_cleaned_keeps(n, pairs, opts.lib, y);
    let c = before_numbering(inputs, opts);
    let r = result(inputs, opts);
    let k = choose|k: int| 0 <= k < c.annotations.len() && c.annotations[k] == y;
    assert(r.annotations[k] == numbered(c, y));
    lemma_numbered(c, y);
    lemma_same_linkage(r.annotations[k], y);
    assert(y.operands[2] == v.operands[2]);
}

/// An annotation that neither marks a paired symbol nor an export stays when a module
/// is cleaned.
proof fn lemma_cleaned_keeps(a: ModuleView, pairs: Seq<PairView>, lib: bool, i: InstView)
    requires
        a.annotations.contains(i),
        !linkage::links_pair(pairs, i),
        !linkage::links_export(i),
    ensures
        link::cleaned(a, pairs, lib).annotations.contains(i),
{
    let dead = |i: InstView| linkage::links_pair(pairs, i);
    let rest = sweep::swept(a.annotations, dead);
    sweep::law_swept(a.annotations, dead, i);
    if !lib {
        sweep::law_swept(rest, |i: InstView| linkage::links_export(i), i);
    }
    let u = linkage::unlinked_annotations(a.annotations, pairs, lib);
    let key = |i: InstView| Some(i);
    let kept = dedup::keep_first(u, key);
    dedup::law_keep_first(u, key);
    let k = choose|k: int| 0 <= k < u.len() && u[k] == i;
    assert(key(u[k]) == Some(i));
    assert(dedup::has_key(u, key, i));
    assert(dedup::has_key(kept, key, i));
    let j = choose|j: int| 0 <= j < kept.len() && key(#[trigger] kept[j]) == Some(i);
    assert(kept[j] == i);
}

/// Linkable modules are linked exactly where each import that takes part has one
/// export and the types of the two match. Otherwise the error says what is wrong.
/// With partial linking, an import without an export takes no part, and so is no
/// error.
pub proof fn law_link_errors(inputs: Seq<ModuleView>, opts: Options)
    requires
        link::linkable(inputs, opts),
    ensures
        ({
            let m = link::merged(inputs);
            let ds = defs::definitions(m);
            let exports = symbols::exports_of(m, ds);
            let imports = symbols::taken(symbols::imports_of(m, ds), exports, opts.partial);
            let pairs = symbols::pairs_of(imports, exports);
            &&& symbols::symbols_readable(m, ds)
            &&& link::linked(inputs, opts) is Ok <==> {
                &&& forall|k: int|
                    0 <= k < imports.len() ==> symbols::is_resolved(#[trigger] imports[k], exports)
                &&& forall|k: int|
                    0 <= k < pairs->Ok_0.len() ==> symbols::checked_pair(
                        ds,
                        #[trigger] pairs->Ok_0[k],
                    ) == Some(Ok::<(), ErrorView>(()))
            }
            &&& pairs matches Err(e) ==> link::linked(inputs, opts) == Err::<
                ModuleView,
                ErrorView,
            >(e)
            &&& link::linked(inputs, opts) matches Err(e) ==> !(e is Unknown)
            &&& opts.partial ==> !(link::linked(inputs, opts) matches Err(e)
                && e is UnresolvedSymbol)
        }),
{
    let m = link::merged(inputs);
    let ds = defs::definitions(m);
    let exports = symbols::exports_of(m, ds);
    let imports = symbols::taken(symbols::imports_of(m, ds), exports, opts.partial);
    symbols::law_pairs(imports, exports);
    symbols::law_partial_pairs(symbols::imports_of(m, ds), exports);
    if symbols::pairs_of(imports, exports) is Ok {
        let pairs = symbols::pairs_of(imports, exports)->Ok_0;
        symbols::law_checked_pairs(ds, pairs);
        symbols::lemma_mismatch(ds, pairs);
    }
}

/// The binary of a linked module begins with its header.
pub proof fn law_binary_header(inputs: Seq<ModuleView>, opts: Options)
    requires
        links(inputs, opts),
    ensures
        ({
            let words = bridge::module_words(result(inputs, opts));
            let h = result(inputs, opts).header->0;
            &&& words.len() >= bridge::HEADER_WORDS
            &&& words.take(bridge::HEADER_WORDS as int) == seq![
                h.magic_number,
                h.version,
                h.generator,
                h.bound,
                h.reserved_word,
            ]
            &&& h == bridge::own_header(h.bound)
        }),
{
    lemma_links(inputs, opts);
    let r = result(inputs, opts);
    let h = r.header->0;
    let words = bridge::module_words(r);
    assert(words.take(bridge::HEADER_WORDS as int) =~= seq![
        h.magic_number,
        h.version,
        h.generator,
        h.bound,
        h.reserved_word,
    ]);
}

pub proof fn lemma_entry_point_occurs(m: ModuleView, k: int, id: u32)
    requires
        0 <= k < m.entry_points.len(),
        m.entry_points[k].operand_uses(id),
    ensures
        rename::occurs(m, id),
{
    let p = |i: InstView| !i.mentions(id);
    model::lemma_every(m, p);
    if !rename::occurs(m, id) {
        assert(model::each(m.all_insts(), p));
        assert(p(m.entry_points[k]));
    }
}

/// No entry point of a linked module names an interface variable twice.
pub proof fn law_interfaces_are_distinct(
    inputs: Seq<ModuleView>,
    opts: Options,
    k: int,
    i: int,
    j: int,
)
    requires
        links(inputs, opts),
        0 <= k < result(inputs, opts).entry_points.len(),
        result(inputs, opts).entry_points[k].opcode == opcode::ENTRY_POINT,
        dedup::INTERFACE_START <= i < j < result(inputs, opts).entry_points[k].operands.len(),
        result(inputs, opts).entry_points[k].operands[i] is IdRef,
    ensures
        result(inputs, opts).entry_points[k].operands[i] != result(
            inputs,
            opts,
        ).entry_points[k].operands[j],
{
    let info = info_of_merged(inputs, opts);
    let c = before_numbering(inputs, opts);
    let r = result(inputs, opts);
    let n = dedup::INTERFACE_START as int;
    lemma_links(inputs, opts);
    let a = link::resolved(link::merged(inputs), info);
    let y = a.entry_points[k];
    let z = c.entry_points[k];
    assert(z == dedup::with_distinct_interface(y));
    assert(r.entry_points[k] == numbered(c, z));
    lemma_numbered(c, z);
    let rest = y.operands.skip(n);
    let key = |o: OperandView| dedup::interface_key(o);
    let kept = dedup::keep_first(rest, key);
    dedup::law_keep_first(rest, key);
    assert(y.operands.len() > n) by {
        if y.operands.len() <= n {
            assert(z == y);
        }
    }
    assert(z.operands =~= y.operands.take(n) + kept);
    let o = z.operands[i];
    let q = z.operands[j];
    assert(o == kept[i - n] && q == kept[j - n]);
    assert(key(kept[i - n]) != key(kept[j - n]));
    if q is IdRef {
        let w = o->IdRef_0;
        let v = q->IdRef_0;
        assert(o.id() == Some(w) && q.id() == Some(v));
        assert(z.operand_uses(w) && z.operand_uses(v));
        lemma_entry_point_occurs(c, k, w);
        lemma_entry_point_occurs(c, k, v);
        rename::law_compacted(c, w, v);
    }
}

} // verus!
