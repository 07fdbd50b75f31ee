//! Where the instructions of a module stand.
//!
//! A loader sorts instructions into sections, functions and blocks. What it builds
//! is well placed, and a well-placed module is what a loader makes of the module's
//! own instructions.

use vstd::prelude::*;

use crate::bridge;
use crate::bridge::LoaderView;
use crate::convert;
use crate::model;
use crate::model::{BlockView, FunctionView, InstView, ModuleView};
use crate::opcode;
use crate::sweep;

verus! {

/// Whether an instruction may stand among the declarations of a module.
pub open spec fn is_global(op: u32) -> bool {
    ||| opcode::is_location(op)
    ||| opcode::is_type(op)
    ||| opcode::is_constant(op)
    ||| op == opcode::VARIABLE
    ||| op == opcode::UNDEF
}

/// Whether an instruction belongs to a section wherever a loader meets it.
pub open spec fn is_sectional(op: u32) -> bool {
    ||| op == opcode::CAPABILITY
    ||| op == opcode::EXTENSION
    ||| op == opcode::EXT_INST_IMPORT
    ||| op == opcode::MEMORY_MODEL
    ||| op == opcode::ENTRY_POINT
    ||| op == opcode::EXECUTION_MODE
    ||| opcode::is_string_source(op)
    ||| opcode::is_name(op)
    ||| op == opcode::MODULE_PROCESSED
    ||| opcode::is_annotation(op)
    ||| opcode::is_type(op)
    ||| opcode::is_constant(op)
}

/// Whether an instruction opens or closes a function or a block, or is a parameter.
pub open spec fn is_structural(op: u32) -> bool {
    ||| op == opcode::FUNCTION
    ||| op == opcode::FUNCTION_END
    ||| op == opcode::FUNCTION_PARAMETER
    ||| op == opcode::LABEL
    ||| opcode::is_terminator(op)
}

/// Whether an instruction may stand inside a block.
pub open spec fn is_inner(op: u32) -> bool {
    !is_sectional(op) && !is_structural(op)
}

/// Whether a block is as a loader leaves it while the block is open.
pub open spec fn is_open_block(b: BlockView) -> bool {
    &&& b.label matches Some(l) && l.opcode == opcode::LABEL
    &&& model::each(b.instructions, |i: InstView| is_inner(i.opcode))
}

/// Whether a block ends with the one instruction that closes it.
pub open spec fn is_closed_block(b: BlockView) -> bool {
    &&& b.instructions.len() > 0
    &&& opcode::is_terminator(b.instructions.last().opcode)
    &&& is_open_block(BlockView { instructions: b.instructions.drop_last(), ..b })
}

/// Whether a function is as a loader leaves it while the function is open.
pub open spec fn is_open_function(f: FunctionView) -> bool {
    &&& f.def matches Some(d) && d.opcode == opcode::FUNCTION
    &&& f.end is None
    &&& model::each(f.parameters, |i: InstView| i.opcode == opcode::FUNCTION_PARAMETER)
    &&& model::each(f.blocks, |b: BlockView| is_closed_block(b))
}

/// Whether a function has an end, and all that comes before it in place.
pub open spec fn is_closed_function(f: FunctionView) -> bool {
    &&& f.end matches Some(e) && e.opcode == opcode::FUNCTION_END
    &&& is_open_function(FunctionView { end: None, ..f })
}

/// Whether every instruction of a module stands where it belongs.
pub open spec fn well_placed(m: ModuleView) -> bool {
    &&& model::each(m.capabilities, |i: InstView| i.opcode == opcode::CAPABILITY)
    &&& model::each(m.extensions, |i: InstView| i.opcode == opcode::EXTENSION)
    &&& model::each(m.ext_inst_imports, |i: InstView| i.opcode == opcode::EXT_INST_IMPORT)
    &&& m.memory_model matches Some(i) ==> i.opcode == opcode::MEMORY_MODEL
    &&& model::each(m.entry_points, |i: InstView| i.opcode == opcode::ENTRY_POINT)
    &&& model::each(m.execution_modes, |i: InstView| i.opcode == opcode::EXECUTION_MODE)
    &&& model::each(m.debug_string_source, |i: InstView| opcode::is_string_source(i.opcode))
    &&& model::each(m.debug_names, |i: InstView| opcode::is_name(i.opcode))
    &&& model::each(m.debug_module_processed, |i: InstView| i.opcode == opcode::MODULE_PROCESSED)
    &&& model::each(m.annotations, |i: InstView| opcode::is_annotation(i.opcode))
    &&& model::each(m.types_global_values, |i: InstView| is_global(i.opcode))
    &&& model::each(m.functions, |f: FunctionView| is_closed_function(f))
}

/// Whether what a loader holds is well placed.
pub open spec fn is_tidy(s: LoaderView) -> bool {
    &&& well_placed(s.module)
    &&& s.function matches Some(f) ==> is_open_function(f)
    &&& s.block matches Some(b) ==> s.function is Some && is_open_block(b)
}

proof fn lemma_each_push<A>(s: Seq<A>, x: A, p: spec_fn(A) -> bool)
    requires
        model::each(s, p),
        p(x),
    ensures
        model::each(s.push(x), p),
{
}

proof fn lemma_tidy_in_function(s: LoaderView, i: InstView)
    requires
        is_tidy(s),
        !is_sectional(i.opcode),
    ensures
        is_tidy(s.in_function(i)),
{
    let t = s.in_function(i);
    let op = i.opcode;
    if op == opcode::FUNCTION_END && t.module.functions != s.module.functions {
        lemma_each_push(
            s.module.functions,
            t.module.functions.last(),
            |f: FunctionView| is_closed_function(f),
        );
    } else if opcode::is_terminator(op) && s.block is Some {
        let b = s.continuing(i).block->0;
        assert(b.instructions.drop_last() =~= (s.block->0).instructions);
        lemma_each_push((s.function->0).blocks, b, |b: BlockView| is_closed_block(b));
    }
}

/// A loader that is tidy stays so.
pub proof fn lemma_tidy(s: LoaderView, i: InstView)
    requires
        is_tidy(s),
    ensures
        is_tidy(bridge::consumed(s, i)),
{
    if !is_sectional(i.opcode) {
        lemma_tidy_in_function(s, i);
    }
}

proof fn lemma_loader_tidy(insts: Seq<InstView>)
    ensures
        is_tidy(bridge::loader_after(insts)),
    decreases insts.len(),
{
    if insts.len() > 0 {
        lemma_loader_tidy(insts.drop_last());
        lemma_tidy(bridge::loader_after(insts.drop_last()), insts.last());
    }
}

/// Whatever the instructions, the module that they make up is well placed.
pub proof fn law_loaded_is_well_placed(insts: Seq<InstView>)
    ensures
        well_placed(convert::loaded(insts)),
        convert::loaded(insts).header is None,
    decreases insts.len(),
{
    lemma_loader_tidy(insts);
    if insts.len() > 0 {
        law_loaded_is_well_placed(insts.drop_last());
    }
}

/// What a loader holds after more instructions.
pub open spec fn fed(s: LoaderView, insts: Seq<InstView>) -> LoaderView
    decreases insts.len(),
{
    if insts.len() == 0 {
        s
    } else {
        bridge::consumed(fed(s, insts.drop_last()), insts.last())
    }
}

pub proof fn lemma_fed_from_empty(insts: Seq<InstView>)
    ensures
        bridge::loader_after(insts) == fed(bridge::empty_loader(), insts),
    decreases insts.len(),
{
    if insts.len() > 0 {
        lemma_fed_from_empty(insts.drop_last());
    }
}

pub proof fn lemma_fed_add(s: LoaderView, a: Seq<InstView>, b: Seq<InstView>)
    ensures
        fed(s, a + b) == fed(fed(s, a), b),
    decreases b.len(),
{
    if b.len() == 0 {
        assert(a + b =~= a);
    } else {
        assert((a + b).drop_last() =~= a + b.drop_last());
        lemma_fed_add(s, a, b.drop_last());
    }
}

proof fn lemma_fed_one(s: LoaderView, i: InstView)
    ensures
        fed(s, seq![i]) == bridge::consumed(s, i),
{
    assert(seq![i].drop_last() =~= Seq::empty());
    assert(fed(s, seq![i].drop_last()) == s);
}

/// Whether a loader is outside of functions.
pub open spec fn is_idle(s: LoaderView) -> bool {
    s.function is None && s.block is None
}

/// Whether an instruction belongs to the section with the given number.
spec fn belongs(k: int, op: u32) -> bool {
    if k == 0 {
        op == opcode::CAPABILITY
    } else if k == 1 {
        op == opcode::EXTENSION
    } else if k == 2 {
        op == opcode::EXT_INST_IMPORT
    } else if k == 3 {
        op == opcode::ENTRY_POINT
    } else if k == 4 {
        op == opcode::EXECUTION_MODE
    } else if k == 5 {
        opcode::is_string_source(op)
    } else if k == 6 {
        opcode::is_name(op)
    } else if k == 7 {
        op == opcode::MODULE_PROCESSED
    } else if k == 8 {
        opcode::is_annotation(op)
    } else {
        is_global(op)
    }
}

/// The module with more instructions in the section with the given number.
spec fn extended(m: ModuleView, k: int, more: Seq<InstView>) -> ModuleView {
    if k == 0 {
        ModuleView { capabilities: m.capabilities + more, ..m }
    } else if k == 1 {
        ModuleView { extensions: m.extensions + more, ..m }
    } else if k == 2 {
        ModuleView { ext_inst_imports: m.ext_inst_imports + more, ..m }
    } else if k == 3 {
        ModuleView { entry_points: m.entry_points + more, ..m }
    } else if k == 4 {
        ModuleView { execution_modes: m.execution_modes + more, ..m }
    } else if k == 5 {
        ModuleView { debug_string_source: m.debug_string_source + more, ..m }
    } else if k == 6 {
        ModuleView { debug_names: m.debug_names + more, ..m }
    } else if k == 7 {
        ModuleView { debug_module_processed: m.debug_module_processed + more, ..m }
    } else if k == 8 {
        ModuleView { annotations: m.annotations + more, ..m }
    } else {
        ModuleView { types_global_values: m.types_global_values + more, ..m }
    }
}

proof fn lemma_feed_section(s: LoaderView, k: int, more: Seq<InstView>)
    requires
        is_idle(s),
        0 <= k < 10,
        model::each(more, |i: InstView| belongs(k, i.opcode)),
    ensures
        fed(s, more) == (LoaderView { module: extended(s.module, k, more), ..s }),
    decreases more.len(),
{
    if more.len() == 0 {
        assert(extended(s.module, k, more) =~= s.module);
    } else {
        let rest = more.drop_last();
        let i = more.last();
        assert(belongs(k, more[more.len() - 1].opcode));
        assert forall|j: int| 0 <= j < rest.len() implies belongs(
            k,
            (#[trigger] rest[j]).opcode,
        ) by {
            assert(rest[j] == more[j]);
        }
        lemma_feed_section(s, k, rest);
        let m = extended(s.module, k, rest);
        assert(rest.push(i) =~= more);
        assert(bridge::consumed(LoaderView { module: m, ..s }, i).module =~= extended(
            s.module,
            k,
            more,
        ));
    }
}

/// The sections of two modules, one after the other.
pub open spec fn joined(m: ModuleView, n: ModuleView) -> ModuleView {
    ModuleView {
        header: m.header,
        capabilities: m.capabilities + n.capabilities,
        extensions: m.extensions + n.extensions,
        ext_inst_imports: m.ext_inst_imports + n.ext_inst_imports,
        memory_model: if n.memory_model is Some {
            n.memory_model
        } else {
            m.memory_model
        },
        entry_points: m.entry_points + n.entry_points,
        execution_modes: m.execution_modes + n.execution_modes,
        debug_string_source: m.debug_string_source + n.debug_string_source,
        debug_names: m.debug_names + n.debug_names,
        debug_module_processed: m.debug_module_processed + n.debug_module_processed,
        annotations: m.annotations + n.annotations,
        types_global_values: m.types_global_values + n.types_global_values,
        functions: m.functions + n.functions,
    }
}

/// What loading well-placed sections adds to a module.
spec fn with_sections(m: ModuleView, n: ModuleView) -> ModuleView {
    ModuleView { functions: m.functions, ..joined(m, n) }
}

#[verifier::rlimit(40)]
proof fn lemma_feed_sections(s: LoaderView, n: ModuleView)
    requires
        is_idle(s),
        well_placed(n),
    ensures
        fed(s, n.all_insts()) == fed(
            LoaderView { module: with_sections(s.module, n), ..s },
            model::function_insts(n.functions),
        ),
{
    let a0 = n.capabilities;
    let a1 = a0 + n.extensions;
    let a2 = a1 + n.ext_inst_imports;
    let a3 = a2 + model::opt_seq(n.memory_model);
    let a4 = a3 + n.entry_points;
    let a5 = a4 + n.execution_modes;
    let a6 = a5 + n.debug_string_source;
    let a7 = a6 + n.debug_names;
    let a8 = a7 + n.debug_module_processed;
    let a9 = a8 + n.annotations;
    let a10 = a9 + n.types_global_values;
    assert(n.all_insts() =~= a10 + model::function_insts(n.functions));
    lemma_fed_add(s, a10, model::function_insts(n.functions));
    lemma_fed_add(s, a9, n.types_global_values);
    lemma_fed_add(s, a8, n.annotations);
    lemma_fed_add(s, a7, n.debug_module_processed);
    lemma_fed_add(s, a6, n.debug_names);
    lemma_fed_add(s, a5, n.debug_string_source);
    lemma_fed_add(s, a4, n.execution_modes);
    lemma_fed_add(s, a3, n.entry_points);
    lemma_fed_add(s, a2, model::opt_seq(n.memory_model));
    lemma_fed_add(s, a1, n.ext_inst_imports);
    lemma_fed_add(s, a0, n.extensions);
    let s0 = fed(s, a0);
    lemma_feed_section(s, 0, n.capabilities);
    let s1 = fed(s0, n.extensions);
    lemma_feed_section(s0, 1, n.extensions);
    let s2 = fed(s1, n.ext_inst_imports);
    lemma_feed_section(s1, 2, n.ext_inst_imports);
    let s3 = fed(s2, model::opt_seq(n.memory_model));
    if n.memory_model is Some {
        lemma_fed_one(s2, n.memory_model->0);
        assert(model::opt_seq(n.memory_model) =~= seq![n.memory_model->0]);
    }
    let s4 = fed(s3, n.entry_points);
    lemma_feed_section(s3, 3, n.entry_points);
    let s5 = fed(s4, n.execution_modes);
    lemma_feed_section(s4, 4, n.execution_modes);
    let s6 = fed(s5, n.debug_string_source);
    lemma_feed_section(s5, 5, n.debug_string_source);
    let s7 = fed(s6, n.debug_names);
    lemma_feed_section(s6, 6, n.debug_names);
    let s8 = fed(s7, n.debug_module_processed);
    lemma_feed_section(s7, 7, n.debug_module_processed);
    let s9 = fed(s8, n.annotations);
    lemma_feed_section(s8, 8, n.annotations);
    let s10 = fed(s9, n.types_global_values);
    lemma_feed_section(s9, 9, n.types_global_values);
    assert(s10.module =~= with_sections(s.module, n));
}

proof fn lemma_feed_parameters(s: LoaderView, more: Seq<InstView>)
    requires
        s.function is Some,
        s.block is None,
        model::each(more, |i: InstView| i.opcode == opcode::FUNCTION_PARAMETER),
    ensures
        fed(s, more) == (LoaderView {
            function: Some(
                FunctionView {
                    parameters: (s.function->0).parameters + more,
                    ..s.function->0
                },
            ),
            ..s
        }),
    decreases more.len(),
{
    let before = (s.function->0).parameters;
    if more.len() == 0 {
        assert(before + more =~= before);
    } else {
        let rest = more.drop_last();
        assert(more[more.len() - 1].opcode == opcode::FUNCTION_PARAMETER);
        assert forall|j: int| 0 <= j < rest.len() implies (#[trigger] rest[j]).opcode
            == opcode::FUNCTION_PARAMETER by {
            assert(rest[j] == more[j]);
        }
        lemma_feed_parameters(s, rest);
        assert((before + rest).push(more.last()) =~= before + more);
    }
}

proof fn lemma_feed_inner(s: LoaderView, more: Seq<InstView>)
    requires
        s.function is Some,
        s.block is Some,
        model::each(more, |i: InstView| is_inner(i.opcode)),
    ensures
        fed(s, more) == (LoaderView {
            block: Some(
                BlockView { instructions: (s.block->0).instructions + more, ..s.block->0 },
            ),
            ..s
        }),
    decreases more.len(),
{
    let before = (s.block->0).instructions;
    if more.len() == 0 {
        assert(before + more =~= before);
    } else {
        let rest = more.drop_last();
        assert(is_inner(more[more.len() - 1].opcode));
        assert forall|j: int| 0 <= j < rest.len() implies is_inner((#[trigger] rest[j]).opcode) by {
            assert(rest[j] == more[j]);
        }
        lemma_feed_inner(s, rest);
        assert((before + rest).push(more.last()) =~= before + more);
    }
}

proof fn lemma_feed_block(s: LoaderView, b: BlockView)
    requires
        s.function is Some,
        s.block is None,
        is_closed_block(b),
    ensures
        fed(s, b.all_insts()) == (LoaderView {
            function: Some(
                FunctionView { blocks: (s.function->0).blocks.push(b), ..s.function->0 },
            ),
            ..s
        }),
{
    let label = b.label->0;
    let inner = b.instructions.drop_last();
    let last = b.instructions.last();
    assert(b.all_insts() =~= (seq![label] + inner) + seq![last]);
    lemma_fed_add(s, seq![label] + inner, seq![last]);
    lemma_fed_add(s, seq![label], inner);
    lemma_fed_one(s, label);
    let s1 = bridge::consumed(s, label);
    lemma_feed_inner(s1, inner);
    let s2 = fed(s1, inner);
    lemma_fed_one(s2, last);
    assert((s1.block->0).instructions + inner =~= inner);
    assert(inner.push(last) =~= b.instructions);
}

proof fn lemma_feed_blocks(s: LoaderView, more: Seq<BlockView>)
    requires
        s.function is Some,
        s.block is None,
        model::each(more, |b: BlockView| is_closed_block(b)),
    ensures
        fed(s, model::block_insts(more)) == (LoaderView {
            function: Some(
                FunctionView { blocks: (s.function->0).blocks + more, ..s.function->0 },
            ),
            ..s
        }),
    decreases more.len(),
{
    let before = (s.function->0).blocks;
    if more.len() == 0 {
        assert(before + more =~= before);
    } else {
        let rest = more.drop_last();
        assert(is_closed_block(more[more.len() - 1]));
        assert forall|j: int| 0 <= j < rest.len() implies is_closed_block(#[trigger] rest[j]) by {
            assert(rest[j] == more[j]);
        }
        lemma_feed_blocks(s, rest);
        lemma_fed_add(s, model::block_insts(rest), more.last().all_insts());
        lemma_feed_block(fed(s, model::block_insts(rest)), more.last());
        assert((before + rest).push(more.last()) =~= before + more);
    }
}

proof fn lemma_feed_function(s: LoaderView, f: FunctionView)
    requires
        is_idle(s),
        is_closed_function(f),
    ensures
        fed(s, f.all_insts()) == (LoaderView {
            module: ModuleView { functions: s.module.functions.push(f), ..s.module },
            ..s
        }),
{
    let def = f.def->0;
    let end = f.end->0;
    let body = model::block_insts(f.blocks);
    assert(f.all_insts() =~= ((seq![def] + f.parameters) + body) + seq![end]);
    lemma_fed_add(s, (seq![def] + f.parameters) + body, seq![end]);
    lemma_fed_add(s, seq![def] + f.parameters, body);
    lemma_fed_add(s, seq![def], f.parameters);
    lemma_fed_one(s, def);
    let s1 = bridge::consumed(s, def);
    lemma_feed_parameters(s1, f.parameters);
    let s2 = fed(s1, f.parameters);
    lemma_feed_blocks(s2, f.blocks);
    let s3 = fed(s2, body);
    lemma_fed_one(s3, end);
    assert((s1.function->0).parameters + f.parameters =~= f.parameters);
    assert((s2.function->0).blocks + f.blocks =~= f.blocks);
}

pub proof fn lemma_feed_functions(s: LoaderView, more: Seq<FunctionView>)
    requires
        is_idle(s),
        model::each(more, |f: FunctionView| is_closed_function(f)),
    ensures
        fed(s, model::function_insts(more)) == (LoaderView {
            module: ModuleView { functions: s.module.functions + more, ..s.module },
            ..s
        }),
    decreases more.len(),
{
    let before = s.module.functions;
    if more.len() == 0 {
        assert(before + more =~= before);
    } else {
        let rest = more.drop_last();
        assert(is_closed_function(more[more.len() - 1]));
        assert forall|j: int| 0 <= j < rest.len() implies is_closed_function(#[trigger] rest[j]) by {
            assert(rest[j] == more[j]);
        }
        lemma_feed_functions(s, rest);
        lemma_fed_add(s, model::function_insts(rest), more.last().all_insts());
        lemma_feed_function(fed(s, model::function_insts(rest)), more.last());
        assert((before + rest).push(more.last()) =~= before + more);
    }
}

pub proof fn lemma_feed_module(s: LoaderView, n: ModuleView)
    requires
        is_idle(s),
        well_placed(n),
    ensures
        fed(s, n.all_insts()) == (LoaderView { module: joined(s.module, n), ..s }),
{
    lemma_feed_sections(s, n);
    let t = LoaderView { module: with_sections(s.module, n), ..s };
    lemma_feed_functions(t, n.functions);
}

/// Loading the instructions of a well-placed module gives the module back, without
/// its header.
pub proof fn law_reload(m: ModuleView)
    requires
        well_placed(m),
    ensures
        convert::loaded(m.all_insts()) == (ModuleView { header: None, ..m }),
{
    let s = bridge::empty_loader();
    lemma_fed_from_empty(m.all_insts());
    lemma_feed_module(s, m);
    assert(joined(s.module, m) =~= (ModuleView { header: None, ..m }));
}

/// Loading instructions, taking the module apart and loading it again gives the
/// same module.
pub proof fn law_load_twice(insts: Seq<InstView>)
    ensures
        convert::loaded(convert::loaded(insts).all_insts()) == convert::loaded(insts),
{
    law_loaded_is_well_placed(insts);
    law_reload(convert::loaded(insts));
}

proof fn lemma_closed_function_map(f: FunctionView, g: spec_fn(InstView) -> InstView)
    requires
        is_closed_function(f),
        forall|i: InstView| (#[trigger] g(i)).opcode == i.opcode,
    ensures
        is_closed_function(f.map_insts(g)),
{
    let h = f.map_insts(g);
    assert forall|k: int| 0 <= k < h.blocks.len() implies is_closed_block(#[trigger] h.blocks[k]) by {
        let b = f.blocks[k];
        assert(is_closed_block(b));
        assert(h.blocks[k] == b.map_insts(g));
        let inner = b.instructions.drop_last();
        assert(h.blocks[k].instructions.drop_last() =~= inner.map_values(g));
        assert forall|j: int| 0 <= j < inner.len() implies is_inner(
            (#[trigger] inner.map_values(g)[j]).opcode,
        ) by {
            assert(is_inner(inner[j].opcode));
        }
    }
    assert forall|k: int| 0 <= k < h.parameters.len() implies (#[trigger] h.parameters[k]).opcode
        == opcode::FUNCTION_PARAMETER by {
        assert(f.parameters[k].opcode == opcode::FUNCTION_PARAMETER);
    }
}

/// Removing annotations leaves a module well placed.
pub proof fn lemma_well_placed_without(m: ModuleView, ids: Seq<u32>)
    requires
        well_placed(m),
    ensures
        well_placed(sweep::without_all_annotations(m, ids)),
    decreases ids.len(),
{
    if ids.len() > 0 {
        let n = sweep::without_all_annotations(m, ids.drop_last());
        let id = ids.last();
        let dead = |i: InstView| sweep::about(i, id);
        let is_annotation = |i: InstView| opcode::is_annotation(i.opcode);
        lemma_well_placed_without(m, ids.drop_last());
        sweep::lemma_each_swept(n.annotations, dead, is_annotation);
        sweep::lemma_each_swept(
            n.debug_string_source,
            dead,
            |i: InstView| opcode::is_string_source(i.opcode),
        );
        sweep::lemma_each_swept(n.debug_names, dead, |i: InstView| opcode::is_name(i.opcode));
        sweep::lemma_each_swept(
            n.debug_module_processed,
            dead,
            |i: InstView| i.opcode == opcode::MODULE_PROCESSED,
        );
        let a = sweep::without_id(n.annotations, id);
        let b = a.map_values(|i: InstView| sweep::pruned(i, id));
        assert forall|k: int| 0 <= k < b.len() implies is_annotation(#[trigger] b[k]) by {
            assert(is_annotation(a[k]));
        }
    }
}

/// A map that leaves the opcodes leaves a module well placed.
pub proof fn lemma_well_placed_map(m: ModuleView, g: spec_fn(InstView) -> InstView)
    requires
        well_placed(m),
        forall|i: InstView| (#[trigger] g(i)).opcode == i.opcode,
    ensures
        well_placed(m.map_insts(g)),
{
    let n = m.map_insts(g);
    assert forall|k: int| 0 <= k < n.functions.len() implies is_closed_function(
        #[trigger] n.functions[k],
    ) by {
        assert(is_closed_function(m.functions[k]));
        lemma_closed_function_map(m.functions[k], g);
    }
}

} // verus!
