//! Linking modules.

use vstd::prelude::*;

use crate::bridge;
use crate::convert;
use crate::dedup;
use crate::defs;
use crate::defs::DefAnalyzer;
use crate::error::{ErrorView, LinkerError};
use crate::globals;
use crate::linkage;
use crate::linkage::Options;
use crate::load;
use crate::model;
use crate::model::{
    Duplicate, InstView, ModuleView, OperandView, SpvInst, SpvModule, SpvOperand,
};
use crate::opcode;
use crate::rename;
use crate::sweep;
use crate::symbols;
use crate::symbols::{ImportExportPair, InfoView, LinkSymbol, PairView, SymbolView};
use crate::types;

verus! {

/// The text that a linked module carries.
pub const PROCESSED_BY: &'static str = "Linked by rspirv-linker";

/// The instruction that says what a linked module was processed by.
pub open spec fn processed() -> InstView {
    InstView {
        opcode: opcode::MODULE_PROCESSED,
        result_type: None,
        result_id: None,
        operands: seq![OperandView::LiteralString(PROCESSED_BY@)],
    }
}

/// The ids of imports with those of the exports that stand in for them.
pub open spec fn pair_ids(pairs: Seq<PairView>) -> Seq<(u32, u32)> {
    pairs.map_values(|p: PairView| (p.import.id, p.export.id))
}

/// The ids of symbols.
pub open spec fn symbol_ids(symbols: Seq<SymbolView>) -> Seq<u32> {
    symbols.map_values(|s: SymbolView| s.id)
}

/// The ids of a module that are not merged with any others, though they may be
/// declared in the same words: those of its imports and those of the exports that
/// stand in for them.
pub open spec fn set_apart(m: ModuleView, pairs: Seq<PairView>) -> Seq<u32> {
    symbol_ids(symbols::imports_of(m, defs::definitions(m))) + pairs.map_values(
        |p: PairView| p.export.id,
    )
}

/// A merged module with its duplicates dropped.
pub open spec fn without_duplicates(m: ModuleView, apart: Seq<u32>) -> ModuleView {
    types::with_merged_types(
        dedup::with_distinct_imports(dedup::with_distinct_capabilities(m)),
        apart,
    )
}

/// A merged module with its duplicates dropped and the uses of its imports replaced
/// by those of the exports.
pub open spec fn resolved(m: ModuleView, info: InfoView) -> ModuleView {
    rename::replaced_pairs(
        sweep::without_all_annotations(
            without_duplicates(m, set_apart(m, info.pairs)),
            linkage::imported_ids(info.imports),
        ),
        pair_ids(info.pairs),
    )
}

/// A resolved module without its imports and linking instructions.
pub open spec fn cleaned(m: ModuleView, pairs: Seq<PairView>, lib: bool) -> ModuleView {
    dedup::with_distinct_annotations(
        dedup::with_distinct_interfaces(linkage::unlinked(m, pairs, lib)),
    )
}

/// A module with its ids renumbered, a header of its own and a note of what it was
/// processed by.
pub open spec fn finished(m: ModuleView) -> ModuleView {
    let c = rename::compacted(m);
    ModuleView {
        header: Some(bridge::own_header((rename::ids_in_order(m).len() + 1) as u32)),
        debug_module_processed: c.debug_module_processed.push(processed()),
        ..c
    }
}

/// What becomes of a merged module with matching imports and exports, if its
/// instructions have the operands and ids that linking needs and its declarations
/// can be arranged.
pub open spec fn combined(m: ModuleView, info: InfoView, lib: bool) -> Option<ModuleView> {
    let a = resolved(m, info);
    let b = cleaned(a, info.pairs, lib);
    let c = globals::with_sorted_globals(b);
    if {
        &&& dedup::all_have_operands(m.capabilities)
        &&& model::each(info.imports, |s: SymbolView| linkage::has_named_parameters(s))
        &&& linkage::linkage_readable(a, info.pairs, lib)
        &&& globals::arrangeable(b)
        &&& rename::numberable(c)
    } {
        Some(finished(c))
    } else {
        None
    }
}

/// What becomes of a merged module: the linked module, or the error that keeps it
/// from being linked. `None` where it is malformed.
pub open spec fn outcome(m: ModuleView, opts: Options) -> Option<
    Result<ModuleView, ErrorView>,
> {
    let defs = defs::definitions(m);
    if !symbols::symbols_readable(m, defs) {
        None
    } else {
        match symbols::info_of(m, defs, opts.partial) {
            Err(e) => Some(Err(e)),
            Ok(info) => match symbols::checked_pairs(defs, info.pairs) {
                None => None,
                Some(Err(e)) => Some(Err(e)),
                Some(Ok(_)) => match combined(m, info, opts.lib) {
                    Some(r) => Some(Ok(r)),
                    None => None,
                },
            },
        }
    }
}

/// Whether a result is as foretold.
pub open spec fn is_outcome(
    r: Result<SpvModule, LinkerError>,
    expected: Result<ModuleView, ErrorView>,
) -> bool {
    match expected {
        Ok(m) => r is Ok && r->Ok_0@ == m,
        Err(e) => r is Err && r->Err_0@ == e,
    }
}

fn write_pair_ids(pairs: &Vec<ImportExportPair>) -> (r: Vec<(u32, u32)>)
    ensures
        r@ == pair_ids(model::views(pairs@)),
{
    let ghost all = model::views(pairs@);
    let mut r: Vec<(u32, u32)> = Vec::new();
    for k in 0..pairs.len()
        invariant
            all == model::views(pairs@),
            r@ == pair_ids(all.take(k as int)),
    {
        assert(all[k as int] == pairs@[k as int]@);
        r.push((pairs[k].import.id, pairs[k].export.id));
        assert(r@ =~= pair_ids(all.take(k + 1)));
    }
    assert(all.take(all.len() as int) =~= all);
    r
}

fn write_ids_apart(imports: &Vec<LinkSymbol>, pairs: &Vec<ImportExportPair>) -> (r: Vec<u32>)
    ensures
        r@ == symbol_ids(model::views(imports@)) + model::views(pairs@).map_values(
            |p: PairView| p.export.id,
        ),
{
    let ghost first = model::views(imports@);
    let ghost second = model::views(pairs@);
    let ghost export_id = |p: PairView| p.export.id;
    let mut r: Vec<u32> = Vec::new();
    for k in 0..imports.len()
        invariant
            first == model::views(imports@),
            r@ == symbol_ids(first.take(k as int)),
    {
        assert(first[k as int] == imports@[k as int]@);
        r.push(imports[k].id);
        assert(r@ =~= symbol_ids(first.take(k + 1)));
    }
    assert(first.take(first.len() as int) =~= first);
    assert(r@ =~= symbol_ids(first) + second.take(0).map_values(export_id));
    for k in 0..pairs.len()
        invariant
            second == model::views(pairs@),
            export_id == (|p: PairView| p.export.id),
            r@ == symbol_ids(first) + second.take(k as int).map_values(export_id),
    {
        assert(second[k as int] == pairs@[k as int]@);
        r.push(pairs[k].export.id);
        assert(r@ =~= symbol_ids(first) + second.take(k + 1).map_values(export_id));
    }
    assert(second.take(second.len() as int) =~= second);
    r
}

/// Renumbers the ids of a module, and gives it a header and a note of what it was
/// processed by.
fn finish(module: &mut SpvModule)
    requires
        rename::numberable(old(module)@),
    ensures
        final(module)@ == finished(old(module)@),
{
    broadcast use model::lemma_views_push;

    let bound = rename::compact_ids(module);
    module.header = Some(bridge::new_header(bound));
    let mut operands: Vec<SpvOperand> = Vec::new();
    operands.push(SpvOperand::LiteralString(PROCESSED_BY.to_string()));
    let note = SpvInst::new(bridge::op_module_processed(), None, None, operands);
    assert(note@.operands =~= processed().operands);
    module.debug_module_processed.push(note);
}

/// Links a merged module.
fn link_merged(module: SpvModule, opts: &Options) -> (r: Option<Result<SpvModule, LinkerError>>)
    ensures
        r is Some <==> outcome(module@, *opts) is Some,
        r is Some ==> is_outcome(r->0, outcome(module@, *opts)->0),
{
    let ghost m = module@;
    let mut output = module;
    let defs = DefAnalyzer::new(&output);
    let imports = match symbols::read_symbols(&output, &defs) {
        Some((imports, _)) => imports,
        None => {
            return None;
        },
    };
    let found = if opts.partial {
        symbols::find_partial_pairs(&output, &defs)
    } else {
        symbols::find_import_export_pairs(&output, &defs)
    };
    let info = match found {
        Ok(info) => info,
        Err(e) => {
            return Some(Err(e));
        },
    };
    if info.check_pairs(&defs).is_none() {
        return None;
    }
    let pairs = match info.ensure_matching_import_export_pairs(&defs) {
        Ok(pairs) => pairs,
        Err(e) => {
            return Some(Err(e));
        },
    };
    if !dedup::has_operands(&output.capabilities) || !linkage::have_named_parameters(
        &info.imports,
    ) {
        return None;
    }
    dedup::remove_duplicate_capablities(&mut output);
    dedup::remove_duplicate_ext_inst_imports(&mut output);
    let mut output = types::merge_types(output, &write_ids_apart(&imports, pairs));
    linkage::import_kill_annotations_and_debug(&mut output, &info);
    rename::replace_pairs(&mut output, &write_pair_ids(pairs));
    assert(output@ == resolved(m, info@));
    if !linkage::can_kill_linkage(pairs, &output, opts) {
        return None;
    }
    linkage::kill_linkage_instructions(pairs, &mut output, opts);
    dedup::dedup_entry_point_interfaces(&mut output);
    dedup::remove_duplicate_annotations(&mut output);
    if globals::arrange_globals(&output).is_none() {
        return None;
    }
    globals::sort_globals(&mut output);
    if !rename::can_compact_ids(&output) {
        return None;
    }
    finish(&mut output);
    Some(Ok(output))
}

/// What the modules behind references hold.
pub open spec fn held(inputs: Seq<&mut SpvModule>) -> Seq<ModuleView> {
    Seq::new(inputs.len(), |k: int| (*inputs[k])@)
}

/// What is added to the ids of module `k`: the number of ids below the bounds of
/// the modules before it.
pub open spec fn offset(inputs: Seq<ModuleView>, k: int) -> int
    decreases k,
{
    if k <= 0 {
        0
    } else {
        offset(inputs, k - 1) + (inputs[k - 1].header->0).bound - 1
    }
}

/// The modules with their ids moved apart.
pub open spec fn moved_apart(inputs: Seq<ModuleView>) -> Seq<ModuleView> {
    Seq::new(
        inputs.len(),
        |k: int|
            if k == 0 {
                inputs[0]
            } else {
                rename::shifted(inputs[k], offset(inputs, k) as u32)
            },
    )
}

/// Whether a module has a header with a bound above 0.
pub open spec fn is_bounded(m: ModuleView) -> bool {
    m.header matches Some(h) && h.bound > 0
}

/// Whether there are modules, and their ids can be moved apart.
pub open spec fn joinable(inputs: Seq<ModuleView>) -> bool {
    &&& inputs.len() > 0
    &&& forall|k: int| 0 <= k < inputs.len() ==> is_bounded(#[trigger] inputs[k])
    &&& offset(inputs, inputs.len() as int) <= u32::MAX
    &&& forall|k: int|
        1 <= k < inputs.len() ==> rename::shiftable(
            #[trigger] inputs[k],
            offset(inputs, k) as u32,
        )
}

/// All instructions of modules in a row.
pub open spec fn joined_insts(inputs: Seq<ModuleView>) -> Seq<InstView>
    decreases inputs.len(),
{
    if inputs.len() == 0 {
        Seq::empty()
    } else {
        joined_insts(inputs.drop_last()) + inputs.last().all_insts()
    }
}

/// The module that the instructions of all modules make up, with their ids moved
/// apart.
pub open spec fn merged(inputs: Seq<ModuleView>) -> ModuleView {
    convert::loaded(joined_insts(moved_apart(inputs)))
}

/// Whether modules can be merged, and what they make up is not malformed.
pub open spec fn linkable(inputs: Seq<ModuleView>, opts: Options) -> bool {
    joinable(inputs) && outcome(merged(inputs), opts) is Some
}

/// What linking modules results in.
pub open spec fn linked(inputs: Seq<ModuleView>, opts: Options) -> Result<
    ModuleView,
    ErrorView,
> {
    outcome(merged(inputs), opts)->0
}

pub proof fn lemma_offset_grows(inputs: Seq<ModuleView>, j: int, k: int)
    requires
        0 <= j <= k <= inputs.len(),
        forall|i: int| 0 <= i < inputs.len() ==> is_bounded(#[trigger] inputs[i]),
    ensures
        0 <= offset(inputs, j) <= offset(inputs, k),
    decreases k,
{
    if k > 0 {
        assert(is_bounded(inputs[k - 1]));
        if j < k {
            lemma_offset_grows(inputs, j, k - 1);
        } else {
            lemma_offset_grows(inputs, 0, k - 1);
        }
    }
}

/// Appends the instructions of a module.
fn append_insts(insts: &mut Vec<SpvInst>, module: &SpvModule)
    ensures
        model::views(final(insts)@) == model::views(old(insts)@) + module@.all_insts(),
{
    let mut more = module.all_insts();
    let ghost before = model::views(insts@);
    let ghost added = model::views(more@);
    insts.append(&mut more);
    assert(model::views(insts@) =~= before + added);
}

fn read_bound(module: &SpvModule) -> (r: Option<u32>)
    ensures
        r is Some <==> is_bounded(module@),
        r is Some ==> r->0 == (module@.header->0).bound,
{
    match &module.header {
        Some(h) => if h.bound > 0 {
            Some(h.bound)
        } else {
            None
        },
        None => None,
    }
}

/// Adds `bound` to the ids of a module, and the number of its ids to `bound`.
fn move_up(module: &mut SpvModule, bound: u32) -> (r: u32)
    requires
        is_bounded(old(module)@),
        rename::shiftable(old(module)@, bound),
        bound + (old(module)@.header->0).bound - 1 <= u32::MAX,
    ensures
        final(module)@ == rename::shifted(old(module)@, bound),
        r == bound + (old(module)@.header->0).bound - 1,
{
    let own: u32 = read_bound(module).unwrap() - 1;
    rename::shift_ids(module, bound);
    bound + own
}

/// Links modules into one.
///
/// The ids of all modules but the first are moved up, so that no two modules share
/// one. An import is matched with the export of its name, and the uses of the
/// import become uses of the export. Declarations that are made more than once are
/// merged, but for imports and the exports that stand in for them; the imports and
/// what only serves linking are dropped, and the ids are renumbered.
///
/// An import without an export is an error, unless linking may be partial: it then
/// stays as it is, with its decoration.
pub fn link(inputs: &mut [&mut SpvModule], opts: &Options) -> (r: Result<SpvModule, LinkerError>)
    requires
        linkable(held(old(inputs)@), *opts),
    ensures
        is_outcome(r, linked(held(old(inputs)@), *opts)),
        held(final(inputs)@) == moved_apart(held(old(inputs)@)),
{
    let ghost start = held(inputs@);
    let ghost apart = moved_apart(start);
    let n: usize = inputs.len();
    assert(is_bounded(start[0]));
    let mut bound: u32 = read_bound(&*inputs[0]).unwrap() - 1;
    assert(offset(start, 0) == 0);
    for k in 1..n
        invariant
            n == inputs@.len(),
            n == start.len(),
            apart == moved_apart(start),
            joinable(start),
            bound == offset(start, k as int),
            forall|j: int| 0 <= j < k ==> (*#[trigger] inputs@[j])@ == apart[j],
            forall|j: int| k <= j < n ==> (*#[trigger] inputs@[j])@ == start[j],
    {
        assert((*inputs@[k as int])@ == start[k as int]);
        assert(is_bounded(start[k as int]));
        proof {
            lemma_offset_grows(start, k + 1, n as int);
        }
        bound = move_up(&mut *inputs[k], bound);
    }
    let mut insts: Vec<SpvInst> = Vec::new();
    assert(model::views(insts@) =~= joined_insts(apart.take(0)));
    for k in 0..n
        invariant
            n == inputs@.len(),
            n == apart.len(),
            forall|j: int| 0 <= j < n ==> (*#[trigger] inputs@[j])@ == apart[j],
            model::views(insts@) == joined_insts(apart.take(k as int)),
    {
        assert((*inputs@[k as int])@ == apart[k as int]);
        append_insts(&mut insts, &*inputs[k]);
        assert(apart.take(k + 1).drop_last() =~= apart.take(k as int));
    }
    assert(apart.take(n as int) =~= apart);
    assert(held(inputs@) =~= apart);
    let output = convert::load_instructions(&insts);
    link_merged(output, opts).unwrap()
}

/// Appends the instructions of a module, with `bound` added to its ids unless it is
/// the first, and adds the number of its ids to `bound`, if these sums are in range.
fn join_one(insts: &mut Vec<SpvInst>, module: &SpvModule, bound: u32, first: bool) -> (r: Option<
    u32,
>)
    requires
        is_bounded(module@),
    ensures
        r is Some <==> (first || rename::shiftable(module@, bound)) && bound + (
        module@.header->0).bound - 1 <= u32::MAX,
        r is Some ==> r->0 == bound + (module@.header->0).bound - 1,
        r is Some ==> model::views(final(insts)@) == model::views(old(insts)@) + (if first {
            module@
        } else {
            rename::shifted(module@, bound)
        }).all_insts(),
{
    let own: u32 = read_bound(module).unwrap() - 1;
    if own > u32::MAX - bound {
        return None;
    }
    if first {
        append_insts(insts, module);
    } else {
        if !rename::can_shift(module, bound) {
            return None;
        }
        let mut moved = module.duplicate();
        rename::shift_ids(&mut moved, bound);
        append_insts(insts, &moved);
    }
    Some(bound + own)
}

/// The instructions of all modules, with their ids moved apart, if they can be.
fn join(inputs: &Vec<SpvModule>) -> (r: Option<Vec<SpvInst>>)
    ensures
        r is Some <==> joinable(model::views(inputs@)),
        r is Some ==> model::views((r->0)@) == joined_insts(moved_apart(model::views(inputs@))),
{
    let ghost all = model::views(inputs@);
    let ghost apart = moved_apart(all);
    if inputs.len() == 0 {
        return None;
    }
    for k in 0..inputs.len()
        invariant
            all == model::views(inputs@),
            forall|j: int| 0 <= j < k ==> is_bounded(#[trigger] all[j]),
    {
        assert(all[k as int] == inputs@[k as int]@);
        if read_bound(&inputs[k]).is_none() {
            return None;
        }
    }
    let mut insts: Vec<SpvInst> = Vec::new();
    let mut bound: u32 = 0;
    assert(model::views(insts@) =~= joined_insts(apart.take(0)));
    for k in 0..inputs.len()
        invariant
            all == model::views(inputs@),
            apart == moved_apart(all),
            forall|j: int| 0 <= j < all.len() ==> is_bounded(#[trigger] all[j]),
            bound == offset(all, k as int),
            forall|j: int|
                1 <= j < k ==> rename::shiftable(#[trigger] all[j], offset(all, j) as u32),
            model::views(insts@) == joined_insts(apart.take(k as int)),
    {
        assert(all[k as int] == inputs@[k as int]@);
        assert(is_bounded(all[k as int]));
        proof {
            lemma_offset_grows(all, k + 1, all.len() as int);
        }
        match join_one(&mut insts, &inputs[k], bound, k == 0) {
            Some(next) => {
                bound = next;
            },
            None => {
                return None;
            },
        }
        assert(apart.take(k + 1).drop_last() =~= apart.take(k as int));
        assert(apart.take(k + 1).last() == apart[k as int]);
    }
    assert(apart.take(apart.len() as int) =~= apart);
    Some(insts)
}

/// Tells whether modules can be linked or be found not to match.
fn can_link(inputs: &Vec<SpvModule>, opts: &Options) -> (r: bool)
    ensures
        r == linkable(model::views(inputs@), *opts),
{
    match join(inputs) {
        Some(insts) => link_merged(convert::load_instructions(&insts), opts).is_some(),
        None => false,
    }
}

/// Links modules into one, if they are not malformed; otherwise leaves them as they
/// are.
pub fn try_link(inputs: &mut [&mut SpvModule], opts: &Options) -> (r: Option<
    Result<SpvModule, LinkerError>,
>)
    ensures
        r is Some <==> linkable(held(old(inputs)@), *opts),
        r is Some ==> is_outcome(r->0, linked(held(old(inputs)@), *opts)),
        held(final(inputs)@) == if linkable(held(old(inputs)@), *opts) {
            moved_apart(held(old(inputs)@))
        } else {
            held(old(inputs)@)
        },
{
    let ghost start = held(inputs@);
    let n: usize = inputs.len();
    let mut copies: Vec<SpvModule> = Vec::new();
    for k in 0..n
        invariant
            n == inputs@.len(),
            start == held(inputs@),
            copies@.len() == k,
            forall|j: int| 0 <= j < k ==> (#[trigger] copies@[j])@ == start[j],
    {
        copies.push(inputs[k].duplicate());
    }
    assert(model::views(copies@) =~= start);
    if can_link(&copies, opts) {
        Some(link(inputs, opts))
    } else {
        None
    }
}

/// References to the elements of a vector.
fn references<'a>(modules: &'a mut Vec<SpvModule>) -> (r: Vec<&'a mut SpvModule>)
    ensures
        held(r@) == model::views(old(modules)@),
{
    let ghost all = model::views(modules@);
    let mut r: Vec<&'a mut SpvModule> = Vec::new();
    let mut rest: &'a mut [SpvModule] = modules.as_mut_slice();
    assert(held(r@) + model::views(rest@) =~= all);
    while rest.len() > 0
        invariant
            held(r@) + model::views(rest@) == all,
        decreases rest@.len(),
    {
        let ghost before = held(r@);
        let ghost left = model::views(rest@);
        let (first, others) = rest.split_at_mut(1);
        r.push(&mut first[0]);
        rest = others;
        assert(held(r@) =~= before.push(left[0]));
        assert(model::views(rest@) =~= left.drop_first());
        assert(held(r@) + model::views(rest@) =~= all);
    }
    assert(held(r@) =~= all);
    r
}

/// The modules that binaries hold.
pub open spec fn binaries(modules: Seq<&[u32]>) -> Seq<ModuleView> {
    Seq::new(modules.len(), |k: int| load::binary_module(load::bytes_of(modules[k]@)))
}

/// Whether all of `modules` are binaries.
pub open spec fn are_binaries(modules: Seq<&[u32]>) -> bool {
    forall|k: int| 0 <= k < modules.len() ==> load::is_binary(load::bytes_of(#[trigger] modules[k]@))
}

/// Whether words are as foretold.
pub open spec fn is_binary_outcome(
    r: Result<Vec<u32>, LinkerError>,
    expected: Result<ModuleView, ErrorView>,
) -> bool {
    match expected {
        Ok(m) => r is Ok && r->Ok_0@ == bridge::module_words(m),
        Err(e) => r is Err && r->Err_0@ == e,
    }
}

fn load_all(modules: &[&[u32]]) -> (r: Vec<SpvModule>)
    requires
        are_binaries(modules@),
    ensures
        model::views(r@) == binaries(modules@),
{
    let mut parsed: Vec<SpvModule> = Vec::new();
    for k in 0..modules.len()
        invariant
            are_binaries(modules@),
            parsed@.len() == k,
            forall|j: int| 0 <= j < k ==> (#[trigger] parsed@[j])@ == binaries(modules@)[j],
    {
        assert(load::is_binary(load::bytes_of(modules@[k as int]@)));
        parsed.push(load::load_words(modules[k]));
    }
    assert(model::views(parsed@) =~= binaries(modules@));
    parsed
}

/// Links binaries, given as words, and returns the words of the linked binary: the
/// natural shape for callers that hold the words from a compiler.
pub fn link_bytes(modules: &[&[u32]], opts: &Options) -> (r: Result<Vec<u32>, LinkerError>)
    requires
        are_binaries(modules@),
        linkable(binaries(modules@), *opts),
    ensures
        is_binary_outcome(r, linked(binaries(modules@), *opts)),
{
    let mut parsed = load_all(modules);
    let mut refs = references(&mut parsed);
    match link(refs.as_mut_slice(), opts) {
        Ok(linked) => Ok(convert::assemble(&linked)),
        Err(e) => Err(e),
    }
}

/// Links binaries, if they are binaries and the modules in them are not malformed.
pub fn try_link_bytes(modules: &[&[u32]], opts: &Options) -> (r: Option<
    Result<Vec<u32>, LinkerError>,
>)
    ensures
        r is Some <==> are_binaries(modules@) && linkable(binaries(modules@), *opts),
        r is Some ==> is_binary_outcome(r->0, linked(binaries(modules@), *opts)),
{
    for k in 0..modules.len()
        invariant
            forall|j: int|
                0 <= j < k ==> load::is_binary(load::bytes_of(#[trigger] modules@[j]@)),
    {
        if load::try_load_words(modules[k]).is_none() {
            assert(!load::is_binary(load::bytes_of(modules@[k as int]@)));
            return None;
        }
    }
    if can_link(&load_all(modules), opts) {
        Some(link_bytes(modules, opts))
    } else {
        None
    }
}

/// Binaries that hold modules are linked as these are: module `k` is that of binary `k`,
/// whose words are laid out with the lowest byte first.
pub proof fn law_binaries(modules: Seq<&[u32]>, k: int)
    requires
        0 <= k < modules.len(),
    ensures
        binaries(modules).len() == modules.len(),
        bridge::words_of(load::bytes_of(modules[k]@)) == modules[k]@,
        binaries(modules)[k].header == Some(bridge::header_of(modules[k]@)),
        binaries(modules)[k] == (ModuleView {
            header: binaries(modules)[k].header,
            ..convert::loaded(bridge::parsed(load::bytes_of(modules[k]@))->0)
        }),
{
    load::law_words_of_bytes(modules[k]@);
}

} // verus!
