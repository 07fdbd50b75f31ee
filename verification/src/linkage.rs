//! Taking imports out of a module once the exports stand in for them.

use vstd::prelude::*;

use crate::model;
use crate::model::{
    Duplicate, EnumerantKind, FunctionView, InstView, ModuleView, SpvFunction, SpvInst, SpvModule,
    SpvOperand,
};
use crate::opcode;
use crate::sweep;
use crate::sweep::Condition;
use crate::symbols;
use crate::symbols::{ImportExportPair, LinkInfo, LinkSymbol, PairView, SymbolView};

verus! {

/// How modules are linked.
#[derive(Debug)]
pub struct Options {
    /// `true` if the result is a library.
    pub lib: bool,
    /// `true` if partial linking is allowed: an import without an export then stays.
    pub partial: bool,
}

impl Default for Options {
    fn default() -> (r: Self)
        ensures
            r == (Options { lib: false, partial: false }),
    {
        Options { lib: false, partial: false }
    }
}

/// The ids that the parameters of a function define.
pub open spec fn parameter_ids(parameters: Seq<InstView>) -> Seq<u32> {
    parameters.map_values(|p: InstView| p.result_id->0)
}

/// The ids of imports, each followed by those of its parameters.
pub open spec fn imported_ids(imports: Seq<SymbolView>) -> Seq<u32>
    decreases imports.len(),
{
    if imports.len() == 0 {
        Seq::empty()
    } else {
        imported_ids(imports.drop_last()).push(imports.last().id) + parameter_ids(
            imports.last().parameters,
        )
    }
}

/// Whether each parameter of a symbol defines an id.
pub open spec fn has_named_parameters(s: SymbolView) -> bool {
    model::each(s.parameters, |p: InstView| p.result_id is Some)
}

/// Tells whether each parameter of each symbol defines an id.
pub fn have_named_parameters(symbols: &Vec<LinkSymbol>) -> (r: bool)
    ensures
        r == model::each(model::views(symbols@), |s: SymbolView| has_named_parameters(s)),
{
    let ghost all = model::views(symbols@);
    for k in 0..symbols.len()
        invariant
            all == model::views(symbols@),
            forall|j: int| 0 <= j < k ==> has_named_parameters(#[trigger] all[j]),
    {
        let parameters = &symbols[k].parameters;
        let ghost here = all[k as int].parameters;
        assert(here =~= model::views(parameters@));
        for j in 0..parameters.len()
            invariant
                k < symbols@.len(),
                all == model::views(symbols@),
                here == all[k as int].parameters,
                here == model::views(parameters@),
                forall|i: int| 0 <= i < j ==> (#[trigger] here[i]).result_id is Some,
        {
            assert(here[j as int] == parameters@[j as int]@);
            if parameters[j].result_id.is_none() {
                assert(!has_named_parameters(all[k as int]));
                return false;
            }
        }
    }
    true
}

/// Removes the names, annotations and other debug instructions of the imports and
/// their parameters.
pub fn import_kill_annotations_and_debug(module: &mut SpvModule, info: &LinkInfo)
    requires
        model::each(info@.imports, |s: SymbolView| has_named_parameters(s)),
    ensures
        final(module)@ == sweep::without_all_annotations(
            old(module)@,
            imported_ids(info@.imports),
        ),
{
    let ghost all = info@.imports;
    let mut ids: Vec<u32> = Vec::new();
    assert(all.take(0) =~= Seq::empty());
    for k in 0..info.imports.len()
        invariant
            all == info@.imports,
            model::each(all, |s: SymbolView| has_named_parameters(s)),
            ids@ == imported_ids(all.take(k as int)),
    {
        let import = &info.imports[k];
        assert(all[k as int] == import@);
        assert(has_named_parameters(all[k as int]));
        let ghost parameters = all[k as int].parameters;
        ids.push(import.id);
        let ghost start = ids@;
        for j in 0..import.parameters.len()
            invariant
                import@.parameters == parameters,
                model::each(parameters, |p: InstView| p.result_id is Some),
                ids@ == start + parameter_ids(parameters.take(j as int)),
        {
            assert(parameters[j as int] == import.parameters@[j as int]@);
            ids.push(import.parameters[j].result_id.unwrap());
            assert(ids@ =~= start + parameter_ids(parameters.take(j + 1)));
        }
        assert(parameters.take(parameters.len() as int) =~= parameters);
        assert(all.take(k + 1).drop_last() =~= all.take(k as int));
    }
    assert(all.take(all.len() as int) =~= all);
    sweep::kill_all_annotations(module, &ids);
}

/// Whether `id` is imported.
pub open spec fn is_imported(pairs: Seq<PairView>, id: u32) -> bool {
    exists|k: int| 0 <= k < pairs.len() && (#[trigger] pairs[k]).import.id == id
}

/// Whether an instruction defines an imported id.
pub open spec fn defines_import(pairs: Seq<PairView>, i: InstView) -> bool {
    i.result_id matches Some(id) && is_imported(pairs, id)
}

/// Whether `id` is imported or exported.
pub open spec fn is_paired(pairs: Seq<PairView>, id: u32) -> bool {
    exists|k: int|
        0 <= k < pairs.len() && ((#[trigger] pairs[k]).import.id == id || pairs[k].export.id == id)
}

fn find_import(pairs: &Vec<ImportExportPair>, id: u32) -> (r: bool)
    ensures
        r == is_imported(model::views(pairs@), id),
{
    let ghost all = model::views(pairs@);
    for k in 0..pairs.len()
        invariant
            all == model::views(pairs@),
            forall|j: int| 0 <= j < k ==> (#[trigger] all[j]).import.id != id,
    {
        assert(all[k as int] == pairs@[k as int]@);
        if pairs[k].import.id == id {
            return true;
        }
    }
    false
}

fn find_either(pairs: &Vec<ImportExportPair>, id: u32) -> (r: bool)
    ensures
        r == is_paired(model::views(pairs@), id),
{
    let ghost all = model::views(pairs@);
    for k in 0..pairs.len()
        invariant
            all == model::views(pairs@),
            forall|j: int|
                0 <= j < k ==> (#[trigger] all[j]).import.id != id && all[j].export.id != id,
    {
        assert(all[k as int] == pairs@[k as int]@);
        if pairs[k].import.id == id || pairs[k].export.id == id {
            return true;
        }
    }
    false
}

/// Whether an annotation marks one of the paired symbols as imported or exported.
pub open spec fn links_pair(pairs: Seq<PairView>, i: InstView) -> bool {
    names_pair(pairs, i) && symbols::is_linkage(i)
}

/// Whether the first operand of an instruction is one of the paired symbols.
pub open spec fn names_pair(pairs: Seq<PairView>, i: InstView) -> bool {
    i.operands.len() > 0 && i.operands[0] is IdRef && is_paired(pairs, i.operands[0]->IdRef_0)
}

/// Whether an annotation marks a symbol as exported.
pub open spec fn links_export(i: InstView) -> bool {
    symbols::is_linkage(i) && symbols::marks_export(i)
}

/// Whether an instruction asks for the `Linkage` capability.
pub open spec fn wants_linkage(i: InstView) -> bool {
    &&& i.opcode == opcode::CAPABILITY
    &&& i.operands.len() > 0
    &&& i.operands[0].is_enumerant(EnumerantKind::Capability, opcode::CAPABILITY_LINKAGE)
}

fn check_names_pair(pairs: &Vec<ImportExportPair>, inst: &SpvInst) -> (r: bool)
    ensures
        r == names_pair(model::views(pairs@), inst@),
{
    if inst.operands.len() == 0 {
        return false;
    }
    match &inst.operands[0] {
        SpvOperand::IdRef(id) => find_either(pairs, *id),
        _ => false,
    }
}

/// Whether an annotation marks one of the paired symbols as imported or exported.
pub struct LinksPair<'a> {
    pub pairs: &'a Vec<ImportExportPair>,
}

/// Whether an annotation that names a paired symbol has the operands to tell
/// whether it is a linkage decoration.
pub open spec fn pair_readable(pairs: Seq<PairView>, i: InstView) -> bool {
    names_pair(pairs, i) && i.opcode == opcode::DECORATE ==> i.operands.len() > 1
}

impl<'a> Condition for LinksPair<'a> {
    open spec fn holds(&self, i: InstView) -> bool {
        links_pair(model::views(self.pairs@), i)
    }

    open spec fn readable(&self, i: InstView) -> bool {
        pair_readable(model::views(self.pairs@), i)
    }

    fn test(&self, inst: &SpvInst) -> (r: bool) {
        check_names_pair(self.pairs, inst) && symbols::check_linkage(inst)
    }
}

/// Whether an annotation marks a symbol as exported.
pub struct LinksExport {}

/// Whether an annotation has the operands to tell whether it marks an export.
pub open spec fn export_readable(i: InstView) -> bool {
    &&& i.opcode == opcode::DECORATE ==> i.operands.len() > 1
    &&& symbols::is_linkage(i) ==> i.operands.len() > 3
}

impl Condition for LinksExport {
    open spec fn holds(&self, i: InstView) -> bool {
        links_export(i)
    }

    open spec fn readable(&self, i: InstView) -> bool {
        export_readable(i)
    }

    fn test(&self, inst: &SpvInst) -> (r: bool) {
        symbols::check_linkage(inst) && inst.operands[3].is_enumerant(
            EnumerantKind::LinkageType,
            opcode::LINKAGE_EXPORT,
        )
    }
}

/// Whether an instruction asks for the `Linkage` capability.
pub struct WantsLinkage {}

/// Whether a capability has an operand.
pub open spec fn capability_readable(i: InstView) -> bool {
    i.opcode == opcode::CAPABILITY ==> i.operands.len() > 0
}

impl Condition for WantsLinkage {
    open spec fn holds(&self, i: InstView) -> bool {
        wants_linkage(i)
    }

    open spec fn readable(&self, i: InstView) -> bool {
        capability_readable(i)
    }

    fn test(&self, inst: &SpvInst) -> (r: bool) {
        inst.opcode() == opcode::CAPABILITY && inst.operands[0].is_enumerant(
            EnumerantKind::Capability,
            opcode::CAPABILITY_LINKAGE,
        )
    }
}

/// Whether a function has a defining instruction with an id.
pub open spec fn is_named(f: FunctionView) -> bool {
    f.def matches Some(d) && d.result_id is Some
}

/// The id of a function.
pub open spec fn function_id(f: FunctionView) -> u32 {
    (f.def->0).result_id->0
}

/// Annotations without those that mark paired symbols and, unless the result is a
/// library, without those that mark exports.
pub open spec fn unlinked_annotations(
    annotations: Seq<InstView>,
    pairs: Seq<PairView>,
    lib: bool,
) -> Seq<InstView> {
    let rest = sweep::swept(annotations, |i: InstView| links_pair(pairs, i));
    if lib {
        rest
    } else {
        sweep::swept(rest, |i: InstView| links_export(i))
    }
}

/// The module without the imported functions and variables, and without the
/// instructions that only serve linking.
pub open spec fn unlinked(m: ModuleView, pairs: Seq<PairView>, lib: bool) -> ModuleView {
    ModuleView {
        functions: m.functions.filter(
            |f: FunctionView| !is_imported(pairs, function_id(f)),
        ),
        types_global_values: m.types_global_values.filter(
            |i: InstView| !defines_import(pairs, i),
        ),
        annotations: unlinked_annotations(m.annotations, pairs, lib),
        capabilities: sweep::swept(m.capabilities, |i: InstView| wants_linkage(i)),
        ..m
    }
}

/// Whether the linking instructions of a module can be told apart.
pub open spec fn linkage_readable(m: ModuleView, pairs: Seq<PairView>, lib: bool) -> bool {
    &&& pairs.len() > 0 ==> model::each(m.functions, |f: FunctionView| is_named(f))
    &&& model::each(m.annotations, |i: InstView| pair_readable(pairs, i))
    &&& !lib ==> model::each(
        m.annotations,
        |i: InstView| links_pair(pairs, i) || export_readable(i),
    )
    &&& model::each(m.capabilities, |i: InstView| capability_readable(i))
}

fn drop_imported_functions(functions: &Vec<SpvFunction>, pairs: &Vec<ImportExportPair>) -> (r: Vec<
    SpvFunction,
>)
    requires
        pairs@.len() > 0 ==> model::each(
            model::views(functions@),
            |f: FunctionView| is_named(f),
        ),
    ensures
        model::views(r@) == model::views(functions@).filter(
            |f: FunctionView| !is_imported(model::views(pairs@), function_id(f)),
        ),
{
    let ghost all = model::views(functions@);
    let ghost keep = |f: FunctionView| !is_imported(model::views(pairs@), function_id(f));
    if pairs.len() == 0 {
        proof {
            model::lemma_filter_whole(all, keep);
        }
        return model::duplicate_all(functions);
    }
    let mut kept: Vec<SpvFunction> = Vec::new();
    assert(model::views(kept@) =~= all.take(0).filter(keep)) by {
        reveal(Seq::filter);
    }
    for k in 0..functions.len()
        invariant
            all == model::views(functions@),
            keep == (|f: FunctionView| !is_imported(model::views(pairs@), function_id(f))),
            model::each(all, |f: FunctionView| is_named(f)),
            model::views(kept@) == all.take(k as int).filter(keep),
    {
        broadcast use model::lemma_views_push;

        reveal(Seq::filter);
        assert(all.take(k + 1).drop_last() =~= all.take(k as int));
        assert(all.take(k + 1).last() == functions@[k as int]@);
        assert(is_named(all[k as int]));
        let id: u32 = match &functions[k].def {
            Some(def) => def.result_id.unwrap(),
            None => 0,
        };
        if !find_import(pairs, id) {
            kept.push(functions[k].duplicate());
        }
    }
    assert(all.take(all.len() as int) =~= all);
    kept
}

fn drop_imported_variables(insts: &Vec<SpvInst>, pairs: &Vec<ImportExportPair>) -> (r: Vec<SpvInst>)
    ensures
        model::views(r@) == model::views(insts@).filter(
            |i: InstView| !defines_import(model::views(pairs@), i),
        ),
{
    let ghost all = model::views(insts@);
    let ghost keep = |i: InstView| !defines_import(model::views(pairs@), i);
    let mut kept: Vec<SpvInst> = Vec::new();
    assert(model::views(kept@) =~= all.take(0).filter(keep)) by {
        reveal(Seq::filter);
    }
    for k in 0..insts.len()
        invariant
            all == model::views(insts@),
            keep == (|i: InstView| !defines_import(model::views(pairs@), i)),
            model::views(kept@) == all.take(k as int).filter(keep),
    {
        broadcast use model::lemma_views_push;

        reveal(Seq::filter);
        assert(all.take(k + 1).drop_last() =~= all.take(k as int));
        assert(all.take(k + 1).last() == insts@[k as int]@);
        let imported = match insts[k].result_id {
            Some(id) => find_import(pairs, id),
            None => false,
        };
        if !imported {
            kept.push(insts[k].duplicate());
        }
    }
    assert(all.take(all.len() as int) =~= all);
    kept
}

/// Removes the imported functions and variables, and the instructions that only
/// serve linking: the decorations of the paired symbols, those of the remaining
/// exports unless the result is a library, and the `Linkage` capability.
pub fn kill_linkage_instructions(
    pairs: &Vec<ImportExportPair>,
    module: &mut SpvModule,
    opts: &Options,
)
    requires
        linkage_readable(old(module)@, model::views(pairs@), opts.lib),
    ensures
        final(module)@ == unlinked(old(module)@, model::views(pairs@), opts.lib),
{
    let ghost all = model::views(pairs@);
    let ghost annotations = module@.annotations;
    module.functions = drop_imported_functions(&module.functions, pairs);
    module.types_global_values = drop_imported_variables(&module.types_global_values, pairs);
    let on_pairs = LinksPair { pairs };
    proof {
        assert((|i: InstView| on_pairs.holds(i)) =~= (|i: InstView| links_pair(all, i)));
        assert((|i: InstView| on_pairs.readable(i)) =~= (|i: InstView| pair_readable(all, i)));
    }
    sweep::kill_with(&mut module.annotations, &on_pairs);
    if !opts.lib {
        let on_exports = LinksExport {  };
        proof {
            let dead = |i: InstView| links_pair(all, i);
            let rest = module@.annotations;
            assert((|i: InstView| on_exports.holds(i)) =~= (|i: InstView| links_export(i)));
            assert forall|k: int| 0 <= k < rest.len() implies export_readable(
                #[trigger] rest[k],
            ) by {
                assert(rest.contains(rest[k]));
                sweep::law_swept(annotations, dead, rest[k]);
                let j = choose|j: int| 0 <= j < annotations.len() && annotations[j] == rest[k];
                assert(links_pair(all, annotations[j]) || export_readable(annotations[j]));
            }
        }
        sweep::kill_with(&mut module.annotations, &on_exports);
    }
    let on_capability = WantsLinkage {  };
    assert((|i: InstView| on_capability.holds(i)) =~= (|i: InstView| wants_linkage(i)));
    sweep::kill_with(&mut module.capabilities, &on_capability);
}

/// Tells whether the linking instructions of a module can be told apart.
pub fn can_kill_linkage(pairs: &Vec<ImportExportPair>, module: &SpvModule, opts: &Options) -> (r:
    bool)
    ensures
        r == linkage_readable(module@, model::views(pairs@), opts.lib),
{
    let ghost all = model::views(pairs@);
    let ghost m = module@;
    if pairs.len() > 0 {
        for k in 0..module.functions.len()
            invariant
                m == module@,
                pairs@.len() > 0,
                forall|j: int| 0 <= j < k ==> is_named(#[trigger] m.functions[j]),
        {
            assert(m.functions[k as int] == module.functions@[k as int]@);
            let named = match &module.functions[k].def {
                Some(def) => def.result_id.is_some(),
                None => false,
            };
            if !named {
                assert(!is_named(m.functions[k as int]));
                return false;
            }
        }
    }
    for k in 0..module.annotations.len()
        invariant
            m == module@,
            all == model::views(pairs@),
            forall|j: int|
                0 <= j < k ==> pair_readable(all, #[trigger] m.annotations[j]) && (opts.lib
                    || links_pair(all, m.annotations[j]) || export_readable(m.annotations[j])),
    {
        assert(m.annotations[k as int] == module.annotations@[k as int]@);
        let inst = &module.annotations[k];
        if inst.opcode() == opcode::DECORATE {
            let names = check_names_pair(pairs, inst);
            if inst.operands.len() <= 1 {
                if names || !opts.lib {
                    assert(!pair_readable(all, inst@) || (!opts.lib && !links_pair(all, inst@)
                        && !export_readable(inst@)));
                    return false;
                }
            } else if !opts.lib && !names && inst.operands.len() <= 3 && symbols::check_linkage(inst) {
                assert(!links_pair(all, inst@) && !export_readable(inst@));
                return false;
            }
        }
    }
    for k in 0..module.capabilities.len()
        invariant
            m == module@,
            forall|j: int| 0 <= j < k ==> capability_readable(#[trigger] m.capabilities[j]),
    {
        assert(m.capabilities[k as int] == module.capabilities@[k as int]@);
        let inst = &module.capabilities[k];
        if inst.opcode() == opcode::CAPABILITY && inst.operands.len() == 0 {
            assert(!capability_readable(m.capabilities[k as int]));
            return false;
        }
    }
    true
}

} // verus!
