//! Which modules can be linked, in terms of the operands and ids that their instructions
//! have.

use vstd::prelude::*;

use crate::defs;
use crate::effects;
use crate::error::ErrorView;
use crate::globals;
use crate::ids;
use crate::link;
use crate::linkage;
use crate::linkage::Options;
use crate::model;
use crate::model::{FunctionView, InstView, ModuleView};
use crate::opcode;
use crate::pairing;
use crate::rename;
use crate::signature;
use crate::symbols;
use crate::symbols::{InfoView, PairView, SymbolView};

verus! {

/// Whether the first function of which `d` may be the definition is defined by it: all
/// functions before it have a definition.
pub open spec fn is_function(functions: Seq<FunctionView>, d: InstView) -> bool {
    exists|k: int|
        {
            &&& 0 <= k < functions.len()
            &&& (#[trigger] functions[k]).def == Some(d)
            &&& forall|j: int| 0 <= j < k ==> (#[trigger] functions[j]).def is Some
        }
}

/// Whether a decoration that marks a symbol has what it must have: the id of a variable
/// with a type or of a function with a function type, a name, and what the symbol is
/// marked as.
pub open spec fn is_well_marked(m: ModuleView, defs: Map<u32, InstView>, i: InstView) -> bool {
    let d = defs[i.operands[0]->IdRef_0];
    &&& i.operands.len() > 3
    &&& i.operands[0] is IdRef
    &&& i.operands[2] is LiteralString
    &&& defs.contains_key(i.operands[0]->IdRef_0)
    &&& exists|t: u32| #[trigger] pairing::has_type(d, t)
    &&& d.opcode == opcode::FUNCTION ==> is_function(m.functions, d)
}

proof fn lemma_is_function(functions: Seq<FunctionView>, d: InstView)
    ensures
        symbols::function_with(functions, d) is Some <==> is_function(functions, d),
    decreases functions.len(),
{
    if functions.len() > 0 {
        let rest = functions.drop_first();
        lemma_is_function(rest, d);
        if functions[0].def == Some(d) {
            assert(is_function(functions, d));
        } else if functions[0].def is Some {
            if is_function(rest, d) {
                let k = choose|k: int|
                    {
                        &&& 0 <= k < rest.len()
                        &&& (#[trigger] rest[k]).def == Some(d)
                        &&& forall|j: int| 0 <= j < k ==> (#[trigger] rest[j]).def is Some
                    };
                assert(functions[k + 1] == rest[k]);
                assert forall|j: int| 0 <= j < k + 1 implies (#[trigger] functions[j]).def is Some by {
                    if j > 0 {
                        assert(rest[j - 1] == functions[j]);
                    }
                }
            }
            if is_function(functions, d) {
                let k = choose|k: int|
                    {
                        &&& 0 <= k < functions.len()
                        &&& (#[trigger] functions[k]).def == Some(d)
                        &&& forall|j: int| 0 <= j < k ==> (#[trigger] functions[j]).def is Some
                    };
                assert(rest[k - 1] == functions[k]);
                assert forall|j: int| 0 <= j < k - 1 implies (#[trigger] rest[j]).def is Some by {
                    assert(functions[j + 1] == rest[j]);
                }
            }
        } else {
            if is_function(functions, d) {
                let k = choose|k: int|
                    {
                        &&& 0 <= k < functions.len()
                        &&& (#[trigger] functions[k]).def == Some(d)
                        &&& forall|j: int| 0 <= j < k ==> (#[trigger] functions[j]).def is Some
                    };
                assert(functions[0].def is Some);
            }
        }
    }
}

proof fn lemma_well_marked(m: ModuleView, defs: Map<u32, InstView>, i: InstView)
    ensures
        symbols::symbol_of(m, defs, i) is Some <==> is_well_marked(m, defs, i),
{
    let d = defs[i.operands[0]->IdRef_0];
    lemma_is_function(m.functions, d);
    if d.opcode == opcode::VARIABLE && d.result_type is Some {
        assert(pairing::has_type(d, d.result_type->0));
    }
    if d.opcode == opcode::FUNCTION && d.operands.len() > 1 && d.operands[1] is IdRef {
        assert(pairing::has_type(d, d.operands[1]->IdRef_0));
    }
}

proof fn lemma_symbols_of(m: ModuleView, defs: Map<u32, InstView>, annotations: Seq<InstView>)
    ensures
        symbols::symbols_of(m, defs, annotations) is Some <==> forall|k: int|
            0 <= k < annotations.len() ==> {
                &&& (#[trigger] annotations[k]).opcode == opcode::DECORATE
                    ==> annotations[k].operands.len() > 1
                &&& effects::marks_symbol(annotations[k]) ==> is_well_marked(
                    m,
                    defs,
                    annotations[k],
                )
            },
    decreases annotations.len(),
{
    if annotations.len() > 0 {
        let rest = annotations.drop_last();
        lemma_symbols_of(m, defs, rest);
        lemma_well_marked(m, defs, annotations.last());
        assert(annotations[annotations.len() - 1] == annotations.last());
        assert forall|k: int| 0 <= k < rest.len() implies rest[k] == #[trigger] annotations[k] by {}
    }
}

/// The imports and exports of a module can be read off exactly where each decoration says
/// what it decorates with and each that marks a symbol has what it must have.
pub proof fn law_symbols_readable(m: ModuleView, defs: Map<u32, InstView>)
    ensures
        symbols::symbols_readable(m, defs) <==> forall|k: int|
            0 <= k < m.annotations.len() ==> {
                &&& (#[trigger] m.annotations[k]).opcode == opcode::DECORATE
                    ==> m.annotations[k].operands.len() > 1
                &&& effects::marks_symbol(m.annotations[k]) ==> is_well_marked(
                    m,
                    defs,
                    m.annotations[k],
                )
            },
{
    lemma_symbols_of(m, defs, m.annotations);
}

/// Whether `id` is defined as a type of which all declarations have what they must have.
pub open spec fn is_type(defs: Map<u32, InstView>, id: u32) -> bool {
    &&& defs.contains_key(id)
    &&& exists|depth: nat| #[trigger] signature::well_declared(defs, defs[id], depth)
}

/// Whether the parameters that two symbols both have are declared alike.
pub open spec fn take_the_same(a: SymbolView, b: SymbolView) -> bool {
    forall|k: int|
        0 <= k < a.parameters.len() && k < b.parameters.len() ==> {
            &&& (#[trigger] a.parameters[k]).opcode == b.parameters[k].opcode
            &&& a.parameters[k].operands == b.parameters[k].operands
        }
}

/// A pair can be compared exactly where both types can be read, and where these are the
/// same, the parameters agree.
pub proof fn law_comparable(defs: Map<u32, InstView>, p: PairView)
    ensures
        symbols::checked_pair(defs, p) is Some <==> {
            &&& is_type(defs, p.import.type_id)
            &&& is_type(defs, p.export.type_id)
            &&& (forall|depth: nat| #[trigger]
                signature::alike(
                    defs,
                    defs[p.import.type_id],
                    defs[p.export.type_id],
                    depth,
                )) ==> take_the_same(p.import, p.export)
        },
{
    let a = defs[p.import.type_id];
    let b = defs[p.export.type_id];
    lemma_type_readable(defs, a);
    lemma_type_readable(defs, b);
    if signature::type_readable(defs, a) && signature::type_readable(defs, b) {
        if signature::types_match(defs, a, b) {
            assert forall|depth: nat| #[trigger] signature::alike(defs, a, b, depth) by {
                signature::law_matching_types_are_alike(defs, a, b, depth);
            }
        } else if forall|depth: nat| #[trigger] signature::alike(defs, a, b, depth) {
            signature::law_alike_types_match(defs, a, b);
        }
    }
    if symbols::parameters_agree(p.import, p.export) {
        assert forall|k: int|
            0 <= k < p.import.parameters.len() && k < p.export.parameters.len() implies {
            &&& (#[trigger] p.import.parameters[k]).opcode == p.export.parameters[k].opcode
            &&& p.import.parameters[k].operands == p.export.parameters[k].operands
        } by {
            assert(symbols::type_identical(p.import.parameters[k], p.export.parameters[k]));
        }
    }
    if take_the_same(p.import, p.export) {
        assert(symbols::parameters_agree(p.import, p.export));
    }
}

proof fn lemma_type_readable(defs: Map<u32, InstView>, i: InstView)
    ensures
        signature::type_readable(defs, i) <==> exists|depth: nat| #[trigger]
            signature::well_declared(defs, i, depth),
{
    if signature::type_readable(defs, i) {
        let depth = choose|depth: nat| #[trigger] signature::tree_within(defs, i, depth) is Some;
        signature::law_readable(defs, i, depth);
        assert(signature::well_declared(defs, i, depth));
    }
    if exists|depth: nat| #[trigger] signature::well_declared(defs, i, depth) {
        let depth = choose|depth: nat| #[trigger] signature::well_declared(defs, i, depth);
        signature::law_readable(defs, i, depth);
        assert(signature::tree_within(defs, i, depth) is Some);
    }
}

/// Whether the instructions of a resolved module tell what serves linking: functions have
/// ids where some are to be taken out, decorations have what they decorate with, and those
/// that mark symbols say how, unless they mark a symbol of a pair.
pub open spec fn tells_linkage(a: ModuleView, pairs: Seq<PairView>, lib: bool) -> bool {
    &&& pairs.len() > 0 ==> forall|k: int|
        0 <= k < a.functions.len() ==> (#[trigger] a.functions[k]).def is Some && (
        a.functions[k].def->0).result_id is Some
    &&& forall|k: int|
        0 <= k < a.annotations.len() ==> tells_decoration(#[trigger] a.annotations[k], pairs, lib)
    &&& forall|k: int|
        0 <= k < a.capabilities.len() && (#[trigger] a.capabilities[k]).opcode
            == opcode::CAPABILITY ==> a.capabilities[k].operands.len() > 0
}

/// Whether a decoration is about a symbol of a pair.
pub open spec fn is_on_pair(i: InstView, pairs: Seq<PairView>) -> bool {
    &&& i.operands.len() > 0
    &&& i.operands[0] is IdRef
    &&& effects::is_import_of(pairs, i.operands[0]->IdRef_0) || effects::is_export_of(
        pairs,
        i.operands[0]->IdRef_0,
    )
}

/// Whether a decoration has the operands that tell whether it serves linking.
pub open spec fn tells_decoration(i: InstView, pairs: Seq<PairView>, lib: bool) -> bool {
    &&& i.opcode == opcode::DECORATE && (!lib || is_on_pair(i, pairs)) ==> i.operands.len() > 1
    &&& !lib && effects::marks_symbol(i) && !is_on_pair(i, pairs) ==> i.operands.len() > 3
}

proof fn lemma_tells_decoration(i: InstView, pairs: Seq<PairView>, lib: bool)
    ensures
        tells_decoration(i, pairs, lib) <==> {
            &&& linkage::pair_readable(pairs, i)
            &&& !lib ==> linkage::links_pair(pairs, i) || linkage::export_readable(i)
        },
{
    lemma_on_pair(i, pairs);
}

proof fn lemma_on_pair(i: InstView, pairs: Seq<PairView>)
    ensures
        linkage::names_pair(pairs, i) <==> is_on_pair(i, pairs),
{
    if i.operands.len() > 0 && i.operands[0] is IdRef {
        let id = i.operands[0]->IdRef_0;
        if linkage::is_paired(pairs, id) {
            let k = choose|k: int|
                0 <= k < pairs.len() && ((#[trigger] pairs[k]).import.id == id
                    || pairs[k].export.id == id);
            assert(pairs[k].import.id == id || pairs[k].export.id == id);
        }
        if effects::is_import_of(pairs, id) {
            let k = choose|k: int| 0 <= k < pairs.len() && (#[trigger] pairs[k]).import.id == id;
            assert(pairs[k].import.id == id);
        }
        if effects::is_export_of(pairs, id) {
            let k = choose|k: int| 0 <= k < pairs.len() && (#[trigger] pairs[k]).export.id == id;
            assert(pairs[k].export.id == id);
        }
    }
}

/// What serves linking can be taken out of a module exactly where its instructions tell
/// what does.
pub proof fn law_linkage_readable(a: ModuleView, pairs: Seq<PairView>, lib: bool)
    ensures
        linkage::linkage_readable(a, pairs, lib) <==> tells_linkage(a, pairs, lib),
{
    let first = |i: InstView| linkage::pair_readable(pairs, i);
    let second = |i: InstView| linkage::links_pair(pairs, i) || linkage::export_readable(i);
    assert forall|k: int| 0 <= k < a.annotations.len() implies (tells_decoration(
        #[trigger] a.annotations[k],
        pairs,
        lib,
    ) <==> first(a.annotations[k]) && (!lib ==> second(a.annotations[k]))) by {
        lemma_tells_decoration(a.annotations[k], pairs, lib);
    }
    if linkage::linkage_readable(a, pairs, lib) {
        let named = |f: FunctionView| linkage::is_named(f);
        let told = |i: InstView| linkage::capability_readable(i);
        assert forall|k: int| 0 <= k < a.annotations.len() implies tells_decoration(
            #[trigger] a.annotations[k],
            pairs,
            lib,
        ) by {
            assert(first(a.annotations[k]));
            assert(!lib ==> second(a.annotations[k]));
        }
        assert forall|k: int|
            0 <= k < a.capabilities.len() && (#[trigger] a.capabilities[k]).opcode
                == opcode::CAPABILITY implies a.capabilities[k].operands.len() > 0 by {
            assert(told(a.capabilities[k]));
        }
        if pairs.len() > 0 {
            assert forall|k: int| 0 <= k < a.functions.len() implies (
            #[trigger] a.functions[k]).def is Some && (a.functions[k].def->0).result_id is Some by {
                assert(named(a.functions[k]));
            }
        }
    }
}

/// Declarations can be put in order exactly where each id among `left` is settled at some
/// time: none of them refer to each other in a circle.
pub proof fn law_exhausted(decls: Seq<InstView>, left: Set<u32>)
    requires
        left.finite(),
    ensures
        globals::exhausted(decls, left) <==> forall|x: u32| #[trigger]
            left.contains(x) ==> exists|n: nat| #[trigger]
                globals::is_settled(decls, left, x, n),
    decreases left.len(),
{
    let first = globals::ready(decls, left);
    let rest = left.difference(first);
    globals::lemma_round(decls, left);
    assert forall|p: u32| left.contains(p) implies (#[trigger] first.contains(p)
        <==> globals::is_settled(decls, left, p, 0)) by {
        if globals::is_settled(decls, left, p, 0) {
            assert forall|q: u32| #[trigger] left.contains(q) implies !globals::depends(
                decls,
                q,
                p,
            ) by {}
        }
    }
    if left == Set::<u32>::empty() {
    } else if first == Set::<u32>::empty() {
        assert(exists|x: u32| left.contains(x)) by {
            if forall|x: u32| !left.contains(x) {
                assert(left =~= Set::<u32>::empty());
            }
        }
        let x = choose|x: u32| left.contains(x);
        assert forall|y: u32, n: nat| left.contains(y) implies !#[trigger] globals::is_settled(
            decls,
            left,
            y,
            n,
        ) by {
            lemma_never_settled(decls, left, y, n);
        }
    } else {
        law_exhausted(decls, rest);
        if globals::exhausted(decls, left) {
            assert forall|x: u32| #[trigger] left.contains(x) implies exists|n: nat| #[trigger]
                globals::is_settled(decls, left, x, n) by {
                if first.contains(x) {
                    assert(globals::is_settled(decls, left, x, 0));
                } else {
                    assert(rest.contains(x));
                    let n = choose|n: nat| #[trigger] globals::is_settled(decls, rest, x, n);
                    globals::lemma_settled_later(decls, left, x, n);
                    assert(globals::is_settled(decls, left, x, n + 1));
                }
            }
        }
        if forall|x: u32| #[trigger]
            left.contains(x) ==> exists|n: nat| #[trigger]
                globals::is_settled(decls, left, x, n) {
            assert forall|x: u32| #[trigger] rest.contains(x) implies exists|n: nat| #[trigger]
                globals::is_settled(decls, rest, x, n) by {
                assert(left.contains(x) && !first.contains(x));
                let n = choose|n: nat| #[trigger] globals::is_settled(decls, left, x, n);
                assert(n > 0);
                let k = (n - 1) as nat;
                globals::lemma_settled_later(decls, left, x, k);
                assert(globals::is_settled(decls, rest, x, k));
            }
        }
    }
}

/// Where every id refers to another, none is ever settled.
proof fn lemma_never_settled(decls: Seq<InstView>, left: Set<u32>, x: u32, n: nat)
    requires
        left.contains(x),
        globals::ready(decls, left) == Set::<u32>::empty(),
    ensures
        !globals::is_settled(decls, left, x, n),
    decreases n,
{
    let first = globals::ready(decls, left);
    assert(!first.contains(x));
    let p = choose|p: u32| #[trigger] left.contains(p) && globals::depends(decls, p, x);
    assert(left.contains(p) && globals::depends(decls, p, x));
    if n > 0 {
        lemma_never_settled(decls, left, p, (n - 1) as nat);
    }
}

/// The ids of a module in order are the ids that occur in it, each once.
pub proof fn law_ids_in_order(m: ModuleView, id: u32)
    ensures
        rename::ids_in_order(m).no_duplicates(),
        rename::ids_in_order(m).contains(id) <==> exists|k: int, p: int| #[trigger]
            ids::stands_at(m, k, p, id),
{
    let all = m.all_insts();
    rename::lemma_first_seen(rename::id_list(all));
    rename::lemma_id_list(all, id);
    if rename::occurs(m, id) {
        let k = choose|k: int| 0 <= k < all.len() && (#[trigger] all[k]).mentions(id);
        let p = ids::lemma_mentioned(all[k], id);
        assert(ids::stands_at(m, k, p, id));
    }
    if exists|k: int, p: int| #[trigger] ids::stands_at(m, k, p, id) {
        let (k, p) = choose|k: int, p: int| #[trigger] ids::stands_at(m, k, p, id);
        if p >= 2 {
            assert(all[k].operands[p - 2].id() == Some(id));
            assert(all[k].operand_uses(id));
        }
        assert(all[k].mentions(id));
    }
}

/// Whether a merged module whose imports and exports match can be linked: capabilities and
/// parameters of imports have what they must have, what serves linking can be told, the
/// declarations that are left refer to defined ids and in no circle, and there are not too
/// many ids.
pub open spec fn can_combine(m: ModuleView, info: InfoView, lib: bool) -> bool {
    let a = link::resolved(m, info);
    let b = link::cleaned(a, info.pairs, lib);
    let left = globals::involved(b.types_global_values);
    &&& forall|k: int|
        0 <= k < m.capabilities.len() ==> (#[trigger] m.capabilities[k]).operands.len() > 0
    &&& forall|k: int, j: int|
        0 <= k < info.imports.len() && 0 <= j < info.imports[k].parameters.len() ==> (
        #[trigger] info.imports[k].parameters[j]).result_id is Some
    &&& tells_linkage(a, info.pairs, lib)
    &&& forall|x: u32| #[trigger]
        left.contains(x) ==> {
            &&& exists|n: nat| #[trigger]
                globals::is_settled(b.types_global_values, left, x, n)
            &&& exists|k: int|
                0 <= k < b.all_insts().len() && (#[trigger] b.all_insts()[k]).result_id == Some(x)
        }
    &&& rename::ids_in_order(globals::with_sorted_globals(b)).len() < u32::MAX
}

/// A merged module whose imports and exports match is linked exactly where it can be.
pub proof fn law_combined(m: ModuleView, info: InfoView, lib: bool)
    ensures
        link::combined(m, info, lib) is Some <==> can_combine(m, info, lib),
{
    let a = link::resolved(m, info);
    let b = link::cleaned(a, info.pairs, lib);
    let decls = b.types_global_values;
    let left = globals::involved(decls);
    law_linkage_readable(a, info.pairs, lib);
    globals::lemma_involved_finite(decls);
    law_exhausted(decls, left);
    let named = |s: SymbolView| linkage::has_named_parameters(s);
    if model::each(info.imports, named) {
        assert forall|k: int, j: int|
            0 <= k < info.imports.len() && 0 <= j < info.imports[k].parameters.len() implies (
        #[trigger] info.imports[k].parameters[j]).result_id is Some by {
            assert(named(info.imports[k]));
            let p = |p: InstView| p.result_id is Some;
            assert(p(info.imports[k].parameters[j]));
        }
    }
    if can_combine(m, info, lib) {
        assert forall|k: int| 0 <= k < info.imports.len() implies named(#[trigger] info.imports[k]) by {
            let p = |p: InstView| p.result_id is Some;
            assert forall|j: int| 0 <= j < info.imports[k].parameters.len() implies p(
                #[trigger] info.imports[k].parameters[j],
            ) by {
                assert(info.imports[k].parameters[j].result_id is Some);
            }
        }
        assert forall|x: u32| #[trigger] left.contains(x) implies defs::definitions(
            b,
        ).contains_key(x) by {
            let k = choose|k: int|
                0 <= k < b.all_insts().len() && (#[trigger] b.all_insts()[k]).result_id == Some(x);
            assert(defs::has_def(b.all_insts(), x));
        }
        assert(globals::exhausted(decls, left)) by {
            assert forall|x: u32| #[trigger] left.contains(x) implies exists|n: nat| #[trigger]
                globals::is_settled(decls, left, x, n) by {}
        }
    }
    if link::combined(m, info, lib) is Some {
        assert forall|x: u32| #[trigger] left.contains(x) implies {
            &&& exists|n: nat| #[trigger]
                globals::is_settled(b.types_global_values, left, x, n)
            &&& exists|k: int|
                0 <= k < b.all_insts().len() && (#[trigger] b.all_insts()[k]).result_id == Some(x)
        } by {
            assert(defs::definitions(b).contains_key(x));
            assert(defs::has_def(b.all_insts(), x));
        }
    }
}

/// Modules can be linked, or be found not to match, exactly where they can be merged, their
/// symbols can be read off, and either these do not match or the types can be compared and
/// what is merged can be linked.
pub proof fn law_linkable(inputs: Seq<ModuleView>, opts: Options)
    ensures
        ({
            let m = link::merged(inputs);
            let ds = defs::definitions(m);
            let info = symbols::info_of(m, ds, opts.partial);
            link::linkable(inputs, opts) <==> {
                &&& link::joinable(inputs)
                &&& symbols::symbols_readable(m, ds)
                &&& info matches Ok(info) ==> {
                    ||| mismatches(ds, info.pairs)
                    ||| {
                        &&& forall|k: int|
                            0 <= k < info.pairs.len() ==> symbols::checked_pair(
                                ds,
                                #[trigger] info.pairs[k],
                            ) == Some(Ok::<(), ErrorView>(()))
                        &&& can_combine(m, info, opts.lib)
                    }
                }
            }
        }),
{
    let m = link::merged(inputs);
    let ds = defs::definitions(m);
    let info = symbols::info_of(m, ds, opts.partial);
    if info is Ok {
        symbols::law_checked_pairs(ds, info->Ok_0.pairs);
        lemma_mismatches(ds, info->Ok_0.pairs);
        law_combined(m, info->Ok_0, opts.lib);
    }
}

/// Whether the first pair that does not pass the comparison of types fails it.
pub open spec fn mismatches(ds: Map<u32, InstView>, pairs: Seq<PairView>) -> bool {
    exists|k: int|
        {
            &&& 0 <= k < pairs.len()
            &&& #[trigger] symbols::checked_pair(ds, pairs[k]) matches Some(Err(_))
            &&& forall|j: int|
                0 <= j < k ==> symbols::checked_pair(ds, #[trigger] pairs[j]) == Some(
                    Ok::<(), ErrorView>(()),
                )
        }
}

proof fn lemma_mismatches(ds: Map<u32, InstView>, pairs: Seq<PairView>)
    ensures
        symbols::checked_pairs(ds, pairs) matches Some(Err(_)) <==> mismatches(ds, pairs),
    decreases pairs.len(),
{
    if pairs.len() > 0 {
        let rest = pairs.drop_last();
        let n = pairs.len() - 1;
        lemma_mismatches(ds, rest);
        symbols::law_checked_pairs(ds, rest);
        assert(pairs[n] == pairs.last());
        assert forall|k: int| 0 <= k < n implies rest[k] == #[trigger] pairs[k] by {}
        if mismatches(ds, rest) {
            let k = choose|k: int|
                {
                    &&& 0 <= k < rest.len()
                    &&& #[trigger] symbols::checked_pair(ds, rest[k]) matches Some(Err(_))
                    &&& forall|j: int|
                        0 <= j < k ==> symbols::checked_pair(ds, #[trigger] rest[j]) == Some(
                            Ok::<(), ErrorView>(()),
                        )
                };
            assert(symbols::checked_pair(ds, pairs[k]) matches Some(Err(_)));
            assert forall|j: int| 0 <= j < k implies symbols::checked_pair(ds, #[trigger] pairs[j])
                == Some(Ok::<(), ErrorView>(())) by {
                assert(rest[j] == pairs[j]);
            }
        }
        if symbols::checked_pairs(ds, rest) == Some(Ok::<(), ErrorView>(())) {
            assert forall|j: int| 0 <= j < n implies symbols::checked_pair(ds, #[trigger] pairs[j])
                == Some(Ok::<(), ErrorView>(())) by {
                assert(rest[j] == pairs[j]);
            }
        }
        if mismatches(ds, pairs) {
            let k = choose|k: int|
                {
                    &&& 0 <= k < pairs.len()
                    &&& #[trigger] symbols::checked_pair(ds, pairs[k]) matches Some(Err(_))
                    &&& forall|j: int|
                        0 <= j < k ==> symbols::checked_pair(ds, #[trigger] pairs[j]) == Some(
                            Ok::<(), ErrorView>(()),
                        )
                };
            if k < n {
                assert(symbols::checked_pair(ds, rest[k]) matches Some(Err(_)));
                assert forall|j: int| 0 <= j < k implies symbols::checked_pair(
                    ds,
                    #[trigger] rest[j],
                ) == Some(Ok::<(), ErrorView>(())) by {
                    assert(rest[j] == pairs[j]);
                }
            } else {
                assert forall|j: int| 0 <= j < n implies symbols::checked_pair(
                    ds,
                    #[trigger] rest[j],
                ) == Some(Ok::<(), ErrorView>(())) by {
                    assert(rest[j] == pairs[j]);
                }
            }
        }
    }
}

} // verus!
