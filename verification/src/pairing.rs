//! Which imports and exports are paired, in terms of the decorations that mark them
//! and of the types that they are declared with.

use vstd::prelude::*;

use crate::bridge;
use crate::defs;
use crate::effects;
use crate::error::ErrorView;
use crate::laws;
use crate::link;
use crate::linkage::Options;
use crate::merging;
use crate::model::{EnumerantKind, FunctionView, InstView, ModuleView, OperandView};
use crate::opcode;
use crate::signature;
use crate::symbols;
use crate::symbols::{PairView, SymbolView};

verus! {

/// Whether a decoration marks a symbol as imported. Any other that marks a symbol marks
/// it as exported.
pub open spec fn is_asked_for(i: InstView) -> bool {
    i.operands.len() > 3 && effects::is_the(
        i.operands[3],
        EnumerantKind::LinkageType,
        opcode::LINKAGE_IMPORT,
    )
}

/// Whether a decoration marks the symbol `id`, under `name`, as imported or else as
/// exported.
pub open spec fn marks(i: InstView, id: u32, name: Seq<char>, import: bool) -> bool {
    &&& effects::marks_symbol(i)
    &&& i.operands.len() > 3
    &&& i.operands[0] == OperandView::IdRef(id)
    &&& i.operands[2] == OperandView::LiteralString(name)
    &&& is_asked_for(i) == import
}

/// Whether a decoration marks a symbol under `name` as exported.
pub open spec fn offers(i: InstView, name: Seq<char>) -> bool {
    exists|id: u32| #[trigger] marks(i, id, name, false)
}

/// Whether `t` is the type of the variable or function that an instruction defines.
pub open spec fn has_type(d: InstView, t: u32) -> bool {
    ||| d.opcode == opcode::VARIABLE && d.result_type == Some(t)
    ||| d.opcode == opcode::FUNCTION && d.operands.len() > 1 && d.operands[1]
        == OperandView::IdRef(t)
}

/// Whether a symbol is what decoration `i` says: it has the id and the name that are
/// given there, the type of what the id is defined as, and the parameters of the
/// function that it is.
pub open spec fn is_read_from(
    m: ModuleView,
    defs: Map<u32, InstView>,
    i: InstView,
    s: SymbolView,
    import: bool,
) -> bool {
    let d = defs[s.id];
    &&& marks(i, s.id, s.name, import)
    &&& defs.contains_key(s.id)
    &&& has_type(d, s.type_id)
    &&& d.opcode == opcode::VARIABLE ==> s.parameters.len() == 0
    &&& d.opcode == opcode::FUNCTION ==> exists|k: int|
        0 <= k < m.functions.len() && (#[trigger] m.functions[k]).def == Some(d)
            && m.functions[k].parameters == s.parameters
}

/// Whether symbols are those that decorations mark as imported, or else as exported, one
/// for each and in their order.
pub open spec fn are_read_from(
    m: ModuleView,
    defs: Map<u32, InstView>,
    annotations: Seq<InstView>,
    s: Seq<SymbolView>,
    import: bool,
    places: Seq<int>,
) -> bool {
    &&& places.len() == s.len()
    &&& forall|k: int|
        0 <= k < s.len() ==> 0 <= #[trigger] places[k] < annotations.len() && is_read_from(
            m,
            defs,
            annotations[places[k]],
            s[k],
            import,
        )
    &&& forall|j: int, k: int| 0 <= j < k < places.len() ==> places[j] < places[k]
    &&& forall|a: int|
        0 <= a < annotations.len() && effects::marks_symbol(#[trigger] annotations[a])
            && is_asked_for(annotations[a]) == import ==> places.contains(a)
}

proof fn lemma_function_with(functions: Seq<FunctionView>, d: InstView)
    ensures
        symbols::function_with(functions, d) matches Some(f) ==> exists|k: int|
            0 <= k < functions.len() && (#[trigger] functions[k]).def == Some(d) && functions[k]
                == f,
    decreases functions.len(),
{
    if functions.len() > 0 {
        let rest = functions.drop_first();
        lemma_function_with(rest, d);
        if functions[0].def is Some && functions[0].def != Some(d) {
            if symbols::function_with(rest, d) is Some {
                let f = symbols::function_with(rest, d)->0;
                let k = choose|k: int|
                    0 <= k < rest.len() && (#[trigger] rest[k]).def == Some(d) && rest[k] == f;
                assert(functions[k + 1] == rest[k]);
            }
        }
    }
}

proof fn lemma_read_from(m: ModuleView, defs: Map<u32, InstView>, i: InstView)
    requires
        effects::marks_symbol(i),
        symbols::symbol_of(m, defs, i) is Some,
    ensures
        is_read_from(m, defs, i, symbols::symbol_of(m, defs, i)->0, is_asked_for(i)),
{
    let d = defs[i.operands[0]->IdRef_0];
    lemma_function_with(m.functions, d);
}

proof fn lemma_read_push(
    m: ModuleView,
    defs: Map<u32, InstView>,
    annotations: Seq<InstView>,
    s: Seq<SymbolView>,
    import: bool,
    places: Seq<int>,
    i: InstView,
)
    requires
        are_read_from(m, defs, annotations, s, import, places),
    ensures
        effects::marks_symbol(i) && is_asked_for(i) == import ==> forall|x: SymbolView|
            is_read_from(m, defs, i, x, import) ==> #[trigger] are_read_from(
                m,
                defs,
                annotations.push(i),
                s.push(x),
                import,
                places.push(annotations.len() as int),
            ),
        !(effects::marks_symbol(i) && is_asked_for(i) == import) ==> are_read_from(
            m,
            defs,
            annotations.push(i),
            s,
            import,
            places,
        ),
{
    let all = annotations.push(i);
    let n = annotations.len() as int;
    if effects::marks_symbol(i) && is_asked_for(i) == import {
        let more = places.push(n);
        assert forall|x: SymbolView| is_read_from(m, defs, i, x, import) implies #[trigger] are_read_from(
            m,
            defs,
            all,
            s.push(x),
            import,
            more,
        ) by {
            let t = s.push(x);
            assert forall|k: int| 0 <= k < t.len() implies 0 <= #[trigger] more[k] < all.len()
                && is_read_from(m, defs, all[more[k]], t[k], import) by {
                if k < n && k < s.len() {
                    assert(more[k] == places[k]);
                }
            }
            assert forall|a: int|
                0 <= a < all.len() && effects::marks_symbol(#[trigger] all[a]) && is_asked_for(
                    all[a],
                ) == import implies more.contains(a) by {
                if a < n {
                    assert(all[a] == annotations[a]);
                    let k = choose|k: int| 0 <= k < places.len() && places[k] == a;
                    assert(more[k] == a);
                } else {
                    assert(more[places.len() as int] == a);
                }
            }
        }
    } else {
        assert forall|k: int| 0 <= k < s.len() implies 0 <= #[trigger] places[k] < all.len()
            && is_read_from(m, defs, all[places[k]], s[k], import) by {
            assert(all[places[k]] == annotations[places[k]]);
        }
        assert forall|a: int|
            0 <= a < all.len() && effects::marks_symbol(#[trigger] all[a]) && is_asked_for(all[a])
                == import implies places.contains(a) by {
            assert(all[a] == annotations[a]);
        }
    }
}

proof fn lemma_symbols_read(
    m: ModuleView,
    defs: Map<u32, InstView>,
    annotations: Seq<InstView>,
) -> (places: (Seq<int>, Seq<int>))
    requires
        symbols::symbols_of(m, defs, annotations) is Some,
    ensures
        are_read_from(
            m,
            defs,
            annotations,
            (symbols::symbols_of(m, defs, annotations)->0).0,
            true,
            places.0,
        ),
        are_read_from(
            m,
            defs,
            annotations,
            (symbols::symbols_of(m, defs, annotations)->0).1,
            false,
            places.1,
        ),
    decreases annotations.len(),
{
    if annotations.len() == 0 {
        (Seq::empty(), Seq::empty())
    } else {
        let rest = annotations.drop_last();
        let i = annotations.last();
        let (imports, exports) = symbols::symbols_of(m, defs, rest)->0;
        let (a, b) = lemma_symbols_read(m, defs, rest);
        assert(rest.push(i) =~= annotations);
        lemma_read_push(m, defs, rest, imports, true, a, i);
        lemma_read_push(m, defs, rest, exports, false, b, i);
        if effects::marks_symbol(i) {
            lemma_read_from(m, defs, i);
            if is_asked_for(i) {
                (a.push(rest.len() as int), b)
            } else {
                (a, b.push(rest.len() as int))
            }
        } else {
            (a, b)
        }
    }
}

/// The imports of a module are what its decorations mark as imported, and its exports
/// what they mark as exported.
pub proof fn law_symbols(m: ModuleView, defs: Map<u32, InstView>)
    requires
        symbols::symbols_readable(m, defs),
    ensures
        exists|places: Seq<int>| #[trigger]
            are_read_from(
                m,
                defs,
                m.annotations,
                symbols::imports_of(m, defs),
                true,
                places,
            ),
        exists|places: Seq<int>| #[trigger]
            are_read_from(
                m,
                defs,
                m.annotations,
                symbols::exports_of(m, defs),
                false,
                places,
            ),
{
    let places = lemma_symbols_read(m, defs, m.annotations);
    assert(are_read_from(
        m,
        defs,
        m.annotations,
        symbols::imports_of(m, defs),
        true,
        places.0,
    ));
    assert(are_read_from(
        m,
        defs,
        m.annotations,
        symbols::exports_of(m, defs),
        false,
        places.1,
    ));
}

/// How an instruction reads without its id.
pub open spec fn text_of(i: InstView) -> Seq<char> {
    bridge::disassembly(i.opcode, i.result_type, None, i.operands)
}

/// A pair passes the comparison only if the type of the import and that of the export
/// are the same in structure, whatever they are types of, and the parameters that both
/// have are declared alike. Where the comparison fails, the types are not the same, and
/// the error names the import and both types.
pub proof fn law_checked_pair(defs: Map<u32, InstView>, p: PairView, depth: nat)
    ensures
        symbols::checked_pair(defs, p) == Some(Ok::<(), ErrorView>(())) ==> {
            &&& defs.contains_key(p.import.type_id)
            &&& defs.contains_key(p.export.type_id)
            &&& signature::alike(defs, defs[p.import.type_id], defs[p.export.type_id], depth)
            &&& forall|k: int|
                0 <= k < p.import.parameters.len() && k < p.export.parameters.len() ==> {
                    &&& (#[trigger] p.import.parameters[k]).opcode == p.export.parameters[k].opcode
                    &&& p.import.parameters[k].operands == p.export.parameters[k].operands
                }
        },
        symbols::checked_pair(defs, p) matches Some(Err(e)) ==> {
            &&& defs.contains_key(p.import.type_id)
            &&& defs.contains_key(p.export.type_id)
            &&& e matches ErrorView::TypeMismatch { name, import_type, export_type } && {
                &&& name == p.import.name
                &&& import_type == text_of(defs[p.import.type_id])
                &&& export_type == text_of(defs[p.export.type_id])
            }
            &&& exists|d: nat|
                !#[trigger] signature::alike(
                    defs,
                    defs[p.import.type_id],
                    defs[p.export.type_id],
                    d,
                )
        },
{
    let a = defs[p.import.type_id];
    let b = defs[p.export.type_id];
    match symbols::checked_pair(defs, p) {
        Some(Ok(_)) => {
            signature::law_matching_types_are_alike(defs, a, b, depth);
            assert forall|k: int|
                0 <= k < p.import.parameters.len() && k < p.export.parameters.len() implies {
                &&& (#[trigger] p.import.parameters[k]).opcode == p.export.parameters[k].opcode
                &&& p.import.parameters[k].operands == p.export.parameters[k].operands
            } by {
                assert(symbols::type_identical(p.import.parameters[k], p.export.parameters[k]));
            }
        },
        Some(Err(e)) => {
            if forall|d: nat| #[trigger] signature::alike(defs, a, b, d) {
                signature::law_alike_types_match(defs, a, b);
            }
        },
        None => {},
    }
}

/// How many exports have a name, in terms of the decorations.
proof fn lemma_offers(
    m: ModuleView,
    defs: Map<u32, InstView>,
    annotations: Seq<InstView>,
    exports: Seq<SymbolView>,
    places: Seq<int>,
    name: Seq<char>,
)
    requires
        are_read_from(m, defs, annotations, exports, false, places),
    ensures
        symbols::named(exports, name).len() > 0 <==> exists|b: int|
            0 <= b < annotations.len() && offers(#[trigger] annotations[b], name),
        symbols::named(exports, name).len() > 1 <==> exists|b: int, c: int|
            0 <= b < c < annotations.len() && offers(#[trigger] annotations[b], name) && offers(
                #[trigger] annotations[c],
                name,
            ),
{
    let test = |x: SymbolView| x.name == name;
    let found = symbols::named(exports, name);
    let at = merging::lemma_filter_places(exports, test);
    assert forall|b: int| 0 <= b < annotations.len() && offers(#[trigger] annotations[b], name) implies exists|
        k: int,
    |
        0 <= k < at.len() && places[#[trigger] at[k]] == b by {
        let id = choose|id: u32| #[trigger] marks(annotations[b], id, name, false);
        let j = choose|j: int| 0 <= j < places.len() && places[j] == b;
        assert(is_read_from(m, defs, annotations[places[j]], exports[j], false));
        assert(test(exports[j]));
        let k = choose|k: int| 0 <= k < at.len() && at[k] == j;
        assert(places[at[k]] == b);
    }
    assert forall|k: int| 0 <= k < found.len() implies offers(
        annotations[places[#[trigger] at[k]]],
        name,
    ) by {
        let j = at[k];
        assert(exports[j] == found[k]);
        assert(test(found[k]));
        assert(is_read_from(m, defs, annotations[places[j]], exports[j], false));
        assert(marks(annotations[places[j]], exports[j].id, name, false));
    }
    if found.len() > 0 {
        let b = places[at[0]];
        assert(offers(annotations[b], name));
    }
    if found.len() > 1 {
        let b = places[at[0]];
        let c = places[at[1]];
        assert(at[0] < at[1]);
        assert(b < c);
        assert(offers(annotations[b], name) && offers(annotations[c], name));
    }
    if exists|b: int, c: int|
        0 <= b < c < annotations.len() && offers(#[trigger] annotations[b], name) && offers(
            #[trigger] annotations[c],
            name,
        ) {
        let (b, c) = choose|b: int, c: int|
            0 <= b < c < annotations.len() && offers(#[trigger] annotations[b], name) && offers(
                #[trigger] annotations[c],
                name,
            );
        let j = choose|k: int| 0 <= k < at.len() && places[#[trigger] at[k]] == b;
        let k = choose|k: int| 0 <= k < at.len() && places[#[trigger] at[k]] == c;
        assert(j != k);
    }
}

/// The definition of an id is the last instruction that has it as its result.
pub proof fn law_definitions(m: ModuleView, k: int)
    requires
        0 <= k < m.all_insts().len(),
        m.all_insts()[k].result_id is Some,
        forall|j: int|
            k < j < m.all_insts().len() ==> (#[trigger] m.all_insts()[j]).result_id
                != m.all_insts()[k].result_id,
    ensures
        defs::definitions(m).contains_key(m.all_insts()[k].result_id->0),
        defs::definitions(m)[m.all_insts()[k].result_id->0] == m.all_insts()[k],
{
    let all = m.all_insts();
    let id = all[k].result_id->0;
    assert(all[k].result_id == Some(id));
    defs::lemma_last_def(all, id);
    lemma_last_def_after(all, id, k);
}

proof fn lemma_last_def_after(insts: Seq<InstView>, id: u32, k: int)
    requires
        0 <= k < insts.len(),
        insts[k].result_id == Some(id),
    ensures
        k <= defs::last_def(insts, id),
    decreases insts.len(),
{
    if insts.last().result_id != Some(id) {
        assert(insts.drop_last()[k] == insts[k]);
        lemma_last_def_after(insts.drop_last(), id, k);
    }
}

/// Only ids that an instruction has as its result are defined.
pub proof fn law_defined(m: ModuleView, id: u32)
    requires
        defs::definitions(m).contains_key(id),
    ensures
        exists|k: int|
            0 <= k < m.all_insts().len() && (#[trigger] m.all_insts()[k]).result_id == Some(id)
                && defs::definitions(m)[id] == m.all_insts()[k],
{
    let all = m.all_insts();
    defs::lemma_last_def(all, id);
    assert(all[defs::last_def(all, id)].result_id == Some(id));
}

/// Where modules are linked, an import that takes part is in a pair with the only
/// export of its name, and the pair passes the comparison of types.
proof fn lemma_matched(
    inputs: Seq<ModuleView>,
    opts: Options,
    a: int,
    id: u32,
    name: Seq<char>,
) -> (r: (int, int))
    requires
        laws::links(inputs, opts),
        0 <= a < link::merged(inputs).annotations.len(),
        marks(link::merged(inputs).annotations[a], id, name, true),
        !opts.partial || exists|b: int|
            0 <= b < link::merged(inputs).annotations.len() && offers(
                #[trigger] link::merged(inputs).annotations[b],
                name,
            ),
    ensures
        ({
            let m = link::merged(inputs);
            let ds = defs::definitions(m);
            let pairs = laws::info_of_merged(inputs, opts).pairs;
            let (k, b) = r;
            &&& 0 <= k < pairs.len()
            &&& is_read_from(m, ds, m.annotations[a], pairs[k].import, true)
            &&& 0 <= b < m.annotations.len()
            &&& is_read_from(m, ds, m.annotations[b], pairs[k].export, false)
            &&& offers(m.annotations[b], name)
            &&& forall|c: int|
                0 <= c < m.annotations.len() && offers(#[trigger] m.annotations[c], name) ==> c == b
            &&& symbols::checked_pair(ds, pairs[k]) == Some(Ok::<(), ErrorView>(()))
        }),
{
    let m = link::merged(inputs);
    let ds = defs::definitions(m);
    let info = laws::info_of_merged(inputs, opts);
    let all = symbols::imports_of(m, ds);
    laws::lemma_links(inputs, opts);
    laws::law_link_errors(inputs, opts);
    let (p, q) = lemma_symbols_read(m, ds, m.annotations);
    let j = choose|j: int| 0 <= j < p.len() && p[j] == a;
    assert(is_read_from(m, ds, m.annotations[p[j]], all[j], true));
    assert(all[j].name == name && all[j].id == id);
    lemma_offers(m, ds, m.annotations, info.exports, q, name);
    let test = |s: SymbolView| symbols::is_offered(s, info.exports);
    let k = if opts.partial {
        assert(test(all[j]));
        let at = merging::lemma_filter_places(all, test);
        let k = choose|k: int| 0 <= k < at.len() && at[k] == j;
        assert(info.imports[k] == all[j]);
        k
    } else {
        j
    };
    assert(info.imports[k] == all[j]);
    symbols::law_pairs(info.imports, info.exports);
    assert(symbols::is_resolved(info.imports[k], info.exports));
    let pair = info.pairs[k];
    assert(pair.import == all[j]);
    let e = choose|e: int| 0 <= e < info.exports.len() && info.exports[e] == pair.export;
    let b = q[e];
    assert(is_read_from(m, ds, m.annotations[q[e]], info.exports[e], false));
    assert(marks(m.annotations[b], pair.export.id, name, false));
    assert forall|c: int|
        0 <= c < m.annotations.len() && offers(#[trigger] m.annotations[c], name) implies c == b by {
        if c < b {
            assert(offers(m.annotations[c], name) && offers(m.annotations[b], name));
        }
        if b < c {
            assert(offers(m.annotations[b], name) && offers(m.annotations[c], name));
        }
    }
    (k, b)
}

/// Where modules are linked, each import has exactly one export of its name, or, where
/// linking may be partial, none or one. The types of the two are the same in structure:
/// two functions return the same type and take parameters of the same types, and two
/// variables point to the same type in the same storage class.
pub proof fn law_imports_are_matched(
    inputs: Seq<ModuleView>,
    opts: Options,
    a: int,
    id: u32,
    name: Seq<char>,
    depth: nat,
)
    requires
        laws::links(inputs, opts),
        0 <= a < link::merged(inputs).annotations.len(),
        marks(link::merged(inputs).annotations[a], id, name, true),
    ensures
        ({
            let m = link::merged(inputs);
            let ds = defs::definitions(m);
            &&& !opts.partial ==> exists|b: int|
                0 <= b < m.annotations.len() && offers(#[trigger] m.annotations[b], name)
            &&& forall|b: int, c: int|
                0 <= b < m.annotations.len() && 0 <= c < m.annotations.len() && offers(
                    #[trigger] m.annotations[b],
                    name,
                ) && offers(#[trigger] m.annotations[c], name) ==> b == c
            &&& forall|b: int, other: u32, t: u32, u: u32|
                #![trigger marks(m.annotations[b], other, name, false), has_type(ds[id], t), has_type(ds[other], u)]
                0 <= b < m.annotations.len() && marks(
                    m.annotations[b],
                    other,
                    name,
                    false,
                ) && has_type(ds[id], t) && has_type(ds[other], u) ==> {
                    &&& ds.contains_key(t)
                    &&& ds.contains_key(u)
                    &&& signature::alike(ds, ds[t], ds[u], depth)
                }
        }),
{
    let m = link::merged(inputs);
    let ds = defs::definitions(m);
    let info = laws::info_of_merged(inputs, opts);
    if !opts.partial || exists|b: int|
        0 <= b < m.annotations.len() && offers(#[trigger] m.annotations[b], name) {
        let (k, at) = lemma_matched(inputs, opts, a, id, name);
        let pair = info.pairs[k];
        law_checked_pair(ds, pair, depth);
        assert forall|b: int, other: u32, t: u32, u: u32|
            #![trigger marks(m.annotations[b], other, name, false), has_type(ds[id], t), has_type(ds[other], u)]
            0 <= b < m.annotations.len() && marks(m.annotations[b], other, name, false)
                && has_type(ds[id], t) && has_type(ds[other], u) implies {
            &&& ds.contains_key(t)
            &&& ds.contains_key(u)
            &&& signature::alike(ds, ds[t], ds[u], depth)
        } by {
            assert(offers(m.annotations[b], name));
            assert(b == at);
            assert(t == pair.import.type_id && u == pair.export.type_id);
        }
    }
}

/// Where modules are linked and a function is imported, the export of its name is a function
/// too. The two function types have as many parameters, and the types that they return and
/// those of their parameters are the same in structure, one by one.
pub proof fn law_functions_fit(
    inputs: Seq<ModuleView>,
    opts: Options,
    a: int,
    b: int,
    id: u32,
    other: u32,
    name: Seq<char>,
    t: u32,
    u: u32,
    depth: nat,
)
    requires
        laws::links(inputs, opts),
        0 <= a < link::merged(inputs).annotations.len(),
        0 <= b < link::merged(inputs).annotations.len(),
        marks(link::merged(inputs).annotations[a], id, name, true),
        marks(link::merged(inputs).annotations[b], other, name, false),
        has_type(defs::definitions(link::merged(inputs))[id], t),
        has_type(defs::definitions(link::merged(inputs))[other], u),
        defs::definitions(link::merged(inputs))[t].opcode == opcode::TYPE_FUNCTION,
    ensures
        ({
            let ds = defs::definitions(link::merged(inputs));
            let x = ds[t].operands;
            let y = ds[u].operands;
            &&& ds[u].opcode == opcode::TYPE_FUNCTION
            &&& x.len() == y.len()
            &&& forall|k: int|
                0 <= k < x.len() ==> {
                    &&& (#[trigger] x[k]).id() is Some
                    &&& y[k].id() is Some
                    &&& signature::alike(ds, ds[x[k].id()->0], ds[y[k].id()->0], depth)
                }
        }),
{
    let ds = defs::definitions(link::merged(inputs));
    law_imports_are_matched(inputs, opts, a, id, name, depth + 1);
    let x = ds[t];
    let y = ds[u];
    assert(signature::alike(ds, x, y, depth + 1));
    assert(signature::components(x) == x.operands);
    assert(signature::components(y) == y.operands);
    assert forall|k: int| 0 <= k < x.operands.len() implies {
        &&& (#[trigger] x.operands[k]).id() is Some
        &&& y.operands[k].id() is Some
        &&& signature::alike(
            ds,
            ds[x.operands[k].id()->0],
            ds[y.operands[k].id()->0],
            depth,
        )
    } by {
        assert(signature::components(x)[k].id() is Some);
    }
}

/// Whether a decoration marks a symbol under `name` as imported.
pub open spec fn asks(i: InstView, name: Seq<char>) -> bool {
    exists|id: u32| #[trigger] marks(i, id, name, true)
}

/// Whether two decorations mark an import and an export under `name` whose types differ.
pub open spec fn clash(ds: Map<u32, InstView>, i: InstView, j: InstView, name: Seq<char>) -> bool {
    exists|x: u32, y: u32, t: u32, u: u32, depth: nat|
        #![trigger marks(i, x, name, true), marks(j, y, name, false), signature::alike(ds, ds[t], ds[u], depth)]
        {
            &&& marks(i, x, name, true)
            &&& marks(j, y, name, false)
            &&& has_type(ds[x], t)
            &&& has_type(ds[y], u)
            &&& !signature::alike(ds, ds[t], ds[u], depth)
        }
}

proof fn lemma_first_mismatch(defs: Map<u32, InstView>, pairs: Seq<PairView>) -> (k: int)
    requires
        symbols::checked_pairs(defs, pairs) matches Some(Err(_)),
    ensures
        0 <= k < pairs.len(),
        symbols::checked_pair(defs, pairs[k]) == symbols::checked_pairs(defs, pairs),
    decreases pairs.len(),
{
    let rest = pairs.drop_last();
    if symbols::checked_pairs(defs, rest) == Some(Ok::<(), ErrorView>(())) {
        pairs.len() - 1
    } else {
        let k = lemma_first_mismatch(defs, rest);
        assert(pairs[k] == rest[k]);
        k
    }
}

/// Where modules are not linked, the error says why:
/// - An unresolved symbol is imported, and no module exports it.
/// - A symbol with multiple exports is imported, and exported more than once.
/// - A symbol whose types do not match is imported with another type than it is exported
///   with.
pub proof fn law_errors_are_justified(inputs: Seq<ModuleView>, opts: Options)
    requires
        link::linkable(inputs, opts),
    ensures
        ({
            let m = link::merged(inputs);
            let all = m.annotations;
            match link::linked(inputs, opts) {
                Ok(_) => true,
                Err(ErrorView::UnresolvedSymbol(name)) => {
                    &&& exists|a: int| 0 <= a < all.len() && asks(#[trigger] all[a], name)
                    &&& forall|b: int| 0 <= b < all.len() ==> !offers(#[trigger] all[b], name)
                },
                Err(ErrorView::MultipleExports(name)) => {
                    &&& exists|a: int| 0 <= a < all.len() && asks(#[trigger] all[a], name)
                    &&& exists|b: int, c: int|
                        0 <= b < c < all.len() && offers(#[trigger] all[b], name) && offers(
                            #[trigger] all[c],
                            name,
                        )
                },
                Err(ErrorView::TypeMismatch { name, .. }) => exists|a: int, b: int|
                    0 <= a < all.len() && 0 <= b < all.len() && #[trigger] clash(
                        defs::definitions(m),
                        all[a],
                        all[b],
                        name,
                    ),
                Err(ErrorView::Unknown) => false,
            }
        }),
{
    let m = link::merged(inputs);
    let ds = defs::definitions(m);
    let all = m.annotations;
    let exports = symbols::exports_of(m, ds);
    let whole = symbols::imports_of(m, ds);
    let imports = symbols::taken(whole, exports, opts.partial);
    laws::law_link_errors(inputs, opts);
    symbols::law_pairs(imports, exports);
    let (p, q) = lemma_symbols_read(m, ds, all);
    assert forall|k: int| 0 <= k < imports.len() implies exists|a: int|
        0 <= a < all.len() && is_read_from(m, ds, #[trigger] all[a], #[trigger] imports[k], true) by {
        let test = |s: SymbolView| symbols::is_offered(s, exports);
        let j = if opts.partial {
            let at = merging::lemma_filter_places(whole, test);
            assert(whole[at[k]] == imports[k]);
            at[k]
        } else {
            k
        };
        assert(is_read_from(m, ds, all[p[j]], whole[j], true));
    }
    match symbols::pairs_of(imports, exports) {
        Err(e) => {
            let k = choose|k: int|
                {
                    &&& 0 <= k < imports.len()
                    &&& forall|j: int| 0 <= j < k ==> symbols::is_resolved(#[trigger] imports[j], exports)
                    &&& e == if symbols::named(exports, (#[trigger] imports[k]).name).len() == 0 {
                        ErrorView::UnresolvedSymbol(imports[k].name)
                    } else {
                        ErrorView::MultipleExports(imports[k].name)
                    }
                    &&& !symbols::is_resolved(imports[k], exports)
                };
            let name = imports[k].name;
            lemma_offers(m, ds, all, exports, q, name);
            let a = choose|a: int|
                0 <= a < all.len() && is_read_from(m, ds, #[trigger] all[a], imports[k], true);
            assert(marks(all[a], imports[k].id, name, true));
            assert(asks(all[a], name));
        },
        Ok(pairs) => {
            symbols::lemma_mismatch(ds, pairs);
            if symbols::checked_pairs(ds, pairs) matches Some(Err(_)) {
                let k = lemma_first_mismatch(ds, pairs);
                let pair = pairs[k];
                law_checked_pair(ds, pair, 0);
                assert(pair.import == imports[k]);
                let a = choose|a: int|
                    0 <= a < all.len() && is_read_from(m, ds, #[trigger] all[a], imports[k], true);
                let e = choose|e: int| 0 <= e < exports.len() && exports[e] == pair.export;
                let b = q[e];
                assert(is_read_from(m, ds, all[q[e]], exports[e], false));
                let t = pair.import.type_id;
                let u = pair.export.type_id;
                let d = choose|d: nat| !#[trigger] signature::alike(ds, ds[t], ds[u], d);
                assert(has_type(ds[pair.import.id], t) && has_type(ds[pair.export.id], u));
                assert(!signature::alike(ds, ds[t], ds[u], d));
                assert(clash(ds, all[a], all[b], pair.import.name));
            }
        },
    }
}

/// Where modules are linked, each pair is of a symbol that a decoration marks as imported
/// and one that a decoration marks, under the same name, as exported.
pub proof fn law_pairs_are_marked(inputs: Seq<ModuleView>, opts: Options, k: int)
    requires
        laws::links(inputs, opts),
        0 <= k < laws::info_of_merged(inputs, opts).pairs.len(),
    ensures
        ({
            let all = link::merged(inputs).annotations;
            let pair = laws::info_of_merged(inputs, opts).pairs[k];
            &&& pair.import.name == pair.export.name
            &&& exists|a: int|
                0 <= a < all.len() && marks(
                    #[trigger] all[a],
                    pair.import.id,
                    pair.import.name,
                    true,
                )
            &&& exists|b: int|
                0 <= b < all.len() && marks(
                    #[trigger] all[b],
                    pair.export.id,
                    pair.export.name,
                    false,
                )
        }),
{
    let m = link::merged(inputs);
    let ds = defs::definitions(m);
    let info = laws::info_of_merged(inputs, opts);
    let whole = symbols::imports_of(m, ds);
    laws::lemma_links(inputs, opts);
    let (p, q) = lemma_symbols_read(m, ds, m.annotations);
    symbols::law_pairs(info.imports, info.exports);
    let pair = info.pairs[k];
    assert(pair.import == info.imports[k]);
    let j = if opts.partial {
        let test = |s: SymbolView| symbols::is_offered(s, info.exports);
        let at = merging::lemma_filter_places(whole, test);
        assert(whole[at[k]] == info.imports[k]);
        at[k]
    } else {
        k
    };
    assert(is_read_from(m, ds, m.annotations[p[j]], whole[j], true));
    let e = choose|e: int| 0 <= e < info.exports.len() && info.exports[e] == pair.export;
    assert(is_read_from(m, ds, m.annotations[q[e]], info.exports[e], false));
}

/// Where modules are linked, a symbol is the import of a pair exactly if a decoration
/// marks it as imported and, where linking may be partial, another one marks a symbol of
/// the same name as exported.
pub proof fn law_marked_imports_are_paired(inputs: Seq<ModuleView>, opts: Options, id: u32)
    requires
        laws::links(inputs, opts),
    ensures
        ({
            let all = link::merged(inputs).annotations;
            effects::is_import_of(laws::info_of_merged(inputs, opts).pairs, id) <==> exists|
                a: int,
                name: Seq<char>,
            |
                {
                    &&& 0 <= a < all.len()
                    &&& #[trigger] marks(all[a], id, name, true)
                    &&& !opts.partial || exists|b: int|
                        0 <= b < all.len() && offers(#[trigger] all[b], name)
                }
        }),
{
    let all = link::merged(inputs).annotations;
    let pairs = laws::info_of_merged(inputs, opts).pairs;
    if effects::is_import_of(pairs, id) {
        let k = choose|k: int| 0 <= k < pairs.len() && (#[trigger] pairs[k]).import.id == id;
        law_pairs_are_marked(inputs, opts, k);
        let name = pairs[k].import.name;
        let a = choose|a: int| 0 <= a < all.len() && marks(#[trigger] all[a], id, name, true);
        let b = choose|b: int|
            0 <= b < all.len() && marks(#[trigger] all[b], pairs[k].export.id, name, false);
        assert(offers(all[b], name));
        assert(marks(all[a], id, name, true));
    }
    if exists|a: int, name: Seq<char>|
        {
            &&& 0 <= a < all.len()
            &&& #[trigger] marks(all[a], id, name, true)
            &&& !opts.partial || exists|b: int|
                0 <= b < all.len() && offers(#[trigger] all[b], name)
        } {
        let (a, name) = choose|a: int, name: Seq<char>|
            {
                &&& 0 <= a < all.len()
                &&& #[trigger] marks(all[a], id, name, true)
                &&& !opts.partial || exists|b: int|
                    0 <= b < all.len() && offers(#[trigger] all[b], name)
            };
        let (k, b) = lemma_matched(inputs, opts, a, id, name);
        assert(pairs[k].import.id == id);
    }
}

/// Where modules are linked, what is not merged with other declarations is what decorations
/// mark as imported, and the exports of pairs.
pub proof fn law_set_apart(inputs: Seq<ModuleView>, opts: Options, id: u32)
    requires
        laws::links(inputs, opts),
    ensures
        ({
            let m = link::merged(inputs);
            let pairs = laws::info_of_merged(inputs, opts).pairs;
            link::set_apart(m, pairs).contains(id) <==> {
                ||| exists|a: int, name: Seq<char>|
                    0 <= a < m.annotations.len() && #[trigger] marks(
                        m.annotations[a],
                        id,
                        name,
                        true,
                    )
                ||| effects::is_export_of(pairs, id)
            }
        }),
{
    let m = link::merged(inputs);
    let ds = defs::definitions(m);
    let pairs = laws::info_of_merged(inputs, opts).pairs;
    let all = symbols::imports_of(m, ds);
    let apart = link::set_apart(m, pairs);
    let x = link::symbol_ids(all);
    let y = pairs.map_values(|p: PairView| p.export.id);
    laws::lemma_links(inputs, opts);
    let (p, q) = lemma_symbols_read(m, ds, m.annotations);
    assert(apart == x + y);
    if apart.contains(id) {
        let k = choose|k: int| 0 <= k < apart.len() && apart[k] == id;
        if k < x.len() {
            assert(x[k] == id);
            assert(is_read_from(m, ds, m.annotations[p[k]], all[k], true));
            assert(marks(m.annotations[p[k]], id, all[k].name, true));
        } else {
            assert(y[k - x.len()] == id);
            assert(pairs[k - x.len()].export.id == id);
        }
    }
    if exists|a: int, name: Seq<char>|
        0 <= a < m.annotations.len() && #[trigger] marks(m.annotations[a], id, name, true) {
        let (a, name) = choose|a: int, name: Seq<char>|
            0 <= a < m.annotations.len() && #[trigger] marks(m.annotations[a], id, name, true);
        let j = choose|j: int| 0 <= j < p.len() && p[j] == a;
        assert(is_read_from(m, ds, m.annotations[p[j]], all[j], true));
        assert(x[j] == id);
        assert(apart[j] == id);
    }
    if effects::is_export_of(pairs, id) {
        let k = choose|k: int| 0 <= k < pairs.len() && (#[trigger] pairs[k]).export.id == id;
        assert(y[k] == id);
        assert(apart[x.len() + k] == id);
    }
}

/// The error of pairs that do not match is that of the first pair that does not.
pub proof fn law_first_mismatch(defs: Map<u32, InstView>, pairs: Seq<PairView>)
    requires
        symbols::checked_pairs(defs, pairs) matches Some(Err(_)),
    ensures
        exists|k: int|
            {
                &&& 0 <= k < pairs.len()
                &&& #[trigger] symbols::checked_pair(defs, pairs[k]) == symbols::checked_pairs(
                    defs,
                    pairs,
                )
                &&& forall|j: int|
                    0 <= j < k ==> symbols::checked_pair(defs, #[trigger] pairs[j]) == Some(
                        Ok::<(), ErrorView>(()),
                    )
            },
    decreases pairs.len(),
{
    let rest = pairs.drop_last();
    let n = pairs.len() - 1;
    symbols::law_checked_pairs(defs, rest);
    assert(pairs[n] == pairs.last());
    assert forall|k: int| 0 <= k < n implies rest[k] == #[trigger] pairs[k] by {}
    if symbols::checked_pairs(defs, rest) == Some(Ok::<(), ErrorView>(())) {
        assert(symbols::checked_pair(defs, pairs[n]) == symbols::checked_pairs(defs, pairs));
        assert forall|j: int| 0 <= j < n implies symbols::checked_pair(defs, #[trigger] pairs[j])
            == Some(Ok::<(), ErrorView>(())) by {
            assert(rest[j] == pairs[j]);
        }
    } else {
        law_first_mismatch(defs, rest);
        let k = choose|k: int|
            {
                &&& 0 <= k < rest.len()
                &&& #[trigger] symbols::checked_pair(defs, rest[k]) == symbols::checked_pairs(
                    defs,
                    rest,
                )
                &&& forall|j: int|
                    0 <= j < k ==> symbols::checked_pair(defs, #[trigger] rest[j]) == Some(
                        Ok::<(), ErrorView>(()),
                    )
            };
        assert(symbols::checked_pair(defs, pairs[k]) == symbols::checked_pairs(defs, pairs));
        assert forall|j: int| 0 <= j < k implies symbols::checked_pair(defs, #[trigger] pairs[j])
            == Some(Ok::<(), ErrorView>(())) by {
            assert(rest[j] == pairs[j]);
        }
    }
}

} // verus!
