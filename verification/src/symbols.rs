//! The imports and exports of a module, and how they are matched.

use vstd::prelude::*;

use crate::bridge;
use crate::convert;
use crate::defs::DefAnalyzer;
use crate::error::{ErrorView, LinkerError};
use crate::model;
use crate::model::{
    Duplicate, EnumerantKind, FunctionView, InstView, ModuleView, SpvFunction, SpvInst, SpvModule,
    SpvOperand,
};
use crate::opcode;
use crate::signature;

verus! {

/// A symbol that a module imports or exports.
#[derive(Debug)]
pub struct LinkSymbol {
    pub name: String,
    pub id: u32,
    pub type_id: u32,
    pub parameters: Vec<SpvInst>,
}

#[verifier::ext_equal]
pub struct SymbolView {
    pub name: Seq<char>,
    pub id: u32,
    pub type_id: u32,
    pub parameters: Seq<InstView>,
}

impl View for LinkSymbol {
    type V = SymbolView;

    open spec fn view(&self) -> SymbolView {
        SymbolView {
            name: self.name@,
            id: self.id,
            type_id: self.type_id,
            parameters: model::views(self.parameters@),
        }
    }
}

impl Duplicate for LinkSymbol {
    fn duplicate(&self) -> (r: Self) {
        LinkSymbol {
            name: self.name.clone(),
            id: self.id,
            type_id: self.type_id,
            parameters: model::duplicate_all(&self.parameters),
        }
    }
}

/// An import with the export that it stands for.
#[derive(Debug)]
pub struct ImportExportPair {
    pub import: LinkSymbol,
    pub export: LinkSymbol,
}

pub struct PairView {
    pub import: SymbolView,
    pub export: SymbolView,
}

impl View for ImportExportPair {
    type V = PairView;

    open spec fn view(&self) -> PairView {
        PairView { import: self.import@, export: self.export@ }
    }
}

/// Whether an annotation is a decoration that marks an import or an export.
pub open spec fn is_linkage(i: InstView) -> bool {
    &&& i.opcode == opcode::DECORATE
    &&& i.operands.len() > 1
    &&& i.operands[1].is_enumerant(
        EnumerantKind::Decoration,
        opcode::DECORATION_LINKAGE_ATTRIBUTES,
    )
}

/// Whether a linkage decoration marks an import.
pub open spec fn marks_import(i: InstView) -> bool {
    i.operands.len() > 3 && i.operands[3].is_enumerant(
        EnumerantKind::LinkageType,
        opcode::LINKAGE_IMPORT,
    )
}

/// Whether a linkage decoration marks an export.
pub open spec fn marks_export(i: InstView) -> bool {
    i.operands.len() > 3 && i.operands[3].is_enumerant(
        EnumerantKind::LinkageType,
        opcode::LINKAGE_EXPORT,
    )
}

/// The first function with the given defining instruction, unless a function
/// without one comes first.
pub open spec fn function_with(functions: Seq<FunctionView>, def: InstView) -> Option<FunctionView>
    decreases functions.len(),
{
    if functions.len() == 0 {
        None
    } else {
        match functions[0].def {
            Some(d) => if d == def {
                Some(functions[0])
            } else {
                function_with(functions.drop_first(), def)
            },
            None => None,
        }
    }
}

/// The type and the parameters of a symbol that the given instruction defines: a
/// variable or a function of the module.
pub open spec fn shape_of(m: ModuleView, def: InstView) -> Option<(u32, Seq<InstView>)> {
    if def.opcode == opcode::VARIABLE {
        match def.result_type {
            Some(t) => Some((t, Seq::empty())),
            None => None,
        }
    } else if def.opcode == opcode::FUNCTION {
        if def.operands.len() > 1 && def.operands[1] is IdRef {
            match function_with(m.functions, def) {
                Some(f) => Some((def.operands[1]->IdRef_0, f.parameters)),
                None => None,
            }
        } else {
            None
        }
    } else {
        None
    }
}

/// The symbol that a linkage decoration declares. `None` where the decoration or
/// the definition of the symbol is malformed.
pub open spec fn symbol_of(m: ModuleView, defs: Map<u32, InstView>, i: InstView) -> Option<
    SymbolView,
> {
    let ops = i.operands;
    if ops.len() > 3 && ops[0] is IdRef && ops[2] is LiteralString && defs.contains_key(
        ops[0]->IdRef_0,
    ) {
        match shape_of(m, defs[ops[0]->IdRef_0]) {
            Some((type_id, parameters)) => Some(
                SymbolView {
                    name: ops[2]->LiteralString_0,
                    id: ops[0]->IdRef_0,
                    type_id,
                    parameters,
                },
            ),
            None => None,
        }
    } else {
        None
    }
}

/// The imports and the exports that annotations declare, each in order. `None`
/// where a decoration lacks its operands or a symbol is malformed.
pub open spec fn symbols_of(
    m: ModuleView,
    defs: Map<u32, InstView>,
    annotations: Seq<InstView>,
) -> Option<(Seq<SymbolView>, Seq<SymbolView>)>
    decreases annotations.len(),
{
    if annotations.len() == 0 {
        Some((Seq::empty(), Seq::empty()))
    } else {
        let i = annotations.last();
        match symbols_of(m, defs, annotations.drop_last()) {
            Some((imports, exports)) => if i.opcode == opcode::DECORATE && i.operands.len() < 2 {
                None
            } else if !is_linkage(i) {
                Some((imports, exports))
            } else {
                match symbol_of(m, defs, i) {
                    Some(s) => if marks_import(i) {
                        Some((imports.push(s), exports))
                    } else {
                        Some((imports, exports.push(s)))
                    },
                    None => None,
                }
            },
            None => None,
        }
    }
}

/// Whether two instructions are the same in all parts.
pub fn inst_fully_eq(a: &SpvInst, b: &SpvInst) -> (r: bool)
    ensures
        r == (a@ == b@),
{
    let r = a.result_id == b.result_id && a.opcode() == b.opcode() && a.result_type == b.result_type
        && model::same_operands(&a.operands, &b.operands);
    assert(r ==> a@ =~= b@);
    r
}

fn find_function<'a>(functions: &'a Vec<SpvFunction>, def: &SpvInst) -> (r: Option<&'a SpvFunction>)
    ensures
        r is Some <==> function_with(model::views(functions@), def@) is Some,
        r is Some ==> r->0@ == function_with(model::views(functions@), def@)->0,
{
    let ghost all = model::views(functions@);
    assert(all.skip(0) =~= all);
    for k in 0..functions.len()
        invariant
            all == model::views(functions@),
            function_with(all, def@) == function_with(all.skip(k as int), def@),
    {
        let ghost rest = all.skip(k as int);
        assert(rest[0] == functions@[k as int]@);
        assert(rest.drop_first() =~= all.skip(k + 1));
        match &functions[k].def {
            Some(d) => {
                if inst_fully_eq(d, def) {
                    return Some(&functions[k]);
                }
            },
            None => {
                return None;
            },
        }
    }
    None
}

fn read_shape(m: &SpvModule, def: &SpvInst) -> (r: Option<(u32, Vec<SpvInst>)>)
    ensures
        r is Some <==> shape_of(m@, def@) is Some,
        r is Some ==> shape_of(m@, def@) == Some(((r->0).0, model::views((r->0).1@))),
{
    let op: u32 = def.opcode();
    if op == opcode::VARIABLE {
        match def.result_type {
            Some(t) => {
                let none: Vec<SpvInst> = Vec::new();
                assert(model::views(none@) =~= Seq::empty());
                Some((t, none))
            },
            None => None,
        }
    } else if op == opcode::FUNCTION {
        if def.operands.len() < 2 {
            return None;
        }
        assert(def@.operands[1] == def.operands@[1]@);
        match &def.operands[1] {
            SpvOperand::IdRef(t) => match find_function(&m.functions, def) {
                Some(f) => Some((*t, model::duplicate_all(&f.parameters))),
                None => None,
            },
            _ => None,
        }
    } else {
        None
    }
}

fn read_symbol(m: &SpvModule, defs: &DefAnalyzer, inst: &SpvInst) -> (r: Option<LinkSymbol>)
    ensures
        r is Some <==> symbol_of(m@, defs@, inst@) is Some,
        r is Some ==> r->0@ == symbol_of(m@, defs@, inst@)->0,
{
    let ops = &inst.operands;
    assert(forall|k: int| 0 <= k < ops@.len() ==> inst@.operands[k] == (#[trigger] ops@[k])@);
    if ops.len() < 4 {
        return None;
    }
    match (&ops[0], &ops[2]) {
        (SpvOperand::IdRef(id), SpvOperand::LiteralString(name)) => match defs.def(*id) {
            Some(def) => match read_shape(m, def) {
                Some((type_id, parameters)) => Some(
                    LinkSymbol { name: name.clone(), id: *id, type_id, parameters },
                ),
                None => None,
            },
            None => None,
        },
        _ => None,
    }
}

/// Whether an annotation is a linkage decoration.
pub(crate) fn check_linkage(inst: &SpvInst) -> (r: bool)
    ensures
        r == is_linkage(inst@),
{
    if inst.opcode() != opcode::DECORATE || inst.operands.len() < 2 {
        return false;
    }
    assert(inst@.operands[1] == inst.operands@[1]@);
    inst.operands[1].is_enumerant(
        EnumerantKind::Decoration,
        opcode::DECORATION_LINKAGE_ATTRIBUTES,
    )
}

/// Reads the imports and the exports of a module.
pub fn read_symbols(m: &SpvModule, defs: &DefAnalyzer) -> (r: Option<
    (Vec<LinkSymbol>, Vec<LinkSymbol>),
>)
    ensures
        r is Some <==> symbols_of(m@, defs@, m@.annotations) is Some,
        r is Some ==> symbols_of(m@, defs@, m@.annotations) == Some(
            (model::views((r->0).0@), model::views((r->0).1@)),
        ),
{
    let ghost all = m@.annotations;
    let mut imports: Vec<LinkSymbol> = Vec::new();
    let mut exports: Vec<LinkSymbol> = Vec::new();
    assert(model::views(imports@) =~= Seq::empty());
    assert(model::views(exports@) =~= Seq::empty());
    for k in 0..m.annotations.len()
        invariant
            all == m@.annotations,
            symbols_of(m@, defs@, all.take(k as int)) == Some(
                (model::views(imports@), model::views(exports@)),
            ),
    {
        broadcast use model::lemma_views_push;

        assert(all.take(k + 1).drop_last() =~= all.take(k as int));
        assert(all.take(k + 1).last() == m.annotations@[k as int]@);
        let inst = &m.annotations[k];
        if inst.opcode() == opcode::DECORATE && inst.operands.len() < 2 {
            proof {
                lemma_symbols_prefix(m@, defs@, all, k + 1);
            }
            return None;
        }
        if check_linkage(inst) {
            match read_symbol(m, defs, inst) {
                Some(symbol) => {
                    assert(inst@.operands[3] == inst.operands@[3]@);
                    if inst.operands[3].is_enumerant(
                        EnumerantKind::LinkageType,
                        opcode::LINKAGE_IMPORT,
                    ) {
                        imports.push(symbol);
                    } else {
                        exports.push(symbol);
                    }
                },
                None => {
                    proof {
                        lemma_symbols_prefix(m@, defs@, all, k + 1);
                    }
                    return None;
                },
            }
        }
    }
    assert(all.take(all.len() as int) =~= all);
    Some((imports, exports))
}

proof fn lemma_symbols_prefix(
    m: ModuleView,
    defs: Map<u32, InstView>,
    all: Seq<InstView>,
    n: int,
)
    requires
        0 <= n <= all.len(),
        symbols_of(m, defs, all.take(n)) is None,
    ensures
        symbols_of(m, defs, all) is None,
    decreases all.len() - n,
{
    if n < all.len() {
        assert(all.take(n + 1).drop_last() =~= all.take(n));
        lemma_symbols_prefix(m, defs, all, n + 1);
    } else {
        assert(all.take(n) =~= all);
    }
}

/// The symbols with the given name.
pub open spec fn named(s: Seq<SymbolView>, name: Seq<char>) -> Seq<SymbolView> {
    s.filter(|x: SymbolView| x.name == name)
}

/// The imports with the exports that they stand for. The first import that no
/// export, or more than one, has the name of is an error.
pub open spec fn pairs_of(imports: Seq<SymbolView>, exports: Seq<SymbolView>) -> Result<
    Seq<PairView>,
    ErrorView,
>
    decreases imports.len(),
{
    if imports.len() == 0 {
        Ok(Seq::empty())
    } else {
        let import = imports.last();
        let found = named(exports, import.name);
        match pairs_of(imports.drop_last(), exports) {
            Ok(pairs) => if found.len() == 0 {
                Err(ErrorView::UnresolvedSymbol(import.name))
            } else if found.len() > 1 {
                Err(ErrorView::MultipleExports(import.name))
            } else {
                Ok(pairs.push(PairView { import, export: found[0] }))
            },
            Err(e) => Err(e),
        }
    }
}

proof fn lemma_pairs_prefix(imports: Seq<SymbolView>, exports: Seq<SymbolView>, n: int)
    requires
        0 <= n <= imports.len(),
        pairs_of(imports.take(n), exports) is Err,
    ensures
        pairs_of(imports, exports) == pairs_of(imports.take(n), exports),
    decreases imports.len() - n,
{
    if n < imports.len() {
        assert(imports.take(n + 1).drop_last() =~= imports.take(n));
        lemma_pairs_prefix(imports, exports, n + 1);
    } else {
        assert(imports.take(n) =~= imports);
    }
}

/// Whether exactly one export has the name of an import.
pub open spec fn is_resolved(import: SymbolView, exports: Seq<SymbolView>) -> bool {
    named(exports, import.name).len() == 1
}

/// Imports are paired exactly where each of them has one export; the pairs then are
/// the imports in order, each with the one export of its name. Otherwise the error
/// names the first import that has none or several, and tells which.
pub proof fn law_pairs(imports: Seq<SymbolView>, exports: Seq<SymbolView>)
    ensures
        pairs_of(imports, exports) is Ok <==> forall|k: int|
            0 <= k < imports.len() ==> is_resolved(#[trigger] imports[k], exports),
        pairs_of(imports, exports) matches Ok(pairs) ==> {
            &&& pairs.len() == imports.len()
            &&& forall|k: int|
                0 <= k < imports.len() ==> {
                    &&& (#[trigger] pairs[k]).import == imports[k]
                    &&& exports.contains(pairs[k].export)
                    &&& pairs[k].export.name == imports[k].name
                }
        },
        pairs_of(imports, exports) matches Err(e) ==> exists|k: int|
            {
                &&& 0 <= k < imports.len()
                &&& forall|j: int| 0 <= j < k ==> is_resolved(#[trigger] imports[j], exports)
                &&& e == if named(exports, (#[trigger] imports[k]).name).len() == 0 {
                    ErrorView::UnresolvedSymbol(imports[k].name)
                } else {
                    ErrorView::MultipleExports(imports[k].name)
                }
                &&& !is_resolved(imports[k], exports)
            },
    decreases imports.len(),
{
    if imports.len() > 0 {
        let rest = imports.drop_last();
        let last = imports.last();
        let n = imports.len() - 1;
        let found = named(exports, last.name);
        law_pairs(rest, exports);
        assert(imports[n] == last);
        assert forall|k: int| 0 <= k < n implies rest[k] == #[trigger] imports[k] by {}
        if pairs_of(rest, exports) is Ok {
            let pairs = pairs_of(rest, exports)->Ok_0;
            if is_resolved(last, exports) {
                let test = |x: SymbolView| x.name == last.name;
                exports.lemma_filter_pred(test, 0);
                exports.lemma_filter_contains_rev(test, found[0]);
                let r = pairs_of(imports, exports)->Ok_0;
                assert(r == pairs.push(PairView { import: last, export: found[0] }));
                assert forall|k: int| 0 <= k < imports.len() implies {
                    &&& (#[trigger] r[k]).import == imports[k]
                    &&& exports.contains(r[k].export)
                    &&& r[k].export.name == imports[k].name
                } by {
                    if k < n {
                        assert(pairs[k].import == rest[k]);
                    }
                }
            } else {
                assert forall|j: int| 0 <= j < n implies is_resolved(
                    #[trigger] imports[j],
                    exports,
                ) by {
                    assert(is_resolved(rest[j], exports));
                }
            }
        } else {
            let e = pairs_of(rest, exports)->Err_0;
            let k = choose|k: int|
                {
                    &&& 0 <= k < rest.len()
                    &&& forall|j: int| 0 <= j < k ==> is_resolved(#[trigger] rest[j], exports)
                    &&& e == if named(exports, (#[trigger] rest[k]).name).len() == 0 {
                        ErrorView::UnresolvedSymbol(rest[k].name)
                    } else {
                        ErrorView::MultipleExports(rest[k].name)
                    }
                    &&& !is_resolved(rest[k], exports)
                };
            assert(imports[k] == rest[k]);
            assert forall|j: int| 0 <= j < k implies is_resolved(#[trigger] imports[j], exports) by {
                assert(is_resolved(rest[j], exports));
            }
        }
    }
}

/// The symbols of a module, and the pairs of imports and exports among them.
#[derive(Debug)]
pub struct LinkInfo {
    pub imports: Vec<LinkSymbol>,
    pub exports: Vec<LinkSymbol>,
    pub potential_pairs: Vec<ImportExportPair>,
}

#[verifier::ext_equal]
pub struct InfoView {
    pub imports: Seq<SymbolView>,
    pub exports: Seq<SymbolView>,
    pub pairs: Seq<PairView>,
}

impl View for LinkInfo {
    type V = InfoView;

    open spec fn view(&self) -> InfoView {
        InfoView {
            imports: model::views(self.imports@),
            exports: model::views(self.exports@),
            pairs: model::views(self.potential_pairs@),
        }
    }
}

/// How many symbols have the given name, and where the first one is.
fn count_named(symbols: &Vec<LinkSymbol>, name: &String) -> (r: (usize, usize))
    ensures
        r.0 == named(model::views(symbols@), name@).len(),
        r.0 > 0 ==> r.1 < symbols@.len() && symbols@[r.1 as int]@ == named(
            model::views(symbols@),
            name@,
        )[0],
{
    let ghost all = model::views(symbols@);
    let ghost test = |x: SymbolView| x.name == name@;
    let mut count: usize = 0;
    let mut first: usize = 0;
    assert(all.take(0).filter(test) =~= Seq::empty()) by {
        reveal(Seq::filter);
    }
    for k in 0..symbols.len()
        invariant
            all == model::views(symbols@),
            test == (|x: SymbolView| x.name == name@),
            count <= k,
            count == all.take(k as int).filter(test).len(),
            count > 0 ==> first < symbols@.len() && symbols@[first as int]@ == all.take(
                k as int,
            ).filter(test)[0],
    {
        reveal(Seq::filter);
        assert(all.take(k + 1).drop_last() =~= all.take(k as int));
        assert(all.take(k + 1).last() == symbols@[k as int]@);
        if symbols[k].name == *name {
            if count == 0 {
                first = k;
            }
            count = count + 1;
        }
    }
    assert(all.take(all.len() as int) =~= all);
    (count, first)
}

impl LinkInfo {
    /// Finds the export for each import.
    pub fn find_potential_pairs(self) -> (r: Result<LinkInfo, LinkerError>)
        ensures
            match pairs_of(self@.imports, self@.exports) {
                Ok(pairs) => r is Ok && r->Ok_0@ == (InfoView {
                    pairs: self@.pairs + pairs,
                    ..self@
                }),
                Err(e) => r is Err && r->Err_0@ == e,
            },
    {
        let mut info = self;
        let ghost imports = self@.imports;
        let ghost exports = self@.exports;
        assert(imports.take(0) =~= Seq::empty());
        assert(info@.pairs =~= self@.pairs + Seq::empty());
        let n: usize = info.imports.len();
        for k in 0..n
            invariant
                n == info.imports@.len(),
                info@ == (InfoView { pairs: info@.pairs, ..self@ }),
                imports == self@.imports,
                exports == self@.exports,
                pairs_of(imports.take(k as int), exports) is Ok,
                info@.pairs == self@.pairs + pairs_of(imports.take(k as int), exports)->Ok_0,
        {
            broadcast use model::lemma_views_push;

            assert(imports.take(k + 1).drop_last() =~= imports.take(k as int));
            assert(imports.take(k + 1).last() == info.imports@[k as int]@) by {
                assert(info@.imports[k as int] == info.imports@[k as int]@);
            }
            let (count, first) = count_named(&info.exports, &info.imports[k].name);
            if count == 0 {
                proof {
                    lemma_pairs_prefix(imports, exports, k + 1);
                }
                return Err(LinkerError::UnresolvedSymbol(info.imports[k].name.clone()));
            }
            if count > 1 {
                proof {
                    lemma_pairs_prefix(imports, exports, k + 1);
                }
                return Err(LinkerError::MultipleExports(info.imports[k].name.clone()));
            }
            let pair = ImportExportPair {
                import: info.imports[k].duplicate(),
                export: info.exports[first].duplicate(),
            };
            info.potential_pairs.push(pair);
            assert(info@.pairs =~= self@.pairs + pairs_of(imports.take(k + 1), exports)->Ok_0);
        }
        assert(imports.take(imports.len() as int) =~= imports);
        Ok(info)
    }
}

/// Whether an export has the name of an import.
pub open spec fn is_offered(import: SymbolView, exports: Seq<SymbolView>) -> bool {
    named(exports, import.name).len() > 0
}

/// The imports that take part in linking: all of them, or, where linking may be
/// partial, those that an export has the name of.
pub open spec fn taken(
    imports: Seq<SymbolView>,
    exports: Seq<SymbolView>,
    partial: bool,
) -> Seq<SymbolView> {
    if partial {
        imports.filter(|s: SymbolView| is_offered(s, exports))
    } else {
        imports
    }
}

/// Whether the imports and exports of a module can be read off.
pub open spec fn symbols_readable(m: ModuleView, defs: Map<u32, InstView>) -> bool {
    symbols_of(m, defs, m.annotations) is Some
}

/// All imports of a module, whether an export has their name or not.
pub open spec fn imports_of(m: ModuleView, defs: Map<u32, InstView>) -> Seq<SymbolView> {
    (symbols_of(m, defs, m.annotations)->0).0
}

/// All exports of a module.
pub open spec fn exports_of(m: ModuleView, defs: Map<u32, InstView>) -> Seq<SymbolView> {
    (symbols_of(m, defs, m.annotations)->0).1
}

/// The symbols of a module that take part in linking with the pairs among them, or
/// the error that keeps them from being paired.
pub open spec fn info_of(m: ModuleView, defs: Map<u32, InstView>, partial: bool) -> Result<
    InfoView,
    ErrorView,
> {
    let exports = exports_of(m, defs);
    let imports = taken(imports_of(m, defs), exports, partial);
    match pairs_of(imports, exports) {
        Ok(pairs) => Ok(InfoView { imports, exports, pairs }),
        Err(e) => Err(e),
    }
}

/// Finds the imports and exports of a module, and the export for each import.
pub fn find_import_export_pairs(module: &SpvModule, defs: &DefAnalyzer) -> (r: Result<
    LinkInfo,
    LinkerError,
>)
    requires
        symbols_readable(module@, defs@),
    ensures
        match info_of(module@, defs@, false) {
            Ok(info) => r is Ok && r->Ok_0@ == info,
            Err(e) => r is Err && r->Err_0@ == e,
        },
{
    let (imports, exports) = read_symbols(module, defs).unwrap();
    let info = LinkInfo { imports, exports, potential_pairs: Vec::new() };
    let r = info.find_potential_pairs();
    proof {
        assert(info@.pairs =~= Seq::empty());
        if r is Ok {
            assert(r->Ok_0@.pairs =~= info_of(module@, defs@, false)->Ok_0.pairs);
        }
    }
    r
}

/// The imports that an export has the name of.
fn keep_offered(imports: &Vec<LinkSymbol>, exports: &Vec<LinkSymbol>) -> (r: Vec<LinkSymbol>)
    ensures
        model::views(r@) == taken(model::views(imports@), model::views(exports@), true),
{
    let ghost all = model::views(imports@);
    let ghost keep = |s: SymbolView| is_offered(s, model::views(exports@));
    let mut kept: Vec<LinkSymbol> = Vec::new();
    assert(model::views(kept@) =~= all.take(0).filter(keep)) by {
        reveal(Seq::filter);
    }
    for k in 0..imports.len()
        invariant
            all == model::views(imports@),
            keep == (|s: SymbolView| is_offered(s, model::views(exports@))),
            model::views(kept@) == all.take(k as int).filter(keep),
    {
        broadcast use model::lemma_views_push;

        reveal(Seq::filter);
        assert(all.take(k + 1).drop_last() =~= all.take(k as int));
        assert(all.take(k + 1).last() == imports@[k as int]@);
        let (count, _first) = count_named(exports, &imports[k].name);
        if count > 0 {
            kept.push(imports[k].duplicate());
        }
    }
    assert(all.take(all.len() as int) =~= all);
    kept
}

/// Finds the imports that an export of the module has the name of, the exports, and
/// the export for each of these imports.
pub fn find_partial_pairs(module: &SpvModule, defs: &DefAnalyzer) -> (r: Result<
    LinkInfo,
    LinkerError,
>)
    requires
        symbols_readable(module@, defs@),
    ensures
        match info_of(module@, defs@, true) {
            Ok(info) => r is Ok && r->Ok_0@ == info,
            Err(e) => r is Err && r->Err_0@ == e,
        },
{
    let (all, exports) = read_symbols(module, defs).unwrap();
    let imports = keep_offered(&all, &exports);
    let info = LinkInfo { imports, exports, potential_pairs: Vec::new() };
    let r = info.find_potential_pairs();
    proof {
        assert(info@.pairs =~= Seq::empty());
        if r is Ok {
            assert(r->Ok_0@.pairs =~= info_of(module@, defs@, true)->Ok_0.pairs);
        }
    }
    r
}

/// With partial linking, an import that no export has the name of is no error: the
/// error can only be that several exports have the name of an import.
pub proof fn law_partial_pairs(imports: Seq<SymbolView>, exports: Seq<SymbolView>)
    ensures
        pairs_of(taken(imports, exports, true), exports) matches Err(e) ==> e is MultipleExports,
        pairs_of(taken(imports, exports, true), exports) is Ok <==> forall|k: int|
            0 <= k < imports.len() ==> named(exports, (#[trigger] imports[k]).name).len() <= 1,
{
    let test = |s: SymbolView| is_offered(s, exports);
    let some = taken(imports, exports, true);
    law_pairs(some, exports);
    assert forall|k: int| 0 <= k < some.len() implies {
        &&& is_offered(#[trigger] some[k], exports)
        &&& imports.contains(some[k])
    } by {
        imports.lemma_filter_pred(test, k);
        assert(some.contains(some[k]));
        imports.lemma_filter_contains_rev(test, some[k]);
    }
    if pairs_of(some, exports) is Ok {
        assert forall|k: int| 0 <= k < imports.len() implies named(
            exports,
            (#[trigger] imports[k]).name,
        ).len() <= 1 by {
            if is_offered(imports[k], exports) {
                imports.lemma_filter_contains(test, k);
                let j = choose|j: int| 0 <= j < some.len() && some[j] == imports[k];
                assert(is_resolved(some[j], exports));
            }
        }
    }
    if forall|k: int|
        0 <= k < imports.len() ==> named(exports, (#[trigger] imports[k]).name).len() <= 1 {
        assert forall|k: int| 0 <= k < some.len() implies is_resolved(
            #[trigger] some[k],
            exports,
        ) by {
            assert(is_offered(some[k], exports));
            let j = choose|j: int| 0 <= j < imports.len() && imports[j] == some[k];
            assert(named(exports, imports[j].name).len() <= 1);
        }
    }
}

/// The text of a type, without its id.
pub open spec fn type_text(i: InstView) -> Seq<char> {
    bridge::disassembly(i.opcode, i.result_type, None, i.operands)
}

/// The text of a type, without its id.
pub fn cleanup_type(ty: SpvInst) -> (r: String)
    ensures
        r@ == type_text(ty@),
{
    bridge::disassemble_instruction(
        ty.op,
        ty.result_type,
        None,
        convert::write_operands(&ty.operands),
    )
}

/// Whether two instructions agree in opcode and operands.
pub open spec fn type_identical(a: InstView, b: InstView) -> bool {
    a.opcode == b.opcode && a.operands == b.operands
}

/// Whether the parameters that two symbols both have agree.
pub open spec fn parameters_agree(a: SymbolView, b: SymbolView) -> bool {
    forall|k: int|
        0 <= k < a.parameters.len() && k < b.parameters.len() ==> type_identical(
            #[trigger] a.parameters[k],
            b.parameters[k],
        )
}

/// How a pair passes the comparison of types: with an error where they differ.
/// `None` where a type cannot be read or the parameters do not agree.
pub open spec fn checked_pair(defs: Map<u32, InstView>, p: PairView) -> Option<
    Result<(), ErrorView>,
> {
    if !defs.contains_key(p.import.type_id) || !defs.contains_key(p.export.type_id) {
        None
    } else {
        let import = defs[p.import.type_id];
        let export = defs[p.export.type_id];
        if !signature::type_readable(defs, import) || !signature::type_readable(defs, export) {
            None
        } else if !signature::types_match(defs, import, export) {
            Some(
                Err(
                    ErrorView::TypeMismatch {
                        name: p.import.name,
                        import_type: type_text(import),
                        export_type: type_text(export),
                    },
                ),
            )
        } else if !parameters_agree(p.import, p.export) {
            None
        } else {
            Some(Ok(()))
        }
    }
}

/// How the pairs pass the comparison: the first one that does not decides.
pub open spec fn checked_pairs(defs: Map<u32, InstView>, pairs: Seq<PairView>) -> Option<
    Result<(), ErrorView>,
>
    decreases pairs.len(),
{
    if pairs.len() == 0 {
        Some(Ok(()))
    } else {
        match checked_pairs(defs, pairs.drop_last()) {
            Some(Ok(_)) => checked_pair(defs, pairs.last()),
            other => other,
        }
    }
}

proof fn lemma_checked_prefix(defs: Map<u32, InstView>, pairs: Seq<PairView>, n: int)
    requires
        0 <= n <= pairs.len(),
        checked_pairs(defs, pairs.take(n)) != Some(Ok::<(), ErrorView>(())),
    ensures
        checked_pairs(defs, pairs) == checked_pairs(defs, pairs.take(n)),
    decreases pairs.len() - n,
{
    if n < pairs.len() {
        assert(pairs.take(n + 1).drop_last() =~= pairs.take(n));
        lemma_checked_prefix(defs, pairs, n + 1);
    } else {
        assert(pairs.take(n) =~= pairs);
    }
}

/// Pairs pass the comparison exactly where each of them does.
pub proof fn law_checked_pairs(defs: Map<u32, InstView>, pairs: Seq<PairView>)
    ensures
        checked_pairs(defs, pairs) == Some(Ok::<(), ErrorView>(())) <==> forall|k: int|
            0 <= k < pairs.len() ==> checked_pair(defs, #[trigger] pairs[k]) == Some(
                Ok::<(), ErrorView>(()),
            ),
    decreases pairs.len(),
{
    if pairs.len() > 0 {
        let rest = pairs.drop_last();
        law_checked_pairs(defs, rest);
        assert(pairs[pairs.len() - 1] == pairs.last());
        assert forall|k: int| 0 <= k < rest.len() implies rest[k] == #[trigger] pairs[k] by {}
    }
}

/// Pairs that do not pass the comparison have types that differ.
pub proof fn lemma_mismatch(defs: Map<u32, InstView>, pairs: Seq<PairView>)
    ensures
        checked_pairs(defs, pairs) matches Some(Err(e)) ==> e is TypeMismatch,
    decreases pairs.len(),
{
    if pairs.len() > 0 {
        lemma_mismatch(defs, pairs.drop_last());
    }
}

fn check_parameters(import: &LinkSymbol, export: &LinkSymbol) -> (r: bool)
    ensures
        r == parameters_agree(import@, export@),
{
    let a = &import.parameters;
    let b = &export.parameters;
    let n: usize = if a.len() < b.len() {
        a.len()
    } else {
        b.len()
    };
    for k in 0..n
        invariant
            a == import.parameters,
            b == export.parameters,
            n <= a@.len(),
            n <= b@.len(),
            n == a@.len() || n == b@.len(),
            forall|j: int|
                0 <= j < k ==> type_identical(
                    #[trigger] import@.parameters[j],
                    export@.parameters[j],
                ),
    {
        assert(import@.parameters[k as int] == a@[k as int]@);
        assert(export@.parameters[k as int] == b@[k as int]@);
        let same = a[k].opcode() == b[k].opcode() && model::same_operands(
            &a[k].operands,
            &b[k].operands,
        );
        if !same {
            return false;
        }
    }
    true
}

fn check_pair(defs: &DefAnalyzer, pair: &ImportExportPair) -> (r: Option<Result<(), LinkerError>>)
    ensures
        match checked_pair(defs@, pair@) {
            Some(Ok(_)) => r is Some && r->0 is Ok,
            Some(Err(e)) => r is Some && r->0 is Err && r->0->Err_0@ == e,
            None => r is None,
        },
{
    match (defs.def(pair.import.type_id), defs.def(pair.export.type_id)) {
        (Some(import_type), Some(export_type)) => {
            match (
                signature::read_type(defs, import_type),
                signature::read_type(defs, export_type),
            ) {
                (Some(imp), Some(exp)) => {
                    if !signature::same_opt_type(&imp, &exp) || !signature::same_outline(
                        defs,
                        import_type,
                        export_type,
                    ) {
                        Some(
                            Err(
                                LinkerError::TypeMismatch {
                                    name: pair.import.name.clone(),
                                    import_type: cleanup_type(import_type.duplicate()),
                                    export_type: cleanup_type(export_type.duplicate()),
                                },
                            ),
                        )
                    } else if check_parameters(&pair.import, &pair.export) {
                        Some(Ok(()))
                    } else {
                        None
                    }
                },
                _ => None,
            }
        },
        _ => None,
    }
}

impl LinkInfo {
    /// Compares the types of the pairs, if they can be read.
    pub fn check_pairs(&self, defs: &DefAnalyzer) -> (r: Option<Result<(), LinkerError>>)
        ensures
            match checked_pairs(defs@, self@.pairs) {
                Some(Ok(_)) => r is Some && r->0 is Ok,
                Some(Err(e)) => r is Some && r->0 is Err && r->0->Err_0@ == e,
                None => r is None,
            },
    {
        let ghost all = self@.pairs;
        assert(all.take(0) =~= Seq::empty());
        for k in 0..self.potential_pairs.len()
            invariant
                all == self@.pairs,
                checked_pairs(defs@, all.take(k as int)) == Some(Ok::<(), ErrorView>(())),
        {
            assert(all.take(k + 1).drop_last() =~= all.take(k as int));
            assert(all.take(k + 1).last() == self.potential_pairs@[k as int]@);
            let r = check_pair(defs, &self.potential_pairs[k]);
            match r {
                Some(Ok(_)) => {},
                _ => {
                    proof {
                        lemma_checked_prefix(defs@, all, k + 1);
                    }
                    return r;
                },
            }
        }
        assert(all.take(all.len() as int) =~= all);
        Some(Ok(()))
    }

    /// The pairs of imports and exports, once their types have been found to match.
    pub fn ensure_matching_import_export_pairs(&self, defs: &DefAnalyzer) -> (r: Result<
        &Vec<ImportExportPair>,
        LinkerError,
    >)
        requires
            checked_pairs(defs@, self@.pairs) is Some,
        ensures
            match checked_pairs(defs@, self@.pairs)->0 {
                Ok(_) => r is Ok && model::views(r->Ok_0@) == self@.pairs,
                Err(e) => r is Err && r->Err_0@ == e,
            },
    {
        match self.check_pairs(defs).unwrap() {
            Ok(_) => Ok(&self.potential_pairs),
            Err(e) => Err(e),
        }
    }
}

} // verus!
