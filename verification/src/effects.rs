//! What the steps of linking do, in terms of the instructions before and after.

use vstd::prelude::*;

use crate::dedup;
use crate::linkage;
use crate::merging;
use crate::model::{EnumerantKind, FunctionView, InstView, ModuleView, OperandView};
use crate::opcode;
use crate::rename;
use crate::sweep;
use crate::symbols::PairView;

verus! {

/// The places of the elements that are kept: ascending, and each the first one with
/// its key.
pub proof fn lemma_keep_first_places<A, K>(s: Seq<A>, key: spec_fn(A) -> Option<K>) -> (places: Seq<
    int,
>)
    ensures
        dedup::stand_at(dedup::keep_first(s, key), s, places),
        forall|k: int, j: int|
            #![trigger places[k], s[j]]
            0 <= k < places.len() && 0 <= j < places[k] && key(s[places[k]]) is Some ==> key(s[j])
                != key(s[places[k]]),
        forall|j: int|
            #![trigger s[j]]
            0 <= j < s.len() && key(s[j]) is None ==> places.contains(j),
    decreases s.len(),
{
    if s.len() == 0 {
        Seq::empty()
    } else {
        let rest = s.drop_last();
        let n = s.len() - 1;
        let before = lemma_keep_first_places(rest, key);
        let drops = key(s.last()) is Some && dedup::has_key(rest, key, key(s.last())->0);
        let places = if drops {
            before
        } else {
            before.push(n)
        };
        assert(s[n] == s.last());
        assert forall|k: int, j: int|
            #![trigger places[k], s[j]]
            0 <= k < places.len() && 0 <= j < places[k] && key(s[places[k]]) is Some implies key(
            s[j],
        ) != key(s[places[k]]) by {
            if k < before.len() {
                assert(before[k] == places[k]);
                assert(rest[j] == s[j]);
                assert(rest[places[k]] == s[places[k]]);
            } else {
                assert(rest[j] == s[j]);
                if key(rest[j]) == key(s[n]) {
                    assert(dedup::has_key(rest, key, key(s[n])->0));
                }
            }
        }
        assert forall|j: int|
            #![trigger s[j]]
            0 <= j < s.len() && key(s[j]) is None implies places.contains(j) by {
            if j < n {
                assert(rest[j] == s[j]);
                let k = choose|k: int| 0 <= k < before.len() && before[k] == j;
                assert(places[k] == j);
            } else {
                assert(places[before.len() as int] == j);
            }
        }
        places
    }
}

/// Whether an instruction declares the given capability.
pub open spec fn declares_capability(i: InstView, code: u32) -> bool {
    &&& i.operands.len() > 0
    &&& i.operands[0] matches OperandView::Enumerant(e) && e.kind == EnumerantKind::Capability
        && e.code == code
}

/// Dropping repeated capabilities leaves each capability that is declared, where it is
/// first declared, once, and leaves all other instructions.
pub proof fn law_distinct_capabilities(m: ModuleView, code: u32)
    requires
        forall|k: int| 0 <= k < m.capabilities.len() ==> (#[trigger] m.capabilities[k]).operands.len()
            > 0,
    ensures
        ({
            let r = dedup::with_distinct_capabilities(m);
            &&& r == (ModuleView { capabilities: r.capabilities, ..m })
            &&& forall|k: int|
                0 <= k < m.capabilities.len() && declares_capability(
                    #[trigger] m.capabilities[k],
                    code,
                ) ==> exists|j: int|
                    0 <= j < r.capabilities.len() && declares_capability(
                        #[trigger] r.capabilities[j],
                        code,
                    )
            &&& forall|i: int, j: int|
                #![trigger r.capabilities[i], r.capabilities[j]]
                0 <= i < j < r.capabilities.len() && declares_capability(r.capabilities[i], code)
                    ==> !declares_capability(r.capabilities[j], code)
            &&& forall|k: int|
                0 <= k < m.capabilities.len() && !((
                #[trigger] m.capabilities[k]).operands[0] is Enumerant) ==> r.capabilities.contains(
                    m.capabilities[k],
                )
            &&& dedup::is_subsequence(r.capabilities, m.capabilities)
        }),
{
    let s = m.capabilities;
    let key = |i: InstView| dedup::capability_key(i);
    let r = dedup::keep_first(s, key);
    dedup::law_keep_first(s, key);
    let places = lemma_keep_first_places(s, key);
    assert forall|k: int| 0 <= k < s.len() && declares_capability(#[trigger] s[k], code) implies exists|
        j: int,
    |
        0 <= j < r.len() && declares_capability(#[trigger] r[j], code) by {
        assert(key(s[k]) == Some(code));
        assert(dedup::has_key(s, key, code));
        assert(dedup::has_key(r, key, code));
        let j = choose|j: int| 0 <= j < r.len() && key(#[trigger] r[j]) == Some(code);
        assert(s[places[j]] == r[j]);
        assert(declares_capability(r[j], code));
    }
    assert forall|i: int, j: int|
        #![trigger r[i], r[j]]
        0 <= i < j < r.len() && declares_capability(r[i], code) implies !declares_capability(
        r[j],
        code,
    ) by {
        assert(key(r[i]) == Some(code));
        assert(key(r[i]) != key(r[j]));
    }
    assert forall|k: int| 0 <= k < s.len() && !((#[trigger] s[k]).operands[0] is Enumerant) implies r.contains(
        s[k],
    ) by {
        assert(key(s[k]) is None);
        let j = choose|j: int| 0 <= j < places.len() && places[j] == k;
        assert(r[j] == s[k]);
    }
}

/// Dropping repeated annotations leaves each annotation, where it first stands, once.
pub proof fn law_distinct_annotations(m: ModuleView)
    ensures
        ({
            let r = dedup::with_distinct_annotations(m);
            &&& r == (ModuleView { annotations: r.annotations, ..m })
            &&& forall|x: InstView| #[trigger]
                r.annotations.contains(x) <==> m.annotations.contains(x)
            &&& r.annotations.no_duplicates()
            &&& exists|places: Seq<int>|
                {
                    &&& #[trigger] dedup::stand_at(r.annotations, m.annotations, places)
                    &&& forall|k: int, j: int|
                        #![trigger places[k], m.annotations[j]]
                        0 <= k < places.len() && 0 <= j < places[k] ==> m.annotations[j]
                            != r.annotations[k]
                }
        }),
{
    let s = m.annotations;
    let key = |i: InstView| Some(i);
    let r = dedup::keep_first(s, key);
    dedup::law_keep_first(s, key);
    let places = lemma_keep_first_places(s, key);
    assert forall|x: InstView| #[trigger] r.contains(x) <==> s.contains(x) by {
        if s.contains(x) {
            let k = choose|k: int| 0 <= k < s.len() && s[k] == x;
            assert(key(s[k]) == Some(x));
            assert(dedup::has_key(s, key, x));
            assert(dedup::has_key(r, key, x));
            let j = choose|j: int| 0 <= j < r.len() && key(#[trigger] r[j]) == Some(x);
            assert(r[j] == x);
        }
        if r.contains(x) {
            let j = choose|j: int| 0 <= j < r.len() && r[j] == x;
            assert(s[places[j]] == x);
        }
    }
    assert forall|i: int, j: int| 0 <= i < r.len() && 0 <= j < r.len() && i != j implies r[i]
        != r[j] by {
        let (a, b) = if i < j {
            (i, j)
        } else {
            (j, i)
        };
        assert(key(r[a]) != key(r[b]));
    }
    assert forall|k: int, j: int|
        #![trigger places[k], s[j]]
        0 <= k < places.len() && 0 <= j < places[k] implies s[j] != r[k] by {
        assert(key(s[j]) != key(s[places[k]]));
        assert(s[places[k]] == r[k]);
    }
    assert(dedup::stand_at(r, s, places));
}

/// The operands of an entry point before its interface: the execution model, the
/// function and the name.
pub const BEFORE_INTERFACE: usize = 3;

/// Whether the first `n` of `len` places stay.
pub open spec fn stay_in_front(places: Seq<int>, n: int, len: int) -> bool {
    forall|k: int| 0 <= k < n && k < len ==> k < places.len() && #[trigger] places[k] == k
}

/// Whether an operand is one of the interface of an entry point.
pub open spec fn is_in_interface(r: InstView, o: OperandView) -> bool {
    exists|j: int| BEFORE_INTERFACE <= j < r.operands.len() && (#[trigger] r.operands[j]) == o
}

/// Whether `r` is what naming each interface variable once makes of the entry point
/// `i`: the operands before the interface stay, no interface operand is lost, each
/// variable is named once, where it is first named, and the order stays.
pub open spec fn names_each_once(i: InstView, r: InstView, places: Seq<int>) -> bool {
    let n = BEFORE_INTERFACE as int;
    &&& r.opcode == i.opcode
    &&& r.result_type == i.result_type
    &&& r.result_id == i.result_id
    &&& dedup::stand_at(r.operands, i.operands, places)
    &&& stay_in_front(places, n, i.operands.len() as int)
    &&& forall|k: int| n <= k < i.operands.len() ==> is_in_interface(r, #[trigger] i.operands[k])
    &&& forall|j: int, k: int|
        #![trigger places[j], i.operands[k]]
        n <= j < r.operands.len() && r.operands[j] is IdRef && n <= k < places[j] ==> i.operands[k]
            != r.operands[j]
    &&& forall|k: int|
        #![trigger i.operands[k]]
        n <= k < i.operands.len() && !(i.operands[k] is IdRef) ==> places.contains(k)
}

/// Naming each interface variable of an entry point once loses no variable.
pub proof fn law_distinct_interface(i: InstView)
    ensures
        i.opcode == opcode::ENTRY_POINT ==> exists|places: Seq<int>| #[trigger]
            names_each_once(i, dedup::with_distinct_interface(i), places),
        i.opcode != opcode::ENTRY_POINT ==> dedup::with_distinct_interface(i) == i,
{
    let r = dedup::with_distinct_interface(i);
    let n = BEFORE_INTERFACE as int;
    assert(dedup::INTERFACE_START == BEFORE_INTERFACE);
    if i.opcode == opcode::ENTRY_POINT && i.operands.len() > n {
        let tail = i.operands.skip(n);
        let key = |o: OperandView| dedup::interface_key(o);
        let kept = dedup::keep_first(tail, key);
        dedup::law_keep_first(tail, key);
        let inner = lemma_keep_first_places(tail, key);
        let places = Seq::new(
            (n + inner.len()) as nat,
            |k: int|
                if k < n {
                    k
                } else {
                    n + inner[k - n]
                },
        );
        assert(r.operands =~= i.operands.take(n) + kept);
        assert forall|k: int| 0 <= k < r.operands.len() implies 0 <= #[trigger] places[k]
            < i.operands.len() && i.operands[places[k]] == r.operands[k] by {
            if k >= n {
                assert(tail[inner[k - n]] == kept[k - n]);
            }
        }
        assert forall|a: int, b: int| 0 <= a < b < places.len() implies places[a] < places[b] by {
            if a >= n {
                assert(inner[a - n] < inner[b - n]);
            } else if b >= n {
                assert(0 <= inner[b - n]);
            }
        }
        assert forall|k: int| n <= k < i.operands.len() implies is_in_interface(
            r,
            #[trigger] i.operands[k],
        ) by {
            let o = tail[k - n];
            assert(o == i.operands[k]);
            if key(o) is Some {
                let w = key(o)->0;
                assert(dedup::has_key(tail, key, w));
                assert(dedup::has_key(kept, key, w));
                let j = choose|j: int| 0 <= j < kept.len() && key(#[trigger] kept[j]) == Some(w);
                assert(r.operands[n + j] == o);
            } else {
                let j = choose|j: int| 0 <= j < inner.len() && inner[j] == k - n;
                assert(r.operands[n + j] == o);
            }
        }
        assert forall|j: int, k: int|
            #![trigger places[j], i.operands[k]]
            n <= j < r.operands.len() && r.operands[j] is IdRef && n <= k < places[j] implies
            i.operands[k] != r.operands[j] by {
            assert(tail[k - n] == i.operands[k]);
            assert(tail[inner[j - n]] == r.operands[j]);
            assert(key(tail[k - n]) != key(tail[inner[j - n]]));
        }
        assert forall|k: int|
            #![trigger i.operands[k]]
            n <= k < i.operands.len() && !(i.operands[k] is IdRef) implies places.contains(k) by {
            assert(key(tail[k - n]) is None);
            let j = choose|j: int| 0 <= j < inner.len() && inner[j] == k - n;
            assert(places[n + j] == k);
        }
        assert(names_each_once(i, r, places));
    } else {
        let places = Seq::new(i.operands.len(), |k: int| k);
        assert(names_each_once(i, r, places) || i.operands.len() > n);
    }
}

/// The entry points of a module are changed one by one, and nothing else is.
pub proof fn law_distinct_interfaces(m: ModuleView)
    ensures
        ({
            let r = dedup::with_distinct_interfaces(m);
            &&& r == (ModuleView { entry_points: r.entry_points, ..m })
            &&& r.entry_points.len() == m.entry_points.len()
            &&& forall|k: int|
                0 <= k < m.entry_points.len() && (#[trigger] m.entry_points[k]).opcode
                    == opcode::ENTRY_POINT ==> exists|places: Seq<int>| #[trigger]
                    names_each_once(m.entry_points[k], r.entry_points[k], places)
        }),
{
    let r = dedup::with_distinct_interfaces(m);
    assert forall|k: int|
        0 <= k < m.entry_points.len() && (#[trigger] m.entry_points[k]).opcode
            == opcode::ENTRY_POINT implies exists|places: Seq<int>| #[trigger]
        names_each_once(m.entry_points[k], r.entry_points[k], places) by {
        law_distinct_interface(m.entry_points[k]);
        assert(r.entry_points[k] == dedup::with_distinct_interface(m.entry_points[k]));
    }
}

/// Whether an instruction imports the instruction set of the given name under `id`.
pub open spec fn imports_set(i: InstView, id: u32, name: Seq<char>) -> bool {
    &&& i.result_id == Some(id)
    &&& i.operands.len() > 0
    &&& i.operands[0] == OperandView::LiteralString(name)
}

/// What becomes of an id where each instruction set is imported once.
pub open spec fn set_id(m: ModuleView, id: u32) -> u32 {
    rename::followed(dedup::import_remap(m.ext_inst_imports), id)
}

/// Where each repeated import comes from: an earlier import of the same name, which is
/// the first of that name.
pub proof fn lemma_remap_entry(s: Seq<InstView>, k: int)
    requires
        0 <= k < dedup::import_remap(s).len(),
    ensures
        exists|a: int, b: int|
            {
                &&& 0 <= a < b < s.len()
                &&& (#[trigger] s[b]).result_id == Some(dedup::import_remap(s)[k].0)
                &&& (#[trigger] s[a]).result_id == Some(dedup::import_remap(s)[k].1)
                &&& dedup::import_name(s[a]) is Some
                &&& dedup::import_name(s[a]) == dedup::import_name(s[b])
                &&& forall|j: int| 0 <= j < a ==> dedup::import_name(#[trigger] s[j])
                    != dedup::import_name(s[a])
            },
    decreases s.len(),
{
    if s.len() > 0 {
        let rest = s.drop_last();
        let n = s.len() - 1;
        let key = |i: InstView| dedup::import_name(i);
        let p = dedup::import_remap(rest);
        assert(s[n] == s.last());
        if k < p.len() {
            lemma_remap_entry(rest, k);
            let (a, b) = choose|a: int, b: int|
                {
                    &&& 0 <= a < b < rest.len()
                    &&& (#[trigger] rest[b]).result_id == Some(p[k].0)
                    &&& (#[trigger] rest[a]).result_id == Some(p[k].1)
                    &&& dedup::import_name(rest[a]) is Some
                    &&& dedup::import_name(rest[a]) == dedup::import_name(rest[b])
                    &&& forall|j: int| 0 <= j < a ==> dedup::import_name(#[trigger] rest[j])
                        != dedup::import_name(rest[a])
                };
            assert(s[a] == rest[a] && s[b] == rest[b]);
            assert forall|j: int| 0 <= j < a implies dedup::import_name(#[trigger] s[j])
                != dedup::import_name(s[a]) by {
                assert(rest[j] == s[j]);
            }
        } else {
            let name = key(s.last())->0;
            dedup::lemma_first_with(rest, key, name);
            let a = dedup::first_with(rest, key, name);
            assert(s[a] == rest[a]);
            lemma_first_with_first(rest, key, name);
            assert forall|j: int| 0 <= j < a implies dedup::import_name(#[trigger] s[j])
                != dedup::import_name(s[a]) by {
                assert(rest[j] == s[j]);
                assert(key(rest[j]) != Some(name));
            }
            assert(s[n].result_id == Some(dedup::import_remap(s)[k].0));
        }
    }
}

proof fn lemma_first_with_first<A, K>(s: Seq<A>, key: spec_fn(A) -> Option<K>, k: K)
    requires
        dedup::has_key(s, key, k),
    ensures
        forall|j: int| 0 <= j < dedup::first_with(s, key, k) ==> key(#[trigger] s[j]) != Some(k),
    decreases s.len(),
{
    let rest = s.drop_last();
    if dedup::has_key(rest, key, k) {
        lemma_first_with_first(rest, key, k);
        dedup::lemma_first_with(rest, key, k);
        assert forall|j: int| 0 <= j < dedup::first_with(s, key, k) implies key(#[trigger] s[j])
            != Some(k) by {
            assert(rest[j] == s[j]);
        }
    } else {
        assert forall|j: int| 0 <= j < dedup::first_with(s, key, k) implies key(#[trigger] s[j])
            != Some(k) by {
            assert(rest[j] == s[j]);
        }
    }
}

/// Each repeated import is among those remapped.
proof fn lemma_remap_has(s: Seq<InstView>, a: int, b: int)
    requires
        0 <= a < b < s.len(),
        dedup::import_name(s[a]) is Some,
        dedup::import_name(s[a]) == dedup::import_name(s[b]),
    ensures
        exists|k: int|
            0 <= k < dedup::import_remap(s).len() && Some(
                (#[trigger] dedup::import_remap(s)[k]).0,
            ) == s[b].result_id,
    decreases s.len(),
{
    let rest = s.drop_last();
    let n = s.len() - 1;
    let key = |i: InstView| dedup::import_name(i);
    let p = dedup::import_remap(rest);
    let r = dedup::import_remap(s);
    if b < n {
        assert(rest[a] == s[a] && rest[b] == s[b]);
        lemma_remap_has(rest, a, b);
        let k = choose|k: int| 0 <= k < p.len() && Some((#[trigger] p[k]).0) == s[b].result_id;
        assert(r[k] == p[k]);
    } else {
        assert(s.last() == s[b]);
        assert(key(rest[a]) == key(s.last())) by {
            assert(rest[a] == s[a]);
        }
        assert(dedup::has_key(rest, key, key(s.last())->0));
        assert(Some(r[p.len() as int].0) == s[b].result_id);
    }
}

/// Importing each instruction set once makes each use of an import a use of an import
/// of the same name, which stays, and changes nothing else. No name is imported twice.
pub proof fn law_distinct_imports(m: ModuleView)
    requires
        merging::defined_once(m.ext_inst_imports),
    ensures
        ({
            let r = dedup::with_distinct_imports(m);
            let sigma = |x: u32| set_id(m, x);
            let n = m.map_insts(|i: InstView| merging::redirected(i, sigma));
            &&& r == (ModuleView { ext_inst_imports: r.ext_inst_imports, ..n })
            &&& dedup::is_subsequence(r.ext_inst_imports, n.ext_inst_imports)
            &&& forall|k: int, id: u32, name: Seq<char>|
                #![trigger imports_set(m.ext_inst_imports[k], id, name)]
                0 <= k < m.ext_inst_imports.len() && imports_set(m.ext_inst_imports[k], id, name)
                    ==> exists|j: int|
                    0 <= j < r.ext_inst_imports.len() && imports_set(
                        #[trigger] r.ext_inst_imports[j],
                        sigma(id),
                        name,
                    )
            &&& forall|i: int, j: int, x: u32, y: u32, name: Seq<char>|
                #![trigger imports_set(r.ext_inst_imports[i], x, name), imports_set(r.ext_inst_imports[j], y, name)]
                0 <= i < r.ext_inst_imports.len() && 0 <= j < r.ext_inst_imports.len()
                    && imports_set(r.ext_inst_imports[i], x, name) && imports_set(
                    r.ext_inst_imports[j],
                    y,
                    name,
                ) ==> i == j
            &&& forall|x: u32|
                (forall|k: int|
                    0 <= k < m.ext_inst_imports.len() ==> (
                    #[trigger] m.ext_inst_imports[k]).result_id != Some(x)) ==> #[trigger] sigma(x)
                    == x
        }),
{
    let s = m.ext_inst_imports;
    let remap = dedup::import_remap(s);
    let sigma = |x: u32| set_id(m, x);
    let g = |i: InstView| merging::redirected(i, sigma);
    let f = |i: InstView| rename::replaced_by(i, remap);
    let key = |i: InstView| dedup::import_name(i);
    let kept = dedup::keep_first(s, key);
    let b = ModuleView { ext_inst_imports: kept, ..m };
    let r = dedup::with_distinct_imports(m);
    let n = m.map_insts(g);
    rename::lemma_replaced_pairs(b, remap);
    assert forall|i: InstView| #[trigger] f(i) == g(i) by {
        rename::lemma_followed(i, remap);
        assert((|x: u32| rename::followed(remap, x)) =~= sigma);
    }
    assert(f =~= g);
    dedup::law_keep_first(s, key);
    let places = lemma_keep_first_places(s, key);
    assert(dedup::stand_at(r.ext_inst_imports, n.ext_inst_imports, places)) by {
        assert forall|i: int| 0 <= i < r.ext_inst_imports.len() implies 0 <= #[trigger] places[i]
            < n.ext_inst_imports.len() && n.ext_inst_imports[places[i]] == r.ext_inst_imports[i] by {
            assert(s[places[i]] == kept[i]);
        }
    }
    assert forall|i: int, j: int|
        #![trigger remap[i], remap[j]]
        0 <= i < remap.len() && 0 <= j < remap.len() implies remap[i].0 != remap[j].1 by {
        lemma_remap_entry(s, i);
        lemma_remap_entry(s, j);
        let (a, b) = choose|a: int, b: int|
            {
                &&& 0 <= a < b < s.len()
                &&& (#[trigger] s[b]).result_id == Some(remap[i].0)
                &&& (#[trigger] s[a]).result_id == Some(remap[i].1)
                &&& dedup::import_name(s[a]) is Some
                &&& dedup::import_name(s[a]) == dedup::import_name(s[b])
                &&& forall|j: int| 0 <= j < a ==> dedup::import_name(#[trigger] s[j])
                    != dedup::import_name(s[a])
            };
        let (c, d) = choose|a: int, b: int|
            {
                &&& 0 <= a < b < s.len()
                &&& (#[trigger] s[b]).result_id == Some(remap[j].0)
                &&& (#[trigger] s[a]).result_id == Some(remap[j].1)
                &&& dedup::import_name(s[a]) is Some
                &&& dedup::import_name(s[a]) == dedup::import_name(s[b])
                &&& forall|j: int| 0 <= j < a ==> dedup::import_name(#[trigger] s[j])
                    != dedup::import_name(s[a])
            };
        if remap[i].0 == remap[j].1 {
            if b < c {
                assert(s[b].result_id != s[c].result_id);
            } else if c < b {
                assert(s[c].result_id != s[b].result_id);
            } else {
                assert(dedup::import_name(s[a]) != dedup::import_name(s[c]));
            }
        }
    }
    assert forall|k: int, id: u32, name: Seq<char>|
        #![trigger imports_set(s[k], id, name)]
        0 <= k < s.len() && imports_set(s[k], id, name) implies exists|j: int|
        0 <= j < r.ext_inst_imports.len() && imports_set(
            #[trigger] r.ext_inst_imports[j],
            sigma(id),
            name,
        ) by {
        assert(key(s[k]) == Some(name));
        assert(dedup::has_key(s, key, name));
        assert(dedup::has_key(kept, key, name));
        let j = choose|j: int| 0 <= j < kept.len() && key(#[trigger] kept[j]) == Some(name);
        let at = places[j];
        assert(s[at] == kept[j]);
        assert(r.ext_inst_imports[j] == g(kept[j]));
        rename::lemma_followed_once(remap, id);
        if at < k {
            lemma_remap_has(s, at, k);
            let l = choose|l: int|
                0 <= l < remap.len() && (#[trigger] remap[l]).0 == id && rename::followed(remap, id)
                    == remap[l].1;
            lemma_remap_entry(s, l);
            let (a, b) = choose|a: int, b: int|
                {
                    &&& 0 <= a < b < s.len()
                    &&& (#[trigger] s[b]).result_id == Some(remap[l].0)
                    &&& (#[trigger] s[a]).result_id == Some(remap[l].1)
                    &&& dedup::import_name(s[a]) is Some
                    &&& dedup::import_name(s[a]) == dedup::import_name(s[b])
                    &&& forall|j: int| 0 <= j < a ==> dedup::import_name(#[trigger] s[j])
                        != dedup::import_name(s[a])
                };
            if b < k {
                assert(s[b].result_id != s[k].result_id);
            } else if k < b {
                assert(s[k].result_id != s[b].result_id);
            }
            if a < at {
                assert(key(s[a]) != key(s[places[j]]));
            } else if at < a {
                assert(dedup::import_name(s[at]) != dedup::import_name(s[a]));
            }
            assert(imports_set(r.ext_inst_imports[j], sigma(id), name));
        } else if k < at {
            assert(key(s[k]) != key(s[places[j]]));
        } else {
            assert forall|l: int| 0 <= l < remap.len() implies (#[trigger] remap[l]).0 != id by {
                lemma_remap_entry(s, l);
                let (a, b) = choose|a: int, b: int|
                    {
                        &&& 0 <= a < b < s.len()
                        &&& (#[trigger] s[b]).result_id == Some(remap[l].0)
                        &&& (#[trigger] s[a]).result_id == Some(remap[l].1)
                        &&& dedup::import_name(s[a]) is Some
                        &&& dedup::import_name(s[a]) == dedup::import_name(s[b])
                        &&& forall|j: int| 0 <= j < a ==> dedup::import_name(#[trigger] s[j])
                            != dedup::import_name(s[a])
                    };
                if remap[l].0 == id {
                    if b < k {
                        assert(s[b].result_id != s[k].result_id);
                    } else if k < b {
                        assert(s[k].result_id != s[b].result_id);
                    }
                    assert(key(s[a]) != key(s[places[j]]));
                }
            }
            assert(imports_set(r.ext_inst_imports[j], sigma(id), name));
        }
    }
    assert forall|i: int, j: int, x: u32, y: u32, name: Seq<char>|
        #![trigger imports_set(r.ext_inst_imports[i], x, name), imports_set(r.ext_inst_imports[j], y, name)]
        0 <= i < r.ext_inst_imports.len() && 0 <= j < r.ext_inst_imports.len() && imports_set(
            r.ext_inst_imports[i],
            x,
            name,
        ) && imports_set(r.ext_inst_imports[j], y, name) implies i == j by {
        assert(r.ext_inst_imports[i] == g(kept[i]) && r.ext_inst_imports[j] == g(kept[j]));
        assert(key(kept[i]) == Some(name) && key(kept[j]) == Some(name));
        if i < j {
            assert(key(kept[i]) != key(kept[j]));
        }
        if j < i {
            assert(key(kept[j]) != key(kept[i]));
        }
    }
    assert forall|x: u32|
        (forall|k: int| 0 <= k < s.len() ==> (#[trigger] s[k]).result_id != Some(x)) implies
        #[trigger] sigma(x) == x by {
        assert forall|l: int| 0 <= l < remap.len() implies (#[trigger] remap[l]).0 != x by {
            lemma_remap_entry(s, l);
        }
        rename::lemma_followed_once(remap, x);
    }
}

proof fn lemma_followed_other(pairs: Seq<(u32, u32)>, id: u32)
    requires
        forall|k: int| 0 <= k < pairs.len() ==> (#[trigger] pairs[k]).0 != id,
    ensures
        rename::followed(pairs, id) == id,
    decreases pairs.len(),
{
    if pairs.len() > 0 {
        let rest = pairs.drop_last();
        assert forall|k: int| 0 <= k < rest.len() implies (#[trigger] rest[k]).0 != id by {
            assert(rest[k] == pairs[k]);
        }
        lemma_followed_other(rest, id);
        assert(pairs[pairs.len() - 1].0 != id);
    }
}

/// Of the imports of an instruction set, the first is the one that stays.
pub proof fn law_first_import_stays(m: ModuleView, k: int, id: u32, name: Seq<char>)
    requires
        merging::defined_once(m.ext_inst_imports),
        0 <= k < m.ext_inst_imports.len(),
        imports_set(m.ext_inst_imports[k], id, name),
        forall|j: int, w: u32|
            0 <= j < k ==> !#[trigger] imports_set(m.ext_inst_imports[j], w, name),
    ensures
        set_id(m, id) == id,
{
    let s = m.ext_inst_imports;
    let remap = dedup::import_remap(s);
    assert forall|l: int| 0 <= l < remap.len() implies (#[trigger] remap[l]).0 != id by {
        if remap[l].0 == id {
            lemma_remap_entry(s, l);
            let (a, b) = choose|a: int, b: int|
                {
                    &&& 0 <= a < b < s.len()
                    &&& (#[trigger] s[b]).result_id == Some(remap[l].0)
                    &&& (#[trigger] s[a]).result_id == Some(remap[l].1)
                    &&& dedup::import_name(s[a]) is Some
                    &&& dedup::import_name(s[a]) == dedup::import_name(s[b])
                };
            if b < k {
                assert(s[b].result_id != s[k].result_id);
            }
            if k < b {
                assert(s[k].result_id != s[b].result_id);
            }
            assert(imports_set(s[a], remap[l].1, name));
        }
    }
    lemma_followed_other(remap, id);
}

/// An import that names no instruction set or has no id stays.
pub proof fn law_nameless_imports_stay(m: ModuleView, k: int)
    requires
        0 <= k < m.ext_inst_imports.len(),
        forall|id: u32, name: Seq<char>| !#[trigger] imports_set(m.ext_inst_imports[k], id, name),
    ensures
        dedup::with_distinct_imports(m).ext_inst_imports.contains(
            merging::redirected(m.ext_inst_imports[k], |x: u32| set_id(m, x)),
        ),
{
    let s = m.ext_inst_imports;
    let remap = dedup::import_remap(s);
    let key = |i: InstView| dedup::import_name(i);
    let kept = dedup::keep_first(s, key);
    let places = lemma_keep_first_places(s, key);
    if key(s[k]) is Some {
        assert(imports_set(s[k], s[k].result_id->0, key(s[k])->0));
    }
    let j = choose|j: int| 0 <= j < places.len() && places[j] == k;
    assert(s[places[j]] == kept[j]);
    let b = ModuleView { ext_inst_imports: kept, ..m };
    rename::lemma_replaced_pairs(b, remap);
    rename::lemma_followed(s[k], remap);
    assert((|x: u32| rename::followed(remap, x)) =~= (|x: u32| set_id(m, x)));
    assert(dedup::with_distinct_imports(m).ext_inst_imports[j] == rename::replaced_by(s[k], remap));
}

/// Whether an operand is the enumerant with the given kind and number.
pub open spec fn is_the(o: OperandView, kind: EnumerantKind, code: u32) -> bool {
    o matches OperandView::Enumerant(e) && e.kind == kind && e.code == code
}

/// Whether an annotation decorates a symbol for linking.
pub open spec fn marks_symbol(i: InstView) -> bool {
    &&& i.opcode == opcode::DECORATE
    &&& i.operands.len() > 1
    &&& is_the(
        i.operands[1],
        EnumerantKind::Decoration,
        opcode::DECORATION_LINKAGE_ATTRIBUTES,
    )
}

/// Whether an annotation is about `id`: its first operand refers to it.
pub open spec fn speaks_of(i: InstView, id: u32) -> bool {
    i.operands.len() > 0 && i.operands[0].id() == Some(id)
}

/// Whether an id is that of the import of a pair.
pub open spec fn is_import_of(pairs: Seq<PairView>, id: u32) -> bool {
    exists|k: int| 0 <= k < pairs.len() && (#[trigger] pairs[k]).import.id == id
}

/// Whether an id is that of the export of a pair.
pub open spec fn is_export_of(pairs: Seq<PairView>, id: u32) -> bool {
    exists|k: int| 0 <= k < pairs.len() && (#[trigger] pairs[k]).export.id == id
}

/// Whether an annotation only serves linking once the pairs are resolved: it marks a
/// symbol of a pair, or, unless the result is a library, an export.
pub open spec fn only_links(pairs: Seq<PairView>, lib: bool, i: InstView) -> bool {
    &&& marks_symbol(i)
    &&& {
        ||| i.operands[0] matches OperandView::IdRef(id) && (is_import_of(pairs, id)
            || is_export_of(pairs, id))
        ||| !lib && i.operands.len() > 3 && is_the(
            i.operands[3],
            EnumerantKind::LinkageType,
            opcode::LINKAGE_EXPORT,
        )
    }
}

/// Whether an instruction asks for the capability to link.
pub open spec fn asks_for_linkage(i: InstView) -> bool {
    &&& i.opcode == opcode::CAPABILITY
    &&& i.operands.len() > 0
    &&& is_the(i.operands[0], EnumerantKind::Capability, opcode::CAPABILITY_LINKAGE)
}

/// Whether an instruction defines the import of a pair.
pub open spec fn defines_import_of(pairs: Seq<PairView>, i: InstView) -> bool {
    i.result_id matches Some(id) && is_import_of(pairs, id)
}

/// Dropping what only serves linking drops the imports of the pairs, the decorations
/// that mark symbols of pairs, those that mark exports unless the result is a library,
/// and the capability to link. It keeps all else, and the order of functions and
/// declarations.
pub proof fn law_unlinked(m: ModuleView, pairs: Seq<PairView>, lib: bool)
    ensures
        ({
            let r = linkage::unlinked(m, pairs, lib);
            &&& r == (ModuleView {
                functions: r.functions,
                types_global_values: r.types_global_values,
                annotations: r.annotations,
                capabilities: r.capabilities,
                ..m
            })
            &&& dedup::is_subsequence(r.functions, m.functions)
            &&& forall|f: FunctionView|
                f.def is Some && (f.def->0).result_id is Some ==> (#[trigger] r.functions.contains(f)
                    <==> m.functions.contains(f) && !defines_import_of(pairs, f.def->0))
            &&& dedup::is_subsequence(r.types_global_values, m.types_global_values)
            &&& forall|i: InstView| #[trigger]
                r.types_global_values.contains(i) <==> m.types_global_values.contains(i)
                    && !defines_import_of(pairs, i)
            &&& forall|i: InstView| #[trigger]
                r.annotations.contains(i) <==> m.annotations.contains(i) && !only_links(
                    pairs,
                    lib,
                    i,
                )
            &&& forall|i: InstView| #[trigger]
                r.capabilities.contains(i) <==> m.capabilities.contains(i) && !asks_for_linkage(i)
        }),
{
    let r = linkage::unlinked(m, pairs, lib);
    let keep = |f: FunctionView| !linkage::is_imported(pairs, linkage::function_id(f));
    let stay = |i: InstView| !linkage::defines_import(pairs, i);
    let a = merging::lemma_filter_places(m.functions, keep);
    let b = merging::lemma_filter_places(m.types_global_values, stay);
    assert(dedup::stand_at(r.functions, m.functions, a));
    assert(dedup::stand_at(r.types_global_values, m.types_global_values, b));
    assert forall|f: FunctionView|
        f.def is Some && (f.def->0).result_id is Some implies (#[trigger] r.functions.contains(f)
        <==> m.functions.contains(f) && !defines_import_of(pairs, f.def->0)) by {
        if m.functions.contains(f) && !defines_import_of(pairs, f.def->0) {
            let k = choose|k: int| 0 <= k < m.functions.len() && m.functions[k] == f;
            assert(keep(m.functions[k]));
            m.functions.lemma_filter_contains(keep, k);
        }
        if r.functions.contains(f) {
            m.functions.lemma_filter_contains_rev(keep, f);
            let k = choose|k: int| 0 <= k < r.functions.len() && r.functions[k] == f;
            m.functions.lemma_filter_pred(keep, k);
        }
    }
    assert forall|i: InstView| #[trigger] r.types_global_values.contains(i)
        <==> m.types_global_values.contains(i) && !defines_import_of(pairs, i) by {
        let s = m.types_global_values;
        if s.contains(i) && !defines_import_of(pairs, i) {
            let k = choose|k: int| 0 <= k < s.len() && s[k] == i;
            assert(stay(s[k]));
            s.lemma_filter_contains(stay, k);
        }
        if r.types_global_values.contains(i) {
            s.lemma_filter_contains_rev(stay, i);
            let k = choose|k: int| 0 <= k < r.types_global_values.len() && r.types_global_values[k] == i;
            s.lemma_filter_pred(stay, k);
        }
    }
    let on_pair = |i: InstView| linkage::links_pair(pairs, i);
    let on_export = |i: InstView| linkage::links_export(i);
    let rest = sweep::swept(m.annotations, on_pair);
    assert forall|i: InstView| #[trigger] r.annotations.contains(i) <==> m.annotations.contains(i)
        && !only_links(pairs, lib, i) by {
        sweep::law_swept(m.annotations, on_pair, i);
        sweep::law_swept(rest, on_export, i);
        lemma_only_links(pairs, lib, i);
    }
    assert forall|i: InstView| #[trigger] r.capabilities.contains(i) <==> m.capabilities.contains(i)
        && !asks_for_linkage(i) by {
        sweep::law_swept(m.capabilities, |i: InstView| linkage::wants_linkage(i), i);
    }
}

proof fn lemma_only_links(pairs: Seq<PairView>, lib: bool, i: InstView)
    ensures
        only_links(pairs, lib, i) <==> linkage::links_pair(pairs, i) || !lib
            && linkage::links_export(i),
{
    if i.operands.len() > 0 && i.operands[0] is IdRef {
        let id = i.operands[0]->IdRef_0;
        if linkage::is_paired(pairs, id) {
            let k = choose|k: int|
                0 <= k < pairs.len() && ((#[trigger] pairs[k]).import.id == id || pairs[k].export.id
                    == id);
        }
        if is_import_of(pairs, id) {
            let k = choose|k: int| 0 <= k < pairs.len() && (#[trigger] pairs[k]).import.id == id;
        }
        if is_export_of(pairs, id) {
            let k = choose|k: int| 0 <= k < pairs.len() && (#[trigger] pairs[k]).export.id == id;
        }
    }
}

/// Whether an instruction is about one of the ids.
pub open spec fn speaks_of_any(i: InstView, ids: Seq<u32>) -> bool {
    exists|k: int| 0 <= k < ids.len() && speaks_of(i, #[trigger] ids[k])
}

/// Removing what is said about ids removes from each section the instructions about
/// them, and no others. Group decorations are another matter.
pub proof fn law_silenced(m: ModuleView, ids: Seq<u32>, x: InstView)
    requires
        x.opcode != opcode::GROUP_DECORATE,
    ensures
        ({
            let r = sweep::without_all_annotations(m, ids);
            &&& r == (ModuleView {
                annotations: r.annotations,
                debug_string_source: r.debug_string_source,
                debug_names: r.debug_names,
                debug_module_processed: r.debug_module_processed,
                ..m
            })
            &&& r.annotations.contains(x) <==> m.annotations.contains(x) && !speaks_of_any(x, ids)
            &&& r.debug_string_source.contains(x) <==> m.debug_string_source.contains(x)
                && !speaks_of_any(x, ids)
            &&& r.debug_names.contains(x) <==> m.debug_names.contains(x) && !speaks_of_any(x, ids)
            &&& r.debug_module_processed.contains(x) <==> m.debug_module_processed.contains(x)
                && !speaks_of_any(x, ids)
        }),
    decreases ids.len(),
{
    sweep::lemma_without_all_annotations(m, ids);
    if ids.len() > 0 {
        let rest = ids.drop_last();
        let id = ids.last();
        let n = sweep::without_all_annotations(m, rest);
        let dead = |i: InstView| sweep::about(i, id);
        law_silenced(m, rest, x);
        sweep::law_swept(n.annotations, dead, x);
        sweep::law_swept(n.debug_string_source, dead, x);
        sweep::law_swept(n.debug_names, dead, x);
        sweep::law_swept(n.debug_module_processed, dead, x);
        let a = sweep::without_id(n.annotations, id);
        let b = a.map_values(|i: InstView| sweep::pruned(i, id));
        if a.contains(x) {
            let k = choose|k: int| 0 <= k < a.len() && a[k] == x;
            assert(b[k] == x);
        }
        if b.contains(x) {
            let k = choose|k: int| 0 <= k < b.len() && b[k] == x;
            assert(a[k] == x);
        }
        assert(ids[ids.len() - 1] == id);
        if speaks_of_any(x, rest) {
            let k = choose|k: int| 0 <= k < rest.len() && speaks_of(x, #[trigger] rest[k]);
            assert(ids[k] == rest[k]);
        }
        if speaks_of_any(x, ids) {
            let k = choose|k: int| 0 <= k < ids.len() && speaks_of(x, #[trigger] ids[k]);
            if k < rest.len() {
                assert(rest[k] == ids[k]);
            }
        }
    }
}

proof fn lemma_filter_twice<A>(s: Seq<A>, p: spec_fn(A) -> bool, q: spec_fn(A) -> bool)
    ensures
        s.filter(p).filter(q) == s.filter(|x: A| p(x) && q(x)),
    decreases s.len(),
{
    reveal(Seq::filter);
    if s.len() > 0 {
        let a = s.drop_last().filter(p);
        lemma_filter_twice(s.drop_last(), p, q);
        assert(a.push(s.last()).drop_last() =~= a);
    }
}

/// A group decoration without the targets `ids`.
pub open spec fn without_targets(i: InstView, ids: Seq<u32>) -> InstView {
    InstView {
        operands: i.operands.filter(
            |o: OperandView| o matches OperandView::IdRef(w) && !ids.contains(w),
        ),
        ..i
    }
}

/// Removing what is said about ids takes them out of the targets of each decoration of
/// a group that is not about one of them, and leaves the other targets in order.
pub proof fn law_groups_lose_targets(m: ModuleView, ids: Seq<u32>, g: InstView)
    requires
        m.annotations.contains(g),
        g.opcode == opcode::GROUP_DECORATE,
        g.operands.len() > 0,
        g.operands[0] is IdRef,
        !ids.contains(g.operands[0]->IdRef_0),
        ids.len() > 0,
    ensures
        sweep::without_all_annotations(m, ids).annotations.contains(without_targets(g, ids)),
    decreases ids.len(),
{
    let rest = ids.drop_last();
    let id = ids.last();
    let n = sweep::without_all_annotations(m, rest);
    let dead = |i: InstView| sweep::about(i, id);
    let keep = |o: OperandView| o matches OperandView::IdRef(w) && !ids.contains(w);
    let keep_rest = |o: OperandView| o matches OperandView::IdRef(w) && !rest.contains(w);
    let keep_last = |o: OperandView| sweep::stays_in_group(o, id);
    assert(ids =~= rest.push(id));
    assert forall|w: u32| #[trigger] ids.contains(w) <==> rest.contains(w) || w == id by {
        if rest.contains(w) {
            let k = choose|k: int| 0 <= k < rest.len() && rest[k] == w;
            assert(ids[k] == w);
        }
        if w == id {
            assert(ids[ids.len() - 1] == w);
        }
        if ids.contains(w) {
            let k = choose|k: int| 0 <= k < ids.len() && ids[k] == w;
            if k < rest.len() {
                assert(rest[k] == w);
            }
        }
    }
    let h = if rest.len() > 0 {
        without_targets(g, rest)
    } else {
        g
    };
    if rest.len() > 0 {
        assert(!rest.contains(g.operands[0]->IdRef_0));
        law_groups_lose_targets(m, rest, g);
        lemma_filter_head(g.operands, keep_rest);
    } else {
        assert(n == m);
    }
    assert(n.annotations.contains(h));
    assert(h.operands.len() > 0 && h.operands[0] == g.operands[0]);
    assert(!dead(h));
    sweep::law_swept(n.annotations, dead, h);
    let a = sweep::without_id(n.annotations, id);
    let b = a.map_values(|i: InstView| sweep::pruned(i, id));
    let k = choose|k: int| 0 <= k < a.len() && a[k] == h;
    assert(b[k] == sweep::pruned(h, id));
    if rest.len() > 0 {
        lemma_filter_twice(g.operands, keep_rest, keep_last);
        assert((|o: OperandView| keep_rest(o) && keep_last(o)) =~= keep);
    } else {
        assert(keep_last =~= keep);
    }
    assert(b[k] == without_targets(g, ids));
    assert(b.contains(b[k]));
}

proof fn lemma_filter_head<A>(s: Seq<A>, p: spec_fn(A) -> bool)
    requires
        s.len() > 0,
        p(s[0]),
    ensures
        s.filter(p).len() > 0,
        s.filter(p)[0] == s[0],
    decreases s.len(),
{
    reveal(Seq::filter);
    let rest = s.drop_last();
    if rest.len() > 0 {
        assert(rest[0] == s[0]);
        lemma_filter_head(rest, p);
    } else {
        assert(rest.filter(p) =~= Seq::empty());
    }
}

} // verus!
