//! Passes that drop repeated declarations within a section.

use vstd::prelude::*;

use crate::bridge;
use crate::convert;
use crate::model;
use crate::model::{
    Duplicate, EnumerantKind, InstView, ModuleView, OperandView, SpvInst, SpvModule, SpvOperand,
};
use crate::opcode;
use crate::rename;
use crate::symbols;
use std::collections::HashSet;

verus! {

/// Whether an element of `s` has the key `k`.
pub open spec fn has_key<A, K>(s: Seq<A>, key: spec_fn(A) -> Option<K>, k: K) -> bool {
    exists|j: int| 0 <= j < s.len() && key(#[trigger] s[j]) == Some(k)
}

/// The elements of `s` without those whose key an earlier element has. Elements
/// without a key all stay.
pub open spec fn keep_first<A, K>(s: Seq<A>, key: spec_fn(A) -> Option<K>) -> Seq<A>
    decreases s.len(),
{
    if s.len() == 0 {
        s
    } else {
        let p = keep_first(s.drop_last(), key);
        if key(s.last()) is Some && has_key(s.drop_last(), key, key(s.last())->0) {
            p
        } else {
            p.push(s.last())
        }
    }
}

/// The index of the first element with the key `k`.
pub open spec fn first_with<A, K>(s: Seq<A>, key: spec_fn(A) -> Option<K>, k: K) -> int
    decreases s.len(),
{
    if s.len() == 0 {
        0
    } else if has_key(s.drop_last(), key, k) {
        first_with(s.drop_last(), key, k)
    } else {
        s.len() - 1
    }
}

pub proof fn lemma_has_key_step<A, K>(s: Seq<A>, i: int, key: spec_fn(A) -> Option<K>, k: K)
    requires
        0 <= i < s.len(),
    ensures
        has_key(s.take(i + 1), key, k) <==> has_key(s.take(i), key, k) || key(s[i]) == Some(k),
{
    let a = s.take(i);
    let b = s.take(i + 1);
    if has_key(a, key, k) {
        let j = choose|j: int| 0 <= j < a.len() && key(#[trigger] a[j]) == Some(k);
        assert(b[j] == a[j]);
    }
    if key(s[i]) == Some(k) {
        assert(b[i] == s[i]);
    }
    if has_key(b, key, k) {
        let j = choose|j: int| 0 <= j < b.len() && key(#[trigger] b[j]) == Some(k);
        if j < i {
            assert(a[j] == b[j]);
        }
    }
}

proof fn lemma_keep_first_step<A, K>(s: Seq<A>, i: int, key: spec_fn(A) -> Option<K>)
    requires
        0 <= i < s.len(),
    ensures
        keep_first(s.take(i + 1), key) == if key(s[i]) is Some && has_key(
            s.take(i),
            key,
            key(s[i])->0,
        ) {
            keep_first(s.take(i), key)
        } else {
            keep_first(s.take(i), key).push(s[i])
        },
{
    assert(s.take(i + 1).drop_last() =~= s.take(i));
    assert(s.take(i + 1).last() == s[i]);
}

/// Whether `places` are the places, in ascending order, where the elements of `r`
/// stand in `s`.
pub open spec fn stand_at<A>(r: Seq<A>, s: Seq<A>, places: Seq<int>) -> bool {
    &&& places.len() == r.len()
    &&& forall|i: int| 0 <= i < r.len() ==> 0 <= #[trigger] places[i] < s.len() && s[places[i]] == r[i]
    &&& forall|i: int, j: int| 0 <= i < j < places.len() ==> places[i] < places[j]
}

/// Whether `r` is what is left of `s` when some elements are removed.
pub open spec fn is_subsequence<A>(r: Seq<A>, s: Seq<A>) -> bool {
    exists|places: Seq<int>| stand_at(r, s, places)
}

/// Keeping the first of each key leaves no key twice, loses no key and no element
/// without a key, and keeps the order.
pub proof fn law_keep_first<A, K>(s: Seq<A>, key: spec_fn(A) -> Option<K>)
    ensures
        forall|i: int, j: int|
            #![trigger keep_first(s, key)[i], keep_first(s, key)[j]]
            0 <= i < j < keep_first(s, key).len() && key(keep_first(s, key)[i]) is Some ==> key(
                keep_first(s, key)[i],
            ) != key(keep_first(s, key)[j]),
        forall|k: K| #[trigger] has_key(keep_first(s, key), key, k) <==> has_key(s, key, k),
        forall|x: A|
            key(x) is None ==> (#[trigger] keep_first(s, key).contains(x) <==> s.contains(x)),
        is_subsequence(keep_first(s, key), s),
    decreases s.len(),
{
    let r = keep_first(s, key);
    if s.len() == 0 {
        assert(stand_at(r, s, Seq::empty()));
    } else {
        let rest = s.drop_last();
        let p = keep_first(rest, key);
        let x = s.last();
        law_keep_first(rest, key);
        let drops = key(x) is Some && has_key(rest, key, key(x)->0);
        assert forall|k: K| #[trigger] has_key(r, key, k) <==> has_key(s, key, k) by {
            lemma_has_key_step(s, s.len() - 1, key, k);
            assert(s.take(s.len() - 1) =~= rest);
            assert(s.take(s.len() as int) =~= s);
            assert(has_key(p, key, k) <==> has_key(rest, key, k));
            if !drops {
                lemma_has_key_step(r, r.len() - 1, key, k);
                assert(r.take(r.len() - 1) =~= p);
                assert(r.take(r.len() as int) =~= r);
            }
        }
        assert forall|y: A| key(y) is None implies (#[trigger] r.contains(y) <==> s.contains(y)) by {
            assert(p.contains(y) <==> rest.contains(y));
            assert(s =~= rest.push(x));
            if s.contains(y) {
                let i = choose|i: int| 0 <= i < s.len() && s[i] == y;
                if i < rest.len() {
                    assert(rest[i] == y);
                    let j = choose|j: int| 0 <= j < p.len() && p[j] == y;
                    assert(r[j] == y);
                } else {
                    assert(r[r.len() - 1] == y);
                }
            }
            if r.contains(y) {
                let j = choose|j: int| 0 <= j < r.len() && r[j] == y;
                if j < p.len() {
                    assert(p[j] == y);
                    let i = choose|i: int| 0 <= i < rest.len() && rest[i] == y;
                    assert(s[i] == y);
                } else {
                    assert(s[s.len() - 1] == y);
                }
            }
        }
        assert forall|i: int, j: int|
            #![trigger r[i], r[j]]
            0 <= i < j < r.len() && key(r[i]) is Some implies key(r[i]) != key(r[j]) by {
            assert(p[i] == r[i]);
            if j < p.len() {
                assert(p[j] == r[j]);
            } else if key(r[j]) == key(r[i]) {
                assert(has_key(p, key, key(r[i])->0));
            }
        }
        let places = choose|places: Seq<int>| stand_at(p, rest, places);
        if drops {
            assert(stand_at(r, s, places));
        } else {
            assert(stand_at(r, s, places.push(s.len() - 1)));
        }
    }
}

/// A sequence in which no key occurs twice stays as it is.
pub proof fn law_keep_first_of_distinct<A, K>(s: Seq<A>, key: spec_fn(A) -> Option<K>)
    requires
        forall|i: int, j: int|
            #![trigger s[i], s[j]]
            0 <= i < j < s.len() && key(s[i]) is Some ==> key(s[i]) != key(s[j]),
    ensures
        keep_first(s, key) == s,
    decreases s.len(),
{
    if s.len() > 0 {
        let rest = s.drop_last();
        assert forall|i: int, j: int|
            #![trigger rest[i], rest[j]]
            0 <= i < j < rest.len() && key(rest[i]) is Some implies key(rest[i]) != key(
            rest[j],
        ) by {
            assert(s[i] == rest[i] && s[j] == rest[j]);
        }
        law_keep_first_of_distinct(rest, key);
        if key(s.last()) is Some && has_key(rest, key, key(s.last())->0) {
            let j = choose|j: int| 0 <= j < rest.len() && key(#[trigger] rest[j]) == key(s.last());
            assert(key(s[j]) != key(s[s.len() - 1]));
        }
        assert(rest.push(s.last()) =~= s);
    }
}

/// The capability that an instruction declares.
pub open spec fn capability_key(i: InstView) -> Option<u32> {
    match i.operands[0] {
        OperandView::Enumerant(e) => if e.kind == EnumerantKind::Capability {
            Some(e.code)
        } else {
            None
        },
        _ => None,
    }
}

/// The module with each capability declared once.
pub open spec fn with_distinct_capabilities(m: ModuleView) -> ModuleView {
    ModuleView {
        capabilities: keep_first(m.capabilities, |i: InstView| capability_key(i)),
        ..m
    }
}

/// Whether every instruction of a section has an operand.
pub open spec fn all_have_operands(s: Seq<InstView>) -> bool {
    model::each(s, |i: InstView| i.operands.len() > 0)
}

/// Tells whether every instruction of a section has an operand.
pub fn has_operands(insts: &Vec<SpvInst>) -> (r: bool)
    ensures
        r == all_have_operands(model::views(insts@)),
{
    let ghost all = model::views(insts@);
    for k in 0..insts.len()
        invariant
            all == model::views(insts@),
            forall|j: int| 0 <= j < k ==> (#[trigger] all[j]).operands.len() > 0,
    {
        assert(all[k as int] == insts@[k as int]@);
        if insts[k].operands.len() == 0 {
            return false;
        }
    }
    true
}

fn read_capability(inst: &SpvInst) -> (r: Option<u32>)
    requires
        inst@.operands.len() > 0,
    ensures
        r == capability_key(inst@),
{
    match &inst.operands[0] {
        SpvOperand::Enumerant(e) => {
            let (kind, code) = e.read();
            if kind == EnumerantKind::Capability {
                Some(code)
            } else {
                None
            }
        },
        _ => None,
    }
}

/// Declares each capability once, where it is first declared.
pub fn remove_duplicate_capablities(module: &mut SpvModule)
    requires
        all_have_operands(old(module)@.capabilities),
    ensures
        final(module)@ == with_distinct_capabilities(old(module)@),
{
    broadcast use vstd::std_specs::hash::group_hash_axioms;

    let ghost all = module@.capabilities;
    let ghost key = |i: InstView| capability_key(i);
    let mut set: HashSet<u32> = HashSet::new();
    let mut caps: Vec<SpvInst> = Vec::new();
    assert(model::views(caps@) =~= keep_first(all.take(0), key));
    for i in 0..module.capabilities.len()
        invariant
            all == model::views(module.capabilities@),
            all_have_operands(all),
            key == (|i: InstView| capability_key(i)),
            forall|c: u32| #[trigger] set@.contains(c) <==> has_key(all.take(i as int), key, c),
            model::views(caps@) == keep_first(all.take(i as int), key),
    {
        broadcast use {vstd::std_specs::hash::group_hash_axioms, model::lemma_views_push};

        let ghost before = set@;
        assert(module.capabilities@[i as int]@ == all[i as int]);
        let c = &module.capabilities[i];
        let keep = match read_capability(c) {
            Some(cap) => set.insert(cap),
            None => true,
        };
        proof {
            lemma_keep_first_step(all, i as int, key);
            assert forall|c: u32| #[trigger] set@.contains(c) <==> has_key(
                all.take(i + 1),
                key,
                c,
            ) by {
                lemma_has_key_step(all, i as int, key, c);
                assert(before.contains(c) <==> has_key(all.take(i as int), key, c));
            }
            if key(all[i as int]) is Some {
                let k = key(all[i as int])->0;
                assert(before.contains(k) <==> has_key(all.take(i as int), key, k));
            }
        }
        if keep {
            caps.push(c.duplicate());
        }
    }
    assert(all.take(all.len() as int) =~= all);
    module.capabilities = caps;
}

/// Appends the words of a list of operands.
pub(crate) fn append_operands_words(out: &mut Vec<u32>, ops: &Vec<SpvOperand>)
    ensures
        final(out)@ == old(out)@ + bridge::operands_words(model::views(ops@)),
{
    let ghost all = model::views(ops@);
    assert(out@ =~= old(out)@ + bridge::operands_words(all.take(0)));
    for j in 0..ops.len()
        invariant
            all == model::views(ops@),
            out@ == old(out)@ + bridge::operands_words(all.take(j as int)),
    {
        let mut words = convert::operand_words(&ops[j]);
        out.append(&mut words);
        assert(all.take(j + 1).drop_last() =~= all.take(j as int));
        assert(all.take(j + 1).last() == ops@[j as int]@);
        assert(out@ =~= old(out)@ + bridge::operands_words(all.take(j + 1)));
    }
    assert(all.take(ops@.len() as int) =~= all);
}

/// Whether the given words are among the entries.
pub open spec fn listed(keys: Seq<Vec<u32>>, words: Seq<u32>) -> bool {
    exists|j: int| 0 <= j < keys.len() && (#[trigger] keys[j])@ == words
}

/// The index of the first entry with the given words.
pub(crate) fn find_words(keys: &Vec<Vec<u32>>, words: &Vec<u32>) -> (r: Option<usize>)
    ensures
        r is Some <==> listed(keys@, words@),
        r is Some ==> r->0 < keys@.len() && keys@[r->0 as int]@ == words@,
        r is Some ==> forall|j: int| 0 <= j < r->0 ==> (#[trigger] keys@[j])@ != words@,
{
    for j in 0..keys.len()
        invariant
            forall|k: int| 0 <= k < j ==> (#[trigger] keys@[k])@ != words@,
    {
        if keys[j] == *words {
            assert(keys@[j as int]@ =~= words@);
            return Some(j);
        }
    }
    None
}

pub proof fn lemma_listed_push(keys: Seq<Vec<u32>>, new: Vec<u32>, words: Seq<u32>)
    ensures
        listed(keys.push(new), words) <==> listed(keys, words) || new@ == words,
{
    let more = keys.push(new);
    if listed(keys, words) {
        let j = choose|j: int| 0 <= j < keys.len() && (#[trigger] keys[j])@ == words;
        assert(more[j]@ == words);
    }
    if new@ == words {
        assert(more[keys.len() as int]@ == words);
    }
    if listed(more, words) {
        let j = choose|j: int| 0 <= j < more.len() && (#[trigger] more[j])@ == words;
        if j < keys.len() {
            assert(keys[j]@ == words);
        }
    }
}

/// The module with repeated annotations dropped.
pub open spec fn with_distinct_annotations(m: ModuleView) -> ModuleView {
    ModuleView { annotations: keep_first(m.annotations, |i: InstView| Some(i)), ..m }
}

/// Tells whether an instruction is among others, the same in all parts.
fn contains_inst(insts: &Vec<SpvInst>, inst: &SpvInst) -> (r: bool)
    ensures
        r == model::views(insts@).contains(inst@),
{
    let ghost all = model::views(insts@);
    for k in 0..insts.len()
        invariant
            all == model::views(insts@),
            forall|j: int| 0 <= j < k ==> all[j] != inst@,
    {
        assert(all[k as int] == insts@[k as int]@);
        if symbols::inst_fully_eq(&insts[k], inst) {
            return true;
        }
    }
    false
}

/// Keeps the first of any annotations that are the same in all parts.
///
/// Merging types and variables makes the decorations of the dropped ids name the
/// kept ones, which are then decorated twice.
pub fn remove_duplicate_annotations(module: &mut SpvModule)
    ensures
        final(module)@ == with_distinct_annotations(old(module)@),
{
    let ghost all = module@.annotations;
    let ghost key = |i: InstView| Some(i);
    let mut kept: Vec<SpvInst> = Vec::new();
    assert(model::views(kept@) =~= keep_first(all.take(0), key));
    for i in 0..module.annotations.len()
        invariant
            all == model::views(module.annotations@),
            key == (|i: InstView| Some(i)),
            model::views(kept@) == keep_first(all.take(i as int), key),
    {
        broadcast use model::lemma_views_push;

        let inst = &module.annotations[i];
        let ghost before = all.take(i as int);
        let ghost here = all[i as int];
        assert(here == inst@);
        proof {
            let so_far = model::views(kept@);
            lemma_keep_first_step(all, i as int, key);
            law_keep_first(before, key);
            assert(has_key(so_far, key, here) <==> has_key(before, key, here));
            if so_far.contains(here) {
                let j = choose|j: int| 0 <= j < so_far.len() && so_far[j] == here;
                assert(key(so_far[j]) == Some(here));
            }
            if has_key(so_far, key, here) {
                let j = choose|j: int| 0 <= j < so_far.len() && key(#[trigger] so_far[j]) == Some(here);
                assert(so_far[j] == here);
            }
        }
        if !contains_inst(&kept, inst) {
            kept.push(inst.duplicate());
        }
    }
    assert(all.take(all.len() as int) =~= all);
    module.annotations = kept;
}

/// The first operand of an entry point that names an interface variable.
pub const INTERFACE_START: usize = 3;

/// The id that an interface operand names.
pub open spec fn interface_key(o: OperandView) -> Option<u32> {
    match o {
        OperandView::IdRef(w) => Some(w),
        _ => None,
    }
}

/// An entry point with each interface variable named once.
pub open spec fn with_distinct_interface(i: InstView) -> InstView {
    if i.opcode == opcode::ENTRY_POINT && i.operands.len() > INTERFACE_START {
        InstView {
            operands: i.operands.take(INTERFACE_START as int) + keep_first(
                i.operands.skip(INTERFACE_START as int),
                |o: OperandView| interface_key(o),
            ),
            ..i
        }
    } else {
        i
    }
}

/// The module with each interface variable named once by each entry point.
pub open spec fn with_distinct_interfaces(m: ModuleView) -> ModuleView {
    ModuleView {
        entry_points: m.entry_points.map_values(|i: InstView| with_distinct_interface(i)),
        ..m
    }
}

fn dedup_interface(inst: &mut SpvInst)
    ensures
        final(inst)@ == with_distinct_interface(old(inst)@),
{
    broadcast use vstd::std_specs::hash::group_hash_axioms;

    if inst.opcode() != opcode::ENTRY_POINT || inst.operands.len() <= INTERFACE_START {
        return;
    }
    let ghost start = inst@;
    let ghost head = start.operands.take(INTERFACE_START as int);
    let ghost tail = start.operands.skip(INTERFACE_START as int);
    let ghost key = |o: OperandView| interface_key(o);
    let mut operands: Vec<SpvOperand> = Vec::new();
    for j in 0..INTERFACE_START
        invariant
            start == inst@,
            start.operands.len() > INTERFACE_START,
            model::views(operands@) == start.operands.take(j as int),
    {
        broadcast use model::lemma_views_push;

        operands.push(inst.operands[j].duplicate());
        assert(start.operands.take(j + 1) =~= start.operands.take(j as int).push(
            inst.operands@[j as int]@,
        ));
    }
    let mut seen: HashSet<u32> = HashSet::new();
    assert(model::views(operands@) =~= head + keep_first(tail.take(0), key));
    for j in INTERFACE_START..inst.operands.len()
        invariant
            start == inst@,
            head == start.operands.take(INTERFACE_START as int),
            tail == start.operands.skip(INTERFACE_START as int),
            key == (|o: OperandView| interface_key(o)),
            start.operands.len() > INTERFACE_START,
            forall|id: u32| #[trigger]
                seen@.contains(id) <==> has_key(tail.take(j - INTERFACE_START), key, id),
            model::views(operands@) == head + keep_first(tail.take(j - INTERFACE_START), key),
    {
        broadcast use {vstd::std_specs::hash::group_hash_axioms, model::lemma_views_push};

        let ghost before = seen@;
        let ghost n = j - INTERFACE_START;
        assert(inst.operands@[j as int]@ == tail[n]);
        let keep = match &inst.operands[j] {
            SpvOperand::IdRef(id) => seen.insert(*id),
            _ => true,
        };
        proof {
            lemma_keep_first_step(tail, n, key);
            assert forall|id: u32| #[trigger] seen@.contains(id) <==> has_key(
                tail.take(n + 1),
                key,
                id,
            ) by {
                lemma_has_key_step(tail, n, key, id);
                assert(before.contains(id) <==> has_key(tail.take(n), key, id));
            }
            if key(tail[n]) is Some {
                let k = key(tail[n])->0;
                assert(before.contains(k) <==> has_key(tail.take(n), key, k));
            }
        }
        if keep {
            operands.push(inst.operands[j].duplicate());
        }
        assert(model::views(operands@) =~= head + keep_first(tail.take(n + 1), key));
    }
    assert(tail.take(tail.len() as int) =~= tail);
    inst.operands = operands;
}

/// Names each interface variable of an entry point once, where it is first named.
///
/// Merging variables makes interface lists name the kept one more than once.
pub fn dedup_entry_point_interfaces(module: &mut SpvModule)
    ensures
        final(module)@ == with_distinct_interfaces(old(module)@),
{
    let ghost start = module@;
    let n: usize = module.entry_points.len();
    for j in 0..n
        invariant
            n == module.entry_points@.len(),
            n == start.entry_points.len(),
            module@ == (ModuleView { entry_points: module@.entry_points, ..start }),
            forall|k: int|
                0 <= k < j ==> (#[trigger] module.entry_points@[k])@ == with_distinct_interface(
                    start.entry_points[k],
                ),
            forall|k: int|
                j <= k < n ==> (#[trigger] module.entry_points@[k])@ == start.entry_points[k],
    {
        assert(module.entry_points@[j as int]@ == start.entry_points[j as int]);
        dedup_interface(&mut module.entry_points[j]);
    }
    assert(module@.entry_points =~= with_distinct_interfaces(start).entry_points);
}

/// The name under which an extended instruction set is imported.
pub open spec fn import_name(i: InstView) -> Option<Seq<char>> {
    if i.operands.len() > 0 && i.operands[0] is LiteralString && i.result_id is Some {
        Some(i.operands[0]->LiteralString_0)
    } else {
        None
    }
}

/// For each repeated import its id and the id of the first import of that name.
pub open spec fn import_remap(s: Seq<InstView>) -> Seq<(u32, u32)>
    decreases s.len(),
{
    if s.len() == 0 {
        Seq::empty()
    } else {
        let key = |i: InstView| import_name(i);
        let rest = s.drop_last();
        let p = import_remap(rest);
        match key(s.last()) {
            Some(name) => if has_key(rest, key, name) {
                p.push((s.last().result_id->0, rest[first_with(rest, key, name)].result_id->0))
            } else {
                p
            },
            None => p,
        }
    }
}

/// The module with each instruction set imported once, and the uses of the
/// dropped imports replaced by uses of the kept ones.
pub open spec fn with_distinct_imports(m: ModuleView) -> ModuleView {
    let kept = ModuleView {
        ext_inst_imports: keep_first(m.ext_inst_imports, |i: InstView| import_name(i)),
        ..m
    };
    rename::replaced_pairs(kept, import_remap(m.ext_inst_imports))
}

pub proof fn lemma_first_with<A, K>(s: Seq<A>, key: spec_fn(A) -> Option<K>, k: K)
    requires
        has_key(s, key, k),
    ensures
        0 <= first_with(s, key, k) < s.len(),
        key(s[first_with(s, key, k)]) == Some(k),
    decreases s.len(),
{
    if has_key(s.drop_last(), key, k) {
        lemma_first_with(s.drop_last(), key, k);
    } else {
        let j = choose|j: int| 0 <= j < s.len() && key(#[trigger] s[j]) == Some(k);
        if j < s.len() - 1 {
            assert(s.drop_last()[j] == s[j]);
        }
    }
}

/// Whether a table has an entry for `name`.
pub open spec fn names(table: Seq<(String, u32)>, name: Seq<char>) -> bool {
    exists|j: int| 0 <= j < table.len() && (#[trigger] table[j]).0@ == name
}

fn find_name(table: &Vec<(String, u32)>, name: &String) -> (r: Option<usize>)
    ensures
        r is Some <==> names(table@, name@),
        r is Some ==> r->0 < table@.len() && table@[r->0 as int].0@ == name@,
{
    for j in 0..table.len()
        invariant
            forall|k: int| 0 <= k < j ==> (#[trigger] table@[k]).0@ != name@,
    {
        if table[j].0 == *name {
            return Some(j);
        }
    }
    None
}

fn read_import_name(inst: &SpvInst) -> (r: Option<String>)
    ensures
        r is Some <==> import_name(inst@) is Some,
        r is Some ==> r->0@ == import_name(inst@)->0,
{
    if inst.operands.len() == 0 || inst.result_id.is_none() {
        return None;
    }
    assert(inst@.operands[0] == inst.operands@[0]@);
    match &inst.operands[0] {
        SpvOperand::LiteralString(s) => Some(s.clone()),
        _ => None,
    }
}

/// Imports each extended instruction set once, where it is first imported, and
/// makes the uses of the dropped imports refer to the kept ones.
pub fn remove_duplicate_ext_inst_imports(module: &mut SpvModule)
    ensures
        final(module)@ == with_distinct_imports(old(module)@),
{
    let ghost all = module@.ext_inst_imports;
    let ghost key = |i: InstView| import_name(i);
    let mut kept_by_name: Vec<(String, u32)> = Vec::new();
    let mut new_imports: Vec<SpvInst> = Vec::new();
    let mut id_remap: Vec<(u32, u32)> = Vec::new();
    assert(model::views(new_imports@) =~= keep_first(all.take(0), key));
    for i in 0..module.ext_inst_imports.len()
        invariant
            all == model::views(module.ext_inst_imports@),
            key == (|i: InstView| import_name(i)),
            forall|name: Seq<char>| #[trigger]
                names(kept_by_name@, name) <==> has_key(all.take(i as int), key, name),
            forall|j: int|
                0 <= j < kept_by_name@.len() ==> (#[trigger] kept_by_name@[j]).1 == all.take(
                    i as int,
                )[first_with(all.take(i as int), key, kept_by_name@[j].0@)].result_id->0,
            model::views(new_imports@) == keep_first(all.take(i as int), key),
            id_remap@ == import_remap(all.take(i as int)),
    {
        broadcast use model::lemma_views_push;

        let ghost before = kept_by_name@;
        let ghost a = all.take(i as int);
        let ghost b = all.take(i + 1);
        let inst = &module.ext_inst_imports[i];
        let ghost here = all[i as int];
        assert(here == inst@);
        proof {
            lemma_keep_first_step(all, i as int, key);
            assert(b.drop_last() =~= a);
            assert(b.last() == here);
            assert forall|j: int| 0 <= j < before.len() implies first_with(
                b,
                key,
                (#[trigger] before[j]).0@,
            ) == first_with(a, key, before[j].0@) && has_key(a, key, before[j].0@)
                && b[first_with(b, key, before[j].0@)] == a[first_with(b, key, before[j].0@)] by {
                assert(names(before, before[j].0@));
                lemma_first_with(a, key, before[j].0@);
            }
        }
        match read_import_name(inst) {
            None => {
                new_imports.push(inst.duplicate());
                proof {
                    assert forall|name: Seq<char>| #[trigger]
                        names(kept_by_name@, name) <==> has_key(b, key, name) by {
                        lemma_has_key_step(all, i as int, key, name);
                    }
                }
            },
            Some(name) => {
                let this_id: u32 = inst.result_id.unwrap();
                match find_name(&kept_by_name, &name) {
                    Some(j) => {
                        id_remap.push((this_id, kept_by_name[j].1));
                        proof {
                            assert(names(before, name@));
                            assert forall|other: Seq<char>| #[trigger]
                                names(kept_by_name@, other) <==> has_key(b, key, other) by {
                                lemma_has_key_step(all, i as int, key, other);
                            }
                        }
                    },
                    None => {
                        let ghost new_name = name@;
                        kept_by_name.push((name, this_id));
                        new_imports.push(inst.duplicate());
                        proof {
                            assert(!names(before, new_name));
                            assert forall|other: Seq<char>| #[trigger]
                                names(kept_by_name@, other) <==> has_key(b, key, other) by {
                                lemma_has_key_step(all, i as int, key, other);
                                assert(names(before, other) <==> has_key(a, key, other));
                                if names(before, other) {
                                    let j = choose|j: int|
                                        0 <= j < before.len() && (#[trigger] before[j]).0@ == other;
                                    assert(kept_by_name@[j].0@ == other);
                                }
                                if other == new_name {
                                    assert(kept_by_name@[before.len() as int].0@ == other);
                                }
                                if names(kept_by_name@, other) {
                                    let j = choose|j: int|
                                        0 <= j < kept_by_name@.len() && (
                                        #[trigger] kept_by_name@[j]).0@ == other;
                                    if j < before.len() {
                                        assert(before[j].0@ == other);
                                    }
                                }
                            }
                            assert forall|j: int| 0 <= j < kept_by_name@.len() implies (
                            #[trigger] kept_by_name@[j]).1 == b[first_with(
                                b,
                                key,
                                kept_by_name@[j].0@,
                            )].result_id->0 by {
                                if j < before.len() {
                                    assert(kept_by_name@[j] == before[j]);
                                } else {
                                    assert(first_with(b, key, new_name) == i);
                                }
                            }
                        }
                    },
                }
            },
        }
    }
    assert(all.take(all.len() as int) =~= all);
    module.ext_inst_imports = new_imports;
    rename::replace_pairs(module, &id_remap);
}

} // verus!
