//! Where the ids of a module are defined.

use vstd::prelude::*;

use crate::model;
use crate::model::{Duplicate, InstView, ModuleView, SpvInst, SpvModule};
use std::collections::HashMap;

verus! {

/// Whether an instruction of `insts` defines `id`.
pub open spec fn has_def(insts: Seq<InstView>, id: u32) -> bool {
    exists|k: int| 0 <= k < insts.len() && (#[trigger] insts[k]).result_id == Some(id)
}

/// The index of the last instruction that defines `id`.
pub open spec fn last_def(insts: Seq<InstView>, id: u32) -> int
    decreases insts.len(),
{
    if insts.len() == 0 {
        0
    } else if insts.last().result_id == Some(id) {
        insts.len() - 1
    } else {
        last_def(insts.drop_last(), id)
    }
}

pub proof fn lemma_last_def(insts: Seq<InstView>, id: u32)
    requires
        has_def(insts, id),
    ensures
        0 <= last_def(insts, id) < insts.len(),
        insts[last_def(insts, id)].result_id == Some(id),
    decreases insts.len(),
{
    if insts.last().result_id != Some(id) {
        let k = choose|k: int| 0 <= k < insts.len() && (#[trigger] insts[k]).result_id == Some(id);
        assert(insts.drop_last()[k] == insts[k]);
        lemma_last_def(insts.drop_last(), id);
    }
}

/// The instruction that defines each id; the last one, if there are several.
pub open spec fn definitions(m: ModuleView) -> Map<u32, InstView> {
    let all = m.all_insts();
    Map::new(|id: u32| has_def(all, id), |id: u32| all[last_def(all, id)])
}

/// The instructions of a module by the ids that they define.
pub struct DefAnalyzer {
    pub def_ids: HashMap<u32, SpvInst>,
}

impl View for DefAnalyzer {
    type V = Map<u32, InstView>;

    open spec fn view(&self) -> Map<u32, InstView> {
        Map::new(|id: u32| self.def_ids@.contains_key(id), |id: u32| self.def_ids@[id]@)
    }
}

impl DefAnalyzer {
    /// Collects the definitions of a module.
    pub fn new(module: &SpvModule) -> (r: DefAnalyzer)
        ensures
            r@ == definitions(module@),
            r@.dom().finite(),
    {
        broadcast use vstd::std_specs::hash::group_hash_axioms;

        let insts = module.all_insts();
        let ghost all = module@.all_insts();
        let mut def_ids: HashMap<u32, SpvInst> = HashMap::new();
        for k in 0..insts.len()
            invariant
                all == model::views(insts@),
                forall|id: u32| #[trigger]
                    def_ids@.contains_key(id) <==> has_def(all.take(k as int), id),
                forall|id: u32| #[trigger]
                    def_ids@.contains_key(id) ==> def_ids@[id]@ == all[last_def(
                        all.take(k as int),
                        id,
                    )],
        {
            broadcast use vstd::std_specs::hash::group_hash_axioms;

            let ghost before = def_ids@;
            let ghost prefix = all.take(k as int);
            let ghost longer = all.take(k + 1);
            let ghost here = all[k as int];
            assert(here == insts@[k as int]@);
            assert(longer.drop_last() =~= prefix);
            assert(longer.last() == here);
            if let Some(id) = insts[k].result_id {
                def_ids.insert(id, insts[k].duplicate());
            }
            assert forall|id: u32| #[trigger] def_ids@.contains_key(id) <==> has_def(longer, id) by {
                assert(before.contains_key(id) <==> has_def(prefix, id));
                lemma_has_def_step(all, k as int, id);
            }
            assert forall|id: u32| #[trigger] def_ids@.contains_key(id) implies def_ids@[id]@
                == all[last_def(longer, id)] by {
                if here.result_id != Some(id) {
                    assert(before.contains_key(id));
                }
            }
        }
        assert(all.take(all.len() as int) =~= all);
        let r = DefAnalyzer { def_ids };
        assert(r@ =~= definitions(module@));
        assert(r@.dom() =~= def_ids@.dom());
        r
    }

    /// The instruction that defines `id`, if there is one.
    pub fn def(&self, id: u32) -> (r: Option<&SpvInst>)
        ensures
            r is Some <==> self@.contains_key(id),
            r is Some ==> r->0@ == self@[id],
    {
        broadcast use vstd::std_specs::hash::group_hash_axioms;

        self.def_ids.get(&id)
    }

    /// The number of ids with a definition.
    pub fn count(&self) -> (r: usize)
        ensures
            r == self@.dom().len(),
    {
        broadcast use vstd::std_specs::hash::group_hash_axioms;

        assert(self@.dom() =~= self.def_ids@.dom());
        self.def_ids.len()
    }
}

pub proof fn lemma_has_def_step(all: Seq<InstView>, k: int, id: u32)
    requires
        0 <= k < all.len(),
    ensures
        has_def(all.take(k + 1), id) <==> has_def(all.take(k), id) || all[k].result_id == Some(id),
{
    let prefix = all.take(k);
    let longer = all.take(k + 1);
    if has_def(prefix, id) {
        let j = choose|j: int| 0 <= j < prefix.len() && (#[trigger] prefix[j]).result_id == Some(id);
        assert(longer[j] == prefix[j]);
    }
    if all[k].result_id == Some(id) {
        assert(longer[k].result_id == Some(id));
    }
    if has_def(longer, id) {
        let j = choose|j: int| 0 <= j < longer.len() && (#[trigger] longer[j]).result_id == Some(id);
        if j < k {
            assert(prefix[j] == longer[j]);
        }
    }
}

} // verus!
