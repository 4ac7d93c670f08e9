//! The mutable workspace: an ordered collection of stacks plus the two
//! auxiliary registries, and whole-workspace export.
//!
//! Every mutating operation replaces a stack's top pointer with a newly
//! built layer; layers already published are never changed, so a top
//! pointer taken before a mutation keeps showing the old snapshot.

use crate::layer::{
    derive_comp, prefix_set, DerivationError, Layer, LayerConfig, LayerTree, Molecule, PatchError,
    RootMismatchError,
};
use crate::utils::{
    distinct_entries, distinct_pairs, map_of_entries, pair_set, InsertResult, NtoN, UniqueValueMap,
};
use std::sync::Arc;
use vstd::prelude::*;

verus! {

/// Why a stack operation failed.
#[derive(Debug, Clone, Copy, PartialEq, Eq, Structural)]
pub enum WorkspaceError {
    /// The stack index is outside the current bounds.
    IndexNotFound,
    /// The config could not derive a new layer from the current top.
    Derivation(DerivationError),
    /// The patch could not be applied to the current top.
    Patch(PatchError),
}

/// The workspace: stacks, the bijective id registry and the tag relation.
pub struct Workspace {
    stacks: Vec<Arc<Layer>>,
    id_map: UniqueValueMap<usize, String>,
    class_map: NtoN<usize, String>,
}

impl Workspace {
    /// At least one stack, every layer well formed, both registries valid.
    pub closed spec fn inv(self) -> bool {
        &&& self.stacks@.len() >= 1
        &&& (forall|i: int| 0 <= i < self.stacks@.len() ==> (*#[trigger] self.stacks@[i]).wf())
        &&& self.id_map.inv()
        &&& self.class_map.inv()
    }

    /// The current top layer of each stack, in slot order.
    pub closed spec fn stacks_seq(self) -> Seq<Layer> {
        Seq::new(self.stacks@.len(), |i: int| *self.stacks@[i])
    }

    /// The id registry's mapping, stack index to id.
    pub closed spec fn ids(self) -> Map<usize, Seq<char>> {
        self.id_map@
    }

    /// The ids currently in use, across all stack indices.
    pub closed spec fn id_in_use(self) -> Set<Seq<char>> {
        self.id_map.in_use()
    }

    /// The tag relation's pairs, stack index to class label.
    pub closed spec fn classes(self) -> Set<(usize, Seq<char>)> {
        self.class_map@
    }

    /// The id assignment is injective: no two stack indices hold the same
    /// external id.
    pub proof fn lemma_ids_bijective(self, k1: usize, k2: usize)
        requires
            self.inv(),
            self.ids().dom().contains(k1),
            self.ids().dom().contains(k2),
            self.ids()[k1] == self.ids()[k2],
        ensures
            k1 == k2,
    {
        self.id_map.lemma_injective(k1, k2);
    }

    /// The ids in use are exactly the ids the mapping holds.
    pub proof fn lemma_ids_in_use_exact(self)
        requires
            self.inv(),
        ensures
            self.id_in_use() == self.ids().values(),
    {
        self.id_map.lemma_in_use_exact();
    }

    /// A fresh workspace: one root-only stack, empty registries.
    pub fn new() -> (r: Workspace)
        ensures
            r.inv(),
            r.stacks_seq().len() == 1,
            r.stacks_seq()[0].is_root(),
            r.stacks_seq()[0].comp() == seq![0u64],
            r.stacks_seq()[0].root_comp() == seq![0u64],
            r.stacks_seq()[0].chain() == Seq::<LayerConfig>::empty(),
            r.ids() == Map::<usize, Seq<char>>::empty(),
            r.id_in_use() == Set::<Seq<char>>::empty(),
            r.classes() == Set::<(usize, Seq<char>)>::empty(),
    {
        let mut stacks: Vec<Arc<Layer>> = Vec::new();
        stacks.push(Arc::new(Layer::default()));
        Workspace { stacks, id_map: UniqueValueMap::new(), class_map: NtoN::new() }
    }

    /// Appends a new default (root-only) stack; always succeeds.
    pub fn new_empty_stack(&mut self)
        requires
            old(self).inv(),
        ensures
            final(self).inv(),
            final(self).stacks_seq().len() == old(self).stacks_seq().len() + 1,
            forall|i: int|
                0 <= i < old(self).stacks_seq().len() ==> final(self).stacks_seq()[i] == old(self).stacks_seq()[i],
            final(self).stacks_seq().last().is_root(),
            final(self).stacks_seq().last().comp() == seq![0u64],
            final(self).stacks_seq().last().root_comp() == seq![0u64],
            final(self).stacks_seq().last().chain() == Seq::<LayerConfig>::empty(),
            final(self).ids() == old(self).ids(),
            final(self).id_in_use() == old(self).id_in_use(),
            final(self).classes() == old(self).classes(),
    {
        self.stacks.push(Arc::new(Layer::default()));
    }

    /// The shared pointer to the current top of stack `idx`, if it exists.
    /// The pointee is immutable: later mutations of the stack republish a
    /// new top instead of changing this one.
    pub fn top_layer(&self, idx: usize) -> (r: Option<Arc<Layer>>)
        ensures
            match r {
                Some(a) => (idx as int) < self.stacks_seq().len() && *a == self.stacks_seq()[idx as int],
                None => (idx as int) >= self.stacks_seq().len(),
            },
    {
        if idx < self.stacks.len() {
            Some(self.stacks[idx].clone())
        } else {
            None
        }
    }

    /// Replaces the top of stack `base` with a new layer derived by
    /// `config`; the old top becomes the new layer's parent.
    pub fn overlay_to(&mut self, base: usize, config: LayerConfig) -> (r: Result<
        (),
        WorkspaceError,
    >)
        requires
            old(self).inv(),
        ensures
            final(self).inv(),
            match r {
                Ok(()) => {
                    &&& (base as int) < old(self).stacks_seq().len()
                    &&& (config.source as int) < old(self).stacks_seq()[base as int].comp().len()
                    &&& final(self).stacks_seq().len() == old(self).stacks_seq().len()
                    &&& (forall|i: int|
                        0 <= i < old(self).stacks_seq().len() && i != base as int ==> final(self).stacks_seq()[i] == old(self).stacks_seq()[i])
                    &&& final(self).stacks_seq()[base as int].comp() == derive_comp(
                        old(self).stacks_seq()[base as int].comp(),
                        config,
                    )
                    &&& final(self).stacks_seq()[base as int].chain() == old(self).stacks_seq()[base as int].chain().push(config)
                    &&& final(self).stacks_seq()[base as int].root_comp() == old(self).stacks_seq()[base as int].root_comp()
                    &&& final(self).stacks_seq()[base as int].spec_parent() == Some(
                        old(self).stacks_seq()[base as int],
                    )
                    &&& final(self).stacks_seq()[base as int].spec_config() == Some(config)
                    &&& final(self).ids() == old(self).ids()
                    &&& final(self).id_in_use() == old(self).id_in_use()
                    &&& final(self).classes() == old(self).classes()
                },
                Err(e) => {
                    &&& *final(self) == *old(self)
                    &&& (e is IndexNotFound <==> (base as int) >= old(self).stacks_seq().len())
                    &&& (e is Derivation <==> (base as int) < old(self).stacks_seq().len() && (
                    config.source as int) >= old(self).stacks_seq()[base as int].comp().len())
                    &&& !(e is Patch)
                },
            },
    {
        if base < self.stacks.len() {
            let cur = self.stacks[base].clone();
            match Layer::overlay(Some(cur), config) {
                Ok(l) => {
                    self.stacks[base] = Arc::new(l);
                    proof {
                        assert(final(self).stacks_seq() =~= old(self).stacks_seq().update(
                            base as int,
                            final(self).stacks_seq()[base as int],
                        ));
                    }
                    Ok(())
                },
                Err(e) => Err(WorkspaceError::Derivation(e)),
            }
        } else {
            Err(WorkspaceError::IndexNotFound)
        }
    }

    /// Replaces the top of stack `base` with a copy whose composition is
    /// amended by `patch`; lineage (parent and config) is kept.
    pub fn write_to_layer(&mut self, base: usize, patch: Molecule) -> (r: Result<
        (),
        WorkspaceError,
    >)
        requires
            old(self).inv(),
        ensures
            final(self).inv(),
            match r {
                Ok(()) => {
                    &&& (base as int) < old(self).stacks_seq().len()
                    &&& (patch.slot as int) < old(self).stacks_seq()[base as int].comp().len()
                    &&& final(self).stacks_seq().len() == old(self).stacks_seq().len()
                    &&& (forall|i: int|
                        0 <= i < old(self).stacks_seq().len() && i != base as int ==> final(self).stacks_seq()[i] == old(self).stacks_seq()[i])
                    &&& final(self).stacks_seq()[base as int].comp() == old(self).stacks_seq()[base as int].comp().update(patch.slot as int, patch.value)
                    &&& final(self).stacks_seq()[base as int].chain() == old(self).stacks_seq()[base as int].chain()
                    &&& final(self).stacks_seq()[base as int].spec_parent() == old(self).stacks_seq()[base as int].spec_parent()
                    &&& final(self).stacks_seq()[base as int].spec_config() == old(self).stacks_seq()[base as int].spec_config()
                    &&& (!old(self).stacks_seq()[base as int].is_root() ==> final(self).stacks_seq()[base as int].root_comp() == old(self).stacks_seq()[base as int].root_comp())
                    &&& (old(self).stacks_seq()[base as int].is_root() ==> final(self).stacks_seq()[base as int].root_comp() == final(self).stacks_seq()[base as int].comp())
                    &&& final(self).ids() == old(self).ids()
                    &&& final(self).id_in_use() == old(self).id_in_use()
                    &&& final(self).classes() == old(self).classes()
                },
                Err(e) => {
                    &&& *final(self) == *old(self)
                    &&& (e is IndexNotFound <==> (base as int) >= old(self).stacks_seq().len())
                    &&& (e is Patch <==> (base as int) < old(self).stacks_seq().len() && (
                    patch.slot as int) >= old(self).stacks_seq()[base as int].comp().len())
                    &&& !(e is Derivation)
                },
            },
    {
        if base < self.stacks.len() {
            let updated = self.stacks[base].write(&patch);
            match updated {
                Ok(l) => {
                    self.stacks[base] = Arc::new(l);
                    proof {
                        assert(final(self).stacks_seq() =~= old(self).stacks_seq().update(
                            base as int,
                            final(self).stacks_seq()[base as int],
                        ));
                    }
                    Ok(())
                },
                Err(e) => Err(WorkspaceError::Patch(e)),
            }
        } else {
            Err(WorkspaceError::IndexNotFound)
        }
    }

    /// Assigns external id `id` to stack index `idx`, enforcing that no id
    /// is shared by two indices; reports the conflicting index on refusal.
    pub fn set_id(&mut self, idx: usize, id: String) -> (r: InsertResult<usize, String>)
        requires
            old(self).inv(),
        ensures
            final(self).inv(),
            final(self).stacks_seq() == old(self).stacks_seq(),
            final(self).classes() == old(self).classes(),
            match r {
                InsertResult::Duplicated(k2) => {
                    &&& old(self).id_in_use().contains(id@)
                    &&& old(self).ids().dom().contains(k2)
                    &&& old(self).ids()[k2] == id@
                    &&& final(self).ids() == old(self).ids()
                    &&& final(self).id_in_use() == old(self).id_in_use()
                },
                InsertResult::Updated(v_old) => {
                    &&& !old(self).id_in_use().contains(id@)
                    &&& old(self).ids().dom().contains(idx)
                    &&& v_old@ == old(self).ids()[idx]
                    &&& final(self).ids() == old(self).ids().insert(idx, id@)
                    &&& final(self).id_in_use() == old(self).id_in_use().remove(v_old@).insert(id@)
                },
                InsertResult::Created => {
                    &&& !old(self).id_in_use().contains(id@)
                    &&& !old(self).ids().dom().contains(idx)
                    &&& final(self).ids() == old(self).ids().insert(idx, id@)
                    &&& final(self).id_in_use() == old(self).id_in_use().insert(id@)
                },
            },
    {
        self.id_map.insert(idx, id)
    }

    /// Removes the id assigned to `idx`, if any; absent is a no-op.
    pub fn remove_id(&mut self, idx: usize) -> (r: Option<String>)
        requires
            old(self).inv(),
        ensures
            final(self).inv(),
            final(self).stacks_seq() == old(self).stacks_seq(),
            final(self).classes() == old(self).classes(),
            match r {
                Some(v) => {
                    &&& old(self).ids().dom().contains(idx)
                    &&& v@ == old(self).ids()[idx]
                    &&& final(self).ids() == old(self).ids().remove(idx)
                    &&& final(self).id_in_use() == old(self).id_in_use().remove(v@)
                },
                None => {
                    &&& !old(self).ids().dom().contains(idx)
                    &&& final(self).ids() == old(self).ids()
                    &&& final(self).id_in_use() == old(self).id_in_use()
                },
            },
    {
        self.id_map.remove(&idx)
    }

    /// Tags stack index `idx` with class `class`; idempotent.
    pub fn set_to_group(&mut self, idx: usize, class: String) -> (r: bool)
        requires
            old(self).inv(),
        ensures
            final(self).inv(),
            final(self).stacks_seq() == old(self).stacks_seq(),
            final(self).ids() == old(self).ids(),
            final(self).id_in_use() == old(self).id_in_use(),
            r == !old(self).classes().contains((idx, class@)),
            final(self).classes() == old(self).classes().insert((idx, class@)),
    {
        self.class_map.insert(idx, class)
    }

    /// Removes one (index, class) tag; idempotent.
    pub fn remove_from_group(&mut self, idx: usize, class: &String) -> (r: bool)
        requires
            old(self).inv(),
        ensures
            final(self).inv(),
            final(self).stacks_seq() == old(self).stacks_seq(),
            final(self).ids() == old(self).ids(),
            final(self).id_in_use() == old(self).id_in_use(),
            r == old(self).classes().contains((idx, class@)),
            final(self).classes() == old(self).classes().remove((idx, class@)),
    {
        self.class_map.remove(&idx, class)
    }

    /// Removes every tag of stack index `idx`; idempotent.
    pub fn remove_from_all_group(&mut self, idx: usize)
        requires
            old(self).inv(),
        ensures
            final(self).inv(),
            final(self).stacks_seq() == old(self).stacks_seq(),
            final(self).ids() == old(self).ids(),
            final(self).id_in_use() == old(self).id_in_use(),
            final(self).classes() == Set::new(
                |pr: (usize, Seq<char>)| old(self).classes().contains(pr) && pr.0 != idx,
            ),
    {
        self.class_map.remove_left(&idx)
    }

    /// Removes class `class` from every stack index; idempotent.
    pub fn remove_group(&mut self, class: &String)
        requires
            old(self).inv(),
        ensures
            final(self).inv(),
            final(self).stacks_seq() == old(self).stacks_seq(),
            final(self).ids() == old(self).ids(),
            final(self).id_in_use() == old(self).id_in_use(),
            final(self).classes() == Set::new(
                |pr: (usize, Seq<char>)| old(self).classes().contains(pr) && pr.1 != class@,
            ),
    {
        self.class_map.remove_right(class)
    }

    /// Exports the whole workspace: the merged layer tree plus snapshots of
    /// both registries. Fails, returning nothing, unless every stack
    /// descends from the same root as stack 0.
    pub fn export_workspace(&self) -> (r: Result<
        (LayerTree, Vec<(usize, String)>, Vec<(usize, String)>),
        RootMismatchError,
    >)
        requires
            self.inv(),
        ensures
            r is Ok <==> (forall|i: int|
                0 <= i < self.stacks_seq().len() ==> (#[trigger] self.stacks_seq()[i]).root_comp()
                    == self.stacks_seq()[0].root_comp()),
            r matches Ok((tree, ids, classes)) ==> {
                &&& tree.root_view() == self.stacks_seq()[0].root_comp()
                &&& tree.paths() == Set::new(
                    |p: Seq<LayerConfig>|
                        exists|i: int|
                            0 <= i < self.stacks_seq().len() && p.is_prefix_of(
                                #[trigger] self.stacks_seq()[i].chain(),
                            ),
                )
                &&& distinct_entries(ids@)
                &&& map_of_entries(ids@) == self.ids()
                &&& distinct_pairs(classes@)
                &&& pair_set(classes@) == self.classes()
            },
    {
        let first = &self.stacks[0];
        let mut tree = LayerTree::from(first);
        proof {
            assert forall|p: Seq<LayerConfig>| tree.paths().contains(p) <==> exists|j: int|
                0 <= j < 1 && p.is_prefix_of(#[trigger] self.stacks_seq()[j].chain()) by {
                if p.is_prefix_of(self.stacks_seq()[0].chain()) {
                    assert(0 <= 0 < 1 && p.is_prefix_of(self.stacks_seq()[0].chain()));
                }
            }
        }
        let mut i: usize = 1;
        while i < self.stacks.len()
            invariant
                self.inv(),
                1 <= i <= self.stacks@.len(),
                tree.root_view() == self.stacks_seq()[0].root_comp(),
                forall|j: int|
                    0 <= j < i ==> (#[trigger] self.stacks_seq()[j]).root_comp()
                        == self.stacks_seq()[0].root_comp(),
                forall|p: Seq<LayerConfig>|
                    tree.paths().contains(p) <==> exists|j: int|
                        0 <= j < i && p.is_prefix_of(#[trigger] self.stacks_seq()[j].chain()),
            decreases self.stacks@.len() - i,
        {
            let cs = self.stacks[i].get_config_stack();
            let ghost pre_paths = tree.paths();
            match tree.merge(cs) {
                Ok(()) => {
                    proof {
                        let cn = self.stacks_seq()[i as int].chain();
                        assert forall|p: Seq<LayerConfig>| tree.paths().contains(p) implies exists|
                            j: int,
                        | 0 <= j < i + 1 && p.is_prefix_of(
                            #[trigger] self.stacks_seq()[j].chain(),
                        ) by {
                            if pre_paths.contains(p) {
                                let j = choose|j: int|
                                    0 <= j < i && p.is_prefix_of(self.stacks_seq()[j].chain());
                                assert(p.is_prefix_of(self.stacks_seq()[j].chain()));
                            } else {
                                assert(prefix_set(cn).contains(p));
                                assert(p.is_prefix_of(self.stacks_seq()[i as int].chain()));
                            }
                        }
                        assert forall|p: Seq<LayerConfig>|
                            (exists|j: int|
                                0 <= j < i + 1 && p.is_prefix_of(
                                    #[trigger] self.stacks_seq()[j].chain(),
                                )) implies tree.paths().contains(p) by {
                            let j = choose|j: int|
                                0 <= j < i + 1 && p.is_prefix_of(self.stacks_seq()[j].chain());
                            if j < i {
                                assert(pre_paths.contains(p));
                            } else {
                                assert(prefix_set(cn).contains(p));
                            }
                        }
                    }
                },
                Err(e) => {
                    proof {
                        assert(self.stacks_seq()[i as int].root_comp() != self.stacks_seq()[0].root_comp());
                    }
                    return Err(e);
                },
            }
            i += 1;
        }
        let ids = copy_entries(self.id_map.data());
        let classes = copy_entries(self.class_map.data());
        Ok((tree, ids, classes))
    }
}

/// An owned copy of an index/label entry list, for export snapshots.
fn copy_entries(src: &Vec<(usize, String)>) -> (r: Vec<(usize, String)>)
    ensures
        r@ == src@,
{
    let mut r: Vec<(usize, String)> = Vec::new();
    let mut i: usize = 0;
    while i < src.len()
        invariant
            i <= src@.len(),
            r@ == src@.subrange(0, i as int),
        decreases src@.len() - i,
    {
        let e = &src[i];
        r.push((e.0, e.1.clone()));
        proof {
            assert(r@ =~= src@.subrange(0, i + 1));
        }
        i += 1;
    }
    proof {
        assert(r@ =~= src@);
    }
    r
}

} // verus!
