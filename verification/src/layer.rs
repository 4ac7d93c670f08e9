//! The layer / overlay / merge engine.
//!
//! A `Layer` is an immutable snapshot: a composition value, an optional
//! shared link to the parent layer, and the config that derived it from the
//! parent. A layer with no parent is a root ("white base"). Mutation always
//! builds a new `Layer` value; published layers are never changed in place.

use std::sync::Arc;
use vstd::prelude::*;

verus! {

/// The content value carried by a layer: a row of slots.
///
/// A composition is only ever changed through [`Composition::apply`]
/// (patching) or extended through layer derivation.
#[derive(Debug)]
pub struct Composition {
    slots: Vec<u64>,
}

impl View for Composition {
    type V = Seq<u64>;

    closed spec fn view(&self) -> Seq<u64> {
        self.slots@
    }
}

impl Clone for Composition {
    fn clone(&self) -> (r: Self)
        ensures
            r@ == self@,
    {
        let slots = clone_slots(&self.slots);
        Composition { slots }
    }
}

fn clone_slots(v: &Vec<u64>) -> (r: Vec<u64>)
    ensures
        r@ == v@,
{
    let r = v.clone();
    proof {
        assert forall|i: int| 0 <= i < v@.len() implies r@[i] == v@[i] by {
            assert(cloned::<u64>(v@[i], r@[i]));
        }
        assert(r@ =~= v@);
    }
    r
}

/// A patch value: replace the content of slot `slot` with `value`.
#[derive(Debug, Clone, Copy, PartialEq, Eq, Structural)]
pub struct Molecule {
    pub slot: usize,
    pub value: u64,
}

/// Derivation parameters: a derived layer gains one slot, computed from the
/// base slot at `source` combined with `value`.
#[derive(Debug, Clone, Copy, PartialEq, Eq, Structural)]
pub struct LayerConfig {
    pub source: usize,
    pub value: u64,
}

/// The supplied config refers to a slot the base composition does not have.
#[derive(Debug, Clone, Copy, PartialEq, Eq, Structural)]
pub struct DerivationError;

/// The supplied patch refers to a slot the composition does not have.
#[derive(Debug, Clone, Copy, PartialEq, Eq, Structural)]
pub struct PatchError;

/// A merged chain does not descend from the tree's root layer.
#[derive(Debug, Clone, Copy, PartialEq, Eq, Structural)]
pub struct RootMismatchError;

/// The composition a config derives from a base composition.
pub open spec fn derive_comp(c: Seq<u64>, config: LayerConfig) -> Seq<u64>
    recommends
        (config.source as int) < c.len(),
{
    c.push(c[config.source as int] ^ config.value)
}

impl Composition {
    /// The composition of a fresh root layer: a single white slot.
    pub fn base() -> (r: Composition)
        ensures
            r@ == seq![0u64],
    {
        let mut slots: Vec<u64> = Vec::new();
        slots.push(0);
        proof {
            assert(slots@ =~= seq![0u64]);
        }
        Composition { slots }
    }

    /// Applies a patch in place: the slot it names is replaced.
    pub fn apply(&mut self, patch: &Molecule) -> (r: Result<(), PatchError>)
        ensures
            r is Ok <==> (patch.slot as int) < old(self)@.len(),
            r is Ok ==> final(self)@ == old(self)@.update(patch.slot as int, patch.value),
            r is Err ==> *final(self) == *old(self),
    {
        if patch.slot < self.slots.len() {
            self.slots[patch.slot] = patch.value;
            Ok(())
        } else {
            Err(PatchError)
        }
    }

    /// Derives the composition of a new child layer from this one.
    pub fn derive(&self, config: LayerConfig) -> (r: Result<Composition, DerivationError>)
        ensures
            r is Ok <==> (config.source as int) < self@.len(),
            r matches Ok(c) ==> c@ == derive_comp(self@, config),
    {
        if config.source < self.slots.len() {
            let mut slots = clone_slots(&self.slots);
            slots.push(self.slots[config.source] ^ config.value);
            Ok(Composition { slots })
        } else {
            Err(DerivationError)
        }
    }

    /// The slots this composition holds.
    pub fn slots(&self) -> (r: &Vec<u64>)
        ensures
            r@ == self@,
    {
        &self.slots
    }

    /// Whether two compositions hold the same slots.
    pub fn same_as(&self, other: &Composition) -> (r: bool)
        ensures
            r == (self@ == other@),
    {
        let r = self.slots == other.slots;
        proof {
            if r {
                assert(self.slots@ =~= other.slots@);
            } else {
                if self.slots@ == other.slots@ {
                    assert(forall|i: int| 0 <= i < self.slots@.len()
                        ==> self.slots@[i] == other.slots@[i]);
                    assert(false);
                }
            }
        }
        r
    }
}

/// An immutable snapshot node of a stack's chain.
pub struct Layer {
    composition: Composition,
    parent: Option<Arc<Layer>>,
    config: Option<LayerConfig>,
}

impl Layer {
    /// A layer is well formed when a parent link and a config come and go
    /// together (a root has neither) and every ancestor is well formed too.
    pub closed spec fn wf(self) -> bool
        decreases self,
    {
        match self.parent {
            Some(p) => self.config is Some && p.wf(),
            None => self.config is None,
        }
    }

    /// The configs that derived this layer from its root, root first.
    pub closed spec fn chain(self) -> Seq<LayerConfig>
        decreases self,
    {
        match self.parent {
            Some(p) => p.chain().push(self.config->0),
            None => Seq::empty(),
        }
    }

    /// The composition of this layer's ultimate root.
    pub closed spec fn root_comp(self) -> Seq<u64>
        decreases self,
    {
        match self.parent {
            Some(p) => p.root_comp(),
            None => self.composition@,
        }
    }

    /// This layer's own composition.
    pub closed spec fn comp(self) -> Seq<u64> {
        self.composition@
    }

    /// Whether this layer is a root (white base).
    pub closed spec fn is_root(self) -> bool {
        self.parent is None
    }

    /// The parent snapshot this layer was derived from, if any.
    pub closed spec fn spec_parent(self) -> Option<Layer> {
        match self.parent {
            Some(p) => Some(*p),
            None => None,
        }
    }

    /// The config that derived this layer from its parent, if any.
    pub closed spec fn spec_config(self) -> Option<LayerConfig> {
        self.config
    }

    /// This layer's composition value.
    pub fn composition(&self) -> (r: &Composition)
        ensures
            r@ == self.comp(),
    {
        &self.composition
    }

    /// The config that derived this layer, if it is not a root.
    pub fn config(&self) -> (r: Option<LayerConfig>)
        ensures
            r == self.spec_config(),
    {
        self.config
    }

    /// A shared pointer to this layer's parent, if it is not a root.
    pub fn parent_layer(&self) -> (r: Option<Arc<Layer>>)
        ensures
            match r {
                Some(p) => self.spec_parent() == Some(*p),
                None => self.spec_parent() == None::<Layer>,
            },
    {
        match &self.parent {
            Some(p) => Some(p.clone()),
            None => None,
        }
    }

    /// Derives a new layer on top of `base` (a missing base stands for a
    /// fresh root). The new layer records `base` as its parent and `config`
    /// as the step that produced it; the base itself is untouched.
    pub fn overlay(base: Option<Arc<Layer>>, config: LayerConfig) -> (r: Result<
        Layer,
        DerivationError,
    >)
        requires
            base matches Some(b) ==> b.wf(),
        ensures
            match base {
                Some(b) => {
                    &&& r is Ok <==> (config.source as int) < b.comp().len()
                    &&& (r matches Ok(l) ==> {
                        &&& l.wf()
                        &&& !l.is_root()
                        &&& l.comp() == derive_comp(b.comp(), config)
                        &&& l.chain() == b.chain().push(config)
                        &&& l.root_comp() == b.root_comp()
                        &&& l.spec_parent() == Some(*b)
                        &&& l.spec_config() == Some(config)
                    })
                },
                None => {
                    &&& r is Ok <==> (config.source as int) < 1
                    &&& (r matches Ok(l) ==> {
                        &&& l.wf()
                        &&& !l.is_root()
                        &&& l.comp() == derive_comp(seq![0u64], config)
                        &&& l.chain() == seq![config]
                        &&& l.root_comp() == seq![0u64]
                        &&& l.spec_config() == Some(config)
                    })
                },
            },
    {
        let base_arc: Arc<Layer> = match base {
            Some(b) => b,
            None => Arc::new(Layer::default()),
        };
        match base_arc.composition.derive(config) {
            Ok(composition) => {
                let l = Layer { composition, parent: Some(base_arc), config: Some(config) };
                proof {
                    assert(l.chain() =~= base_arc.chain().push(config));
                }
                Ok(l)
            },
            Err(e) => Err(e),
        }
    }

    /// Produces a new layer with the same parent and config but the
    /// composition amended by `patch`; this layer itself is untouched.
    pub fn write(&self, patch: &Molecule) -> (r: Result<Layer, PatchError>)
        requires
            self.wf(),
        ensures
            r is Ok <==> (patch.slot as int) < self.comp().len(),
            r matches Ok(l) ==> {
                &&& l.wf()
                &&& l.comp() == self.comp().update(patch.slot as int, patch.value)
                &&& l.spec_parent() == self.spec_parent()
                &&& l.spec_config() == self.spec_config()
                &&& l.chain() == self.chain()
                &&& l.is_root() == self.is_root()
                &&& !self.is_root() ==> l.root_comp() == self.root_comp()
                &&& self.is_root() ==> l.root_comp() == l.comp()
            },
    {
        let mut composition = self.composition.clone();
        match composition.apply(patch) {
            Ok(()) => {
                let parent = clone_parent(&self.parent);
                let l = Layer { composition, parent, config: self.config };
                Ok(l)
            },
            Err(e) => Err(e),
        }
    }

    /// Snapshots this layer's lineage: its root composition and the configs
    /// from root to tip, for folding into a [`LayerTree`].
    pub fn get_config_stack(&self) -> (r: ConfigStack)
        requires
            self.wf(),
        ensures
            r.root_view() == self.root_comp(),
            r.chain() == self.chain(),
    {
        let mut configs: Vec<LayerConfig> = Vec::new();
        let root = self.collect_configs(&mut configs);
        ConfigStack { root, configs }
    }

    fn collect_configs(&self, out: &mut Vec<LayerConfig>) -> (root: Composition)
        requires
            self.wf(),
        ensures
            final(out)@ == old(out)@ + self.chain(),
            root@ == self.root_comp(),
        decreases *self,
    {
        match &self.parent {
            None => {
                proof {
                    assert(out@ =~= old(out)@ + self.chain());
                }
                self.composition.clone()
            },
            Some(p) => {
                let root = p.collect_configs(out);
                if let Some(c) = self.config {
                    out.push(c);
                } else {
                    proof {
                        assert(false);
                    }
                }
                proof {
                    assert(out@ =~= old(out)@ + self.chain());
                }
                root
            },
        }
    }
}

impl Default for Layer {
    /// A fresh root layer: no parent, no config, the white base composition.
    fn default() -> (r: Layer)
        ensures
            r.wf(),
            r.is_root(),
            r.comp() == seq![0u64],
            r.root_comp() == seq![0u64],
            r.chain() == Seq::<LayerConfig>::empty(),
            r.spec_parent() == None::<Layer>,
            r.spec_config() == None::<LayerConfig>,
    {
        Layer { composition: Composition::base(), parent: None, config: None }
    }
}

fn clone_parent(p: &Option<Arc<Layer>>) -> (r: Option<Arc<Layer>>)
    ensures
        r == *p,
{
    match p {
        Some(a) => Some(a.clone()),
        None => None,
    }
}

/// A stack's lineage, as handed to [`LayerTree::merge`]: the root
/// composition and the configs from root to tip.
pub struct ConfigStack {
    root: Composition,
    configs: Vec<LayerConfig>,
}

impl ConfigStack {
    /// The composition of the chain's root layer.
    pub closed spec fn root_view(self) -> Seq<u64> {
        self.root@
    }

    /// The chain's configs, root first.
    pub closed spec fn chain(self) -> Seq<LayerConfig> {
        self.configs@
    }
}

/// Every path that starts at the root of a chain: the chain itself and all
/// of its prefixes, the empty path included.
pub open spec fn prefix_set(c: Seq<LayerConfig>) -> Set<Seq<LayerConfig>> {
    Set::new(|p: Seq<LayerConfig>| p.is_prefix_of(c))
}

/// A successful merge loses nothing and gains the whole merged chain:
/// every path the tree held is still there, and the chain itself is one of
/// its paths.
pub proof fn lemma_merged_paths_contain(pre: Set<Seq<LayerConfig>>, c: Seq<LayerConfig>)
    ensures
        pre.union(prefix_set(c)).contains(c),
        forall|p: Seq<LayerConfig>| pre.contains(p) ==> pre.union(prefix_set(c)).contains(p),
{
    assert(c.is_prefix_of(c));
}

/// The merged structure of all stacks sharing one root, used for export.
///
/// Mathematically the tree is its root composition together with a
/// prefix-closed set of config paths ([`LayerTree::paths`]); chains that
/// share a prefix share the corresponding tree nodes.
pub struct LayerTree {
    root: Composition,
    chains: Vec<Vec<LayerConfig>>,
}

impl LayerTree {
    /// The composition of the tree's root layer.
    pub closed spec fn root_view(self) -> Seq<u64> {
        self.root@
    }

    /// The set of root-anchored paths the tree holds.
    pub closed spec fn paths(self) -> Set<Seq<LayerConfig>> {
        Set::new(
            |p: Seq<LayerConfig>|
                p.len() == 0 || exists|i: int|
                    0 <= i < self.chains@.len() && p.is_prefix_of(self.chains@[i]@),
        )
    }

    /// The composition of the tree's root.
    pub fn root_composition(&self) -> (r: &Composition)
        ensures
            r@ == self.root_view(),
    {
        &self.root
    }

    /// The merged chains, as stored. A path belongs to the tree exactly
    /// when it is empty or a prefix of one of these.
    pub fn chain_list(&self) -> (r: &Vec<Vec<LayerConfig>>)
        ensures
            forall|p: Seq<LayerConfig>|
                self.paths().contains(p) <==> (p.len() == 0 || exists|i: int|
                    0 <= i < r@.len() && p.is_prefix_of(#[trigger] r@[i]@)),
    {
        &self.chains
    }

    /// Seeds a tree with a single chain, rooted at the ultimate ancestor of
    /// `layer`.
    pub fn from(layer: &Layer) -> (r: LayerTree)
        requires
            layer.wf(),
        ensures
            r.root_view() == layer.root_comp(),
            r.paths() == prefix_set(layer.chain()),
    {
        let cs = layer.get_config_stack();
        let mut chains: Vec<Vec<LayerConfig>> = Vec::new();
        chains.push(cs.configs);
        let r = LayerTree { root: cs.root, chains };
        proof {
            assert(r.chains@[0]@ == layer.chain());
            assert forall|p: Seq<LayerConfig>| r.paths().contains(p) implies prefix_set(
                layer.chain(),
            ).contains(p) by {
                if p.len() == 0 {
                    assert(p =~= layer.chain().subrange(0, 0));
                    assert(p.is_prefix_of(layer.chain()));
                } else {
                    let i = choose|i: int| 0 <= i < r.chains@.len() && p.is_prefix_of(r.chains@[i]@);
                    assert(i == 0);
                }
            }
            assert forall|p: Seq<LayerConfig>| prefix_set(layer.chain()).contains(p) implies r.paths().contains(
                p,
            ) by {
                assert(0 <= 0 < r.chains@.len() && p.is_prefix_of(r.chains@[0]@));
            }
            assert(r.paths() =~= prefix_set(layer.chain()));
        }
        r
    }

    /// Folds one stack's chain into the tree. Fails, leaving the tree
    /// untouched, unless the chain's root is identical to the tree's root;
    /// on success the tree gains exactly the chain's paths.
    pub fn merge(&mut self, chain: ConfigStack) -> (r: Result<(), RootMismatchError>)
        ensures
            r is Ok <==> chain.root_view() == old(self).root_view(),
            r is Err ==> *final(self) == *old(self),
            r is Ok ==> {
                &&& final(self).root_view() == old(self).root_view()
                &&& final(self).paths() == old(self).paths().union(prefix_set(chain.chain()))
            },
    {
        if self.root.same_as(&chain.root) {
            self.chains.push(chain.configs);
            proof {
                let oldp = old(self).paths();
                let newp = final(self).paths();
                let n = old(self).chains@.len() as int;
                assert forall|p: Seq<LayerConfig>| newp.contains(p)
                    <==> oldp.union(prefix_set(chain.chain())).contains(p) by {
                    if p.len() == 0 {
                        assert(oldp.contains(p));
                    }
                    if newp.contains(p) && p.len() != 0 {
                        let i = choose|i: int|
                            0 <= i < final(self).chains@.len()
                                && p.is_prefix_of(final(self).chains@[i]@);
                        if i < n {
                            assert(p.is_prefix_of(old(self).chains@[i]@));
                        } else {
                            assert(p.is_prefix_of(chain.configs@));
                        }
                    }
                    if oldp.contains(p) && p.len() != 0 {
                        let i = choose|i: int|
                            0 <= i < old(self).chains@.len()
                                && p.is_prefix_of(old(self).chains@[i]@);
                        assert(p.is_prefix_of(final(self).chains@[i]@));
                    }
                    if prefix_set(chain.chain()).contains(p) {
                        assert(p.is_prefix_of(final(self).chains@[n]@));
                    }
                }
                assert(newp =~= oldp.union(prefix_set(chain.chain())));
            }
            Ok(())
        } else {
            Err(RootMismatchError)
        }
    }
}

} // verus!
