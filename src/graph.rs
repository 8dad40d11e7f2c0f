//! The dependency graph of mods and its layered load order.

use crate::descriptor::{DescriptorModel, Module, ModuleDescription};
use crate::document::{first_index, lemma_first_index};
use vstd::prelude::*;

verus! {

/// Why no load order exists.
#[derive(Debug)]
pub enum ResolveError {
    /// Some mods depend on one another in a cycle; holds the UUIDs of the mods
    /// that could not be ordered.
    CycleDetected(Vec<String>),
}

/// The number of `false` entries of `s`.
pub open spec fn pending(s: Seq<bool>) -> nat
    decreases s.len(),
{
    if s.len() == 0 {
        0
    } else {
        pending(s.drop_last()) + if s.last() {
            0nat
        } else {
            1nat
        }
    }
}

proof fn lemma_pending_set(s: Seq<bool>, k: int)
    requires
        0 <= k < s.len(),
        !s[k],
    ensures
        pending(s.update(k, true)) + 1 == pending(s),
    decreases s.len(),
{
    if k == s.len() - 1 {
        assert(s.update(k, true).drop_last() =~= s.drop_last());
    } else {
        lemma_pending_set(s.drop_last(), k);
        assert(s.update(k, true).drop_last() =~= s.drop_last().update(k, true));
    }
}

/// Mods as nodes, the base game at index `0`, and edges `(before, after)`: the mod
/// `before` must load before the mod `after`.
pub struct DependencyGraph {
    pub nodes: Vec<ModuleDescription>,
    pub edges: Vec<(usize, usize)>,
}

impl DependencyGraph {
    /// The base game is a node, edges join nodes, and no two nodes share a UUID.
    pub open spec fn wf(&self) -> bool {
        &&& self.nodes@.len() >= 1
        &&& forall|e: int|
            0 <= e < self.edges@.len() ==> (#[trigger] self.edges@[e]).0 < self.nodes@.len()
                && self.edges@[e].1 < self.nodes@.len()
        &&& forall|i: int, j: int|
            0 <= i < self.nodes@.len() && 0 <= j < self.nodes@.len() && i != j
                ==> (#[trigger] self.nodes@[i]).uuid@ != (#[trigger] self.nodes@[j]).uuid@
    }

    /// Whether some node has the UUID `u`.
    pub open spec fn has_uuid(&self, u: Seq<char>) -> bool {
        exists|i: int| 0 <= i < self.nodes@.len() && (#[trigger] self.nodes@[i]).uuid@ == u
    }

    /// `ord` lists every mod but the base game once, each after all mods it depends on.
    pub open spec fn is_load_order(&self, ord: Seq<usize>) -> bool {
        &&& ord.no_duplicates()
        &&& forall|i: int| 0 <= i < ord.len() ==> 0 < #[trigger] ord[i] < self.nodes@.len()
        &&& forall|v: usize| 0 < v < self.nodes@.len() ==> ord.contains(v)
        &&& forall|j: int, e: int|
            0 <= j < ord.len() && 0 <= e < self.edges@.len() && (#[trigger] self.edges@[e]).1
                == #[trigger] ord[j] && self.edges@[e].0 != 0 ==> ord.take(j).contains(
                self.edges@[e].0,
            )
    }

    /// Whether the mod `v` can load once the mods `before` have: it is not among them,
    /// and each mod it depends on is the base game or among them.
    pub open spec fn is_ready(&self, before: Seq<usize>, v: usize) -> bool {
        &&& 0 < v < self.nodes@.len()
        &&& !before.contains(v)
        &&& forall|e: int|
            0 <= e < self.edges@.len() && (#[trigger] self.edges@[e]).1 == v ==> self.edges@[e].0 == 0
                || before.contains(self.edges@[e].0)
    }

    /// Each layer holds, in ascending node order (the order of discovery), exactly the
    /// mods that are ready once all earlier layers have loaded, and is not empty.
    pub open spec fn is_layering(&self, layers: Seq<Seq<usize>>) -> bool {
        forall|k: int|
            0 <= k < layers.len() ==> {
                &&& (#[trigger] layers[k]).len() > 0
                &&& forall|a: int, b: int| 0 <= a < b < layers[k].len() ==> layers[k][a] < layers[k][b]
                &&& forall|v: usize| layers[k].contains(v) <==> self.is_ready(layers.take(k).flatten(), v)
            }
    }

    /// `ord` is the concatenation of a layering.
    pub open spec fn is_layered_order(&self, ord: Seq<usize>) -> bool {
        exists|layers: Seq<Seq<usize>>| self.is_layering(layers) && ord == layers.flatten()
    }

    /// `rest` is a non-empty set of mods each of which depends on another of them:
    /// following dependencies inside it never ends, so the graph has a cycle.
    pub open spec fn is_stuck(&self, rest: Seq<usize>) -> bool {
        &&& rest.len() > 0
        &&& forall|i: int| 0 <= i < rest.len() ==> 0 < #[trigger] rest[i] < self.nodes@.len()
        &&& forall|i: int| 0 <= i < rest.len() ==> self.depends_within(#[trigger] rest[i], rest)
    }

    /// Whether the mod `x` depends on one of the mods `rest`.
    pub open spec fn depends_within(&self, x: usize, rest: Seq<usize>) -> bool {
        exists|e: int|
            0 <= e < self.edges@.len() && (#[trigger] self.edges@[e]).1 == x && rest.contains(
                self.edges@[e].0,
            )
    }

    /// A graph that holds the base game alone.
    pub fn new(base: &ModuleDescription) -> (r: DependencyGraph)
        ensures
            r.wf(),
            r.nodes@.len() == 1,
            r.nodes@[0]@ == base@,
            r.edges@.len() == 0,
    {
        let mut nodes: Vec<ModuleDescription> = Vec::new();
        nodes.push(base.duplicate());
        DependencyGraph { nodes, edges: Vec::new() }
    }

    /// The index of the node with the UUID `uuid`.
    pub fn node_index(&self, uuid: &String) -> (r: Option<usize>)
        ensures
            r is Some ==> r->0 < self.nodes@.len() && self.nodes@[r->0 as int].uuid@ == uuid@,
            r is None ==> !self.has_uuid(uuid@),
    {
        let mut i: usize = 0;
        while i < self.nodes.len()
            invariant
                i <= self.nodes@.len(),
                forall|j: int| 0 <= j < i ==> (#[trigger] self.nodes@[j]).uuid@ != uuid@,
            decreases self.nodes@.len() - i,
        {
            if self.nodes[i].uuid == *uuid {
                return Some(i);
            }
            i = i + 1;
        }
        None
    }

    /// The node of the descriptor `d`, added where no node has its UUID. A known UUID
    /// keeps the node that was added first, with its fields.
    pub fn add_node(&mut self, d: &ModuleDescription) -> (r: usize)
        requires
            old(self).wf(),
        ensures
            final(self).wf(),
            final(self).edges@ == old(self).edges@,
            r < final(self).nodes@.len(),
            final(self).nodes@[r as int].uuid@ == d.uuid@,
            old(self).has_uuid(d.uuid@) ==> final(self).nodes@ == old(self).nodes@,
            !old(self).has_uuid(d.uuid@) ==> final(self).nodes@.len() == old(self).nodes@.len() + 1
                && final(self).nodes@.take(old(self).nodes@.len() as int) == old(self).nodes@
                && final(self).nodes@.last()@ == d@,
    {
        match self.node_index(&d.uuid) {
            Some(k) => k,
            None => {
                let k = self.nodes.len();
                self.nodes.push(d.duplicate());
                proof {
                    assert(final(self).nodes@.take(k as int) =~= old(self).nodes@);
                }
                k
            },
        }
    }

    /// Adds the edges of a module: the base game, then each of its dependencies, loads
    /// before it.
    pub fn add_module(&mut self, module: &Module)
        requires
            old(self).wf(),
        ensures
            final(self).wf(),
            old(self).nodes@.len() <= final(self).nodes@.len(),
            final(self).nodes@.take(old(self).nodes@.len() as int) == old(self).nodes@,
            final(self).has_uuid(module.description.uuid@),
            forall|i: int|
                0 <= i < module.dependencies@.len() ==> final(self).has_uuid(
                    (#[trigger] module.dependencies@[i]).uuid@,
                ),
            forall|i: int|
                old(self).nodes@.len() <= i < final(self).nodes@.len()
                    ==> (#[trigger] final(self).nodes@[i])@ == module.description@ || exists|k: int|
                    0 <= k < module.dependencies@.len() && final(self).nodes@[i]@ == (
                    #[trigger] module.dependencies@[k])@,
            final(self).edges@.len() == old(self).edges@.len() + module.dependencies@.len() + 1,
            final(self).edges@.take(old(self).edges@.len() as int) == old(self).edges@,
            ({
                let m = final(self).edges@[old(self).edges@.len() as int].1;
                &&& final(self).edges@[old(self).edges@.len() as int].0 == 0
                &&& final(self).nodes@[m as int].uuid@ == module.description.uuid@
                &&& forall|i: int|
                    0 <= i < module.dependencies@.len() ==> {
                        let e = #[trigger] final(self).edges@[old(self).edges@.len() + 1 + i];
                        &&& e.1 == m
                        &&& final(self).nodes@[e.0 as int].uuid@ == module.dependencies@[i].uuid@
                    }
            }),
    {
        let ghost old_nodes = self.nodes@;
        let ghost old_edges = self.edges@;
        let m = self.add_node(&module.description);
        self.edges.push((0, m));
        proof {
            assert(self.has_uuid(module.description.uuid@));
        }
        let mut i: usize = 0;
        while i < module.dependencies.len()
            invariant
                self.wf(),
                i <= module.dependencies@.len(),
                m < self.nodes@.len(),
                old_nodes.len() <= self.nodes@.len(),
                self.nodes@.take(old_nodes.len() as int) == old_nodes,
                self.nodes@[m as int].uuid@ == module.description.uuid@,
                self.has_uuid(module.description.uuid@),
                forall|k: int| 0 <= k < i ==> self.has_uuid((#[trigger] module.dependencies@[k]).uuid@),
                forall|j: int|
                    old_nodes.len() <= j < self.nodes@.len() ==> (#[trigger] self.nodes@[j])@
                        == module.description@ || exists|k: int|
                        0 <= k < module.dependencies@.len() && self.nodes@[j]@ == (
                        #[trigger] module.dependencies@[k])@,
                self.edges@.len() == old_edges.len() + 1 + i,
                self.edges@.take(old_edges.len() as int) == old_edges,
                self.edges@[old_edges.len() as int] == (0usize, m),
                forall|k: int|
                    0 <= k < i ==> {
                        let e = #[trigger] self.edges@[old_edges.len() + 1 + k];
                        &&& e.1 == m
                        &&& self.nodes@[e.0 as int].uuid@ == module.dependencies@[k].uuid@
                    },
            decreases module.dependencies@.len() - i,
        {
            let ghost before_nodes = self.nodes@;
            let ghost before_edges = self.edges@;
            let k = self.add_node(&module.dependencies[i]);
            proof {
                if self.nodes@ != before_nodes {
                    assert forall|j: int| 0 <= j < before_nodes.len() implies self.nodes@[j]
                        == before_nodes[j] by {
                        assert(self.nodes@.take(before_nodes.len() as int)[j] == self.nodes@[j]);
                    }
                    assert(self.nodes@.take(old_nodes.len() as int) =~= old_nodes);
                    assert(self.nodes@[before_nodes.len() as int]@ == module.dependencies@[i as int]@);
                }
            }
            proof {
                assert forall|j: int|
                    old_nodes.len() <= j < self.nodes@.len() implies (#[trigger] self.nodes@[j])@
                        == module.description@ || exists|x: int|
                        0 <= x < module.dependencies@.len() && self.nodes@[j]@ == (
                        #[trigger] module.dependencies@[x])@ by {
                    if j < before_nodes.len() {
                        if self.nodes@ != before_nodes {
                            assert(self.nodes@.take(before_nodes.len() as int)[j] == self.nodes@[j]);
                        }
                        assert(self.nodes@[j] == before_nodes[j]);
                    } else {
                        assert(self.nodes@[j]@ == module.dependencies@[i as int]@);
                    }
                }
            }
            self.edges.push((k, m));
            proof {
                assert(self.edges@.take(old_edges.len() as int) =~= old_edges);
                assert(self.has_uuid(module.dependencies@[i as int].uuid@)) by {
                    assert(self.nodes@[k as int].uuid@ == module.dependencies@[i as int].uuid@);
                }
                assert forall|x: int| 0 <= x < i + 1 implies self.has_uuid(
                    (#[trigger] module.dependencies@[x]).uuid@,
                ) by {
                    if x < i {
                        let w = choose|w: int|
                            0 <= w < before_nodes.len() && (#[trigger] before_nodes[w]).uuid@
                                == module.dependencies@[x].uuid@;
                        assert(self.nodes@[w] == before_nodes[w]);
                    }
                }
                assert(self.has_uuid(module.description.uuid@)) by {
                    assert(self.nodes@[m as int] == before_nodes[m as int]);
                }
            }
            i = i + 1;
        }
    }

    /// Whether every mod that `v` depends on is marked in `done`.
    fn preds_done(&self, v: usize, done: &Vec<bool>) -> (r: bool)
        requires
            self.wf(),
            done@.len() == self.nodes@.len(),
        ensures
            r == forall|e: int|
                0 <= e < self.edges@.len() && (#[trigger] self.edges@[e]).1 == v
                    ==> done@[self.edges@[e].0 as int],
    {
        let mut i: usize = 0;
        while i < self.edges.len()
            invariant
                self.wf(),
                done@.len() == self.nodes@.len(),
                i <= self.edges@.len(),
                forall|e: int|
                    0 <= e < i && (#[trigger] self.edges@[e]).1 == v ==> done@[self.edges@[e].0 as int],
            decreases self.edges@.len() - i,
        {
            let (a, b) = self.edges[i];
            if b == v && !done[a] {
                return false;
            }
            i = i + 1;
        }
        true
    }

    /// The load order as node indices, built layer by layer: each layer holds, in
    /// order of discovery, the mods whose dependencies all lie in earlier layers.
    /// Fails with the mods that no layer could take, each of which depends on another
    /// of them.
    pub fn resolve_order(&self) -> (r: Result<Vec<usize>, Vec<usize>>)
        requires
            self.wf(),
        ensures
            r is Ok ==> self.is_load_order(r->Ok_0@) && self.is_layered_order(r->Ok_0@),
            r is Err ==> self.is_stuck(r->Err_0@),
    {
        let n = self.nodes.len();
        let mut done: Vec<bool> = Vec::new();
        let mut i: usize = 0;
        while i < n
            invariant
                i <= n,
                done@.len() == i,
                forall|k: int| 0 <= k < i ==> done@[k] == (k == 0),
            decreases n - i,
        {
            done.push(i == 0);
            i = i + 1;
        }
        let mut order: Vec<usize> = Vec::new();
        let ghost mut layers: Seq<Seq<usize>> = Seq::empty();
        proof {
            assert(order@ =~= layers.flatten());
        }
        loop
            invariant
                self.wf(),
                self.is_layering(layers),
                order@ == layers.flatten(),
                n == self.nodes@.len(),
                done@.len() == n,
                done@[0],
                order@.no_duplicates(),
                forall|j: int| 0 <= j < order@.len() ==> 0 < #[trigger] order@[j] < n,
                forall|x: int| 0 < x < n ==> (#[trigger] done@[x] <==> order@.contains(x as usize)),
                forall|j: int, e: int|
                    0 <= j < order@.len() && 0 <= e < self.edges@.len() && (#[trigger] self.edges@[e]).1
                        == #[trigger] order@[j] && self.edges@[e].0 != 0 ==> order@.take(j).contains(
                        self.edges@[e].0,
                    ),
            ensures
                self.is_layering(layers),
                order@ == layers.flatten(),
                done@.len() == n,
                done@[0],
                order@.no_duplicates(),
                forall|j: int| 0 <= j < order@.len() ==> 0 < #[trigger] order@[j] < n,
                forall|x: int| 0 < x < n ==> (#[trigger] done@[x] <==> order@.contains(x as usize)),
                forall|j: int, e: int|
                    0 <= j < order@.len() && 0 <= e < self.edges@.len() && (#[trigger] self.edges@[e]).1
                        == #[trigger] order@[j] && self.edges@[e].0 != 0 ==> order@.take(j).contains(
                        self.edges@[e].0,
                    ),
                forall|x: int|
                    0 < x < n && !(#[trigger] done@[x]) ==> exists|e: int|
                        0 <= e < self.edges@.len() && (#[trigger] self.edges@[e]).1 == x
                            && !done@[self.edges@[e].0 as int],
            decreases pending(done@),
        {
            let mut layer: Vec<usize> = Vec::new();
            let mut v: usize = 1;
            while v < n
                invariant
                    self.wf(),
                    n == self.nodes@.len(),
                    done@.len() == n,
                    1 <= v <= n,
                    forall|a: int|
                        0 <= a < layer@.len() ==> 0 < #[trigger] layer@[a] < v && !done@[layer@[a] as int]
                            && forall|e: int|
                            0 <= e < self.edges@.len() && (#[trigger] self.edges@[e]).1 == layer@[a]
                                ==> done@[self.edges@[e].0 as int],
                    forall|a: int, b: int| 0 <= a < b < layer@.len() ==> layer@[a] < layer@[b],
                    forall|x: int|
                        1 <= x < v && !(#[trigger] done@[x]) && !layer@.contains(x as usize)
                            ==> exists|e: int|
                            0 <= e < self.edges@.len() && (#[trigger] self.edges@[e]).1 == x
                                && !done@[self.edges@[e].0 as int],
                decreases n - v,
            {
                let ghost lay0 = layer@;
                let ok = !done[v] && self.preds_done(v, &done);
                if ok {
                    layer.push(v);
                }
                proof {
                    assert forall|x: int|
                        1 <= x < v + 1 && !(#[trigger] done@[x]) && !layer@.contains(x as usize)
                            implies exists|e: int|
                            0 <= e < self.edges@.len() && (#[trigger] self.edges@[e]).1 == x
                                && !done@[self.edges@[e].0 as int] by {
                        if x < v && lay0.contains(x as usize) {
                            let t = choose|t: int| 0 <= t < lay0.len() && lay0[t] == x as usize;
                            assert(layer@[t] == x as usize);
                        }
                        if x == v && ok {
                            assert(layer@[lay0.len() as int] == v);
                        }
                    }
                }
                v = v + 1;
            }
            if layer.len() == 0 {
                break;
            }
            let ghost done0 = done@;
            let ghost order0 = order@;
            let mut k: usize = 0;
            while k < layer.len()
                invariant
                    self.wf(),
                    n == self.nodes@.len(),
                    done@.len() == n,
                    done0.len() == n,
                    done@[0],
                    k <= layer@.len(),
                    forall|a: int|
                        0 <= a < layer@.len() ==> 0 < #[trigger] layer@[a] < n && !done0[layer@[a] as int]
                            && forall|e: int|
                            0 <= e < self.edges@.len() && (#[trigger] self.edges@[e]).1 == layer@[a]
                                ==> done0[self.edges@[e].0 as int],
                    forall|a: int, b: int| 0 <= a < b < layer@.len() ==> layer@[a] < layer@[b],
                    forall|x: int|
                        0 <= x < n ==> #[trigger] done@[x] == (done0[x] || layer@.take(k as int).contains(
                            x as usize,
                        )),
                    pending(done@) + k == pending(done0),
                    order@ == order0 + layer@.take(k as int),
                    forall|x: int| 0 < x < n ==> (done0[x] <==> order0.contains(x as usize)),
                    order@.no_duplicates(),
                    forall|j: int| 0 <= j < order@.len() ==> 0 < #[trigger] order@[j] < n,
                    forall|x: int| 0 < x < n ==> (#[trigger] done@[x] <==> order@.contains(x as usize)),
                    forall|j: int, e: int|
                        0 <= j < order@.len() && 0 <= e < self.edges@.len() && (
                        #[trigger] self.edges@[e]).1 == #[trigger] order@[j] && self.edges@[e].0 != 0
                            ==> order@.take(j).contains(self.edges@[e].0),
                decreases layer@.len() - k,
            {
                let w = layer[k];
                proof {
                    assert(!done@[w as int]) by {
                        if layer@.take(k as int).contains(w) {
                            let a = choose|a: int| 0 <= a < k && layer@.take(k as int)[a] == w;
                            assert(layer@[a] < layer@[k as int]);
                        }
                    }
                    lemma_pending_set(done@, w as int);
                }
                let ghost pre = order@;
                done.set(w, true);
                order.push(w);
                proof {
                    assert(layer@.take(k + 1) =~= layer@.take(k as int).push(w));
                    assert forall|x: int| 0 <= x < n implies #[trigger] done@[x] == (done0[x]
                        || layer@.take(k + 1).contains(x as usize)) by {
                        if x != w as int {
                            if layer@.take(k + 1).contains(x as usize) {
                                let t = choose|t: int|
                                    0 <= t < k + 1 && #[trigger] layer@.take(k + 1)[t] == x as usize;
                                assert(layer@.take(k as int)[t] == x as usize);
                            }
                        } else {
                            assert(layer@.take(k + 1)[k as int] == w);
                        }
                    }
                    assert forall|j: int, e: int|
                        0 <= j < order@.len() && 0 <= e < self.edges@.len() && (
                        #[trigger] self.edges@[e]).1 == #[trigger] order@[j] && self.edges@[e].0 != 0
                            implies order@.take(j).contains(self.edges@[e].0) by {
                        if j < pre.len() {
                            assert(order@.take(j) =~= pre.take(j));
                        } else {
                            let u = self.edges@[e].0;
                            assert(done0[u as int]);
                            assert(order0.contains(u));
                            let t = choose|t: int| 0 <= t < order0.len() && order0[t] == u;
                            assert(order@.take(j)[t] == u);
                        }
                    }
                    assert forall|x: int| 0 < x < n implies (#[trigger] done@[x] <==> order@.contains(
                        x as usize,
                    )) by {
                        if x == w as int {
                            assert(order@[pre.len() as int] == w);
                        } else if pre.contains(x as usize) {
                            let t = choose|t: int| 0 <= t < pre.len() && pre[t] == x as usize;
                            assert(order@[t] == x as usize);
                        } else if order@.contains(x as usize) {
                            let t = choose|t: int| 0 <= t < order@.len() && order@[t] == x as usize;
                            assert(t < pre.len());
                            assert(pre[t] == x as usize);
                        }
                    }
                    assert(order@ =~= order0 + layer@.take(k + 1));
                }
                k = k + 1;
            }
            proof {
                let old_layers = layers;
                assert(layer@.take(layer@.len() as int) =~= layer@);
                layers = layers.push(layer@);
                old_layers.lemma_flatten_push(layer@);
                assert(old_layers.flatten() == order0);
                assert(layers.take(old_layers.len() as int) =~= old_layers);
                assert forall|kk: int| 0 <= kk < layers.len() implies {
                    &&& (#[trigger] layers[kk]).len() > 0
                    &&& forall|a: int, b: int|
                        0 <= a < b < layers[kk].len() ==> layers[kk][a] < layers[kk][b]
                    &&& forall|v: usize|
                        layers[kk].contains(v) <==> self.is_ready(layers.take(kk).flatten(), v)
                } by {
                    if kk < old_layers.len() {
                        assert(layers.take(kk) =~= old_layers.take(kk));
                        assert(layers[kk] == old_layers[kk]);
                    } else {
                        assert forall|v: usize| layer@.contains(v) <==> self.is_ready(order0, v) by {
                            if layer@.contains(v) {
                                let a = choose|a: int| 0 <= a < layer@.len() && layer@[a] == v;
                                assert(0 < layer@[a] < n && !done0[layer@[a] as int]);
                                assert forall|e: int|
                                    0 <= e < self.edges@.len() && (#[trigger] self.edges@[e]).1 == v
                                        implies self.edges@[e].0 == 0 || order0.contains(
                                    self.edges@[e].0,
                                ) by {
                                    assert(done0[self.edges@[e].0 as int]);
                                }
                            }
                            if self.is_ready(order0, v) {
                                assert(!done0[v as int]);
                                if !layer@.contains(v) {
                                    let e = choose|e: int|
                                        0 <= e < self.edges@.len() && (#[trigger] self.edges@[e]).1
                                            == v as int && !done0[self.edges@[e].0 as int];
                                    assert(self.edges@[e].1 == v);
                                }
                            }
                        }
                    }
                }
            }
        }
        let mut rest: Vec<usize> = Vec::new();
        let mut x: usize = 1;
        while x < n
            invariant
                self.wf(),
                n == self.nodes@.len(),
                done@.len() == n,
                1 <= x <= n,
                forall|j: int| 0 <= j < rest@.len() ==> 0 < #[trigger] rest@[j] < x && !done@[rest@[j] as int],
                forall|y: int| 1 <= y < x && !(#[trigger] done@[y]) ==> rest@.contains(y as usize),
            decreases n - x,
        {
            let ghost rest0 = rest@;
            if !done[x] {
                rest.push(x);
            }
            proof {
                assert forall|y: int| 1 <= y < x + 1 && !(#[trigger] done@[y]) implies rest@.contains(
                    y as usize,
                ) by {
                    if y < x {
                        let t = choose|t: int| 0 <= t < rest0.len() && rest0[t] == y as usize;
                        assert(rest@[t] == y as usize);
                    } else {
                        assert(rest@[rest0.len() as int] == y as usize);
                    }
                }
            }
            x = x + 1;
        }
        if rest.len() == 0 {
            proof {
                assert forall|v: usize| 0 < v < self.nodes@.len() implies order@.contains(v) by {
                    if !done@[v as int] {
                        assert(rest@.contains(v));
                    }
                }
            }
            proof {
                assert(self.is_layering(layers) && order@ == layers.flatten());
            }
            Ok(order)
        } else {
            proof {
                assert forall|i: int| 0 <= i < rest@.len() implies self.depends_within(
                    #[trigger] rest@[i],
                    rest@,
                ) by {
                    let y = rest@[i] as int;
                    assert(!done@[y]);
                    let e = choose|e: int|
                        0 <= e < self.edges@.len() && (#[trigger] self.edges@[e]).1 == y
                            && !done@[self.edges@[e].0 as int];
                    let u = self.edges@[e].0 as int;
                    assert(1 <= u < n);
                    assert(rest@.contains(u as usize));
                }
                assert(rest@.len() > 0);
                assert forall|i: int| 0 <= i < rest@.len() implies 0 < #[trigger] rest@[i]
                    < self.nodes@.len() by {}
            }
            Err(rest)
        }
    }

    /// The mods in load order, the base game left out; fails where mods depend on one
    /// another in a cycle, with the UUIDs of the mods that could not be ordered.
    pub fn resolve(&self) -> (r: Result<Vec<ModuleDescription>, ResolveError>)
        requires
            self.wf(),
        ensures
            r is Ok <==> exists|ord: Seq<usize>| self.is_load_order(ord),
            r is Ok ==> exists|ord: Seq<usize>|
                {
                    &&& self.is_load_order(ord)
                    &&& self.is_layered_order(ord)
                    &&& r->Ok_0@.len() == ord.len()
                    &&& forall|i: int|
                        0 <= i < ord.len() ==> (#[trigger] r->Ok_0@[i])@ == self.nodes@[ord[i] as int]@
                },
            r is Err ==> exists|rest: Seq<usize>|
                {
                    &&& self.is_stuck(rest)
                    &&& r->Err_0->CycleDetected_0@.len() == rest.len()
                    &&& forall|i: int|
                        0 <= i < rest.len() ==> (#[trigger] r->Err_0->CycleDetected_0@[i])@
                            == self.nodes@[rest[i] as int].uuid@
                },
    {
        match self.resolve_order() {
            Ok(ord) => {
                let mut out: Vec<ModuleDescription> = Vec::new();
                let mut i: usize = 0;
                while i < ord.len()
                    invariant
                        self.is_load_order(ord@),
                        self.is_layered_order(ord@),
                        i <= ord@.len(),
                        out@.len() == i,
                        forall|k: int| 0 <= k < i ==> (#[trigger] out@[k])@ == self.nodes@[ord@[k] as int]@,
                    decreases ord@.len() - i,
                {
                    out.push(self.nodes[ord[i]].duplicate());
                    i = i + 1;
                }
                Ok(out)
            },
            Err(rest) => {
                proof {
                    lemma_stuck_has_no_order(*self, rest@);
                }
                let mut uuids: Vec<String> = Vec::new();
                let mut i: usize = 0;
                while i < rest.len()
                    invariant
                        self.is_stuck(rest@),
                        i <= rest@.len(),
                        uuids@.len() == i,
                        forall|k: int|
                            0 <= k < i ==> (#[trigger] uuids@[k])@ == self.nodes@[rest@[k] as int].uuid@,
                    decreases rest@.len() - i,
                {
                    uuids.push(self.nodes[rest[i]].uuid.clone());
                    i = i + 1;
                }
                Err(ResolveError::CycleDetected(uuids))
            },
        }
    }
}

/// A graph in which some mods each depend on another of them has no load order.
pub proof fn lemma_stuck_has_no_order(g: DependencyGraph, rest: Seq<usize>)
    requires
        g.is_stuck(rest),
    ensures
        !exists|ord: Seq<usize>| g.is_load_order(ord),
{
    assert forall|ord: Seq<usize>| !g.is_load_order(ord) by {
        if g.is_load_order(ord) {
            let p = |y: usize| rest.contains(y);
            assert(ord.contains(rest[0]));
            let t0 = choose|t: int| 0 <= t < ord.len() && ord[t] == rest[0];
            assert(p(ord[t0]));
            lemma_first_index(ord, p, 0);
            let j = first_index(ord, p, 0);
            assert(j < ord.len());
            let x = ord[j];
            let i = choose|i: int| 0 <= i < rest.len() && rest[i] == x;
            assert(g.depends_within(rest[i], rest));
            let e = choose|e: int|
                0 <= e < g.edges@.len() && (#[trigger] g.edges@[e]).1 == x && rest.contains(
                    g.edges@[e].0,
                );
            let u = g.edges@[e].0;
            let iu = choose|k: int| 0 <= k < rest.len() && rest[k] == u;
            assert(u != 0);
            assert(ord.take(j).contains(u));
            let t = choose|t: int| 0 <= t < j && ord.take(j)[t] == u;
            assert(ord[t] == u);
            assert(p(ord[t]));
        }
    }
}

} // verus!
