//! The mathematical model of the index: its documents and layers, the
//! conditions that every index built by inserts meets, and what an insert
//! does to it.
use crate::graph::{lemma_add_isolated, lemma_link_both, link_both, well_linked, LayerModel};
use crate::vector::{cos_gt, lemma_cos_gt_asymmetric, lemma_cos_transitive, Cosine};
use crate::ranking::{ids_of, insert_ranked, lemma_insert_elements, prefix, ranked, Scored};
use crate::vector::{similarity_of, MAX_DIM};
use vstd::prelude::*;

verus! {

/// Number of graph layers; layer 0 is the bottom one.
pub const NUM_LAYERS: usize = 4;

/// Failure of an index operation.
#[derive(Clone, Copy, Debug, PartialEq, Eq, Structural)]
pub enum IndexError {
    /// An embedding's length differs from the stored embeddings' length.
    DimensionMismatch,
    /// An embedding is longer than `MAX_DIM`.
    DimensionTooLarge,
    /// Every document id has been used.
    Full,
}

/// A stored document: its text and its embedding. Its id is its position.
pub struct DocModel {
    pub content: Seq<char>,
    pub embedding: Seq<i16>,
}

/// The whole index: documents in id order and the graph layers, bottom first.
pub struct DbModel {
    pub docs: Seq<DocModel>,
    pub layers: Seq<LayerModel>,
}

impl DbModel {
    /// Length of the stored embeddings; zero while there are none.
    pub open spec fn dim(self) -> nat {
        if self.docs.len() == 0 {
            0
        } else {
            self.docs[0].embedding.len()
        }
    }

    /// What holds of every index built by inserts: ids fit in `u32`,
    /// embeddings share one length, every layer is well linked over ids of
    /// stored documents, a node of a layer is a node of every lower layer,
    /// and the top layer's entry is the first document.
    pub open spec fn valid(self) -> bool {
        &&& self.layers.len() == NUM_LAYERS
        &&& self.docs.len() <= u32::MAX
        &&& self.dim() <= MAX_DIM
        &&& forall|i: int| 0 <= i < self.docs.len() ==> (#[trigger] self.docs[i]).embedding.len() == self.dim()
        &&& forall|l: int| 0 <= l < NUM_LAYERS ==> (#[trigger] self.layers[l]).consistent()
        &&& layers_well_linked(self)
        &&& layer_ids_stored(self)
        &&& forall|l1: int, l2: int, k: u32|
            0 <= l1 <= l2 < NUM_LAYERS && #[trigger] self.layers[l2].adj.contains_key(k)
                ==> #[trigger] self.layers[l1].adj.contains_key(k)
        &&& forall|l: int| 0 <= l < NUM_LAYERS - 1 ==> (#[trigger] self.layers[l]).entry is None
        &&& if self.docs.len() == 0 {
            self.layers[NUM_LAYERS - 1].entry is None
        } else {
            self.layers[NUM_LAYERS - 1].entry == Some(0u32) && self.layers[NUM_LAYERS
                - 1].adj.contains_key(0)
        }
    }
}

/// Every layer's adjacency is symmetric, irreflexive and free of duplicates.
pub open spec fn layers_well_linked(db: DbModel) -> bool {
    forall|l: int| 0 <= l < db.layers.len() ==> well_linked(#[trigger] db.layers[l].adj)
}

/// Every id that appears in a layer, as a node or as a neighbor, is the id
/// of a stored document.
pub open spec fn layer_ids_stored(db: DbModel) -> bool {
    &&& forall|l: int, k: u32|
        0 <= l < db.layers.len() && #[trigger] db.layers[l].adj.contains_key(k) ==> k < db.docs.len()
    &&& forall|l: int, a: u32, b: u32|
        0 <= l < db.layers.len() && db.layers[l].adj.contains_key(a) && #[trigger] db.layers[l].adj[a].contains(b)
            ==> b < db.docs.len()
}

/// The index with no documents and empty layers.
pub open spec fn empty_model() -> DbModel {
    DbModel {
        docs: Seq::empty(),
        layers: Seq::new(
            NUM_LAYERS as nat,
            |l: int| LayerModel { entry: None, nodes: Seq::empty(), adj: Map::empty() },
        ),
    }
}

/// Number of new edges a node makes in layer `level`: 4, 3, 2, then 1.
pub open spec fn fan_out(level: int) -> nat {
    if level == 0 {
        4
    } else if level == 1 {
        3
    } else if level == 2 {
        2
    } else {
        1
    }
}

/// The nodes `ids`, each scored by the similarity of its embedding to `e`.
pub open spec fn scored_nodes(docs: Seq<DocModel>, e: Seq<i16>, ids: Seq<u32>) -> Seq<Scored> {
    ids.map_values(|n: u32| Scored { id: n, score: similarity_of(docs[n as int].embedding, e) })
}

/// The `m` nodes of `layer` that rank first for `e`: the neighbors of a
/// new node with embedding `e`.
pub open spec fn chosen_neighbors(layer: LayerModel, docs: Seq<DocModel>, e: Seq<i16>, m: nat) -> Seq<
    Scored,
> {
    prefix(ranked(scored_nodes(docs, e, layer.nodes)), m)
}

/// `m` with an edge from `id` to each target, in order.
pub open spec fn link_all(m: Map<u32, Seq<u32>>, id: u32, targets: Seq<Scored>) -> Map<u32, Seq<u32>>
    decreases targets.len(),
{
    if targets.len() == 0 {
        m
    } else {
        link_both(link_all(m, id, targets.drop_last()), id, targets.last().id)
    }
}

/// `layer` after node `id` with embedding `e` joins it with `m` new edges.
pub open spec fn layer_after_insert(
    layer: LayerModel,
    docs: Seq<DocModel>,
    id: u32,
    e: Seq<i16>,
    m: nat,
) -> LayerModel {
    LayerModel {
        entry: layer.entry,
        nodes: layer.nodes.push(id),
        adj: link_all(layer.adj.insert(id, Seq::empty()), id, chosen_neighbors(layer, docs, e, m)),
    }
}

/// The highest layer a new node joins: the drawn level, or the top layer
/// for the first document.
pub open spec fn insert_level(db: DbModel, level: nat) -> int {
    if db.docs.len() == 0 {
        NUM_LAYERS - 1
    } else {
        level as int
    }
}

/// The layers once the first document is made the top layer's entry.
pub open spec fn entered_layers(db: DbModel) -> Seq<LayerModel> {
    if db.docs.len() == 0 {
        db.layers.update(
            NUM_LAYERS - 1,
            LayerModel { entry: Some(0u32), ..db.layers[NUM_LAYERS - 1] },
        )
    } else {
        db.layers
    }
}

/// The index after inserting a document with `content` and embedding `e`
/// whose drawn level is `level`.
pub open spec fn insert_model(db: DbModel, content: Seq<char>, e: Seq<i16>, level: nat) -> DbModel {
    let id = db.docs.len() as u32;
    let top = insert_level(db, level);
    let base = entered_layers(db);
    DbModel {
        docs: db.docs.push(DocModel { content, embedding: e }),
        layers: Seq::new(
            NUM_LAYERS as nat,
            |l: int|
                if l <= top {
                    layer_after_insert(base[l], db.docs, id, e, fan_out(l))
                } else {
                    base[l]
                },
        ),
    }
}

/// Why an insert of embedding `e` is refused, if it is.
pub open spec fn insert_error(db: DbModel, e: Seq<i16>) -> Option<IndexError> {
    if db.docs.len() == u32::MAX {
        Some(IndexError::Full)
    } else if db.docs.len() == 0 && e.len() > MAX_DIM {
        Some(IndexError::DimensionTooLarge)
    } else if db.docs.len() > 0 && e.len() != db.dim() {
        Some(IndexError::DimensionMismatch)
    } else {
        None
    }
}

/// Ranking keeps the elements: it is as long as its input, and each of its
/// elements is one of the input's.
pub proof fn lemma_ranked_elements(s: Seq<Scored>)
    ensures
        ranked(s).len() == s.len(),
        forall|i: int| 0 <= i < ranked(s).len() ==> s.contains(#[trigger] ranked(s)[i]),
    decreases s.len(),
{
    if s.len() > 0 {
        let r = ranked(s.drop_last());
        lemma_ranked_elements(s.drop_last());
        lemma_insert_elements(r, s.last());
        assert forall|i: int| 0 <= i < ranked(s).len() implies s.contains(#[trigger] ranked(s)[i]) by {
            let x = ranked(s)[i];
            if x != s.last() {
                assert(r.contains(x));
                let j = choose|j: int| 0 <= j < r.len() && r[j] == x;
                assert(s.drop_last().contains(x));
                let k = choose|k: int| 0 <= k < s.drop_last().len() && s.drop_last()[k] == x;
                assert(s[k] == x);
            } else {
                assert(s[s.len() - 1] == x);
            }
        }
    }
}

/// Each chosen neighbor is a node of the layer.
pub proof fn lemma_chosen_in_layer(layer: LayerModel, docs: Seq<DocModel>, e: Seq<i16>, m: nat)
    ensures
        forall|i: int|
            0 <= i < chosen_neighbors(layer, docs, e, m).len() ==> layer.nodes.contains(
                (#[trigger] chosen_neighbors(layer, docs, e, m)[i]).id,
            ),
{
    let s = scored_nodes(docs, e, layer.nodes);
    let c = chosen_neighbors(layer, docs, e, m);
    lemma_ranked_elements(s);
    assert forall|i: int| 0 <= i < c.len() implies layer.nodes.contains((#[trigger] c[i]).id) by {
        assert(c[i] == ranked(s)[i]);
        let j = choose|j: int| 0 <= j < s.len() && s[j] == c[i];
        assert(layer.nodes[j] == c[i].id);
    }
}

/// Linking `id` to targets that are other nodes keeps an adjacency well
/// linked and keeps its nodes.
pub proof fn lemma_link_all(m: Map<u32, Seq<u32>>, id: u32, targets: Seq<Scored>)
    requires
        well_linked(m),
        m.contains_key(id),
        forall|i: int|
            0 <= i < targets.len() ==> m.contains_key((#[trigger] targets[i]).id) && targets[i].id != id,
    ensures
        well_linked(link_all(m, id, targets)),
        forall|k: u32| #[trigger] link_all(m, id, targets).contains_key(k) <==> m.contains_key(k),
    decreases targets.len(),
{
    if targets.len() > 0 {
        let t = targets.drop_last();
        assert forall|i: int| 0 <= i < t.len() implies m.contains_key((#[trigger] t[i]).id) && t[i].id != id by {
            assert(t[i] == targets[i]);
        }
        lemma_link_all(m, id, t);
        let b = targets.last().id;
        assert(targets[targets.len() - 1].id == b);
        lemma_link_both(link_all(m, id, t), id, b);
    }
}

/// Inserting a document that is not refused keeps the index valid.
pub proof fn lemma_insert_valid(db: DbModel, content: Seq<char>, e: Seq<i16>, level: nat)
    requires
        db.valid(),
        insert_error(db, e) is None,
        level < NUM_LAYERS,
    ensures
        insert_model(db, content, e, level).valid(),
{
    let r = insert_model(db, content, e, level);
    let id = db.docs.len() as u32;
    let top = insert_level(db, level);
    let base = entered_layers(db);
    assert forall|i: int| 0 <= i < r.docs.len() implies (#[trigger] r.docs[i]).embedding.len() == r.dim() by {
        if i < db.docs.len() {
            assert(r.docs[i] == db.docs[i]);
        }
        if db.docs.len() > 0 {
            assert(r.docs[0] == db.docs[0]);
        }
    }
    assert forall|l: int| 0 <= l < NUM_LAYERS implies base[l].consistent() && well_linked(base[l].adj)
        && base[l].adj == db.layers[l].adj && base[l].nodes == db.layers[l].nodes by {
        assert(db.layers[l].consistent());
        assert(well_linked(db.layers[l].adj));
    }
    assert forall|l: int| 0 <= l <= top implies {
        &&& (#[trigger] r.layers[l]).consistent()
        &&& well_linked(r.layers[l].adj)
        &&& forall|k: u32| #[trigger] r.layers[l].adj.contains_key(k) <==> (db.layers[l].adj.contains_key(k) || k == id)
    } by {
        let layer = base[l];
        let m0 = layer.adj.insert(id, Seq::empty());
        let c = chosen_neighbors(layer, db.docs, e, fan_out(l));
        assert(!layer.adj.contains_key(id));
        lemma_add_isolated(layer.adj, id);
        lemma_chosen_in_layer(layer, db.docs, e, fan_out(l));
        assert forall|i: int| 0 <= i < c.len() implies m0.contains_key((#[trigger] c[i]).id) && c[i].id != id by {
            assert(layer.nodes.contains(c[i].id));
            assert(layer.adj.contains_key(c[i].id));
        }
        lemma_link_all(m0, id, c);
        assert(r.layers[l] == layer_after_insert(layer, db.docs, id, e, fan_out(l)));
        let nodes = layer.nodes.push(id);
        assert forall|i: int, j: int| 0 <= i < j < nodes.len() implies #[trigger] nodes[i] < #[trigger] nodes[j] by {
            if j == layer.nodes.len() {
                assert(layer.nodes.contains(nodes[i]));
                assert(layer.adj.contains_key(nodes[i]));
            }
        }
        assert forall|k: u32| #[trigger] r.layers[l].adj.contains_key(k) <==> nodes.contains(k) by {
            if layer.nodes.contains(k) {
                let i = choose|i: int| 0 <= i < layer.nodes.len() && layer.nodes[i] == k;
                assert(nodes[i] == k);
            }
            if nodes.contains(k) && k != id {
                let i = choose|i: int| 0 <= i < nodes.len() && nodes[i] == k;
                assert(layer.nodes[i] == k);
            }
            assert(nodes[layer.nodes.len() as int] == id);
        }
    }
    assert forall|l: int| top < l < NUM_LAYERS implies #[trigger] r.layers[l] == base[l] by {}
    assert forall|l: int| 0 <= l < NUM_LAYERS implies (#[trigger] r.layers[l]).consistent() && well_linked(
        r.layers[l].adj,
    ) by {
        if l > top {
            assert(r.layers[l] == base[l]);
        }
    }
    assert(layers_well_linked(r));
    assert forall|l: int, k: u32| 0 <= l < NUM_LAYERS && #[trigger] r.layers[l].adj.contains_key(k) implies k
        < r.docs.len() by {
        if l > top {
            assert(r.layers[l] == base[l]);
            assert(db.layers[l].adj.contains_key(k));
        } else if k != id {
            assert(db.layers[l].adj.contains_key(k));
        }
    }
    assert forall|l: int, a: u32, b: u32|
        0 <= l < NUM_LAYERS && r.layers[l].adj.contains_key(a) && #[trigger] r.layers[l].adj[a].contains(b) implies b
        < r.docs.len() by {
        assert(well_linked(r.layers[l].adj));
        assert(r.layers[l].adj.contains_key(b));
    }
    assert forall|l1: int, l2: int, k: u32|
        0 <= l1 <= l2 < NUM_LAYERS && #[trigger] r.layers[l2].adj.contains_key(k) implies #[trigger] r.layers[l1].adj.contains_key(
        k,
    ) by {
        if l2 > top {
            assert(r.layers[l2] == base[l2]);
            assert(db.layers[l2].adj.contains_key(k));
            assert(db.layers[l1].adj.contains_key(k));
            if l1 > top {
                assert(r.layers[l1] == base[l1]);
            }
        } else if k != id {
            assert(db.layers[l2].adj.contains_key(k));
            assert(db.layers[l1].adj.contains_key(k));
        }
    }
    assert forall|l: int| 0 <= l < NUM_LAYERS - 1 implies (#[trigger] r.layers[l]).entry is None by {
        assert(db.layers[l].entry is None);
    }
    if db.docs.len() == 0 {
        assert(r.layers[NUM_LAYERS - 1].adj.contains_key(id));
    } else {
        assert(db.layers[NUM_LAYERS - 1].adj.contains_key(0));
    }
}

/// Document `n` scored by its similarity to the query `q`.
pub open spec fn doc_score(db: DbModel, q: Seq<i16>, n: u32) -> Scored {
    Scored { id: n, score: similarity_of(db.docs[n as int].embedding, q) }
}

/// State of a search: the best nodes found so far, in rank order, and the
/// nodes already offered.
pub struct SearchState {
    pub best: Seq<Scored>,
    pub visited: Set<u32>,
}

/// The state before any node is offered.
pub open spec fn start_state() -> SearchState {
    SearchState { best: Seq::empty(), visited: Set::empty() }
}

/// Offers node `n` to a result list of capacity `k`. A node already offered
/// is ignored; otherwise, when the list is full its last element is dropped,
/// and `n` is inserted in rank order.
pub open spec fn offer(db: DbModel, q: Seq<i16>, k: nat, st: SearchState, n: u32) -> SearchState {
    if st.visited.contains(n) {
        st
    } else {
        let kept = if st.best.len() >= k {
            st.best.drop_last()
        } else {
            st.best
        };
        SearchState { best: insert_ranked(kept, doc_score(db, q, n)), visited: st.visited.insert(n) }
    }
}

/// Offers the nodes `ns` in order.
pub open spec fn offer_all(db: DbModel, q: Seq<i16>, k: nat, st: SearchState, ns: Seq<u32>) -> SearchState
    decreases ns.len(),
{
    if ns.len() == 0 {
        st
    } else {
        offer(db, q, k, offer_all(db, q, k, st, ns.drop_last()), ns.last())
    }
}

/// Position in `ns` of its first most similar node.
pub open spec fn best_index(db: DbModel, q: Seq<i16>, ns: Seq<u32>) -> int
    decreases ns.len(),
{
    if ns.len() <= 1 {
        0
    } else {
        let i = best_index(db, q, ns.drop_last());
        if cos_gt(doc_score(db, q, ns.last()).score, doc_score(db, q, ns[i]).score) {
            ns.len() - 1
        } else {
            i
        }
    }
}

/// Number of documents among the first `n` that are more similar to `q`
/// than the value `x`.
pub open spec fn count_above(db: DbModel, q: Seq<i16>, x: Cosine, n: nat) -> nat
    decreases n,
{
    if n == 0 {
        0
    } else {
        count_above(db, q, x, (n - 1) as nat) + if cos_gt(doc_score(db, q, (n - 1) as u32).score, x) {
            1nat
        } else {
            0nat
        }
    }
}

/// Every neighbor in `layer` is a stored document.
pub open spec fn neighbors_stored(db: DbModel, layer: LayerModel) -> bool {
    forall|a: u32, b: u32|
        layer.adj.contains_key(a) && #[trigger] layer.adj[a].contains(b) ==> (b as int) < db.docs.len()
}

/// Greedy descent within `layer` from node `cur`: offer every neighbor of
/// `cur`, then move to its first most similar neighbor while that one is
/// strictly more similar than `cur` (and a node of the layer, which every
/// neighbor is in a valid index). Gives the node where it stops.
pub open spec fn descend(
    db: DbModel,
    q: Seq<i16>,
    k: nat,
    layer: LayerModel,
    cur: u32,
    st: SearchState,
) -> (u32, SearchState)
    decreases count_above(db, q, doc_score(db, q, cur).score, db.docs.len()),
    when neighbors_stored(db, layer) && layer.adj.contains_key(cur) && db.docs.len() <= u32::MAX
    via descend_decreases
{
    let ns = layer.adj[cur];
    let st1 = offer_all(db, q, k, st, ns);
    if ns.len() == 0 {
        (cur, st1)
    } else {
        let n = ns[best_index(db, q, ns)];
        if cos_gt(doc_score(db, q, n).score, doc_score(db, q, cur).score) && layer.adj.contains_key(n) {
            descend(db, q, k, layer, n, st1)
        } else {
            (cur, st1)
        }
    }
}

/// The position that `best_index` gives lies within the sequence.
pub proof fn lemma_best_index(db: DbModel, q: Seq<i16>, ns: Seq<u32>)
    requires
        ns.len() > 0,
    ensures
        0 <= best_index(db, q, ns) < ns.len(),
    decreases ns.len(),
{
    if ns.len() > 1 {
        lemma_best_index(db, q, ns.drop_last());
    }
}

/// A move to a strictly more similar document lowers the number of
/// documents more similar than the current one.
pub proof fn lemma_count_above(db: DbModel, q: Seq<i16>, x: Cosine, y: Cosine, j: nat, n: nat)
    requires
        cos_gt(y, x),
        j < n,
        doc_score(db, q, j as u32).score == y,
        n <= u32::MAX + 1,
    ensures
        count_above(db, q, y, n) < count_above(db, q, x, n),
    decreases n,
{
    lemma_count_above_mono(db, q, x, y, (n - 1) as nat);
    let s = doc_score(db, q, (n - 1) as u32).score;
    lemma_cos_transitive(s, y, x);
    lemma_cos_gt_asymmetric(y, y);
    if j < n - 1 {
        lemma_count_above(db, q, x, y, j, (n - 1) as nat);
    }
}

proof fn lemma_count_above_mono(db: DbModel, q: Seq<i16>, x: Cosine, y: Cosine, n: nat)
    requires
        cos_gt(y, x),
    ensures
        count_above(db, q, y, n) <= count_above(db, q, x, n),
    decreases n,
{
    if n > 0 {
        lemma_count_above_mono(db, q, x, y, (n - 1) as nat);
        let s = doc_score(db, q, (n - 1) as u32).score;
        lemma_cos_transitive(s, y, x);
    }
}

#[via_fn]
proof fn descend_decreases(
    db: DbModel,
    q: Seq<i16>,
    k: nat,
    layer: LayerModel,
    cur: u32,
    st: SearchState,
) {
    let ns = layer.adj[cur];
    if ns.len() > 0 {
        lemma_best_index(db, q, ns);
        let i = best_index(db, q, ns);
        let n = ns[i];
        if cos_gt(doc_score(db, q, n).score, doc_score(db, q, cur).score) && layer.adj.contains_key(n) {
            assert(ns.contains(n));
            assert((n as int) < db.docs.len());
            assert(n as nat as u32 == n);
            lemma_count_above(
                db,
                q,
                doc_score(db, q, cur).score,
                doc_score(db, q, n).score,
                n as nat,
                db.docs.len(),
            );
        }
    }
}

/// In a valid index every neighbor is a node of the same layer and a
/// stored document.
pub proof fn lemma_valid_neighbors(db: DbModel, l: int)
    requires
        db.valid(),
        0 <= l < NUM_LAYERS,
    ensures
        neighbors_stored(db, db.layers[l]),
        forall|a: u32, b: u32|
            db.layers[l].adj.contains_key(a) && #[trigger] db.layers[l].adj[a].contains(b)
                ==> db.layers[l].adj.contains_key(b),
{
    assert(well_linked(db.layers[l].adj));
    assert forall|a: u32, b: u32|
        db.layers[l].adj.contains_key(a) && #[trigger] db.layers[l].adj[a].contains(b) implies (b as int)
        < db.docs.len() by {
        assert(db.layers[l].adj.contains_key(b));
    }
}

/// The search through layers `l` down to 0, starting from `entry` unless a
/// layer has an entry node of its own.
pub open spec fn search_from(db: DbModel, q: Seq<i16>, k: nat, l: int, entry: u32, st: SearchState) -> SearchState
    decreases l + 1,
{
    if l < 0 {
        st
    } else {
        let layer = db.layers[l];
        let start = match layer.entry {
            Some(e) => e,
            None => entry,
        };
        let st1 = offer(db, q, k, st, start);
        let (cur, st2) = descend(db, q, k, layer, start, st1);
        search_from(db, q, k, l - 1, cur, st2)
    }
}

/// The ids that a search for `q` with capacity `k` returns, best first.
pub open spec fn search_result(db: DbModel, q: Seq<i16>, k: nat) -> Seq<u32> {
    ids_of(search_from(db, q, k, NUM_LAYERS - 1, 0, start_state()).best)
}

/// A search of an index that holds a single document returns exactly that
/// document, whatever the query.
pub proof fn lemma_single_document_found(db: DbModel, q: Seq<i16>, k: nat)
    requires
        db.valid(),
        db.docs.len() == 1,
        k > 0,
    ensures
        search_result(db, q, k) == seq![0u32],
{
    let x = doc_score(db, q, 0);
    let st1 = SearchState { best: seq![x], visited: Set::empty().insert(0u32) };
    assert(insert_ranked(Seq::empty(), x) =~= seq![x]);
    assert(offer(db, q, k, start_state(), 0) == st1);
    assert(offer(db, q, k, st1, 0) == st1);
    assert forall|l: int| 0 <= l < NUM_LAYERS implies descend(db, q, k, #[trigger] db.layers[l], 0, st1) == (
    0u32, st1) by {
        lemma_valid_neighbors(db, l);
        let layer = db.layers[l];
        assert(layer.adj.contains_key(0));
        let ns = layer.adj[0];
        if ns.len() > 0 {
            assert(ns.contains(ns[0]));
            assert(layer.adj.contains_key(ns[0]));
            assert(well_linked(layer.adj));
        }
        assert(ns.len() == 0);
        assert(offer_all(db, q, k, st1, ns) == st1);
    }
    assert(db.layers[NUM_LAYERS - 1].entry == Some(0u32));
    assert(search_from(db, q, k, -1, 0, st1) == st1);
    assert(db.layers[0].entry is None);
    assert(search_from(db, q, k, 0, 0, st1) == st1);
    assert(db.layers[1].entry is None);
    assert(search_from(db, q, k, 1, 0, st1) == st1);
    assert(db.layers[2].entry is None);
    assert(search_from(db, q, k, 2, 0, st1) == st1);
    assert(search_from(db, q, k, 3, 0, start_state()) == st1);
    assert(ids_of(st1.best) =~= seq![0u32]);
}

} // verus!
