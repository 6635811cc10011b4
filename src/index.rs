//! The index: documents stored by id and a fixed stack of graph layers.
use crate::graph::{lemma_add_isolated, GraphLayer, LayerModel};
use crate::level::draw_level;
use crate::model::{
    best_index, chosen_neighbors, count_above, descend, doc_score, empty_model, entered_layers,
    fan_out, insert_error, insert_model, layer_after_insert, layer_ids_stored, layers_well_linked,
    lemma_chosen_in_layer, lemma_count_above, lemma_insert_valid, lemma_link_all,
    lemma_valid_neighbors, link_all, offer, offer_all, scored_nodes, search_from, search_result,
    start_state, DbModel, DocModel, IndexError, SearchState, NUM_LAYERS,
};
use crate::ranking::{
    ids_of, insert_ranked_exec, lemma_insert_elements, lemma_insert_rank_sorted, lemma_prefix_insert,
    lemma_rank_order, lemma_ranked_step, prefix, rank_sorted, ranked, ranks_before, Scored,
};
use crate::vector::{cos_gt, cosine, more_similar, norm_sq, similarity_of, Cosine, MAX_DIM};
use vstd::prelude::*;

verus! {

/// A stored document.
pub struct Document {
    pub id: u32,
    pub content: String,
    pub embedding: Vec<i16>,
}

/// The models of stored documents.
pub open spec fn doc_models(v: Seq<Document>) -> Seq<DocModel> {
    v.map_values(|d: Document| DocModel { content: d.content@, embedding: d.embedding@ })
}

/// The hierarchical navigable small-world index.
pub struct Database {
    documents: Vec<Document>,
    next_id: u32,
    graph_layers: Vec<GraphLayer>,
}

impl View for Database {
    type V = DbModel;

    closed spec fn view(&self) -> DbModel {
        DbModel {
            docs: doc_models(self.documents@),
            layers: self.graph_layers@.map_values(|g: GraphLayer| g@),
        }
    }
}

/// The search state held by a result list and a table of visited ids.
pub open spec fn state_of(best: Seq<Scored>, visited: Seq<bool>) -> SearchState {
    SearchState {
        best,
        visited: Set::new(|i: u32| (i as int) < visited.len() && visited[i as int]),
    }
}

/// A result list of capacity `k` for a search of `q`: within capacity, in
/// rank order, each entry a visited stored document scored against `q`.
pub open spec fn list_ok(db: DbModel, q: Seq<i16>, k: nat, best: Seq<Scored>, visited: Seq<bool>) -> bool {
    &&& best.len() <= k
    &&& rank_sorted(best)
    &&& forall|i: int| 0 <= i < best.len() ==> (#[trigger] best[i].id as int) < visited.len() && visited[best[i].id as int]
    &&& forall|i: int|
        0 <= i < best.len() ==> (#[trigger] best[i].id as int) < db.docs.len() && best[i] == doc_score(
            db,
            q,
            best[i].id,
        )
}

/// Every neighbor in `layer` is a node of it and a stored document.
pub open spec fn neighbors_stored_all(db: DbModel, layer: LayerModel) -> bool {
    &&& crate::model::neighbors_stored(db, layer)
    &&& forall|a: u32, b: u32| layer.adj.contains_key(a) && #[trigger] layer.adj[a].contains(b) ==> layer.adj.contains_key(b)
}

/// The ids of a result list.
fn ids(best: &Vec<Scored>) -> (r: Vec<u32>)
    ensures
        r@ == ids_of(best@),
{
    let mut r: Vec<u32> = Vec::new();
    let mut i: usize = 0;
    while i < best.len()
        invariant
            i <= best.len(),
            r@ == ids_of(best@.take(i as int)),
        decreases best.len() - i,
    {
        r.push(best[i].id);
        i = i + 1;
        assert(ids_of(best@.take(i as int)) =~= ids_of(best@.take(i - 1)).push(best@[i - 1].id));
    }
    assert(best@.take(best.len() as int) =~= best@);
    r
}

/// New edges per insert in layer `level`.
fn fan_out_at(level: usize) -> (r: usize)
    ensures
        r == fan_out(level as int),
{
    if level == 0 {
        4
    } else if level == 1 {
        3
    } else if level == 2 {
        2
    } else {
        1
    }
}

/// The `m` nodes among `nodes` whose embeddings rank first against `e`.
fn select_neighbors(docs: &Vec<Document>, nodes: &Vec<u32>, e: &Vec<i16>, m: usize) -> (r: Vec<Scored>)
    requires
        forall|i: int| 0 <= i < nodes.len() ==> (#[trigger] nodes@[i] as int) < docs.len(),
        forall|j: int| 0 <= j < docs.len() ==> (#[trigger] docs@[j]).embedding.len() == e.len(),
        e.len() <= MAX_DIM,
    ensures
        r@ == prefix(ranked(scored_nodes(doc_models(docs@), e@, nodes@)), m as nat),
{
    let ghost s = scored_nodes(doc_models(docs@), e@, nodes@);
    let ghost base = norm_sq(e@) as u64;
    let mut top: Vec<Scored> = Vec::new();
    let mut i: usize = 0;
    assert(s.take(0) =~= Seq::<Scored>::empty());
    while i < nodes.len()
        invariant
            forall|i: int| 0 <= i < nodes.len() ==> (#[trigger] nodes@[i] as int) < docs.len(),
            forall|j: int| 0 <= j < docs.len() ==> (#[trigger] docs@[j]).embedding.len() == e.len(),
            e.len() <= MAX_DIM,
            s == scored_nodes(doc_models(docs@), e@, nodes@),
            base == norm_sq(e@) as u64,
            i <= nodes.len(),
            top@ == prefix(ranked(s.take(i as int)), m as nat),
            forall|k: int| 0 <= k < top.len() ==> (#[trigger] top@[k]).score.fits() && top@[k].score.norm_sq_b == base,
        decreases nodes.len() - i,
    {
        let n = nodes[i];
        let score = cosine(&docs[n as usize].embedding, e);
        let x = Scored { id: n, score };
        let ghost before = top@;
        proof {
            assert(x == s[i as int]);
            lemma_ranked_step(s, i as int);
            lemma_prefix_insert(ranked(s.take(i as int)), x, m as nat);
            lemma_insert_elements(before, x);
        }
        insert_ranked_exec(&mut top, x);
        proof {
            assert forall|k: int| 0 <= k < top.len() implies (#[trigger] top@[k]).score.fits()
                && top@[k].score.norm_sq_b == base by {
                if top@[k] != x {
                    let j = choose|j: int| 0 <= j < before.len() && before[j] == top@[k];
                }
            }
        }
        if top.len() > m {
            top.truncate(m);
        }
        i = i + 1;
    }
    assert(s.take(nodes.len() as int) =~= s);
    top
}

impl Database {
    /// The stored vectors agree with the model, which is valid.
    pub closed spec fn wf(&self) -> bool {
        &&& self@.valid()
        &&& self.next_id as int == self.documents.len()
        &&& forall|i: int| 0 <= i < self.documents.len() ==> (#[trigger] self.documents@[i]).id == i
        &&& self.graph_layers.len() == NUM_LAYERS
        &&& forall|l: int| 0 <= l < NUM_LAYERS ==> (#[trigger] self.graph_layers@[l]).wf()
    }

    /// The model of a well-formed index is valid.
    pub proof fn lemma_valid(&self)
        requires
            self.wf(),
        ensures
            self@.valid(),
            layers_well_linked(self@),
            layer_ids_stored(self@),
    {
    }

    /// An index with no documents and `NUM_LAYERS` empty layers.
    pub fn new() -> (r: Database)
        ensures
            r.wf(),
            r@ == empty_model(),
            layers_well_linked(r@),
            layer_ids_stored(r@),
    {
        let mut graph_layers: Vec<GraphLayer> = Vec::new();
        let mut l: usize = 0;
        while l < NUM_LAYERS
            invariant
                l <= NUM_LAYERS,
                graph_layers.len() == l,
                forall|j: int| 0 <= j < l ==> (#[trigger] graph_layers@[j]).wf() && graph_layers@[j]@ == (
                LayerModel { entry: None, nodes: Seq::empty(), adj: Map::empty() }),
            decreases NUM_LAYERS - l,
        {
            graph_layers.push(GraphLayer::new(None));
            l = l + 1;
        }
        let r = Database { documents: Vec::new(), next_id: 0, graph_layers };
        assert(r@.docs =~= empty_model().docs);
        assert(r@.layers =~= empty_model().layers);
        r
    }

    /// The id the next inserted document receives: the number of documents.
    pub fn next_id(&self) -> (r: u32)
        requires
            self.wf(),
        ensures
            r == self@.docs.len(),
    {
        self.next_id
    }

    /// Length of the stored embeddings; zero while there are none.
    pub fn dim(&self) -> (r: usize)
        requires
            self.wf(),
        ensures
            r == self@.dim(),
    {
        if self.documents.len() == 0 {
            0
        } else {
            self.documents[0].embedding.len()
        }
    }

    /// Number of stored documents.
    pub fn len(&self) -> (r: usize)
        requires
            self.wf(),
        ensures
            r == self@.docs.len(),
    {
        self.documents.len()
    }

    /// The document with id `id`, if stored.
    pub fn get(&self, id: u32) -> (r: Option<&Document>)
        requires
            self.wf(),
        ensures
            id < self@.docs.len() <==> r is Some,
            r matches Some(d) ==> d.id == id && d.content@ == self@.docs[id as int].content
                && d.embedding@ == self@.docs[id as int].embedding,
    {
        if (id as usize) < self.documents.len() {
            Some(&self.documents[id as usize])
        } else {
            None
        }
    }

    /// Graph layer `level`.
    pub fn layer(&self, level: usize) -> (r: &GraphLayer)
        requires
            self.wf(),
            level < NUM_LAYERS,
        ensures
            r.wf(),
            r@ == self@.layers[level as int],
    {
        &self.graph_layers[level]
    }

    /// Inserts a document whose drawn level is `level`. Refused, with the
    /// index unchanged, when every id is used or the embedding's length
    /// differs from the stored ones' (or exceeds `MAX_DIM` for the first
    /// document). Otherwise the new id is the previous document count.
    pub fn insert_at_level(&mut self, content: String, embedding: Vec<i16>, level: usize) -> (r: Result<
        u32,
        IndexError,
    >)
        requires
            old(self).wf(),
            level < NUM_LAYERS,
        ensures
            final(self).wf(),
            layers_well_linked(final(self)@),
            layer_ids_stored(final(self)@),
            match insert_error(old(self)@, embedding@) {
                Some(e) => r == Err::<u32, IndexError>(e) && final(self)@ == old(self)@,
                None => r == Ok::<u32, IndexError>(old(self)@.docs.len() as u32) && final(self)@.docs.len()
                    == old(self)@.docs.len() + 1 && final(self)@ == insert_model(
                    old(self)@,
                    content@,
                    embedding@,
                    level as nat,
                ),
            },
    {
        if self.next_id == u32::MAX {
            return Err(IndexError::Full);
        }
        if self.documents.len() == 0 {
            if embedding.len() > MAX_DIM {
                return Err(IndexError::DimensionTooLarge);
            }
        } else if embedding.len() != self.documents[0].embedding.len() {
            return Err(IndexError::DimensionMismatch);
        }
        let ghost db0 = self@;
        let ghost e = embedding@;
        let ghost docs0 = self.documents@;
        let doc_id = self.next_id;
        let mut top = level;
        if self.documents.len() == 0 {
            top = NUM_LAYERS - 1;
            self.graph_layers[top].set_entry_node(doc_id);
        }
        let ghost base = entered_layers(db0);
        proof {
            assert(self@.docs == db0.docs);
            assert forall|l: int| 0 <= l < NUM_LAYERS implies (#[trigger] self.graph_layers@[l])@ == base[l] by {
                if db0.docs.len() == 0 && l == NUM_LAYERS - 1 {
                } else {
                    assert(self.graph_layers@[l]@ == db0.layers[l]);
                }
            }
            assert forall|j: int| 0 <= j < self.documents.len() implies (#[trigger] self.documents@[j]).embedding.len()
                == embedding.len() by {
                assert(db0.docs[j].embedding.len() == db0.dim());
                assert(self.documents@[0].embedding@.len() == db0.docs[0].embedding.len());
            }
        }
        let mut l: usize = 0;
        while l <= top
            invariant
                db0.valid(),
                insert_error(db0, e) is None,
                top == crate::model::insert_level(db0, level as nat),
                top < NUM_LAYERS,
                l <= top + 1,
                e == embedding@,
                e.len() <= MAX_DIM,
                doc_id as int == db0.docs.len(),
                base == entered_layers(db0),
                self.documents@ == docs0,
                self.next_id == doc_id,
                doc_models(docs0) == db0.docs,
                forall|j: int| 0 <= j < self.documents.len() ==> (#[trigger] self.documents@[j]).embedding.len()
                    == embedding.len(),
                self.graph_layers.len() == NUM_LAYERS,
                forall|j: int| 0 <= j < NUM_LAYERS ==> (#[trigger] self.graph_layers@[j]).wf(),
                forall|j: int|
                    0 <= j < l ==> (#[trigger] self.graph_layers@[j])@ == layer_after_insert(
                        base[j],
                        db0.docs,
                        doc_id,
                        e,
                        fan_out(j),
                    ),
                forall|j: int| l <= j < NUM_LAYERS ==> (#[trigger] self.graph_layers@[j])@ == base[j],
            decreases top + 1 - l,
        {
            let ghost layer = base[l as int];
            let m = fan_out_at(l);
            proof {
                assert(db0.layers[l as int].consistent());
                assert(layer.nodes == db0.layers[l as int].nodes && layer.adj == db0.layers[l as int].adj);
                assert forall|i: int| 0 <= i < layer.nodes.len() implies (#[trigger] layer.nodes[i] as int)
                    < self.documents.len() by {
                    assert(layer.nodes.contains(layer.nodes[i]));
                    assert(db0.layers[l as int].adj.contains_key(layer.nodes[i]));
                }
            }
            let chosen = select_neighbors(&self.documents, self.graph_layers[l].node_ids(), &embedding, m);
            proof {
                assert(chosen@ == chosen_neighbors(layer, db0.docs, e, fan_out(l as int)));
                lemma_chosen_in_layer(layer, db0.docs, e, fan_out(l as int));
                assert forall|i: int| 0 <= i < layer.nodes.len() implies (#[trigger] layer.nodes[i]) < doc_id by {
                    assert(layer.nodes.contains(layer.nodes[i]));
                    assert(db0.layers[l as int].adj.contains_key(layer.nodes[i]));
                }
                assert(!layer.adj.contains_key(doc_id));
                lemma_add_isolated(layer.adj, doc_id);
            }
            self.graph_layers[l].add_node(doc_id);
            let ghost m0 = layer.adj.insert(doc_id, Seq::empty());
            let ghost layers_before = self.graph_layers@;
            let mut j: usize = 0;
            assert(chosen@.take(0) =~= Seq::<Scored>::empty());
            while j < chosen.len()
                invariant
                    l <= top < NUM_LAYERS,
                    self.documents@ == docs0,
                    self.next_id == doc_id,
                    self.graph_layers.len() == NUM_LAYERS,
                    forall|k: int| 0 <= k < NUM_LAYERS ==> (#[trigger] self.graph_layers@[k]).wf(),
                    forall|k: int| 0 <= k < NUM_LAYERS && k != l ==> (#[trigger] self.graph_layers@[k]) == layers_before[k],
                    j <= chosen.len(),
                    self.graph_layers@[l as int]@.entry == layer.entry,
                    self.graph_layers@[l as int]@.nodes == layer.nodes.push(doc_id),
                    self.graph_layers@[l as int]@.adj == link_all(m0, doc_id, chosen@.take(j as int)),
                    crate::graph::well_linked(m0),
                    m0.contains_key(doc_id),
                    forall|i: int|
                        0 <= i < chosen.len() ==> m0.contains_key((#[trigger] chosen@[i]).id) && chosen@[i].id != doc_id,
                decreases chosen.len() - j,
            {
                proof {
                    lemma_link_all(m0, doc_id, chosen@.take(j as int));
                    assert(chosen@.take(j as int + 1).drop_last() =~= chosen@.take(j as int));
                }
                self.graph_layers[l].add_neighbor(doc_id, chosen[j].id);
                j = j + 1;
            }
            assert(chosen@.take(chosen.len() as int) =~= chosen@);
            assert(self.graph_layers@[l as int]@ =~= layer_after_insert(layer, db0.docs, doc_id, e, fan_out(l as int)));
            l = l + 1;
        }
        self.documents.push(Document { id: doc_id, content, embedding });
        self.next_id = doc_id + 1;
        proof {
            let target = insert_model(db0, content@, e, level as nat);
            lemma_insert_valid(db0, content@, e, level as nat);
            assert(self@.docs =~= target.docs);
            assert forall|k: int| 0 <= k < NUM_LAYERS implies #[trigger] self@.layers[k] == target.layers[k] by {
                assert(self@.layers[k] == self.graph_layers@[k]@);
                assert(db0.docs.len() as u32 == doc_id);
                if k <= top {
                    assert(self.graph_layers@[k]@ == layer_after_insert(base[k], db0.docs, doc_id, e, fan_out(k)));
                    assert(target.layers[k] == layer_after_insert(base[k], db0.docs, doc_id, e, fan_out(k)));
                } else {
                    assert(self.graph_layers@[k]@ == base[k]);
                    assert(target.layers[k] == base[k]);
                }
            }
            assert(self@.layers =~= target.layers);
            assert forall|i: int| 0 <= i < self.documents.len() implies (#[trigger] self.documents@[i]).id == i by {
                if i < docs0.len() {
                    assert(self.documents@[i] == docs0[i]);
                }
            }
        }
        Ok(doc_id)
    }

    /// Offers document `n` to the result list (see `offer`) and gives its
    /// similarity to `q`.
    fn offer_exec(&self, q: &Vec<i16>, k: usize, best: &mut Vec<Scored>, visited: &mut Vec<bool>, n: u32) -> (s: Cosine)
        requires
            self.wf(),
            (n as int) < self@.docs.len(),
            q.len() == self@.dim(),
            old(visited).len() == self@.docs.len(),
            k > 0,
            list_ok(self@, q@, k as nat, old(best)@, old(visited)@),
        ensures
            s == doc_score(self@, q@, n).score,
            s.fits(),
            final(visited).len() == old(visited).len(),
            list_ok(self@, q@, k as nat, final(best)@, final(visited)@),
            state_of(final(best)@, final(visited)@) == offer(
                self@,
                q@,
                k as nat,
                state_of(old(best)@, old(visited)@),
                n,
            ),
    {
        proof {
            assert(self@.docs[n as int].embedding.len() == self@.dim());
            crate::vector::lemma_similarity_fits(self@.docs[n as int].embedding, q@);
        }
        let score = cosine(&self.documents[n as usize].embedding, q);
        if visited[n as usize] {
            return score;
        }
        let ghost st = state_of(best@, visited@);
        if best.len() >= k {
            best.pop();
        }
        let ghost kept = best@;
        let x = Scored { id: n, score };
        proof {
            assert(kept == if st.best.len() >= k { st.best.drop_last() } else { st.best });
            assert(rank_sorted(kept));
            assert forall|i: int| 0 <= i < kept.len() implies (#[trigger] kept[i]).id != x.id by {
                assert(visited@[kept[i].id as int]);
            }
            lemma_insert_rank_sorted(kept, x);
            lemma_insert_elements(kept, x);
            assert forall|i: int| 0 <= i < kept.len() implies (#[trigger] kept[i]).score.fits()
                && kept[i].score.norm_sq_b == score.norm_sq_b by {
                assert(kept[i] == doc_score(self@, q@, kept[i].id));
                assert(self@.docs[kept[i].id as int].embedding.len() == self@.dim());
                crate::vector::lemma_similarity_fits(self@.docs[kept[i].id as int].embedding, q@);
            }
        }
        insert_ranked_exec(best, x);
        visited.set(n as usize, true);
        proof {
            assert forall|i: int| 0 <= i < best.len() implies (#[trigger] best@[i].id as int) < self@.docs.len()
                && best@[i] == doc_score(self@, q@, best@[i].id) && (best@[i].id as int) < visited.len()
                && visited@[best@[i].id as int] by {
                if best@[i] != x {
                    let j = choose|j: int| 0 <= j < kept.len() && kept[j] == best@[i];
                }
            }
            assert(state_of(best@, visited@).visited =~= st.visited.insert(n));
        }
        score
    }

    /// Greedy descent within layer `level` from node `start`; gives the node
    /// where it stops.
    fn descend_exec(
        &self,
        level: usize,
        q: &Vec<i16>,
        k: usize,
        best: &mut Vec<Scored>,
        visited: &mut Vec<bool>,
        start: u32,
    ) -> (cur: u32)
        requires
            self.wf(),
            level < NUM_LAYERS,
            self@.layers[level as int].adj.contains_key(start),
            q.len() == self@.dim(),
            old(visited).len() == self@.docs.len(),
            k > 0,
            list_ok(self@, q@, k as nat, old(best)@, old(visited)@),
        ensures
            final(visited).len() == old(visited).len(),
            list_ok(self@, q@, k as nat, final(best)@, final(visited)@),
            self@.layers[level as int].adj.contains_key(cur),
            (cur, state_of(final(best)@, final(visited)@)) == descend(
                self@,
                q@,
                k as nat,
                self@.layers[level as int],
                start,
                state_of(old(best)@, old(visited)@),
            ),
    {
        let ghost db = self@;
        let layer = &self.graph_layers[level];
        let ghost lm = layer@;
        proof {
            assert(lm == db.layers[level as int]);
            lemma_valid_neighbors(db, level as int);
            assert(db.docs[start as int].embedding.len() == db.dim());
            assert((start as int) < db.docs.len());
        }
        let ghost goal = descend(db, q@, k as nat, lm, start, state_of(best@, visited@));
        let mut cur = start;
        let mut cur_score = cosine(&self.documents[start as usize].embedding, q);
        proof {
            crate::vector::lemma_similarity_fits(db.docs[start as int].embedding, q@);
        }
        loop
            invariant_except_break
                descend(db, q@, k as nat, lm, cur, state_of(best@, visited@)) == goal,
            invariant
                self.wf(),
                db == self@,
                lm == db.layers[level as int],
                layer@ == lm,
                layer.wf(),
                neighbors_stored_all(db, lm),
                lm.adj.contains_key(cur),
                (cur as int) < db.docs.len(),
                cur_score == doc_score(db, q@, cur).score,
                cur_score.fits(),
                q.len() == db.dim(),
                visited.len() == db.docs.len(),
                k > 0,
                list_ok(db, q@, k as nat, best@, visited@),
            ensures
                lm.adj.contains_key(cur),
                (cur, state_of(best@, visited@)) == goal,
                visited.len() == db.docs.len(),
                list_ok(db, q@, k as nat, best@, visited@),
            decreases count_above(db, q@, cur_score, db.docs.len()),
        {
            let ns = layer.neighbors(cur);
            let ghost st0 = state_of(best@, visited@);
            let mut j: usize = 0;
            let mut bi: usize = 0;
            let mut b_score = cur_score;
            assert(ns@.take(0) =~= Seq::<u32>::empty());
            while j < ns.len()
                invariant
                    self.wf(),
                    db == self@,
                    ns@ == lm.adj[cur],
                    neighbors_stored_all(db, lm),
                    lm.adj.contains_key(cur),
                    q.len() == db.dim(),
                    visited.len() == db.docs.len(),
                    k > 0,
                    list_ok(db, q@, k as nat, best@, visited@),
                    j <= ns.len(),
                    state_of(best@, visited@) == offer_all(db, q@, k as nat, st0, ns@.take(j as int)),
                    j > 0 ==> bi < j && bi as int == best_index(db, q@, ns@.take(j as int)),
                    j > 0 ==> b_score == doc_score(db, q@, ns@[bi as int]).score,
                    b_score.fits(),
                    b_score.norm_sq_b == cur_score.norm_sq_b,
                    cur_score == doc_score(db, q@, cur).score,
                decreases ns.len() - j,
            {
                let n = ns[j];
                proof {
                    assert(lm.adj[cur].contains(n));
                    assert(ns@.take(j as int + 1).drop_last() =~= ns@.take(j as int));
                }
                let s = self.offer_exec(q, k, best, visited, n);
                proof {
                    assert(ns@.take(j as int + 1).last() == n);
                    if j > 0 {
                        assert(ns@.take(j as int)[bi as int] == ns@[bi as int]);
                    }
                }
                if j == 0 || more_similar(&s, &b_score) {
                    bi = j;
                    b_score = s;
                }
                j = j + 1;
            }
            assert(ns@.take(ns.len() as int) =~= ns@);
            if ns.len() == 0 {
                break;
            }
            let n = ns[bi];
            if !(more_similar(&b_score, &cur_score) && layer.contains(n)) {
                break;
            }
            proof {
                assert(lm.adj[cur].contains(n));
                assert((n as int) < db.docs.len());
                assert(n as nat as u32 == n);
                lemma_count_above(db, q@, cur_score, b_score, n as nat, db.docs.len());
            }
            cur = n;
            cur_score = b_score;
        }
        cur
    }

    /// The up to `top_k` documents found for `query`, most similar first
    /// (ties: lower id first). Gives `None` for an empty index or
    /// `top_k == 0`, and fails when the query's length differs from the
    /// stored embeddings'.
    pub fn search(&self, query: &Vec<i16>, top_k: usize) -> (r: Result<Option<Vec<u32>>, IndexError>)
        requires
            self.wf(),
        ensures
            top_k == 0 || self@.docs.len() == 0 ==> r == Ok::<Option<Vec<u32>>, IndexError>(None),
            top_k > 0 && self@.docs.len() > 0 && query@.len() != self@.dim() ==> r == Err::<
                Option<Vec<u32>>,
                IndexError,
            >(IndexError::DimensionMismatch),
            top_k > 0 && self@.docs.len() > 0 && query@.len() == self@.dim() ==> (r matches Ok(Some(ids))
                && ids@ == search_result(self@, query@, top_k as nat)
                && ids@.len() <= top_k
                && (forall|i: int| 0 <= i < ids@.len() ==> (#[trigger] ids@[i] as int) < self@.docs.len())
                && (forall|i: int, j: int| 0 <= i < j < ids@.len() ==> ranks_before(
                    doc_score(self@, query@, #[trigger] ids@[i]),
                    doc_score(self@, query@, #[trigger] ids@[j]),
                ))
                && forall|i: int, j: int| 0 <= i < j < ids@.len() ==> !cos_gt(
                    similarity_of(self@.docs[ids@[j] as int].embedding, query@),
                    similarity_of(self@.docs[ids@[i] as int].embedding, query@),
                )),
    {
        if top_k == 0 || self.documents.len() == 0 {
            return Ok(None);
        }
        if query.len() != self.documents[0].embedding.len() {
            return Err(IndexError::DimensionMismatch);
        }
        let ghost db = self@;
        let ghost q = query@;
        let ghost k = top_k as nat;
        let mut best: Vec<Scored> = Vec::new();
        let mut visited: Vec<bool> = vec![false; self.documents.len()];
        assert(state_of(best@, visited@).visited =~= Set::<u32>::empty());
        let mut entry: u32 = 0;
        let mut l: usize = NUM_LAYERS;
        while l > 0
            invariant
                self.wf(),
                db == self@,
                db.docs.len() > 0,
                q == query@,
                query.len() == db.dim(),
                k == top_k,
                top_k > 0,
                l <= NUM_LAYERS,
                l > 0 ==> db.layers[l - 1].adj.contains_key(entry),
                visited.len() == db.docs.len(),
                list_ok(db, q, k, best@, visited@),
                search_from(db, q, k, l - 1, entry, state_of(best@, visited@)) == search_from(
                    db,
                    q,
                    k,
                    NUM_LAYERS - 1,
                    0,
                    start_state(),
                ),
            decreases l,
        {
            l = l - 1;
            let start = match self.graph_layers[l].entry() {
                Some(e) => e,
                None => entry,
            };
            proof {
                if l < NUM_LAYERS - 1 {
                    assert(db.layers[l as int].entry is None);
                }
                assert(db.layers[l as int].adj.contains_key(start));
                assert((start as int) < db.docs.len());
            }
            self.offer_exec(query, top_k, &mut best, &mut visited, start);
            entry = self.descend_exec(l, query, top_k, &mut best, &mut visited, start);
            proof {
                if l > 0 {
                    assert(db.layers[l as int].adj.contains_key(entry));
                    assert(db.layers[l - 1].adj.contains_key(entry));
                }
            }
        }
        let r = ids(&best);
        proof {
            assert forall|i: int| 0 <= i < r@.len() implies (#[trigger] r@[i] as int) < db.docs.len() by {
                assert(r@[i] == best@[i].id);
            }
            assert forall|i: int, j: int| 0 <= i < j < r@.len() implies !cos_gt(
                similarity_of(db.docs[r@[j] as int].embedding, q),
                similarity_of(db.docs[r@[i] as int].embedding, q),
            ) by {
                assert(best@[i] == doc_score(db, q, best@[i].id));
                assert(best@[j] == doc_score(db, q, best@[j].id));
                assert(r@[i] == best@[i].id && r@[j] == best@[j].id);
                assert(ranks_before(best@[i], best@[j]));
                lemma_rank_order(best@[i], best@[j], best@[j]);
            }
            assert forall|i: int, j: int| 0 <= i < j < r@.len() implies ranks_before(
                doc_score(db, q, #[trigger] r@[i]),
                doc_score(db, q, #[trigger] r@[j]),
            ) by {
                assert(best@[i] == doc_score(db, q, best@[i].id));
                assert(best@[j] == doc_score(db, q, best@[j].id));
                assert(r@[i] == best@[i].id && r@[j] == best@[j].id);
                assert(ranks_before(best@[i], best@[j]));
            }
        }
        Ok(Some(r))
    }

    /// Inserts a document at a randomly drawn level; refused as
    /// `insert_at_level` is.
    pub fn insert(&mut self, content: String, embedding: Vec<i16>) -> (r: Result<u32, IndexError>)
        requires
            old(self).wf(),
        ensures
            final(self).wf(),
            layers_well_linked(final(self)@),
            layer_ids_stored(final(self)@),
            match insert_error(old(self)@, embedding@) {
                Some(e) => r == Err::<u32, IndexError>(e) && final(self)@ == old(self)@,
                None => r == Ok::<u32, IndexError>(old(self)@.docs.len() as u32) && final(self)@.docs.len()
                    == old(self)@.docs.len() + 1 && exists|level: nat|
                    level < NUM_LAYERS && final(self)@ == insert_model(
                        old(self)@,
                        content@,
                        embedding@,
                        level,
                    ),
            },
    {
        let level = draw_level();
        self.insert_at_level(content, embedding, level)
    }
}

} // verus!
