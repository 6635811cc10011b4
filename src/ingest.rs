//! The ingest path: a FIFO queue of uploaded texts, drained in batches whose
//! embeddings are inserted together.
use crate::index::Database;
use crate::level::draw_level;
use crate::model::{
    insert_error, insert_model, layer_ids_stored, layers_well_linked, DbModel, IndexError, NUM_LAYERS,
};
use crate::vector::MAX_DIM;
use std::collections::VecDeque;
use vstd::prelude::*;

verus! {

/// Texts waiting to be embedded and inserted, oldest first.
pub struct IngestQueue {
    pending: VecDeque<String>,
}

impl View for IngestQueue {
    type V = Seq<String>;

    closed spec fn view(&self) -> Seq<String> {
        self.pending@
    }
}

impl IngestQueue {
    /// An empty queue.
    pub fn new() -> (r: IngestQueue)
        ensures
            r@ == Seq::<String>::empty(),
    {
        IngestQueue { pending: VecDeque::new() }
    }

    /// Appends `content` at the back.
    pub fn push(&mut self, content: String)
        ensures
            final(self)@ == old(self)@.push(content),
    {
        self.pending.push_back(content);
    }

    /// Number of waiting texts.
    pub fn len(&self) -> (r: usize)
        ensures
            r == self@.len(),
    {
        self.pending.len()
    }

    /// Whether no text is waiting.
    pub fn is_empty(&self) -> (r: bool)
        ensures
            r == (self@.len() == 0),
    {
        self.pending.len() == 0
    }

    /// Takes every waiting text, oldest first, and leaves the queue empty.
    pub fn drain(&mut self) -> (r: Vec<String>)
        ensures
            r@ == old(self)@,
            final(self)@ == Seq::<String>::empty(),
    {
        let mut out: Vec<String> = Vec::new();
        let ghost all = self.pending@;
        loop
            invariant
                all == out@ + self.pending@,
            ensures
                all == out@,
                self.pending@.len() == 0,
            decreases self.pending@.len(),
        {
            match self.pending.pop_front() {
                Some(doc) => {
                    out.push(doc);
                    assert(all =~= out@ + self.pending@);
                },
                None => {
                    assert(out@ + self.pending@ =~= out@);
                    break;
                },
            }
        }
        out
    }
}

/// The texts of a batch.
pub open spec fn texts(v: Seq<String>) -> Seq<Seq<char>> {
    v.map_values(|s: String| s@)
}

/// The vectors of a batch.
pub open spec fn vectors(v: Seq<Vec<i16>>) -> Seq<Seq<i16>> {
    v.map_values(|e: Vec<i16>| e@)
}

/// The index after inserting the first `n` documents of a batch, document
/// `i` at drawn level `levels[i]`.
pub open spec fn insert_first(
    db: DbModel,
    contents: Seq<Seq<char>>,
    embs: Seq<Seq<i16>>,
    levels: Seq<nat>,
    n: nat,
) -> DbModel
    decreases n,
{
    if n == 0 {
        db
    } else {
        insert_model(
            insert_first(db, contents, embs, levels, (n - 1) as nat),
            contents[n - 1],
            embs[n - 1],
            levels[n - 1],
        )
    }
}

/// The length every embedding of a batch must have: the stored one, or
/// else the batch's first.
pub open spec fn batch_dim(db: DbModel, embs: Seq<Seq<i16>>) -> int {
    if db.docs.len() > 0 {
        db.dim() as int
    } else if embs.len() > 0 {
        embs[0].len() as int
    } else {
        0
    }
}

/// Why a batch with embeddings `embs` is refused as a whole, if it is.
pub open spec fn batch_error(db: DbModel, embs: Seq<Seq<i16>>) -> Option<IndexError> {
    if db.docs.len() + embs.len() > u32::MAX {
        Some(IndexError::Full)
    } else if exists|i: int| 0 <= i < embs.len() && #[trigger] embs[i].len() != batch_dim(db, embs) {
        Some(IndexError::DimensionMismatch)
    } else if batch_dim(db, embs) > MAX_DIM {
        Some(IndexError::DimensionTooLarge)
    } else {
        None
    }
}

impl Database {
    /// Inserts a batch of texts with their embeddings, in order, each at a
    /// randomly drawn level. The batch is refused as a whole, with the index
    /// unchanged, when its ids would not fit or its embeddings' lengths
    /// disagree; otherwise the new ids follow the previous document count.
    pub fn insert_batch(&mut self, contents: Vec<String>, embeddings: Vec<Vec<i16>>) -> (r: Result<
        Vec<u32>,
        IndexError,
    >)
        requires
            old(self).wf(),
            contents.len() == embeddings.len(),
        ensures
            final(self).wf(),
            layers_well_linked(final(self)@),
            layer_ids_stored(final(self)@),
            match batch_error(old(self)@, vectors(embeddings@)) {
                Some(e) => r == Err::<Vec<u32>, IndexError>(e) && final(self)@ == old(self)@,
                None => (r matches Ok(ids) && ids@.len() == contents.len() && (forall|i: int|
                    0 <= i < ids@.len() ==> #[trigger] ids@[i] == old(self)@.docs.len() + i) && exists|
                    levels: Seq<nat>,
                |
                    levels.len() == contents.len() && (forall|i: int|
                        0 <= i < levels.len() ==> #[trigger] levels[i] < NUM_LAYERS) && final(self)@
                        == insert_first(
                        old(self)@,
                        texts(contents@),
                        vectors(embeddings@),
                        levels,
                        contents.len() as nat,
                    )),
            },
    {
        let ghost db0 = self@;
        proof {
            self.lemma_valid();
        }
        let ghost cs = texts(contents@);
        let ghost es = vectors(embeddings@);
        let n = contents.len();
        let used = self.next_id();
        if n > (u32::MAX - used) as usize {
            return Err(IndexError::Full);
        }
        let d: usize = if self.len() > 0 {
            self.dim()
        } else if n > 0 {
            embeddings[0].len()
        } else {
            0
        };
        let mut i: usize = 0;
        while i < n
            invariant
                self.wf(),
                self@ == db0,
                layers_well_linked(db0),
                layer_ids_stored(db0),
                db0.docs.len() + n <= u32::MAX,
                n == embeddings.len(),
                es == vectors(embeddings@),
                d == batch_dim(db0, es),
                i <= n,
                forall|j: int| 0 <= j < i ==> (#[trigger] es[j]).len() == d,
            decreases n - i,
        {
            if embeddings[i].len() != d {
                assert(es[i as int].len() != batch_dim(db0, es));
                return Err(IndexError::DimensionMismatch);
            }
            i = i + 1;
        }
        if d > MAX_DIM {
            return Err(IndexError::DimensionTooLarge);
        }
        let mut contents = contents;
        let mut embeddings = embeddings;
        let mut ids: Vec<u32> = Vec::new();
        let ghost mut levels: Seq<nat> = Seq::empty();
        let mut i: usize = 0;
        while i < n
            invariant
                self.wf(),
                n == contents.len(),
                n == embeddings.len(),
                forall|j: int| i <= j < n ==> (#[trigger] contents@[j])@ == cs[j],
                forall|j: int| i <= j < n ==> (#[trigger] embeddings@[j])@ == es[j],
                cs.len() == n,
                es.len() == n,
                db0.docs.len() + n <= u32::MAX,
                forall|j: int| 0 <= j < n ==> (#[trigger] es[j]).len() == d,
                d <= MAX_DIM,
                d == batch_dim(db0, es),
                db0.valid(),
                i <= n,
                levels.len() == i,
                forall|j: int| 0 <= j < i ==> #[trigger] levels[j] < NUM_LAYERS,
                self@ == insert_first(db0, cs, es, levels, i as nat),
                self@.docs.len() == db0.docs.len() + i,
                self@.docs.len() > 0 ==> self@.dim() == d,
                ids@.len() == i,
                forall|j: int| 0 <= j < i ==> #[trigger] ids@[j] == db0.docs.len() + j,
            decreases n - i,
        {
            let mut c = String::new();
            contents.set_and_swap(i, &mut c);
            let mut e: Vec<i16> = Vec::new();
            embeddings.set_and_swap(i, &mut e);
            let level = draw_level();
            let ghost before = self@;
            proof {
                assert(insert_error(before, e@) is None);
            }
            let res = self.insert_at_level(c, e, level);
            let id = match res {
                Ok(id) => id,
                Err(err) => {
                    return Err(err);
                },
            };
            ids.push(id);
            proof {
                let lv = level as nat;
                assert(levels.push(lv).take(i as int) =~= levels);
                lemma_insert_first_prefix(db0, cs, es, levels, levels.push(lv), i as nat);
                levels = levels.push(lv);
                assert(self@ == insert_model(before, cs[i as int], es[i as int], lv));
                if before.docs.len() > 0 {
                    assert(self@.docs[0] == before.docs[0]);
                } else {
                    assert(self@.docs[0].embedding == es[i as int]);
                }
            }
            i = i + 1;
        }
        proof {
            self.lemma_valid();
        }
        Ok(ids)
    }
}

/// `insert_first` over `n` documents reads only the first `n` levels.
proof fn lemma_insert_first_prefix(
    db: DbModel,
    contents: Seq<Seq<char>>,
    embs: Seq<Seq<i16>>,
    a: Seq<nat>,
    b: Seq<nat>,
    n: nat,
)
    requires
        n <= a.len(),
        n <= b.len(),
        forall|j: int| 0 <= j < n ==> a[j] == b[j],
    ensures
        insert_first(db, contents, embs, a, n) == insert_first(db, contents, embs, b, n),
    decreases n,
{
    if n > 0 {
        lemma_insert_first_prefix(db, contents, embs, a, b, (n - 1) as nat);
    }
}

} // verus!
