use vdb::api::search_contents;
use vdb::index::Database;
use vdb::ingest::IngestQueue;
use vdb::model::{IndexError, NUM_LAYERS};
use vdb::vector::cosine;

fn quantize(v: &[f64]) -> Vec<i16> {
    let max = v.iter().fold(0.0f64, |m, x| m.max(x.abs()));
    if max == 0.0 {
        return vec![0; v.len()];
    }
    v.iter().map(|x| (x / max * 32767.0).round() as i16).collect()
}

fn stub(text: &str) -> Vec<i16> {
    let s = 1.0 / 2f64.sqrt();
    match text {
        "a" => quantize(&[1.0, 0.0, 0.0, 0.0]),
        "b" => quantize(&[0.0, 1.0, 0.0, 0.0]),
        "c" => quantize(&[s, s, 0.0, 0.0]),
        _ => quantize(&[0.0, 0.0, 1.0, 1.0]),
    }
}

fn check_layers(db: &Database) {
    for l in 0..NUM_LAYERS {
        let g = db.layer(l);
        for &a in g.node_ids().iter() {
            assert!((a as usize) < db.len());
            let ns = g.neighbors(a);
            for (i, &b) in ns.iter().enumerate() {
                assert_ne!(a, b);
                assert!(!ns[..i].contains(&b));
                assert!(g.contains(b));
                assert!(g.neighbors(b).contains(&a));
            }
            for lower in 0..l {
                assert!(db.layer(lower).contains(a));
            }
        }
    }
}

fn axis(i: usize, dim: usize, scale: f64) -> Vec<i16> {
    let mut v = vec![0.0; dim];
    v[i] = scale;
    let mut q: Vec<i16> = v.iter().map(|x| (x * 30000.0).round() as i16).collect();
    if q[i] == 0 {
        q[i] = 1;
    }
    q
}

#[test]
fn ids_follow_next_id() {
    let mut db = Database::new();
    for i in 0..5u32 {
        assert_eq!(db.next_id(), i);
        let id = db.insert(format!("doc {}", i), stub("d")).unwrap();
        assert_eq!(id, i);
        assert_eq!(db.next_id(), i + 1);
    }
    assert_eq!(db.len(), 5);
}

#[test]
fn adjacency_invariants_after_inserts() {
    let mut db = Database::new();
    for i in 0..60i32 {
        let v: Vec<i16> = vec![(i * 37 % 101) as i16 - 50, (i * 11 % 29) as i16 - 14, (i % 7) as i16, 3];
        db.insert(format!("doc {}", i), v).unwrap();
    }
    check_layers(&db);
}

#[test]
fn first_document_is_top_entry() {
    let mut db = Database::new();
    assert_eq!(db.layer(NUM_LAYERS - 1).entry(), None);
    let id = db.insert("a".to_string(), stub("a")).unwrap();
    assert_eq!(id, 0);
    assert_eq!(db.layer(NUM_LAYERS - 1).entry(), Some(0));
    for l in 0..NUM_LAYERS {
        assert!(db.layer(l).contains(0));
    }
    for l in 0..NUM_LAYERS - 1 {
        assert_eq!(db.layer(l).entry(), None);
    }
}

#[test]
fn search_empty_index_has_no_result() {
    let db = Database::new();
    assert_eq!(db.search(&stub("a"), 3), Ok(None));
}

#[test]
fn search_with_zero_k_has_no_result() {
    let mut db = Database::new();
    db.insert("a".to_string(), stub("a")).unwrap();
    assert_eq!(db.search(&stub("a"), 0), Ok(None));
}

#[test]
fn search_single_document() {
    let mut db = Database::new();
    db.insert("a".to_string(), stub("a")).unwrap();
    assert_eq!(db.search(&stub("a"), 1), Ok(Some(vec![0])));
    assert_eq!(db.search(&stub("b"), 5), Ok(Some(vec![0])));
}

#[test]
fn search_scenario_three_documents() {
    let mut db = Database::new();
    db.insert_at_level("a".to_string(), stub("a"), 0).unwrap();
    db.insert_at_level("b".to_string(), stub("b"), 0).unwrap();
    db.insert_at_level("c".to_string(), stub("c"), 0).unwrap();
    let found = db.search(&stub("a"), 2).unwrap().unwrap();
    let contents: Vec<String> = found.iter().map(|&id| db.get(id).unwrap().content.clone()).collect();
    assert_eq!(contents, vec!["a".to_string(), "c".to_string()]);
}

#[test]
fn search_results_bounded_and_sorted() {
    let mut db = Database::new();
    for i in 0..40i32 {
        let v: Vec<i16> = vec![(i * 13 % 17) as i16 - 8, (i * 5 % 11) as i16 - 5, 2, (i % 3) as i16];
        db.insert(format!("doc {}", i), v).unwrap();
    }
    let q: Vec<i16> = vec![3, -2, 1, 1];
    for k in 1..8 {
        let ids = db.search(&q, k).unwrap().unwrap();
        assert!(!ids.is_empty());
        assert!(ids.len() <= k);
        let sims: Vec<f64> = ids
            .iter()
            .map(|&id| {
                let c = cosine(&db.get(id).unwrap().embedding, &q);
                if c.norm_sq_a == 0 || c.norm_sq_b == 0 {
                    0.0
                } else {
                    c.dot as f64 / ((c.norm_sq_a as f64) * (c.norm_sq_b as f64)).sqrt()
                }
            })
            .collect();
        for w in sims.windows(2) {
            assert!(w[0] >= w[1]);
        }
    }
}

#[test]
fn search_axes_finds_first_axis() {
    let mut db = Database::new();
    let eps = 0.01;
    for i in 0..10 {
        db.insert(format!("axis {}", i), axis(i, 10, 1.0 + i as f64 * eps)).unwrap();
    }
    let found = db.search(&axis(0, 10, 1.0), 3).unwrap().unwrap();
    assert_eq!(found[0], 0);
    assert_eq!(db.get(found[0]).unwrap().content, "axis 0");
}

#[test]
fn insert_dimension_mismatch() {
    let mut db = Database::new();
    db.insert("a".to_string(), stub("a")).unwrap();
    assert_eq!(db.insert("x".to_string(), vec![1, 2, 3]), Err(IndexError::DimensionMismatch));
    assert_eq!(db.len(), 1);
    assert_eq!(db.next_id(), 1);
}

#[test]
fn insert_dimension_too_large() {
    let mut db = Database::new();
    assert_eq!(db.insert("x".to_string(), vec![1; 4097]), Err(IndexError::DimensionTooLarge));
    assert_eq!(db.len(), 0);
}

#[test]
fn search_dimension_mismatch() {
    let mut db = Database::new();
    db.insert("a".to_string(), stub("a")).unwrap();
    assert_eq!(db.search(&vec![1, 2], 1), Err(IndexError::DimensionMismatch));
}

#[test]
fn get_beyond_last_id() {
    let mut db = Database::new();
    db.insert("a".to_string(), stub("a")).unwrap();
    assert!(db.get(0).is_some());
    assert!(db.get(1).is_none());
    assert_eq!(db.dim(), 4);
}

#[test]
fn queue_drains_in_order() {
    let mut q = IngestQueue::new();
    assert!(q.is_empty());
    q.push("one".to_string());
    q.push("two".to_string());
    q.push("three".to_string());
    assert_eq!(q.len(), 3);
    assert_eq!(q.drain(), vec!["one".to_string(), "two".to_string(), "three".to_string()]);
    assert!(q.is_empty());
    assert!(q.drain().is_empty());
}

#[test]
fn batch_upload_then_search_three() {
    let mut q = IngestQueue::new();
    for t in ["a", "b", "c"] {
        q.push(t.to_string());
    }
    let batch = q.drain();
    let embeddings: Vec<Vec<i16>> = batch.iter().map(|t| stub(t)).collect();
    let mut db = Database::new();
    assert_eq!(db.insert_batch(batch, embeddings), Ok(vec![0, 1, 2]));
    let found = search_contents(&db, &stub("a"), 3).unwrap().unwrap();
    assert_eq!(found.len(), 3);
    assert_eq!(found[0], ("result_1".to_string(), "a".to_string()));
    assert_eq!(found[1].0, "result_2");
    assert_eq!(found[2].0, "result_3");
    let mut contents: Vec<String> = found.iter().map(|p| p.1.clone()).collect();
    contents.sort();
    assert_eq!(contents, vec!["a".to_string(), "b".to_string(), "c".to_string()]);
}

#[test]
fn fifty_uploads_all_indexed() {
    let mut q = IngestQueue::new();
    for i in 0..50 {
        q.push(format!("upload {}", i));
    }
    let batch = q.drain();
    let embeddings: Vec<Vec<i16>> =
        (0..50i32).map(|i| vec![(i % 9) as i16 - 4, (i % 5) as i16 + 1, (i * 7 % 13) as i16, 1]).collect();
    let mut db = Database::new();
    let ids = db.insert_batch(batch, embeddings).unwrap();
    assert_eq!(ids, (0..50).collect::<Vec<u32>>());
    assert_eq!(db.len(), 50);
    assert_eq!(db.get(49).unwrap().content, "upload 49");
    check_layers(&db);
}

#[test]
fn batch_with_mismatched_dimension_is_refused() {
    let mut db = Database::new();
    db.insert("a".to_string(), stub("a")).unwrap();
    let r = db.insert_batch(vec!["x".to_string(), "y".to_string()], vec![stub("b"), vec![1, 2]]);
    assert_eq!(r, Err(IndexError::DimensionMismatch));
    assert_eq!(db.len(), 1);
}

#[test]
fn search_with_zero_top_k_answers_nothing() {
    let mut db = Database::new();
    db.insert("x".to_string(), stub("x")).unwrap();
    assert_eq!(search_contents(&db, &stub("x"), 0), Ok(None));
}

#[test]
fn result_keys_are_numbered_from_one() {
    assert_eq!(vdb::api::result_key_string(1), "result_1");
    assert_eq!(vdb::api::result_key_string(12), "result_12");
    assert_eq!(vdb::api::result_key_string(0), "result_0");
    assert_eq!(vdb::api::result_key_string(305), "result_305");
}

#[test]
fn equal_similarity_ranks_lower_id_first() {
    let mut db = Database::new();
    for i in 0..3 {
        db.insert_at_level(format!("same {}", i), vec![5, 5, 0, 0], 0).unwrap();
    }
    assert_eq!(db.search(&vec![1, 1, 0, 0], 3), Ok(Some(vec![0, 1, 2])));
}

#[test]
fn equal_candidates_link_to_lowest_ids() {
    let mut db = Database::new();
    for i in 0..6 {
        db.insert_at_level(format!("same {}", i), vec![2, 0, 1, 0], 0).unwrap();
    }
    assert_eq!(db.layer(0).neighbors(5), &vec![0, 1, 2, 3]);
    assert_eq!(db.layer(0).neighbors(1), &vec![0, 2, 3, 4, 5]);
    assert!(!db.layer(1).contains(5));
}
