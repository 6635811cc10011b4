//! Request and response shapes of the service, and the naming of search
//! results (`result_1`, `result_2`, ...).
use crate::index::Database;
use crate::model::{search_result, IndexError};
use vstd::prelude::*;

verus! {

/// Body of a search request.
pub struct QueryParams {
    pub query: String,
    pub top_k: usize,
}

/// Body of an upload request.
pub struct UploadParams {
    pub content: String,
}

/// Answer to a synchronous upload: the new document's id.
pub struct UploadResponse {
    pub id: u32,
}

/// Answer to a search for four results.
pub struct SearchResponse {
    pub result_1: String,
    pub result_2: String,
    pub result_3: String,
    pub result_4: String,
}

/// The character of decimal digit `d`.
pub open spec fn digit_char(d: int) -> char {
    if d == 0 {
        '0'
    } else if d == 1 {
        '1'
    } else if d == 2 {
        '2'
    } else if d == 3 {
        '3'
    } else if d == 4 {
        '4'
    } else if d == 5 {
        '5'
    } else if d == 6 {
        '6'
    } else if d == 7 {
        '7'
    } else if d == 8 {
        '8'
    } else {
        '9'
    }
}

/// Decimal notation of `n`, without leading zeros.
pub open spec fn decimal(n: nat) -> Seq<char>
    decreases n,
{
    if n < 10 {
        seq![digit_char(n as int)]
    } else {
        decimal(n / 10).push(digit_char((n % 10) as int))
    }
}

/// The key of the `n`-th search result: `result_` followed by `n`.
pub open spec fn result_key(n: nat) -> Seq<char> {
    seq!['r', 'e', 's', 'u', 'l', 't', '_'] + decimal(n)
}

fn digit_str(d: usize) -> (r: &'static str)
    requires
        d < 10,
    ensures
        r@ == seq![digit_char(d as int)],
{
    proof {
        reveal_strlit("0");
        reveal_strlit("1");
        reveal_strlit("2");
        reveal_strlit("3");
        reveal_strlit("4");
        reveal_strlit("5");
        reveal_strlit("6");
        reveal_strlit("7");
        reveal_strlit("8");
        reveal_strlit("9");
    }
    if d == 0 {
        "0"
    } else if d == 1 {
        "1"
    } else if d == 2 {
        "2"
    } else if d == 3 {
        "3"
    } else if d == 4 {
        "4"
    } else if d == 5 {
        "5"
    } else if d == 6 {
        "6"
    } else if d == 7 {
        "7"
    } else if d == 8 {
        "8"
    } else {
        "9"
    }
}

fn append_decimal(s: &mut String, n: usize)
    ensures
        final(s)@ == old(s)@ + decimal(n as nat),
    decreases n,
{
    if n >= 10 {
        append_decimal(s, n / 10);
    }
    s.append(digit_str(n % 10));
    assert(final(s)@ =~= old(s)@ + decimal(n as nat)) by {
        if n >= 10 {
            assert(decimal(n as nat) == decimal((n / 10) as nat).push(digit_char((n % 10) as int)));
        }
    }
}

/// The key of the `n`-th search result.
pub fn result_key_string(n: usize) -> (r: String)
    ensures
        r@ == result_key(n as nat),
{
    proof {
        reveal_strlit("result_");
    }
    let mut s = String::from_str("result_");
    append_decimal(&mut s, n);
    s
}

/// The keyed contents of the documents `ids`, in order: the `i`-th is
/// named `result_i`, counting from 1.
pub fn keyed_contents(db: &Database, ids: &Vec<u32>) -> (r: Vec<(String, String)>)
    requires
        db.wf(),
        forall|i: int| 0 <= i < ids.len() ==> (#[trigger] ids@[i] as int) < db@.docs.len(),
    ensures
        r.len() == ids.len(),
        forall|i: int|
            0 <= i < r.len() ==> (#[trigger] r@[i]).0@ == result_key((i + 1) as nat) && r@[i].1@
                == db@.docs[ids@[i] as int].content,
{
    let mut r: Vec<(String, String)> = Vec::new();
    let mut i: usize = 0;
    while i < ids.len()
        invariant
            db.wf(),
                forall|i: int| 0 <= i < ids.len() ==> (#[trigger] ids@[i] as int) < db@.docs.len(),
            i <= ids.len(),
            r.len() == i,
            forall|j: int|
                0 <= j < i ==> (#[trigger] r@[j]).0@ == result_key((j + 1) as nat) && r@[j].1@
                    == db@.docs[ids@[j] as int].content,
        decreases ids.len() - i,
    {
        let key = result_key_string(i + 1);
        let content = match db.get(ids[i]) {
            Some(d) => d.content.clone(),
            None => String::new(),
        };
        r.push((key, content));
        i = i + 1;
    }
    r
}

/// What a search request answers: `None` when there is no result (empty
/// index or `top_k == 0`), otherwise the found documents' contents keyed
/// `result_1`, `result_2`, ... in search order.
pub fn search_contents(db: &Database, query: &Vec<i16>, top_k: usize) -> (r: Result<
    Option<Vec<(String, String)>>,
    IndexError,
>)
    requires
        db.wf(),
    ensures
        top_k == 0 || db@.docs.len() == 0 ==> r == Ok::<Option<Vec<(String, String)>>, IndexError>(
            None,
        ),
        top_k > 0 && db@.docs.len() > 0 && query@.len() != db@.dim() ==> r == Err::<
            Option<Vec<(String, String)>>,
            IndexError,
        >(IndexError::DimensionMismatch),
        top_k > 0 && db@.docs.len() > 0 && query@.len() == db@.dim() ==> (r matches Ok(Some(v))
            && v.len() == search_result(db@, query@, top_k as nat).len() && forall|i: int|
            0 <= i < v.len() ==> (#[trigger] v@[i]).0@ == result_key((i + 1) as nat) && v@[i].1@
                == db@.docs[search_result(db@, query@, top_k as nat)[i] as int].content),
{
    match db.search(query, top_k) {
        Err(e) => Err(e),
        Ok(None) => Ok(None),
        Ok(Some(ids)) => {
            proof {
                db.lemma_valid();
            }
            Ok(Some(keyed_contents(db, &ids)))
        },
    }
}

} // verus!
