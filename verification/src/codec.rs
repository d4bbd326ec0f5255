//! The persisted form of an embedding: its components' bit patterns, four
//! little-endian bytes each, and the rebuild of a vector index from such rows.

use vstd::prelude::*;
use vstd::string::*;
use vstd::bytes::{lemma_auto_spec_u32_to_from_le_bytes, spec_u32_from_le_bytes, spec_u32_to_le_bytes, u32_from_le_bytes, u32_to_le_bytes};
use crate::error::{corrupt_embedding, empty_embedding, KronroeError};
use crate::fact::FactId;
use crate::vector::{insert_refused, upsert, VectorIndex};

verus! {

/// The bytes of an embedding: each component as four little-endian bytes, in
/// order.
pub open spec fn packed(v: Seq<u32>) -> Seq<u8>
    decreases v.len(),
{
    if v.len() == 0 {
        Seq::empty()
    } else {
        packed(v.drop_last()) + spec_u32_to_le_bytes(v.last())
    }
}

/// An embedding of `n` components packs into `4 n` bytes.
pub proof fn lemma_packed_len(v: Seq<u32>)
    ensures
        packed(v).len() == 4 * v.len(),
    decreases v.len(),
{
    lemma_auto_spec_u32_to_from_le_bytes();
    if v.len() > 0 {
        lemma_packed_len(v.drop_last());
    }
}

/// Two embeddings with the same bytes are the same embedding.
pub proof fn lemma_packed_injective(a: Seq<u32>, b: Seq<u32>)
    requires
        packed(a) == packed(b),
    ensures
        a == b,
    decreases a.len(),
{
    lemma_auto_spec_u32_to_from_le_bytes();
    lemma_packed_len(a);
    lemma_packed_len(b);
    if a.len() == 0 {
        assert(a =~= b);
    } else {
        let pa = packed(a.drop_last());
        let pb = packed(b.drop_last());
        lemma_packed_len(a.drop_last());
        lemma_packed_len(b.drop_last());
        let wa = spec_u32_to_le_bytes(a.last());
        let wb = spec_u32_to_le_bytes(b.last());
        assert(pa =~= packed(a).subrange(0, pa.len() as int));
        assert(pb =~= packed(b).subrange(0, pb.len() as int));
        assert(wa =~= packed(a).subrange(pa.len() as int, packed(a).len() as int));
        assert(wb =~= packed(b).subrange(pb.len() as int, packed(b).len() as int));
        assert(spec_u32_from_le_bytes(wa) == a.last());
        assert(spec_u32_from_le_bytes(wb) == b.last());
        lemma_packed_injective(a.drop_last(), b.drop_last());
        assert(a =~= a.drop_last().push(a.last()));
        assert(b =~= b.drop_last().push(b.last()));
    }
}

/// Packs an embedding into its persisted bytes.
pub fn encode_embedding(embedding: &Vec<u32>) -> (r: Vec<u8>)
    ensures
        r@ == packed(embedding@),
        r@.len() == 4 * embedding@.len(),
{
    let mut out: Vec<u8> = Vec::new();
    let mut i: usize = 0;
    assert(embedding@.take(0) =~= Seq::empty());
    while i < embedding.len()
        invariant
            i <= embedding@.len(),
            out@ == packed(embedding@.take(i as int)),
        decreases embedding@.len() - i,
    {
        assert(embedding@.take(i + 1).drop_last() =~= embedding@.take(i as int));
        let mut word = u32_to_le_bytes(embedding[i]);
        out.append(&mut word);
        i += 1;
    }
    assert(embedding@.take(i as int) =~= embedding@);
    proof {
        lemma_packed_len(embedding@);
    }
    out
}

/// Unpacks the persisted bytes of the embedding of fact `id`.
///
/// Fails with a storage error exactly when the length is not a multiple of
/// four; otherwise the result is the one embedding that packs into `bytes`.
pub fn decode_embedding(id: &str, bytes: &Vec<u8>) -> (r: Result<Vec<u32>, KronroeError>)
    ensures
        r is Err <==> bytes@.len() % 4 != 0,
        r is Err ==> r->Err_0 is Storage,
        r is Ok ==> packed(r->Ok_0@) == bytes@ && r->Ok_0@.len() * 4 == bytes@.len(),
{
    let n = bytes.len();
    if n % 4 != 0 {
        return Err(corrupt_embedding(id, n));
    }
    let count = n / 4;
    let mut out: Vec<u32> = Vec::new();
    let mut i: usize = 0;
    assert(bytes@.take(0) =~= Seq::empty());
    while i < count
        invariant
            i <= count,
            count * 4 == n,
            n == bytes@.len(),
            out@.len() == i,
            packed(out@) == bytes@.take(4 * i),
        decreases count - i,
    {
        let mut word: Vec<u8> = Vec::new();
        word.push(bytes[4 * i]);
        word.push(bytes[4 * i + 1]);
        word.push(bytes[4 * i + 2]);
        word.push(bytes[4 * i + 3]);
        let x = u32_from_le_bytes(word.as_slice());
        proof {
            lemma_auto_spec_u32_to_from_le_bytes();
            assert(word@ =~= bytes@.subrange(4 * i, 4 * i + 4));
            assert(spec_u32_to_le_bytes(x) == word@);
        }
        let ghost before = out@;
        out.push(x);
        assert(out@.drop_last() =~= before);
        assert(bytes@.take(4 * (i + 1)) =~= bytes@.take(4 * i) + bytes@.subrange(4 * i, 4 * i + 4));
        i += 1;
    }
    assert(bytes@.take(4 * i) =~= bytes@);
    Ok(out)
}

/// Packing an embedding and unpacking the bytes gives the embedding back.
pub proof fn lemma_codec_round_trip(v: Seq<u32>)
    ensures
        unpacked(packed(v)) == v,
        packed(v).len() % 4 == 0,
        packed(v).len() / 4 == v.len(),
{
    lemma_packed_len(v);
    lemma_packed_injective(unpacked(packed(v)), v);
}

/// One persisted embedding row: the fact id and the packed bytes.
#[derive(Debug, Clone)]
pub struct EmbeddingRow {
    pub id: String,
    pub bytes: Vec<u8>,
}

/// The decision on the persisted embedding dimension before a write: what to
/// store when none is stored yet, and whether the embedding fits the one that
/// is.
pub fn check_embedding_dim(stored: Option<u64>, len: usize) -> (r: Result<Option<u64>, KronroeError>)
    ensures
        r is Err <==> len == 0 || (stored matches Some(d) && d != len),
        r is Err ==> r->Err_0 is InvalidEmbedding,
        r is Ok ==> (r->Ok_0 matches Some(d) ==> stored is None && d == len),
        r is Ok ==> (r->Ok_0 is None ==> stored is Some),
{
    if len == 0 {
        return Err(empty_embedding());
    }
    match stored {
        None => Ok(Some(len as u64)),
        Some(d) => {
            if d != len as u64 {
                Err(stored_dimension_mismatch(d, len))
            } else {
                Ok(None)
            }
        },
    }
}

fn stored_dimension_mismatch(expected: u64, got: usize) -> (r: KronroeError)
    ensures
        r is InvalidEmbedding,
{
    let mut m = String::from_str("embedding dimension mismatch: expected ");
    m.append(expected.to_string().as_str());
    m.append(", got ");
    m.append(got.to_string().as_str());
    KronroeError::InvalidEmbedding(m)
}

/// The index that holds the first `n` rows, or nothing where one of them is
/// corrupt or does not fit.
pub open spec fn rebuilt(rows: Seq<EmbeddingRow>, n: int) -> Option<(Seq<(Seq<char>, Seq<u32>)>, Option<usize>)>
    decreases n,
{
    if n <= 0 {
        Some((Seq::empty(), None))
    } else {
        match rebuilt(rows, n - 1) {
            None => None,
            Some((entries, dim)) => {
                let bytes = rows[n - 1].bytes@;
                if bytes.len() % 4 != 0 || insert_refused(dim, bytes.len() / 4) {
                    None
                } else {
                    Some((upsert(entries, (rows[n - 1].id@, unpacked(bytes))), Some((bytes.len() / 4) as usize)))
                }
            },
        }
    }
}

/// The rebuild takes the rows before row `i` and stops at row `i`.
pub open spec fn stops_at(rows: Seq<EmbeddingRow>, i: int) -> bool {
    0 <= i < rows.len() && rebuilt(rows, i) is Some && rebuilt(rows, i + 1) is None
}

/// The embedding that packs into `bytes`.
pub open spec fn unpacked(bytes: Seq<u8>) -> Seq<u32> {
    choose|v: Seq<u32>| packed(v) == bytes
}

/// Rebuilds the vector index from the persisted embedding rows, in order.
///
/// Fails with a storage error at the first row whose length is not a
/// multiple of four, and with invalid-embedding at the first row that is
/// empty or differs in dimension from the rows before it.
pub fn rebuild_vector_index(rows: &Vec<EmbeddingRow>) -> (r: Result<VectorIndex, KronroeError>)
    ensures
        r is Ok <==> rebuilt(rows@, rows@.len() as int) is Some,
        r is Ok ==> r->Ok_0.wf() && rebuilt(rows@, rows@.len() as int) == Some(
            (r->Ok_0.entries(), r->Ok_0.dimension()),
        ),
        r is Err ==> exists|i: int|
            #[trigger] stops_at(rows@, i) && (if rows@[i].bytes@.len() % 4 != 0 {
                r->Err_0 is Storage
            } else {
                r->Err_0 is InvalidEmbedding
            }),
{
    let mut idx = VectorIndex::new();
    let mut i: usize = 0;
    assert(idx.entries() =~= Seq::empty());
    while i < rows.len()
        invariant
            i <= rows@.len(),
            idx.wf(),
            rebuilt(rows@, i as int) == Some((idx.entries(), idx.dimension())),
        decreases rows@.len() - i,
    {
        let decoded = decode_embedding(rows[i].id.as_str(), &rows[i].bytes);
        match decoded {
            Err(e) => {
                proof {
                    lemma_rebuilt_stays_none(rows@, i as int + 1, rows@.len() as int);
                    assert(stops_at(rows@, i as int));
                }
                return Err(e);
            },
            Ok(embedding) => {
                proof {
                    let v = unpacked(rows@[i as int].bytes@);
                    assert(packed(embedding@) == rows@[i as int].bytes@);
                    lemma_packed_injective(v, embedding@);
                }
                let inserted = idx.insert(FactId(rows[i].id.clone()), embedding);
                match inserted {
                    Err(e) => {
                        proof {
                            lemma_rebuilt_stays_none(rows@, i as int + 1, rows@.len() as int);
                            assert(stops_at(rows@, i as int));
                        }
                        return Err(e);
                    },
                    Ok(()) => {},
                }
            },
        }
        i += 1;
    }
    Ok(idx)
}

/// Once a row stops the rebuild, no later row resumes it.
pub proof fn lemma_rebuilt_stays_none(rows: Seq<EmbeddingRow>, n: int, m: int)
    requires
        rebuilt(rows, n) is None,
        n <= m,
    ensures
        rebuilt(rows, m) is None,
    decreases m - n,
{
    if n < m {
        lemma_rebuilt_stays_none(rows, n, m - 1);
    }
}

/// The persisted rows of an index: each entry's id with its packed
/// embedding, in index order.
pub open spec fn rows_of(entries: Seq<(Seq<char>, Seq<u32>)>, rows: Seq<EmbeddingRow>) -> bool {
    rows.len() == entries.len() && forall|i: int|
        0 <= i < rows.len() ==> (#[trigger] rows[i]).id@ == entries[i].0 && rows[i].bytes@ == packed(
            entries[i].1,
        )
}

/// An index that is written out and read back holds the same entries and,
/// where it holds any, the same dimension: the rebuild of the first `n` rows
/// of a well-formed index gives its first `n` entries.
pub proof fn lemma_index_round_trip(index: VectorIndex, rows: Seq<EmbeddingRow>, n: int)
    requires
        index.wf(),
        forall|i: int|
            0 <= i < index.entries().len() ==> (#[trigger] index.entries()[i]).1.len()
                <= usize::MAX,
        rows_of(index.entries(), rows),
        0 <= n <= rows.len(),
    ensures
        rebuilt(rows, n) == Some(
            (
                index.entries().take(n),
                if n == 0 {
                    None
                } else {
                    index.dimension()
                },
            ),
        ),
    decreases n,
{
    let entries = index.entries();
    if n == 0 {
        assert(entries.take(0) =~= Seq::empty());
    } else {
        lemma_index_round_trip(index, rows, n - 1);
        let e = entries[n - 1];
        let before = entries.take(n - 1);
        lemma_codec_round_trip(e.1);
        assert(e.1.len() <= usize::MAX);
        assert(index.dimension() == Some(e.1.len() as usize));
        assert(rows[n - 1].bytes@ == packed(e.1));
        assert(rows[n - 1].id@ == e.0);
        crate::vector::lemma_entry_position(before, e.0, 0);
        let p = crate::vector::entry_position(before, e.0, 0);
        if p < before.len() {
            assert(before[p] == entries[p]);
            assert(entries[p].0 != entries[n - 1].0);
        }
        assert(upsert(before, e) =~= entries.take(n));
    }
}

} // verus!
