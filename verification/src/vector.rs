//! A flat in-memory vector index keyed by fact id.
//!
//! An embedding is held as the bit patterns of its single-precision
//! components, the form in which it is persisted. The index checks dimensions,
//! replaces or appends on insert, and restricts candidates to an allow-list;
//! scoring a candidate against a query is left to the caller.

use vstd::prelude::*;
use vstd::string::*;
use crate::error::{dimension_mismatch, empty_embedding, KronroeError};
use crate::fact::FactId;

verus! {

/// One indexed embedding: a fact id and the components' bit patterns.
#[derive(Debug, Clone)]
pub struct Entry {
    pub id: FactId,
    pub embedding: Vec<u32>,
}

impl View for Entry {
    type V = (Seq<char>, Seq<u32>);

    open spec fn view(&self) -> (Seq<char>, Seq<u32>) {
        (self.id@, self.embedding@)
    }
}

/// The views of a sequence of entries.
pub open spec fn entry_views(entries: Seq<Entry>) -> Seq<(Seq<char>, Seq<u32>)> {
    Seq::new(entries.len(), |i: int| entries[i]@)
}

/// The texts of a sequence of ids.
pub open spec fn id_views(ids: Seq<FactId>) -> Seq<Seq<char>> {
    Seq::new(ids.len(), |i: int| ids[i]@)
}

/// The first position at or after `from` whose entry has the id, or the
/// length where there is none.
pub open spec fn entry_position(entries: Seq<(Seq<char>, Seq<u32>)>, id: Seq<char>, from: int) -> int
    decreases entries.len() - from,
{
    if from < 0 || from >= entries.len() || entries[from].0 == id {
        from
    } else {
        entry_position(entries, id, from + 1)
    }
}

/// The entries after an insert: the entry with the same id replaced in place,
/// or the new entry appended.
pub open spec fn upsert(entries: Seq<(Seq<char>, Seq<u32>)>, e: (Seq<char>, Seq<u32>)) -> Seq<
    (Seq<char>, Seq<u32>),
> {
    let p = entry_position(entries, e.0, 0);
    if p < entries.len() {
        entries.update(p, e)
    } else {
        entries.push(e)
    }
}

/// The entries after a removal: the last entry moved into the place of the
/// entry with the id, or no change where there is none.
pub open spec fn without(entries: Seq<(Seq<char>, Seq<u32>)>, id: Seq<char>) -> Seq<
    (Seq<char>, Seq<u32>),
> {
    let p = entry_position(entries, id, 0);
    if p < entries.len() {
        entries.update(p, entries.last()).drop_last()
    } else {
        entries
    }
}

/// The entries whose id is on the allow-list, in index order.
pub open spec fn admitted(entries: Seq<(Seq<char>, Seq<u32>)>, allow: Seq<Seq<char>>) -> Seq<
    (Seq<char>, Seq<u32>),
>
    decreases entries.len(),
{
    if entries.len() == 0 {
        Seq::empty()
    } else {
        let rest = admitted(entries.drop_last(), allow);
        if allow.contains(entries.last().0) {
            rest.push(entries.last())
        } else {
            rest
        }
    }
}

/// An insert is refused when the embedding is empty or differs in length from
/// the established dimension.
pub open spec fn insert_refused(dim: Option<usize>, len: nat) -> bool {
    len == 0 || (dim matches Some(d) && d != len)
}

/// What `entry_position` finds.
pub proof fn lemma_entry_position(entries: Seq<(Seq<char>, Seq<u32>)>, id: Seq<char>, from: int)
    requires
        0 <= from <= entries.len(),
    ensures
        from <= entry_position(entries, id, from) <= entries.len(),
        forall|j: int| from <= j < entry_position(entries, id, from) ==> entries[j].0 != id,
        entry_position(entries, id, from) < entries.len() ==> entries[entry_position(
            entries,
            id,
            from,
        )].0 == id,
    decreases entries.len() - from,
{
    if from >= entries.len() || entries[from].0 == id {
    } else {
        lemma_entry_position(entries, id, from + 1);
    }
}

/// Whether an id is on a list.
pub fn id_listed(ids: &Vec<FactId>, id: &FactId) -> (r: bool)
    ensures
        r == id_views(ids@).contains(id@),
{
    let mut i: usize = 0;
    while i < ids.len()
        invariant
            i <= ids.len(),
            forall|j: int| 0 <= j < i ==> ids@[j]@ != id@,
        decreases ids.len() - i,
    {
        if ids[i].same_as(id) {
            assert(id_views(ids@)[i as int] == id@);
            return true;
        }
        i += 1;
    }
    false
}

/// A flat vector index: entries in insertion order and the dimension that the
/// first insert established.
#[derive(Debug, Clone)]
pub struct VectorIndex {
    entries: Vec<Entry>,
    dim: Option<usize>,
}

impl VectorIndex {
    /// The indexed entries, each as its id text and its components.
    pub closed spec fn entries(&self) -> Seq<(Seq<char>, Seq<u32>)> {
        entry_views(self.entries@)
    }

    /// The established dimension.
    pub closed spec fn dimension(&self) -> Option<usize> {
        self.dim
    }

    /// Every embedding has the established dimension, which is positive, and
    /// no id occurs twice.
    pub open spec fn wf(&self) -> bool {
        &&& self.dimension() matches Some(d) ==> d > 0
        &&& self.dimension() is None ==> self.entries().len() == 0
        &&& forall|i: int|
            0 <= i < self.entries().len() ==> self.dimension() == Some(
                (#[trigger] self.entries()[i]).1.len() as usize,
            )
        &&& forall|i: int, j: int|
            0 <= i < j < self.entries().len() ==> (#[trigger] self.entries()[i]).0 != (
            #[trigger] self.entries()[j]).0
    }

    /// An empty index with no dimension yet.
    pub fn new() -> (r: VectorIndex)
        ensures
            r.wf(),
            r.entries().len() == 0,
            r.dimension() is None,
    {
        VectorIndex { entries: Vec::new(), dim: None }
    }

    fn find(&self, id: &FactId) -> (p: usize)
        ensures
            p == entry_position(self.entries(), id@, 0),
            p <= self.entries().len(),
    {
        let mut i: usize = 0;
        while i < self.entries.len()
            invariant
                i <= self.entries@.len(),
                entry_position(self.entries(), id@, 0) == entry_position(
                    self.entries(),
                    id@,
                    i as int,
                ),
            decreases self.entries@.len() - i,
        {
            if self.entries[i].id.same_as(id) {
                return i;
            }
            i += 1;
        }
        i
    }

    /// Inserts the embedding for `id`, replacing the one it already has.
    ///
    /// Fails, and changes nothing, when the embedding is empty or its length
    /// differs from the established dimension. The first successful insert
    /// establishes the dimension.
    pub fn insert(&mut self, id: FactId, embedding: Vec<u32>) -> (r: Result<(), KronroeError>)
        requires
            old(self).wf(),
        ensures
            final(self).wf(),
            r is Err <==> insert_refused(old(self).dimension(), embedding@.len()),
            r is Err ==> r->Err_0 is InvalidEmbedding && final(self).entries() == old(self).entries() && final(self).dimension() == old(self).dimension(),
            r is Ok ==> final(self).dimension() == Some(embedding@.len() as usize) && final(self).entries() == upsert(old(self).entries(), (id@, embedding@)),
    {
        if embedding.len() == 0 {
            return Err(empty_embedding());
        }
        match self.dim {
            None => {
                self.dim = Some(embedding.len());
            },
            Some(d) => {
                if embedding.len() != d {
                    return Err(dimension_mismatch(d, embedding.len()));
                }
            },
        }
        let p = self.find(&id);
        proof {
            lemma_entry_position(old(self).entries(), id@, 0);
        }
        let e = Entry { id, embedding };
        if p < self.entries.len() {
            self.entries.set(p, e);
            assert(self.entries() =~= upsert(old(self).entries(), e@));
        } else {
            self.entries.push(e);
            assert(self.entries() =~= upsert(old(self).entries(), e@));
        }
        Ok(())
    }

    /// Removes the entry for `id` by moving the last entry into its place.
    /// Does nothing where the id is not indexed.
    pub fn remove(&mut self, id: &FactId)
        requires
            old(self).wf(),
        ensures
            final(self).wf(),
            final(self).dimension() == old(self).dimension(),
            final(self).entries() == without(old(self).entries(), id@),
    {
        let p = self.find(id);
        if p < self.entries.len() {
            let _ = self.entries.swap_remove(p);
            assert(self.entries() =~= without(old(self).entries(), id@));
        }
    }

    /// The entries whose id is on the allow-list, in index order.
    pub fn candidates(&self, valid_ids: &Vec<FactId>) -> (r: Vec<Entry>)
        ensures
            entry_views(r@) == admitted(self.entries(), id_views(valid_ids@)),
    {
        let mut out: Vec<Entry> = Vec::new();
        let mut i: usize = 0;
        assert(self.entries().take(0) =~= Seq::empty());
        while i < self.entries.len()
            invariant
                i <= self.entries@.len(),
                entry_views(out@) == admitted(self.entries().take(i as int), id_views(valid_ids@)),
            decreases self.entries@.len() - i,
        {
            assert(self.entries().take(i + 1).drop_last() =~= self.entries().take(i as int));
            if id_listed(valid_ids, &self.entries[i].id) {
                let e = Entry {
                    id: self.entries[i].id.duplicate(),
                    embedding: self.entries[i].embedding.clone(),
                };
                assert(e.embedding@ =~= self.entries@[i as int].embedding@);
                let ghost before = entry_views(out@);
                out.push(e);
                assert(entry_views(out@) =~= before.push(self.entries()[i as int]));
            }
            i += 1;
        }
        assert(self.entries().take(i as int) =~= self.entries());
        out
    }

    /// A copy of every entry, in index order.
    pub fn all_entries(&self) -> (r: Vec<Entry>)
        ensures
            entry_views(r@) == self.entries(),
    {
        let mut out: Vec<Entry> = Vec::new();
        let mut i: usize = 0;
        while i < self.entries.len()
            invariant
                i <= self.entries@.len(),
                out@.len() == i,
                forall|j: int| 0 <= j < i ==> (#[trigger] out@[j])@ == self.entries@[j]@,
            decreases self.entries@.len() - i,
        {
            let e = Entry {
                id: self.entries[i].id.duplicate(),
                embedding: self.entries[i].embedding.clone(),
            };
            assert(e.embedding@ =~= self.entries@[i as int].embedding@);
            out.push(e);
            i += 1;
        }
        assert(entry_views(out@) =~= self.entries());
        out
    }

    /// The dimension that the first insert established, if any.
    pub fn dim(&self) -> (r: Option<usize>)
        ensures
            r == self.dimension(),
    {
        self.dim
    }

    /// How many entries the index holds.
    pub fn len(&self) -> (r: usize)
        ensures
            r == self.entries().len(),
    {
        self.entries.len()
    }

    /// Whether the index holds no entry.
    pub fn is_empty(&self) -> (r: bool)
        ensures
            r == (self.entries().len() == 0),
    {
        self.entries.len() == 0
    }
}

/// Inserts of one dimension keep that dimension, and an insert of another
/// length or of no components is refused and changes nothing: once a
/// dimension is established, a later insert succeeds exactly when its
/// embedding has that many components.
pub proof fn lemma_dimension_is_fixed(dim: Option<usize>, d: usize, len: nat)
    requires
        dim == Some(d),
        d > 0,
    ensures
        insert_refused(dim, len) <==> len != d,
{
}

} // verus!
