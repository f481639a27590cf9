//! Index descriptors and the simple map-based index.

use vstd::prelude::*;

use crate::error::MongoLiteError;
use crate::value::{DocumentId, DocumentIdV};

verus! {

broadcast use vstd::std_specs::vec::group_vec_axioms;

/// Persisted description of an index.
#[derive(Debug)]
pub struct IndexMetadata {
    pub name: String,
    pub field: String,
    pub unique: bool,
    pub sparse: bool,
    pub num_keys: u64,
    pub tree_height: u32,
    /// File offset of the root node (0 = in-memory only).
    pub root_offset: u64,
}

impl Clone for IndexMetadata {
    fn clone(&self) -> (r: Self)
        ensures
            r.name@ == self.name@,
            r.field@ == self.field@,
            r.unique == self.unique,
            r.sparse == self.sparse,
            r.num_keys == self.num_keys,
            r.tree_height == self.tree_height,
            r.root_offset == self.root_offset,
    {
        IndexMetadata {
            name: self.name.clone(),
            field: self.field.clone(),
            unique: self.unique,
            sparse: self.sparse,
            num_keys: self.num_keys,
            tree_height: self.tree_height,
            root_offset: self.root_offset,
        }
    }
}

/// Kind of an index.
#[derive(Debug, Clone, Copy, PartialEq, Eq, Structural)]
pub enum IndexType {
    Regular,
    Unique,
    Text,
    Geo2d,
}

/// Definition of a simple index.
#[derive(Debug)]
pub struct IndexDefinition {
    pub name: String,
    pub field: String,
    pub index_type: IndexType,
    pub unique: bool,
}

/// A simple map-based index from whole string keys to document ids,
/// kept as an association list with unique keys.
#[derive(Debug)]
pub struct Index {
    definition: IndexDefinition,
    entries: Vec<(String, Vec<DocumentId>)>,
}

/// The ids listed under `key`, if any.
pub open spec fn index_find(entries: Seq<(String, Vec<DocumentId>)>, key: Seq<char>) -> Option<
    Seq<DocumentIdV>,
>
    decreases entries.len(),
{
    if entries.len() == 0 {
        None
    } else if entries[0].0@ == key {
        Some(Seq::new(entries[0].1@.len(), |i: int| entries[0].1@[i]@))
    } else {
        index_find(entries.drop_first(), key)
    }
}

/// The ids with one id value taken out.
pub open spec fn ids_without(ids: Seq<DocumentIdV>, out: DocumentIdV) -> Seq<DocumentIdV> {
    ids.filter(|d: DocumentIdV| d != out)
}

/// The id vector entries whose model is not `out`.
pub open spec fn docs_without(ids: Seq<DocumentId>, out: DocumentIdV) -> Seq<DocumentId> {
    ids.filter(|d: DocumentId| d@ != out)
}

/// The keys of an association list are pairwise distinct.
pub open spec fn index_keys_unique(entries: Seq<(String, Vec<DocumentId>)>) -> bool {
    forall|i: int, j: int| 0 <= i < j < entries.len() ==> entries[i].0@ != entries[j].0@
}

impl Index {
    /// Keys are pairwise distinct and no key maps to an empty id list.
    pub closed spec fn wf(&self) -> bool {
        &&& index_keys_unique(self.entries@)
        &&& forall|i: int| 0 <= i < self.entries@.len() ==> (#[trigger] self.entries@[i]).1@.len()
            > 0
    }

    /// The ids listed under `key`.
    pub closed spec fn spec_find(&self, key: Seq<char>) -> Option<Seq<DocumentIdV>> {
        index_find(self.entries@, key)
    }

    /// Whether the index enforces unique keys.
    pub closed spec fn spec_unique(&self) -> bool {
        self.definition.unique
    }

    /// An empty index with the given definition.
    pub fn new(definition: IndexDefinition) -> (r: Index)
        ensures
            r.wf(),
            r.spec_unique() == definition.unique,
            forall|key: Seq<char>| r.spec_find(key) is None,
    {
        Index { definition, entries: Vec::new() }
    }

    /// Position of the first entry carrying `key`, if any.
    fn position_of(&self, key: &str) -> (r: Option<usize>)
        ensures
            match r {
                Some(i) => i < self.entries@.len() && self.entries@[i as int].0@ == key@
                    && forall|k: int| 0 <= k < i ==> (#[trigger] self.entries@[k]).0@ != key@,
                None => forall|i: int| 0 <= i < self.entries@.len()
                    ==> (#[trigger] self.entries@[i]).0@ != key@,
            },
    {
        let mut i: usize = 0;
        while i < self.entries.len()
            invariant
                i <= self.entries@.len(),
                forall|k: int| 0 <= k < i ==> (#[trigger] self.entries@[k]).0@ != key@,
            decreases self.entries@.len() - i,
        {
            if crate::value::str_eq(self.entries[i].0.as_str(), key) {
                return Some(i);
            }
            i = i + 1;
        }
        None
    }

    /// Add `doc_id` under `key`. Under a unique index a key that is already
    /// present is refused with `IndexError`, and nothing changes.
    pub fn insert(&mut self, key: String, doc_id: DocumentId) -> (r: Result<
        (),
        MongoLiteError,
    >)
        requires
            old(self).wf(),
        ensures
            final(self).wf(),
            final(self).spec_unique() == old(self).spec_unique(),
            match r {
                Ok(()) => {
                    &&& !(old(self).spec_unique() && old(self).spec_find(key@) is Some)
                    &&& final(self).spec_find(key@) matches Some(ids) && ids
                        == match old(self).spec_find(key@) {
                            Some(prev) => prev.push(doc_id@),
                            None => seq![doc_id@],
                        }
                    &&& forall|other: Seq<char>| other != key@
                        ==> #[trigger] final(self).spec_find(other) == old(self).spec_find(other)
                }
                Err(e) => {
                    &&& e is IndexError
                    &&& old(self).spec_unique() && old(self).spec_find(key@) is Some
                    &&& *final(self) == *old(self)
                }
            },
    {
        match self.position_of(key.as_str()) {
            Some(i) => {
                proof {
                    lemma_index_find_first(self.entries@, i as int, key@);
                }
                if self.definition.unique {
                    return Err(MongoLiteError::IndexError(String::new()));
                }
                let ghost olde = self.entries@;
                let mut pair = self.entries.remove(i);
                let ghost oldids = pair.1@;
                pair.1.push(doc_id);
                self.entries.insert(i, pair);
                proof {
                    assert(self.entries@ =~= olde.update(i as int, self.entries@[i as int]));
                    let newe = self.entries@;
                    assert(forall|k: int| 0 <= k < i ==> (#[trigger] newe[k]).0@ != key@);
                    lemma_index_find_first(newe, i as int, key@);
                    assert(Seq::new(newe[i as int].1@.len(), |t: int| newe[i as int].1@[t]@)
                        =~= Seq::new(oldids.len(), |t: int| oldids[t]@).push(doc_id@));
                    lemma_index_find_update_frame(olde, newe, i as int);
                }
                Ok(())
            }
            None => {
                proof {
                    lemma_index_find_not_present(self.entries@, key@);
                }
                let ghost olde = self.entries@;
                let mut ids: Vec<DocumentId> = Vec::new();
                ids.push(doc_id);
                self.entries.push((key, ids));
                proof {
                    let newe = self.entries@;
                    lemma_index_find_first(newe, olde.len() as int, key@);
                    assert(Seq::new(newe.last().1@.len(), |t: int| newe.last().1@[t]@)
                        =~= seq![doc_id@]);
                    lemma_index_find_append_frame(olde, newe);
                }
                Ok(())
            }
        }
    }

    /// The ids under `key`, if any.
    pub fn find(&self, key: &str) -> (r: Option<&Vec<DocumentId>>)
        ensures
            match r {
                Some(ids) => self.spec_find(key@) == Some(
                    Seq::new(ids@.len(), |i: int| ids@[i]@),
                ),
                None => self.spec_find(key@) is None,
            },
    {
        match self.position_of(key) {
            Some(i) => {
                proof {
                    lemma_index_find_first(self.entries@, i as int, key@);
                }
                Some(&self.entries[i].1)
            }
            None => {
                proof {
                    lemma_index_find_not_present(self.entries@, key@);
                }
                None
            }
        }
    }

    /// Remove `doc_id` from under `key`; a key left without ids disappears.
    pub fn remove(&mut self, key: &str, doc_id: &DocumentId)
        requires
            old(self).wf(),
        ensures
            final(self).wf(),
            final(self).spec_unique() == old(self).spec_unique(),
            forall|other: Seq<char>| other != key@ ==> #[trigger] final(self).spec_find(other)
                == old(self).spec_find(other),
            match old(self).spec_find(key@) {
                Some(prev) => {
                    let kept = ids_without(prev, doc_id@);
                    final(self).spec_find(key@) == if kept.len() == 0 {
                        None::<Seq<DocumentIdV>>
                    } else {
                        Some(kept)
                    }
                }
                None => final(self).spec_find(key@) is None,
            },
            final(self).spec_size() == (match old(self).spec_find(key@) {
                Some(prev) => {
                    if ids_without(prev, doc_id@).len() == 0 {
                        old(self).spec_size() - 1
                    } else {
                        old(self).spec_size() as int
                    }
                }
                None => old(self).spec_size() as int,
            }),
    {
        match self.position_of(key) {
            Some(i) => {
                proof {
                    lemma_index_find_first(self.entries@, i as int, key@);
                }
                let ghost olde = self.entries@;
                let pair = self.entries.remove(i);
                let mut kept: Vec<DocumentId> = Vec::new();
                let mut j: usize = 0;
                proof {
                    reveal(Seq::filter);
                    assert(pair.1@.subrange(0, 0) =~= Seq::<DocumentId>::empty());
                    assert(kept@ =~= docs_without(pair.1@.subrange(0, 0), doc_id@));
                }
                while j < pair.1.len()
                    invariant
                        j <= pair.1@.len(),
                        kept@ == docs_without(pair.1@.subrange(0, j as int), doc_id@),
                    decreases pair.1@.len() - j,
                {
                    proof {
                        reveal(Seq::filter);
                        let pre = pair.1@.subrange(0, j as int);
                        let pre2 = pair.1@.subrange(0, j + 1);
                        assert(pre2.drop_last() =~= pre);
                        assert(pre2.last() == pair.1@[j as int]);
                    }
                    if !pair.1[j].eq_id(doc_id) {
                        kept.push(pair.1[j].clone());
                        proof {
                            assert(pair.1@[j as int]@ != doc_id@);
                        }
                    }
                    j = j + 1;
                }
                proof {
                    assert(pair.1@.subrange(0, pair.1@.len() as int) =~= pair.1@);
                    lemma_filter_views(pair.1@, doc_id@);
                }
                if kept.len() > 0 {
                    let ghost keptv = kept@;
                    let newpair = (pair.0, kept);
                    self.entries.insert(i, newpair);
                    proof {
                        let newe = self.entries@;
                        assert(newe =~= olde.update(i as int, newe[i as int]));
                        assert(forall|k: int| 0 <= k < i ==> (#[trigger] newe[k]).0@ != key@);
                        lemma_index_find_first(newe, i as int, key@);
                        lemma_index_find_update_frame(olde, newe, i as int);
                        assert(Seq::new(newe[i as int].1@.len(), |t: int| newe[i as int].1@[t]@)
                            =~= Seq::new(keptv.len(), |t: int| keptv[t]@));
                    }
                } else {
                    proof {
                        let newe = self.entries@;
                        lemma_index_find_remove_frame(olde, newe, i as int);
                        assert(forall|k: int| 0 <= k < newe.len()
                            ==> (#[trigger] newe[k]).0@ != key@);
                        lemma_index_find_not_present(newe, key@);
                        assert(ids_without(
                            Seq::new(pair.1@.len(), |t: int| pair.1@[t]@),
                            doc_id@,
                        ).len() == 0);
                    }
                }
            }
            None => {
                proof {
                    lemma_index_find_not_present(self.entries@, key@);
                }
            }
        }
    }

    /// Number of distinct keys in the index.
    pub closed spec fn spec_size(&self) -> nat {
        self.entries@.len()
    }

    /// Number of distinct keys in the index.
    pub fn size(&self) -> (r: usize)
        ensures
            r == self.spec_size(),
    {
        self.entries.len()
    }
}

/// Filtering ids and then taking models is filtering models.
proof fn lemma_filter_views(ids: Seq<DocumentId>, out: DocumentIdV)
    ensures
        Seq::new(
            docs_without(ids, out).len(),
            |t: int| docs_without(ids, out)[t]@,
        ) =~= ids_without(Seq::new(ids.len(), |i: int| ids[i]@), out),
    decreases ids.len(),
{
    reveal(Seq::filter);
    if ids.len() > 0 {
        lemma_filter_views(ids.drop_last(), out);
        let views = Seq::new(ids.len(), |i: int| ids[i]@);
        assert(views.drop_last() =~= Seq::new(ids.drop_last().len(), |i: int| ids.drop_last()[i]@));
        assert(views.last() == ids.last()@);
    }
}

/// Looking up a key answers at the first entry that carries it.
proof fn lemma_index_find_first(entries: Seq<(String, Vec<DocumentId>)>, i: int, key: Seq<char>)
    requires
        0 <= i < entries.len(),
        entries[i].0@ == key,
        forall|j: int| 0 <= j < i ==> (#[trigger] entries[j]).0@ != key,
    ensures
        index_find(entries, key) == Some(
            Seq::new(entries[i].1@.len(), |t: int| entries[i].1@[t]@),
        ),
    decreases i,
{
    if i > 0 {
        assert(forall|j: int| 0 <= j < entries.drop_first().len()
            ==> #[trigger] entries.drop_first()[j] == entries[j + 1]);
        lemma_index_find_first(entries.drop_first(), i - 1, key);
    }
}

/// A key that no entry carries is not found.
proof fn lemma_index_find_not_present(entries: Seq<(String, Vec<DocumentId>)>, key: Seq<char>)
    requires
        forall|j: int| 0 <= j < entries.len() ==> (#[trigger] entries[j]).0@ != key,
    ensures
        index_find(entries, key) is None,
    decreases entries.len(),
{
    if entries.len() > 0 {
        assert(forall|j: int| 0 <= j < entries.drop_first().len()
            ==> #[trigger] entries.drop_first()[j] == entries[j + 1]);
        lemma_index_find_not_present(entries.drop_first(), key);
    }
}

/// Replacing the entry at `i` changes no lookup for a key its old and new
/// entry do not carry.
proof fn lemma_index_find_update_frame(
    olde: Seq<(String, Vec<DocumentId>)>,
    newe: Seq<(String, Vec<DocumentId>)>,
    i: int,
)
    requires
        0 <= i < olde.len(),
        newe.len() == olde.len(),
        forall|j: int| 0 <= j < olde.len() && j != i ==> #[trigger] newe[j] == olde[j],
    ensures
        forall|other: Seq<char>|
            other != olde[i].0@ && other != newe[i].0@
                ==> #[trigger] index_find(newe, other) == index_find(olde, other),
    decreases olde.len(),
{
    assert forall|other: Seq<char>|
        other != olde[i].0@ && other != newe[i].0@ implies #[trigger] index_find(newe, other)
        == index_find(olde, other) by {
        if i == 0 {
            assert(newe.drop_first() =~= olde.drop_first());
        } else {
            assert(newe[0] == olde[0]);
            assert(forall|j: int| 0 <= j < olde.drop_first().len() && j != i - 1
                ==> #[trigger] newe.drop_first()[j] == olde.drop_first()[j]);
            assert(olde.drop_first()[i - 1] == olde[i]);
            assert(newe.drop_first()[i - 1] == newe[i]);
            lemma_index_find_update_frame(olde.drop_first(), newe.drop_first(), i - 1);
            assert(index_find(newe.drop_first(), other) == index_find(olde.drop_first(), other));
        }
    }
}

/// Removing the entry at `i` changes no lookup for a key it does not carry.
proof fn lemma_index_find_remove_frame(
    olde: Seq<(String, Vec<DocumentId>)>,
    newe: Seq<(String, Vec<DocumentId>)>,
    i: int,
)
    requires
        0 <= i < olde.len(),
        newe.len() == olde.len() - 1,
        forall|j: int| 0 <= j < i ==> #[trigger] newe[j] == olde[j],
        forall|j: int| i <= j < newe.len() ==> #[trigger] newe[j] == olde[j + 1],
    ensures
        forall|other: Seq<char>| other != olde[i].0@ ==> #[trigger] index_find(newe, other)
            == index_find(olde, other),
    decreases olde.len(),
{
    assert forall|other: Seq<char>| other != olde[i].0@ implies #[trigger] index_find(newe, other)
        == index_find(olde, other) by {
        if i == 0 {
            assert(newe =~= olde.drop_first());
        } else {
            assert(newe[0] == olde[0]);
            assert(forall|j: int| 0 <= j < i - 1 ==> #[trigger] newe.drop_first()[j]
                == olde.drop_first()[j]);
            assert(forall|j: int| i - 1 <= j < newe.drop_first().len()
                ==> #[trigger] newe.drop_first()[j] == olde.drop_first()[j + 1]);
            assert(olde.drop_first()[i - 1] == olde[i]);
            lemma_index_find_remove_frame(olde.drop_first(), newe.drop_first(), i - 1);
            assert(index_find(newe.drop_first(), other) == index_find(olde.drop_first(), other));
        }
    }
}

/// Appending an entry changes no lookup for a key it does not carry.
proof fn lemma_index_find_append_frame(
    olde: Seq<(String, Vec<DocumentId>)>,
    newe: Seq<(String, Vec<DocumentId>)>,
)
    requires
        newe.len() == olde.len() + 1,
        forall|j: int| 0 <= j < olde.len() ==> #[trigger] newe[j] == olde[j],
    ensures
        forall|other: Seq<char>| other != newe.last().0@ ==> #[trigger] index_find(newe, other)
            == index_find(olde, other),
    decreases olde.len(),
{
    assert forall|other: Seq<char>| other != newe.last().0@ implies #[trigger] index_find(
        newe,
        other,
    ) == index_find(olde, other) by {
        if olde.len() == 0 {
            assert(newe.drop_first() =~= Seq::<(String, Vec<DocumentId>)>::empty());
        } else {
            assert(newe[0] == olde[0]);
            assert(forall|j: int| 0 <= j < olde.drop_first().len()
                ==> #[trigger] newe.drop_first()[j] == olde.drop_first()[j]);
            assert(newe.drop_first().last() == newe.last());
            lemma_index_find_append_frame(olde.drop_first(), newe.drop_first());
            assert(index_find(newe.drop_first(), other) == index_find(olde.drop_first(), other));
        }
    }
}

} // verus!

verus! {

/// Mathematical model of an index descriptor.
#[verifier::ext_equal]
pub struct IndexMetadataV {
    pub name: Seq<char>,
    pub field: Seq<char>,
    pub unique: bool,
    pub sparse: bool,
    pub num_keys: u64,
    pub tree_height: u32,
    pub root_offset: u64,
}

impl View for IndexMetadata {
    type V = IndexMetadataV;

    open spec fn view(&self) -> IndexMetadataV {
        IndexMetadataV {
            name: self.name@,
            field: self.field@,
            unique: self.unique,
            sparse: self.sparse,
            num_keys: self.num_keys,
            tree_height: self.tree_height,
            root_offset: self.root_offset,
        }
    }
}

} // verus!

verus! {

/// Every index of one collection: the B+ tree indexes by name, and the
/// simple map-based indexes kept for compatibility.
#[derive(Debug)]
pub struct IndexManager {
    pub btree_indexes: Vec<(String, crate::btree::BPlusTreeFull)>,
    pub legacy_indexes: Vec<(String, Index)>,
}

impl IndexManager {
    /// Every held tree is well formed, and within each kind the index
    /// names are pairwise distinct.
    pub open spec fn wf(&self) -> bool {
        &&& forall|i: int| 0 <= i < self.btree_indexes@.len()
            ==> (#[trigger] self.btree_indexes@[i]).1.wf()
        &&& forall|i: int, j: int| 0 <= i < j < self.btree_indexes@.len()
            ==> (#[trigger] self.btree_indexes@[i]).0@ != (#[trigger] self.btree_indexes@[j]).0@
        &&& forall|i: int, j: int| 0 <= i < j < self.legacy_indexes@.len()
            ==> (#[trigger] self.legacy_indexes@[i]).0@ != (
            #[trigger] self.legacy_indexes@[j]).0@
    }

    /// An empty manager.
    pub fn new() -> (r: IndexManager)
        ensures
            r.wf(),
            r.btree_indexes@.len() == 0,
            r.legacy_indexes@.len() == 0,
    {
        IndexManager { btree_indexes: Vec::new(), legacy_indexes: Vec::new() }
    }

    /// Position of the named tree index.
    fn btree_position(&self, name: &str) -> (r: Option<usize>)
        ensures
            match r {
                Some(i) => i < self.btree_indexes@.len() && self.btree_indexes@[i as int].0@
                    == name@,
                None => forall|i: int| 0 <= i < self.btree_indexes@.len()
                    ==> (#[trigger] self.btree_indexes@[i]).0@ != name@,
            },
    {
        let mut i: usize = 0;
        while i < self.btree_indexes.len()
            invariant
                i <= self.btree_indexes@.len(),
                forall|k: int| 0 <= k < i ==> (#[trigger] self.btree_indexes@[k]).0@ != name@,
            decreases self.btree_indexes@.len() - i,
        {
            if crate::value::str_eq(self.btree_indexes[i].0.as_str(), name) {
                return Some(i);
            }
            i = i + 1;
        }
        None
    }

    /// Create an empty tree index; a name in use is refused.
    pub fn create_btree_index(&mut self, name: String, field: String, unique: bool) -> (r: Result<
        (),
        MongoLiteError,
    >)
        requires
            old(self).wf(),
        ensures
            final(self).wf(),
            final(self).legacy_indexes == old(self).legacy_indexes,
            match r {
                Ok(()) => {
                    &&& forall|i: int| 0 <= i < old(self).btree_indexes@.len() ==> (#[trigger] old(self).btree_indexes@[i]).0@ != name@
                    &&& final(self).btree_indexes@.len() == old(self).btree_indexes@.len() + 1
                    &&& forall|i: int| 0 <= i < old(self).btree_indexes@.len()
                        ==> #[trigger] final(self).btree_indexes@[i] == old(self).btree_indexes@[i]
                    &&& final(self).btree_indexes@.last().0@ == name@
                    &&& final(self).btree_indexes@.last().1.metadata.name@ == name@
                    &&& final(self).btree_indexes@.last().1.metadata.field@ == field@
                    &&& final(self).btree_indexes@.last().1.metadata.unique == unique
                    &&& final(self).btree_indexes@.last().1.entries() == Seq::<
                        crate::btree::EntryV,
                    >::empty()
                }
                Err(e) => {
                    &&& e is IndexError
                    &&& *final(self) == *old(self)
                    &&& exists|i: int|
                        0 <= i < old(self).btree_indexes@.len() && (#[trigger] old(self).btree_indexes@[i]).0@ == name@
                },
            },
    {
        match self.btree_position(name.as_str()) {
            Some(i) => {
                proof {
                    assert(old(self).btree_indexes@[i as int].0@ == name@);
                }
                Err(MongoLiteError::IndexError(String::new()))
            }
            None => {
                let tree = crate::btree::BPlusTreeFull::new(name.clone(), field, unique);
                self.btree_indexes.push((name, tree));
                Ok(())
            }
        }
    }

    /// Create a simple map-based index; a name in use is refused.
    pub fn create_index(&mut self, definition: IndexDefinition) -> (r: Result<
        (),
        MongoLiteError,
    >)
        requires
            old(self).wf(),
        ensures
            final(self).wf(),
            r matches Err(e) ==> e is IndexError,
    {
        let mut i: usize = 0;
        while i < self.legacy_indexes.len()
            invariant
                i <= self.legacy_indexes@.len(),
                self.wf(),
                *self == *old(self),
                forall|k: int| 0 <= k < i ==> (#[trigger] self.legacy_indexes@[k]).0@
                    != definition.name@,
            decreases self.legacy_indexes@.len() - i,
        {
            if crate::value::str_eq(
                self.legacy_indexes[i].0.as_str(),
                definition.name.as_str(),
            ) {
                return Err(MongoLiteError::IndexError(String::new()));
            }
            i = i + 1;
        }
        let name = definition.name.clone();
        self.legacy_indexes.push((name, Index::new(definition)));
        Ok(())
    }

    /// Drop an index of either kind; an unknown name is refused.
    pub fn drop_index(&mut self, name: &str) -> (r: Result<(), MongoLiteError>)
        requires
            old(self).wf(),
        ensures
            final(self).wf(),
            match r {
                Ok(()) => (exists|i: int|
                    0 <= i < old(self).btree_indexes@.len() && (#[trigger] old(self).btree_indexes@[i]).0@ == name@ && final(self).btree_indexes@ == old(self).btree_indexes@.remove(i) && final(self).legacy_indexes == old(self).legacy_indexes) || (exists|i: int|
                    0 <= i < old(self).legacy_indexes@.len() && (#[trigger] old(self).legacy_indexes@[i]).0@ == name@ && final(self).legacy_indexes@ == old(self).legacy_indexes@.remove(i) && final(self).btree_indexes == old(self).btree_indexes),
                Err(e) => {
                    &&& e is IndexError
                    &&& *final(self) == *old(self)
                    &&& forall|i: int| 0 <= i < old(self).btree_indexes@.len() ==> (#[trigger] old(self).btree_indexes@[i]).0@ != name@
                    &&& forall|i: int| 0 <= i < old(self).legacy_indexes@.len()
                        ==> (#[trigger] old(self).legacy_indexes@[i]).0@ != name@
                },
            },
    {
        match self.btree_position(name) {
            Some(i) => {
                let ghost oldb = self.btree_indexes@;
                self.btree_indexes.remove(i);
                proof {
                    assert(forall|k: int| 0 <= k < self.btree_indexes@.len()
                        ==> #[trigger] self.btree_indexes@[k] == oldb[k]
                            || self.btree_indexes@[k] == oldb[k + 1]);
                }
                return Ok(());
            }
            None => {}
        }
        let mut i: usize = 0;
        while i < self.legacy_indexes.len()
            invariant
                i <= self.legacy_indexes@.len(),
                self.wf(),
                *self == *old(self),
                forall|k: int| 0 <= k < i ==> (#[trigger] self.legacy_indexes@[k]).0@ != name@,
                forall|k: int| 0 <= k < self.btree_indexes@.len()
                    ==> (#[trigger] self.btree_indexes@[k]).0@ != name@,
            decreases self.legacy_indexes@.len() - i,
        {
            if crate::value::str_eq(self.legacy_indexes[i].0.as_str(), name) {
                self.legacy_indexes.remove(i);
                return Ok(());
            }
            i = i + 1;
        }
        Err(MongoLiteError::IndexError(String::new()))
    }

    /// The named tree index.
    pub fn get_btree_index(&self, name: &str) -> (r: Option<&crate::btree::BPlusTreeFull>)
        ensures
            match r {
                Some(t) => (self.wf() ==> t.wf()) && exists|i: int|
                    0 <= i < self.btree_indexes@.len() && (#[trigger] self.btree_indexes@[i]).0@
                        == name@ && self.btree_indexes@[i].1 == *t,
                None => forall|i: int| 0 <= i < self.btree_indexes@.len()
                    ==> (#[trigger] self.btree_indexes@[i]).0@ != name@,
            },
    {
        match self.btree_position(name) {
            Some(i) => Some(&self.btree_indexes[i].1),
            None => None,
        }
    }

    /// The named simple index.
    pub fn get_index(&self, name: &str) -> (r: Option<&Index>) {
        let mut i: usize = 0;
        while i < self.legacy_indexes.len()
            invariant
                i <= self.legacy_indexes@.len(),
            decreases self.legacy_indexes@.len() - i,
        {
            if crate::value::str_eq(self.legacy_indexes[i].0.as_str(), name) {
                return Some(&self.legacy_indexes[i].1);
            }
            i = i + 1;
        }
        None
    }

    /// Insert a pair into the named tree index. Under a unique index a key
    /// already present is refused with `IndexError`. An unknown index name
    /// changes nothing.
    pub fn btree_insert(
        &mut self,
        name: &str,
        key: crate::key::IndexKey,
        doc_id: crate::value::DocumentId,
    ) -> (r: Result<(), MongoLiteError>)
        requires
            old(self).wf(),
        ensures
            final(self).wf(),
            final(self).btree_indexes@.len() == old(self).btree_indexes@.len(),
            final(self).legacy_indexes@.len() == old(self).legacy_indexes@.len(),
            r matches Err(e) ==> e is IndexError || e is Unknown,
    {
        let i = match self.btree_position(name) {
            Some(i) => i,
            None => {
                return Ok(());
            }
        };
        let mut pair = self.btree_indexes.remove(i);
        if pair.1.size() == u64::MAX {
            self.btree_indexes.insert(i, pair);
            proof {
                lemma_manager_insert_back(old(self).btree_indexes@, self.btree_indexes@, i as int);
            }
            return Err(MongoLiteError::Unknown(String::new()));
        }
        let res = pair.1.insert(key, doc_id);
        self.btree_indexes.insert(i, pair);
        proof {
            lemma_manager_insert_back(old(self).btree_indexes@, self.btree_indexes@, i as int);
        }
        match res {
            Ok(()) => Ok(()),
            Err(e) => Err(e),
        }
    }

    /// Remove a pair from the named tree index; an unknown name changes
    /// nothing.
    pub fn btree_delete(
        &mut self,
        name: &str,
        key: &crate::key::IndexKey,
        doc_id: &crate::value::DocumentId,
    ) -> (r: bool)
        requires
            old(self).wf(),
        ensures
            final(self).wf(),
            final(self).btree_indexes@.len() == old(self).btree_indexes@.len(),
            final(self).legacy_indexes@.len() == old(self).legacy_indexes@.len(),
    {
        let i = match self.btree_position(name) {
            Some(i) => i,
            None => {
                return false;
            }
        };
        let mut pair = self.btree_indexes.remove(i);
        let found = pair.1.delete(key, doc_id);
        self.btree_indexes.insert(i, pair);
        proof {
            lemma_manager_insert_back(old(self).btree_indexes@, self.btree_indexes@, i as int);
        }
        found
    }

    /// Every index name, tree indexes first, in registration order.
    /// The names of every index the manager holds, tree indexes first.
    pub open spec fn spec_index_names(&self) -> Seq<Seq<char>> {
        Seq::new(self.btree_indexes@.len(), |i: int| self.btree_indexes@[i].0@) + Seq::new(
            self.legacy_indexes@.len(),
            |i: int| self.legacy_indexes@[i].0@,
        )
    }

    /// Every existing index name, each exactly once, in ascending byte
    /// order; the manager is unchanged.
    pub fn list_indexes(&self) -> (r: Vec<String>)
        ensures
            r@.len() == self.btree_indexes@.len() + self.legacy_indexes@.len(),
            Seq::new(r@.len(), |i: int| r@[i]@).to_multiset() == self.spec_index_names(
            ).to_multiset(),
            forall|p: int, q: int| 0 <= p < q < r@.len() ==> crate::key::bytes_cmp(
                vstd::utf8::encode_utf8((#[trigger] r@[p])@),
                vstd::utf8::encode_utf8((#[trigger] r@[q])@),
            ) <= 0,
    {
        proof {
            broadcast use vstd::seq_lib::group_to_multiset_ensures;
        }
        let ghost names = self.spec_index_names();
        let mut collected: Vec<String> = Vec::new();
        let mut i: usize = 0;
        while i < self.btree_indexes.len()
            invariant
                i <= self.btree_indexes@.len(),
                collected@.len() == i,
                forall|k: int| 0 <= k < i ==> (#[trigger] collected@[k])@
                    == self.btree_indexes@[k].0@,
            decreases self.btree_indexes@.len() - i,
        {
            collected.push(self.btree_indexes[i].0.clone());
            i = i + 1;
        }
        let mut j: usize = 0;
        while j < self.legacy_indexes.len()
            invariant
                j <= self.legacy_indexes@.len(),
                collected@.len() == self.btree_indexes@.len() + j,
                forall|k: int| 0 <= k < self.btree_indexes@.len()
                    ==> (#[trigger] collected@[k])@ == self.btree_indexes@[k].0@,
                forall|k: int| 0 <= k < j
                    ==> (#[trigger] collected@[self.btree_indexes@.len() + k])@
                    == self.legacy_indexes@[k].0@,
            decreases self.legacy_indexes@.len() - j,
        {
            collected.push(self.legacy_indexes[j].0.clone());
            j = j + 1;
        }
        proof {
            assert forall|k: int| 0 <= k < collected@.len() implies collected@[k]@ == names[k] by {
                if k >= self.btree_indexes@.len() {
                    let k2 = k - self.btree_indexes@.len();
                    assert(collected@[self.btree_indexes@.len() + k2]@
                        == self.legacy_indexes@[k2].0@);
                }
            }
            assert(Seq::new(collected@.len(), |k: int| collected@[k]@) =~= names);
        }
        // ascending byte order, by insertion
        let ghost orig = collected@;
        let mut rest = collected;
        let mut out: Vec<String> = Vec::new();
        while rest.len() > 0
            invariant
                Seq::new(orig.len(), |k: int| orig[k]@) == names,
                out@.len() + rest@.len() == orig.len(),
                Seq::new(out@.len(), |k: int| out@[k]@).to_multiset().add(
                    Seq::new(rest@.len(), |k: int| rest@[k]@).to_multiset(),
                ) == names.to_multiset(),
                forall|p: int, q: int| 0 <= p < q < out@.len() ==> crate::key::bytes_cmp(
                    vstd::utf8::encode_utf8((#[trigger] out@[p])@),
                    vstd::utf8::encode_utf8((#[trigger] out@[q])@),
                ) <= 0,
            decreases rest@.len(),
        {
            proof {
                broadcast use vstd::seq_lib::group_to_multiset_ensures;
            }
            let ghost prerest = rest@;
            let name = rest.remove(0);
            let ghost nv = name@;
            proof {
                assert(Seq::new(prerest.len(), |k: int| prerest[k]@) =~= seq![nv] + Seq::new(
                    rest@.len(),
                    |k: int| rest@[k]@,
                ));
                vstd::seq_lib::lemma_multiset_commutative(
                    seq![nv],
                    Seq::new(rest@.len(), |k: int| rest@[k]@),
                );
            }
            let mut pos: usize = 0;
            while pos < out.len()
                invariant
                    nv == name@,
                    pos <= out@.len(),
                    forall|p: int| 0 <= p < pos ==> crate::key::bytes_cmp(
                        vstd::utf8::encode_utf8((#[trigger] out@[p])@),
                        vstd::utf8::encode_utf8(nv),
                    ) <= 0,
                ensures
                    pos <= out@.len(),
                    forall|p: int| 0 <= p < pos ==> crate::key::bytes_cmp(
                        vstd::utf8::encode_utf8((#[trigger] out@[p])@),
                        vstd::utf8::encode_utf8(nv),
                    ) <= 0,
                    pos < out@.len() ==> crate::key::bytes_cmp(
                        vstd::utf8::encode_utf8(out@[pos as int]@),
                        vstd::utf8::encode_utf8(nv),
                    ) > 0,
                decreases out@.len() - pos,
            {
                let c = crate::key::cmp_bytes(
                    out[pos].as_str().as_bytes(),
                    name.as_str().as_bytes(),
                );
                if c > 0 {
                    break;
                }
                pos = pos + 1;
            }
            let ghost oldout = out@;
            let ghost posg = pos as int;
            out.insert(pos, name);
            proof {
                broadcast use vstd::seq_lib::group_to_multiset_ensures;
                assert(out@ =~= oldout.subrange(0, posg).push(out@[posg]) + oldout.subrange(
                    posg,
                    oldout.len() as int,
                ));
                let oldviews = Seq::new(oldout.len(), |k: int| oldout[k]@);
                let newviews = Seq::new(out@.len(), |k: int| out@[k]@);
                assert(newviews =~= oldviews.subrange(0, posg).push(nv) + oldviews.subrange(
                    posg,
                    oldviews.len() as int,
                ));
                lemma_name_multiset_insert(oldviews, nv, posg);
                assert(newviews.to_multiset() =~= oldviews.to_multiset().insert(nv));
                assert(newviews.to_multiset().add(
                    Seq::new(rest@.len(), |k: int| rest@[k]@).to_multiset(),
                ) =~= names.to_multiset());
                assert forall|p: int, q: int|
                    0 <= p < q < out@.len() implies crate::key::bytes_cmp(
                    vstd::utf8::encode_utf8((#[trigger] out@[p])@),
                    vstd::utf8::encode_utf8((#[trigger] out@[q])@),
                ) <= 0 by {
                    if posg < oldout.len() {
                        crate::key::lemma_bytes_cmp_antisym(
                            vstd::utf8::encode_utf8(oldout[posg]@),
                            vstd::utf8::encode_utf8(nv),
                            0,
                        );
                    }
                    if p < posg && q > posg {
                        assert(out@[p] == oldout[p] && out@[q] == oldout[q - 1]);
                    } else if q < posg {
                        assert(out@[p] == oldout[p] && out@[q] == oldout[q]);
                    } else if p > posg && q > posg {
                        assert(out@[p] == oldout[p - 1] && out@[q] == oldout[q - 1]);
                    } else if q == posg {
                        assert(out@[p] == oldout[p]);
                    } else if p == posg && q == posg + 1 {
                        assert(out@[q] == oldout[q - 1]);
                    } else {
                        // p == posg, q > posg + 1: the displaced element at
                        // posg is above the new name, and the tail is sorted
                        assert(out@[q] == oldout[q - 1]);
                        crate::key::lemma_bytes_cmp_trans(
                            vstd::utf8::encode_utf8(nv),
                            vstd::utf8::encode_utf8(oldout[posg]@),
                            vstd::utf8::encode_utf8(oldout[q - 1]@),
                            0,
                        );
                    }
                }
            }
        }
        proof {
            broadcast use vstd::seq_lib::group_to_multiset_ensures;
            assert(Seq::new(out@.len(), |k: int| out@[k]@).to_multiset().add(
                Seq::new(0nat, |k: int| rest@[k]@).to_multiset(),
            ) =~= names.to_multiset());
            assert(Seq::new(0nat, |k: int| rest@[k]@) =~= Seq::<Seq<char>>::empty());
            assert(Seq::new(out@.len(), |k: int| out@[k]@).to_multiset() =~= names.to_multiset());
        }
        out
    }
}

/// Inserting a name at a position adds it to the sequence's multiset.
proof fn lemma_name_multiset_insert(s: Seq<Seq<char>>, v: Seq<char>, pos: int)
    requires
        0 <= pos <= s.len(),
    ensures
        (s.subrange(0, pos).push(v) + s.subrange(pos, s.len() as int)).to_multiset()
            == s.to_multiset().insert(v),
{
    broadcast use vstd::seq_lib::group_to_multiset_ensures;

    let a = s.subrange(0, pos);
    let b = s.subrange(pos, s.len() as int);
    vstd::seq_lib::lemma_multiset_commutative(a.push(v), b);
    vstd::seq_lib::lemma_multiset_commutative(a, b);
    assert(a.push(v).to_multiset() == a.to_multiset().insert(v));
    assert(s =~= a + b);
    assert((a.push(v) + b).to_multiset() =~= s.to_multiset().insert(v));
}

/// Replacing one pair, with its tree still well formed, keeps the manager
/// well formed.
proof fn lemma_manager_insert_back(
    oldb: Seq<(String, crate::btree::BPlusTreeFull)>,
    newb: Seq<(String, crate::btree::BPlusTreeFull)>,
    i: int,
)
    requires
        0 <= i < oldb.len(),
        newb.len() == oldb.len(),
        forall|k: int| 0 <= k < oldb.len() && k != i ==> #[trigger] newb[k] == oldb[k],
        forall|k: int| 0 <= k < oldb.len() ==> (#[trigger] oldb[k]).1.wf(),
        newb[i].1.wf(),
    ensures
        forall|k: int| 0 <= k < newb.len() ==> (#[trigger] newb[k]).1.wf(),
{
}

} // verus!
