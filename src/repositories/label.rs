use vstd::prelude::*;

use crate::repositories::RepositoryError;

verus! {

/// A named tag that todos may carry.
#[derive(Debug, Clone, PartialEq, Eq)]
pub struct Label {
    pub id: i32,
    pub name: String,
}

impl Label {
    /// A field-by-field copy.
    pub fn copy_of(&self) -> (r: Label)
        ensures
            r == *self,
    {
        Label { id: self.id, name: self.name.clone() }
    }
}

/// Whether some label of `labels` has the id `id`.
pub open spec fn has_label(labels: Seq<Label>, id: i32) -> bool {
    exists|i: int| 0 <= i < labels.len() && labels[i].id == id
}

/// No two labels of `labels` share an id.
pub open spec fn distinct_label_ids(labels: Seq<Label>) -> bool {
    forall|i: int, j: int|
        0 <= i < labels.len() && 0 <= j < labels.len() && i != j ==> labels[i].id != labels[j].id
}

/// Copies a list of labels.
pub fn copy_labels(labels: &Vec<Label>) -> (r: Vec<Label>)
    ensures
        r@ == labels@,
{
    let mut r: Vec<Label> = Vec::new();
    let mut i: usize = 0;
    while i < labels.len()
        invariant
            i <= labels.len(),
            r@ == labels@.take(i as int),
        decreases labels.len() - i,
    {
        r.push(labels[i].copy_of());
        i += 1;
        assert(r@ =~= labels@.take(i as int));
    }
    assert(labels@.take(labels.len() as int) =~= labels@);
    r
}

/// Whether some label of `labels` has the id `id`.
pub fn contains_label(labels: &Vec<Label>, id: i32) -> (r: bool)
    ensures
        r == has_label(labels@, id),
{
    let mut i: usize = 0;
    while i < labels.len()
        invariant
            i <= labels.len(),
            forall|j: int| 0 <= j < i ==> labels@[j].id != id,
        decreases labels.len() - i,
    {
        if labels[i].id == id {
            return true;
        }
        i += 1;
    }
    false
}

/// Whether some label of `labels` has the name `name`.
pub open spec fn has_name(labels: Seq<Label>, name: Seq<char>) -> bool {
    exists|i: int| 0 <= i < labels.len() && labels[i].name@ == name
}

/// What a label creation decides once the label with the requested name has
/// been looked up: a label that exists already makes it fail.
pub fn check_duplicate(existing: &Option<Label>) -> (r: Result<(), RepositoryError>)
    ensures
        r == match existing {
            Some(l) => Err(RepositoryError::Duplicate(l.id)),
            None => Ok::<(), RepositoryError>(()),
        },
{
    match existing {
        Some(l) => Err(RepositoryError::Duplicate(l.id)),
        None => Ok(()),
    }
}

/// A label repository held in memory. Ids come from a counter, so an id is
/// never given twice; labels are kept in ascending order of id.
#[derive(Debug, Clone)]
pub struct LabelRepositoryForMemory {
    store: Vec<Label>,
    next_id: i32,
}

impl LabelRepositoryForMemory {
    /// The labels, in ascending order of id.
    pub closed spec fn labels(&self) -> Seq<Label> {
        self.store@
    }

    /// The id that the next label will get.
    pub closed spec fn next_id(&self) -> int {
        self.next_id as int
    }

    /// Ids rise strictly along the list and stay below the counter; names are
    /// distinct.
    pub closed spec fn wf(&self) -> bool {
        &&& 1 <= self.next_id
        &&& forall|i: int, j: int|
            0 <= i < j < self.store@.len() ==> self.store@[i].id < self.store@[j].id
        &&& forall|i: int| 0 <= i < self.store@.len() ==> 1 <= #[trigger] self.store@[i].id < self.next_id
        &&& forall|i: int, j: int|
            0 <= i < self.store@.len() && 0 <= j < self.store@.len() && i != j
                ==> self.store@[i].name@ != self.store@[j].name@
    }

    /// An empty repository whose first label gets the id 1.
    pub fn new() -> (r: LabelRepositoryForMemory)
        ensures
            r.wf(),
            r.labels() == Seq::<Label>::empty(),
            r.next_id() == 1,
    {
        let r = LabelRepositoryForMemory { store: Vec::new(), next_id: 1 };
        assert(r.labels() =~= Seq::<Label>::empty());
        r
    }

    /// Whether one more label can be given an id.
    pub fn has_room(&self) -> (r: bool)
        ensures
            r == (self.next_id() < i32::MAX),
    {
        self.next_id < i32::MAX
    }

    /// Adds a label named `name` under the next id, unless a label of that
    /// name exists, in which case nothing changes and its id is reported.
    pub fn create(&mut self, name: String) -> (r: Result<Label, RepositoryError>)
        requires
            old(self).wf(),
            old(self).next_id() < i32::MAX,
        ensures
            final(self).wf(),
            match r {
                Ok(l) => {
                    &&& !has_name(old(self).labels(), name@)
                    &&& l == (Label { id: old(self).next_id() as i32, name })
                    &&& final(self).labels() == old(self).labels().push(l)
                    &&& final(self).next_id() == old(self).next_id() + 1
                },
                Err(e) => {
                    &&& exists|i: int|
                        0 <= i < old(self).labels().len() && old(self).labels()[i].name@ == name@
                            && e == RepositoryError::Duplicate(old(self).labels()[i].id)
                    &&& final(self).labels() == old(self).labels()
                    &&& final(self).next_id() == old(self).next_id()
                },
            },
    {
        let mut i: usize = 0;
        while i < self.store.len()
            invariant
                i <= self.store.len(),
                forall|j: int| 0 <= j < i ==> self.store@[j].name@ != name@,
                self.wf(),
                self.labels() == old(self).labels(),
                self.next_id() == old(self).next_id(),
            decreases self.store.len() - i,
        {
            if self.store[i].name == name {
                return Err(RepositoryError::Duplicate(self.store[i].id));
            }
            i += 1;
        }
        let l = Label { id: self.next_id, name };
        self.store.push(l.copy_of());
        self.next_id = self.next_id + 1;
        Ok(l)
    }

    /// Every label, in ascending order of id.
    pub fn all(&self) -> (r: Result<Vec<Label>, RepositoryError>)
        ensures
            match r {
                Ok(v) => v@ == self.labels(),
                Err(_) => false,
            },
    {
        Ok(copy_labels(&self.store))
    }

    /// Removes the label with the id `id`. Todos that name it are not touched.
    pub fn delete(&mut self, id: i32) -> (r: Result<(), RepositoryError>)
        requires
            old(self).wf(),
        ensures
            final(self).wf(),
            final(self).next_id() == old(self).next_id(),
            match r {
                Ok(()) => exists|i: int|
                    0 <= i < old(self).labels().len() && old(self).labels()[i].id == id
                        && final(self).labels() == old(self).labels().remove(i),
                Err(e) => {
                    &&& !has_label(old(self).labels(), id)
                    &&& e == RepositoryError::NotFound(id)
                    &&& final(self).labels() == old(self).labels()
                },
            },
    {
        let mut i: usize = 0;
        while i < self.store.len()
            invariant
                i <= self.store.len(),
                forall|j: int| 0 <= j < i ==> self.store@[j].id != id,
                self.wf(),
                self.labels() == old(self).labels(),
                self.next_id() == old(self).next_id(),
            decreases self.store.len() - i,
        {
            if self.store[i].id == id {
                let ghost before = self.store@;
                let _ = self.store.remove(i);
                assert forall|a: int, b: int| 0 <= a < b < self.store@.len() implies
                    self.store@[a].id < self.store@[b].id by {
                    let x = if a < i { a } else { a + 1 };
                    let y = if b < i { b } else { b + 1 };
                    assert(self.store@[a] == before[x]);
                    assert(self.store@[b] == before[y]);
                }
                assert forall|a: int, b: int|
                    0 <= a < self.store@.len() && 0 <= b < self.store@.len() && a != b implies
                    self.store@[a].name@ != self.store@[b].name@ by {
                    let x = if a < i { a } else { a + 1 };
                    let y = if b < i { b } else { b + 1 };
                    assert(self.store@[a] == before[x]);
                    assert(self.store@[b] == before[y]);
                }
                assert forall|a: int| 0 <= a < self.store@.len() implies 1 <= #[trigger] self.store@[a].id
                    < self.next_id by {
                    let x = if a < i { a } else { a + 1 };
                    assert(self.store@[a] == before[x]);
                }
                return Ok(());
            }
            i += 1;
        }
        Err(RepositoryError::NotFound(id))
    }
}

impl Default for LabelRepositoryForMemory {
    fn default() -> (r: LabelRepositoryForMemory)
        ensures
            r.wf(),
            r.labels() == Seq::<Label>::empty(),
            r.next_id() == 1,
    {
        LabelRepositoryForMemory::new()
    }
}

} // verus!
