use vstd::prelude::*;

use crate::repositories::RepositoryError;
use crate::repositories::label::{
    contains_label, copy_labels, distinct_label_ids, has_label, Label,
};

verus! {

/// One row of the outer join of todos with their labels: the label fields are
/// absent when the todo has no label.
#[derive(Debug, Clone, PartialEq, Eq)]
pub struct TodoWithLabelFromRow {
    pub id: i32,
    pub text: String,
    pub completed: bool,
    pub label_id: Option<i32>,
    pub label_name: Option<String>,
}

/// A todo with the labels attached to it.
#[derive(Debug, Clone, PartialEq, Eq)]
pub struct TodoEntity {
    pub id: i32,
    pub text: String,
    pub completed: bool,
    pub labels: Vec<Label>,
}

/// One row of the todos table.
#[derive(Debug, Clone, PartialEq, Eq)]
pub struct TodoFromRow {
    pub id: i32,
    pub text: String,
    pub completed: bool,
}

/// The mathematical value of a `TodoEntity`.
pub struct TodoModel {
    pub id: i32,
    pub text: String,
    pub completed: bool,
    pub labels: Seq<Label>,
}

impl View for TodoEntity {
    type V = TodoModel;

    open spec fn view(&self) -> TodoModel {
        TodoModel { id: self.id, text: self.text, completed: self.completed, labels: self.labels@ }
    }
}

/// The models of a list of entities.
pub open spec fn models(todos: Seq<TodoEntity>) -> Seq<TodoModel> {
    todos.map_values(|e: TodoEntity| e@)
}

impl TodoEntity {
    /// A todo that is not completed and has no labels.
    pub fn new(id: i32, text: String) -> (r: TodoEntity)
        ensures
            r@ == (TodoModel { id, text, completed: false, labels: Seq::<Label>::empty() }),
    {
        let r = TodoEntity { id, text, completed: false, labels: Vec::new() };
        assert(r.labels@ =~= Seq::<Label>::empty());
        r
    }

    /// A copy with the same model.
    pub fn copy_of(&self) -> (r: TodoEntity)
        ensures
            r@ == self@,
    {
        TodoEntity {
            id: self.id,
            text: self.text.clone(),
            completed: self.completed,
            labels: copy_labels(&self.labels),
        }
    }
}

/// The label that a joined row carries, if it carries one.
pub open spec fn row_label(row: TodoWithLabelFromRow) -> Option<Label> {
    match (row.label_id, row.label_name) {
        (Some(id), Some(name)) => Some(Label { id, name }),
        _ => None,
    }
}

/// `labels` with `label` appended, unless it is absent or its id is already there.
pub open spec fn with_label(labels: Seq<Label>, label: Option<Label>) -> Seq<Label> {
    match label {
        Some(l) => if has_label(labels, l.id) {
            labels
        } else {
            labels.push(l)
        },
        None => labels,
    }
}

/// No two todos of `todos` share an id.
pub open spec fn distinct_ids(todos: Seq<TodoModel>) -> bool {
    forall|i: int, j: int|
        0 <= i < todos.len() && 0 <= j < todos.len() && i != j ==> todos[i].id != todos[j].id
}

/// Whether some todo of `todos` has the id `id`.
pub open spec fn has_id(todos: Seq<TodoModel>, id: i32) -> bool {
    exists|i: int| 0 <= i < todos.len() && todos[i].id == id
}

/// The position of the last todo of `todos` with the id `id`, or -1 if there is none.
pub open spec fn index_of(todos: Seq<TodoModel>, id: i32) -> int
    decreases todos.len(),
{
    if todos.len() == 0 {
        -1
    } else if todos.last().id == id {
        todos.len() - 1
    } else {
        index_of(todos.drop_last(), id)
    }
}

/// The entities after one more joined row: the row's label joins the todo
/// with the row's id, or a new todo is appended.
pub open spec fn fold_row(todos: Seq<TodoModel>, row: TodoWithLabelFromRow) -> Seq<TodoModel> {
    let i = index_of(todos, row.id);
    if i >= 0 {
        todos.update(
            i,
            TodoModel {
                id: todos[i].id,
                text: todos[i].text,
                completed: todos[i].completed,
                labels: with_label(todos[i].labels, row_label(row)),
            },
        )
    } else {
        todos.push(
            TodoModel {
                id: row.id,
                text: row.text,
                completed: row.completed,
                labels: with_label(Seq::empty(), row_label(row)),
            },
        )
    }
}

/// The nested entities that a sequence of joined rows describes: one per
/// distinct todo id, in order of first occurrence.
pub open spec fn fold_rows(rows: Seq<TodoWithLabelFromRow>) -> Seq<TodoModel>
    decreases rows.len(),
{
    if rows.len() == 0 {
        Seq::empty()
    } else {
        fold_row(fold_rows(rows.drop_last()), rows.last())
    }
}

/// The todos of `todos` all have distinct label ids.
pub open spec fn labels_distinct(todos: Seq<TodoModel>) -> bool {
    forall|i: int| 0 <= i < todos.len() ==> distinct_label_ids(#[trigger] todos[i].labels)
}

proof fn lemma_index_of(todos: Seq<TodoModel>, id: i32)
    ensures
        -1 <= index_of(todos, id) < todos.len(),
        index_of(todos, id) >= 0 ==> todos[index_of(todos, id)].id == id,
        index_of(todos, id) == -1 <==> !has_id(todos, id),
    decreases todos.len(),
{
    if todos.len() > 0 {
        let rest = todos.drop_last();
        lemma_index_of(rest, id);
        if todos.last().id != id {
            if has_id(todos, id) {
                let k = choose|k: int| 0 <= k < todos.len() && todos[k].id == id;
                assert(rest[k].id == id);
            }
        } else {
            assert(has_id(todos, id));
        }
    }
}

proof fn lemma_index_of_unique(todos: Seq<TodoModel>, id: i32, p: int)
    requires
        distinct_ids(todos),
        0 <= p < todos.len(),
        todos[p].id == id,
    ensures
        index_of(todos, id) == p,
    decreases todos.len(),
{
    let rest = todos.drop_last();
    if p < todos.len() - 1 {
        assert(todos.last().id != id);
        assert(rest[p].id == id);
        lemma_index_of_unique(rest, id, p);
    }
}

proof fn lemma_with_label_distinct(labels: Seq<Label>, label: Option<Label>)
    requires
        distinct_label_ids(labels),
    ensures
        distinct_label_ids(with_label(labels, label)),
{
    if let Some(l) = label {
        if !has_label(labels, l.id) {
            let r = labels.push(l);
            assert forall|i: int, j: int|
                0 <= i < r.len() && 0 <= j < r.len() && i != j implies r[i].id != r[j].id by {
                if i < labels.len() && j < labels.len() {
                } else if i < labels.len() {
                    assert(labels[i].id != l.id);
                } else {
                    assert(labels[j].id != l.id);
                }
            }
        }
    }
}

proof fn lemma_fold_row_invariants(todos: Seq<TodoModel>, row: TodoWithLabelFromRow)
    requires
        distinct_ids(todos),
        labels_distinct(todos),
    ensures
        distinct_ids(fold_row(todos, row)),
        labels_distinct(fold_row(todos, row)),
        has_id(fold_row(todos, row), row.id),
        forall|id: i32| has_id(todos, id) ==> has_id(fold_row(todos, row), id),
        forall|id: i32| #[trigger]
            has_id(fold_row(todos, row), id) ==> has_id(todos, id) || id == row.id,
{
    lemma_index_of(todos, row.id);
    let i = index_of(todos, row.id);
    let r = fold_row(todos, row);
    if i >= 0 {
        lemma_with_label_distinct(todos[i].labels, row_label(row));
        assert(r[i].id == row.id);
        assert forall|id: i32| has_id(todos, id) implies has_id(r, id) by {
            let k = choose|k: int| 0 <= k < todos.len() && todos[k].id == id;
            assert(r[k].id == id);
        }
        assert forall|id: i32| #[trigger] has_id(r, id) implies has_id(todos, id) || id == row.id by {
            let k = choose|k: int| 0 <= k < r.len() && r[k].id == id;
            assert(todos[k].id == id);
        }
    } else {
        lemma_with_label_distinct(Seq::empty(), row_label(row));
        assert(r[todos.len() as int].id == row.id);
        assert forall|id: i32| has_id(todos, id) implies has_id(r, id) by {
            let k = choose|k: int| 0 <= k < todos.len() && todos[k].id == id;
            assert(r[k].id == id);
        }
        assert forall|id: i32| #[trigger] has_id(r, id) implies has_id(todos, id) || id == row.id by {
            let k = choose|k: int| 0 <= k < r.len() && r[k].id == id;
            if k < todos.len() {
                assert(todos[k].id == id);
            }
        }
        assert forall|a: int, b: int|
            0 <= a < r.len() && 0 <= b < r.len() && a != b implies r[a].id != r[b].id by {
            if a < todos.len() && b < todos.len() {
            } else if a < todos.len() {
                assert(todos[a].id != row.id);
            } else {
                assert(todos[b].id != row.id);
            }
        }
    }
}

/// The shape of any result of `fold_rows`: distinct todo ids, distinct label
/// ids within each todo, and exactly the ids that occur in the rows.
pub proof fn lemma_fold_rows_shape(rows: Seq<TodoWithLabelFromRow>)
    ensures
        distinct_ids(fold_rows(rows)),
        labels_distinct(fold_rows(rows)),
        forall|id: i32|
            #[trigger] has_id(fold_rows(rows), id) <==> exists|k: int|
                0 <= k < rows.len() && rows[k].id == id,
    decreases rows.len(),
{
    if rows.len() > 0 {
        let rest = rows.drop_last();
        lemma_fold_rows_shape(rest);
        lemma_fold_row_invariants(fold_rows(rest), rows.last());
        assert(fold_rows(rows) == fold_row(fold_rows(rest), rows.last()));
        let prev = fold_rows(rest);
        assert forall|id: i32|
            #[trigger] has_id(fold_rows(rows), id) <==> exists|k: int|
                0 <= k < rows.len() && rows[k].id == id by {
            if has_id(fold_rows(rows), id) {
                assert(has_id(fold_row(prev, rows.last()), id));
                if id == rows.last().id {
                    assert(rows[rows.len() - 1].id == id);
                } else {
                    assert(has_id(prev, id));
                    let k = choose|k: int| 0 <= k < rest.len() && rest[k].id == id;
                    assert(rows[k].id == id);
                }
            }
            if exists|k: int| 0 <= k < rows.len() && rows[k].id == id {
                let k = choose|k: int| 0 <= k < rows.len() && rows[k].id == id;
                if k < rest.len() {
                    assert(rest[k].id == id);
                    assert(has_id(prev, id));
                    assert(has_id(fold_row(prev, rows.last()), id));
                } else {
                    assert(id == rows.last().id);
                    assert(has_id(fold_row(prev, rows.last()), id));
                }
            }
        }
    }
}

/// The label that `row` carries, as an owned value.
fn label_of_row(row: &TodoWithLabelFromRow) -> (r: Option<Label>)
    ensures
        r == row_label(*row),
{
    match (&row.label_id, &row.label_name) {
        (Some(id), Some(name)) => Some(Label { id: *id, name: name.clone() }),
        _ => None,
    }
}

/// The position of the todo of `todos` with the id `id`, if there is one.
fn position_of(todos: &Vec<TodoEntity>, id: i32) -> (r: Option<usize>)
    requires
        distinct_ids(models(todos@)),
    ensures
        match r {
            Some(p) => p < todos.len() && p == index_of(models(todos@), id),
            None => index_of(models(todos@), id) == -1,
        },
{
    let ghost m = models(todos@);
    proof {
        lemma_index_of(m, id);
    }
    let mut i: usize = 0;
    while i < todos.len()
        invariant
            i <= todos.len(),
            m == models(todos@),
            distinct_ids(m),
            forall|j: int| 0 <= j < i ==> m[j].id != id,
        decreases todos.len() - i,
    {
        if todos[i].id == id {
            proof {
                lemma_index_of_unique(m, id, i as int);
            }
            return Some(i);
        }
        i += 1;
    }
    assert(!has_id(m, id));
    None
}

/// Groups flat joined rows into nested entities: one entity per distinct todo
/// id, in order of first occurrence, each carrying the labels of its rows
/// without repeated label ids, in order of first occurrence.
pub fn fold_entities(rows: Vec<TodoWithLabelFromRow>) -> (r: Vec<TodoEntity>)
    ensures
        models(r@) == fold_rows(rows@),
        distinct_ids(models(r@)),
        labels_distinct(models(r@)),
        forall|id: i32|
            #[trigger] has_id(models(r@), id) <==> exists|k: int|
                0 <= k < rows@.len() && rows@[k].id == id,
{
    let mut accm: Vec<TodoEntity> = Vec::new();
    let mut k: usize = 0;
    assert(models(accm@) =~= fold_rows(rows@.take(0)));
    while k < rows.len()
        invariant
            k <= rows.len(),
            models(accm@) == fold_rows(rows@.take(k as int)),
        decreases rows.len() - k,
    {
        let ghost before = models(accm@);
        proof {
            lemma_fold_rows_shape(rows@.take(k as int));
            assert(rows@.take(k as int + 1).drop_last() =~= rows@.take(k as int));
        }
        let row = &rows[k];
        let label = label_of_row(row);
        match position_of(&accm, row.id) {
            Some(p) => {
                let mut labels = copy_labels(&accm[p].labels);
                if let Some(l) = label {
                    if !contains_label(&labels, l.id) {
                        labels.push(l);
                    }
                }
                let e = TodoEntity {
                    id: accm[p].id,
                    text: accm[p].text.clone(),
                    completed: accm[p].completed,
                    labels,
                };
                accm.set(p, e);
                assert(models(accm@) =~= fold_row(before, *row));
            },
            None => {
                let mut labels: Vec<Label> = Vec::new();
                if let Some(l) = label {
                    labels.push(l);
                }
                assert(labels@ =~= with_label(Seq::empty(), row_label(*row)));
                let e = TodoEntity {
                    id: row.id,
                    text: row.text.clone(),
                    completed: row.completed,
                    labels,
                };
                accm.push(e);
                assert(models(accm@) =~= fold_row(before, *row));
            },
        }
        k += 1;
    }
    proof {
        assert(rows@.take(rows.len() as int) =~= rows@);
        lemma_fold_rows_shape(rows@);
    }
    accm
}

/// The command that creates a todo: its text and the ids of its labels.
#[derive(Debug, Clone, PartialEq, Eq)]
pub struct CreateTodo {
    pub text: String,
    pub labels: Vec<i32>,
}

impl CreateTodo {
    pub fn new(text: String, labels: Vec<i32>) -> (r: CreateTodo)
        ensures
            r.text == text,
            r.labels@ == labels@,
    {
        CreateTodo { text, labels }
    }
}

/// The command that changes a todo: each field that is present replaces the
/// todo's value; a present list of label ids replaces the whole label set.
#[derive(Debug, Clone, PartialEq, Eq)]
pub struct UpdateTodo {
    pub text: Option<String>,
    pub completed: Option<bool>,
    pub labels: Option<Vec<i32>>,
}

/// The last label of `catalog` with the id `id`, if there is one.
pub open spec fn catalog_label(catalog: Seq<Label>, id: i32) -> Option<Label>
    decreases catalog.len(),
{
    if catalog.len() == 0 {
        None
    } else if catalog.last().id == id {
        Some(catalog.last())
    } else {
        catalog_label(catalog.drop_last(), id)
    }
}

/// The labels that a list of label ids names: ids without a label in
/// `catalog` are left out, and so is every repeat of an id.
pub open spec fn resolve(ids: Seq<i32>, catalog: Seq<Label>) -> Seq<Label>
    decreases ids.len(),
{
    if ids.len() == 0 {
        Seq::empty()
    } else {
        with_label(resolve(ids.drop_last(), catalog), catalog_label(catalog, ids.last()))
    }
}

/// The label of `catalog` with the id `id`, if there is one.
pub fn lookup_label(catalog: &Vec<Label>, id: i32) -> (r: Option<Label>)
    ensures
        r == catalog_label(catalog@, id),
{
    let mut i: usize = catalog.len();
    assert(catalog@.take(i as int) =~= catalog@);
    while i > 0
        invariant
            i <= catalog.len(),
            catalog_label(catalog@.take(i as int), id) == catalog_label(catalog@, id),
        decreases i,
    {
        if catalog[i - 1].id == id {
            return Some(catalog[i - 1].copy_of());
        }
        assert(catalog@.take(i as int).drop_last() =~= catalog@.take(i - 1));
        i -= 1;
    }
    None
}

/// Turns a list of label ids into the labels of `catalog` that they name, in
/// order of first mention, without repeats.
pub fn resolve_labels(ids: &Vec<i32>, catalog: &Vec<Label>) -> (r: Vec<Label>)
    ensures
        r@ == resolve(ids@, catalog@),
        distinct_label_ids(r@),
{
    let mut r: Vec<Label> = Vec::new();
    let mut i: usize = 0;
    assert(ids@.take(0) =~= Seq::<i32>::empty());
    while i < ids.len()
        invariant
            i <= ids.len(),
            r@ == resolve(ids@.take(i as int), catalog@),
            distinct_label_ids(r@),
        decreases ids.len() - i,
    {
        assert(ids@.take(i + 1).drop_last() =~= ids@.take(i as int));
        let found = lookup_label(catalog, ids[i]);
        proof {
            lemma_with_label_distinct(r@, found);
        }
        if let Some(l) = found {
            if !contains_label(&r, l.id) {
                r.push(l);
            }
        }
        i += 1;
    }
    assert(ids@.take(ids.len() as int) =~= ids@);
    r
}

/// The todo `todo` after the command `payload`.
pub open spec fn apply_update(todo: TodoModel, payload: UpdateTodo, catalog: Seq<Label>) -> TodoModel {
    TodoModel {
        id: todo.id,
        text: match payload.text {
            Some(t) => t,
            None => todo.text,
        },
        completed: match payload.completed {
            Some(c) => c,
            None => todo.completed,
        },
        labels: match payload.labels {
            Some(ids) => resolve(ids@, catalog),
            None => todo.labels,
        },
    }
}

/// `todos` with `todo` stored under its id: it replaces the todo with that id,
/// or is appended when there is none.
pub open spec fn put(todos: Seq<TodoModel>, todo: TodoModel) -> Seq<TodoModel> {
    let i = index_of(todos, todo.id);
    if i >= 0 {
        todos.update(i, todo)
    } else {
        todos.push(todo)
    }
}

/// The todo that `create` builds from `payload` in a store that holds `len` todos.
pub open spec fn created(len: nat, payload: CreateTodo, catalog: Seq<Label>) -> TodoModel {
    TodoModel {
        id: (len + 1) as i32,
        text: payload.text,
        completed: false,
        labels: resolve(payload.labels@, catalog),
    }
}

/// A todo repository held in memory, in insertion order. Label ids in commands
/// are resolved against a fixed list of known labels.
#[derive(Debug, Clone)]
pub struct TodoRepositoryForMemory {
    store: Vec<TodoEntity>,
    labels: Vec<Label>,
}

impl TodoRepositoryForMemory {
    /// The todos, in insertion order.
    pub closed spec fn todos(&self) -> Seq<TodoModel> {
        models(self.store@)
    }

    /// The labels that commands may name.
    pub closed spec fn catalog(&self) -> Seq<Label> {
        self.labels@
    }

    /// No two stored todos share an id.
    pub closed spec fn wf(&self) -> bool {
        distinct_ids(self.todos())
    }

    /// An empty repository that knows no labels.
    pub fn new() -> (r: TodoRepositoryForMemory)
        ensures
            r.wf(),
            r.todos() == Seq::<TodoModel>::empty(),
            r.catalog() == Seq::<Label>::empty(),
    {
        let r = TodoRepositoryForMemory { store: Vec::new(), labels: Vec::new() };
        assert(r.todos() =~= Seq::<TodoModel>::empty());
        assert(r.catalog() =~= Seq::<Label>::empty());
        r
    }

    /// An empty repository whose commands may name the labels of `labels`.
    pub fn with_labels(labels: Vec<Label>) -> (r: TodoRepositoryForMemory)
        ensures
            r.wf(),
            r.todos() == Seq::<TodoModel>::empty(),
            r.catalog() == labels@,
    {
        let r = TodoRepositoryForMemory { store: Vec::new(), labels };
        assert(r.todos() =~= Seq::<TodoModel>::empty());
        r
    }

    /// Whether one more todo can be given an id.
    pub fn has_room(&self) -> (r: bool)
        ensures
            r == (self.todos().len() < i32::MAX),
    {
        self.store.len() < i32::MAX as usize
    }

    /// Stores a new todo under the id `size + 1`, where `size` is the number of
    /// todos held, and returns it. A todo that already has that id is replaced.
    pub fn create(&mut self, payload: CreateTodo) -> (r: Result<TodoEntity, RepositoryError>)
        requires
            old(self).wf(),
            old(self).todos().len() < i32::MAX,
        ensures
            final(self).wf(),
            final(self).catalog() == old(self).catalog(),
            match r {
                Ok(e) => {
                    &&& e@ == created(old(self).todos().len(), payload, old(self).catalog())
                    &&& final(self).todos() == put(old(self).todos(), e@)
                },
                Err(_) => false,
            },
    {
        let ghost before = self.todos();
        let id = (self.store.len() + 1) as i32;
        let labels = resolve_labels(&payload.labels, &self.labels);
        let todo = TodoEntity { id, text: payload.text, completed: false, labels };
        proof {
            lemma_index_of(before, id);
        }
        match position_of(&self.store, id) {
            Some(p) => {
                self.store.set(p, todo.copy_of());
                assert(self.todos() =~= put(before, todo@));
                assert forall|i: int, j: int|
                    0 <= i < self.todos().len() && 0 <= j < self.todos().len() && i != j implies
                    self.todos()[i].id != self.todos()[j].id by {
                    assert(i != p ==> self.todos()[i].id == before[i].id);
                    assert(j != p ==> self.todos()[j].id == before[j].id);
                }
            },
            None => {
                self.store.push(todo.copy_of());
                assert(self.todos() =~= put(before, todo@));
                assert forall|i: int, j: int|
                    0 <= i < self.todos().len() && 0 <= j < self.todos().len() && i != j implies
                    self.todos()[i].id != self.todos()[j].id by {
                    if i < before.len() && j < before.len() {
                    } else if i < before.len() {
                        assert(before[i].id != id);
                    } else {
                        assert(before[j].id != id);
                    }
                }
            },
        }
        Ok(todo)
    }

    /// The todo with the id `id`.
    pub fn find(&self, id: i32) -> (r: Result<TodoEntity, RepositoryError>)
        requires
            self.wf(),
        ensures
            match r {
                Ok(e) => has_id(self.todos(), id) && e@ == self.todos()[index_of(self.todos(), id)],
                Err(err) => !has_id(self.todos(), id) && err == RepositoryError::NotFound(id),
            },
    {
        proof {
            lemma_index_of(self.todos(), id);
        }
        match position_of(&self.store, id) {
            Some(p) => Ok(self.store[p].copy_of()),
            None => Err(RepositoryError::NotFound(id)),
        }
    }

    /// Every todo, in insertion order.
    pub fn all(&self) -> (r: Result<Vec<TodoEntity>, RepositoryError>)
        ensures
            match r {
                Ok(v) => models(v@) == self.todos(),
                Err(_) => false,
            },
    {
        let mut v: Vec<TodoEntity> = Vec::new();
        let mut i: usize = 0;
        while i < self.store.len()
            invariant
                i <= self.store.len(),
                models(v@) == models(self.store@).take(i as int),
            decreases self.store.len() - i,
        {
            let ghost prev = v@;
            v.push(self.store[i].copy_of());
            assert(models(prev).len() == i);
            assert forall|k: int| 0 <= k < v@.len() implies #[trigger] models(v@)[k] == models(
                self.store@,
            )[k] by {
                if k < prev.len() {
                    assert(models(prev)[k] == prev[k]@);
                    assert(v@[k] == prev[k]);
                }
            }
            i += 1;
            assert(models(v@) =~= models(self.store@).take(i as int));
        }
        assert(models(self.store@).take(self.store.len() as int) =~= self.todos());
        Ok(v)
    }

    /// Applies `payload` to the todo with the id `id` and returns the result.
    pub fn update(&mut self, id: i32, payload: UpdateTodo) -> (r: Result<TodoEntity, RepositoryError>)
        requires
            old(self).wf(),
        ensures
            final(self).wf(),
            final(self).catalog() == old(self).catalog(),
            match r {
                Ok(e) => {
                    let i = index_of(old(self).todos(), id);
                    &&& has_id(old(self).todos(), id)
                    &&& e@ == apply_update(old(self).todos()[i], payload, old(self).catalog())
                    &&& final(self).todos() == old(self).todos().update(i, e@)
                },
                Err(err) => {
                    &&& !has_id(old(self).todos(), id)
                    &&& err == RepositoryError::NotFound(id)
                    &&& final(self).todos() == old(self).todos()
                },
            },
    {
        let ghost before = self.todos();
        proof {
            lemma_index_of(before, id);
        }
        match position_of(&self.store, id) {
            Some(p) => {
                let text = match payload.text {
                    Some(t) => t,
                    None => self.store[p].text.clone(),
                };
                let completed = match payload.completed {
                    Some(c) => c,
                    None => self.store[p].completed,
                };
                let labels = match &payload.labels {
                    Some(ids) => resolve_labels(ids, &self.labels),
                    None => copy_labels(&self.store[p].labels),
                };
                let todo = TodoEntity { id: self.store[p].id, text, completed, labels };
                assert(todo@ == apply_update(before[p as int], payload, self.catalog()));
                self.store.set(p, todo.copy_of());
                assert(self.todos() =~= before.update(p as int, todo@));
                assert forall|i: int, j: int|
                    0 <= i < self.todos().len() && 0 <= j < self.todos().len() && i != j implies
                    self.todos()[i].id != self.todos()[j].id by {
                    assert(self.todos()[i].id == before[i].id);
                    assert(self.todos()[j].id == before[j].id);
                }
                Ok(todo)
            },
            None => Err(RepositoryError::NotFound(id)),
        }
    }

    /// Removes the todo with the id `id`.
    pub fn delete(&mut self, id: i32) -> (r: Result<(), RepositoryError>)
        requires
            old(self).wf(),
        ensures
            final(self).wf(),
            final(self).catalog() == old(self).catalog(),
            match r {
                Ok(()) => {
                    &&& has_id(old(self).todos(), id)
                    &&& final(self).todos() == old(self).todos().remove(
                        index_of(old(self).todos(), id),
                    )
                },
                Err(err) => {
                    &&& !has_id(old(self).todos(), id)
                    &&& err == RepositoryError::NotFound(id)
                    &&& final(self).todos() == old(self).todos()
                },
            },
    {
        let ghost before = self.todos();
        proof {
            lemma_index_of(before, id);
        }
        match position_of(&self.store, id) {
            Some(p) => {
                let _ = self.store.remove(p);
                assert(self.todos() =~= before.remove(p as int));
                assert forall|i: int, j: int|
                    0 <= i < self.todos().len() && 0 <= j < self.todos().len() && i != j implies
                    self.todos()[i].id != self.todos()[j].id by {
                    let a = if i < p { i } else { i + 1 };
                    let b = if j < p { j } else { j + 1 };
                    assert(self.todos()[i].id == before[a].id);
                    assert(self.todos()[j].id == before[b].id);
                }
                Ok(())
            },
            None => Err(RepositoryError::NotFound(id)),
        }
    }
}

impl Default for TodoRepositoryForMemory {
    fn default() -> (r: TodoRepositoryForMemory)
        ensures
            r.wf(),
            r.todos() == Seq::<TodoModel>::empty(),
            r.catalog() == Seq::<Label>::empty(),
    {
        TodoRepositoryForMemory::new()
    }
}

/// What a lookup by id returns once the joined rows of that id are read: the
/// first aggregated entity, or `NotFound` when there is no row.
pub fn entity_from_rows(id: i32, rows: Vec<TodoWithLabelFromRow>) -> (r: Result<
    TodoEntity,
    RepositoryError,
>)
    ensures
        match r {
            Ok(e) => rows@.len() > 0 && e@ == fold_rows(rows@)[0],
            Err(err) => rows@.len() == 0 && err == RepositoryError::NotFound(id),
        },
{
    let ghost rs = rows@;
    if rows.len() == 0 {
        return Err(RepositoryError::NotFound(id));
    }
    let todos = fold_entities(rows);
    proof {
        assert(has_id(models(todos@), rs[0].id));
    }
    Ok(todos[0].copy_of())
}

/// The text and completion flag that an update writes: the command's value
/// where it has one, else the todo's current value.
pub fn update_values(current: &TodoEntity, payload: &UpdateTodo) -> (r: (String, bool))
    ensures
        r.0 == match payload.text {
            Some(t) => t,
            None => current.text,
        },
        r.1 == match payload.completed {
            Some(c) => c,
            None => current.completed,
        },
{
    let text = match &payload.text {
        Some(t) => t.clone(),
        None => current.text.clone(),
    };
    let completed = match payload.completed {
        Some(c) => c,
        None => current.completed,
    };
    (text, completed)
}

/// A todo that is created is found under its id, with the value that
/// creation returned.
pub proof fn create_then_find(todos: Seq<TodoModel>, payload: CreateTodo, catalog: Seq<Label>)
    requires
        distinct_ids(todos),
        todos.len() < i32::MAX,
    ensures
        ({
            let e = created(todos.len(), payload, catalog);
            let after = put(todos, e);
            &&& distinct_ids(after)
            &&& has_id(after, e.id)
            &&& after[index_of(after, e.id)] == e
        }),
{
    let e = created(todos.len(), payload, catalog);
    let after = put(todos, e);
    lemma_index_of(todos, e.id);
    let i = index_of(todos, e.id);
    let p = if i >= 0 { i } else { todos.len() as int };
    assert(after[p] == e);
    assert forall|a: int, b: int|
        0 <= a < after.len() && 0 <= b < after.len() && a != b implies after[a].id
        != after[b].id by {
        if a != p && b != p {
            assert(after[a] == todos[a] && after[b] == todos[b]);
        } else if a == p {
            if b < todos.len() && i < 0 {
                assert(todos[b].id != e.id);
            }
            assert(b < todos.len() ==> after[b] == todos[b]);
        } else {
            if a < todos.len() && i < 0 {
                assert(todos[a].id != e.id);
            }
            assert(a < todos.len() ==> after[a] == todos[a]);
        }
    }
    lemma_index_of_unique(after, e.id, p);
}

/// An update that sets only the completion flag keeps the text and the labels;
/// one that sets only the text keeps the completion flag and the labels.
pub proof fn partial_update_keeps_other_fields(
    todo: TodoModel,
    completed: bool,
    text: String,
    catalog: Seq<Label>,
)
    ensures
        ({
            let only_completed = UpdateTodo { text: None, completed: Some(completed), labels: None };
            let r = apply_update(todo, only_completed, catalog);
            &&& r.id == todo.id
            &&& r.completed == completed
            &&& r.text == todo.text
            &&& r.labels == todo.labels
        }),
        ({
            let only_text = UpdateTodo { text: Some(text), completed: None, labels: None };
            let r = apply_update(todo, only_text, catalog);
            &&& r.id == todo.id
            &&& r.text == text
            &&& r.completed == todo.completed
            &&& r.labels == todo.labels
        }),
{
}

/// Once the todo with a given id is deleted, no todo has that id: a lookup
/// fails and the list of all todos holds none with it.
pub proof fn delete_then_absent(todos: Seq<TodoModel>, id: i32)
    requires
        distinct_ids(todos),
        has_id(todos, id),
    ensures
        ({
            let after = todos.remove(index_of(todos, id));
            &&& distinct_ids(after)
            &&& !has_id(after, id)
            &&& forall|i: int| 0 <= i < after.len() ==> #[trigger] after[i].id != id
        }),
{
    lemma_index_of(todos, id);
    let p = index_of(todos, id);
    let after = todos.remove(p);
    assert forall|i: int| 0 <= i < after.len() implies #[trigger] after[i].id != id by {
        let x = if i < p { i } else { i + 1 };
        assert(after[i] == todos[x]);
    }
    assert forall|a: int, b: int|
        0 <= a < after.len() && 0 <= b < after.len() && a != b implies after[a].id
        != after[b].id by {
        let x = if a < p { a } else { a + 1 };
        let y = if b < p { b } else { b + 1 };
        assert(after[a] == todos[x]);
        assert(after[b] == todos[y]);
    }
}

} // verus!
