use my_todo::repositories::label::{check_duplicate, Label, LabelRepositoryForMemory};
use my_todo::repositories::todo::{
    resolve_labels, CreateTodo, TodoEntity, TodoRepositoryForMemory, UpdateTodo,
};
use my_todo::repositories::{deletion_result, RepositoryError};

fn label(id: i32, name: &str) -> Label {
    Label { id, name: String::from(name) }
}

#[test]
fn todo_todo_crud_scenario() {
    let mut repository = TodoRepositoryForMemory::new();
    let id = 1;
    let text = "test1".to_string();
    let completed = false;

    // create
    let labels = vec![];
    let todo = CreateTodo { text: text.clone(), labels };
    repository.create(todo).expect("failed create todo");

    // find
    let todo = repository.find(id).unwrap();
    assert_eq!(
        TodoEntity {
            id,
            text: text.clone(),
            completed,
            labels: vec![],
        },
        todo
    );

    // update
    let text = "test2".to_string();
    let completed = true;
    assert_eq!(
        TodoEntity {
            id,
            text: text.clone(),
            completed,
            labels: vec![],
        },
        repository
            .update(
                id,
                UpdateTodo {
                    text: Some(text.clone()),
                    completed: Some(completed),
                    labels: Some(vec![]),
                }
            )
            .unwrap()
    );

    // all
    assert_eq!(
        [TodoEntity {
            id,
            text: text.clone(),
            completed,
            labels: vec![],
        }]
        .to_vec(),
        repository.all().expect("faild get all todo")
    );

    // delete
    assert!(repository.delete(id).is_ok());
}

#[test]
fn label_crud_scenario() {
    let mut repository = LabelRepositoryForMemory::new();
    let id = 1;
    let name = "test1".to_string();

    // create
    repository.create(name.clone()).expect("failed create label");

    // all
    assert_eq!(
        [Label { id, name }].to_vec(),
        repository.all().expect("faild get all label")
    );

    // delete
    assert!(repository.delete(id).is_ok());
}

#[test]
fn buy_milk_scenario() {
    let mut repository = TodoRepositoryForMemory::default();
    let created = repository
        .create(CreateTodo::new(String::from("buy milk"), vec![]))
        .unwrap();
    assert_eq!(created, TodoEntity::new(1, String::from("buy milk")));
    let updated = repository
        .update(1, UpdateTodo { text: None, completed: Some(true), labels: None })
        .unwrap();
    assert_eq!(
        updated,
        TodoEntity {
            id: 1,
            text: String::from("buy milk"),
            completed: true,
            labels: vec![]
        }
    );
    assert_eq!(repository.delete(1), Ok(()));
    assert_eq!(repository.find(1), Err(RepositoryError::NotFound(1)));
}

#[test]
fn create_then_find_gives_the_created_todo() {
    let mut repository = TodoRepositoryForMemory::with_labels(vec![label(1, "home"), label(2, "work")]);
    repository.create(CreateTodo::new(String::from("first"), vec![])).unwrap();
    let created = repository
        .create(CreateTodo::new(String::from("second"), vec![2, 1, 2, 9]))
        .unwrap();
    assert_eq!(created.id, 2);
    assert_eq!(created.labels, vec![label(2, "work"), label(1, "home")]);
    assert_eq!(repository.find(2), Ok(created));
}

#[test]
fn missing_id_is_not_found_everywhere() {
    let mut repository = TodoRepositoryForMemory::new();
    repository.create(CreateTodo::new(String::from("x"), vec![])).unwrap();
    assert_eq!(repository.find(5), Err(RepositoryError::NotFound(5)));
    let payload = UpdateTodo { text: Some(String::from("y")), completed: None, labels: None };
    assert_eq!(repository.update(5, payload), Err(RepositoryError::NotFound(5)));
    assert_eq!(repository.delete(5), Err(RepositoryError::NotFound(5)));
    assert_eq!(repository.all().unwrap().len(), 1);
}

#[test]
fn partial_updates_keep_other_fields() {
    let mut repository = TodoRepositoryForMemory::with_labels(vec![label(3, "red")]);
    repository.create(CreateTodo::new(String::from("paint"), vec![3])).unwrap();
    let r = repository
        .update(1, UpdateTodo { text: None, completed: Some(true), labels: None })
        .unwrap();
    assert_eq!(r.text, "paint");
    assert_eq!(r.labels, vec![label(3, "red")]);
    let r = repository
        .update(1, UpdateTodo { text: Some(String::from("repaint")), completed: None, labels: None })
        .unwrap();
    assert!(r.completed);
    assert_eq!(r.labels, vec![label(3, "red")]);
    let r = repository
        .update(1, UpdateTodo { text: None, completed: None, labels: Some(vec![]) })
        .unwrap();
    assert_eq!(r.text, "repaint");
    assert!(r.labels.is_empty());
}

#[test]
fn deleted_todo_is_gone_from_all() {
    let mut repository = TodoRepositoryForMemory::new();
    repository.create(CreateTodo::new(String::from("a"), vec![])).unwrap();
    repository.create(CreateTodo::new(String::from("b"), vec![])).unwrap();
    repository.delete(1).unwrap();
    assert_eq!(repository.find(1), Err(RepositoryError::NotFound(1)));
    let all = repository.all().unwrap();
    assert_eq!(all, vec![TodoEntity::new(2, String::from("b"))]);
}

#[test]
fn id_from_size_replaces_a_todo_after_delete() {
    let mut repository = TodoRepositoryForMemory::new();
    repository.create(CreateTodo::new(String::from("a"), vec![])).unwrap();
    repository.create(CreateTodo::new(String::from("b"), vec![])).unwrap();
    repository.delete(1).unwrap();
    let c = repository.create(CreateTodo::new(String::from("c"), vec![])).unwrap();
    assert_eq!(c.id, 2);
    assert_eq!(repository.all().unwrap(), vec![TodoEntity::new(2, String::from("c"))]);
}

#[test]
fn resolving_label_ids_drops_unknown_and_repeated_ids() {
    let catalog = vec![label(1, "a"), label(2, "b"), label(3, "c")];
    assert_eq!(resolve_labels(&vec![3, 4, 1, 3], &catalog), vec![label(3, "c"), label(1, "a")]);
    assert!(resolve_labels(&vec![], &catalog).is_empty());
}

#[test]
fn duplicate_label_name_is_rejected() {
    let mut repository = LabelRepositoryForMemory::new();
    repository.create(String::from("urgent")).unwrap();
    repository.create(String::from("later")).unwrap();
    assert_eq!(
        repository.create(String::from("later")),
        Err(RepositoryError::Duplicate(2))
    );
    assert_eq!(repository.all().unwrap(), vec![label(1, "urgent"), label(2, "later")]);
}

#[test]
fn label_ids_are_not_reused_after_delete() {
    let mut repository = LabelRepositoryForMemory::default();
    repository.create(String::from("a")).unwrap();
    repository.create(String::from("b")).unwrap();
    repository.delete(2).unwrap();
    assert_eq!(repository.create(String::from("c")).unwrap(), label(3, "c"));
    assert_eq!(repository.delete(2), Err(RepositoryError::NotFound(2)));
    assert_eq!(repository.all().unwrap(), vec![label(1, "a"), label(3, "c")]);
}

#[test]
fn existing_label_makes_creation_a_duplicate() {
    assert_eq!(check_duplicate(&Some(label(4, "x"))), Err(RepositoryError::Duplicate(4)));
    assert_eq!(check_duplicate(&None), Ok(()));
}

#[test]
fn delete_of_no_row_is_not_found() {
    assert_eq!(deletion_result(8, 0), Err(RepositoryError::NotFound(8)));
    assert_eq!(deletion_result(8, 1), Ok(()));
}
