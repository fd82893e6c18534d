use my_todo::repositories::label::Label;
use my_todo::repositories::todo::{
    entity_from_rows, fold_entities, update_values, TodoEntity, TodoWithLabelFromRow, UpdateTodo,
};
use my_todo::repositories::RepositoryError;

fn row(id: i32, text: &str, label: Option<&Label>) -> TodoWithLabelFromRow {
    TodoWithLabelFromRow {
        id,
        text: String::from(text),
        completed: false,
        label_id: label.map(|l| l.id),
        label_name: label.map(|l| l.name.clone()),
    }
}

#[test]
fn fold_entties_test() {
    let label_1 = Label {
        id: 1,
        name: String::from("label 1"),
    };
    let label_2 = Label {
        id: 2,
        name: String::from("label 2"),
    };

    let rows = vec![
        TodoWithLabelFromRow {
            id: 1,
            text: String::from("todo 1"),
            completed: false,
            label_id: Some(label_1.id),
            label_name: Some(label_1.name.clone()),
        },
        TodoWithLabelFromRow {
            id: 1,
            text: String::from("todo 1"),
            completed: false,
            label_id: Some(label_2.id),
            label_name: Some(label_2.name.clone()),
        },
        TodoWithLabelFromRow {
            id: 2,
            text: String::from("todo 2"),
            completed: false,
            label_id: Some(label_1.id),
            label_name: Some(label_1.name.clone()),
        },
    ];
    let res = fold_entities(rows);
    assert_eq!(
        vec![
            TodoEntity {
                id: 1,
                text: String::from("todo 1"),
                completed: false,
                labels: vec![label_1.clone(), label_2.clone()]
            },
            TodoEntity {
                id: 2,
                text: String::from("todo 2"),
                completed: false,
                labels: vec![label_1.clone()],
            },
        ] as Vec<TodoEntity>,
        res
    );
}

#[test]
fn fold_of_no_rows_is_empty() {
    assert_eq!(fold_entities(vec![]), Vec::<TodoEntity>::new());
}

#[test]
fn fold_keeps_todos_without_labels() {
    let res = fold_entities(vec![row(3, "no label", None), row(4, "other", None)]);
    assert_eq!(
        res,
        vec![
            TodoEntity {
                id: 3,
                text: String::from("no label"),
                completed: false,
                labels: vec![]
            },
            TodoEntity {
                id: 4,
                text: String::from("other"),
                completed: false,
                labels: vec![]
            },
        ]
    );
}

#[test]
fn fold_drops_repeated_labels_and_keeps_first_order() {
    let a = Label { id: 7, name: String::from("a") };
    let b = Label { id: 5, name: String::from("b") };
    let rows = vec![
        row(2, "second", Some(&b)),
        row(1, "first", Some(&a)),
        row(2, "second", Some(&a)),
        row(2, "second", Some(&b)),
        row(1, "first", None),
    ];
    let res = fold_entities(rows);
    assert_eq!(res.len(), 2);
    assert_eq!(res[0].id, 2);
    assert_eq!(res[0].labels, vec![b.clone(), a.clone()]);
    assert_eq!(res[1].id, 1);
    assert_eq!(res[1].labels, vec![a.clone()]);
}

#[test]
fn lookup_from_rows_without_rows_is_not_found() {
    assert_eq!(entity_from_rows(9, vec![]), Err(RepositoryError::NotFound(9)));
}

#[test]
fn lookup_from_rows_aggregates_labels() {
    let a = Label { id: 1, name: String::from("a") };
    let b = Label { id: 2, name: String::from("b") };
    let res = entity_from_rows(4, vec![row(4, "t", Some(&a)), row(4, "t", Some(&b))]);
    assert_eq!(
        res,
        Ok(TodoEntity {
            id: 4,
            text: String::from("t"),
            completed: false,
            labels: vec![a, b]
        })
    );
}

#[test]
fn update_values_take_command_fields_over_current() {
    let current = TodoEntity::new(1, String::from("old"));
    let keep = UpdateTodo { text: None, completed: None, labels: None };
    assert_eq!(update_values(&current, &keep), (String::from("old"), false));
    let change = UpdateTodo {
        text: Some(String::from("new")),
        completed: Some(true),
        labels: None,
    };
    assert_eq!(update_values(&current, &change), (String::from("new"), true));
}
