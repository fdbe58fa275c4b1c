use fru::{attribute_kind, training_tasks, AttributeKind, TrainingTasks};

#[test]
fn attribute_codes() {
    assert_eq!(attribute_kind(-5), None);
    assert_eq!(attribute_kind(-3), None);
    assert_eq!(attribute_kind(-2), Some(AttributeKind::Logical));
    assert_eq!(attribute_kind(-1), Some(AttributeKind::Numeric));
    assert_eq!(attribute_kind(0), Some(AttributeKind::Integer));
    assert_eq!(attribute_kind(4), Some(AttributeKind::Factor(4)));
}

#[test]
fn task_bits() {
    assert_eq!(
        training_tasks(14),
        TrainingTasks { importance: true, oob: true, save_forest: true }
    );
    assert_eq!(
        training_tasks(4),
        TrainingTasks { importance: false, oob: true, save_forest: false }
    );
    assert_eq!(
        training_tasks(9),
        TrainingTasks { importance: true, oob: false, save_forest: false }
    );
}
