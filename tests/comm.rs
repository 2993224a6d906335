use tailr::comm::{column_line, comm_step, Column};

#[test]
fn step_picks_column() {
    assert_eq!(comm_step(Some("a"), None, false), Some((Column::Col1, "a".to_string())));
    assert_eq!(comm_step(None, Some("b"), false), Some((Column::Col2, "b".to_string())));
    assert_eq!(comm_step(None, None, false), None);
    assert_eq!(comm_step(Some("a"), Some("b"), false), Some((Column::Col1, "a".to_string())));
    assert_eq!(comm_step(Some("b"), Some("a"), false), Some((Column::Col2, "a".to_string())));
    assert_eq!(comm_step(Some("ab"), Some("a"), false), Some((Column::Col2, "a".to_string())));
    assert_eq!(comm_step(Some("x"), Some("x"), false), Some((Column::Col3, "x".to_string())));
    assert_eq!(comm_step(Some("B"), Some("a"), false), Some((Column::Col1, "B".to_string())));
}

#[test]
fn step_ignores_case_when_asked() {
    assert_eq!(comm_step(Some("Apple"), Some("apple"), true), Some((Column::Col3, "apple".to_string())));
    assert_eq!(comm_step(Some("B"), Some("a"), true), Some((Column::Col2, "a".to_string())));
    assert_eq!(comm_step(Some("É"), Some("é"), true), Some((Column::Col3, "é".to_string())));
}

#[test]
fn layout_of_columns() {
    assert_eq!(column_line(Column::Col1, "a", true, true, true, "\t"), Some("a".to_string()));
    assert_eq!(column_line(Column::Col2, "b", true, true, true, "\t"), Some("\tb".to_string()));
    assert_eq!(column_line(Column::Col3, "c", true, true, true, "\t"), Some("\t\tc".to_string()));
    assert_eq!(column_line(Column::Col3, "c", false, true, true, ","), Some(",c".to_string()));
    assert_eq!(column_line(Column::Col3, "c", false, false, true, ","), Some("c".to_string()));
    assert_eq!(column_line(Column::Col2, "b", false, true, true, ","), Some("b".to_string()));
    assert_eq!(column_line(Column::Col1, "a", false, true, true, ","), None);
    assert_eq!(column_line(Column::Col3, "c", true, true, false, ","), None);
}
