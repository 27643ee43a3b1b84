//! The empty constructors of the query output records.

use banban::commands::QueryActivityOutput;
use banban::commands::QueryColumnOutput;
use banban::commands::SelectCategoryOutput;

#[test]
fn query_activity_output_new_empty() {
    let out = QueryActivityOutput::new_empty("title".to_string(), Some("body".to_string()), 3);
    assert_eq!(out.title, "title");
    assert_eq!(out.body, Some("body".to_string()));
    assert_eq!(out.activity_ordinal, 3);
    assert!(out.category_tags.is_empty());
    assert!(out.other_tags.is_empty());
}

#[test]
fn query_column_output_new_empty() {
    let out = QueryColumnOutput::new_empty(Some("col".to_string()), Some(1));
    assert_eq!(out.name, Some("col".to_string()));
    assert_eq!(out.column_ordinal, Some(1));
    assert!(out.activities.is_empty());
}

#[test]
fn select_category_output_new_empty() {
    let out = SelectCategoryOutput::new_empty(None, None);
    assert_eq!(out.name, None);
    assert_eq!(out.ordinal, None);
    assert!(out.tags.is_empty());
}
