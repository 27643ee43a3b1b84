//! Deleting a column or a category re-bases its contents into the fallback
//! partition instead of dropping them, and tag links follow the tags.

use banban::board::Board;
use banban::commands::AddTagToActivityInput;
use banban::commands::AttachTagToCategoryInput;
use banban::commands::CreateActivityInput;
use banban::commands::CreateTagInput;
use banban::commands::RemoveTagFromActivityInput;
use banban::commands::RenameColumnInput;
use banban::commands::UpdateCategoryNameInput;
use banban::commands::UpdateCategoryOrdinalInput;
use banban::commands::UpdateTagNameInput;
use banban::commands::UpdateTagOrdinalInput;
use banban::errors::AppError;

#[test]
fn delete_column_moves_activities_to_stash() {
    let mut b = Board::new();
    b.insert_column("doomed".to_string()).unwrap();
    b.insert_column("kept".to_string()).unwrap();
    // two stash activities, two in the doomed column, one in the kept one
    b.insert_activity(None, 0, "s0".to_string(), None).unwrap();
    b.insert_activity(None, 1, "s1".to_string(), None).unwrap();
    b.insert_activity(Some(1), 0, "d0".to_string(), None).unwrap();
    b.insert_activity(Some(1), 1, "d1".to_string(), None).unwrap();
    b.insert_activity(Some(2), 0, "k0".to_string(), None).unwrap();

    b.delete_column_by_id(1).unwrap();

    // the doomed column's activities append to the stash in their old order
    assert_eq!(b.get_activity_count_in_column(None), 4);
    assert_eq!(b.activity_ordinal(1).unwrap(), 0);
    assert_eq!(b.activity_ordinal(2).unwrap(), 1);
    let d0 = b.find_activity_by_id(3).unwrap();
    assert_eq!(d0.column_id, None);
    assert_eq!(d0.ordinal, 2);
    let d1 = b.find_activity_by_id(4).unwrap();
    assert_eq!(d1.column_id, None);
    assert_eq!(d1.ordinal, 3);
    // the other column is untouched, and the column list closed its gap
    assert_eq!(b.find_activity_by_id(5).unwrap().column_id, Some(2));
    assert_eq!(b.get_column_count(), 1);
    assert_eq!(b.column_ordinal(2).unwrap(), 0);
}

#[test]
fn delete_category_moves_tags_to_uncategorized() {
    let mut b = Board::new();
    b.insert_category("doomed".to_string()).unwrap();
    b.create_tag(CreateTagInput {
        tag_name: "loose".to_string(),
        category_id: None,
    })
    .unwrap();
    b.create_tag(CreateTagInput {
        tag_name: "in cat".to_string(),
        category_id: Some(1),
    })
    .unwrap();

    b.delete_category_by_id(1).unwrap();

    assert_eq!(b.get_category_count(), 0);
    assert_eq!(b.get_tag_count_from_category(None), 2);
    assert_eq!(b.tag_ordinal(1).unwrap(), 0);
    let moved = b.find_tag_by_id(2).unwrap();
    assert_eq!(moved.category_id, None);
    assert_eq!(moved.ordinal, 1);
}

#[test]
fn category_rename_and_reorder() {
    let mut b = Board::new();
    b.insert_category("one".to_string()).unwrap();
    b.insert_category("two".to_string()).unwrap();

    b.update_category_name(UpdateCategoryNameInput {
        id: 2,
        name: "renamed".to_string(),
    })
    .unwrap();
    b.update_category_ordinal(UpdateCategoryOrdinalInput {
        category_id: 2,
        new_ord: 0,
    })
    .unwrap();

    let cat = b.find_category_by_id(2).unwrap();
    assert_eq!(cat.name, "renamed");
    assert_eq!(cat.ordinal, 0);
    assert_eq!(b.category_ordinal(1).unwrap(), 1);
}

#[test]
fn column_rename_keeps_position() {
    let mut b = Board::new();
    b.insert_column("old".to_string()).unwrap();
    b.update_column_name(RenameColumnInput {
        id: 1,
        new_name: "new".to_string(),
    })
    .unwrap();
    let col = b.find_column_by_id(1).unwrap();
    assert_eq!(col.name, "new");
    assert_eq!(col.ordinal, 0);
}

#[test]
fn tag_reorder_within_category() {
    let mut b = Board::new();
    b.insert_category("cat".to_string()).unwrap();
    for name in ["t0", "t1", "t2"] {
        b.create_tag(CreateTagInput {
            tag_name: name.to_string(),
            category_id: Some(1),
        })
        .unwrap();
    }

    b.update_tag_ordinal(UpdateTagOrdinalInput {
        category_tag_id: 3,
        new_ord: 0,
    })
    .unwrap();

    assert_eq!(b.tag_ordinal(3).unwrap(), 0);
    assert_eq!(b.tag_ordinal(1).unwrap(), 1);
    assert_eq!(b.tag_ordinal(2).unwrap(), 2);
}

#[test]
fn attach_tag_to_other_category_appends() {
    let mut b = Board::new();
    b.insert_category("a".to_string()).unwrap();
    b.insert_category("b".to_string()).unwrap();
    b.create_tag(CreateTagInput {
        tag_name: "t0".to_string(),
        category_id: Some(1),
    })
    .unwrap();
    b.create_tag(CreateTagInput {
        tag_name: "t1".to_string(),
        category_id: Some(1),
    })
    .unwrap();
    b.create_tag(CreateTagInput {
        tag_name: "u0".to_string(),
        category_id: Some(2),
    })
    .unwrap();

    b.update_category_tag(AttachTagToCategoryInput {
        category_tag_id: 1,
        category_id: Some(2),
    })
    .unwrap();

    let moved = b.find_tag_by_id(1).unwrap();
    assert_eq!(moved.category_id, Some(2));
    assert_eq!(moved.ordinal, 1);
    // the old category closed its gap
    assert_eq!(b.tag_ordinal(2).unwrap(), 0);
}

#[test]
fn tag_rename_keeps_color_and_position() {
    let mut b = Board::new();
    let created = b
        .create_tag(CreateTagInput {
            tag_name: "before".to_string(),
            category_id: None,
        })
        .unwrap();
    b.update_tag_name(UpdateTagNameInput {
        category_tag_id: 1,
        tag_name: "after".to_string(),
    })
    .unwrap();
    let tag = b.find_tag_by_id(1).unwrap();
    assert_eq!(tag.tag_name, "after");
    assert_eq!(tag.color, created.color);
    assert_eq!(tag.ordinal, 0);
}

#[test]
fn activity_content_update_keeps_position() {
    let mut b = Board::new();
    b.insert_column("col".to_string()).unwrap();
    b.insert_activity(Some(1), 0, "one".to_string(), None).unwrap();
    b.insert_activity(Some(1), 1, "two".to_string(), None).unwrap();

    b.update_activity_content_by_id(banban::commands::UpdateActivityContentInput {
        id: 1,
        name: "renamed".to_string(),
        body: Some("with a body".to_string()),
    })
    .unwrap();

    let a = b.find_activity_by_id(1).unwrap();
    assert_eq!(a.name, "renamed");
    assert_eq!(a.body, Some("with a body".to_string()));
    assert_eq!(a.ordinal, 0);
    assert_eq!(b.activity_ordinal(2).unwrap(), 1);

    let missing = b.update_activity_content_by_id(banban::commands::UpdateActivityContentInput {
        id: 9,
        name: "x".to_string(),
        body: None,
    });
    assert_eq!(missing.unwrap_err(), AppError::RowNotFound);
}

#[test]
fn tag_links_follow_names() {
    let mut b = Board::new();
    b.insert_column("col".to_string()).unwrap();
    b.create_activity(CreateActivityInput {
        name: "act".to_string(),
        body: None,
        column_id: 1,
    })
    .unwrap();
    b.insert_category("cat".to_string()).unwrap();
    b.create_tag(CreateTagInput {
        tag_name: "urgent".to_string(),
        category_id: Some(1),
    })
    .unwrap();

    // attaching an unknown tag name fails
    let missing = b.add_tag_to_activity(AddTagToActivityInput {
        id: 1,
        category_id: Some(1),
        tag_name: "nope".to_string(),
    });
    assert_eq!(missing.unwrap_err(), AppError::RowNotFound);

    b.add_tag_to_activity(AddTagToActivityInput {
        id: 1,
        category_id: Some(1),
        tag_name: "urgent".to_string(),
    })
    .unwrap();
    assert_eq!(b.activity_tag_ids(1), vec![1]);

    b.remove_tag_from_activity(RemoveTagFromActivityInput {
        id: 1,
        category_id: Some(1),
        tag_name: "urgent".to_string(),
    })
    .unwrap();
    assert_eq!(b.activity_tag_ids(1), Vec::<i32>::new());
}
