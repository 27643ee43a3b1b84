//! The startup fetch: the board state shaped into id-keyed maps.

use banban::board::Board;
use banban::commands::AddTagToActivityInput;
use banban::commands::CreateActivityInput;
use banban::commands::CreateTagInput;

fn populated_board() -> Board {
    let mut b = Board::new();
    b.insert_column("to do".to_string()).unwrap();
    b.insert_column("done".to_string()).unwrap();
    b.create_activity(CreateActivityInput {
        name: "write".to_string(),
        body: Some("a draft".to_string()),
        column_id: 1,
    })
    .unwrap();
    b.create_activity(CreateActivityInput {
        name: "ship".to_string(),
        body: None,
        column_id: 2,
    })
    .unwrap();
    b.insert_activity(None, 0, "someday".to_string(), None).unwrap();
    b.insert_category("size".to_string()).unwrap();
    b.create_tag(CreateTagInput {
        tag_name: "big".to_string(),
        category_id: Some(1),
    })
    .unwrap();
    b.create_tag(CreateTagInput {
        tag_name: "loose".to_string(),
        category_id: None,
    })
    .unwrap();
    b.add_tag_to_activity(AddTagToActivityInput {
        id: 1,
        category_id: Some(1),
        tag_name: "big".to_string(),
    })
    .unwrap();
    b
}

#[test]
fn fetch_all_shapes_the_whole_board() {
    let b = populated_board();
    let out = b.fetch_all();

    assert_eq!(out.columns.len(), 2);
    assert_eq!(out.columns.get(&1).unwrap().name, "to do");
    assert_eq!(out.columns.get(&1).unwrap().ordinal, 0);
    assert_eq!(out.columns.get(&2).unwrap().ordinal, 1);

    assert_eq!(out.activities.len(), 2);
    let write = out.activities.get(&1).unwrap();
    assert_eq!(write.name, "write");
    assert_eq!(write.body, Some("a draft".to_string()));
    assert_eq!(write.column_id, 1);
    assert_eq!(write.ordinal, 0);
    assert_eq!(write.tags, vec![1]);
    assert_eq!(out.activities.get(&2).unwrap().column_id, 2);

    assert_eq!(out.other_activities.len(), 1);
    assert_eq!(out.other_activities.get(&3).unwrap().name, "someday");
    assert_eq!(out.other_activities.get(&3).unwrap().ordinal, 0);

    assert_eq!(out.categories.len(), 1);
    let size = out.categories.get(&1).unwrap();
    assert_eq!(size.name, "size");
    assert_eq!(size.tags, vec![1]);

    assert_eq!(out.category_tags.len(), 1);
    let big = out.category_tags.get(&1).unwrap();
    assert_eq!(big.name, "big");
    assert_eq!(big.category_id, 1);
    assert_eq!(big.ordinal, 0);

    assert_eq!(out.other_tags.len(), 1);
    let loose = out.other_tags.get(&2).unwrap();
    assert_eq!(loose.name, "loose");
    assert_eq!(loose.ordinal, 0);
}

#[test]
fn fetched_tag_colors_are_rendered() {
    let b = populated_board();
    let out = b.fetch_all();
    let big = out.category_tags.get(&1).unwrap();
    assert_eq!(big.color, banban::coloring::rgb_int_to_string(banban::coloring::string_to_color("big")));
    let loose = out.other_tags.get(&2).unwrap();
    assert_eq!(loose.color, banban::coloring::rgb_int_to_string(banban::coloring::string_to_color("loose")));
}

#[test]
fn select_all_categories_groups_tags() {
    let mut b = Board::new();
    b.insert_category("size".to_string()).unwrap();
    b.insert_category("mood".to_string()).unwrap();
    for (name, cat) in [("big", Some(1)), ("small", Some(1)), ("loose", None)] {
        b.create_tag(CreateTagInput {
            tag_name: name.to_string(),
            category_id: cat,
        })
        .unwrap();
    }

    let out = b.select_all_categories();

    assert_eq!(out.category_tags.len(), 2);
    let size = out.category_tags.get(&1).unwrap();
    assert_eq!(size.name, Some("size".to_string()));
    assert_eq!(size.ordinal, Some(0));
    assert_eq!(size.tags.len(), 2);
    assert_eq!(size.tags[0].tag, "big");
    assert_eq!(size.tags[0].ordinal, 0);
    assert_eq!(size.tags[1].tag, "small");
    assert_eq!(size.tags[1].ordinal, 1);
    assert_eq!(size.tags[1].color, banban::coloring::rgb_int_to_string(0x2f765a));

    let mood = out.category_tags.get(&2).unwrap();
    assert!(mood.tags.is_empty());

    assert_eq!(out.other_tags.name, None);
    assert_eq!(out.other_tags.ordinal, None);
    assert_eq!(out.other_tags.tags.len(), 1);
    assert_eq!(out.other_tags.tags[0].tag, "loose");
}

#[test]
fn query_all_activities_joins_tags() {
    let mut b = populated_board();
    // a second, uncategorized tag on the same activity
    b.create_tag(CreateTagInput {
        tag_name: "later".to_string(),
        category_id: None,
    })
    .unwrap();
    b.add_tag_to_activity(AddTagToActivityInput {
        id: 1,
        category_id: None,
        tag_name: "later".to_string(),
    })
    .unwrap();

    let out = b.query_all_activities();

    assert_eq!(out.columns.len(), 2);
    let col1 = out.columns.get(&1).unwrap();
    assert_eq!(col1.name, Some("to do".to_string()));
    assert_eq!(col1.column_ordinal, Some(0));
    assert_eq!(col1.activities.len(), 1);
    let write = col1.activities.get(&1).unwrap();
    assert_eq!(write.title, "write");
    assert_eq!(write.body, Some("a draft".to_string()));
    assert_eq!(write.activity_ordinal, 0);
    assert_eq!(write.other_tags, vec!["later".to_string()]);
    let big = write.category_tags.get(&1).unwrap();
    assert_eq!(big.category_name, "size");
    assert_eq!(big.category_ordinal, 0);
    assert_eq!(big.tag_id, 1);
    assert_eq!(big.tag_name, "big");
    assert_eq!(big.tag_ordinal, 0);

    let col2 = out.columns.get(&2).unwrap();
    assert_eq!(col2.activities.len(), 1);
    assert!(col2.activities.get(&2).unwrap().category_tags.is_empty());

    assert_eq!(out.other_activities.name, None);
    assert_eq!(out.other_activities.column_ordinal, None);
    assert_eq!(out.other_activities.activities.len(), 1);
    assert_eq!(out.other_activities.activities.get(&3).unwrap().title, "someday");
}

#[test]
fn stash_and_columns_are_fetched_apart() {
    let mut b = populated_board();
    b.delete_column_by_id(1).unwrap();
    let out = b.fetch_all();
    // the deleted column's activity moved to the stash, after its contents
    assert_eq!(out.columns.len(), 1);
    assert_eq!(out.activities.len(), 1);
    assert_eq!(out.other_activities.len(), 2);
    assert_eq!(out.other_activities.get(&3).unwrap().ordinal, 0);
    let moved = out.other_activities.get(&1).unwrap();
    assert_eq!(moved.ordinal, 1);
    assert_eq!(moved.tags, vec![1]);
}
