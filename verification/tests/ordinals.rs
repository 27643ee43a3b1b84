//! Ordering behavior of the board: inserts, deletes and moves keep every
//! partition dense, and each operation shifts exactly the records it must.

use banban::board::Board;
use banban::commands::CreateActivityInput;
use banban::commands::UpdateActivityColumnInput;
use banban::commands::UpdateColumnOrdinalInput;
use banban::errors::AppError;

/// A board with two columns (ids 1, 2) and three activities in each:
/// ids 1, 2, 3 at ordinals 0, 1, 2 of column 1, ids 4, 5, 6 at ordinals
/// 0, 1, 2 of column 2.
fn two_columns_six_activities() -> Board {
    let mut b = Board::new();
    b.insert_column("to do".to_string()).unwrap();
    b.insert_column("done".to_string()).unwrap();
    for (col, name) in [(1, "a1"), (1, "a2"), (1, "a3"), (2, "b1"), (2, "b2"), (2, "b3")] {
        let ord = b.get_activity_count_in_column(Some(col));
        b.insert_activity(Some(col), ord, name.to_string(), None).unwrap();
    }
    b
}

#[test]
fn add_activity() {
    let mut b = Board::new();
    b.insert_column("New".to_string()).unwrap();
    let input = CreateActivityInput {
        name: "abc".into(),
        body: Some("def".into()),
        column_id: 1,
    };

    let res = b.create_activity(input).unwrap();

    assert_eq!(res.id, 1);
    assert_eq!(res.name, "abc");
    assert_eq!(res.body, Some("def".into()));
    assert_eq!(res.column_id, Some(1));
    assert_eq!(res.ordinal, 0);
}

#[test]
fn add_activity_changes_ordinals() {
    let mut b = Board::new();
    b.insert_column("New".to_string()).unwrap();
    b.create_activity(CreateActivityInput {
        name: "Profit".into(),
        body: None,
        column_id: 1,
    })
    .unwrap();
    let input = CreateActivityInput {
        name: "abc".into(),
        body: Some("def".into()),
        column_id: 1,
    };

    let res = b.create_activity(input).unwrap();

    assert_eq!(res.id, 2);
    assert_eq!(res.name, "abc");
    assert_eq!(res.body, Some("def".into()));
    assert_eq!(res.column_id, Some(1));
    assert_eq!(res.ordinal, 0);

    let first = b.find_activity_by_id(1).unwrap();
    assert_eq!(first.name, "Profit");
    assert_eq!(first.ordinal, 1);
}

#[test]
fn update_activity_position_position_unchanged() {
    let mut b = two_columns_six_activities();

    assert_eq!(b.activity_ordinal(1).unwrap(), 0);
    assert_eq!(b.activity_ordinal(2).unwrap(), 1);
    assert_eq!(b.activity_ordinal(3).unwrap(), 2);

    b.update_activity_column_by_id(UpdateActivityColumnInput {
        id: 2,
        column_id: Some(1),
        new_ord: 1,
    })
    .unwrap();

    assert_eq!(b.activity_ordinal(1).unwrap(), 0);
    assert_eq!(b.activity_ordinal(2).unwrap(), 1);
    assert_eq!(b.activity_ordinal(3).unwrap(), 2);
}

#[test]
fn update_activity_position_same_column() {
    let mut b = two_columns_six_activities();

    assert_eq!(b.activity_ordinal(1).unwrap(), 0);
    assert_eq!(b.activity_ordinal(2).unwrap(), 1);
    assert_eq!(b.activity_ordinal(3).unwrap(), 2);

    b.update_activity_column_by_id(UpdateActivityColumnInput {
        id: 3,
        column_id: Some(1),
        new_ord: 1,
    })
    .unwrap();

    assert_eq!(b.activity_ordinal(1).unwrap(), 0);
    assert_eq!(b.activity_ordinal(2).unwrap(), 2);
    assert_eq!(b.activity_ordinal(3).unwrap(), 1);
}

#[test]
fn update_activity_position_different_column() {
    let mut b = two_columns_six_activities();

    assert_eq!(b.activity_ordinal(1).unwrap(), 0);
    assert_eq!(b.activity_ordinal(2).unwrap(), 1);
    assert_eq!(b.activity_ordinal(3).unwrap(), 2);
    assert_eq!(b.activity_ordinal(4).unwrap(), 0);
    assert_eq!(b.activity_ordinal(5).unwrap(), 1);
    assert_eq!(b.activity_ordinal(6).unwrap(), 2);

    b.update_activity_column_by_id(UpdateActivityColumnInput {
        id: 2,
        column_id: Some(2),
        new_ord: 0,
    })
    .unwrap();

    assert_eq!(b.activity_ordinal(1).unwrap(), 0);
    assert_eq!(b.activity_ordinal(2).unwrap(), 0);
    assert_eq!(b.activity_ordinal(3).unwrap(), 1);
    assert_eq!(b.activity_ordinal(4).unwrap(), 1);
    assert_eq!(b.activity_ordinal(5).unwrap(), 2);
    assert_eq!(b.activity_ordinal(6).unwrap(), 3);
}

#[test]
fn insert_category_appends_to_end() {
    let mut b = Board::new();
    b.insert_category("Size".to_string()).unwrap();

    let res = b.insert_category("test".to_string()).unwrap();
    assert_eq!(res.id, 2);
    assert_eq!(res.name, "test");
    assert_eq!(res.ordinal, 1);
}

#[test]
fn move_last_to_middle_within_column() {
    // column 1 holds A:0, B:1, C:2; moving C to ordinal 1 gives A:0, C:1, B:2
    let mut b = Board::new();
    b.insert_column("column 1".to_string()).unwrap();
    for name in ["A", "B", "C"] {
        let ord = b.get_activity_count_in_column(Some(1));
        b.insert_activity(Some(1), ord, name.to_string(), None).unwrap();
    }

    b.update_activity_column_by_id(UpdateActivityColumnInput {
        id: 3,
        column_id: Some(1),
        new_ord: 1,
    })
    .unwrap();

    assert_eq!(b.find_activity_by_id(1).unwrap().ordinal, 0); // A
    assert_eq!(b.find_activity_by_id(3).unwrap().ordinal, 1); // C
    assert_eq!(b.find_activity_by_id(2).unwrap().ordinal, 2); // B
}

#[test]
fn move_across_columns() {
    // column 1 holds A:0, B:1; column 2 holds X:0.  Moving A to column 2 at
    // ordinal 0 gives column 1 = {B:0} and column 2 = {A:0, X:1}.
    let mut b = Board::new();
    b.insert_column("column 1".to_string()).unwrap();
    b.insert_column("column 2".to_string()).unwrap();
    b.insert_activity(Some(1), 0, "A".to_string(), None).unwrap();
    b.insert_activity(Some(1), 1, "B".to_string(), None).unwrap();
    b.insert_activity(Some(2), 0, "X".to_string(), None).unwrap();

    b.update_activity_column_by_id(UpdateActivityColumnInput {
        id: 1,
        column_id: Some(2),
        new_ord: 0,
    })
    .unwrap();

    assert_eq!(b.get_activity_count_in_column(Some(1)), 1);
    assert_eq!(b.get_activity_count_in_column(Some(2)), 2);
    let a = b.find_activity_by_id(1).unwrap();
    assert_eq!(a.column_id, Some(2));
    assert_eq!(a.ordinal, 0);
    let bb = b.find_activity_by_id(2).unwrap();
    assert_eq!(bb.column_id, Some(1));
    assert_eq!(bb.ordinal, 0);
    let x = b.find_activity_by_id(3).unwrap();
    assert_eq!(x.column_id, Some(2));
    assert_eq!(x.ordinal, 1);
}

#[test]
fn delete_first_closes_gap() {
    // deleting the entity at ordinal 0 of a three-entity partition leaves
    // the other two at ordinals 0 and 1 in their old relative order
    let mut b = Board::new();
    b.insert_column("col".to_string()).unwrap();
    for name in ["first", "second", "third"] {
        let ord = b.get_activity_count_in_column(Some(1));
        b.insert_activity(Some(1), ord, name.to_string(), None).unwrap();
    }

    b.delete_activity_by_id(1).unwrap();

    assert!(b.find_activity_by_id(1).is_none());
    assert_eq!(b.get_activity_count_in_column(Some(1)), 2);
    assert_eq!(b.find_activity_by_id(2).unwrap().ordinal, 0);
    assert_eq!(b.find_activity_by_id(3).unwrap().ordinal, 1);
}

#[test]
fn delete_middle_shifts_only_later_entities() {
    let mut b = two_columns_six_activities();

    b.delete_activity_by_id(2).unwrap();

    assert_eq!(b.activity_ordinal(1).unwrap(), 0);
    assert_eq!(b.activity_ordinal(3).unwrap(), 1);
    // the other column is untouched
    assert_eq!(b.activity_ordinal(4).unwrap(), 0);
    assert_eq!(b.activity_ordinal(5).unwrap(), 1);
    assert_eq!(b.activity_ordinal(6).unwrap(), 2);
}

#[test]
fn append_shifts_nothing() {
    let mut b = Board::new();
    b.insert_column("col".to_string()).unwrap();
    b.insert_activity(Some(1), 0, "one".to_string(), None).unwrap();
    b.insert_activity(Some(1), 1, "two".to_string(), None).unwrap();

    // inserting at ordinal == count leaves the existing rows in place
    let count = b.get_activity_count_in_column(Some(1));
    let appended = b.insert_activity(Some(1), count, "three".to_string(), None).unwrap();

    assert_eq!(appended.ordinal, 2);
    assert_eq!(b.activity_ordinal(1).unwrap(), 0);
    assert_eq!(b.activity_ordinal(2).unwrap(), 1);
}

#[test]
fn insert_beyond_count_is_rejected() {
    let mut b = Board::new();
    b.insert_column("col".to_string()).unwrap();
    let res = b.insert_activity(Some(1), 1, "gap".to_string(), None);
    assert_eq!(res.unwrap_err(), AppError::InvalidOrdinal);
    assert_eq!(b.get_activity_count_in_column(Some(1)), 0);
}

#[test]
fn unknown_id_is_rejected() {
    let mut b = Board::new();
    assert_eq!(b.delete_activity_by_id(7).unwrap_err(), AppError::RowNotFound);
    assert_eq!(b.activity_ordinal(7).unwrap_err(), AppError::RowNotFound);
    assert_eq!(
        b.update_activity_column_by_id(UpdateActivityColumnInput {
            id: 7,
            column_id: None,
            new_ord: 0,
        })
        .unwrap_err(),
        AppError::RowNotFound
    );
}

#[test]
fn negative_ordinal_is_rejected() {
    let mut b = Board::new();
    b.insert_column("col".to_string()).unwrap();
    b.insert_column("col2".to_string()).unwrap();
    let res = b.update_column_ordinal(UpdateColumnOrdinalInput {
        column_id: 1,
        new_ord: -1,
    });
    assert_eq!(res.unwrap_err(), AppError::InvalidOrdinal);
    assert_eq!(b.column_ordinal(1).unwrap(), 0);
}

#[test]
fn stash_is_its_own_partition() {
    // `None` matches only `None`: stash ordinals are independent of columns
    let mut b = Board::new();
    b.insert_column("col".to_string()).unwrap();
    b.insert_activity(Some(1), 0, "in column".to_string(), None).unwrap();
    b.insert_activity(None, 0, "stashed".to_string(), None).unwrap();
    b.insert_activity(None, 1, "stashed too".to_string(), None).unwrap();

    assert_eq!(b.get_activity_count_in_column(None), 2);
    assert_eq!(b.get_activity_count_in_column(Some(1)), 1);
    assert_eq!(b.activity_ordinal(1).unwrap(), 0);
    assert_eq!(b.activity_ordinal(2).unwrap(), 0);
    assert_eq!(b.activity_ordinal(3).unwrap(), 1);
}

#[test]
fn ordinals_stay_dense_through_mixed_operations() {
    // after an arbitrary mix of inserts, deletes and moves, each partition's
    // ordinals are a permutation of 0..count
    let mut b = two_columns_six_activities();
    b.delete_activity_by_id(2).unwrap();
    b.update_activity_column_by_id(UpdateActivityColumnInput {
        id: 5,
        column_id: Some(1),
        new_ord: 1,
    })
    .unwrap();
    b.insert_activity(None, 0, "stashed".to_string(), None).unwrap();
    b.update_activity_column_by_id(UpdateActivityColumnInput {
        id: 6,
        column_id: None,
        new_ord: 1,
    })
    .unwrap();

    for column in [Some(1), Some(2), None] {
        let count = b.get_activity_count_in_column(column);
        let mut seen = vec![false; count];
        for id in 1..=7 {
            if let Some(a) = b.find_activity_by_id(id) {
                if a.column_id == column {
                    assert!(a.ordinal < count, "ordinal out of range");
                    assert!(!seen[a.ordinal], "duplicate ordinal");
                    seen[a.ordinal] = true;
                }
            }
        }
        assert!(seen.iter().all(|&s| s), "gap in the ordinals");
    }
}

#[test]
fn reorder_columns() {
    let mut b = Board::new();
    for name in ["one", "two", "three"] {
        b.insert_column(name.to_string()).unwrap();
    }

    b.update_column_ordinal(UpdateColumnOrdinalInput {
        column_id: 1,
        new_ord: 2,
    })
    .unwrap();

    assert_eq!(b.column_ordinal(2).unwrap(), 0);
    assert_eq!(b.column_ordinal(3).unwrap(), 1);
    assert_eq!(b.column_ordinal(1).unwrap(), 2);
}
