//! The request and response records of the command layer: plain data that
//! crosses the boundary between the board logic and the view.

use vstd::prelude::*;

use std::collections::HashMap;

verus! {

/// Request to create an activity in a column.
pub struct CreateActivityInput {
    pub name: String,
    pub body: Option<String>,
    pub column_id: i32,
}

/// One category tag of an activity, as the activity query reports it.
pub struct CategoryTag {
    pub category_name: String,
    pub category_ordinal: i32,
    pub tag_id: i32,
    pub tag_name: String,
    pub tag_ordinal: i32,
}

/// One activity of the activity query, with its tags.
pub struct QueryActivityOutput {
    pub title: String,
    pub body: Option<String>,
    pub category_tags: HashMap<i32, CategoryTag>,
    pub other_tags: Vec<String>,
    pub activity_ordinal: i32,
}

impl QueryActivityOutput {
    /// An activity entry that carries no tags yet.
    pub fn new_empty(title: String, body: Option<String>, activity_ordinal: i32) -> (r: Self)
        ensures
            r.title == title,
            r.body == body,
            r.activity_ordinal == activity_ordinal,
            r.category_tags@ == Map::<i32, CategoryTag>::empty(),
            r.other_tags@ == Seq::<String>::empty(),
    {
        QueryActivityOutput {
            title,
            body,
            category_tags: HashMap::new(),
            other_tags: Vec::new(),
            activity_ordinal,
        }
    }
}

/// The activities of one column, keyed by id.
pub type QueryActivitiesOutput = HashMap<i32, QueryActivityOutput>;

/// One column of the activity query, with its activities.
pub struct QueryColumnOutput {
    pub name: Option<String>,
    pub column_ordinal: Option<i32>,
    pub activities: QueryActivitiesOutput,
}

impl QueryColumnOutput {
    /// A column entry that carries no activities yet.
    pub fn new_empty(name: Option<String>, column_ordinal: Option<i32>) -> (r: Self)
        ensures
            r.name == name,
            r.column_ordinal == column_ordinal,
            r.activities@ == Map::<i32, QueryActivityOutput>::empty(),
    {
        QueryColumnOutput { name, column_ordinal, activities: HashMap::new() }
    }
}

/// Everything the activity query returns: the columns and the stash.
pub struct QueryActivitiesWithColumnsOutput {
    pub columns: HashMap<i32, QueryColumnOutput>,
    pub other_activities: QueryColumnOutput,
}

/// Request to rewrite an activity's name and body.
pub struct UpdateActivityContentInput {
    pub id: i32,
    pub name: String,
    pub body: Option<String>,
}

/// Request to move an activity to a column (or the stash, with `None`) at a
/// position.
pub struct UpdateActivityColumnInput {
    pub id: i32,
    pub column_id: Option<i32>,
    pub new_ord: i32,
}

/// Request to attach the tag named `tag_name` of the given category to an
/// activity.
pub struct AddTagToActivityInput {
    pub id: i32,
    pub category_id: Option<i32>,
    pub tag_name: String,
}

/// Request to detach the tag named `tag_name` of the given category from an
/// activity.
pub struct RemoveTagFromActivityInput {
    pub id: i32,
    pub category_id: Option<i32>,
    pub tag_name: String,
}

/// One tag of the category query.
pub struct TagData {
    pub id: i32,
    pub tag: String,
    pub ordinal: i32,
    pub color: String,
}

/// One category of the category query, with its tags.
pub struct SelectCategoryOutput {
    pub name: Option<String>,
    pub ordinal: Option<i32>,
    pub tags: Vec<TagData>,
}

impl SelectCategoryOutput {
    /// A category entry that carries no tags yet.
    pub fn new_empty(name: Option<String>, ordinal: Option<i32>) -> (r: Self)
        ensures
            r.name == name,
            r.ordinal == ordinal,
            r.tags@ == Seq::<TagData>::empty(),
    {
        SelectCategoryOutput { name, ordinal, tags: Vec::new() }
    }
}

/// Everything the category query returns: the categories and the
/// uncategorized bucket.
pub struct SelectCategoryTagsOutput {
    pub category_tags: HashMap<i32, SelectCategoryOutput>,
    pub other_tags: SelectCategoryOutput,
}

/// Request to rename a category.
pub struct UpdateCategoryNameInput {
    pub id: i32,
    pub name: String,
}

/// Request to move a category to a new position.
pub struct UpdateCategoryOrdinalInput {
    pub category_id: i32,
    pub new_ord: i32,
}

/// Request to rename a column.
pub struct RenameColumnInput {
    pub id: i32,
    pub new_name: String,
}

/// Request to move a column to a new position.
pub struct UpdateColumnOrdinalInput {
    pub column_id: i32,
    pub new_ord: i32,
}

/// Request to create a tag in a category (or uncategorized, with `None`).
pub struct CreateTagInput {
    pub tag_name: String,
    pub category_id: Option<i32>,
}

/// The created tag, with its generated color rendered as text.
pub struct CreateTagOutput {
    pub id: i32,
    pub tag_name: String,
    pub category_id: Option<i32>,
    pub color: String,
    pub ordinal: i32,
}

/// Request to move a tag into a category (or uncategorized, with `None`).
pub struct AttachTagToCategoryInput {
    pub category_tag_id: i32,
    pub category_id: Option<i32>,
}

/// Request to rename a tag.
pub struct UpdateTagNameInput {
    pub category_tag_id: i32,
    pub tag_name: String,
}

/// Request to move a tag to a new position inside its category.
pub struct UpdateTagOrdinalInput {
    pub category_tag_id: i32,
    pub new_ord: i32,
}

/// Request to recolor a tag; the color is a hex numeral.
pub struct UpdateTagColorInput {
    pub category_tag_id: i32,
    pub color: String,
}

/// One column of the startup fetch.
pub struct ColumnOutput {
    pub name: String,
    pub ordinal: i32,
}

/// One category tag of the startup fetch.
pub struct CategoryTagOutput {
    pub name: String,
    pub color: String,
    pub category_id: i32,
    pub ordinal: i32,
}

/// One uncategorized tag of the startup fetch.
pub struct OtherTagOutput {
    pub name: String,
    pub color: String,
    pub ordinal: i32,
}

/// One category of the startup fetch, with the ids of its tags.
pub struct CategoryOutput {
    pub name: String,
    pub ordinal: i32,
    pub tags: Vec<i32>,
}

/// One stash activity of the startup fetch, with the ids of its tags.
pub struct ActivityOutput {
    pub name: String,
    pub body: Option<String>,
    pub ordinal: i32,
    pub tags: Vec<i32>,
}

/// One column activity of the startup fetch.
pub struct ColumnActivityOutput {
    pub name: String,
    pub body: Option<String>,
    pub ordinal: i32,
    pub tags: Vec<i32>,
    pub column_id: i32,
}

/// Everything the startup fetch returns, keyed by id.
pub struct FetchOutput {
    pub columns: HashMap<i32, ColumnOutput>,
    pub activities: HashMap<i32, ColumnActivityOutput>,
    pub other_activities: HashMap<i32, ActivityOutput>,
    pub categories: HashMap<i32, CategoryOutput>,
    pub category_tags: HashMap<i32, CategoryTagOutput>,
    pub other_tags: HashMap<i32, OtherTagOutput>,
}

} // verus!
