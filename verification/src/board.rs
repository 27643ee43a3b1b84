//! The three domain instantiations of the ordinal manager.
//!
//! A [`Board`] keeps the columns of the board (one global partition), the
//! activities (partitioned by column, with `None` as the stash), the
//! categories (one global partition), the tags (partitioned by category,
//! with `None` as the uncategorized bucket), and the links between
//! activities and tags.  Every operation preserves the density invariant of
//! each of the four ordinal stores; deleting a column or a category re-bases
//! its contents into the fallback partition before the group itself leaves
//! its own ordinal sequence.

use vstd::prelude::*;

use std::collections::HashMap;

use crate::commands::ActivityOutput;
use crate::commands::AddTagToActivityInput;
use crate::commands::AttachTagToCategoryInput;
use crate::commands::CategoryOutput;
use crate::commands::CategoryTagOutput;
use crate::commands::ColumnActivityOutput;
use crate::commands::ColumnOutput;
use crate::commands::FetchOutput;
use crate::commands::OtherTagOutput;
use crate::commands::CreateActivityInput;
use crate::commands::CreateTagInput;
use crate::commands::SelectCategoryOutput;
use crate::commands::SelectCategoryTagsOutput;
use crate::commands::TagData;
use crate::commands::CategoryTag;
use crate::commands::QueryActivitiesWithColumnsOutput;
use crate::commands::QueryActivityOutput;
use crate::commands::QueryColumnOutput;
use crate::commands::RemoveTagFromActivityInput;
use crate::commands::RenameColumnInput;
use crate::commands::UpdateActivityColumnInput;
use crate::commands::UpdateActivityContentInput;
use crate::commands::UpdateCategoryNameInput;
use crate::commands::UpdateCategoryOrdinalInput;
use crate::commands::UpdateColumnOrdinalInput;
use crate::commands::UpdateTagColorInput;
use crate::commands::UpdateTagNameInput;
use crate::commands::UpdateTagOrdinalInput;
use crate::errors::AppError;
use crate::store::contains_id;
use crate::store::count_in;
use crate::store::delete_post;
use crate::store::insert_post;
use crate::store::lemma_count_le_len;
use crate::store::lemma_count_single_partition;
use crate::store::lemma_slot_at_index;
use crate::store::relocate_post;
use crate::store::rebase_post;
use crate::store::set_payload_post;
use crate::store::slot_of;
use crate::store::valid_target;
use crate::store::OrdinalStore;
use crate::store::Slot;

verus! {

broadcast use vstd::std_specs::hash::group_hash_axioms;

/// Payload of a column: what the board shows besides its position.
pub struct ColumnData {
    pub name: String,
}

/// Payload of an activity.
pub struct ActivityData {
    pub name: String,
    pub body: Option<String>,
}

/// Payload of a category.
pub struct CategoryData {
    pub name: String,
}

/// Payload of a tag: its name and its packed `0xRRGGBB` color.
pub struct TagContent {
    pub tag_name: String,
    pub color: i32,
}

/// One tag attached to one activity.
#[derive(Clone, Copy)]
pub struct ActivityTagLink {
    pub activity_id: i32,
    pub category_tag_id: i32,
}

/// A column row as the command layer sees it.
#[derive(Debug)]
pub struct ColumnModel {
    pub id: i32,
    pub name: String,
    pub ordinal: usize,
}

/// An activity row as the command layer sees it.
#[derive(Debug)]
pub struct ActivityModel {
    pub id: i32,
    pub name: String,
    pub body: Option<String>,
    pub column_id: Option<i32>,
    pub ordinal: usize,
}

/// A category row as the command layer sees it.
#[derive(Debug)]
pub struct CategoryModel {
    pub id: i32,
    pub name: String,
    pub ordinal: usize,
}

/// A tag row as the command layer sees it.
#[derive(Debug)]
pub struct TagModel {
    pub id: i32,
    pub tag_name: String,
    pub category_id: Option<i32>,
    pub color: i32,
    pub ordinal: usize,
}

/// Whether every record of a store sits in the fallback partition — the
/// shape of the two stores (columns, categories) that have one global
/// ordinal sequence.
pub open spec fn single_partition<P>(s: Seq<Slot<P>>) -> bool {
    forall|i: int| 0 <= i < s.len() ==> (#[trigger] s[i]).partition is None
}

/// The whole board state.
pub struct Board {
    columns: OrdinalStore<ColumnData>,
    activities: OrdinalStore<ActivityData>,
    categories: OrdinalStore<CategoryData>,
    tags: OrdinalStore<TagContent>,
    links: Vec<ActivityTagLink>,
}

/// After a move inside the global partition, every record still sits in
/// the fallback partition.
proof fn lemma_single_after_relocate<P>(
    pre: OrdinalStore<P>,
    post: OrdinalStore<P>,
    id: i32,
    new_k: usize,
)
    requires
        pre.wf(),
        single_partition(pre.slots()),
        contains_id(pre.slots(), id),
        relocate_post(pre, post, id, None, new_k),
    ensures
        single_partition(post.slots()),
{
    assert forall|i: int| 0 <= i < post.slots().len() implies (#[trigger] post.slots()[i]).partition
        is None by {
        lemma_slot_at_index(post.slots(), i);
        let x = post.slots()[i].id;
        if x != id {
            let j = crate::store::idx_of(pre.slots(), x);
            assert(pre.slots()[j].partition is None);
        }
    }
}

/// After a delete inside the global partition, every record still sits in
/// the fallback partition.
proof fn lemma_single_after_delete<P>(pre: OrdinalStore<P>, post: OrdinalStore<P>, id: i32)
    requires
        pre.wf(),
        single_partition(pre.slots()),
        contains_id(pre.slots(), id),
        delete_post(pre, post, id),
    ensures
        single_partition(post.slots()),
{
    assert forall|i: int| 0 <= i < post.slots().len() implies (#[trigger] post.slots()[i]).partition
        is None by {
        lemma_slot_at_index(post.slots(), i);
        let x = post.slots()[i].id;
        let j = crate::store::idx_of(pre.slots(), x);
        assert(pre.slots()[j].partition is None);
    }
}

/// A copy of an optional string, equal to the original.
fn clone_opt_string(a: &Option<String>) -> (r: Option<String>)
    ensures
        r == *a,
{
    match a {
        None => None,
        Some(s) => Some(s.clone()),
    }
}

impl Board {
    /// The column store the contracts speak about.
    pub closed spec fn columns(&self) -> OrdinalStore<ColumnData> {
        self.columns
    }

    /// The activity store the contracts speak about.
    pub closed spec fn activities(&self) -> OrdinalStore<ActivityData> {
        self.activities
    }

    /// The category store the contracts speak about.
    pub closed spec fn categories(&self) -> OrdinalStore<CategoryData> {
        self.categories
    }

    /// The tag store the contracts speak about.
    pub closed spec fn tags(&self) -> OrdinalStore<TagContent> {
        self.tags
    }

    /// The activity–tag links the contracts speak about.
    pub closed spec fn links(&self) -> Seq<ActivityTagLink> {
        self.links@
    }

    /// Well-formedness of the whole board: each store keeps the density
    /// invariant, and the two global sequences use only the fallback
    /// partition.
    pub open spec fn wf(&self) -> bool {
        &&& self.columns().wf()
        &&& self.activities().wf()
        &&& self.categories().wf()
        &&& self.tags().wf()
        &&& single_partition(self.columns().slots())
        &&& single_partition(self.categories().slots())
    }

    /// An empty board.
    pub fn new() -> (r: Board)
        ensures
            r.wf(),
            r.columns().slots().len() == 0,
            r.activities().slots().len() == 0,
            r.categories().slots().len() == 0,
            r.tags().slots().len() == 0,
            r.links().len() == 0,
            r.columns().next_id() == 1,
            r.activities().next_id() == 1,
            r.categories().next_id() == 1,
            r.tags().next_id() == 1,
    {
        Board {
            columns: OrdinalStore::new(),
            activities: OrdinalStore::new(),
            categories: OrdinalStore::new(),
            tags: OrdinalStore::new(),
            links: Vec::new(),
        }
    }

    /// Whether every store can still assign a fresh id — the precondition
    /// of the create operations, testable by unverified callers.
    pub fn ids_available(&self) -> (r: bool)
        ensures
            r == (self.columns().next_id() < i32::MAX && self.activities().next_id() < i32::MAX
                && self.categories().next_id() < i32::MAX && self.tags().next_id() < i32::MAX),
    {
        self.columns.has_free_id() && self.activities.has_free_id() && self.categories.has_free_id()
            && self.tags.has_free_id()
    }

    /// How many columns the board holds.
    pub fn get_column_count(&self) -> (n: usize)
        ensures
            n == self.columns().slots().len(),
    {
        self.columns.len()
    }

    /// How many categories the board holds.
    pub fn get_category_count(&self) -> (n: usize)
        ensures
            n == self.categories().slots().len(),
    {
        self.categories.len()
    }

    /// How many activities the given column holds; `None` counts the stash,
    /// and only the stash.
    pub fn get_activity_count_in_column(&self, column_id: Option<i32>) -> (n: usize)
        ensures
            n == count_in(self.activities().slots(), column_id),
    {
        self.activities.count_in_partition(column_id)
    }

    /// How many tags the given category holds; `None` counts the
    /// uncategorized bucket, and only it.
    pub fn get_tag_count_from_category(&self, category_id: Option<i32>) -> (n: usize)
        ensures
            n == count_in(self.tags().slots(), category_id),
    {
        self.tags.count_in_partition(category_id)
    }

    /// Appends a column to the end of the column list.
    pub fn insert_column(&mut self, name: String) -> (r: Result<ColumnModel, AppError>)
        requires
            old(self).wf(),
            old(self).columns().next_id() < i32::MAX,
        ensures
            final(self).wf(),
            final(self).activities() == old(self).activities(),
            final(self).categories() == old(self).categories(),
            final(self).tags() == old(self).tags(),
            final(self).links() == old(self).links(),
            r matches Ok(m) && m.id as int == old(self).columns().next_id() && m.name == name
                && m.ordinal == old(self).columns().slots().len(),
            insert_post(
                old(self).columns(),
                final(self).columns(),
                None,
                old(self).columns().slots().len() as usize,
                (ColumnData { name }),
            ),
    {
        proof {
            lemma_count_single_partition(self.columns().slots());
        }
        let ord = self.columns.len();
        let id = match self.columns.insert(None, ord, ColumnData { name: name.clone() }) {
            Ok(id) => id,
            Err(e) => {
                return Err(e);
            },
        };
        proof {
            let pre = old(self).columns().slots();
            let post = self.columns().slots();
            assert forall|i: int| 0 <= i < post.len() implies (#[trigger] post[i]).partition
                is None by {
                if i < post.len() - 1 {
                    assert(post[i] == crate::store::shifted_up(pre[i], None, ord));
                }
            }
        }
        Ok(ColumnModel { id, name, ordinal: ord })
    }

    /// Renames a column; its position and every other column are untouched.
    pub fn update_column_name(&mut self, data: RenameColumnInput) -> (r: Result<(), AppError>)
        requires
            old(self).wf(),
        ensures
            final(self).wf(),
            final(self).activities() == old(self).activities(),
            final(self).categories() == old(self).categories(),
            final(self).tags() == old(self).tags(),
            final(self).links() == old(self).links(),
            !contains_id(old(self).columns().slots(), data.id) ==> r == Err::<(), AppError>(
                AppError::RowNotFound,
            ) && *final(self) == *old(self),
            contains_id(old(self).columns().slots(), data.id) ==> r == Ok::<(), AppError>(())
                && set_payload_post(
                old(self).columns(),
                final(self).columns(),
                data.id,
                (ColumnData { name: data.new_name }),
            ),
    {
        let r = self.columns.set_payload(data.id, ColumnData { name: data.new_name });
        match r {
            Ok(()) => {
                proof {
                    let pre = old(self).columns().slots();
                    let post = self.columns().slots();
                    assert forall|i: int| 0 <= i < post.len() implies (#[trigger] post[i]).partition
                        is None by {
                        assert(pre[i].partition is None);
                    }
                }
                Ok(())
            },
            Err(e) => Err(e),
        }
    }

    /// Moves a column to a new position in the column list.
    pub fn update_column_ordinal(&mut self, data: UpdateColumnOrdinalInput) -> (r: Result<
        (),
        AppError,
    >)
        requires
            old(self).wf(),
        ensures
            final(self).wf(),
            final(self).activities() == old(self).activities(),
            final(self).categories() == old(self).categories(),
            final(self).tags() == old(self).tags(),
            final(self).links() == old(self).links(),
            !contains_id(old(self).columns().slots(), data.column_id) ==> r == Err::<(), AppError>(
                AppError::RowNotFound,
            ) && *final(self) == *old(self),
            contains_id(old(self).columns().slots(), data.column_id) && (data.new_ord < 0
                || !valid_target(
                old(self).columns().slots(),
                data.column_id,
                None,
                data.new_ord as usize,
            )) ==> r == Err::<(), AppError>(AppError::InvalidOrdinal) && *final(self) == *old(self),
            contains_id(old(self).columns().slots(), data.column_id) && data.new_ord >= 0
                && valid_target(
                old(self).columns().slots(),
                data.column_id,
                None,
                data.new_ord as usize,
            ) ==> r == Ok::<(), AppError>(()) && relocate_post(
                old(self).columns(),
                final(self).columns(),
                data.column_id,
                None,
                data.new_ord as usize,
            ),
    {
        match self.columns.get_ordinal(data.column_id) {
            Err(e) => {
                return Err(e);
            },
            Ok(_) => (),
        }
        if data.new_ord < 0 {
            return Err(AppError::InvalidOrdinal);
        }
        let r = self.columns.relocate(data.column_id, None, data.new_ord as usize);
        match r {
            Ok(()) => {
                proof {
                    lemma_single_after_relocate(
                        old(self).columns(),
                        self.columns(),
                        data.column_id,
                        data.new_ord as usize,
                    );
                }
                Ok(())
            },
            Err(e) => Err(e),
        }
    }

    /// Deletes a column.  Its activities do not vanish: they move to the
    /// stash, appended after the stash's current contents in their old
    /// order; then the column leaves the column list and the columns behind
    /// it close the gap.
    pub fn delete_column_by_id(&mut self, id: i32) -> (r: Result<(), AppError>)
        requires
            old(self).wf(),
        ensures
            final(self).wf(),
            final(self).categories() == old(self).categories(),
            final(self).tags() == old(self).tags(),
            final(self).links() == old(self).links(),
            !contains_id(old(self).columns().slots(), id) ==> r == Err::<(), AppError>(
                AppError::RowNotFound,
            ) && *final(self) == *old(self),
            contains_id(old(self).columns().slots(), id) ==> r == Ok::<(), AppError>(())
                && rebase_post(old(self).activities(), final(self).activities(), id) && delete_post(
                old(self).columns(),
                final(self).columns(),
                id,
            ),
    {
        match self.columns.get_ordinal(id) {
            Err(e) => {
                return Err(e);
            },
            Ok(_) => (),
        }
        self.activities.rebase_into_fallback(id);
        let r = self.columns.delete(id);
        proof {
            lemma_single_after_delete(old(self).columns(), self.columns(), id);
        }
        r
    }

    /// Creates an activity at the given position of the given column
    /// (`None` for the stash): every activity of that column at or above
    /// `ordinal` moves up by one.  A position beyond the column's count is
    /// rejected with `InvalidOrdinal`.
    pub fn insert_activity(
        &mut self,
        column_id: Option<i32>,
        ordinal: usize,
        name: String,
        body: Option<String>,
    ) -> (r: Result<ActivityModel, AppError>)
        requires
            old(self).wf(),
            old(self).activities().next_id() < i32::MAX,
        ensures
            final(self).wf(),
            final(self).columns() == old(self).columns(),
            final(self).categories() == old(self).categories(),
            final(self).tags() == old(self).tags(),
            final(self).links() == old(self).links(),
            ordinal > count_in(old(self).activities().slots(), column_id) ==> (r matches Err(e)
                && e == AppError::InvalidOrdinal) && *final(self) == *old(self),
            ordinal <= count_in(old(self).activities().slots(), column_id) ==> (r matches Ok(m)
                && m.id as int == old(self).activities().next_id() && m.name == name && m.body
                == body && m.column_id == column_id && m.ordinal == ordinal) && insert_post(
                old(self).activities(),
                final(self).activities(),
                column_id,
                ordinal,
                (ActivityData { name, body }),
            ),
    {
        let payload = ActivityData { name: name.clone(), body: clone_opt_string(&body) };
        match self.activities.insert(column_id, ordinal, payload) {
            Ok(id) => Ok(ActivityModel { id, name, body, column_id, ordinal }),
            Err(e) => Err(e),
        }
    }

    /// Creates an activity at the top of a column, as the board's create
    /// command does: every activity already in the column has its ordinal
    /// raised by one.
    pub fn create_activity(&mut self, data: CreateActivityInput) -> (r: Result<
        ActivityModel,
        AppError,
    >)
        requires
            old(self).wf(),
            old(self).activities().next_id() < i32::MAX,
        ensures
            final(self).wf(),
            final(self).columns() == old(self).columns(),
            final(self).categories() == old(self).categories(),
            final(self).tags() == old(self).tags(),
            final(self).links() == old(self).links(),
            r matches Ok(m) && m.id as int == old(self).activities().next_id() && m.name
                == data.name && m.body == data.body && m.column_id == Some(data.column_id)
                && m.ordinal == 0,
            insert_post(
                old(self).activities(),
                final(self).activities(),
                Some(data.column_id),
                0,
                (ActivityData { name: data.name, body: data.body }),
            ),
    {
        self.insert_activity(Some(data.column_id), 0, data.name, data.body)
    }

    /// Deletes an activity and closes the gap it leaves in its column.
    pub fn delete_activity_by_id(&mut self, id: i32) -> (r: Result<(), AppError>)
        requires
            old(self).wf(),
        ensures
            final(self).wf(),
            final(self).columns() == old(self).columns(),
            final(self).categories() == old(self).categories(),
            final(self).tags() == old(self).tags(),
            final(self).links() == old(self).links(),
            !contains_id(old(self).activities().slots(), id) ==> r == Err::<(), AppError>(
                AppError::RowNotFound,
            ) && *final(self) == *old(self),
            contains_id(old(self).activities().slots(), id) ==> r == Ok::<(), AppError>(())
                && delete_post(old(self).activities(), final(self).activities(), id),
    {
        self.activities.delete(id)
    }

    /// Rewrites an activity's name and body; its position and every other
    /// activity are untouched.
    pub fn update_activity_content_by_id(&mut self, data: UpdateActivityContentInput) -> (r: Result<
        (),
        AppError,
    >)
        requires
            old(self).wf(),
        ensures
            final(self).wf(),
            final(self).columns() == old(self).columns(),
            final(self).categories() == old(self).categories(),
            final(self).tags() == old(self).tags(),
            final(self).links() == old(self).links(),
            !contains_id(old(self).activities().slots(), data.id) ==> r == Err::<(), AppError>(
                AppError::RowNotFound,
            ) && *final(self) == *old(self),
            contains_id(old(self).activities().slots(), data.id) ==> r == Ok::<(), AppError>(())
                && set_payload_post(
                old(self).activities(),
                final(self).activities(),
                data.id,
                (ActivityData { name: data.name, body: data.body }),
            ),
    {
        self.activities.set_payload(data.id, ActivityData { name: data.name, body: data.body })
    }

    /// Moves an activity to a column (or the stash) at a position: the gap
    /// in the old column closes, a slot in the new column opens, and the
    /// activity is rewritten to the new position.
    pub fn update_activity_column_by_id(&mut self, data: UpdateActivityColumnInput) -> (r: Result<
        (),
        AppError,
    >)
        requires
            old(self).wf(),
        ensures
            final(self).wf(),
            final(self).columns() == old(self).columns(),
            final(self).categories() == old(self).categories(),
            final(self).tags() == old(self).tags(),
            final(self).links() == old(self).links(),
            !contains_id(old(self).activities().slots(), data.id) ==> r == Err::<(), AppError>(
                AppError::RowNotFound,
            ) && *final(self) == *old(self),
            contains_id(old(self).activities().slots(), data.id) && (data.new_ord < 0
                || !valid_target(
                old(self).activities().slots(),
                data.id,
                data.column_id,
                data.new_ord as usize,
            )) ==> r == Err::<(), AppError>(AppError::InvalidOrdinal) && *final(self) == *old(self),
            contains_id(old(self).activities().slots(), data.id) && data.new_ord >= 0
                && valid_target(
                old(self).activities().slots(),
                data.id,
                data.column_id,
                data.new_ord as usize,
            ) ==> r == Ok::<(), AppError>(()) && relocate_post(
                old(self).activities(),
                final(self).activities(),
                data.id,
                data.column_id,
                data.new_ord as usize,
            ),
    {
        match self.activities.get_ordinal(data.id) {
            Err(e) => {
                return Err(e);
            },
            Ok(_) => (),
        }
        if data.new_ord < 0 {
            return Err(AppError::InvalidOrdinal);
        }
        self.activities.relocate(data.id, data.column_id, data.new_ord as usize)
    }

    /// The activity with the given id, if any.
    pub fn find_activity_by_id(&self, id: i32) -> (r: Option<ActivityModel>)
        requires
            self.wf(),
        ensures
            contains_id(self.activities().slots(), id) ==> (r matches Some(m) && {
                let sl = slot_of(self.activities().slots(), id);
                &&& m.id == id
                &&& m.name == sl.payload.name
                &&& m.body == sl.payload.body
                &&& m.column_id == sl.partition
                &&& m.ordinal == sl.ordinal
            }),
            !contains_id(self.activities().slots(), id) ==> r is None,
    {
        match self.activities.find(id) {
            Some(sl) => Some(
                ActivityModel {
                    id: sl.id,
                    name: sl.payload.name.clone(),
                    body: clone_opt_string(&sl.payload.body),
                    column_id: sl.partition,
                    ordinal: sl.ordinal,
                },
            ),
            None => None,
        }
    }

    /// The ordinal of an activity; `RowNotFound` for an unknown id.
    pub fn activity_ordinal(&self, id: i32) -> (r: Result<usize, AppError>)
        requires
            self.wf(),
        ensures
            contains_id(self.activities().slots(), id) ==> r == Ok::<usize, AppError>(
                slot_of(self.activities().slots(), id).ordinal,
            ),
            !contains_id(self.activities().slots(), id) ==> r == Err::<usize, AppError>(
                AppError::RowNotFound,
            ),
    {
        self.activities.get_ordinal(id)
    }

    /// The column of an activity (`None` for the stash); `RowNotFound` for
    /// an unknown id.
    pub fn activity_column(&self, id: i32) -> (r: Result<Option<i32>, AppError>)
        requires
            self.wf(),
        ensures
            contains_id(self.activities().slots(), id) ==> r == Ok::<Option<i32>, AppError>(
                slot_of(self.activities().slots(), id).partition,
            ),
            !contains_id(self.activities().slots(), id) ==> r == Err::<Option<i32>, AppError>(
                AppError::RowNotFound,
            ),
    {
        self.activities.get_partition(id)
    }

    /// The column with the given id, if any.
    pub fn find_column_by_id(&self, id: i32) -> (r: Option<ColumnModel>)
        requires
            self.wf(),
        ensures
            contains_id(self.columns().slots(), id) ==> (r matches Some(m) && {
                let sl = slot_of(self.columns().slots(), id);
                &&& m.id == id
                &&& m.name == sl.payload.name
                &&& m.ordinal == sl.ordinal
            }),
            !contains_id(self.columns().slots(), id) ==> r is None,
    {
        match self.columns.find(id) {
            Some(sl) => Some(
                ColumnModel { id: sl.id, name: sl.payload.name.clone(), ordinal: sl.ordinal },
            ),
            None => None,
        }
    }

    /// The category with the given id, if any.
    pub fn find_category_by_id(&self, id: i32) -> (r: Option<CategoryModel>)
        requires
            self.wf(),
        ensures
            contains_id(self.categories().slots(), id) ==> (r matches Some(m) && {
                let sl = slot_of(self.categories().slots(), id);
                &&& m.id == id
                &&& m.name == sl.payload.name
                &&& m.ordinal == sl.ordinal
            }),
            !contains_id(self.categories().slots(), id) ==> r is None,
    {
        match self.categories.find(id) {
            Some(sl) => Some(
                CategoryModel { id: sl.id, name: sl.payload.name.clone(), ordinal: sl.ordinal },
            ),
            None => None,
        }
    }

    /// The tag with the given id, if any.
    pub fn find_tag_by_id(&self, id: i32) -> (r: Option<TagModel>)
        requires
            self.wf(),
        ensures
            contains_id(self.tags().slots(), id) ==> (r matches Some(m) && {
                let sl = slot_of(self.tags().slots(), id);
                &&& m.id == id
                &&& m.tag_name == sl.payload.tag_name
                &&& m.category_id == sl.partition
                &&& m.color == sl.payload.color
                &&& m.ordinal == sl.ordinal
            }),
            !contains_id(self.tags().slots(), id) ==> r is None,
    {
        match self.tags.find(id) {
            Some(sl) => Some(
                TagModel {
                    id: sl.id,
                    tag_name: sl.payload.tag_name.clone(),
                    category_id: sl.partition,
                    color: sl.payload.color,
                    ordinal: sl.ordinal,
                },
            ),
            None => None,
        }
    }

    /// The ordinal of a column; `RowNotFound` for an unknown id.
    pub fn column_ordinal(&self, id: i32) -> (r: Result<usize, AppError>)
        requires
            self.wf(),
        ensures
            contains_id(self.columns().slots(), id) ==> r == Ok::<usize, AppError>(
                slot_of(self.columns().slots(), id).ordinal,
            ),
            !contains_id(self.columns().slots(), id) ==> r == Err::<usize, AppError>(
                AppError::RowNotFound,
            ),
    {
        self.columns.get_ordinal(id)
    }

    /// The ordinal of a category; `RowNotFound` for an unknown id.
    pub fn category_ordinal(&self, id: i32) -> (r: Result<usize, AppError>)
        requires
            self.wf(),
        ensures
            contains_id(self.categories().slots(), id) ==> r == Ok::<usize, AppError>(
                slot_of(self.categories().slots(), id).ordinal,
            ),
            !contains_id(self.categories().slots(), id) ==> r == Err::<usize, AppError>(
                AppError::RowNotFound,
            ),
    {
        self.categories.get_ordinal(id)
    }

    /// Appends a category to the end of the category list.
    pub fn insert_category(&mut self, name: String) -> (r: Result<CategoryModel, AppError>)
        requires
            old(self).wf(),
            old(self).categories().next_id() < i32::MAX,
        ensures
            final(self).wf(),
            final(self).columns() == old(self).columns(),
            final(self).activities() == old(self).activities(),
            final(self).tags() == old(self).tags(),
            final(self).links() == old(self).links(),
            r matches Ok(m) && m.id as int == old(self).categories().next_id() && m.name == name
                && m.ordinal == old(self).categories().slots().len(),
            insert_post(
                old(self).categories(),
                final(self).categories(),
                None,
                old(self).categories().slots().len() as usize,
                (CategoryData { name }),
            ),
    {
        proof {
            lemma_count_single_partition(self.categories().slots());
        }
        let ord = self.categories.len();
        let id = match self.categories.insert(None, ord, CategoryData { name: name.clone() }) {
            Ok(id) => id,
            Err(e) => {
                return Err(e);
            },
        };
        proof {
            let pre = old(self).categories().slots();
            let post = self.categories().slots();
            assert forall|i: int| 0 <= i < post.len() implies (#[trigger] post[i]).partition
                is None by {
                if i < post.len() - 1 {
                    assert(post[i] == crate::store::shifted_up(pre[i], None, ord));
                }
            }
        }
        Ok(CategoryModel { id, name, ordinal: ord })
    }

    /// Renames a category; its position and every other category are
    /// untouched.
    pub fn update_category_name(&mut self, data: UpdateCategoryNameInput) -> (r: Result<
        (),
        AppError,
    >)
        requires
            old(self).wf(),
        ensures
            final(self).wf(),
            final(self).columns() == old(self).columns(),
            final(self).activities() == old(self).activities(),
            final(self).tags() == old(self).tags(),
            final(self).links() == old(self).links(),
            !contains_id(old(self).categories().slots(), data.id) ==> r == Err::<(), AppError>(
                AppError::RowNotFound,
            ) && *final(self) == *old(self),
            contains_id(old(self).categories().slots(), data.id) ==> r == Ok::<(), AppError>(())
                && set_payload_post(
                old(self).categories(),
                final(self).categories(),
                data.id,
                (CategoryData { name: data.name }),
            ),
    {
        let r = self.categories.set_payload(data.id, CategoryData { name: data.name });
        match r {
            Ok(()) => {
                proof {
                    let pre = old(self).categories().slots();
                    let post = self.categories().slots();
                    assert forall|i: int| 0 <= i < post.len() implies (#[trigger] post[i]).partition
                        is None by {
                        assert(pre[i].partition is None);
                    }
                }
                Ok(())
            },
            Err(e) => Err(e),
        }
    }

    /// Moves a category to a new position in the category list.
    pub fn update_category_ordinal(&mut self, data: UpdateCategoryOrdinalInput) -> (r: Result<
        (),
        AppError,
    >)
        requires
            old(self).wf(),
        ensures
            final(self).wf(),
            final(self).columns() == old(self).columns(),
            final(self).activities() == old(self).activities(),
            final(self).tags() == old(self).tags(),
            final(self).links() == old(self).links(),
            !contains_id(old(self).categories().slots(), data.category_id) ==> r == Err::<
                (),
                AppError,
            >(AppError::RowNotFound) && *final(self) == *old(self),
            contains_id(old(self).categories().slots(), data.category_id) && (data.new_ord < 0
                || !valid_target(
                old(self).categories().slots(),
                data.category_id,
                None,
                data.new_ord as usize,
            )) ==> r == Err::<(), AppError>(AppError::InvalidOrdinal) && *final(self) == *old(self),
            contains_id(old(self).categories().slots(), data.category_id) && data.new_ord >= 0
                && valid_target(
                old(self).categories().slots(),
                data.category_id,
                None,
                data.new_ord as usize,
            ) ==> r == Ok::<(), AppError>(()) && relocate_post(
                old(self).categories(),
                final(self).categories(),
                data.category_id,
                None,
                data.new_ord as usize,
            ),
    {
        match self.categories.get_ordinal(data.category_id) {
            Err(e) => {
                return Err(e);
            },
            Ok(_) => (),
        }
        if data.new_ord < 0 {
            return Err(AppError::InvalidOrdinal);
        }
        let r = self.categories.relocate(data.category_id, None, data.new_ord as usize);
        match r {
            Ok(()) => {
                proof {
                    lemma_single_after_relocate(
                        old(self).categories(),
                        self.categories(),
                        data.category_id,
                        data.new_ord as usize,
                    );
                }
                Ok(())
            },
            Err(e) => Err(e),
        }
    }

    /// Deletes a category.  Its tags do not vanish: they move to the
    /// uncategorized bucket, appended after its current contents in their
    /// old order; then the category leaves the category list and the
    /// categories behind it close the gap.
    pub fn delete_category_by_id(&mut self, id: i32) -> (r: Result<(), AppError>)
        requires
            old(self).wf(),
        ensures
            final(self).wf(),
            final(self).columns() == old(self).columns(),
            final(self).activities() == old(self).activities(),
            final(self).links() == old(self).links(),
            !contains_id(old(self).categories().slots(), id) ==> r == Err::<(), AppError>(
                AppError::RowNotFound,
            ) && *final(self) == *old(self),
            contains_id(old(self).categories().slots(), id) ==> r == Ok::<(), AppError>(())
                && rebase_post(old(self).tags(), final(self).tags(), id) && delete_post(
                old(self).categories(),
                final(self).categories(),
                id,
            ),
    {
        match self.categories.get_ordinal(id) {
            Err(e) => {
                return Err(e);
            },
            Ok(_) => (),
        }
        self.tags.rebase_into_fallback(id);
        let r = self.categories.delete(id);
        proof {
            lemma_single_after_delete(old(self).categories(), self.categories(), id);
        }
        r
    }
    /// Creates a tag at the end of a category (or of the uncategorized
    /// bucket), colored by hashing its name.
    pub fn create_tag(&mut self, data: CreateTagInput) -> (r: Result<TagModel, AppError>)
        requires
            old(self).wf(),
            old(self).tags().next_id() < i32::MAX,
        ensures
            final(self).wf(),
            final(self).columns() == old(self).columns(),
            final(self).activities() == old(self).activities(),
            final(self).categories() == old(self).categories(),
            final(self).links() == old(self).links(),
            r matches Ok(m) && m.id as int == old(self).tags().next_id() && m.tag_name
                == data.tag_name && m.category_id == data.category_id && m.color as int
                == crate::coloring::string_color(data.tag_name@) && m.ordinal == count_in(
                old(self).tags().slots(),
                data.category_id,
            ) && insert_post(
                old(self).tags(),
                final(self).tags(),
                data.category_id,
                m.ordinal,
                (TagContent { tag_name: data.tag_name, color: m.color }),
            ),
    {
        let color = crate::coloring::string_to_color(data.tag_name.as_str());
        let ord = self.tags.count_in_partition(data.category_id);
        let payload = TagContent { tag_name: data.tag_name.clone(), color };
        match self.tags.insert(data.category_id, ord, payload) {
            Ok(id) => Ok(
                TagModel {
                    id,
                    tag_name: data.tag_name,
                    category_id: data.category_id,
                    color,
                    ordinal: ord,
                },
            ),
            Err(e) => Err(e),
        }
    }

    /// Renames a tag; its position, color and every other tag are
    /// untouched.
    pub fn update_tag_name(&mut self, data: UpdateTagNameInput) -> (r: Result<(), AppError>)
        requires
            old(self).wf(),
        ensures
            final(self).wf(),
            final(self).columns() == old(self).columns(),
            final(self).activities() == old(self).activities(),
            final(self).categories() == old(self).categories(),
            final(self).links() == old(self).links(),
            !contains_id(old(self).tags().slots(), data.category_tag_id) ==> r == Err::<
                (),
                AppError,
            >(AppError::RowNotFound) && *final(self) == *old(self),
            contains_id(old(self).tags().slots(), data.category_tag_id) ==> r == Ok::<(), AppError>(
                (),
            ) && set_payload_post(
                old(self).tags(),
                final(self).tags(),
                data.category_tag_id,
                (TagContent {
                    tag_name: data.tag_name,
                    color: slot_of(old(self).tags().slots(), data.category_tag_id).payload.color,
                }),
            ),
    {
        let color = match self.tags.get_payload(data.category_tag_id) {
            Err(e) => {
                return Err(e);
            },
            Ok(p) => p.color,
        };
        self.tags.set_payload(data.category_tag_id, TagContent { tag_name: data.tag_name, color })
    }

    /// Recolors a tag from a hex numeral; a numeral that does not parse as
    /// a 32-bit value is rejected with `InvalidColor`.
    pub fn update_tag_color(&mut self, data: UpdateTagColorInput) -> (r: Result<(), AppError>)
        requires
            old(self).wf(),
        ensures
            final(self).wf(),
            final(self).columns() == old(self).columns(),
            final(self).activities() == old(self).activities(),
            final(self).categories() == old(self).categories(),
            final(self).links() == old(self).links(),
            !contains_id(old(self).tags().slots(), data.category_tag_id) ==> r == Err::<
                (),
                AppError,
            >(AppError::RowNotFound) && *final(self) == *old(self),
            contains_id(old(self).tags().slots(), data.category_tag_id) && !(
            crate::coloring::parses_as_hex(data.color@) && i32::MIN
                <= crate::coloring::hex_signed_value(data.color@) <= i32::MAX) ==> r == Err::<
                (),
                AppError,
            >(AppError::InvalidColor) && *final(self) == *old(self),
            contains_id(old(self).tags().slots(), data.category_tag_id) && (
            crate::coloring::parses_as_hex(data.color@) && i32::MIN
                <= crate::coloring::hex_signed_value(data.color@) <= i32::MAX) ==> r == Ok::<
                (),
                AppError,
            >(()) && set_payload_post(
                old(self).tags(),
                final(self).tags(),
                data.category_tag_id,
                (TagContent {
                    tag_name: slot_of(
                        old(self).tags().slots(),
                        data.category_tag_id,
                    ).payload.tag_name,
                    color: crate::coloring::hex_signed_value(data.color@) as i32,
                }),
            ),
    {
        let tag_name = match self.tags.get_payload(data.category_tag_id) {
            Err(e) => {
                return Err(e);
            },
            Ok(p) => p.tag_name.clone(),
        };
        let color = match crate::coloring::rgb_string_to_int(data.color.as_str()) {
            Err(e) => {
                return Err(e);
            },
            Ok(c) => c,
        };
        self.tags.set_payload(data.category_tag_id, TagContent { tag_name, color })
    }

    /// Moves a tag to a new position inside its own category.
    pub fn update_tag_ordinal(&mut self, data: UpdateTagOrdinalInput) -> (r: Result<(), AppError>)
        requires
            old(self).wf(),
        ensures
            final(self).wf(),
            final(self).columns() == old(self).columns(),
            final(self).activities() == old(self).activities(),
            final(self).categories() == old(self).categories(),
            final(self).links() == old(self).links(),
            !contains_id(old(self).tags().slots(), data.category_tag_id) ==> r == Err::<
                (),
                AppError,
            >(AppError::RowNotFound) && *final(self) == *old(self),
            contains_id(old(self).tags().slots(), data.category_tag_id) && (data.new_ord < 0
                || !valid_target(
                old(self).tags().slots(),
                data.category_tag_id,
                slot_of(old(self).tags().slots(), data.category_tag_id).partition,
                data.new_ord as usize,
            )) ==> r == Err::<(), AppError>(AppError::InvalidOrdinal) && *final(self) == *old(self),
            contains_id(old(self).tags().slots(), data.category_tag_id) && data.new_ord >= 0
                && valid_target(
                old(self).tags().slots(),
                data.category_tag_id,
                slot_of(old(self).tags().slots(), data.category_tag_id).partition,
                data.new_ord as usize,
            ) ==> r == Ok::<(), AppError>(()) && relocate_post(
                old(self).tags(),
                final(self).tags(),
                data.category_tag_id,
                slot_of(old(self).tags().slots(), data.category_tag_id).partition,
                data.new_ord as usize,
            ),
    {
        let cur = match self.tags.get_partition(data.category_tag_id) {
            Err(e) => {
                return Err(e);
            },
            Ok(p) => p,
        };
        if data.new_ord < 0 {
            return Err(AppError::InvalidOrdinal);
        }
        self.tags.relocate(data.category_tag_id, cur, data.new_ord as usize)
    }

    /// Moves a tag into a category (or the uncategorized bucket), appended
    /// at the end of its new home; attaching a tag to the category it is
    /// already in moves it to that category's last position.
    pub fn update_category_tag(&mut self, data: AttachTagToCategoryInput) -> (r: Result<
        (),
        AppError,
    >)
        requires
            old(self).wf(),
        ensures
            final(self).wf(),
            final(self).columns() == old(self).columns(),
            final(self).activities() == old(self).activities(),
            final(self).categories() == old(self).categories(),
            final(self).links() == old(self).links(),
            !contains_id(old(self).tags().slots(), data.category_tag_id) ==> r == Err::<
                (),
                AppError,
            >(AppError::RowNotFound) && *final(self) == *old(self),
            contains_id(old(self).tags().slots(), data.category_tag_id) ==> r == Ok::<(), AppError>(
                (),
            ) && relocate_post(
                old(self).tags(),
                final(self).tags(),
                data.category_tag_id,
                data.category_id,
                (if slot_of(old(self).tags().slots(), data.category_tag_id).partition
                    == data.category_id {
                    (count_in(old(self).tags().slots(), data.category_id) - 1) as usize
                } else {
                    count_in(old(self).tags().slots(), data.category_id) as usize
                }),
            ),
    {
        let cur = match self.tags.get_partition(data.category_tag_id) {
            Err(e) => {
                return Err(e);
            },
            Ok(p) => p,
        };
        let cnt = self.tags.count_in_partition(data.category_id);
        let target: usize = if crate::store::partition_eq(cur, data.category_id) {
            proof {
                let s = self.tags().slots();
                let i = crate::store::idx_of(s, data.category_tag_id);
                assert(s[i].ordinal < count_in(s, s[i].partition));
            }
            cnt - 1
        } else {
            cnt
        };
        self.tags.relocate(data.category_tag_id, data.category_id, target)
    }

    /// Deletes a tag and closes the gap it leaves in its category.
    pub fn delete_tag_by_id(&mut self, id: i32) -> (r: Result<(), AppError>)
        requires
            old(self).wf(),
        ensures
            final(self).wf(),
            final(self).columns() == old(self).columns(),
            final(self).activities() == old(self).activities(),
            final(self).categories() == old(self).categories(),
            final(self).links() == old(self).links(),
            !contains_id(old(self).tags().slots(), id) ==> r == Err::<(), AppError>(
                AppError::RowNotFound,
            ) && *final(self) == *old(self),
            contains_id(old(self).tags().slots(), id) ==> r == Ok::<(), AppError>(()) && delete_post(
                old(self).tags(),
                final(self).tags(),
                id,
            ),
    {
        self.tags.delete(id)
    }

    /// The ordinal of a tag; `RowNotFound` for an unknown id.
    pub fn tag_ordinal(&self, id: i32) -> (r: Result<usize, AppError>)
        requires
            self.wf(),
        ensures
            contains_id(self.tags().slots(), id) ==> r == Ok::<usize, AppError>(
                slot_of(self.tags().slots(), id).ordinal,
            ),
            !contains_id(self.tags().slots(), id) ==> r == Err::<usize, AppError>(
                AppError::RowNotFound,
            ),
    {
        self.tags.get_ordinal(id)
    }

    /// The category of a tag (`None` for uncategorized); `RowNotFound` for
    /// an unknown id.
    pub fn tag_category(&self, id: i32) -> (r: Result<Option<i32>, AppError>)
        requires
            self.wf(),
        ensures
            contains_id(self.tags().slots(), id) ==> r == Ok::<Option<i32>, AppError>(
                slot_of(self.tags().slots(), id).partition,
            ),
            !contains_id(self.tags().slots(), id) ==> r == Err::<Option<i32>, AppError>(
                AppError::RowNotFound,
            ),
    {
        self.tags.get_partition(id)
    }
}

/// Whether the tag at index `i` has the given category and name.
pub open spec fn tag_matches(
    s: Seq<Slot<TagContent>>,
    cat: Option<i32>,
    name: Seq<char>,
    i: int,
) -> bool {
    0 <= i < s.len() && s[i].partition == cat && s[i].payload.tag_name@ == name
}

/// Whether some tag has the given category and name.
pub open spec fn has_tag_named(s: Seq<Slot<TagContent>>, cat: Option<i32>, name: Seq<char>) -> bool {
    exists|i: int| tag_matches(s, cat, name, i)
}

/// The ids of the tags linked to `activity_id`, in link order.
pub open spec fn tag_ids_of(links: Seq<ActivityTagLink>, activity_id: i32) -> Seq<i32>
    decreases links.len(),
{
    if links.len() == 0 {
        Seq::empty()
    } else {
        let rest = tag_ids_of(links.drop_last(), activity_id);
        if links.last().activity_id == activity_id {
            rest.push(links.last().category_tag_id)
        } else {
            rest
        }
    }
}

/// The ids of the tags of partition `p` (`None` for the uncategorized
/// bucket), in store order.
pub open spec fn tags_in_partition(s: Seq<Slot<TagContent>>, p: Option<i32>) -> Seq<i32>
    decreases s.len(),
{
    if s.len() == 0 {
        Seq::empty()
    } else {
        let rest = tags_in_partition(s.drop_last(), p);
        if s.last().partition == p {
            rest.push(s.last().id)
        } else {
            rest
        }
    }
}

/// The links that survive detaching the tag `tag_id` from the activity
/// `activity_id`.
pub open spec fn keeps_link(activity_id: i32, tag_id: i32) -> spec_fn(ActivityTagLink) -> bool {
    |l: ActivityTagLink| !(l.activity_id == activity_id && l.category_tag_id == tag_id)
}

impl Board {
    /// The index of some tag with the given category and name.
    fn find_tag_index(&self, category_id: Option<i32>, tag_name: &String) -> (r: Option<usize>)
        ensures
            r matches Some(i) ==> tag_matches(
                self.tags().slots(),
                category_id,
                tag_name@,
                i as int,
            ),
            r is None ==> !has_tag_named(self.tags().slots(), category_id, tag_name@),
    {
        let n = self.tags.len();
        let mut i: usize = 0;
        while i < n
            invariant
                i <= n,
                n == self.tags().slots().len(),
                forall|j: int|
                    0 <= j < i ==> !tag_matches(self.tags().slots(), category_id, tag_name@, j),
            decreases n - i,
        {
            let sl = self.tags.get_slot(i);
            if crate::store::partition_eq(sl.partition, category_id) && sl.payload.tag_name.eq(
                tag_name,
            ) {
                return Some(i);
            }
            i = i + 1;
        }
        None
    }

    /// The ids of the tags attached to an activity, in the order the links
    /// were recorded.
    pub fn activity_tag_ids(&self, activity_id: i32) -> (r: Vec<i32>)
        ensures
            r@ == tag_ids_of(self.links(), activity_id),
    {
        let ghost orig = self.links@;
        let mut out: Vec<i32> = Vec::new();
        proof {
            assert(orig.take(0) =~= Seq::<ActivityTagLink>::empty());
        }
        let mut i: usize = 0;
        while i < self.links.len()
            invariant
                i <= orig.len(),
                self.links@ == orig,
                out@ == tag_ids_of(orig.take(i as int), activity_id),
            decreases orig.len() - i,
        {
            proof {
                assert(orig.take(i + 1).drop_last() =~= orig.take(i as int));
                assert(orig.take(i + 1).last() == orig[i as int]);
            }
            let l = self.links[i];
            if l.activity_id == activity_id {
                out.push(l.category_tag_id);
            }
            i = i + 1;
        }
        proof {
            assert(orig.take(orig.len() as int) =~= orig);
        }
        out
    }

    /// What the column map of the startup fetch must hold.
    pub open spec fn columns_view_ok(self, m: Map<i32, ColumnOutput>) -> bool {
        &&& forall|x: i32| m.contains_key(x) <==> contains_id(self.columns().slots(), x)
        &&& forall|x: i32|
            contains_id(self.columns().slots(), x) ==> {
                let sl = slot_of(self.columns().slots(), x);
                &&& m[x].name == sl.payload.name
                &&& m[x].ordinal == sl.ordinal as i32
            }
    }

    /// What the column-activity map of the startup fetch must hold: every
    /// activity that sits in a column, with the ids of its linked tags.
    pub open spec fn column_activities_view_ok(self, m: Map<i32, ColumnActivityOutput>) -> bool {
        &&& forall|x: i32|
            m.contains_key(x) <==> (contains_id(self.activities().slots(), x) && slot_of(
                self.activities().slots(),
                x,
            ).partition is Some)
        &&& forall|x: i32|
            contains_id(self.activities().slots(), x) && slot_of(
                self.activities().slots(),
                x,
            ).partition is Some ==> {
                let sl = slot_of(self.activities().slots(), x);
                &&& m[x].name == sl.payload.name
                &&& m[x].body == sl.payload.body
                &&& m[x].ordinal == sl.ordinal as i32
                &&& m[x].column_id == sl.partition->0
                &&& m[x].tags@ == tag_ids_of(self.links(), x)
            }
    }

    /// What the stash-activity map of the startup fetch must hold.
    pub open spec fn other_activities_view_ok(self, m: Map<i32, ActivityOutput>) -> bool {
        &&& forall|x: i32|
            m.contains_key(x) <==> (contains_id(self.activities().slots(), x) && slot_of(
                self.activities().slots(),
                x,
            ).partition is None)
        &&& forall|x: i32|
            contains_id(self.activities().slots(), x) && slot_of(
                self.activities().slots(),
                x,
            ).partition is None ==> {
                let sl = slot_of(self.activities().slots(), x);
                &&& m[x].name == sl.payload.name
                &&& m[x].body == sl.payload.body
                &&& m[x].ordinal == sl.ordinal as i32
                &&& m[x].tags@ == tag_ids_of(self.links(), x)
            }
    }

    /// What the category map of the startup fetch must hold: every category
    /// with the ids of its tags in store order.
    pub open spec fn categories_view_ok(self, m: Map<i32, CategoryOutput>) -> bool {
        &&& forall|x: i32| m.contains_key(x) <==> contains_id(self.categories().slots(), x)
        &&& forall|x: i32|
            contains_id(self.categories().slots(), x) ==> {
                let sl = slot_of(self.categories().slots(), x);
                &&& m[x].name == sl.payload.name
                &&& m[x].ordinal == sl.ordinal as i32
                &&& m[x].tags@ == tags_in_partition(self.tags().slots(), Some(x))
            }
    }

    /// What the category-tag map of the startup fetch must hold: every tag
    /// that belongs to an existing category.
    pub open spec fn category_tags_view_ok(self, m: Map<i32, CategoryTagOutput>) -> bool {
        &&& forall|x: i32|
            m.contains_key(x) <==> (contains_id(self.tags().slots(), x) && slot_of(
                self.tags().slots(),
                x,
            ).partition is Some && contains_id(
                self.categories().slots(),
                slot_of(self.tags().slots(), x).partition->0,
            ))
        &&& forall|x: i32|
            (contains_id(self.tags().slots(), x) && slot_of(self.tags().slots(), x).partition
                is Some && contains_id(
                self.categories().slots(),
                slot_of(self.tags().slots(), x).partition->0,
            )) ==> {
                let sl = slot_of(self.tags().slots(), x);
                &&& m[x].name == sl.payload.tag_name
                &&& m[x].color@ == crate::coloring::color_string(sl.payload.color)
                &&& m[x].category_id == sl.partition->0
                &&& m[x].ordinal == sl.ordinal as i32
            }
    }

    /// What the uncategorized-tag map of the startup fetch must hold.
    pub open spec fn other_tags_view_ok(self, m: Map<i32, OtherTagOutput>) -> bool {
        &&& forall|x: i32|
            m.contains_key(x) <==> (contains_id(self.tags().slots(), x) && slot_of(
                self.tags().slots(),
                x,
            ).partition is None)
        &&& forall|x: i32|
            contains_id(self.tags().slots(), x) && slot_of(self.tags().slots(), x).partition
                is None ==> {
                let sl = slot_of(self.tags().slots(), x);
                &&& m[x].name == sl.payload.tag_name
                &&& m[x].color@ == crate::coloring::color_string(sl.payload.color)
                &&& m[x].ordinal == sl.ordinal as i32
            }
    }

    /// Every column, keyed by id, shaped for the startup fetch.
    pub fn all_columns(&self) -> (m: HashMap<i32, ColumnOutput>)
        requires
            self.wf(),
            self.columns().slots().len() <= i32::MAX,
        ensures
            self.columns_view_ok(m@),
    {
        let s = &self.columns;
        let n = s.len();
        let mut m: HashMap<i32, ColumnOutput> = HashMap::new();
        let mut i: usize = 0;
        while i < n
            invariant
                self.wf(),
                s == self.columns(),
                n == s.slots().len() <= i32::MAX,
                i <= n,
                forall|x: i32|
                    m@.contains_key(x) <==> exists|j: int|
                        0 <= j < i && (#[trigger] s.slots()[j]).id == x,
                forall|j: int|
                    0 <= j < i ==> {
                        let sl = #[trigger] s.slots()[j];
                        &&& m@.contains_key(sl.id)
                        &&& m@[sl.id].name == sl.payload.name
                        &&& m@[sl.id].ordinal == sl.ordinal as i32
                    },
            decreases n - i,
        {
            let sl = s.get_slot(i);
            proof {
                lemma_count_le_len(s.slots(), sl.partition);
                assert(sl.ordinal < count_in(s.slots(), s.slots()[i as int].partition));
            }
            m.insert(sl.id, ColumnOutput { name: sl.payload.name.clone(), ordinal: sl.ordinal as i32 });
            proof {
                lemma_slot_at_index(s.slots(), i as int);
            }
            i = i + 1;
        }
        proof {
            assert forall|x: i32| contains_id(s.slots(), x) implies m@.contains_key(x) && {
                let sl = slot_of(s.slots(), x);
                &&& m@[x].name == sl.payload.name
                &&& m@[x].ordinal == sl.ordinal as i32
            } by {
                let j = crate::store::idx_of(s.slots(), x);
                lemma_slot_at_index(s.slots(), j);
            }
        }
        m
    }

    /// Every uncategorized tag, keyed by id, with its color rendered as
    /// text, shaped for the startup fetch.
    pub fn all_other_tags(&self) -> (m: HashMap<i32, OtherTagOutput>)
        requires
            self.wf(),
            self.tags().slots().len() <= i32::MAX,
        ensures
            self.other_tags_view_ok(m@),
    {
        let s = &self.tags;
        let n = s.len();
        let mut m: HashMap<i32, OtherTagOutput> = HashMap::new();
        let mut i: usize = 0;
        while i < n
            invariant
                self.wf(),
                s == self.tags(),
                n == s.slots().len() <= i32::MAX,
                i <= n,
                forall|x: i32|
                    m@.contains_key(x) <==> exists|j: int|
                        0 <= j < i && (#[trigger] s.slots()[j]).id == x && s.slots()[j].partition
                            is None,
                forall|j: int|
                    0 <= j < i && (#[trigger] s.slots()[j]).partition is None ==> {
                        let sl = s.slots()[j];
                        &&& m@.contains_key(sl.id)
                        &&& m@[sl.id].name == sl.payload.tag_name
                        &&& m@[sl.id].color@ == crate::coloring::color_string(sl.payload.color)
                        &&& m@[sl.id].ordinal == sl.ordinal as i32
                    },
            decreases n - i,
        {
            let sl = s.get_slot(i);
            if crate::store::partition_eq(sl.partition, None) {
                proof {
                    lemma_count_le_len(s.slots(), sl.partition);
                    assert(sl.ordinal < count_in(s.slots(), s.slots()[i as int].partition));
                }
                m.insert(
                    sl.id,
                    OtherTagOutput {
                        name: sl.payload.tag_name.clone(),
                        color: crate::coloring::rgb_int_to_string(sl.payload.color),
                        ordinal: sl.ordinal as i32,
                    },
                );
            }
            proof {
                lemma_slot_at_index(s.slots(), i as int);
            }
            i = i + 1;
        }
        proof {
            assert forall|x: i32|
                contains_id(s.slots(), x) && slot_of(s.slots(), x).partition is None implies m@.contains_key(
                x,
            ) && {
                let sl = slot_of(s.slots(), x);
                &&& m@[x].name == sl.payload.tag_name
                &&& m@[x].color@ == crate::coloring::color_string(sl.payload.color)
                &&& m@[x].ordinal == sl.ordinal as i32
            } by {
                let j = crate::store::idx_of(s.slots(), x);
                lemma_slot_at_index(s.slots(), j);
            }
            assert forall|x: i32| m@.contains_key(x) implies contains_id(s.slots(), x) && slot_of(
                s.slots(),
                x,
            ).partition is None by {
                let j = choose|j: int|
                    0 <= j < n && (#[trigger] s.slots()[j]).id == x && s.slots()[j].partition
                        is None;
                lemma_slot_at_index(s.slots(), j);
            }
        }
        m
    }

    /// The ids of the tags of a partition, in store order.
    fn tag_ids_in_partition(&self, p: Option<i32>) -> (r: Vec<i32>)
        ensures
            r@ == tags_in_partition(self.tags().slots(), p),
    {
        let s = &self.tags;
        let n = s.len();
        let mut out: Vec<i32> = Vec::new();
        proof {
            assert(s.slots().take(0) =~= Seq::<Slot<TagContent>>::empty());
        }
        let mut i: usize = 0;
        while i < n
            invariant
                s == self.tags(),
                n == s.slots().len(),
                i <= n,
                out@ == tags_in_partition(s.slots().take(i as int), p),
            decreases n - i,
        {
            proof {
                assert(s.slots().take(i + 1).drop_last() =~= s.slots().take(i as int));
                assert(s.slots().take(i + 1).last() == s.slots()[i as int]);
            }
            let sl = s.get_slot(i);
            if crate::store::partition_eq(sl.partition, p) {
                out.push(sl.id);
            }
            i = i + 1;
        }
        proof {
            assert(s.slots().take(n as int) =~= s.slots());
        }
        out
    }

    /// Every activity that sits in a column, keyed by id, with the ids of
    /// its linked tags, shaped for the startup fetch.
    pub fn all_column_activities(&self) -> (m: HashMap<i32, ColumnActivityOutput>)
        requires
            self.wf(),
            self.activities().slots().len() <= i32::MAX,
        ensures
            self.column_activities_view_ok(m@),
    {
        let s = &self.activities;
        let n = s.len();
        let mut m: HashMap<i32, ColumnActivityOutput> = HashMap::new();
        let mut i: usize = 0;
        while i < n
            invariant
                self.wf(),
                s == self.activities(),
                n == s.slots().len() <= i32::MAX,
                i <= n,
                forall|x: i32|
                    m@.contains_key(x) <==> exists|j: int|
                        0 <= j < i && (#[trigger] s.slots()[j]).id == x && s.slots()[j].partition
                            is Some,
                forall|j: int|
                    0 <= j < i && (#[trigger] s.slots()[j]).partition is Some ==> {
                        let sl = s.slots()[j];
                        &&& m@.contains_key(sl.id)
                        &&& m@[sl.id].name == sl.payload.name
                        &&& m@[sl.id].body == sl.payload.body
                        &&& m@[sl.id].ordinal == sl.ordinal as i32
                        &&& m@[sl.id].column_id == sl.partition->0
                        &&& m@[sl.id].tags@ == tag_ids_of(self.links(), sl.id)
                    },
            decreases n - i,
        {
            let sl = s.get_slot(i);
            match sl.partition {
                Some(c) => {
                    proof {
                        lemma_count_le_len(s.slots(), sl.partition);
                        assert(sl.ordinal < count_in(s.slots(), s.slots()[i as int].partition));
                    }
                    let tags = self.activity_tag_ids(sl.id);
                    m.insert(
                        sl.id,
                        ColumnActivityOutput {
                            name: sl.payload.name.clone(),
                            body: clone_opt_string(&sl.payload.body),
                            ordinal: sl.ordinal as i32,
                            tags,
                            column_id: c,
                        },
                    );
                },
                None => (),
            }
            proof {
                lemma_slot_at_index(s.slots(), i as int);
            }
            i = i + 1;
        }
        proof {
            assert forall|x: i32|
                contains_id(s.slots(), x) && slot_of(s.slots(), x).partition is Some implies m@.contains_key(
                x,
            ) && {
                let sl = slot_of(s.slots(), x);
                &&& m@[x].name == sl.payload.name
                &&& m@[x].body == sl.payload.body
                &&& m@[x].ordinal == sl.ordinal as i32
                &&& m@[x].column_id == sl.partition->0
                &&& m@[x].tags@ == tag_ids_of(self.links(), x)
            } by {
                let j = crate::store::idx_of(s.slots(), x);
                lemma_slot_at_index(s.slots(), j);
            }
            assert forall|x: i32| m@.contains_key(x) implies contains_id(s.slots(), x) && slot_of(
                s.slots(),
                x,
            ).partition is Some by {
                let j = choose|j: int|
                    0 <= j < n && (#[trigger] s.slots()[j]).id == x && s.slots()[j].partition
                        is Some;
                lemma_slot_at_index(s.slots(), j);
            }
        }
        m
    }

    /// Every stash activity, keyed by id, with the ids of its linked tags,
    /// shaped for the startup fetch.
    pub fn all_other_activities(&self) -> (m: HashMap<i32, ActivityOutput>)
        requires
            self.wf(),
            self.activities().slots().len() <= i32::MAX,
        ensures
            self.other_activities_view_ok(m@),
    {
        let s = &self.activities;
        let n = s.len();
        let mut m: HashMap<i32, ActivityOutput> = HashMap::new();
        let mut i: usize = 0;
        while i < n
            invariant
                self.wf(),
                s == self.activities(),
                n == s.slots().len() <= i32::MAX,
                i <= n,
                forall|x: i32|
                    m@.contains_key(x) <==> exists|j: int|
                        0 <= j < i && (#[trigger] s.slots()[j]).id == x && s.slots()[j].partition
                            is None,
                forall|j: int|
                    0 <= j < i && (#[trigger] s.slots()[j]).partition is None ==> {
                        let sl = s.slots()[j];
                        &&& m@.contains_key(sl.id)
                        &&& m@[sl.id].name == sl.payload.name
                        &&& m@[sl.id].body == sl.payload.body
                        &&& m@[sl.id].ordinal == sl.ordinal as i32
                        &&& m@[sl.id].tags@ == tag_ids_of(self.links(), sl.id)
                    },
            decreases n - i,
        {
            let sl = s.get_slot(i);
            if crate::store::partition_eq(sl.partition, None) {
                proof {
                    lemma_count_le_len(s.slots(), sl.partition);
                    assert(sl.ordinal < count_in(s.slots(), s.slots()[i as int].partition));
                }
                let tags = self.activity_tag_ids(sl.id);
                m.insert(
                    sl.id,
                    ActivityOutput {
                        name: sl.payload.name.clone(),
                        body: clone_opt_string(&sl.payload.body),
                        ordinal: sl.ordinal as i32,
                        tags,
                    },
                );
            }
            proof {
                lemma_slot_at_index(s.slots(), i as int);
            }
            i = i + 1;
        }
        proof {
            assert forall|x: i32|
                contains_id(s.slots(), x) && slot_of(s.slots(), x).partition is None implies m@.contains_key(
                x,
            ) && {
                let sl = slot_of(s.slots(), x);
                &&& m@[x].name == sl.payload.name
                &&& m@[x].body == sl.payload.body
                &&& m@[x].ordinal == sl.ordinal as i32
                &&& m@[x].tags@ == tag_ids_of(self.links(), x)
            } by {
                let j = crate::store::idx_of(s.slots(), x);
                lemma_slot_at_index(s.slots(), j);
            }
            assert forall|x: i32| m@.contains_key(x) implies contains_id(s.slots(), x) && slot_of(
                s.slots(),
                x,
            ).partition is None by {
                let j = choose|j: int|
                    0 <= j < n && (#[trigger] s.slots()[j]).id == x && s.slots()[j].partition
                        is None;
                lemma_slot_at_index(s.slots(), j);
            }
        }
        m
    }

    /// Every category with the ids of its tags, and every tag that belongs
    /// to an existing category, both keyed by id, shaped for the startup
    /// fetch.
    pub fn all_with_category_tags(&self) -> (r: (
        HashMap<i32, CategoryOutput>,
        HashMap<i32, CategoryTagOutput>,
    ))
        requires
            self.wf(),
            self.categories().slots().len() <= i32::MAX,
            self.tags().slots().len() <= i32::MAX,
        ensures
            self.categories_view_ok(r.0@),
            self.category_tags_view_ok(r.1@),
    {
        let cs = &self.categories;
        let n = cs.len();
        let mut categories: HashMap<i32, CategoryOutput> = HashMap::new();
        let mut i: usize = 0;
        while i < n
            invariant
                self.wf(),
                cs == self.categories(),
                n == cs.slots().len() <= i32::MAX,
                i <= n,
                forall|x: i32|
                    categories@.contains_key(x) <==> exists|j: int|
                        0 <= j < i && (#[trigger] cs.slots()[j]).id == x,
                forall|j: int|
                    0 <= j < i ==> {
                        let sl = #[trigger] cs.slots()[j];
                        &&& categories@.contains_key(sl.id)
                        &&& categories@[sl.id].name == sl.payload.name
                        &&& categories@[sl.id].ordinal == sl.ordinal as i32
                        &&& categories@[sl.id].tags@ == tags_in_partition(self.tags().slots(), Some(sl.id))
                    },
            decreases n - i,
        {
            let sl = cs.get_slot(i);
            proof {
                lemma_count_le_len(cs.slots(), sl.partition);
                assert(sl.ordinal < count_in(cs.slots(), cs.slots()[i as int].partition));
            }
            let tags = self.tag_ids_in_partition(Some(sl.id));
            categories.insert(
                sl.id,
                CategoryOutput { name: sl.payload.name.clone(), ordinal: sl.ordinal as i32, tags },
            );
            proof {
                lemma_slot_at_index(cs.slots(), i as int);
            }
            i = i + 1;
        }
        proof {
            assert forall|x: i32| contains_id(cs.slots(), x) implies categories@.contains_key(x)
                && {
                let sl = slot_of(cs.slots(), x);
                &&& categories@[x].name == sl.payload.name
                &&& categories@[x].ordinal == sl.ordinal as i32
                &&& categories@[x].tags@ == tags_in_partition(self.tags().slots(), Some(x))
            } by {
                let j = crate::store::idx_of(cs.slots(), x);
                lemma_slot_at_index(cs.slots(), j);
            }
            assert forall|x: i32| categories@.contains_key(x) implies contains_id(
                cs.slots(),
                x,
            ) by {
                let j = choose|j: int| 0 <= j < n && (#[trigger] cs.slots()[j]).id == x;
                lemma_slot_at_index(cs.slots(), j);
            }
        }
        let ts = &self.tags;
        let tn = ts.len();
        let mut category_tags: HashMap<i32, CategoryTagOutput> = HashMap::new();
        let mut k: usize = 0;
        while k < tn
            invariant
                self.wf(),
                ts == self.tags(),
                tn == ts.slots().len() <= i32::MAX,
                k <= tn,
                forall|x: i32|
                    category_tags@.contains_key(x) <==> exists|j: int|
                        0 <= j < k && (#[trigger] ts.slots()[j]).id == x && ts.slots()[j].partition
                            is Some && contains_id(
                            self.categories().slots(),
                            ts.slots()[j].partition->0,
                        ),
                forall|j: int|
                    0 <= j < k && (#[trigger] ts.slots()[j]).partition is Some && contains_id(
                        self.categories().slots(),
                        ts.slots()[j].partition->0,
                    ) ==> {
                        let sl = ts.slots()[j];
                        &&& category_tags@.contains_key(sl.id)
                        &&& category_tags@[sl.id].name == sl.payload.tag_name
                        &&& category_tags@[sl.id].color@ == crate::coloring::color_string(
                            sl.payload.color,
                        )
                        &&& category_tags@[sl.id].category_id == sl.partition->0
                        &&& category_tags@[sl.id].ordinal == sl.ordinal as i32
                    },
            decreases tn - k,
        {
            let sl = ts.get_slot(k);
            match sl.partition {
                Some(c) => {
                    if self.categories.find(c).is_some() {
                        proof {
                            lemma_count_le_len(ts.slots(), sl.partition);
                            assert(sl.ordinal < count_in(ts.slots(), ts.slots()[k as int].partition));
                        }
                        category_tags.insert(
                            sl.id,
                            CategoryTagOutput {
                                name: sl.payload.tag_name.clone(),
                                color: crate::coloring::rgb_int_to_string(sl.payload.color),
                                category_id: c,
                                ordinal: sl.ordinal as i32,
                            },
                        );
                    }
                },
                None => (),
            }
            proof {
                lemma_slot_at_index(ts.slots(), k as int);
            }
            k = k + 1;
        }
        proof {
            assert forall|x: i32|
                (contains_id(ts.slots(), x) && slot_of(ts.slots(), x).partition is Some
                    && contains_id(
                    self.categories().slots(),
                    slot_of(ts.slots(), x).partition->0,
                )) implies category_tags@.contains_key(x) && {
                let sl = slot_of(ts.slots(), x);
                &&& category_tags@[x].name == sl.payload.tag_name
                &&& category_tags@[x].color@ == crate::coloring::color_string(sl.payload.color)
                &&& category_tags@[x].category_id == sl.partition->0
                &&& category_tags@[x].ordinal == sl.ordinal as i32
            } by {
                let j = crate::store::idx_of(ts.slots(), x);
                lemma_slot_at_index(ts.slots(), j);
            }
            assert forall|x: i32| category_tags@.contains_key(x) implies (contains_id(
                ts.slots(),
                x,
            ) && slot_of(ts.slots(), x).partition is Some && contains_id(
                self.categories().slots(),
                slot_of(ts.slots(), x).partition->0,
            )) by {
                let j = choose|j: int|
                    0 <= j < tn && (#[trigger] ts.slots()[j]).id == x && ts.slots()[j].partition
                        is Some && contains_id(
                        self.categories().slots(),
                        ts.slots()[j].partition->0,
                    );
                lemma_slot_at_index(ts.slots(), j);
            }
        }
        (categories, category_tags)
    }

    /// What one entry of the category query must hold: the category's own
    /// name and position (or neither, for the uncategorized bucket) and its
    /// tags in store order, each with its color rendered as text.
    pub open spec fn select_output_ok(self, out: SelectCategoryOutput, p: Option<i32>) -> bool {
        let ids = tags_in_partition(self.tags().slots(), p);
        &&& match p {
            Some(c) => {
                &&& out.name == Some(slot_of(self.categories().slots(), c).payload.name)
                &&& out.ordinal == Some(slot_of(self.categories().slots(), c).ordinal as i32)
            },
            None => out.name is None && out.ordinal is None,
        }
        &&& out.tags@.len() == ids.len()
        &&& forall|k: int|
            0 <= k < ids.len() ==> {
                let sl = slot_of(self.tags().slots(), ids[k]);
                &&& (#[trigger] out.tags@[k]).id == ids[k]
                &&& out.tags@[k].tag == sl.payload.tag_name
                &&& out.tags@[k].ordinal == sl.ordinal as i32
                &&& out.tags@[k].color@ == crate::coloring::color_string(sl.payload.color)
            }
    }

    /// The tags of a partition in store order, shaped for the category
    /// query.
    fn collect_tag_data(&self, p: Option<i32>) -> (r: Vec<TagData>)
        requires
            self.wf(),
            self.tags().slots().len() <= i32::MAX,
        ensures
            ({
                let ids = tags_in_partition(self.tags().slots(), p);
                &&& r@.len() == ids.len()
                &&& forall|k: int|
                    0 <= k < ids.len() ==> {
                        let sl = slot_of(self.tags().slots(), ids[k]);
                        &&& (#[trigger] r@[k]).id == ids[k]
                        &&& r@[k].tag == sl.payload.tag_name
                        &&& r@[k].ordinal == sl.ordinal as i32
                        &&& r@[k].color@ == crate::coloring::color_string(sl.payload.color)
                    }
            }),
    {
        let s = &self.tags;
        let n = s.len();
        let mut out: Vec<TagData> = Vec::new();
        proof {
            assert(s.slots().take(0) =~= Seq::<Slot<TagContent>>::empty());
        }
        let mut i: usize = 0;
        while i < n
            invariant
                self.wf(),
                s == self.tags(),
                n == s.slots().len() <= i32::MAX,
                i <= n,
                ({
                    let ids = tags_in_partition(s.slots().take(i as int), p);
                    &&& out@.len() == ids.len()
                    &&& forall|k: int|
                        0 <= k < ids.len() ==> {
                            let sl = slot_of(s.slots(), ids[k]);
                            &&& (#[trigger] out@[k]).id == ids[k]
                            &&& out@[k].tag == sl.payload.tag_name
                            &&& out@[k].ordinal == sl.ordinal as i32
                            &&& out@[k].color@ == crate::coloring::color_string(sl.payload.color)
                        }
                }),
            decreases n - i,
        {
            proof {
                assert(s.slots().take(i + 1).drop_last() =~= s.slots().take(i as int));
                assert(s.slots().take(i + 1).last() == s.slots()[i as int]);
            }
            let sl = s.get_slot(i);
            if crate::store::partition_eq(sl.partition, p) {
                proof {
                    lemma_count_le_len(s.slots(), sl.partition);
                    assert(sl.ordinal < count_in(s.slots(), s.slots()[i as int].partition));
                    lemma_slot_at_index(s.slots(), i as int);
                }
                out.push(
                    TagData {
                        id: sl.id,
                        tag: sl.payload.tag_name.clone(),
                        ordinal: sl.ordinal as i32,
                        color: crate::coloring::rgb_int_to_string(sl.payload.color),
                    },
                );
            }
            i = i + 1;
        }
        proof {
            assert(s.slots().take(n as int) =~= s.slots());
        }
        out
    }

    /// Every category with its tags, and the uncategorized bucket, shaped
    /// for the category query.
    pub fn select_all_categories(&self) -> (r: SelectCategoryTagsOutput)
        requires
            self.wf(),
            self.categories().slots().len() <= i32::MAX,
            self.tags().slots().len() <= i32::MAX,
        ensures
            forall|x: i32|
                r.category_tags@.contains_key(x) <==> contains_id(self.categories().slots(), x),
            forall|x: i32|
                contains_id(self.categories().slots(), x) ==> self.select_output_ok(
                    r.category_tags@[x],
                    Some(x),
                ),
            self.select_output_ok(r.other_tags, None),
    {
        let cs = &self.categories;
        let n = cs.len();
        let mut category_tags: HashMap<i32, SelectCategoryOutput> = HashMap::new();
        let mut i: usize = 0;
        while i < n
            invariant
                self.wf(),
                cs == self.categories(),
                n == cs.slots().len() <= i32::MAX,
                self.tags().slots().len() <= i32::MAX,
                i <= n,
                forall|x: i32|
                    category_tags@.contains_key(x) <==> exists|j: int|
                        0 <= j < i && (#[trigger] cs.slots()[j]).id == x,
                forall|j: int|
                    0 <= j < i ==> {
                        let sl = #[trigger] cs.slots()[j];
                        &&& category_tags@.contains_key(sl.id)
                        &&& self.select_output_ok(category_tags@[sl.id], Some(sl.id))
                    },
            decreases n - i,
        {
            let sl = cs.get_slot(i);
            proof {
                lemma_count_le_len(cs.slots(), sl.partition);
                assert(sl.ordinal < count_in(cs.slots(), cs.slots()[i as int].partition));
                lemma_slot_at_index(cs.slots(), i as int);
            }
            let tags = self.collect_tag_data(Some(sl.id));
            category_tags.insert(
                sl.id,
                SelectCategoryOutput {
                    name: Some(sl.payload.name.clone()),
                    ordinal: Some(sl.ordinal as i32),
                    tags,
                },
            );
            i = i + 1;
        }
        proof {
            assert forall|x: i32| contains_id(cs.slots(), x) implies category_tags@.contains_key(x)
                && self.select_output_ok(category_tags@[x], Some(x)) by {
                let j = crate::store::idx_of(cs.slots(), x);
                lemma_slot_at_index(cs.slots(), j);
            }
            assert forall|x: i32| category_tags@.contains_key(x) implies contains_id(
                cs.slots(),
                x,
            ) by {
                let j = choose|j: int| 0 <= j < n && (#[trigger] cs.slots()[j]).id == x;
                lemma_slot_at_index(cs.slots(), j);
            }
        }
        let other_tags = SelectCategoryOutput {
            name: None,
            ordinal: None,
            tags: self.collect_tag_data(None),
        };
        SelectCategoryTagsOutput { category_tags, other_tags }
    }

    /// The category tags attached to activity `a`, keyed by tag id: for
    /// every link from `a` to a tag of an existing category, the tag
    /// together with its category's name and position.
    pub open spec fn activity_category_tags(
        self,
        links: Seq<ActivityTagLink>,
        a: i32,
    ) -> Map<i32, CategoryTag>
        decreases links.len(),
    {
        if links.len() == 0 {
            Map::empty()
        } else {
            let m = self.activity_category_tags(links.drop_last(), a);
            let l = links.last();
            if l.activity_id == a && contains_id(self.tags().slots(), l.category_tag_id)
                && slot_of(self.tags().slots(), l.category_tag_id).partition is Some && contains_id(
                self.categories().slots(),
                slot_of(self.tags().slots(), l.category_tag_id).partition->0,
            ) {
                let t = slot_of(self.tags().slots(), l.category_tag_id);
                let c = slot_of(self.categories().slots(), t.partition->0);
                m.insert(
                    l.category_tag_id,
                    CategoryTag {
                        category_name: c.payload.name,
                        category_ordinal: c.ordinal as i32,
                        tag_id: l.category_tag_id,
                        tag_name: t.payload.tag_name,
                        tag_ordinal: t.ordinal as i32,
                    },
                )
            } else {
                m
            }
        }
    }

    /// The names of the uncategorized tags attached to activity `a`, in
    /// link order.
    pub open spec fn activity_other_tags(self, links: Seq<ActivityTagLink>, a: i32) -> Seq<String>
        decreases links.len(),
    {
        if links.len() == 0 {
            Seq::empty()
        } else {
            let v = self.activity_other_tags(links.drop_last(), a);
            let l = links.last();
            if l.activity_id == a && contains_id(self.tags().slots(), l.category_tag_id)
                && slot_of(self.tags().slots(), l.category_tag_id).partition is None {
                v.push(slot_of(self.tags().slots(), l.category_tag_id).payload.tag_name)
            } else {
                v
            }
        }
    }

    /// What one entry of the activity query must hold for activity `x`.
    pub open spec fn query_activity_ok(self, out: QueryActivityOutput, x: i32) -> bool {
        let sl = slot_of(self.activities().slots(), x);
        &&& out.title == sl.payload.name
        &&& out.body == sl.payload.body
        &&& out.activity_ordinal == sl.ordinal as i32
        &&& out.category_tags@ == self.activity_category_tags(self.links(), x)
        &&& out.other_tags@ == self.activity_other_tags(self.links(), x)
    }

    /// What one column entry of the activity query must hold: the column's
    /// own name and position (or neither, for the stash) and exactly its
    /// activities, each shaped by [`Board::query_activity_ok`].
    pub open spec fn query_column_ok(self, out: QueryColumnOutput, p: Option<i32>) -> bool {
        &&& match p {
            Some(c) => {
                &&& out.name == Some(slot_of(self.columns().slots(), c).payload.name)
                &&& out.column_ordinal == Some(slot_of(self.columns().slots(), c).ordinal as i32)
            },
            None => out.name is None && out.column_ordinal is None,
        }
        &&& forall|x: i32|
            out.activities@.contains_key(x) <==> (contains_id(self.activities().slots(), x)
                && slot_of(self.activities().slots(), x).partition == p)
        &&& forall|x: i32|
            contains_id(self.activities().slots(), x) && slot_of(
                self.activities().slots(),
                x,
            ).partition == p ==> self.query_activity_ok(#[trigger] out.activities@[x], x)
    }

    /// The tags attached to activity `a`, split into the category tags
    /// (keyed by tag id) and the names of the uncategorized ones.
    fn activity_query_tags(&self, a: i32) -> (r: (HashMap<i32, CategoryTag>, Vec<String>))
        requires
            self.wf(),
            self.categories().slots().len() <= i32::MAX,
            self.tags().slots().len() <= i32::MAX,
        ensures
            r.0@ == self.activity_category_tags(self.links(), a),
            r.1@ == self.activity_other_tags(self.links(), a),
    {
        let ghost orig = self.links@;
        let mut category_tags: HashMap<i32, CategoryTag> = HashMap::new();
        let mut other_tags: Vec<String> = Vec::new();
        proof {
            assert(orig.take(0) =~= Seq::<ActivityTagLink>::empty());
        }
        let mut i: usize = 0;
        while i < self.links.len()
            invariant
                self.wf(),
                self.categories().slots().len() <= i32::MAX,
                self.tags().slots().len() <= i32::MAX,
                i <= orig.len(),
                self.links@ == orig,
                category_tags@ == self.activity_category_tags(orig.take(i as int), a),
                other_tags@ == self.activity_other_tags(orig.take(i as int), a),
            decreases orig.len() - i,
        {
            proof {
                assert(orig.take(i + 1).drop_last() =~= orig.take(i as int));
                assert(orig.take(i + 1).last() == orig[i as int]);
            }
            let l = self.links[i];
            if l.activity_id == a {
                match self.tags.find(l.category_tag_id) {
                    None => (),
                    Some(t) => {
                        match t.partition {
                            Some(c) => {
                                proof {
                                    lemma_count_le_len(self.tags().slots(), t.partition);
                                    lemma_count_le_len(
                                        self.categories().slots(),
                                        Some(c),
                                    );
                                }
                                match self.categories.find(c) {
                                    None => (),
                                    Some(cs) => {
                                        proof {
                                            let csl = crate::store::idx_of(
                                                self.categories().slots(),
                                                c,
                                            );
                                            assert(self.categories().slots()[csl].ordinal
                                                < count_in(
                                                self.categories().slots(),
                                                self.categories().slots()[csl].partition,
                                            ));
                                            let tsl = crate::store::idx_of(
                                                self.tags().slots(),
                                                l.category_tag_id,
                                            );
                                            assert(self.tags().slots()[tsl].ordinal < count_in(
                                                self.tags().slots(),
                                                self.tags().slots()[tsl].partition,
                                            ));
                                        }
                                        category_tags.insert(
                                            l.category_tag_id,
                                            CategoryTag {
                                                category_name: cs.payload.name.clone(),
                                                category_ordinal: cs.ordinal as i32,
                                                tag_id: l.category_tag_id,
                                                tag_name: t.payload.tag_name.clone(),
                                                tag_ordinal: t.ordinal as i32,
                                            },
                                        );
                                    },
                                }
                            },
                            None => {
                                other_tags.push(t.payload.tag_name.clone());
                            },
                        }
                    },
                }
            }
            i = i + 1;
        }
        proof {
            assert(orig.take(orig.len() as int) =~= orig);
        }
        (category_tags, other_tags)
    }

    /// The activities of one column (or of the stash), keyed by id, each
    /// with its tags, shaped for the activity query.
    fn query_activities_of(&self, p: Option<i32>) -> (m: HashMap<i32, QueryActivityOutput>)
        requires
            self.wf(),
            self.activities().slots().len() <= i32::MAX,
            self.categories().slots().len() <= i32::MAX,
            self.tags().slots().len() <= i32::MAX,
        ensures
            forall|x: i32|
                m@.contains_key(x) <==> (contains_id(self.activities().slots(), x) && slot_of(
                    self.activities().slots(),
                    x,
                ).partition == p),
            forall|x: i32|
                contains_id(self.activities().slots(), x) && slot_of(
                    self.activities().slots(),
                    x,
                ).partition == p ==> self.query_activity_ok(#[trigger] m@[x], x),
    {
        let s = &self.activities;
        let n = s.len();
        let mut m: HashMap<i32, QueryActivityOutput> = HashMap::new();
        let mut i: usize = 0;
        while i < n
            invariant
                self.wf(),
                s == self.activities(),
                n == s.slots().len() <= i32::MAX,
                self.categories().slots().len() <= i32::MAX,
                self.tags().slots().len() <= i32::MAX,
                i <= n,
                forall|x: i32|
                    m@.contains_key(x) <==> exists|j: int|
                        0 <= j < i && (#[trigger] s.slots()[j]).id == x && s.slots()[j].partition
                            == p,
                forall|j: int|
                    0 <= j < i && (#[trigger] s.slots()[j]).partition == p ==> {
                        let sl = s.slots()[j];
                        &&& m@.contains_key(sl.id)
                        &&& self.query_activity_ok(m@[sl.id], sl.id)
                    },
            decreases n - i,
        {
            let sl = s.get_slot(i);
            if crate::store::partition_eq(sl.partition, p) {
                proof {
                    lemma_count_le_len(s.slots(), sl.partition);
                    assert(sl.ordinal < count_in(s.slots(), s.slots()[i as int].partition));
                    lemma_slot_at_index(s.slots(), i as int);
                }
                let (category_tags, other_tags) = self.activity_query_tags(sl.id);
                m.insert(
                    sl.id,
                    QueryActivityOutput {
                        title: sl.payload.name.clone(),
                        body: clone_opt_string(&sl.payload.body),
                        category_tags,
                        other_tags,
                        activity_ordinal: sl.ordinal as i32,
                    },
                );
            }
            proof {
                lemma_slot_at_index(s.slots(), i as int);
            }
            i = i + 1;
        }
        proof {
            assert forall|x: i32|
                contains_id(s.slots(), x) && slot_of(s.slots(), x).partition == p implies m@.contains_key(
                x,
            ) && self.query_activity_ok(m@[x], x) by {
                let j = crate::store::idx_of(s.slots(), x);
                lemma_slot_at_index(s.slots(), j);
            }
            assert forall|x: i32| m@.contains_key(x) implies contains_id(s.slots(), x) && slot_of(
                s.slots(),
                x,
            ).partition == p by {
                let j = choose|j: int|
                    0 <= j < n && (#[trigger] s.slots()[j]).id == x && s.slots()[j].partition == p;
                lemma_slot_at_index(s.slots(), j);
            }
        }
        m
    }

    /// Every column with its activities, and the stash, each activity with
    /// its tags, shaped for the activity query.
    pub fn query_all_activities(&self) -> (r: QueryActivitiesWithColumnsOutput)
        requires
            self.wf(),
            self.columns().slots().len() <= i32::MAX,
            self.activities().slots().len() <= i32::MAX,
            self.categories().slots().len() <= i32::MAX,
            self.tags().slots().len() <= i32::MAX,
        ensures
            forall|c: i32| r.columns@.contains_key(c) <==> contains_id(self.columns().slots(), c),
            forall|c: i32|
                contains_id(self.columns().slots(), c) ==> self.query_column_ok(
                    #[trigger] r.columns@[c],
                    Some(c),
                ),
            self.query_column_ok(r.other_activities, None),
    {
        let cs = &self.columns;
        let n = cs.len();
        let mut columns: HashMap<i32, QueryColumnOutput> = HashMap::new();
        let mut i: usize = 0;
        while i < n
            invariant
                self.wf(),
                cs == self.columns(),
                n == cs.slots().len() <= i32::MAX,
                self.activities().slots().len() <= i32::MAX,
                self.categories().slots().len() <= i32::MAX,
                self.tags().slots().len() <= i32::MAX,
                i <= n,
                forall|x: i32|
                    columns@.contains_key(x) <==> exists|j: int|
                        0 <= j < i && (#[trigger] cs.slots()[j]).id == x,
                forall|j: int|
                    0 <= j < i ==> {
                        let sl = #[trigger] cs.slots()[j];
                        &&& columns@.contains_key(sl.id)
                        &&& self.query_column_ok(columns@[sl.id], Some(sl.id))
                    },
            decreases n - i,
        {
            let sl = cs.get_slot(i);
            proof {
                lemma_count_le_len(cs.slots(), sl.partition);
                assert(sl.ordinal < count_in(cs.slots(), cs.slots()[i as int].partition));
                lemma_slot_at_index(cs.slots(), i as int);
            }
            let activities = self.query_activities_of(Some(sl.id));
            columns.insert(
                sl.id,
                QueryColumnOutput {
                    name: Some(sl.payload.name.clone()),
                    column_ordinal: Some(sl.ordinal as i32),
                    activities,
                },
            );
            i = i + 1;
        }
        proof {
            assert forall|c: i32| contains_id(cs.slots(), c) implies columns@.contains_key(c)
                && self.query_column_ok(columns@[c], Some(c)) by {
                let j = crate::store::idx_of(cs.slots(), c);
                lemma_slot_at_index(cs.slots(), j);
            }
            assert forall|c: i32| columns@.contains_key(c) implies contains_id(cs.slots(), c) by {
                let j = choose|j: int| 0 <= j < n && (#[trigger] cs.slots()[j]).id == c;
                lemma_slot_at_index(cs.slots(), j);
            }
        }
        let other_activities = QueryColumnOutput {
            name: None,
            column_ordinal: None,
            activities: self.query_activities_of(None),
        };
        QueryActivitiesWithColumnsOutput { columns, other_activities }
    }

    /// Everything the startup fetch returns, assembled from the five maps.
    pub fn fetch_all(&self) -> (r: FetchOutput)
        requires
            self.wf(),
            self.columns().slots().len() <= i32::MAX,
            self.activities().slots().len() <= i32::MAX,
            self.categories().slots().len() <= i32::MAX,
            self.tags().slots().len() <= i32::MAX,
        ensures
            self.columns_view_ok(r.columns@),
            self.column_activities_view_ok(r.activities@),
            self.other_activities_view_ok(r.other_activities@),
            self.categories_view_ok(r.categories@),
            self.category_tags_view_ok(r.category_tags@),
            self.other_tags_view_ok(r.other_tags@),
    {
        let activities = self.all_column_activities();
        let other_activities = self.all_other_activities();
        let columns = self.all_columns();
        let (categories, category_tags) = self.all_with_category_tags();
        let other_tags = self.all_other_tags();
        FetchOutput { columns, activities, other_activities, categories, category_tags, other_tags }
    }

    /// Attaches the tag with the given category and name to an activity by
    /// recording a link; an unknown tag is rejected with `RowNotFound`.
    pub fn add_tag_to_activity(&mut self, data: AddTagToActivityInput) -> (r: Result<(), AppError>)
        requires
            old(self).wf(),
        ensures
            final(self).wf(),
            final(self).columns() == old(self).columns(),
            final(self).activities() == old(self).activities(),
            final(self).categories() == old(self).categories(),
            final(self).tags() == old(self).tags(),
            !has_tag_named(old(self).tags().slots(), data.category_id, data.tag_name@) ==> r
                == Err::<(), AppError>(AppError::RowNotFound) && *final(self) == *old(self),
            has_tag_named(old(self).tags().slots(), data.category_id, data.tag_name@) ==> r == Ok::<
                (),
                AppError,
            >(()) && final(self).links().len() == old(self).links().len() + 1 && (forall|k: int|
                0 <= k < old(self).links().len() ==> final(self).links()[k] == old(self).links()[k])
                && final(self).links().last().activity_id == data.id && (exists|i: int|
                tag_matches(old(self).tags().slots(), data.category_id, data.tag_name@, i)
                    && old(self).tags().slots()[i].id
                    == final(self).links().last().category_tag_id),
    {
        match self.find_tag_index(data.category_id, &data.tag_name) {
            None => Err(AppError::RowNotFound),
            Some(i) => {
                let tag_id = self.tags.get_slot(i).id;
                self.links.push(ActivityTagLink { activity_id: data.id, category_tag_id: tag_id });
                Ok(())
            },
        }
    }

    /// Detaches the tag with the given category and name from an activity:
    /// every link between the two disappears (detaching an unattached tag
    /// removes nothing); an unknown tag is rejected with `RowNotFound`.
    pub fn remove_tag_from_activity(&mut self, data: RemoveTagFromActivityInput) -> (r: Result<
        (),
        AppError,
    >)
        requires
            old(self).wf(),
        ensures
            final(self).wf(),
            final(self).columns() == old(self).columns(),
            final(self).activities() == old(self).activities(),
            final(self).categories() == old(self).categories(),
            final(self).tags() == old(self).tags(),
            !has_tag_named(old(self).tags().slots(), data.category_id, data.tag_name@) ==> r
                == Err::<(), AppError>(AppError::RowNotFound) && *final(self) == *old(self),
            has_tag_named(old(self).tags().slots(), data.category_id, data.tag_name@) ==> r == Ok::<
                (),
                AppError,
            >(()) && (exists|i: int|
                tag_matches(old(self).tags().slots(), data.category_id, data.tag_name@, i)
                    && final(self).links() == old(self).links().filter(
                    keeps_link(data.id, old(self).tags().slots()[i].id),
                )),
    {
        let ti = match self.find_tag_index(data.category_id, &data.tag_name) {
            None => {
                return Err(AppError::RowNotFound);
            },
            Some(i) => i,
        };
        let tag_id = self.tags.get_slot(ti).id;
        let ghost orig = self.links@;
        let ghost keep = keeps_link(data.id, tag_id);
        let mut kept: Vec<ActivityTagLink> = Vec::new();
        proof {
            reveal(Seq::filter);
            assert(orig.take(0) =~= Seq::<ActivityTagLink>::empty());
        }
        let mut i: usize = 0;
        while i < self.links.len()
            invariant
                i <= orig.len(),
                self.links@ == orig,
                kept@ == orig.take(i as int).filter(keep),
                keep == keeps_link(data.id, tag_id),
            decreases orig.len() - i,
        {
            let l = self.links[i];
            proof {
                reveal(Seq::filter);
                assert(orig.take(i + 1).drop_last() =~= orig.take(i as int));
                assert(orig.take(i + 1).last() == orig[i as int]);
            }
            if !(l.activity_id == data.id && l.category_tag_id == tag_id) {
                kept.push(l);
            }
            i = i + 1;
        }
        proof {
            assert(orig.take(orig.len() as int) =~= orig);
        }
        self.links = kept;
        Ok(())
    }
}

} // verus!
