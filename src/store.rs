use vstd::prelude::*;

use crate::model::CommitView;

verus! {

/// The store's error code for a write that broke the unique index on commit ids.
pub const DUPLICATE_KEY_ERR: i32 = 11000;

/// Every listed write error is a duplicate key.
pub open spec fn all_duplicate_keys(codes: Seq<i32>) -> bool {
    forall|i: int| 0 <= i < codes.len() ==> #[trigger] codes[i] == DUPLICATE_KEY_ERR
}

/// Whether every listed write error is a duplicate key.
pub fn only_duplicate_keys(codes: &Vec<i32>) -> (r: bool)
    ensures
        r == all_duplicate_keys(codes@),
{
    let mut i: usize = 0;
    while i < codes.len()
        invariant
            i <= codes@.len(),
            forall|k: int| 0 <= k < i ==> #[trigger] codes@[k] == DUPLICATE_KEY_ERR,
        decreases codes.len() - i,
    {
        if codes[i] != DUPLICATE_KEY_ERR {
            assert(codes@[i as int] != DUPLICATE_KEY_ERR);
            return false;
        }
        i += 1;
    }
    true
}

/// A failed bulk insert is ignorable when every write error it lists is a duplicate key:
/// those commits are stored already. With no list of write errors (a failure of another
/// kind) it is not.
pub fn insert_failure_ignorable(write_error_codes: Option<&Vec<i32>>) -> (r: bool)
    ensures
        r == (write_error_codes is Some && all_duplicate_keys(write_error_codes->0@)),
{
    match write_error_codes {
        None => false,
        Some(codes) => only_duplicate_keys(codes),
    }
}

/// Some stored commit has the id.
pub open spec fn has_id(stored: Seq<CommitView>, id: Seq<char>) -> bool {
    exists|k: int| 0 <= k < stored.len() && #[trigger] stored[k].commit == id
}

/// What the store holds after an unordered bulk insert under its unique index on commit
/// ids: each commit of the batch is added unless a commit with its id is stored already;
/// the others fail as duplicate keys.
pub open spec fn insert_unique(stored: Seq<CommitView>, batch: Seq<CommitView>) -> Seq<CommitView>
    decreases batch.len(),
{
    if batch.len() == 0 {
        stored
    } else {
        let before = insert_unique(stored, batch.drop_last());
        if has_id(before, batch.last().commit) {
            before
        } else {
            before.push(batch.last())
        }
    }
}

proof fn lemma_insert_keeps_ids(stored: Seq<CommitView>, batch: Seq<CommitView>, id: Seq<char>)
    requires
        has_id(stored, id),
    ensures
        has_id(insert_unique(stored, batch), id),
    decreases batch.len(),
{
    if batch.len() > 0 {
        lemma_insert_keeps_ids(stored, batch.drop_last(), id);
        let before = insert_unique(stored, batch.drop_last());
        let k = choose|k: int| 0 <= k < before.len() && #[trigger] before[k].commit == id;
        if !has_id(before, batch.last().commit) {
            assert(before.push(batch.last())[k] == before[k]);
        }
    }
}

proof fn lemma_batch_ids_stored(stored: Seq<CommitView>, batch: Seq<CommitView>)
    ensures
        forall|j: int| 0 <= j < batch.len() ==> has_id(insert_unique(stored, batch), #[trigger] batch[j].commit),
    decreases batch.len(),
{
    if batch.len() > 0 {
        let front = batch.drop_last();
        lemma_batch_ids_stored(stored, front);
        let before = insert_unique(stored, front);
        let after = insert_unique(stored, batch);
        assert forall|j: int| 0 <= j < batch.len() implies has_id(after, #[trigger] batch[j].commit) by {
            if j < batch.len() - 1 {
                assert(batch[j] == front[j]);
                assert(has_id(before, front[j].commit));
                lemma_insert_keeps_ids(before, seq![batch.last()], batch[j].commit);
                assert(seq![batch.last()].drop_last() =~= Seq::<CommitView>::empty());
                assert(insert_unique(before, Seq::<CommitView>::empty()) == before);
                assert(insert_unique(before, seq![batch.last()]) == after);
            } else if !has_id(before, batch.last().commit) {
                assert(after[before.len() as int].commit == batch.last().commit);
            }
        }
    }
}

proof fn lemma_insert_stored_ids(stored: Seq<CommitView>, batch: Seq<CommitView>)
    requires
        forall|j: int| 0 <= j < batch.len() ==> has_id(stored, #[trigger] batch[j].commit),
    ensures
        insert_unique(stored, batch) == stored,
    decreases batch.len(),
{
    if batch.len() > 0 {
        let front = batch.drop_last();
        assert forall|j: int| 0 <= j < front.len() implies has_id(stored, #[trigger] front[j].commit) by {
            assert(front[j] == batch[j]);
        }
        lemma_insert_stored_ids(stored, front);
        assert(has_id(stored, batch[batch.len() - 1].commit));
    }
}

/// Loading the same commits a second time changes nothing that the store holds, so its
/// count of records stays the same.
pub proof fn lemma_reinsert_is_idempotent(stored: Seq<CommitView>, batch: Seq<CommitView>)
    ensures
        insert_unique(insert_unique(stored, batch), batch) == insert_unique(stored, batch),
        insert_unique(insert_unique(stored, batch), batch).len() == insert_unique(stored, batch).len(),
{
    lemma_batch_ids_stored(stored, batch);
    lemma_insert_stored_ids(insert_unique(stored, batch), batch);
}

} // verus!
