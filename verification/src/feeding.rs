//! A feeding as the database stores it.
use crate::dates::chrono_timestamp_accepted;
use vstd::prelude::*;

verus! {

/// A stored feeding: an amount in half scoops given at a timestamp
/// (`YYYY-MM-DD HH:MM:SS`), and whether it was entered after the fact.
#[derive(Debug)]
pub struct Model {
    pub id: i32,
    pub amount_half_scoops: i32,
    pub fed_at: String,
    pub edited: bool,
}

/// A feeding that passed the request checks and is ready to be stored; the
/// database assigns its `id`.
#[derive(Debug)]
pub struct NewFeeding {
    pub amount_half_scoops: i32,
    pub fed_at: String,
    pub edited: bool,
}


/// What every stored feeding satisfies: one or two half scoops at a timestamp chrono accepts.
pub open spec fn admissible_feeding(amount_half_scoops: i32, fed_at: Seq<char>) -> bool {
    (amount_half_scoops == 1 || amount_half_scoops == 2) && chrono_timestamp_accepted(fed_at)
}

impl NewFeeding {
    pub open spec fn admissible(self) -> bool {
        admissible_feeding(self.amount_half_scoops, self.fed_at@)
    }
}

impl Model {
    pub open spec fn admissible(self) -> bool {
        admissible_feeding(self.amount_half_scoops, self.fed_at@)
    }
}

/// The row the database stores for `new` under the id it assigns.
pub open spec fn stored(new: NewFeeding, id: i32) -> Model {
    Model { id, amount_half_scoops: new.amount_half_scoops, fed_at: new.fed_at, edited: new.edited }
}

/// Every row of the table is admissible.
pub open spec fn table_admissible(rows: Seq<Model>) -> bool {
    forall|i: int| 0 <= i < rows.len() ==> (#[trigger] rows[i]).admissible()
}

/// No two rows of the table share an id.
pub open spec fn ids_unique(rows: Seq<Model>) -> bool {
    forall|i: int, j: int|
        0 <= i < j < rows.len() ==> (#[trigger] rows[i]).id != (#[trigger] rows[j]).id
}

/// Storing an admitted row under a fresh id keeps every row admissible and
/// the ids unique.
pub proof fn lemma_insert_keeps_table(rows: Seq<Model>, new: NewFeeding, id: i32)
    requires
        table_admissible(rows),
        ids_unique(rows),
        new.admissible(),
        forall|i: int| 0 <= i < rows.len() ==> (#[trigger] rows[i]).id != id,
    ensures
        table_admissible(rows.push(stored(new, id))),
        ids_unique(rows.push(stored(new, id))),
{
    let t = rows.push(stored(new, id));
    assert forall|i: int| 0 <= i < t.len() implies (#[trigger] t[i]).admissible() by {
        if i < rows.len() {
            assert(t[i] == rows[i]);
        }
    }
    assert forall|i: int, j: int| 0 <= i < j < t.len() implies (#[trigger] t[i]).id != (
    #[trigger] t[j]).id by {
        assert(t[i] == rows[i]);
        if j < rows.len() {
            assert(t[j] == rows[j]);
        }
    }
}

/// Deleting a row keeps every remaining row admissible and the ids unique.
pub proof fn lemma_delete_keeps_table(rows: Seq<Model>, k: int)
    requires
        table_admissible(rows),
        ids_unique(rows),
        0 <= k < rows.len(),
    ensures
        table_admissible(rows.remove(k)),
        ids_unique(rows.remove(k)),
{
    let t = rows.remove(k);
    assert forall|i: int| 0 <= i < t.len() implies (#[trigger] t[i]).admissible() by {
        if i < k {
            assert(t[i] == rows[i]);
        } else {
            assert(t[i] == rows[i + 1]);
        }
    }
    assert forall|i: int, j: int| 0 <= i < j < t.len() implies (#[trigger] t[i]).id != (
    #[trigger] t[j]).id by {
        let i0 = if i < k { i } else { i + 1 };
        let j0 = if j < k { j } else { j + 1 };
        assert(t[i] == rows[i0]);
        assert(t[j] == rows[j0]);
        assert(rows[i0].id != rows[j0].id);
    }
}

} // verus!
