//! A treat as the database stores it.
use crate::dates::chrono_timestamp_accepted;
use crate::text::trimmed;
use vstd::prelude::*;

verus! {

/// A stored treat: its name, the timestamp (`YYYY-MM-DD HH:MM:SS`) it was
/// given at, and whether it was entered after the fact.
#[derive(Debug)]
pub struct Model {
    pub id: i32,
    pub name: String,
    pub given_at: String,
    pub edited: bool,
}

/// A treat that passed the request checks and is ready to be stored; the
/// database assigns its `id`.
#[derive(Debug)]
pub struct NewTreat {
    pub name: String,
    pub given_at: String,
    pub edited: bool,
}


/// What every stored treat satisfies: a non-empty name that is its own trim, at a timestamp chrono accepts.
pub open spec fn admissible_treat(name: Seq<char>, given_at: Seq<char>) -> bool {
    name.len() > 0 && trimmed(name) == name && chrono_timestamp_accepted(given_at)
}

impl NewTreat {
    pub open spec fn admissible(self) -> bool {
        admissible_treat(self.name@, self.given_at@)
    }
}

impl Model {
    pub open spec fn admissible(self) -> bool {
        admissible_treat(self.name@, self.given_at@)
    }
}

/// The row the database stores for `new` under the id it assigns.
pub open spec fn stored(new: NewTreat, id: i32) -> Model {
    Model { id, name: new.name, given_at: new.given_at, edited: new.edited }
}

/// Every row of the table is admissible.
pub open spec fn table_admissible(rows: Seq<Model>) -> bool {
    forall|i: int| 0 <= i < rows.len() ==> (#[trigger] rows[i]).admissible()
}

/// No two rows of the table share an id.
pub open spec fn ids_unique(rows: Seq<Model>) -> bool {
    forall|i: int, j: int|
        0 <= i < j < rows.len() ==> (#[trigger] rows[i]).id != (#[trigger] rows[j]).id
}

/// Storing an admitted row under a fresh id keeps every row admissible and
/// the ids unique.
pub proof fn lemma_insert_keeps_table(rows: Seq<Model>, new: NewTreat, id: i32)
    requires
        table_admissible(rows),
        ids_unique(rows),
        new.admissible(),
        forall|i: int| 0 <= i < rows.len() ==> (#[trigger] rows[i]).id != id,
    ensures
        table_admissible(rows.push(stored(new, id))),
        ids_unique(rows.push(stored(new, id))),
{
    let t = rows.push(stored(new, id));
    assert forall|i: int| 0 <= i < t.len() implies (#[trigger] t[i]).admissible() by {
        if i < rows.len() {
            assert(t[i] == rows[i]);
        }
    }
    assert forall|i: int, j: int| 0 <= i < j < t.len() implies (#[trigger] t[i]).id != (
    #[trigger] t[j]).id by {
        assert(t[i] == rows[i]);
        if j < rows.len() {
            assert(t[j] == rows[j]);
        }
    }
}

/// Deleting a row keeps every remaining row admissible and the ids unique.
pub proof fn lemma_delete_keeps_table(rows: Seq<Model>, k: int)
    requires
        table_admissible(rows),
        ids_unique(rows),
        0 <= k < rows.len(),
    ensures
        table_admissible(rows.remove(k)),
        ids_unique(rows.remove(k)),
{
    let t = rows.remove(k);
    assert forall|i: int| 0 <= i < t.len() implies (#[trigger] t[i]).admissible() by {
        if i < k {
            assert(t[i] == rows[i]);
        } else {
            assert(t[i] == rows[i + 1]);
        }
    }
    assert forall|i: int, j: int| 0 <= i < j < t.len() implies (#[trigger] t[i]).id != (
    #[trigger] t[j]).id by {
        let i0 = if i < k { i } else { i + 1 };
        let j0 = if j < k { j } else { j + 1 };
        assert(t[i] == rows[i0]);
        assert(t[j] == rows[j0]);
        assert(rows[i0].id != rows[j0].id);
    }
}

} // verus!
