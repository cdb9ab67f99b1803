use vstd::prelude::*;

use crate::clock::now_millis;
use crate::id::{random_id_len, Id};

verus! {

/// An item to be ranked: an identifier, the display value, and the creation
/// time in milliseconds since the Unix epoch.
pub struct Item {
    pub id: Id,
    pub value: String,
    pub created: i64,
}

impl Item {
    /// Create a new item with a generated identifier, stamped with the
    /// current time.
    pub fn new(value: String) -> (r: Item)
        ensures
            r.value@ == value@,
            r.id@.len() == random_id_len(),
    {
        Item { id: Id::new(None), value, created: now_millis() }
    }

    /// Create an item with a specific identifier and creation time, as when
    /// loading stored data.
    pub fn with_id(id: Id, value: String, created: i64) -> (r: Item)
        ensures
            r.id@ == id@,
            r.value@ == value@,
            r.created == created,
    {
        Item { id, value, created }
    }

    /// A copy of this item.
    pub fn duplicate(&self) -> (r: Item)
        ensures
            r.id@ == self.id@,
            r.value@ == self.value@,
            r.created == self.created,
    {
        Item { id: self.id.clone(), value: self.value.clone(), created: self.created }
    }
}

} // verus!
