use vstd::prelude::*;

use crate::clock::now_millis;
use crate::id::{random_id_len, Id};

verus! {

/// A user who can create rankings.
pub struct User {
    pub id: Id,
    pub username: String,
    pub display_name: String,
    pub created: i64,
    pub last_active: i64,
}

impl User {
    /// Create a new user with a generated identifier (prefixed "u"); the
    /// display name falls back to the username.
    pub fn new(username: String, display_name: Option<String>) -> (r: User)
        ensures
            r.username@ == username@,
            (match display_name {
                Some(d) => r.display_name@ == d@,
                None => r.display_name@ == username@,
            }),
            r.id@.len() == "u"@.len() + random_id_len(),
            r.id@.take("u"@.len() as int) == "u"@,
            r.created == r.last_active,
    {
        let now = now_millis();
        let display = match display_name {
            Some(d) => d,
            None => username.clone(),
        };
        User {
            id: Id::new(Some("u")),
            username,
            display_name: display,
            created: now,
            last_active: now,
        }
    }

    /// Create a user with a specific identifier, as when loading stored
    /// data.
    pub fn with_id(id: Id, username: String, display_name: Option<String>) -> (r: User)
        ensures
            r.id@ == id@,
            r.username@ == username@,
            (match display_name {
                Some(d) => r.display_name@ == d@,
                None => r.display_name@ == username@,
            }),
            r.created == r.last_active,
    {
        let now = now_millis();
        let display = match display_name {
            Some(d) => d,
            None => username.clone(),
        };
        User { id, username, display_name: display, created: now, last_active: now }
    }

    /// Update the last-active timestamp to the current time; every other
    /// field is untouched.
    pub fn touch(&mut self)
        ensures
            final(self).id@ == old(self).id@,
            final(self).username@ == old(self).username@,
            final(self).display_name@ == old(self).display_name@,
            final(self).created == old(self).created,
    {
        self.last_active = now_millis();
    }
}

} // verus!
