use vstd::prelude::*;
use vstd::string::StrSliceExecFns;
use vstd::string::StringExecFns;

use crate::error::Error;
use crate::id::{is_prefix, str_starts_with, Id};
use crate::item::Item;
use crate::ranking::Ranking;
use crate::user::User;

verus! {

/// Metadata about a ranking set.
pub struct RankSetMeta {
    pub name: String,
    pub list_type: String,
    pub author: String,
    pub description: String,
    pub created: i64,
}

/// The first position whose user carries the given identifier text, either
/// as its id or as its username: ids are tried over the whole roster first.
pub open spec fn find_user_by_id(users: Seq<User>, ident: Seq<char>, i: int) -> Option<int>
    decreases users.len() - i,
{
    if i < 0 || i >= users.len() {
        None
    } else if users[i].id@ == ident {
        Some(i)
    } else {
        find_user_by_id(users, ident, i + 1)
    }
}

/// The first position whose user has the given username.
pub open spec fn find_user_by_name(users: Seq<User>, ident: Seq<char>, i: int) -> Option<int>
    decreases users.len() - i,
{
    if i < 0 || i >= users.len() {
        None
    } else if users[i].username@ == ident {
        Some(i)
    } else {
        find_user_by_name(users, ident, i + 1)
    }
}

/// Where a user identified by id or by username stands, if anywhere.
pub open spec fn lookup_user(users: Seq<User>, ident: Seq<char>) -> Option<int> {
    if find_user_by_id(users, ident, 0) is Some {
        find_user_by_id(users, ident, 0)
    } else {
        find_user_by_name(users, ident, 0)
    }
}

/// The first position whose item carries the given identifier text as its
/// id; ids are tried over the whole list first.
pub open spec fn find_item_by_id(items: Seq<Item>, ident: Seq<char>, i: int) -> Option<int>
    decreases items.len() - i,
{
    if i < 0 || i >= items.len() {
        None
    } else if items[i].id@ == ident {
        Some(i)
    } else {
        find_item_by_id(items, ident, i + 1)
    }
}

/// The first position whose item has the given value.
pub open spec fn find_item_by_value(items: Seq<Item>, ident: Seq<char>, i: int) -> Option<int>
    decreases items.len() - i,
{
    if i < 0 || i >= items.len() {
        None
    } else if items[i].value@ == ident {
        Some(i)
    } else {
        find_item_by_value(items, ident, i + 1)
    }
}

/// Where an item identified by id or by value stands, if anywhere.
pub open spec fn lookup_item(items: Seq<Item>, ident: Seq<char>) -> Option<int> {
    if find_item_by_id(items, ident, 0) is Some {
        find_item_by_id(items, ident, 0)
    } else {
        find_item_by_value(items, ident, 0)
    }
}

/// Whether a ranking's session is named by the given text: exactly, or by
/// prefix.
pub open spec fn session_matches(r: Ranking, sid: Seq<char>) -> bool {
    r.session.info.id@ == sid || is_prefix(sid, r.session.info.id@)
}

/// The first ranking whose session the given text names.
pub open spec fn find_ranking(rankings: Seq<Ranking>, sid: Seq<char>, i: int) -> Option<int>
    decreases rankings.len() - i,
{
    if i < 0 || i >= rankings.len() {
        None
    } else if session_matches(rankings[i], sid) {
        Some(i)
    } else {
        find_ranking(rankings, sid, i + 1)
    }
}


/// Whether some ranking belongs to the given user.
pub open spec fn has_ranking_for(rs: Seq<Ranking>, uid: Seq<char>) -> bool {
    exists|k: int| 0 <= k < rs.len() && (#[trigger] rs[k]).user_id@ == uid
}

/// The rankings left once every ranking of the given user is dropped,
/// scanning from `i`.
pub open spec fn rankings_without_user(rs: Seq<Ranking>, uid: Seq<char>, i: int) -> Seq<Ranking>
    decreases rs.len() - i,
{
    if i < 0 || i >= rs.len() {
        Seq::empty()
    } else if rs[i].user_id@ == uid {
        rankings_without_user(rs, uid, i + 1)
    } else {
        seq![rs[i]] + rankings_without_user(rs, uid, i + 1)
    }
}

/// The rankings left once every ranking of the given session is dropped,
/// scanning from `i`.
pub open spec fn rankings_without_session(rs: Seq<Ranking>, sid: Seq<char>, i: int) -> Seq<
    Ranking,
>
    decreases rs.len() - i,
{
    if i < 0 || i >= rs.len() {
        Seq::empty()
    } else if rs[i].session.info.id@ == sid {
        rankings_without_session(rs, sid, i + 1)
    } else {
        seq![rs[i]] + rankings_without_session(rs, sid, i + 1)
    }
}

/// A complete ranking set: its metadata, the users who rank, the items to
/// rank (each roster holding every id at most once), and the rankings made
/// so far.
pub struct RankSet {
    pub meta: RankSetMeta,
    pub users: Vec<User>,
    pub items: Vec<Item>,
    pub rankings: Vec<Ranking>,
}

impl RankSet {
    /// A fresh, empty ranking set.
    pub fn new(name: String, author: String, description: String) -> (r: RankSet)
        ensures
            r.meta.name@ == name@,
            r.meta.author@ == author@,
            r.meta.description@ == description@,
            r.meta.list_type@ == "rankset"@,
            r.users@.len() == 0,
            r.items@.len() == 0,
            r.rankings@.len() == 0,
    {
        RankSet {
            meta: RankSetMeta {
                name,
                list_type: {
                    let t: String = "rankset".to_owned();
                    t
                },
                author,
                description,
                created: crate::clock::now_millis(),
            },
            users: Vec::new(),
            items: Vec::new(),
            rankings: Vec::new(),
        }
    }

    /// Add a user: rejected as a duplicate when a user with the same id is
    /// already present, untouched otherwise.
    pub fn add_user(&mut self, user: User) -> (r: Result<(), Error>)
        ensures
            r is Ok <==> find_user_by_id(old(self).users@, user.id@, 0) is None,
            r is Ok ==> final(self).users@ == old(self).users@.push(user),
            r is Err ==> final(self).users@ == old(self).users@ && (r matches Err(e) && e matches
                Error::DuplicateUser(t) && t@ == user.username@),
            final(self).items@ == old(self).items@,
            final(self).rankings@ == old(self).rankings@,
            final(self).meta == old(self).meta,
    {
        let n = self.users.len();
        let mut i: usize = 0;
        while i < n
            invariant
                n == self.users@.len(),
                i <= n,
                find_user_by_id(self.users@, user.id@, 0) == find_user_by_id(
                    self.users@,
                    user.id@,
                    i as int,
                ),
            decreases n - i,
        {
            if self.users[i].id.eq(&user.id) {
                return Err(Error::DuplicateUser(user.username));
            }
            i = i + 1;
        }
        self.users.push(user);
        Ok(())
    }

    /// Find a user by id or by username.
    pub fn get_user(&self, identifier: &str) -> (r: Result<&User, Error>)
        ensures
            match lookup_user(self.users@, identifier@) {
                Some(i) => r matches Ok(u) && *u == self.users@[i],
                None => r matches Err(e) && (e matches Error::UserNotFound(t) && t@
                    == identifier@),
            },
    {
        let n = self.users.len();
        let mut i: usize = 0;
        while i < n
            invariant
                n == self.users@.len(),
                i <= n,
                find_user_by_id(self.users@, identifier@, 0) == find_user_by_id(
                    self.users@,
                    identifier@,
                    i as int,
                ),
            decreases n - i,
        {
            if crate::id::str_eq(self.users[i].id.as_str(), identifier) {
                return Ok(&self.users[i]);
            }
            i = i + 1;
        }
        let mut i: usize = 0;
        while i < n
            invariant
                n == self.users@.len(),
                i <= n,
                find_user_by_id(self.users@, identifier@, 0) is None,
                find_user_by_name(self.users@, identifier@, 0) == find_user_by_name(
                    self.users@,
                    identifier@,
                    i as int,
                ),
            decreases n - i,
        {
            if crate::id::str_eq(self.users[i].username.as_str(), identifier) {
                return Ok(&self.users[i]);
            }
            i = i + 1;
        }
        Err(Error::UserNotFound(identifier.to_owned()))
    }

    /// Add an item: rejected as a duplicate when an item with the same id
    /// is already present, untouched otherwise.
    pub fn add_item(&mut self, item: Item) -> (r: Result<(), Error>)
        ensures
            r is Ok <==> find_item_by_id(old(self).items@, item.id@, 0) is None,
            r is Ok ==> final(self).items@ == old(self).items@.push(item),
            r is Err ==> final(self).items@ == old(self).items@ && (r matches Err(e) && e matches
                Error::DuplicateItem(t) && t@ == item.value@),
            final(self).users@ == old(self).users@,
            final(self).rankings@ == old(self).rankings@,
            final(self).meta == old(self).meta,
    {
        let n = self.items.len();
        let mut i: usize = 0;
        while i < n
            invariant
                n == self.items@.len(),
                i <= n,
                find_item_by_id(self.items@, item.id@, 0) == find_item_by_id(
                    self.items@,
                    item.id@,
                    i as int,
                ),
            decreases n - i,
        {
            if self.items[i].id.eq(&item.id) {
                return Err(Error::DuplicateItem(item.value));
            }
            i = i + 1;
        }
        self.items.push(item);
        Ok(())
    }

    /// Find an item by id or by value.
    pub fn get_item(&self, identifier: &str) -> (r: Result<&Item, Error>)
        ensures
            match lookup_item(self.items@, identifier@) {
                Some(i) => r matches Ok(it) && *it == self.items@[i],
                None => r matches Err(e) && (e matches Error::ItemNotFound(t) && t@
                    == identifier@),
            },
    {
        let n = self.items.len();
        let mut i: usize = 0;
        while i < n
            invariant
                n == self.items@.len(),
                i <= n,
                find_item_by_id(self.items@, identifier@, 0) == find_item_by_id(
                    self.items@,
                    identifier@,
                    i as int,
                ),
            decreases n - i,
        {
            if crate::id::str_eq(self.items[i].id.as_str(), identifier) {
                return Ok(&self.items[i]);
            }
            i = i + 1;
        }
        let mut i: usize = 0;
        while i < n
            invariant
                n == self.items@.len(),
                i <= n,
                find_item_by_id(self.items@, identifier@, 0) is None,
                find_item_by_value(self.items@, identifier@, 0) == find_item_by_value(
                    self.items@,
                    identifier@,
                    i as int,
                ),
            decreases n - i,
        {
            if crate::id::str_eq(self.items[i].value.as_str(), identifier) {
                return Ok(&self.items[i]);
            }
            i = i + 1;
        }
        Err(Error::ItemNotFound(identifier.to_owned()))
    }

    /// Whether some item already carries the given display value.
    pub fn has_item_with_value(&self, value: &str) -> (r: bool)
        ensures
            r == (find_item_by_value(self.items@, value@, 0) is Some),
    {
        let n = self.items.len();
        let mut i: usize = 0;
        while i < n
            invariant
                n == self.items@.len(),
                i <= n,
                find_item_by_value(self.items@, value@, 0) == find_item_by_value(
                    self.items@,
                    value@,
                    i as int,
                ),
            decreases n - i,
        {
            if crate::id::str_eq(self.items[i].value.as_str(), value) {
                return true;
            }
            i = i + 1;
        }
        false
    }

    /// Remove the item the identifier names (by id, else by value); a name
    /// matching nothing is reported as not found.
    pub fn remove_item(&mut self, identifier: &str) -> (r: Result<(), Error>)
        ensures
            match lookup_item(old(self).items@, identifier@) {
                Some(i) => r is Ok && final(self).items@ == old(self).items@.remove(i),
                None => r matches Err(e) && (e matches Error::ItemNotFound(t) && t@
                    == identifier@) && final(self).items@ == old(self).items@,
            },
            final(self).users@ == old(self).users@,
            final(self).rankings@ == old(self).rankings@,
            final(self).meta == old(self).meta,
    {
        let n = self.items.len();
        let mut i: usize = 0;
        while i < n
            invariant
                n == self.items@.len(),
                self.items@ == old(self).items@,
                self.users@ == old(self).users@,
                self.rankings@ == old(self).rankings@,
                self.meta == old(self).meta,
                i <= n,
                find_item_by_id(self.items@, identifier@, 0) == find_item_by_id(
                    self.items@,
                    identifier@,
                    i as int,
                ),
            decreases n - i,
        {
            if crate::id::str_eq(self.items[i].id.as_str(), identifier) {
                self.items.remove(i);
                return Ok(());
            }
            i = i + 1;
        }
        let mut i: usize = 0;
        while i < n
            invariant
                n == self.items@.len(),
                self.items@ == old(self).items@,
                self.users@ == old(self).users@,
                self.rankings@ == old(self).rankings@,
                self.meta == old(self).meta,
                i <= n,
                find_item_by_id(self.items@, identifier@, 0) is None,
                find_item_by_value(self.items@, identifier@, 0) == find_item_by_value(
                    self.items@,
                    identifier@,
                    i as int,
                ),
            decreases n - i,
        {
            if crate::id::str_eq(self.items[i].value.as_str(), identifier) {
                self.items.remove(i);
                return Ok(());
            }
            i = i + 1;
        }
        Err(Error::ItemNotFound(identifier.to_owned()))
    }


    /// Remove the user the identifier names (by id, else by username). A
    /// user who still owns rankings is only removed under `cascade`, which
    /// drops those rankings too.
    pub fn remove_user(&mut self, identifier: &str, cascade: bool) -> (r: Result<(), Error>)
        ensures
            final(self).items@ == old(self).items@,
            final(self).meta == old(self).meta,
            match lookup_user(old(self).users@, identifier@) {
                None => r matches Err(e) && (e matches Error::UserNotFound(t) && t@
                    == identifier@) && final(self).users@ == old(self).users@ && final(self).rankings@ == old(self).rankings@,
                Some(i) => {
                    let uid = old(self).users@[i].id@;
                    if !cascade && has_ranking_for(old(self).rankings@, uid) {
                        r matches Err(e) && e is UserHasRankings && final(self).users@ == old(self).users@ && final(self).rankings@ == old(self).rankings@
                    } else {
                        r is Ok && final(self).users@ == old(self).users@.remove(i) && final(self).rankings@ == (if cascade {
                            rankings_without_user(old(self).rankings@, uid, 0)
                        } else {
                            old(self).rankings@
                        })
                    }
                },
            },
    {
        // Locate the user: by id over the whole roster, then by username.
        let n = self.users.len();
        let mut idx: usize = 0;
        let mut found = false;
        while idx < n && !found
            invariant
                n == self.users@.len(),
                idx <= n,
                self.users@ == old(self).users@,
                found ==> idx < n && find_user_by_id(self.users@, identifier@, 0) == Some(
                    idx as int,
                ),
                !found ==> find_user_by_id(self.users@, identifier@, 0) == find_user_by_id(
                    self.users@,
                    identifier@,
                    idx as int,
                ),
            decreases n - idx, (if found {
                0int
            } else {
                1int
            }),
        {
            if crate::id::str_eq(self.users[idx].id.as_str(), identifier) {
                found = true;
            } else {
                idx = idx + 1;
            }
        }
        if !found {
            idx = 0;
            while idx < n && !found
                invariant
                    n == self.users@.len(),
                    idx <= n,
                    self.users@ == old(self).users@,
                    find_user_by_id(self.users@, identifier@, 0) is None,
                    found ==> idx < n && find_user_by_name(self.users@, identifier@, 0) == Some(
                        idx as int,
                    ),
                    !found ==> find_user_by_name(self.users@, identifier@, 0)
                        == find_user_by_name(self.users@, identifier@, idx as int),
                decreases n - idx, (if found {
                    0int
                } else {
                    1int
                }),
            {
                if crate::id::str_eq(self.users[idx].username.as_str(), identifier) {
                    found = true;
                } else {
                    idx = idx + 1;
                }
            }
        }
        if !found {
            return Err(Error::UserNotFound(identifier.to_owned()));
        }
        proof {
            assert(lookup_user(self.users@, identifier@) == Some(idx as int));
        }
        let uid = self.users[idx].id.clone();
        let ghost uidv = uid@;

        // Does the user still own rankings?
        let rn = self.rankings.len();
        let mut k: usize = 0;
        let mut owns = false;
        while k < rn && !owns
            invariant
                rn == self.rankings@.len(),
                k <= rn,
                uid@ == uidv,
                self.users@ == old(self).users@,
                self.rankings@ == old(self).rankings@,
                owns ==> has_ranking_for(self.rankings@, uidv),
                !owns ==> (forall|t: int|
                    0 <= t < k ==> (#[trigger] self.rankings@[t]).user_id@ != uidv),
            decreases rn - k, (if owns {
                0int
            } else {
                1int
            }),
        {
            if self.rankings[k].user_id.eq(&uid) {
                owns = true;
                proof {
                    assert((#[trigger] self.rankings@[k as int]).user_id@ == uidv);
                }
            } else {
                proof {
                    assert(self.rankings@[k as int].user_id@ != uidv);
                }
                k = k + 1;
            }
        }
        proof {
            if !owns {
                assert(!has_ranking_for(self.rankings@, uidv));
            }
        }
        if owns && !cascade {
            return Err(Error::UserHasRankings);
        }
        if cascade {
            let ghost orig = self.rankings@;
            let mut kept: Vec<Ranking> = Vec::with_capacity(self.rankings.len());
            let mut k: usize = 0;
            proof {
                assert(rankings_without_user(orig, uidv, 0) =~= kept@ + rankings_without_user(
                    orig,
                    uidv,
                    0,
                ));
            }
            while self.rankings.len() > 0
                invariant
                    self.users@ == old(self).users@,
                    self.items@ == old(self).items@,
                    self.meta == old(self).meta,
                    k <= orig.len(),
                    orig.len() <= usize::MAX,
                    uid@ == uidv,
                    self.rankings@ == orig.skip(k as int),
                    rankings_without_user(orig, uidv, 0) == kept@ + rankings_without_user(
                        orig,
                        uidv,
                        k as int,
                    ),
                decreases self.rankings@.len(),
            {
                proof {
                    assert(orig.skip(k as int)[0] == orig[k as int]);
                    assert(orig.skip(k as int).drop_first() =~= orig.skip(k as int + 1));
                }
                let rk = self.rankings.remove(0);
                proof {
                    assert(self.rankings@ =~= orig.skip(k as int + 1));
                }
                if !rk.user_id.eq(&uid) {
                    let ghost pre = kept@;
                    kept.push(rk);
                    proof {
                        assert(pre + (seq![orig[k as int]] + rankings_without_user(
                            orig,
                            uidv,
                            k as int + 1,
                        )) =~= kept@ + rankings_without_user(orig, uidv, k as int + 1));
                    }
                }
                k = k + 1;
            }
            proof {
                assert(rankings_without_user(orig, uidv, orig.len() as int)
                    =~= Seq::<Ranking>::empty());
                assert(kept@ + rankings_without_user(orig, uidv, orig.len() as int) =~= kept@);
            }
            self.rankings = kept;
        }
        self.users.remove(idx);
        Ok(())
    }

    /// Change the value of the item the identifier names. A value already
    /// carried by a different item is rejected as a duplicate; the match
    /// with the edited item itself (by id or by value) is allowed.
    pub fn update_item_value(&mut self, identifier: &str, new_value: String) -> (r: Result<
        (),
        Error,
    >)
        ensures
            final(self).users@ == old(self).users@,
            final(self).rankings@ == old(self).rankings@,
            final(self).meta == old(self).meta,
            ({
                let dup = find_item_by_value(old(self).items@, new_value@, 0);
                if dup matches Some(d) && old(self).items@[d].id@ != identifier@ && old(self).items@[d].value@ != identifier@ {
                    r matches Err(e) && (e matches Error::DuplicateItem(t) && t@ == new_value@)
                        && final(self).items@ == old(self).items@
                } else {
                    match lookup_item(old(self).items@, identifier@) {
                        None => r matches Err(e) && (e matches Error::ItemNotFound(t) && t@
                            == identifier@) && final(self).items@ == old(self).items@,
                        Some(i) => r is Ok && final(self).items@.len() == old(self).items@.len()
                            && final(self).items@[i].id@ == old(self).items@[i].id@ && final(self).items@[i].value@ == new_value@ && final(self).items@[i].created == old(self).items@[i].created && (forall|k: int|
                            0 <= k < old(self).items@.len() && k != i ==> final(self).items@[k]
                                == old(self).items@[k]),
                    }
                }
            }),
    {
        let n = self.items.len();

        // A duplicate value elsewhere blocks the edit.
        let mut d: usize = 0;
        let mut dup_done = false;
        while d < n && !dup_done
            invariant
                n == self.items@.len(),
                self.items@ == old(self).items@,
                d <= n,
                dup_done ==> d < n && find_item_by_value(self.items@, new_value@, 0) == Some(
                    d as int,
                ) && (self.items@[d as int].id@ == identifier@ || self.items@[d as int].value@
                    == identifier@),
                !dup_done ==> find_item_by_value(self.items@, new_value@, 0)
                    == find_item_by_value(self.items@, new_value@, d as int),
            decreases n - d, (if dup_done {
                0int
            } else {
                1int
            }),
        {
            if crate::id::str_eq(self.items[d].value.as_str(), new_value.as_str()) {
                if !crate::id::str_eq(self.items[d].id.as_str(), identifier)
                    && !crate::id::str_eq(self.items[d].value.as_str(), identifier) {
                    return Err(Error::DuplicateItem(new_value));
                }
                dup_done = true;
            } else {
                d = d + 1;
            }
        }

        // Locate the item: by id over the whole list, then by value.
        let mut idx: usize = 0;
        let mut found = false;
        while idx < n && !found
            invariant
                n == self.items@.len(),
                idx <= n,
                self.items@ == old(self).items@,
                found ==> idx < n && find_item_by_id(self.items@, identifier@, 0) == Some(
                    idx as int,
                ),
                !found ==> find_item_by_id(self.items@, identifier@, 0) == find_item_by_id(
                    self.items@,
                    identifier@,
                    idx as int,
                ),
            decreases n - idx, (if found {
                0int
            } else {
                1int
            }),
        {
            if crate::id::str_eq(self.items[idx].id.as_str(), identifier) {
                found = true;
            } else {
                idx = idx + 1;
            }
        }
        if !found {
            idx = 0;
            while idx < n && !found
                invariant
                    n == self.items@.len(),
                    idx <= n,
                    self.items@ == old(self).items@,
                    find_item_by_id(self.items@, identifier@, 0) is None,
                    found ==> idx < n && find_item_by_value(self.items@, identifier@, 0) == Some(
                        idx as int,
                    ),
                    !found ==> find_item_by_value(self.items@, identifier@, 0)
                        == find_item_by_value(self.items@, identifier@, idx as int),
                decreases n - idx, (if found {
                    0int
                } else {
                    1int
                }),
            {
                if crate::id::str_eq(self.items[idx].value.as_str(), identifier) {
                    found = true;
                } else {
                    idx = idx + 1;
                }
            }
        }
        if !found {
            return Err(Error::ItemNotFound(identifier.to_owned()));
        }
        proof {
            assert(lookup_item(self.items@, identifier@) == Some(idx as int));
        }
        let it = &mut self.items[idx];
        it.value = new_value;
        Ok(())
    }

    /// Change the display name of the user the identifier names, and mark
    /// the user active now.
    pub fn update_user_display_name(&mut self, identifier: &str, new_display_name: String) -> (r:
        Result<(), Error>)
        ensures
            final(self).items@ == old(self).items@,
            final(self).rankings@ == old(self).rankings@,
            final(self).meta == old(self).meta,
            match lookup_user(old(self).users@, identifier@) {
                None => r matches Err(e) && (e matches Error::UserNotFound(t) && t@
                    == identifier@) && final(self).users@ == old(self).users@,
                Some(i) => r is Ok && final(self).users@.len() == old(self).users@.len() && final(self).users@[i].id@ == old(self).users@[i].id@ && final(self).users@[i].username@
                    == old(self).users@[i].username@ && final(self).users@[i].display_name@
                    == new_display_name@ && final(self).users@[i].created == old(self).users@[i].created && (forall|k: int|
                    0 <= k < old(self).users@.len() && k != i ==> final(self).users@[k] == old(self).users@[k]),
            },
    {
        let n = self.users.len();
        let mut idx: usize = 0;
        let mut found = false;
        while idx < n && !found
            invariant
                n == self.users@.len(),
                idx <= n,
                self.users@ == old(self).users@,
                found ==> idx < n && find_user_by_id(self.users@, identifier@, 0) == Some(
                    idx as int,
                ),
                !found ==> find_user_by_id(self.users@, identifier@, 0) == find_user_by_id(
                    self.users@,
                    identifier@,
                    idx as int,
                ),
            decreases n - idx, (if found {
                0int
            } else {
                1int
            }),
        {
            if crate::id::str_eq(self.users[idx].id.as_str(), identifier) {
                found = true;
            } else {
                idx = idx + 1;
            }
        }
        if !found {
            idx = 0;
            while idx < n && !found
                invariant
                    n == self.users@.len(),
                    idx <= n,
                    self.users@ == old(self).users@,
                    find_user_by_id(self.users@, identifier@, 0) is None,
                    found ==> idx < n && find_user_by_name(self.users@, identifier@, 0) == Some(
                        idx as int,
                    ),
                    !found ==> find_user_by_name(self.users@, identifier@, 0)
                        == find_user_by_name(self.users@, identifier@, idx as int),
                decreases n - idx, (if found {
                    0int
                } else {
                    1int
                }),
            {
                if crate::id::str_eq(self.users[idx].username.as_str(), identifier) {
                    found = true;
                } else {
                    idx = idx + 1;
                }
            }
        }
        if !found {
            return Err(Error::UserNotFound(identifier.to_owned()));
        }
        proof {
            assert(lookup_user(self.users@, identifier@) == Some(idx as int));
        }
        let u = &mut self.users[idx];
        u.display_name = new_display_name;
        u.touch();
        Ok(())
    }

    /// Store a ranking: any ranking of the same session is replaced, so one
    /// session is journalled at most once.
    pub fn upsert_ranking(&mut self, ranking: Ranking)
        ensures
            final(self).users@ == old(self).users@,
            final(self).items@ == old(self).items@,
            final(self).meta == old(self).meta,
            final(self).rankings@ == rankings_without_session(
                old(self).rankings@,
                ranking.session.info.id@,
                0,
            ).push(ranking),
    {
        let ghost orig = self.rankings@;
        let ghost sidv = ranking.session.info.id@;
        let mut kept: Vec<Ranking> = Vec::with_capacity(self.rankings.len());
        let mut k: usize = 0;
        proof {
            assert(rankings_without_session(orig, sidv, 0) =~= kept@ + rankings_without_session(
                orig,
                sidv,
                0,
            ));
        }
        while self.rankings.len() > 0
            invariant
                self.users@ == old(self).users@,
                self.items@ == old(self).items@,
                self.meta == old(self).meta,
                k <= orig.len(),
                orig.len() <= usize::MAX,
                sidv == ranking.session.info.id@,
                self.rankings@ == orig.skip(k as int),
                rankings_without_session(orig, sidv, 0) == kept@ + rankings_without_session(
                    orig,
                    sidv,
                    k as int,
                ),
            decreases self.rankings@.len(),
        {
            proof {
                assert(orig.skip(k as int).len() == orig.len() - k);
                assert(orig.skip(k as int)[0] == orig[k as int]);
                assert(orig.skip(k as int).drop_first() =~= orig.skip(k as int + 1));
            }
            let rk = self.rankings.remove(0);
            proof {
                assert(self.rankings@ =~= orig.skip(k as int + 1));
            }
            if !rk.session.info.id.eq(&ranking.session.info.id) {
                let ghost pre = kept@;
                kept.push(rk);
                proof {
                    assert(pre + (seq![orig[k as int]] + rankings_without_session(
                        orig,
                        sidv,
                        k as int + 1,
                    )) =~= kept@ + rankings_without_session(orig, sidv, k as int + 1));
                }
            } else {
                proof {
                    assert(orig[k as int].session.info.id@ == sidv);
                    assert(rankings_without_session(orig, sidv, k as int)
                        == rankings_without_session(orig, sidv, k as int + 1));
                }
            }
            k = k + 1;
        }
        proof {
            assert(rankings_without_session(orig, sidv, orig.len() as int)
                =~= Seq::<Ranking>::empty());
            assert(kept@ + rankings_without_session(orig, sidv, orig.len() as int) =~= kept@);
        }
        kept.push(ranking);
        self.rankings = kept;
    }

    /// The first ranking whose session the given text names, exactly or by
    /// prefix.
    pub fn find_ranking_index(&self, session_id: &str) -> (r: Option<usize>)
        ensures
            match r {
                Some(i) => find_ranking(self.rankings@, session_id@, 0) == Some(i as int),
                None => find_ranking(self.rankings@, session_id@, 0) is None,
            },
    {
        let n = self.rankings.len();
        let mut i: usize = 0;
        while i < n
            invariant
                n == self.rankings@.len(),
                i <= n,
                find_ranking(self.rankings@, session_id@, 0) == find_ranking(
                    self.rankings@,
                    session_id@,
                    i as int,
                ),
            decreases n - i,
        {
            let rid = self.rankings[i].session.info.id.as_str();
            if crate::id::str_eq(rid, session_id) || str_starts_with(rid, session_id) {
                return Some(i);
            }
            i = i + 1;
        }
        None
    }
}


/// Forward scan deciding whether a path's last component carries an
/// extension: a separator starts a new component, and a dot counts only
/// past the component's first character (a leading dot names a hidden
/// file, not an extension).
pub open spec fn scan_extension(s: Seq<char>, i: int, comp_start: int, has: bool) -> bool
    decreases s.len() - i,
{
    if i < 0 || i >= s.len() {
        has
    } else if s[i] == '/' {
        scan_extension(s, i + 1, i + 1, false)
    } else if s[i] == '.' && i > comp_start {
        scan_extension(s, i + 1, comp_start, true)
    } else {
        scan_extension(s, i + 1, comp_start, has)
    }
}

/// Whether the last component of the path carries an extension.
pub open spec fn path_has_extension(s: Seq<char>) -> bool {
    scan_extension(s, 0, 0, false)
}

/// Resolve the name of a ranking-set file: a path that exists is used as
/// given; otherwise the name is looked for under the `ranksets` directory,
/// with the `.rankset` extension appended when the name carries none. The
/// caller reports whether the path exists as given.
pub fn resolve_rankset_path(file: &str, exists: bool) -> (r: String)
    ensures
        exists ==> r@ == file@,
        !exists ==> r@ == (if path_has_extension("ranksets/"@ + file@) {
            "ranksets/"@ + file@
        } else {
            "ranksets/"@ + file@ + ".rankset"@
        }),
{
    if exists {
        return file.to_owned();
    }
    let mut joined: String = "ranksets/".to_owned();
    joined.append(file);
    let n = joined.as_str().unicode_len();
    let mut i: usize = 0;
    let mut comp_start: usize = 0;
    let mut has_ext = false;
    while i < n
        invariant
            n == joined@.len(),
            i <= n,
            comp_start <= n,
            joined@ == "ranksets/"@ + file@,
            path_has_extension(joined@) == scan_extension(
                joined@,
                i as int,
                comp_start as int,
                has_ext,
            ),
        decreases n - i,
    {
        let c = joined.as_str().get_char(i);
        if c == '/' {
            comp_start = i + 1;
            has_ext = false;
        } else if c == '.' && i > comp_start {
            has_ext = true;
        }
        i = i + 1;
    }
    if !has_ext {
        joined.append(".rankset");
    }
    joined
}

} // verus!
