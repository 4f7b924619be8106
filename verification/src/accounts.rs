//! The registry's account book: username/password pairs kept as a list with
//! unique usernames. Persistence of the book is the caller's business; the
//! operations here are the pure register/authenticate rules.

use vstd::prelude::*;

use crate::PkgError;

verus! {

/// One account: a username and its password.
#[derive(Clone, Debug)]
pub struct User {
    pub username: String,
    pub password: String,
}

/// The set of registered users, with no two users sharing a username.
pub struct Accounts {
    pub users: Vec<User>,
}

impl Accounts {
    /// No two users share a username.
    pub open spec fn wf(&self) -> bool {
        forall|i: int, j: int|
            0 <= i < j < self.users@.len() ==> self.users@[i].username@ != self.users@[j].username@
    }

    /// Whether some user has this name.
    pub open spec fn has_user(&self, username: Seq<char>) -> bool {
        exists|i: int| 0 <= i < self.users@.len() && self.users@[i].username@ == username
    }

    /// Whether some user has this name and this password.
    pub open spec fn has_credentials(&self, username: Seq<char>, password: Seq<char>) -> bool {
        exists|i: int|
            0 <= i < self.users@.len() && self.users@[i].username@ == username
                && self.users@[i].password@ == password
    }

    /// An empty account book.
    pub fn new() -> (r: Accounts)
        ensures
            r.wf(),
            r.users@.len() == 0,
            forall|n: Seq<char>| !r.has_user(n),
    {
        Accounts { users: Vec::new() }
    }

    /// True exactly when some user has this name.
    fn contains_username(&self, username: &String) -> (r: bool)
        ensures
            r == self.has_user(username@),
    {
        let n = self.users.len();
        for i in 0..n
            invariant
                n == self.users@.len(),
                forall|k: int| 0 <= k < i ==> self.users@[k].username@ != username@,
        {
            if self.users[i].username.eq(username) {
                return true;
            }
        }
        false
    }

    /// Adds a user under a fresh username; refuses a name already taken.
    pub fn register_user(&mut self, username: String, password: String) -> (r: Result<
        (),
        PkgError,
    >)
        requires
            old(self).wf(),
        ensures
            final(self).wf(),
            r matches Ok(()) ==> !old(self).has_user(username@),
            r matches Ok(()) ==> final(self).users@ == old(self).users@.push(
                User { username, password },
            ),
            r matches Err(e) ==> e == PkgError::Conflict && old(self).has_user(username@),
            r matches Err(_) ==> final(self).users@ == old(self).users@,
    {
        if self.contains_username(&username) {
            return Err(PkgError::Conflict);
        }
        let u = User { username, password };
        self.users.push(u);
        assert forall|i: int, j: int|
            0 <= i < j < self.users@.len() implies self.users@[i].username@
            != self.users@[j].username@ by {
            if j == self.users@.len() - 1 {
                assert(self.users@[i] == old(self).users@[i]);
            }
        }
        Ok(())
    }

    /// True exactly when this username is registered with this password.
    pub fn authenticate(&self, username: &str, password: &str) -> (r: bool)
        ensures
            r == self.has_credentials(username@, password@),
    {
        let uo = username.to_owned();
        let po = password.to_owned();
        let n = self.users.len();
        for i in 0..n
            invariant
                n == self.users@.len(),
                uo@ == username@,
                po@ == password@,
                forall|k: int|
                    0 <= k < i ==> !(self.users@[k].username@ == username@
                        && self.users@[k].password@ == password@),
        {
            if self.users[i].username.eq(&uo) && self.users[i].password.eq(&po) {
                return true;
            }
        }
        false
    }
}

} // verus!
