//! Where the coordinator keeps its files under a project root, and the
//! session record that points into it.

use vstd::prelude::*;
use crate::text::{concat, owned, push_char, push_str};

verus! {

/// Joining a path component onto a path, as Unix paths join: an absolute
/// component replaces the path, an empty path yields the component, and a
/// separator is put between them unless the path already ends with one.
pub open spec fn path_join(base: Seq<char>, part: Seq<char>) -> Seq<char> {
    if part.len() > 0 && part[0] == '/' {
        part
    } else if base.len() == 0 {
        part
    } else if base.last() == '/' {
        base + part
    } else {
        base.push('/') + part
    }
}

/// `base` joined with `part`.
pub fn join(base: &str, part: &str) -> (r: String)
    ensures
        r@ == path_join(base@, part@),
{
    let absolute = part.unicode_len() > 0 && part.get_char(0) == '/';
    if absolute {
        return owned(part);
    }
    let n = base.unicode_len();
    if n == 0 {
        owned(part)
    } else if base.get_char(n - 1) == '/' {
        concat(base, part)
    } else {
        let mut r = owned(base);
        push_char(&mut r, '/');
        push_str(&mut r, part);
        r
    }
}

pub struct Paths {
    pub root: String,
}

impl Paths {
    pub open spec fn coordify_path(&self) -> Seq<char> {
        path_join(self.root@, ".coordify"@)
    }

    pub open spec fn runtime_path(&self) -> Seq<char> {
        path_join(self.coordify_path(), "runtime"@)
    }

    pub open spec fn sessions_path(&self) -> Seq<char> {
        path_join(self.coordify_path(), "sessions"@)
    }

    pub fn new(root: &str) -> (r: Paths)
        ensures
            r.root@ == root@,
    {
        Paths { root: owned(root) }
    }

    /// `<root>/.coordify`
    pub fn coordify(&self) -> (r: String)
        ensures
            r@ == self.coordify_path(),
    {
        join(self.root.as_str(), ".coordify")
    }

    /// `<root>/.coordify/runtime`
    pub fn runtime(&self) -> (r: String)
        ensures
            r@ == self.runtime_path(),
    {
        join(self.coordify().as_str(), "runtime")
    }

    /// The coordinator's socket.
    pub fn socket(&self) -> (r: String)
        ensures
            r@ == path_join(self.runtime_path(), "core.sock"@),
    {
        join(self.runtime().as_str(), "core.sock")
    }

    /// The lock that one coordinator per project holds.
    pub fn lock(&self) -> (r: String)
        ensures
            r@ == path_join(self.runtime_path(), "core.lock"@),
    {
        join(self.runtime().as_str(), "core.lock")
    }

    /// The session token file.
    pub fn token(&self) -> (r: String)
        ensures
            r@ == path_join(self.runtime_path(), "session.token"@),
    {
        join(self.runtime().as_str(), "session.token")
    }

    /// The coordinator's pid file.
    pub fn pid(&self) -> (r: String)
        ensures
            r@ == path_join(self.runtime_path(), "core.pid"@),
    {
        join(self.runtime().as_str(), "core.pid")
    }

    /// The live state snapshot.
    pub fn live_state(&self) -> (r: String)
        ensures
            r@ == path_join(self.runtime_path(), "live-state.json"@),
    {
        join(self.runtime().as_str(), "live-state.json")
    }

    /// `<root>/.coordify/sessions`
    pub fn sessions(&self) -> (r: String)
        ensures
            r@ == self.sessions_path(),
    {
        join(self.coordify().as_str(), "sessions")
    }

    /// The directory of one session.
    pub fn session_dir(&self, id: &str) -> (r: String)
        ensures
            r@ == path_join(self.sessions_path(), id@),
    {
        join(self.sessions().as_str(), id)
    }

    /// Knowledge kept across sessions.
    pub fn knowledge_dir(&self) -> (r: String)
        ensures
            r@ == path_join(self.coordify_path(), "knowledge"@),
    {
        join(self.coordify().as_str(), "knowledge")
    }
}

/// A coordination session: its id and its directory.
#[derive(Debug, Clone)]
pub struct Session {
    pub id: String,
    pub dir: String,
}

} // verus!
