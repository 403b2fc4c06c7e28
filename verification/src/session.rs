//! Server-side sessions: a record keyed by an opaque id with an
//! expiry, and the store that holds all live sessions. Callers pass
//! the current time in seconds; the sweep that runs on a timer lives
//! outside the library and calls `cleanup` like any other writer.

use vstd::prelude::*;
use crate::strmap::StrMap;

verus! {

/// Sessions last an hour unless renewed.
pub const SESSION_LIFETIME: u64 = 3600;

/// Relies on `uuid::Uuid::new_v4` and its `Display` form: a fresh
/// random v4 uuid written in the 36-character hyphenated ASCII form.
/// Nothing is promised of which id comes back. Session ids and
/// generated upload names both draw from here.
#[verifier::external_body]
pub(crate) fn fresh_uuid() -> (r: String)
    ensures
        r@.len() == 36,
        r.is_ascii(),
{
    uuid::Uuid::new_v4().to_string()
}

/// What a session is mathematically: every field as a plain value.
pub ghost struct SessionView {
    pub id: Seq<char>,
    pub user_id: Option<Seq<char>>,
    pub username: Option<Seq<char>>,
    pub created_at: u64,
    pub expires_at: u64,
    pub data: Map<Seq<char>, Seq<char>>,
}

#[derive(Debug)]
pub struct Session {
    pub id: String,
    pub user_id: Option<String>,
    pub username: Option<String>,
    /// Seconds since the Unix epoch.
    pub created_at: u64,
    /// Seconds since the Unix epoch.
    pub expires_at: u64,
    pub data: StrMap,
}

/// `now + delta`, stopped at the top of the range.
pub open spec fn sat_add(now: u64, delta: u64) -> u64 {
    if now + delta <= u64::MAX {
        (now + delta) as u64
    } else {
        u64::MAX
    }
}

impl View for Session {
    type V = SessionView;

    open spec fn view(&self) -> SessionView {
        SessionView {
            id: self.id@,
            user_id: match self.user_id {
                Some(u) => Some(u@),
                None => None,
            },
            username: match self.username {
                Some(u) => Some(u@),
                None => None,
            },
            created_at: self.created_at,
            expires_at: self.expires_at,
            data: self.data@,
        }
    }
}

impl Session {
    pub open spec fn wf(&self) -> bool {
        self.data.wf()
    }

    /// A fresh anonymous session created at `now`, expiring one
    /// lifetime later, under the given id or a fresh random one.
    pub fn new(session_id: Option<String>, now: u64) -> (r: Session)
        ensures
            r.wf(),
            session_id matches Some(id) ==> r.id == id,
            session_id is None ==> r.id@.len() == 36 && r.id.is_ascii(),
            r@.user_id is None,
            r@.username is None,
            r@.created_at == now,
            r@.expires_at == sat_add(now, SESSION_LIFETIME),
            r@.data == Map::<Seq<char>, Seq<char>>::empty(),
    {
        let id = match session_id {
            Some(id) => id,
            None => fresh_uuid(),
        };
        let expires_at = if now <= u64::MAX - SESSION_LIFETIME {
            now + SESSION_LIFETIME
        } else {
            u64::MAX
        };
        Session {
            id,
            user_id: None,
            username: None,
            created_at: now,
            expires_at,
            data: StrMap::new(),
        }
    }

    /// The same session bound to a user.
    pub fn with_user(self, user_id: &str, username: &str) -> (r: Session)
        ensures
            self.wf() ==> r.wf(),
            r@.user_id == Some(user_id@),
            r@.username == Some(username@),
            r.id == self.id,
            r.created_at == self.created_at,
            r.expires_at == self.expires_at,
            r.data == self.data,
    {
        Session {
            user_id: Some(String::from_str(user_id)),
            username: Some(String::from_str(username)),
            ..self
        }
    }

    /// Pushes the expiry to `now` plus the given duration in seconds.
    pub fn set_expiry(&mut self, now: u64, duration_secs: u64)
        ensures
            final(self).expires_at == sat_add(now, duration_secs),
            *final(self) == (Session { expires_at: final(self).expires_at, ..*old(self) }),
    {
        self.expires_at = if now <= u64::MAX - duration_secs {
            now + duration_secs
        } else {
            u64::MAX
        };
    }

    /// Binds a data key, replacing any earlier value.
    pub fn set_data(&mut self, key: &str, value: &str)
        requires
            old(self).wf(),
        ensures
            final(self).wf(),
            final(self)@.data == old(self)@.data.insert(key@, value@),
            final(self).id == old(self).id,
            final(self).user_id == old(self).user_id,
            final(self).username == old(self).username,
            final(self).created_at == old(self).created_at,
            final(self).expires_at == old(self).expires_at,
    {
        self.data.insert(key, value);
    }

    /// The value bound to a data key, if any.
    pub fn get_data(&self, key: &str) -> (r: Option<&String>)
        requires
            self.wf(),
        ensures
            match r {
                Some(v) => self@.data.contains_key(key@) && v@ == self@.data[key@],
                None => !self@.data.contains_key(key@),
            },
    {
        self.data.get(key)
    }

    /// Unbinds a data key, handing back the value it had.
    pub fn remove_data(&mut self, key: &str) -> (r: Option<String>)
        requires
            old(self).wf(),
        ensures
            final(self).wf(),
            final(self)@.data == old(self)@.data.remove(key@),
            match r {
                Some(v) => old(self)@.data.contains_key(key@) && v@ == old(self)@.data[key@],
                None => !old(self)@.data.contains_key(key@),
            },
            final(self).id == old(self).id,
            final(self).user_id == old(self).user_id,
            final(self).username == old(self).username,
            final(self).created_at == old(self).created_at,
            final(self).expires_at == old(self).expires_at,
    {
        self.data.remove(key)
    }

    /// Whether the session has passed its expiry at time `now`.
    pub fn is_expired(&self, now: u64) -> (r: bool)
        ensures
            r == (now >= self.expires_at),
    {
        now >= self.expires_at
    }

    /// A session is logged in exactly when a user is bound and the
    /// expiry has not passed.
    pub fn is_logged_in(&self, now: u64) -> (r: bool)
        ensures
            r == (self.user_id is Some && now < self.expires_at),
    {
        self.user_id.is_some() && !self.is_expired(now)
    }

    /// Pushes the expiry one whole lifetime past `now`.
    pub fn renew(&mut self, now: u64)
        ensures
            final(self).expires_at == sat_add(now, SESSION_LIFETIME),
            *final(self) == (Session { expires_at: final(self).expires_at, ..*old(self) }),
    {
        self.set_expiry(now, SESSION_LIFETIME);
    }

    /// A deep copy with the same view.
    pub fn duplicate(&self) -> (r: Session)
        ensures
            r@ == self@,
            self.wf() ==> r.wf(),
            r.id@ == self.id@,
    {
        Session {
            id: self.id.clone(),
            user_id: match &self.user_id {
                Some(u) => Some(u.clone()),
                None => None,
            },
            username: match &self.username {
                Some(u) => Some(u.clone()),
                None => None,
            },
            created_at: self.created_at,
            expires_at: self.expires_at,
            data: self.data.duplicate(),
        }
    }
}

/// The map from session ids to sessions that a stored sequence
/// denotes, later entries overriding earlier ones.
pub open spec fn as_session_map(s: Seq<Session>) -> Map<Seq<char>, SessionView>
    decreases s.len(),
{
    if s.len() == 0 {
        Map::empty()
    } else {
        as_session_map(s.drop_last()).insert(s.last().id@, s.last()@)
    }
}

pub open spec fn session_ids_unique(s: Seq<Session>) -> bool {
    forall|i: int, j: int| 0 <= i < j < s.len() ==> s[i].id@ != s[j].id@
}

pub open spec fn sessions_wf(s: Seq<Session>) -> bool {
    forall|i: int| 0 <= i < s.len() ==> (#[trigger] s[i]).wf()
}

/// An id is in the map exactly when some stored session holds it;
/// under unique ids the value is that session's view.
pub proof fn lemma_session_map_contains(s: Seq<Session>, k: Seq<char>)
    ensures
        as_session_map(s).contains_key(k) <==> exists|i: int| 0 <= i < s.len() && s[i].id@ == k,
        session_ids_unique(s) ==> forall|i: int|
            0 <= i < s.len() && s[i].id@ == k ==> as_session_map(s)[k] == s[i]@,
    decreases s.len(),
{
    if s.len() > 0 {
        lemma_session_map_contains(s.drop_last(), k);
        assert(forall|i: int| 0 <= i < s.len() - 1 ==> s.drop_last()[i] == s[i]);
        if as_session_map(s).contains_key(k) {
            if s.last().id@ != k {
                assert(as_session_map(s.drop_last()).contains_key(k));
            } else {
                assert(s[s.len() - 1].id@ == k);
            }
        }
        if exists|i: int| 0 <= i < s.len() && s[i].id@ == k {
            let i = choose|i: int| 0 <= i < s.len() && s[i].id@ == k;
            if i < s.len() - 1 {
                assert(s.drop_last()[i].id@ == k);
            }
        }
    }
}

/// Map size equals stored count when ids are unique.
pub proof fn lemma_session_map_len(s: Seq<Session>)
    requires
        session_ids_unique(s),
    ensures
        as_session_map(s).dom().finite(),
        as_session_map(s).dom().len() == s.len(),
    decreases s.len(),
{
    if s.len() > 0 {
        assert(forall|i: int| 0 <= i < s.len() - 1 ==> s.drop_last()[i] == s[i]);
        lemma_session_map_len(s.drop_last());
        lemma_session_map_contains(s.drop_last(), s.last().id@);
        assert(!as_session_map(s.drop_last()).contains_key(s.last().id@));
        vstd::set::axiom_set_insert_len(as_session_map(s.drop_last()).dom(), s.last().id@);
        assert(as_session_map(s).dom() =~= as_session_map(s.drop_last()).dom().insert(
            s.last().id@,
        ));
    }
}

/// Overwriting the stored session that holds an id updates the map
/// at that id.
proof fn lemma_session_map_update(s: Seq<Session>, i: int, p: Session)
    requires
        session_ids_unique(s),
        0 <= i < s.len(),
        s[i].id@ == p.id@,
    ensures
        as_session_map(s.update(i, p)) =~= as_session_map(s).insert(p.id@, p@),
    decreases s.len(),
{
    let t = s.update(i, p);
    assert(forall|m: int| 0 <= m < s.len() - 1 ==> s.drop_last()[m] == s[m]);
    if i == s.len() - 1 {
        assert(t.drop_last() =~= s.drop_last());
        assert(t.last() == p);
        lemma_session_map_contains(s.drop_last(), s[i].id@);
        assert(!as_session_map(s.drop_last()).contains_key(s[i].id@));
        assert(as_session_map(t) =~= as_session_map(s.drop_last()).insert(p.id@, p@));
        assert(as_session_map(s) =~= as_session_map(s.drop_last()).insert(
            s.last().id@,
            s.last()@,
        ));
    } else {
        assert(t.drop_last() =~= s.drop_last().update(i, p));
        assert(t.last() == s.last());
        lemma_session_map_update(s.drop_last(), i, p);
        assert(s.last().id@ != p.id@);
    }
}

/// Removing the stored session that holds an id removes the id from
/// the map.
proof fn lemma_session_map_remove(s: Seq<Session>, i: int)
    requires
        session_ids_unique(s),
        0 <= i < s.len(),
    ensures
        as_session_map(s.remove(i)) =~= as_session_map(s).remove(s[i].id@),
    decreases s.len(),
{
    assert(forall|m: int| 0 <= m < s.len() - 1 ==> s.drop_last()[m] == s[m]);
    if i == s.len() - 1 {
        assert(s.remove(i) =~= s.drop_last());
        lemma_session_map_contains(s.drop_last(), s[i].id@);
        assert(!as_session_map(s.drop_last()).contains_key(s[i].id@));
        assert(as_session_map(s.drop_last()).insert(s.last().id@, s.last()@).remove(s[i].id@)
            =~= as_session_map(s.drop_last()));
    } else {
        assert(s.remove(i).drop_last() =~= s.drop_last().remove(i));
        assert(s.remove(i).last() == s.last());
        lemma_session_map_remove(s.drop_last(), i);
        assert(s.last().id@ != s[i].id@);
    }
}

/// The stored sessions that are still live at `now`, in order.
pub open spec fn keep_live(s: Seq<Session>, now: u64) -> Seq<Session>
    decreases s.len(),
{
    if s.len() == 0 {
        s
    } else if now >= s.last().expires_at {
        keep_live(s.drop_last(), now)
    } else {
        keep_live(s.drop_last(), now).push(s.last())
    }
}

/// What sweeping does to the map: expired ids leave, live ones keep
/// their sessions.
proof fn lemma_keep_live(s: Seq<Session>, now: u64)
    requires
        session_ids_unique(s),
    ensures
        session_ids_unique(keep_live(s, now)),
        keep_live(s, now).len() <= s.len(),
        forall|k: Seq<char>|
            as_session_map(keep_live(s, now)).contains_key(k) <==> (as_session_map(
                s,
            ).contains_key(k) && as_session_map(s)[k].expires_at > now),
        forall|k: Seq<char>|
            as_session_map(keep_live(s, now)).contains_key(k)
                ==> as_session_map(keep_live(s, now))[k] == as_session_map(s)[k],
        sessions_wf(s) ==> sessions_wf(keep_live(s, now)),
    decreases s.len(),
{
    if s.len() > 0 {
        let d = s.drop_last();
        assert(forall|m: int| 0 <= m < s.len() - 1 ==> d[m] == s[m]);
        lemma_keep_live(d, now);
        lemma_session_map_contains(d, s.last().id@);
        assert(!as_session_map(d).contains_key(s.last().id@));
        let kept = keep_live(s, now);
        let kd = keep_live(d, now);
        lemma_session_map_contains(kd, s.last().id@);
        assert(!as_session_map(kd).contains_key(s.last().id@));
        if now >= s.last().expires_at {
            assert(kept == kd);
        } else {
            assert(kept == kd.push(s.last()));
            assert(forall|m: int| 0 <= m < kd.len() ==> kept[m] == kd[m]);
            assert(kept.drop_last() =~= kd);
            assert(session_ids_unique(kept)) by {
                assert(forall|m: int| 0 <= m < kd.len() ==> kd[m].id@ != s.last().id@);
            }
            assert(as_session_map(kept) =~= as_session_map(kd).insert(s.last().id@, s.last()@));
        }
        if sessions_wf(s) {
            assert(sessions_wf(d));
            if now < s.last().expires_at {
                assert(forall|m: int| 0 <= m < kd.len() ==> kept[m] == kd[m]);
                assert(kept.last() == s.last());
                assert(sessions_wf(kept));
            }
        }
    }
}

/// Every kept session is one of the stored ones.
proof fn lemma_keep_live_member(s: Seq<Session>, now: u64, i: int)
    requires
        0 <= i < keep_live(s, now).len(),
    ensures
        exists|m: int| 0 <= m < s.len() && s[m] == keep_live(s, now)[i],
    decreases s.len(),
{
    if s.len() > 0 {
        let d = s.drop_last();
        let kd = keep_live(d, now);
        assert(forall|m: int| 0 <= m < s.len() - 1 ==> d[m] == s[m]);
        if now >= s.last().expires_at {
            lemma_keep_live_member(d, now, i);
            let m = choose|m: int| 0 <= m < d.len() && d[m] == keep_live(d, now)[i];
            assert(s[m] == keep_live(s, now)[i]);
        } else {
            if i < kd.len() {
                lemma_keep_live_member(d, now, i);
                let m = choose|m: int| 0 <= m < d.len() && d[m] == kd[i];
                assert(keep_live(s, now)[i] == kd[i]);
                assert(s[m] == keep_live(s, now)[i]);
            } else {
                assert(keep_live(s, now)[i] == s.last());
                assert(s[s.len() - 1] == keep_live(s, now)[i]);
            }
        }
    }
}

/// All live sessions, keyed by id. The sweep interval says how often
/// the outside timer should call `cleanup`.
#[derive(Debug)]
pub struct SessionStore {
    pub sessions: Vec<Session>,
    pub cleanup_interval: u64,
}

impl View for SessionStore {
    type V = Map<Seq<char>, SessionView>;

    open spec fn view(&self) -> Map<Seq<char>, SessionView> {
        as_session_map(self.sessions@)
    }
}

impl SessionStore {
    pub open spec fn wf(&self) -> bool {
        session_ids_unique(self.sessions@) && sessions_wf(self.sessions@)
    }

    /// An empty store with the given sweep interval in seconds.
    pub fn new(cleanup_interval: u64) -> (r: SessionStore)
        ensures
            r@ == Map::<Seq<char>, SessionView>::empty(),
            r.wf(),
            r.cleanup_interval == cleanup_interval,
    {
        SessionStore { sessions: Vec::new(), cleanup_interval }
    }

    fn find_index(&self, session_id: &str) -> (r: Option<usize>)
        ensures
            match r {
                Some(i) => i < self.sessions@.len() && self.sessions@[i as int].id@
                    == session_id@,
                None => forall|i: int|
                    0 <= i < self.sessions@.len() ==> self.sessions@[i].id@ != session_id@,
            },
    {
        let mut i: usize = 0;
        while i < self.sessions.len()
            invariant
                0 <= i <= self.sessions@.len(),
                forall|m: int| 0 <= m < i ==> self.sessions@[m].id@ != session_id@,
            decreases self.sessions@.len() - i,
        {
            if crate::strutil::str_eq(self.sessions[i].id.as_str(), session_id) {
                return Some(i);
            }
            i = i + 1;
        }
        None
    }

    /// Stores a session under its id, replacing any session already
    /// stored under that id.
    fn put(&mut self, session: Session)
        requires
            old(self).wf(),
            session.wf(),
        ensures
            final(self).wf(),
            final(self)@ == old(self)@.insert(session.id@, session@),
            final(self).cleanup_interval == old(self).cleanup_interval,
    {
        let ghost pre = self.sessions@;
        match self.find_index(session.id.as_str()) {
            Some(i) => {
                proof {
                    lemma_session_map_update(self.sessions@, i as int, session);
                }
                self.sessions.set(i, session);
                assert(session_ids_unique(self.sessions@) && sessions_wf(self.sessions@)) by {
                    assert(forall|m: int|
                        0 <= m < self.sessions@.len() && m != i ==> self.sessions@[m] == pre[m]);
                    assert(self.sessions@[i as int].wf());
                }
            },
            None => {
                self.sessions.push(session);
                proof {
                    assert(self.sessions@.drop_last() =~= pre);
                    assert(session_ids_unique(self.sessions@) && sessions_wf(self.sessions@))
                        by {
                        assert(forall|m: int|
                            0 <= m < self.sessions@.len() - 1 ==> self.sessions@[m] == pre[m]);
                        assert(self.sessions@[self.sessions@.len() - 1].wf());
                    }
                }
            },
        }
    }

    /// A fresh anonymous session, created at `now` and stored.
    pub fn create(&mut self, now: u64) -> (r: Session)
        requires
            old(self).wf(),
        ensures
            final(self).wf(),
            final(self)@ == old(self)@.insert(r.id@, r@),
            r.wf(),
            r.id@.len() == 36 && r.id.is_ascii(),
            r@.user_id is None,
            r@.username is None,
            r@.created_at == now,
            r@.expires_at == sat_add(now, SESSION_LIFETIME),
            final(self).cleanup_interval == old(self).cleanup_interval,
    {
        let session = Session::new(None, now);
        let copy = session.duplicate();
        self.put(copy);
        proof {
            assert(copy.id@ == session.id@);
            assert(copy@ == session@);
        }
        session
    }

    /// A fresh session bound to a user, created at `now` and stored.
    pub fn create_with_user(&mut self, user_id: &str, username: &str, now: u64) -> (r: Session)
        requires
            old(self).wf(),
        ensures
            final(self).wf(),
            final(self)@ == old(self)@.insert(r.id@, r@),
            r.wf(),
            r.id@.len() == 36 && r.id.is_ascii(),
            r@.user_id == Some(user_id@),
            r@.username == Some(username@),
            r@.created_at == now,
            r@.expires_at == sat_add(now, SESSION_LIFETIME),
            final(self).cleanup_interval == old(self).cleanup_interval,
    {
        let session = Session::new(None, now).with_user(user_id, username);
        let copy = session.duplicate();
        self.put(copy);
        proof {
            assert(copy.id@ == session.id@);
            assert(copy@ == session@);
        }
        session
    }

    /// A copy of the session stored under the id, if any.
    pub fn get(&self, session_id: &str) -> (r: Option<Session>)
        requires
            self.wf(),
        ensures
            match r {
                Some(sess) => self@.contains_key(session_id@) && sess@ == self@[session_id@]
                    && sess.wf() && sess.id@ == session_id@,
                None => !self@.contains_key(session_id@),
            },
    {
        proof {
            lemma_session_map_contains(self.sessions@, session_id@);
        }
        match self.find_index(session_id) {
            Some(i) => Some(self.sessions[i].duplicate()),
            None => None,
        }
    }

    /// Stores the session again if its id is known; an unknown id
    /// changes nothing and reports failure.
    pub fn update(&mut self, session: &Session) -> (r: bool)
        requires
            old(self).wf(),
            session.wf(),
        ensures
            final(self).wf(),
            r == old(self)@.contains_key(session.id@),
            r ==> final(self)@ == old(self)@.insert(session.id@, session@),
            !r ==> final(self)@ == old(self)@,
            final(self).cleanup_interval == old(self).cleanup_interval,
    {
        proof {
            lemma_session_map_contains(self.sessions@, session.id@);
        }
        match self.find_index(session.id.as_str()) {
            Some(_) => {
                self.put(session.duplicate());
                true
            },
            None => false,
        }
    }

    /// Drops the session under the id; reports whether one was there.
    pub fn destroy(&mut self, session_id: &str) -> (r: bool)
        requires
            old(self).wf(),
        ensures
            final(self).wf(),
            final(self)@ == old(self)@.remove(session_id@),
            r == old(self)@.contains_key(session_id@),
            final(self).cleanup_interval == old(self).cleanup_interval,
    {
        proof {
            lemma_session_map_contains(self.sessions@, session_id@);
        }
        let ghost pre = self.sessions@;
        match self.find_index(session_id) {
            Some(i) => {
                proof {
                    lemma_session_map_remove(self.sessions@, i as int);
                }
                self.sessions.remove(i);
                assert(session_ids_unique(self.sessions@) && sessions_wf(self.sessions@)) by {
                    assert(forall|m: int|
                        0 <= m < self.sessions@.len() ==> (if m < i {
                            self.sessions@[m] == pre[m]
                        } else {
                            self.sessions@[m] == pre[m + 1]
                        }));
                }
                true
            },
            None => {
                proof {
                    assert(old(self)@.remove(session_id@) =~= old(self)@);
                }
                false
            },
        }
    }

    /// Sweeps out every session whose expiry has passed at `now`,
    /// and says how many left.
    pub fn cleanup(&mut self, now: u64) -> (r: usize)
        requires
            old(self).wf(),
        ensures
            final(self).wf(),
            forall|k: Seq<char>|
                final(self)@.contains_key(k) <==> (old(self)@.contains_key(k) && old(
                    self,
                )@[k].expires_at > now),
            forall|k: Seq<char>|
                final(self)@.contains_key(k) ==> final(self)@[k] == old(self)@[k],
            r == old(self)@.dom().len() - final(self)@.dom().len(),
            final(self).cleanup_interval == old(self).cleanup_interval,
    {
        let ghost pre = self.sessions@;
        let before = self.sessions.len();
        let mut i: usize = 0;
        let ghost mut j: int = 0;
        proof {
            assert(pre.take(0) =~= Seq::<Session>::empty());
            assert(keep_live(pre.take(0), now) =~= self.sessions@.take(0));
            assert(self.sessions@.skip(0) =~= pre.skip(0));
        }
        while i < self.sessions.len()
            invariant
                0 <= i <= self.sessions@.len(),
                i <= j <= pre.len(),
                self.sessions@.len() == i + pre.len() - j,
                keep_live(pre.take(j), now) == self.sessions@.take(i as int),
                self.sessions@.skip(i as int) == pre.skip(j),
                self.cleanup_interval == old(self).cleanup_interval,
            decreases self.sessions@.len() - i,
        {
            let ghost cur = self.sessions@;
            proof {
                assert(cur[i as int] == cur.skip(i as int)[0]);
                assert(pre.skip(j)[0] == pre[j]);
                assert(cur[i as int] == pre[j]);
                let t = pre.take(j + 1);
                assert(t.drop_last() =~= pre.take(j));
                assert(t.last() == pre[j]);
                assert(cur.skip(i as int).skip(1) =~= cur.skip(i + 1));
                assert(pre.skip(j).skip(1) =~= pre.skip(j + 1));
                assert(cur.skip(i + 1) == pre.skip(j + 1));
            }
            if now >= self.sessions[i].expires_at {
                self.sessions.remove(i);
                proof {
                    assert(self.sessions@ =~= cur.take(i as int) + cur.skip(i + 1));
                    assert(self.sessions@.take(i as int) =~= cur.take(i as int));
                    assert(self.sessions@.skip(i as int) =~= cur.skip(i + 1));
                    assert(cur.skip(i + 1) =~= pre.skip(j + 1));
                    assert(keep_live(pre.take(j + 1), now) == keep_live(pre.take(j), now));
                    j = j + 1;
                }
            } else {
                proof {
                    assert(keep_live(pre.take(j + 1), now) == keep_live(pre.take(j),
                        now).push(pre[j]));
                    assert(cur.take(i + 1) =~= cur.take(i as int).push(cur[i as int]));
                    assert(cur.skip(i + 1) =~= pre.skip(j + 1));
                    j = j + 1;
                }
                i = i + 1;
            }
        }
        proof {
            assert(j == pre.len());
            assert(pre.take(j) =~= pre);
            assert(self.sessions@.take(i as int) =~= self.sessions@);
            assert(self.sessions@ == keep_live(pre, now));
            lemma_keep_live(pre, now);
            lemma_session_map_len(pre);
            lemma_session_map_len(keep_live(pre, now));
        }
        let after = self.sessions.len();
        before - after
    }

    /// Copies of all stored sessions, in storage order.
    pub fn get_all(&self) -> (r: Vec<Session>)
        requires
            self.wf(),
        ensures
            r@.len() == self@.dom().len(),
            forall|i: int|
                0 <= i < r@.len() ==> self@.contains_key(#[trigger] r@[i].id@) && r@[i]@
                    == self@[r@[i].id@],
    {
        proof {
            lemma_session_map_len(self.sessions@);
        }
        let mut out: Vec<Session> = Vec::new();
        let mut i: usize = 0;
        while i < self.sessions.len()
            invariant
                0 <= i <= self.sessions@.len(),
                out@.len() == i,
                self.wf(),
                forall|m: int|
                    0 <= m < i ==> out@[m]@ == self.sessions@[m]@ && out@[m].id@
                        == self.sessions@[m].id@,
            decreases self.sessions@.len() - i,
        {
            out.push(self.sessions[i].duplicate());
            i = i + 1;
        }
        proof {
            assert forall|i2: int| 0 <= i2 < out@.len() implies self@.contains_key(
                #[trigger] out@[i2].id@,
            ) && out@[i2]@ == self@[out@[i2].id@] by {
                lemma_session_map_contains(self.sessions@, self.sessions@[i2].id@);
            }
        }
        out
    }
}

impl SessionStore {
    /// The per-request bookkeeping: a known session is renewed and
    /// its visit counter stepped; an unknown or missing id gets a
    /// fresh session with one visit. The returned session is the one
    /// stored, under its id.
    pub fn touch(&mut self, sid: Option<&str>, now: u64) -> (r: Session)
        requires
            old(self).wf(),
        ensures
            final(self).wf(),
            r.wf(),
            final(self)@ == old(self)@.insert(r.id@, r@),
            r@.expires_at == sat_add(now, SESSION_LIFETIME),
            r@.data.contains_key("visits"@),
            sid matches Some(id) ==> (old(self)@.contains_key(id@) ==> r.id@ == id@
                && r@.user_id == old(self)@[id@].user_id && r@.username == old(
                self,
            )@[id@].username && r@.created_at == old(self)@[id@].created_at),
            (match sid {
                Some(id) => !old(self)@.contains_key(id@),
                None => true,
            }) ==> r@.user_id is None && r@.created_at == now,
    {
        proof {
            reveal_strlit("visits");
        }
        let known = match sid {
            Some(id) => self.get(id),
            None => None,
        };
        match known {
            Some(mut session) => {
                session.renew(now);
                let visits = match session.get_data("visits") {
                    Some(v) => crate::strutil::parse_u64_str(v.as_str()),
                    None => 0,
                };
                let next = if visits < u64::MAX {
                    visits + 1
                } else {
                    visits
                };
                let ns = crate::strutil::u64_to_string(next);
                session.set_data("visits", ns.as_str());
                let stored = self.update(&session);
                proof {
                    assert(stored);
                }
                session
            },
            None => {
                let mut session = self.create(now);
                session.set_data("visits", "1");
                let stored = self.update(&session);
                proof {
                    assert(stored);
                    assert(self@ =~= old(self)@.insert(session.id@, session@));
                }
                session
            },
        }
    }
}

/// Session expiry: after a sweep at `now`, no session whose expiry
/// has passed remains in the store's map; a later lookup of an
/// expired id finds nothing.
pub proof fn lemma_session_expiry(s: Seq<Session>, now: u64, k: Seq<char>)
    requires
        session_ids_unique(s),
    ensures
        as_session_map(keep_live(s, now)).contains_key(k) ==> as_session_map(
            keep_live(s, now),
        )[k].expires_at > now,
{
    lemma_keep_live(s, now);
    if as_session_map(keep_live(s, now)).contains_key(k) {
        assert(as_session_map(s).contains_key(k) && as_session_map(s)[k].expires_at > now);
        assert(as_session_map(keep_live(s, now))[k] == as_session_map(s)[k]);
    }
}

} // verus!
