//! The session store: get, list, join and delete over sessions keyed by a
//! caller-chosen id, backed by a key-value table of encoded session values.
//! A join is a read-modify-write: it decodes the current value, appends the
//! peer, and writes back conditionally on the value being unchanged since
//! the read, retrying a bounded number of times on a detected conflict.

use vstd::prelude::*;

use crate::codec::decode_session;
use crate::codec::enc_session;
use crate::codec::encode_session;
use crate::codec::lemma_enc_session_injective;
use crate::session::count_peer;
use crate::session::has_peer;
use crate::session::peer_ids_distinct;
use crate::session::str_eq;
use crate::session::Peer;
use crate::session::PeerView;
use crate::session::Session;
use crate::session::SessionError;

verus! {

/// How many times a join retries its conditional write before giving up
/// with a concurrent-modification failure.
pub const JOIN_RETRY_LIMIT: usize = 5;

/// Whether some entry of `es` carries the key `k`.
spec fn entry_has_key(es: Seq<(String, String)>, k: Seq<char>) -> bool {
    exists|idx: int| 0 <= idx < es.len() && es[idx].0@ == k
}

/// The index of the entry carrying key `k`.
spec fn entry_index(es: Seq<(String, String)>, k: Seq<char>) -> int {
    choose|idx: int| 0 <= idx < es.len() && es[idx].0@ == k
}

/// Whether the entries of `es` carry pairwise-distinct keys.
spec fn keys_distinct(es: Seq<(String, String)>) -> bool {
    forall|i: int, j: int| 0 <= i < j < es.len() ==> es[i].0@ != es[j].0@
}

/// The key-value table that a list of entries represents.
spec fn entries_map(es: Seq<(String, String)>) -> Map<Seq<char>, Seq<char>> {
    Map::new(|k: Seq<char>| entry_has_key(es, k), |k: Seq<char>| es[entry_index(es, k)].1@)
}

proof fn lemma_entry_index(es: Seq<(String, String)>, idx: int)
    requires
        keys_distinct(es),
        0 <= idx < es.len(),
    ensures
        entry_has_key(es, es[idx].0@),
        entry_index(es, es[idx].0@) == idx,
        entries_map(es).dom().contains(es[idx].0@),
        entries_map(es)[es[idx].0@] == es[idx].1@,
{
    assert(entry_has_key(es, es[idx].0@));
    let j = entry_index(es, es[idx].0@);
    assert(0 <= j < es.len() && es[j].0@ == es[idx].0@);
    if j != idx {
        assert(false);
    }
}

proof fn lemma_map_push(es: Seq<(String, String)>, p: (String, String))
    requires
        keys_distinct(es),
        !entry_has_key(es, p.0@),
    ensures
        keys_distinct(es.push(p)),
        entries_map(es.push(p)) == entries_map(es).insert(p.0@, p.1@),
{
    let es2 = es.push(p);
    assert forall|i: int, j: int| 0 <= i < j < es2.len() implies es2[i].0@ != es2[j].0@ by {
        if j < es.len() {
        } else {
            assert(es2[j] == p);
            if es[i].0@ == p.0@ {
                assert(entry_has_key(es, p.0@));
            }
        }
    }
    assert(entries_map(es2) =~= entries_map(es).insert(p.0@, p.1@)) by {
        assert forall|x: Seq<char>| #[trigger] entry_has_key(es2, x) implies (entry_has_key(es, x)
            || x == p.0@) by {
            let t = choose|t: int| 0 <= t < es2.len() && es2[t].0@ == x;
            if t < es.len() {
                assert(es[t].0@ == x);
            }
        }
        assert forall|x: Seq<char>| entry_has_key(es, x) implies entry_has_key(es2, x) by {
            let t = choose|t: int| 0 <= t < es.len() && es[t].0@ == x;
            assert(es2[t].0@ == x);
        }
        assert(es2[es.len() as int].0@ == p.0@);
        assert(entry_has_key(es2, p.0@));
        assert forall|x: Seq<char>| entry_has_key(es2, x) implies entries_map(es2)[x]
            == entries_map(es).insert(p.0@, p.1@)[x] by {
            let t = entry_index(es2, x);
            assert(0 <= t < es2.len() && es2[t].0@ == x);
            if x == p.0@ {
                lemma_entry_index(es2, es.len() as int);
            } else {
                assert(t < es.len());
                lemma_entry_index(es, t);
                lemma_entry_index(es2, t);
            }
        }
    }
}

proof fn lemma_map_remove(es: Seq<(String, String)>, i: int)
    requires
        keys_distinct(es),
        0 <= i < es.len(),
    ensures
        keys_distinct(es.remove(i)),
        !entry_has_key(es.remove(i), es[i].0@),
        entries_map(es.remove(i)) == entries_map(es).remove(es[i].0@),
{
    let es2 = es.remove(i);
    let k = es[i].0@;
    assert forall|a: int, b: int| 0 <= a < b < es2.len() implies es2[a].0@ != es2[b].0@ by {
        let a0 = if a < i {
            a
        } else {
            a + 1
        };
        let b0 = if b < i {
            b
        } else {
            b + 1
        };
        assert(es2[a] == es[a0]);
        assert(es2[b] == es[b0]);
    }
    assert forall|t: int| 0 <= t < es2.len() implies es2[t].0@ != k by {
        let t0 = if t < i {
            t
        } else {
            t + 1
        };
        assert(es2[t] == es[t0]);
    }
    assert(entries_map(es2) =~= entries_map(es).remove(k)) by {
        assert forall|x: Seq<char>| #[trigger] entry_has_key(es2, x) implies (entry_has_key(es, x)
            && x != k) by {
            let t = choose|t: int| 0 <= t < es2.len() && es2[t].0@ == x;
            let t0 = if t < i {
                t
            } else {
                t + 1
            };
            assert(es[t0].0@ == x);
        }
        assert forall|x: Seq<char>| entry_has_key(es, x) && x != k implies entry_has_key(
            es2,
            x,
        ) by {
            let t = choose|t: int| 0 <= t < es.len() && es[t].0@ == x;
            let t2 = if t < i {
                t
            } else {
                t - 1
            };
            assert(es2[t2].0@ == x);
        }
        assert forall|x: Seq<char>| entry_has_key(es2, x) implies entries_map(es2)[x]
            == entries_map(es)[x] by {
            let t = entry_index(es2, x);
            assert(0 <= t < es2.len() && es2[t].0@ == x);
            let t0 = if t < i {
                t
            } else {
                t + 1
            };
            assert(es2[t] == es[t0]);
            lemma_entry_index(es, t0);
        }
    }
}

/// The store interface: the four operations a signaling directory offers,
/// stated against the table of stored session values. Backends that share
/// the table with other writers implement the same interface, mapping
/// backend unavailability to `StoreUnavailable` and a lost conditional
/// write to a retry, then `ConcurrentModification`.
pub trait SessionRepo: Sized {
    /// Well-formedness of the store's own state.
    spec fn inv(&self) -> bool;

    /// The stored table: one encoded value per session id.
    spec fn kv(&self) -> Map<Seq<char>, Seq<char>>;

    /// Lists all known session ids, each exactly once, in no promised order.
    fn list_session_ids(&self) -> (r: Vec<String>)
        requires
            self.inv(),
        ensures
            forall|t: int| 0 <= t < r@.len() ==> self.kv().dom().contains(#[trigger] r@[t]@),
            forall|k: Seq<char>| #[trigger] self.kv().dom().contains(k) ==> exists|t: int|
                0 <= t < r@.len() && r@[t]@ == k,
            forall|t1: int, t2: int| 0 <= t1 < t2 < r@.len() ==> r@[t1]@ != r@[t2]@,
    ;

    /// Fetches and decodes the full peer list of a session. An unknown id
    /// is `NotFound`; a malformed stored value is `DecodeError`.
    fn get_session(&self, session_id: &str) -> (r: Result<Session, SessionError>)
        requires
            self.inv(),
        ensures
            !self.kv().dom().contains(session_id@) ==> (r matches Err(e) && e
                == SessionError::NotFound),
            self.kv().dom().contains(session_id@) ==> {
                &&& (r matches Ok(ps) ==> self.kv()[session_id@] == enc_session(ps.deep_view()))
                &&& (forall|qs: Seq<PeerView>|
                    #![trigger enc_session(qs)]
                    self.kv()[session_id@] == enc_session(qs) ==> (r matches Ok(ps)
                        && ps.deep_view() == qs))
                &&& (r matches Err(e) ==> e == SessionError::DecodeError)
            },
    ;

    /// Adds `peer` to the session, creating the session if absent, and
    /// returns the resulting full session. An empty peer id, or a peer id
    /// already present in the session, is rejected as `InvalidInput`.
    fn join_session(&mut self, session_id: &str, peer: Peer) -> (r: Result<Session, SessionError>)
        requires
            old(self).inv(),
        ensures
            final(self).inv(),
            peer@.peer_id.len() == 0 ==> (r matches Err(e) && e == SessionError::InvalidInput
                && final(self).kv() == old(self).kv()),
            peer@.peer_id.len() > 0 && !old(self).kv().dom().contains(session_id@) ==> (
            r matches Ok(ps) && ps.deep_view() == seq![peer@] && final(self).kv() == old(
                self,
            ).kv().insert(session_id@, enc_session(seq![peer@]))),
            peer@.peer_id.len() > 0 && old(self).kv().dom().contains(session_id@) ==> {
                &&& (forall|qs: Seq<PeerView>|
                    #![trigger enc_session(qs)]
                    old(self).kv()[session_id@] == enc_session(qs) ==> if has_peer(
                        qs,
                        peer@.peer_id,
                    ) {
                        r matches Err(e) && e == SessionError::InvalidInput && final(self).kv()
                            == old(self).kv()
                    } else {
                        r matches Ok(ps) && ps.deep_view() == qs.push(peer@) && final(self).kv()
                            == old(self).kv().insert(session_id@, enc_session(qs.push(peer@)))
                    })
                &&& (!(exists|qs: Seq<PeerView>| #![trigger enc_session(qs)]
                    old(self).kv()[session_id@] == enc_session(qs)) ==> (r matches Err(e) && e
                    == SessionError::DecodeError && final(self).kv() == old(self).kv()))
            },
    ;

    /// Removes the session and all its peers. Returns whether it existed;
    /// deleting an absent id is a no-op success.
    fn delete_session(&mut self, session_id: &str) -> (r: bool)
        requires
            old(self).inv(),
        ensures
            final(self).inv(),
            r == old(self).kv().dom().contains(session_id@),
            final(self).kv() == old(self).kv().remove(session_id@),
    ;
}

/// An in-process store holding each session's encoded value in memory. It
/// is the reference implementation of `SessionRepo`: exclusive ownership
/// means its conditional writes never lose a race, so joins never report
/// `ConcurrentModification` and nothing reports `StoreUnavailable`.
pub struct MemorySessionStore {
    entries: Vec<(String, String)>,
}

impl MemorySessionStore {
    /// An empty store.
    pub fn new() -> (r: MemorySessionStore)
        ensures
            r.inv(),
            r.kv() == Map::<Seq<char>, Seq<char>>::empty(),
    {
        let r = MemorySessionStore { entries: Vec::new() };
        proof {
            assert(r.kv() =~= Map::<Seq<char>, Seq<char>>::empty());
        }
        r
    }

    fn find_index(&self, session_id: &str) -> (r: Option<usize>)
        ensures
            r matches Some(i) ==> i < self.entries@.len() && self.entries@[i as int].0@
                == session_id@,
            r is None ==> !entry_has_key(self.entries@, session_id@),
    {
        let n = self.entries.len();
        let mut i: usize = 0;
        while i < n
            invariant
                0 <= i <= n,
                n == self.entries@.len(),
                forall|t: int| 0 <= t < i ==> self.entries@[t].0@ != session_id@,
            decreases n - i,
        {
            if str_eq(self.entries[i].0.as_str(), session_id) {
                return Some(i);
            }
            i += 1;
        }
        None
    }

    /// The stored value for `session_id`, if any.
    fn kv_get(&self, session_id: &str) -> (r: Option<String>)
        requires
            self.inv(),
        ensures
            r matches Some(v) ==> self.kv().dom().contains(session_id@) && v@
                == self.kv()[session_id@],
            r is None ==> !self.kv().dom().contains(session_id@),
    {
        match self.find_index(session_id) {
            Some(i) => {
                proof {
                    lemma_entry_index(self.entries@, i as int);
                }
                Some(self.entries[i].1.clone())
            },
            None => None,
        }
    }

    /// The conditional write that serializes joins: writes `value` only if
    /// the current stored value (absent counts) is exactly `expected`.
    fn kv_put_if_unchanged(&mut self, session_id: &str, expected: Option<&String>, value: &String)
        -> (r: bool)
        requires
            old(self).inv(),
        ensures
            final(self).inv(),
            r == (match expected {
                Option::None => !old(self).kv().dom().contains(session_id@),
                Option::Some(e) => old(self).kv().dom().contains(session_id@) && old(
                    self,
                ).kv()[session_id@] == e@,
            }),
            r ==> final(self).kv() == old(self).kv().insert(session_id@, value@),
            !r ==> final(self).kv() == old(self).kv(),
    {
        let idx = self.find_index(session_id);
        match (idx, expected) {
            (Option::None, Option::None) => {
                let key = session_id.to_owned();
                let ghost es0 = self.entries@;
                self.entries.push((key, value.clone()));
                proof {
                    let p = self.entries@[es0.len() as int];
                    assert(self.entries@ =~= es0.push(p));
                    lemma_map_push(es0, p);
                }
                true
            },
            (Option::Some(i), Option::Some(e)) => {
                proof {
                    lemma_entry_index(self.entries@, i as int);
                }
                if str_eq(self.entries[i].1.as_str(), e.as_str()) {
                    let ghost es0 = self.entries@;
                    let ghost k = es0[i as int].0@;
                    let pair = self.entries.remove(i);
                    proof {
                        lemma_map_remove(es0, i as int);
                    }
                    let ghost es1 = self.entries@;
                    let new_pair = (pair.0, value.clone());
                    proof {
                        lemma_map_push(es1, new_pair);
                    }
                    self.entries.push(new_pair);
                    proof {
                        assert(self.entries@ =~= es1.push(new_pair));
                        assert(final(self).kv() =~= old(self).kv().insert(session_id@, value@));
                    }
                    true
                } else {
                    false
                }
            },
            (Option::Some(i), Option::None) => {
                proof {
                    lemma_entry_index(self.entries@, i as int);
                }
                false
            },
            (Option::None, Option::Some(_)) => {
                false
            },
        }
    }

    /// Installs a raw stored value unconditionally, as another writer
    /// sharing the table might. Exists so that callers and tests can
    /// exercise how reads report malformed stored data.
    pub fn put_raw_value(&mut self, session_id: &str, value: String)
        requires
            old(self).inv(),
        ensures
            final(self).inv(),
            final(self).kv() == old(self).kv().insert(session_id@, value@),
    {
        match self.find_index(session_id) {
            Some(i) => {
                let ghost es0 = self.entries@;
                let pair = self.entries.remove(i);
                proof {
                    lemma_map_remove(es0, i as int);
                }
                let ghost es1 = self.entries@;
                let new_pair = (pair.0, value);
                proof {
                    lemma_map_push(es1, new_pair);
                }
                self.entries.push(new_pair);
                proof {
                    assert(self.entries@ =~= es1.push(new_pair));
                    assert(final(self).kv() =~= old(self).kv().insert(session_id@, value@));
                }
            },
            None => {
                let key = session_id.to_owned();
                let ghost es0 = self.entries@;
                let new_pair = (key, value);
                proof {
                    lemma_map_push(es0, new_pair);
                }
                self.entries.push(new_pair);
                proof {
                    assert(self.entries@ =~= es0.push(new_pair));
                }
            },
        }
    }
}

impl SessionRepo for MemorySessionStore {
    closed spec fn inv(&self) -> bool {
        keys_distinct(self.entries@)
    }

    closed spec fn kv(&self) -> Map<Seq<char>, Seq<char>> {
        entries_map(self.entries@)
    }

    fn list_session_ids(&self) -> (r: Vec<String>) {
        let n = self.entries.len();
        let mut r: Vec<String> = Vec::new();
        let mut i: usize = 0;
        while i < n
            invariant
                0 <= i <= n,
                n == self.entries@.len(),
                self.inv(),
                r@.len() == i,
                forall|t: int| 0 <= t < i ==> r@[t]@ == self.entries@[t].0@,
            decreases n - i,
        {
            r.push(self.entries[i].0.clone());
            i += 1;
        }
        proof {
            assert forall|t: int| 0 <= t < r@.len() implies self.kv().dom().contains(
                #[trigger] r@[t]@,
            ) by {
                lemma_entry_index(self.entries@, t);
            }
            assert forall|k: Seq<char>| #[trigger] self.kv().dom().contains(k) implies exists|
                t: int,
            | 0 <= t < r@.len() && r@[t]@ == k by {
                let t = choose|t: int| 0 <= t < self.entries@.len() && self.entries@[t].0@ == k;
                assert(r@[t]@ == k);
            }
        }
        r
    }

    fn get_session(&self, session_id: &str) -> (r: Result<Session, SessionError>) {
        match self.kv_get(session_id) {
            None => Err(SessionError::NotFound),
            Some(v) => match decode_session(v.as_str()) {
                Ok(ps) => Ok(ps),
                Err(_) => Err(SessionError::DecodeError),
            },
        }
    }

    fn join_session(&mut self, session_id: &str, peer: Peer) -> (r: Result<
        Session,
        SessionError,
    >) {
        if peer.peer_id().as_str().is_empty() {
            return Err(SessionError::InvalidInput);
        }
        let mut attempts: usize = 0;
        while attempts < JOIN_RETRY_LIMIT
            invariant
                old(self).inv(),
                self.inv(),
                self.kv() == old(self).kv(),
                attempts == 0,
                peer@.peer_id.len() > 0,
            decreases JOIN_RETRY_LIMIT - attempts,
        {
            let current = self.kv_get(session_id);
            match prepare_join(current.as_ref(), &peer) {
                Err(e) => {
                    return Err(e);
                },
                Ok((new_value, session)) => {
                    let swapped = self.kv_put_if_unchanged(
                        session_id,
                        current.as_ref(),
                        &new_value,
                    );
                    if swapped {
                        return Ok(session);
                    }
                    // Unreachable here: this store owns its table, so no
                    // other writer can have changed the value since the
                    // read. The retry matters for shared backends.
                    attempts += 1;
                },
            }
        }
        Err(SessionError::ConcurrentModification)
    }

    fn delete_session(&mut self, session_id: &str) -> (r: bool) {
        match self.find_index(session_id) {
            Some(i) => {
                let ghost es0 = self.entries@;
                proof {
                    lemma_entry_index(es0, i as int);
                    lemma_map_remove(es0, i as int);
                }
                self.entries.remove(i);
                true
            },
            None => {
                proof {
                    assert(self.kv().remove(session_id@) =~= self.kv());
                }
                false
            },
        }
    }
}

/// The read-modify part of a join, as one pure step: given the stored value
/// observed by the read (`None` for an absent session), validates the peer,
/// appends it, and hands back the value to write and the resulting session.
/// Any backend's retry loop alternates this step with a conditional write.
pub fn prepare_join(current: Option<&String>, peer: &Peer) -> (r: Result<
    (String, Session),
    SessionError,
>)
    ensures
        peer@.peer_id.len() == 0 ==> (r matches Err(e) && e == SessionError::InvalidInput),
        peer@.peer_id.len() > 0 ==> match current {
            Option::None => r matches Ok(p2) && p2.1.deep_view() == seq![peer@] && p2.0@
                == enc_session(seq![peer@]),
            Option::Some(cur) => {
                &&& (forall|qs: Seq<PeerView>|
                    #![trigger enc_session(qs)]
                    cur@ == enc_session(qs) ==> if has_peer(qs, peer@.peer_id) {
                        r matches Err(e) && e == SessionError::InvalidInput
                    } else {
                        r matches Ok(p2) && p2.1.deep_view() == qs.push(peer@) && p2.0@
                            == enc_session(qs.push(peer@))
                    })
                &&& (!(exists|qs: Seq<PeerView>| #![trigger enc_session(qs)]
                    cur@ == enc_session(qs)) ==> (r matches Err(e) && e
                    == SessionError::DecodeError))
            },
        },
{
    if peer.peer_id().as_str().is_empty() {
        return Err(SessionError::InvalidInput);
    }
    match current {
        None => {
            let mut session: Vec<Peer> = Vec::new();
            session.push(peer.clone());
            proof {
                assert(session.deep_view() =~= seq![peer@]);
            }
            let value = encode_session(&session);
            Ok((value, session))
        },
        Some(cur) => match decode_session(cur.as_str()) {
            Err(_) => Err(SessionError::DecodeError),
            Ok(mut session) => {
                let ghost qs0 = session.deep_view();
                let n = session.len();
                let mut dup = false;
                let mut t: usize = 0;
                while t < n
                    invariant
                        0 <= t <= n,
                        n == session@.len(),
                        session.deep_view() == qs0,
                        dup == has_peer(qs0.subrange(0, t as int), peer@.peer_id),
                    decreases n - t,
                {
                    proof {
                        assert(qs0.subrange(0, t + 1) =~= qs0.subrange(0, t as int).push(
                            qs0[t as int],
                        ));
                        lemma_has_peer_push(
                            qs0.subrange(0, t as int),
                            qs0[t as int],
                            peer@.peer_id,
                        );
                        assert(qs0[t as int] == session@[t as int]@);
                    }
                    if str_eq(session[t].peer_id().as_str(), peer.peer_id().as_str()) {
                        dup = true;
                    }
                    t += 1;
                }
                proof {
                    assert(qs0.subrange(0, n as int) =~= qs0);
                }
                if dup {
                    Err(SessionError::InvalidInput)
                } else {
                    session.push(peer.clone());
                    proof {
                        assert(session.deep_view() =~= qs0.push(peer@));
                    }
                    let value = encode_session(&session);
                    Ok((value, session))
                }
            },
        },
    }
}

/// The session grown by a sequence of accepted joins, in call order.
pub open spec fn join_fold(s: Seq<PeerView>, ps: Seq<PeerView>) -> Seq<PeerView>
    decreases ps.len(),
{
    if ps.len() == 0 {
        s
    } else {
        join_fold(s.push(ps[0]), ps.drop_first())
    }
}

proof fn lemma_join_fold_append(s: Seq<PeerView>, ps: Seq<PeerView>)
    ensures
        join_fold(s, ps) == s + ps,
    decreases ps.len(),
{
    if ps.len() == 0 {
        assert(s + ps =~= s);
    } else {
        lemma_join_fold_append(s.push(ps[0]), ps.drop_first());
        assert(s.push(ps[0]) + ps.drop_first() =~= s + ps);
    }
}

proof fn lemma_count_zero(s: Seq<PeerView>, id: Seq<char>)
    requires
        !has_peer(s, id),
    ensures
        count_peer(s, id) == 0,
    decreases s.len(),
{
    if s.len() > 0 {
        if s[0].peer_id == id {
            assert(has_peer(s, id));
        }
        if has_peer(s.drop_first(), id) {
            let i = choose|i: int| 0 <= i < s.drop_first().len() && s.drop_first()[i].peer_id
                == id;
            assert(s[i + 1].peer_id == id);
            assert(has_peer(s, id));
        }
        lemma_count_zero(s.drop_first(), id);
    }
}

proof fn lemma_count_unique(ps: Seq<PeerView>, k: int)
    requires
        peer_ids_distinct(ps),
        0 <= k < ps.len(),
    ensures
        count_peer(ps, ps[k].peer_id) == 1,
    decreases ps.len(),
{
    let id = ps[k].peer_id;
    assert(peer_ids_distinct(ps.drop_first())) by {
        assert forall|a: int, b: int|
            0 <= a < b < ps.drop_first().len() implies ps.drop_first()[a].peer_id
            != ps.drop_first()[b].peer_id by {
            assert(ps.drop_first()[a] == ps[a + 1]);
            assert(ps.drop_first()[b] == ps[b + 1]);
        }
    }
    if k == 0 {
        if has_peer(ps.drop_first(), id) {
            let i = choose|i: int| 0 <= i < ps.drop_first().len() && ps.drop_first()[i].peer_id
                == id;
            assert(ps[i + 1].peer_id == id);
            assert(false);
        }
        lemma_count_zero(ps.drop_first(), id);
    } else {
        assert(ps[0].peer_id != id);
        assert(ps.drop_first()[k - 1] == ps[k]);
        lemma_count_unique(ps.drop_first(), k - 1);
    }
}

/// Sequential joins of peers with pairwise-distinct ids into a fresh
/// session append in call order: none is rejected as a duplicate at its
/// turn, and the resulting session holds all the peers, each id exactly
/// once.
pub proof fn lemma_sequential_joins(ps: Seq<PeerView>)
    requires
        peer_ids_distinct(ps),
    ensures
        join_fold(Seq::empty(), ps) == ps,
        forall|k: int|
            0 <= k < ps.len() ==> !has_peer(#[trigger] ps.subrange(0, k), ps[k].peer_id),
        forall|k: int| 0 <= k < ps.len() ==> count_peer(ps, #[trigger] ps[k].peer_id) == 1,
{
    lemma_join_fold_append(Seq::empty(), ps);
    assert(Seq::<PeerView>::empty() + ps =~= ps);
    assert forall|k: int| 0 <= k < ps.len() implies !has_peer(
        #[trigger] ps.subrange(0, k),
        ps[k].peer_id,
    ) by {
        if has_peer(ps.subrange(0, k), ps[k].peer_id) {
            let i = choose|i: int|
                0 <= i < ps.subrange(0, k).len() && ps.subrange(0, k)[i].peer_id
                    == ps[k].peer_id;
            assert(ps[i].peer_id == ps[k].peer_id);
        }
    }
    assert forall|k: int| 0 <= k < ps.len() implies count_peer(ps, #[trigger] ps[k].peer_id)
        == 1 by {
        lemma_count_unique(ps, k);
    }
}

/// Two joins of distinct peers to the same fresh session, serialized by the
/// conditional write in whichever order the writes land, leave a session
/// holding both peers exactly once: no update is lost.
pub proof fn lemma_concurrent_joins(p1: PeerView, p2: PeerView, s: Seq<PeerView>)
    requires
        p1.peer_id != p2.peer_id,
        s == join_fold(Seq::empty(), seq![p1, p2]) || s == join_fold(Seq::empty(), seq![p2, p1]),
    ensures
        s.len() == 2,
        has_peer(s, p1.peer_id),
        has_peer(s, p2.peer_id),
        count_peer(s, p1.peer_id) == 1,
        count_peer(s, p2.peer_id) == 1,
{
    if s == join_fold(Seq::empty(), seq![p1, p2]) {
        lemma_join_fold_append(Seq::empty(), seq![p1, p2]);
        assert(s =~= seq![p1, p2]);
        assert(s[0].peer_id == p1.peer_id);
        assert(s[1].peer_id == p2.peer_id);
        lemma_count_unique(s, 0);
        lemma_count_unique(s, 1);
    } else {
        lemma_join_fold_append(Seq::empty(), seq![p2, p1]);
        assert(s =~= seq![p2, p1]);
        assert(s[0].peer_id == p2.peer_id);
        assert(s[1].peer_id == p1.peer_id);
        lemma_count_unique(s, 0);
        lemma_count_unique(s, 1);
    }
}

/// Joining a fresh session stores the encoding of exactly that one peer,
/// and no other peer list shares that encoding: a subsequent read is bound
/// by its contract to return the one-element session.
pub proof fn lemma_join_then_get(m: Map<Seq<char>, Seq<char>>, id: Seq<char>, p: PeerView)
    requires
        !m.dom().contains(id),
        p.peer_id.len() > 0,
    ensures
        m.insert(id, enc_session(seq![p])).dom().contains(id),
        m.insert(id, enc_session(seq![p]))[id] == enc_session(seq![p]),
        forall|qs: Seq<PeerView>|
            #![trigger enc_session(qs)]
            m.insert(id, enc_session(seq![p]))[id] == enc_session(qs) ==> qs == seq![p],
{
    assert forall|qs: Seq<PeerView>|
        #![trigger enc_session(qs)]
        m.insert(id, enc_session(seq![p]))[id] == enc_session(qs) implies qs == seq![p] by {
        lemma_enc_session_injective(seq![p], qs);
    }
}

/// Deleting a session removes its key, so a subsequent read reports it
/// unknown; deleting an absent key leaves the table unchanged.
pub proof fn lemma_delete_then_get(m: Map<Seq<char>, Seq<char>>, id: Seq<char>)
    ensures
        !m.remove(id).dom().contains(id),
        !m.dom().contains(id) ==> m.remove(id) == m,
{
    if !m.dom().contains(id) {
        assert(m.remove(id) =~= m);
    }
}

/// Appending a peer adds exactly its id to the ids present.
proof fn lemma_has_peer_push(s: Seq<PeerView>, p: PeerView, id: Seq<char>)
    ensures
        has_peer(s.push(p), id) == (has_peer(s, id) || p.peer_id == id),
{
    if has_peer(s, id) {
        let i = choose|i: int| 0 <= i < s.len() && s[i].peer_id == id;
        assert(s.push(p)[i].peer_id == id);
    }
    if p.peer_id == id {
        assert(s.push(p)[s.len() as int].peer_id == id);
    }
    if has_peer(s.push(p), id) {
        let i = choose|i: int| 0 <= i < s.push(p).len() && s.push(p)[i].peer_id == id;
        if i < s.len() {
            assert(s[i].peer_id == id);
        }
    }
}

} // verus!

