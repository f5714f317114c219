//! The artifact store: JSON artifacts by key, each with an expiry time.
use vstd::prelude::*;
use crate::state::{artifact_key, ARTIFACT_TTL_SECS};

verus! {

/// The entry stored for `key`: the first entry with that key decides.
pub open spec fn entry_of(s: Seq<(String, Vec<u8>, u64)>, key: Seq<char>) -> Option<(Seq<u8>, u64)>
    decreases s.len(),
{
    if s.len() == 0 {
        None
    } else if s[0].0@ == key {
        Some((s[0].1@, s[0].2))
    } else {
        entry_of(s.drop_first(), key)
    }
}

/// The time an entry written at `now` for `ttl` seconds expires; it never
/// wraps around.
pub open spec fn expiry(now: u64, ttl: u64) -> u64 {
    if now + ttl > u64::MAX {
        u64::MAX
    } else {
        (now + ttl) as u64
    }
}

/// Artifacts by key, with their expiry times.
pub struct ArtifactStore {
    entries: Vec<(String, Vec<u8>, u64)>,
}

fn copy_bytes(v: &Vec<u8>) -> (r: Vec<u8>)
    ensures
        r@ == v@,
{
    let mut r: Vec<u8> = Vec::new();
    let mut i: usize = 0;
    while i < v.len()
        invariant
            i <= v@.len(),
            r@ == v@.subrange(0, i as int),
        decreases v@.len() - i,
    {
        r.push(v[i]);
        proof {
            assert(r@ =~= v@.subrange(0, i + 1));
        }
        i = i + 1;
    }
    assert(r@ =~= v@);
    r
}

proof fn lemma_entry_update(
    s: Seq<(String, Vec<u8>, u64)>,
    i: int,
    e: (String, Vec<u8>, u64),
    k: Seq<char>,
)
    requires
        0 <= i < s.len(),
        s[i].0@ == e.0@,
        forall|j: int| 0 <= j < i ==> s[j].0@ != e.0@,
    ensures
        entry_of(s.update(i, e), k) == if k == e.0@ {
            Some((e.1@, e.2))
        } else {
            entry_of(s, k)
        },
    decreases i,
{
    let su = s.update(i, e);
    if i == 0 {
        assert(su.drop_first() =~= s.drop_first());
    } else {
        assert(su[0] == s[0]);
        assert(su.drop_first() =~= s.drop_first().update(i - 1, e));
        lemma_entry_update(s.drop_first(), i - 1, e, k);
    }
}

proof fn lemma_entry_push(s: Seq<(String, Vec<u8>, u64)>, e: (String, Vec<u8>, u64), k: Seq<char>)
    requires
        forall|j: int| 0 <= j < s.len() ==> s[j].0@ != e.0@,
    ensures
        entry_of(s.push(e), k) == if k == e.0@ {
            Some((e.1@, e.2))
        } else {
            entry_of(s, k)
        },
    decreases s.len(),
{
    let sp = s.push(e);
    if s.len() > 0 {
        assert(sp[0] == s[0]);
        assert(sp.drop_first() =~= s.drop_first().push(e));
        lemma_entry_push(s.drop_first(), e, k);
    } else {
        assert(sp[0] == e);
        assert(sp.drop_first() =~= s);
    }
}

impl ArtifactStore {
    /// The bytes and expiry time stored for a key.
    pub closed spec fn entry(&self, key: Seq<char>) -> Option<(Seq<u8>, u64)> {
        entry_of(self.entries@, key)
    }

    /// What a read of `key` at time `now` returns: the bytes, while they
    /// have not expired.
    pub open spec fn visible(&self, key: Seq<char>, now: u64) -> Option<Seq<u8>> {
        match self.entry(key) {
            Some((b, exp)) => if now < exp {
                Some(b)
            } else {
                None
            },
            None => None,
        }
    }

    /// An empty store.
    pub fn new() -> (r: ArtifactStore)
        ensures
            forall|k: Seq<char>| r.entry(k) is None,
    {
        ArtifactStore { entries: Vec::new() }
    }

    /// Writes `bytes` under `key` at time `now`, to expire `ttl` seconds
    /// later; the other keys keep their entries.
    pub fn put(&mut self, key: String, bytes: Vec<u8>, now: u64, ttl: u64)
        ensures
            final(self).entry(key@) == Some((bytes@, expiry(now, ttl))),
            forall|k: Seq<char>| k != key@ ==> final(self).entry(k) == old(self).entry(k),
    {
        let expires = if ttl > u64::MAX - now {
            u64::MAX
        } else {
            now + ttl
        };
        let mut i: usize = 0;
        while i < self.entries.len()
            invariant
                expires == expiry(now, ttl),
                i <= self.entries@.len(),
                self.entries@ == old(self).entries@,
                forall|j: int| 0 <= j < i ==> self.entries@[j].0@ != key@,
            decreases self.entries@.len() - i,
        {
            if self.entries[i].0 == key {
                let ghost s0 = self.entries@;
                self.entries.set(i, (key, bytes, expires));
                proof {
                    assert forall|k: Seq<char>| #[trigger] entry_of(self.entries@, k) == if k
                        == key@ {
                        Some((bytes@, expires))
                    } else {
                        entry_of(s0, k)
                    } by {
                        lemma_entry_update(s0, i as int, self.entries@[i as int], k);
                    }
                }
                return;
            }
            i = i + 1;
        }
        let ghost s0 = self.entries@;
        self.entries.push((key, bytes, expires));
        proof {
            assert(self.entries@ == s0.push(self.entries@[s0.len() as int]));
            assert forall|k: Seq<char>| #[trigger] entry_of(self.entries@, k) == if k == key@ {
                Some((bytes@, expires))
            } else {
                entry_of(s0, k)
            } by {
                lemma_entry_push(s0, self.entries@[s0.len() as int], k);
            }
        }
    }

    /// Reads `key` at time `now`: its bytes, unless absent or expired.
    pub fn get(&self, key: &str, now: u64) -> (r: Option<Vec<u8>>)
        ensures
            match r {
                Some(b) => self.visible(key@, now) == Some(b@),
                None => self.visible(key@, now) is None,
            },
    {
        let k: String = key.to_owned();
        let mut i: usize = 0;
        assert(self.entries@.subrange(0, self.entries@.len() as int) =~= self.entries@);
        while i < self.entries.len()
            invariant
                k@ == key@,
                i <= self.entries@.len(),
                entry_of(self.entries@, key@) == entry_of(
                    self.entries@.subrange(i as int, self.entries@.len() as int),
                    key@,
                ),
            decreases self.entries@.len() - i,
        {
            let ghost rest = self.entries@.subrange(i as int, self.entries@.len() as int);
            assert(rest[0] == self.entries@[i as int]);
            if self.entries[i].0 == k {
                if now < self.entries[i].2 {
                    return Some(copy_bytes(&self.entries[i].1));
                }
                return None;
            }
            assert(rest.drop_first() =~= self.entries@.subrange(
                i + 1,
                self.entries@.len() as int,
            ));
            i = i + 1;
        }
        None
    }

    /// Stores an agent's artifact at its canonical key, for an hour.
    pub fn store_artifact(&mut self, run_id: &str, agent_id: &str, json: Vec<u8>, now: u64)
        ensures
            final(self).entry("run:"@ + run_id@ + ":agent:"@ + agent_id@ + ":output"@) == Some(
                (json@, expiry(now, ARTIFACT_TTL_SECS)),
            ),
            forall|k: Seq<char>|
                k != "run:"@ + run_id@ + ":agent:"@ + agent_id@ + ":output"@ ==> final(self).entry(k)
                    == old(self).entry(k),
    {
        let key = artifact_key(run_id, agent_id);
        self.put(key, json, now, ARTIFACT_TTL_SECS);
    }

    /// Reads an agent's artifact at time `now`.
    pub fn fetch_artifact(&self, run_id: &str, agent_id: &str, now: u64) -> (r: Option<Vec<u8>>)
        ensures
            match r {
                Some(b) => self.visible("run:"@ + run_id@ + ":agent:"@ + agent_id@ + ":output"@, now)
                    == Some(b@),
                None => self.visible(
                    "run:"@ + run_id@ + ":agent:"@ + agent_id@ + ":output"@,
                    now,
                ) is None,
            },
    {
        let key = artifact_key(run_id, agent_id);
        self.get(key.as_str(), now)
    }
}

/// An artifact written to the store reads back byte for byte until it
/// expires. (Expiry saturates at the largest time, which is itself never
/// within the time to live.)
pub proof fn lemma_artifact_round_trip(
    s: ArtifactStore,
    key: Seq<char>,
    bytes: Seq<u8>,
    now: u64,
    ttl: u64,
    t: u64,
)
    requires
        s.entry(key) == Some((bytes, expiry(now, ttl))),
        now <= t,
        t < now + ttl,
        t < u64::MAX,
    ensures
        s.visible(key, t) == Some(bytes),
{
}

} // verus!
