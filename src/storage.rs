//! Group state kept by a storage backend: the current state of each group
//! and a bounded number of its prior epochs.
use vstd::prelude::*;

verus! {

/// Prior epochs kept per group unless configured otherwise.
pub const DEFAULT_EPOCH_RETENTION_LIMIT: u64 = 3;

/// Key under which the database is stored.
pub const DEFAULT_STORAGE_KEY: &'static str = "SSF-MLS-STATE";

/// Errors of browser local storage.
#[derive(Debug, Clone, PartialEq, Eq)]
pub enum WebGroupStateStorageError {
    LocalStorageUnavailable,
    JsValue(String),
}

/// Data of one prior epoch.
#[derive(Clone, Debug, PartialEq, Eq)]
pub struct EpochRecord {
    pub id: u64,
    pub data: Vec<u8>,
}

/// Stored data of one group.
#[derive(Clone, Debug, PartialEq, Eq)]
pub struct GroupRecord {
    pub group_id: Vec<u8>,
    pub state: Vec<u8>,
    /// Prior epochs, oldest first.
    pub epochs: Vec<EpochRecord>,
}

/// All stored groups.
#[derive(Clone, Debug, PartialEq, Eq)]
pub struct GroupDB {
    pub groups: Vec<GroupRecord>,
}

/// Index of the first group with id `id`, or `s.len()` if none.
pub open spec fn group_index(s: Seq<GroupRecord>, id: Seq<u8>) -> int
    decreases s.len(),
{
    if s.len() == 0 {
        0
    } else if s[0].group_id@ == id {
        0
    } else {
        1 + group_index(s.drop_first(), id)
    }
}

proof fn lemma_group_index(s: Seq<GroupRecord>, id: Seq<u8>)
    ensures
        0 <= group_index(s, id) <= s.len(),
        group_index(s, id) < s.len() ==> s[group_index(s, id)].group_id@ == id,
        forall|j: int| 0 <= j < group_index(s, id) ==> #[trigger] s[j].group_id@ != id,
    decreases s.len(),
{
    if s.len() > 0 && s[0].group_id@ != id {
        lemma_group_index(s.drop_first(), id);
        assert forall|j: int| 0 <= j < group_index(s, id) implies #[trigger] s[j].group_id@ != id by {
            if j > 0 {
                assert(s[j] == s.drop_first()[j - 1]);
            }
        }
    }
}

/// The largest epoch id among `s`, if any.
pub open spec fn max_id(s: Seq<EpochRecord>) -> Option<u64>
    decreases s.len(),
{
    if s.len() == 0 {
        None
    } else {
        match max_id(s.drop_last()) {
            None => Some(s.last().id),
            Some(m) => if s.last().id > m {
                Some(s.last().id)
            } else {
                Some(m)
            },
        }
    }
}

/// The last `n` records of `s` (all of them if there are fewer).
pub open spec fn keep_last(s: Seq<EpochRecord>, n: nat) -> Seq<EpochRecord> {
    if s.len() <= n {
        s
    } else {
        s.subrange(s.len() - n, s.len() as int)
    }
}

fn copy_bytes(s: &[u8]) -> (r: Vec<u8>)
    ensures
        r@ == s@,
{
    let mut r: Vec<u8> = Vec::new();
    let mut i: usize = 0;
    while i < s.len()
        invariant
            i <= s@.len(),
            r@ == s@.take(i as int),
        decreases s@.len() - i,
    {
        r.push(s[i]);
        assert(s@.take(i + 1) =~= s@.take(i as int).push(s@[i as int]));
        i = i + 1;
    }
    assert(s@.take(i as int) =~= s@);
    r
}

impl GroupDB {
    pub fn new() -> (r: GroupDB)
        ensures
            r.groups@.len() == 0,
    {
        GroupDB { groups: Vec::new() }
    }

    fn find(&self, group_id: &[u8]) -> (r: usize)
        ensures
            r == group_index(self.groups@, group_id@),
    {
        proof {
            lemma_group_index(self.groups@, group_id@);
        }
        let mut i: usize = 0;
        while i < self.groups.len()
            invariant
                i <= self.groups@.len(),
                forall|j: int| 0 <= j < i ==> #[trigger] self.groups@[j].group_id@ != group_id@,
                0 <= group_index(self.groups@, group_id@) <= self.groups@.len(),
                group_index(self.groups@, group_id@) < self.groups@.len() ==> self.groups@[group_index(self.groups@, group_id@)].group_id@ == group_id@,
                forall|j: int| 0 <= j < group_index(self.groups@, group_id@) ==> #[trigger] self.groups@[j].group_id@ != group_id@,
            decreases self.groups@.len() - i,
        {
            if crate::rules::bytes_equal(self.groups[i].group_id.as_slice(), group_id) {
                return i;
            }
            i = i + 1;
        }
        i
    }
}

/// Group state storage in the browser's local storage, which holds one
/// `GroupDB` under `DEFAULT_STORAGE_KEY`.
#[derive(Clone, Copy, Debug, PartialEq, Eq, Structural)]
pub struct WebLocalStateStorage {
    pub max_epoch_retention: u64,
}

impl WebLocalStateStorage {
    pub fn new() -> (r: WebLocalStateStorage)
        ensures
            r.max_epoch_retention == DEFAULT_EPOCH_RETENTION_LIMIT,
    {
        WebLocalStateStorage { max_epoch_retention: DEFAULT_EPOCH_RETENTION_LIMIT }
    }

    pub fn with_max_epoch_retention(self, max_epoch_retention: u64) -> (r: Self)
        ensures
            r.max_epoch_retention == max_epoch_retention,
    {
        Self { max_epoch_retention }
    }

    /// Ids of the stored groups, in storage order; none if nothing is stored.
    pub fn group_ids(&self, stored: Option<&GroupDB>) -> (r: Vec<Vec<u8>>)
        ensures
            stored.is_none() ==> r@.len() == 0,
            stored matches Some(db) ==> r@.len() == db.groups@.len()
                && forall|i: int| 0 <= i < r@.len() ==> #[trigger] r@[i]@ == db.groups@[i].group_id@,
    {
        let mut r: Vec<Vec<u8>> = Vec::new();
        match stored {
            None => r,
            Some(db) => {
                let mut i: usize = 0;
                while i < db.groups.len()
                    invariant
                        i <= db.groups@.len(),
                        r@.len() == i,
                        forall|j: int| 0 <= j < i ==> #[trigger] r@[j]@ == db.groups@[j].group_id@,
                    decreases db.groups@.len() - i,
                {
                    r.push(copy_bytes(db.groups[i].group_id.as_slice()));
                    i = i + 1;
                }
                r
            },
        }
    }

    /// The current state of the group `group_id`.
    pub fn state<'a>(&self, db: &'a GroupDB, group_id: &[u8]) -> (r: Option<&'a Vec<u8>>)
        ensures
            ({
                let i = group_index(db.groups@, group_id@);
                if i < db.groups@.len() {
                    r == Some(&db.groups@[i].state)
                } else {
                    r.is_none()
                }
            }),
    {
        let i = db.find(group_id);
        if i < db.groups.len() {
            Some(&db.groups[i].state)
        } else {
            None
        }
    }

    /// The data of epoch `epoch_id` of group `group_id`.
    pub fn epoch<'a>(&self, db: &'a GroupDB, group_id: &[u8], epoch_id: u64) -> (r: Option<&'a Vec<u8>>)
        ensures
            ({
                let i = group_index(db.groups@, group_id@);
                match r {
                    Some(d) => i < db.groups@.len() && exists|k: int| 0 <= k < db.groups@[i].epochs@.len()
                        && db.groups@[i].epochs@[k].id == epoch_id && *d == db.groups@[i].epochs@[k].data,
                    None => i >= db.groups@.len() || forall|k: int| 0 <= k < db.groups@[i].epochs@.len()
                        ==> #[trigger] db.groups@[i].epochs@[k].id != epoch_id,
                }
            }),
    {
        let i = db.find(group_id);
        if i >= db.groups.len() {
            return None;
        }
        let epochs = &db.groups[i].epochs;
        let mut k: usize = 0;
        while k < epochs.len()
            invariant
                k <= epochs@.len(),
                i < db.groups@.len(),
                i == group_index(db.groups@, group_id@),
                *epochs == db.groups@[i as int].epochs,
                forall|m: int| 0 <= m < k ==> #[trigger] epochs@[m].id != epoch_id,
            decreases epochs@.len() - k,
        {
            if epochs[k].id == epoch_id {
                assert(db.groups@[i as int].epochs@[k as int].id == epoch_id);
                return Some(&epochs[k].data);
            }
            k = k + 1;
        }
        None
    }

    /// The largest stored epoch id of group `group_id`.
    pub fn max_epoch_id(&self, db: &GroupDB, group_id: &[u8]) -> (r: Option<u64>)
        ensures
            ({
                let i = group_index(db.groups@, group_id@);
                if i < db.groups@.len() {
                    r == max_id(db.groups@[i].epochs@)
                } else {
                    r.is_none()
                }
            }),
    {
        let i = db.find(group_id);
        if i >= db.groups.len() {
            return None;
        }
        let epochs = &db.groups[i].epochs;
        let mut best: Option<u64> = None;
        let mut k: usize = 0;
        while k < epochs.len()
            invariant
                k <= epochs@.len(),
                best == max_id(epochs@.take(k as int)),
            decreases epochs@.len() - k,
        {
            proof {
                assert(epochs@.take(k + 1).drop_last() =~= epochs@.take(k as int));
            }
            let id = epochs[k].id;
            best = match best {
                None => Some(id),
                Some(m) => if id > m {
                    Some(id)
                } else {
                    Some(m)
                },
            };
            k = k + 1;
        }
        assert(epochs@.take(k as int) =~= epochs@);
        best
    }

    /// Store the new state of group `group_id` with the new prior epochs
    /// `inserts` (oldest first); only the last `max_epoch_retention` prior
    /// epochs are kept. A group not stored yet is added at the end.
    pub fn write(&self, db: &mut GroupDB, group_id: Vec<u8>, state: Vec<u8>, inserts: Vec<EpochRecord>)
        ensures
            ({
                let i = group_index(old(db).groups@, group_id@);
                if i < old(db).groups@.len() {
                    final(db).groups@.len() == old(db).groups@.len()
                        && final(db).groups@[i].group_id@ == group_id@
                        && final(db).groups@[i].state@ == state@
                        && final(db).groups@[i].epochs@ == keep_last(old(db).groups@[i].epochs@ + inserts@, self.max_epoch_retention as nat)
                        && forall|j: int| 0 <= j < old(db).groups@.len() && j != i ==> #[trigger] final(db).groups@[j] == old(db).groups@[j]
                } else {
                    final(db).groups@.len() == old(db).groups@.len() + 1
                        && final(db).groups@.last().group_id@ == group_id@
                        && final(db).groups@.last().state@ == state@
                        && final(db).groups@.last().epochs@ == keep_last(inserts@, self.max_epoch_retention as nat)
                        && forall|j: int| 0 <= j < old(db).groups@.len() ==> #[trigger] final(db).groups@[j] == old(db).groups@[j]
                }
            }),
    {
        let i = db.find(group_id.as_slice());
        let found = i < db.groups.len();
        let mut epochs: Vec<EpochRecord> = Vec::new();
        if found {
            let mut record = db.groups.remove(i);
            core::mem::swap(&mut epochs, &mut record.epochs);
        }
        let mut inserts = inserts;
        epochs.append(&mut inserts);
        let ghost all = epochs@;
        let keep = self.max_epoch_retention;
        if epochs.len() as u64 > keep {
            let drop = epochs.len() - keep as usize;
            let mut kept: Vec<EpochRecord> = Vec::new();
            let mut rest = epochs;
            let mut n: usize = 0;
            while rest.len() > 0
                invariant
                    all.len() <= usize::MAX,
                    n + rest@.len() == all.len(),
                    rest@ == all.skip(n as int),
                    drop <= all.len(),
                    n <= drop ==> kept@.len() == 0,
                    n > drop ==> kept@ == all.subrange(drop as int, n as int),
                decreases rest@.len(),
            {
                let e = rest.remove(0);
                if n >= drop {
                    kept.push(e);
                    assert(all.subrange(drop as int, n + 1) =~= if n == drop { Seq::<EpochRecord>::empty() } else { all.subrange(drop as int, n as int) }.push(all[n as int]));
                }
                n = n + 1;
            }
            epochs = kept;
            proof {
                if n == drop {
                    assert(all.subrange(drop as int, n as int) =~= Seq::<EpochRecord>::empty());
                }
            }
        }
        let record = GroupRecord { group_id, state, epochs };
        if found {
            db.groups.insert(i, record);
            assert(db.groups@ =~= old(db).groups@.update(i as int, record));
        } else {
            db.groups.push(record);
        }
    }
}

} // verus!
