//! Read/bookmark state carried across a re-index.
//!
//! Everything in the index can be rebuilt from disk except what the user did: which
//! emails are read and which are bookmarked. Before the tables are cleared that state
//! is snapshotted here, and each freshly scanned email gets its state back, looked up
//! first by its key and then by its physical location. Both lookups are scoped by
//! label, so no state can bleed from one label to another.
use vstd::prelude::*;
use vstd::hash_map::{HashMapWithView, StringHashMap};
use crate::scan::ParsedEmail;

verus! {

broadcast use vstd::std_specs::hash::group_hash_axioms;

/// Response from a toggle of an email's read or bookmark flag.
pub struct ToggleResult {
    pub id: String,
    pub value: bool,
}

/// One stored email's state, as read back from the index before a re-scan.
pub struct StoredState {
    pub uid: String,
    pub label: String,
    pub dir_name: String,
    pub body_filename: String,
    pub is_read: bool,
    pub is_bookmarked: bool,
}

/// A physical location: label, directory, body file.
pub type Location = (Seq<char>, Seq<char>, Seq<char>);

/// State by key after the first `n` rows; a later row for the same key wins.
pub open spec fn uid_model(rows: Seq<StoredState>, n: nat) -> Map<Seq<char>, (bool, bool)>
    decreases n,
{
    if n == 0 || n > rows.len() {
        Map::empty()
    } else {
        let r = rows[n - 1];
        uid_model(rows, (n - 1) as nat).insert(r.uid@, (r.is_read, r.is_bookmarked))
    }
}

/// State by location after the first `n` rows; a later row for the same location wins.
pub open spec fn location_model(rows: Seq<StoredState>, n: nat) -> Map<Location, (bool, bool)>
    decreases n,
{
    if n == 0 || n > rows.len() {
        Map::empty()
    } else {
        let r = rows[n - 1];
        location_model(rows, (n - 1) as nat).insert(
            (r.label@, r.dir_name@, r.body_filename@),
            (r.is_read, r.is_bookmarked),
        )
    }
}

/// What a lookup restores: the state stored under the email's key, else the state
/// stored at its location, else unread and not bookmarked.
pub open spec fn restored(by_uid: Map<Seq<char>, (bool, bool)>, by_location: Map<Location, (bool, bool)>, uid: Seq<char>, loc: Location) -> (bool, bool) {
    if by_uid.contains_key(uid) {
        by_uid[uid]
    } else if by_location.contains_key(loc) {
        by_location[loc]
    } else {
        (false, false)
    }
}

/// Two ids packed into one hash key.
pub open spec fn pack(a: u64, b: u64) -> u128 {
    (a as int * 0x1_0000_0000_0000_0000 + b as int) as u128
}

proof fn lemma_pack_injective(a: u64, b: u64, c: u64, d: u64)
    requires
        pack(a, b) == pack(c, d),
    ensures
        a == c && b == d,
{
    let x = a as int * 0x1_0000_0000_0000_0000 + b as int;
    let y = c as int * 0x1_0000_0000_0000_0000 + d as int;
    assert(0 <= x < 0x1_0000_0000_0000_0000_0000_0000_0000_0000) by (nonlinear_arith)
        requires
            x == a as int * 0x1_0000_0000_0000_0000 + b as int,
            0 <= a < 0x1_0000_0000_0000_0000,
            0 <= b < 0x1_0000_0000_0000_0000,
    ;
    assert(0 <= y < 0x1_0000_0000_0000_0000_0000_0000_0000_0000) by (nonlinear_arith)
        requires
            y == c as int * 0x1_0000_0000_0000_0000 + d as int,
            0 <= c < 0x1_0000_0000_0000_0000,
            0 <= d < 0x1_0000_0000_0000_0000,
    ;
    assert(x == y);
    assert(a == c && b == d) by (nonlinear_arith)
        requires
            a as int * 0x1_0000_0000_0000_0000 + b as int == c as int * 0x1_0000_0000_0000_0000 + d as int,
            0 <= b < 0x1_0000_0000_0000_0000,
            0 <= d < 0x1_0000_0000_0000_0000,
            0 <= a,
            0 <= c,
    ;
}

fn pack_exec(a: u64, b: u64) -> (r: u128)
    ensures
        r == pack(a, b),
{
    assert(a as int * 0x1_0000_0000_0000_0000 + b as int <= 0xffff_ffff_ffff_ffff_ffff_ffff_ffff_ffff) by (nonlinear_arith)
        requires
            0 <= a < 0x1_0000_0000_0000_0000,
            0 <= b < 0x1_0000_0000_0000_0000,
    ;
    (a as u128) * 0x1_0000_0000_0000_0000u128 + (b as u128)
}

/// Ids handed out so far are below `next` and distinct.
pub open spec fn interner_ok(m: Map<Seq<char>, u64>, next: u64) -> bool {
    &&& forall|s: Seq<char>| m.contains_key(s) ==> #[trigger] m[s] < next
    &&& forall|s: Seq<char>, t: Seq<char>|
        m.contains_key(s) && m.contains_key(t) && #[trigger] m[s] == #[trigger] m[t] ==> s == t
}

/// The tables behind `ExistingState`.
struct Tables {
    /// Primary lookup, by key.
    by_uid: StringHashMap<(bool, bool)>,
    /// Ids of the labels, directories and body files seen.
    labels: StringHashMap<u64>,
    dirs: StringHashMap<u64>,
    files: StringHashMap<u64>,
    next_label: u64,
    next_dir: u64,
    next_file: u64,
    /// Ids of the (label, directory) pairs seen, by their packed label and directory ids.
    pairs: HashMapWithView<u128, u64>,
    next_pair: u64,
    /// Fallback lookup, by packed (pair, file) id.
    by_location: HashMapWithView<u128, (bool, bool)>,
    /// The fallback lookup as a map of locations.
    locations: Ghost<Map<Location, (bool, bool)>>,
}

impl Tables {
    /// The packed key of a location, given the ids handed out.
    spec fn key_of(&self, t: Location) -> u128 {
        pack(self.pairs@[pack(self.labels@[t.0], self.dirs@[t.1])], self.files@[t.2])
    }

    /// Whether a location has ids for all its parts and an entry under its key.
    spec fn indexed(&self, t: Location) -> bool {
        &&& self.labels@.contains_key(t.0)
        &&& self.dirs@.contains_key(t.1)
        &&& self.files@.contains_key(t.2)
        &&& self.pairs@.contains_key(pack(self.labels@[t.0], self.dirs@[t.1]))
        &&& self.by_location@.contains_key(self.key_of(t))
    }

    /// The structure's invariant: ids are distinct, every stored location is reachable
    /// under its key, and every key belongs to a stored location.
    spec fn wf(&self) -> bool {
        &&& interner_ok(self.labels@, self.next_label)
        &&& interner_ok(self.dirs@, self.next_dir)
        &&& interner_ok(self.files@, self.next_file)
        &&& forall|k: u128| self.pairs@.contains_key(k) ==> #[trigger] self.pairs@[k] < self.next_pair
        &&& forall|k: u128, j: u128|
            self.pairs@.contains_key(k) && self.pairs@.contains_key(j) && #[trigger] self.pairs@[k]
                == #[trigger] self.pairs@[j] ==> k == j
        &&& forall|t: Location|
            #[trigger] self.locations@.contains_key(t) ==> self.indexed(t)
                && self.by_location@[self.key_of(t)] == self.locations@[t]
        &&& forall|k: u128|
            #[trigger] self.by_location@.contains_key(k) ==> exists|t: Location|
                #[trigger] self.locations@.contains_key(t) && self.key_of(t) == k
    }

    fn empty() -> (s: Tables)
        ensures
            s.wf(),
            s.by_uid@ == Map::<Seq<char>, (bool, bool)>::empty(),
            s.locations@ == Map::<Location, (bool, bool)>::empty(),
            s.next_label == 0 && s.next_dir == 0 && s.next_file == 0 && s.next_pair == 0,
    {
        Tables {
            by_uid: StringHashMap::new(),
            labels: StringHashMap::new(),
            dirs: StringHashMap::new(),
            files: StringHashMap::new(),
            next_label: 0,
            next_dir: 0,
            next_file: 0,
            pairs: HashMapWithView::new(),
            next_pair: 0,
            by_location: HashMapWithView::new(),
            locations: Ghost(Map::empty()),
        }
    }
}

/// The id of `s`, handing out `*next` when it has none yet.
fn intern(m: &mut StringHashMap<u64>, next: &mut u64, s: &String) -> (id: u64)
    requires
        interner_ok(old(m)@, *old(next)),
        *old(next) < u64::MAX,
    ensures
        interner_ok(final(m)@, *final(next)),
        final(m)@.contains_key(s@),
        final(m)@[s@] == id,
        forall|t: Seq<char>| #[trigger] old(m)@.contains_key(t) ==> final(m)@.contains_key(t) && final(m)@[t] == old(m)@[t],
        forall|t: Seq<char>| #[trigger] final(m)@.contains_key(t) ==> old(m)@.contains_key(t) || t == s@,
        *final(next) <= *old(next) + 1,
        *old(next) <= *final(next),
{
    match m.get(s.as_str()) {
        Some(id) => *id,
        None => {
            let id = *next;
            m.insert(s.clone(), id);
            *next = id + 1;
            id
        },
    }
}

impl Tables {
    /// Records `st` as the state under key `uid` and at the location (`label`, `dir`, `file`).
    fn insert_row(&mut self, uid: &String, label: &String, dir: &String, file: &String, st: (bool, bool))
        requires
            old(self).wf(),
            old(self).next_label < u64::MAX,
            old(self).next_dir < u64::MAX,
            old(self).next_file < u64::MAX,
            old(self).next_pair < u64::MAX,
        ensures
            final(self).wf(),
            final(self).locations@ == old(self).locations@.insert((label@, dir@, file@), st),
            final(self).by_uid@ == old(self).by_uid@.insert(uid@, st),
            final(self).next_label <= old(self).next_label + 1,
            final(self).next_dir <= old(self).next_dir + 1,
            final(self).next_file <= old(self).next_file + 1,
            final(self).next_pair <= old(self).next_pair + 1,
    {
        let ghost old_self = *self;
        self.by_uid.insert(uid.clone(), st);
        let l = intern(&mut self.labels, &mut self.next_label, label);
        let d = intern(&mut self.dirs, &mut self.next_dir, dir);
        let f = intern(&mut self.files, &mut self.next_file, file);
        let pk = pack_exec(l, d);
        let p = match self.pairs.get(&pk) {
            Some(p) => *p,
            None => {
                let p = self.next_pair;
                self.pairs.insert(pk, p);
                self.next_pair = p + 1;
                p
            },
        };
        let key = pack_exec(p, f);
        self.by_location.insert(key, st);
        let ghost t0: Location = (label@, dir@, file@);
        self.locations = Ghost(self.locations@.insert(t0, st));
        proof {
            assert(self.pairs@.contains_key(pk) && self.pairs@[pk] == p);
            assert(self.key_of(t0) == key);
            // Locations stored before keep their key.
            assert forall|t: Location| #[trigger] old_self.locations@.contains_key(t) implies self.key_of(t)
                == old_self.key_of(t) && self.labels@.contains_key(t.0) && self.dirs@.contains_key(t.1)
                && self.files@.contains_key(t.2) && self.pairs@.contains_key(
                pack(self.labels@[t.0], self.dirs@[t.1]),
            ) by {
                assert(old_self.indexed(t));
                assert(self.labels@[t.0] == old_self.labels@[t.0]);
                assert(self.dirs@[t.1] == old_self.dirs@[t.1]);
                assert(self.files@[t.2] == old_self.files@[t.2]);
                assert(self.pairs@[pack(old_self.labels@[t.0], old_self.dirs@[t.1])] == old_self.pairs@[pack(
                    old_self.labels@[t.0],
                    old_self.dirs@[t.1],
                )]);
            }
            // A stored location other than the new one has another key.
            assert forall|t: Location| #[trigger] old_self.locations@.contains_key(t) && t != t0 implies self.key_of(t)
                != key by {
                if self.key_of(t) == key {
                    let lt = self.labels@[t.0];
                    let dt = self.dirs@[t.1];
                    let ft = self.files@[t.2];
                    lemma_pack_injective(self.pairs@[pack(lt, dt)], ft, p, f);
                    assert(self.pairs@[pack(lt, dt)] == self.pairs@[pk]);
                    assert(pack(lt, dt) == pk);
                    lemma_pack_injective(lt, dt, l, d);
                    assert(t.0 == label@);
                    assert(t.1 == dir@);
                    assert(t.2 == file@);
                }
            }
            assert forall|t: Location| #[trigger] self.locations@.contains_key(t) implies self.indexed(t)
                && self.by_location@[self.key_of(t)] == self.locations@[t] by {
                if t != t0 {
                    assert(old_self.locations@.contains_key(t));
                    assert(old_self.indexed(t));
                }
            }
            assert forall|k: u128| #[trigger] self.by_location@.contains_key(k) implies exists|t: Location|
                #[trigger] self.locations@.contains_key(t) && self.key_of(t) == k by {
                if k == key {
                    assert(self.locations@.contains_key(t0));
                } else {
                    assert(old_self.by_location@.contains_key(k));
                    let t = choose|t: Location| #[trigger] old_self.locations@.contains_key(t) && old_self.key_of(t) == k;
                    assert(self.locations@.contains_key(t));
                }
            }
        }
    }
}

impl Tables {
    /// The state stored at a location, if any.
    fn at_location(&self, label: &String, dir: &String, file: &String) -> (r: Option<(bool, bool)>)
        requires
            self.wf(),
        ensures
            match r {
                Some(v) => self.locations@.contains_key((label@, dir@, file@)) && v == self.locations@[(label@, dir@, file@)],
                None => !self.locations@.contains_key((label@, dir@, file@)),
            },
    {
        let ghost t0: Location = (label@, dir@, file@);
        let l = match self.labels.get(label.as_str()) {
            Some(l) => *l,
            None => {
                assert(!self.locations@.contains_key(t0));
                return None;
            },
        };
        let d = match self.dirs.get(dir.as_str()) {
            Some(d) => *d,
            None => {
                assert(!self.locations@.contains_key(t0));
                return None;
            },
        };
        let f = match self.files.get(file.as_str()) {
            Some(f) => *f,
            None => {
                assert(!self.locations@.contains_key(t0));
                return None;
            },
        };
        let pk = pack_exec(l, d);
        let p = match self.pairs.get(&pk) {
            Some(p) => *p,
            None => {
                assert(!self.locations@.contains_key(t0));
                return None;
            },
        };
        let key = pack_exec(p, f);
        assert(self.key_of(t0) == key);
        match self.by_location.get(&key) {
            Some(v) => {
                proof {
                    let t = choose|t: Location| #[trigger] self.locations@.contains_key(t) && self.key_of(t) == key;
                    assert(self.indexed(t));
                    let lt = self.labels@[t.0];
                    let dt = self.dirs@[t.1];
                    let ft = self.files@[t.2];
                    lemma_pack_injective(self.pairs@[pack(lt, dt)], ft, p, f);
                    assert(pack(lt, dt) == pk);
                    lemma_pack_injective(lt, dt, l, d);
                    assert(t == t0);
                }
                Some(*v)
            },
            None => None,
        }
    }
}

/// Read/bookmark state carried across a re-index. Every lookup path is label-scoped.
pub struct ExistingState {
    tables: Tables,
}

impl ExistingState {
    /// The tables are well formed: ids are distinct and every stored location is
    /// reachable under its key.
    #[verifier::type_invariant]
    spec fn tables_ok(self) -> bool {
        self.tables.wf()
    }

    /// State by key.
    pub closed spec fn uid_map(&self) -> Map<Seq<char>, (bool, bool)> {
        self.tables.by_uid@
    }

    /// State by location.
    pub closed spec fn location_map(&self) -> Map<Location, (bool, bool)> {
        self.tables.locations@
    }

    /// No state at all.
    pub fn new() -> (s: ExistingState)
        ensures
            s.uid_map() == Map::<Seq<char>, (bool, bool)>::empty(),
            s.location_map() == Map::<Location, (bool, bool)>::empty(),
    {
        ExistingState { tables: Tables::empty() }
    }

    /// Restores `(is_read, is_bookmarked)` for a freshly scanned email: the state
    /// stored under its key, else the state stored at its location, else nothing.
    pub fn lookup(&self, email: &ParsedEmail) -> (r: (bool, bool))
        ensures
            r == restored(
                self.uid_map(),
                self.location_map(),
                email.uid@,
                (email.label@, email.dir_name@, email.body_filename@),
            ),
    {
        proof {
            use_type_invariant(self);
        }
        match self.tables.by_uid.get(email.uid.as_str()) {
            Some(v) => *v,
            None => match self.tables.at_location(&email.label, &email.dir_name, &email.body_filename) {
                Some(v) => v,
                None => (false, false),
            },
        }
    }

    /// Snapshots the state of every stored email, as read back before the tables
    /// are cleared.
    pub fn from_rows(rows: &Vec<StoredState>) -> (s: ExistingState)
        ensures
            s.uid_map() == uid_model(rows@, rows@.len()),
            s.location_map() == location_model(rows@, rows@.len()),
    {
        let mut t = Tables::empty();
        let mut i: usize = 0;
        while i < rows.len()
            invariant
                0 <= i <= rows.len(),
                t.wf(),
                t.next_label <= i,
                t.next_dir <= i,
                t.next_file <= i,
                t.next_pair <= i,
                t.by_uid@ == uid_model(rows@, i as nat),
                t.locations@ == location_model(rows@, i as nat),
            decreases rows.len() - i,
        {
            let r = &rows[i];
            let st = (r.is_read, r.is_bookmarked);
            t.insert_row(&r.uid, &r.label, &r.dir_name, &r.body_filename, st);
            i = i + 1;
        }
        ExistingState { tables: t }
    }
}

impl Default for ExistingState {
    /// No state at all.
    fn default() -> (s: ExistingState)
        ensures
            s.uid_map() == Map::<Seq<char>, (bool, bool)>::empty(),
            s.location_map() == Map::<Location, (bool, bool)>::empty(),
    {
        ExistingState::new()
    }
}

} // verus!
