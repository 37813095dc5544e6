//! Bounded per-identity log storage.
//!
//! [`CollectedItems`] is a fixed-capacity circular buffer that keeps the most
//! recent entries for one identity, overwriting the oldest entry once full.
//! [`Storage`] owns one such buffer per identity, created lazily on the first
//! push.  Both are sequential structures; callers that share a [`Storage`]
//! across threads serialize access to it externally (for example behind a
//! mutex), which is enough because every operation is bounded by the
//! capacity.
//!
//! The buffer reproduces a deliberate quirk: slot 0 counts as occupied by an
//! empty sentinel entry from construction, so the first real push lands in
//! slot 1 and early snapshots still show sentinel entries.

use vstd::prelude::*;
use vstd::string::*;

verus! {

/// Errors reported by [`Storage`].
#[derive(Clone, Copy, Debug, PartialEq, Eq, Structural)]
pub enum StorageError {
    UnknownError,
    NoSuchKeyError,
    InsertError,
}

/// One log entry: the origin address, the creation time rendered as a
/// string, and the (already encoded) opaque payload.
pub struct LogItem {
    pub ip: String,
    pub time: String,
    pub data: String,
}

/// The mathematical value of a [`LogItem`].
#[verifier::ext_equal]
pub struct LogItemV {
    pub ip: Seq<char>,
    pub time: Seq<char>,
    pub data: Seq<char>,
}

impl View for LogItem {
    type V = LogItemV;

    open spec fn view(&self) -> LogItemV {
        LogItemV { ip: self.ip@, time: self.time@, data: self.data@ }
    }
}

/// Relies on `chrono::Local::now` (rendered with `to_string`): the local
/// wall-clock time, so nothing is promised of the value.
#[verifier::external_body]
fn local_now_string() -> (r: String) {
    chrono::Local::now().to_string()
}

impl LogItem {
    /// Builds an entry from an origin address and a payload, stamped with
    /// the current wall-clock time.
    pub fn new(ip: &str, data: &str) -> (r: Self)
        ensures
            r.ip@ == ip@,
            r.data@ == data@,
    {
        LogItem { ip: String::from_str(ip), time: local_now_string(), data: String::from_str(data) }
    }
}

/// The placeholder value that occupies unwritten buffer slots.
pub open spec fn sentinel_item() -> LogItemV {
    LogItemV { ip: Seq::empty(), time: Seq::empty(), data: Seq::empty() }
}

/// The mathematical state of one circular buffer.
#[verifier::ext_equal]
pub struct RingModel {
    pub capacity: int,
    pub cursor: int,
    pub slots: Seq<LogItemV>,
}

impl RingModel {
    pub open spec fn wf(self) -> bool {
        &&& self.capacity > 0
        &&& 0 <= self.cursor < self.capacity
        &&& self.slots.len() == self.capacity
    }
}

/// A freshly built buffer: cursor on slot 0, every slot a sentinel.
pub open spec fn ring_new(capacity: int) -> RingModel {
    RingModel {
        capacity: capacity,
        cursor: 0,
        slots: Seq::new(capacity as nat, |i: int| sentinel_item()),
    }
}

/// A push advances the cursor by one (wrapping) and overwrites that slot.
pub open spec fn ring_push(m: RingModel, item: LogItemV) -> RingModel {
    RingModel {
        capacity: m.capacity,
        cursor: (m.cursor + 1) % m.capacity,
        slots: m.slots.update((m.cursor + 1) % m.capacity, item),
    }
}

/// The full history read: capacity entries, starting just past the cursor
/// and wrapping once, so the most recently pushed entry comes last.
pub open spec fn ring_snapshot(m: RingModel) -> Seq<LogItemV> {
    Seq::new(m.capacity as nat, |i: int| m.slots[(m.cursor + 1 + i) % m.capacity])
}

/// All of `items` pushed in order, oldest first.
pub open spec fn ring_push_all(m: RingModel, items: Seq<LogItemV>) -> RingModel
    decreases items.len(),
{
    if items.len() == 0 {
        m
    } else {
        ring_push(ring_push_all(m, items.drop_last()), items.last())
    }
}

/// Fixed-capacity, overwrite-on-push circular buffer of [`LogItem`]s.
pub struct CollectedItems {
    current_index: usize,
    max_size: usize,
    data: Vec<LogItem>,
}

impl CollectedItems {
    /// The buffer's mathematical state.
    pub closed spec fn model(&self) -> RingModel {
        RingModel {
            capacity: self.max_size as int,
            cursor: self.current_index as int,
            slots: Seq::new(self.data@.len(), |i: int| self.data@[i]@),
        }
    }

    /// Builds a buffer of `maxsize` sentinel-filled slots, cursor on slot 0.
    pub fn new(maxsize: usize) -> (r: Self)
        requires
            maxsize >= 1,
        ensures
            r.model() == ring_new(maxsize as int),
            r.model().wf(),
    {
        let mut bufvec: Vec<LogItem> = Vec::new();
        let mut i: usize = 0;
        while i < maxsize
            invariant
                i <= maxsize,
                bufvec@.len() == i,
                forall|j: int| 0 <= j < i ==> bufvec@[j]@ == sentinel_item(),
            decreases maxsize - i,
        {
            bufvec.push(LogItem { ip: String::new(), time: String::new(), data: String::new() });
            i = i + 1;
        }
        let r = CollectedItems { current_index: 0, max_size: maxsize, data: bufvec };
        proof {
            assert(r.model().slots =~= ring_new(maxsize as int).slots);
            assert(r.model() =~= ring_new(maxsize as int));
        }
        r
    }

    /// Advances the cursor (wrapping at the capacity) and overwrites the
    /// slot it now points at.
    pub fn push(&mut self, item: LogItem)
        requires
            old(self).model().wf(),
        ensures
            final(self).model().wf(),
            final(self).model() == ring_push(old(self).model(), item@),
    {
        self.current_index = (self.current_index + 1) % self.max_size;
        let idx = self.current_index;
        let slot = &mut self.data[idx];
        *slot = item;
        proof {
            assert(final(self).model().slots =~= ring_push(old(self).model(), item@).slots);
            assert(final(self).model() =~= ring_push(old(self).model(), item@));
        }
    }

    /// Returns a copy of the most recently written entry (the sentinel if
    /// nothing was ever pushed).
    pub fn get(&self) -> (r: LogItem)
        requires
            self.model().wf(),
        ensures
            r@ == self.model().slots[self.model().cursor],
    {
        let item = &self.data[self.current_index];
        LogItem { ip: item.ip.clone(), time: item.time.clone(), data: item.data.clone() }
    }

    /// Returns all `capacity` slots, oldest first, the most recently pushed
    /// entry last.  Slots never written still hold the sentinel entry.
    pub fn get_all(&self) -> (r: Vec<LogItem>)
        requires
            self.model().wf(),
        ensures
            r@.len() == self.model().capacity,
            forall|i: int| 0 <= i < r@.len() ==> r@[i]@ == ring_snapshot(self.model())[i],
    {
        let mut buffer: Vec<LogItem> = Vec::new();
        let start = (self.current_index + 1) % self.max_size;
        let ghost m = self.model();
        let mut idx = start;
        let mut steps: usize = 0;
        while steps < self.max_size
            invariant
                self.model() == m,
                self.model().wf(),
                start == (m.cursor + 1) % m.capacity,
                steps <= self.max_size,
                idx == (m.cursor + 1 + steps) % m.capacity,
                0 <= idx < self.max_size,
                buffer@.len() == steps,
                forall|i: int| 0 <= i < steps ==> buffer@[i]@ == ring_snapshot(m)[i],
            decreases self.max_size - steps,
        {
            let item = &self.data[idx];
            buffer.push(LogItem { ip: item.ip.clone(), time: item.time.clone(), data: item.data.clone() });
            proof {
                assert(buffer@[steps as int]@ == m.slots[(m.cursor + 1 + steps) % m.capacity]);
                lemma_mod_step(m.cursor + 1 + steps, m.capacity);
            }
            idx = if idx + 1 == self.max_size { 0 } else { idx + 1 };
            steps = steps + 1;
        }
        buffer
    }
}

/// The map described by an association list: later entries shadow earlier
/// ones (the store keeps its keys distinct, so nothing is ever shadowed).
pub open spec fn entries_map(s: Seq<(String, CollectedItems)>) -> Map<Seq<char>, RingModel>
    decreases s.len(),
{
    if s.len() == 0 {
        Map::empty()
    } else {
        entries_map(s.drop_last()).insert(s.last().0@, s.last().1.model())
    }
}

/// The store after a push: the identity's buffer (a fresh one if the
/// identity was never pushed to) with the entry pushed into it.
pub open spec fn store_pushed(
    m: Map<Seq<char>, RingModel>,
    capacity: int,
    key: Seq<char>,
    item: LogItemV,
) -> Map<Seq<char>, RingModel> {
    let before = if m.contains_key(key) {
        m[key]
    } else {
        ring_new(capacity)
    };
    m.insert(key, ring_push(before, item))
}

/// One circular buffer per identity, created lazily on the first push.
pub struct Storage {
    max_size: usize,
    recent_data: Vec<(String, CollectedItems)>,
}

impl Storage {
    /// The per-identity capacity.
    pub closed spec fn capacity(&self) -> int {
        self.max_size as int
    }

    /// The store's mathematical state: identity to buffer state.
    pub closed spec fn model(&self) -> Map<Seq<char>, RingModel> {
        entries_map(self.recent_data@)
    }

    /// Internal consistency: a positive capacity, every buffer well formed
    /// and of that capacity, and the identities pairwise distinct.
    pub closed spec fn inv(&self) -> bool {
        &&& self.max_size >= 1
        &&& forall|i: int| 0 <= i < self.recent_data@.len()
            ==> (#[trigger] self.recent_data@[i].1).model().wf()
                && self.recent_data@[i].1.model().capacity == self.max_size as int
        &&& forall|i: int, j: int|
            0 <= i < j < self.recent_data@.len()
                ==> (#[trigger] self.recent_data@[i].0)@ != (#[trigger] self.recent_data@[j].0)@
    }

    /// Builds an empty store that will hand each new identity a buffer of
    /// `maxsize` slots.
    pub fn new(maxsize: usize) -> (r: Self)
        requires
            maxsize >= 1,
        ensures
            r.inv(),
            r.capacity() == maxsize as int,
            r.model() == Map::<Seq<char>, RingModel>::empty(),
    {
        Storage { max_size: maxsize, recent_data: Vec::new() }
    }

    /// The position of `key` among the entries, if it is there.
    fn find_index(&self, key: &String) -> (r: Option<usize>)
        ensures
            match r {
                Some(i) => i < self.recent_data@.len() && self.recent_data@[i as int].0@ == key@,
                None => forall|j: int|
                    0 <= j < self.recent_data@.len()
                        ==> (#[trigger] self.recent_data@[j].0)@ != key@,
            },
    {
        let n = self.recent_data.len();
        let mut i: usize = 0;
        while i < n
            invariant
                n == self.recent_data@.len(),
                i <= n,
                forall|j: int| 0 <= j < i ==> (#[trigger] self.recent_data@[j].0)@ != key@,
            decreases n - i,
        {
            if self.recent_data[i].0 == *key {
                return Some(i);
            }
            i = i + 1;
        }
        None
    }

    /// Returns the full history for `key`, oldest first, or `None` if the
    /// identity was never pushed to.
    pub fn get_all(&self, key: &str) -> (r: Option<Vec<LogItem>>)
        requires
            self.inv(),
        ensures
            match r {
                None => !self.model().contains_key(key@),
                Some(v) => {
                    &&& self.model().contains_key(key@)
                    &&& v@.len() == self.model()[key@].capacity
                    &&& forall|i: int|
                        0 <= i < v@.len()
                            ==> v@[i]@ == ring_snapshot(self.model()[key@])[i]
                },
            },
    {
        let key_string = String::from_str(key);
        proof {
            lemma_entries_map_domain(self.recent_data@, key@);
        }
        match self.find_index(&key_string) {
            None => None,
            Some(i) => {
                proof {
                    lemma_entries_map_index(self.recent_data@, i as int);
                }
                Some(self.recent_data[i].1.get_all())
            },
        }
    }

    /// Returns the most recently written entry for `key`, or `None` if the
    /// identity was never pushed to.
    pub fn get(&self, key: &str) -> (r: Option<LogItem>)
        requires
            self.inv(),
        ensures
            match r {
                None => !self.model().contains_key(key@),
                Some(item) => {
                    &&& self.model().contains_key(key@)
                    &&& item@ == self.model()[key@].slots[self.model()[key@].cursor]
                },
            },
    {
        let key_string = String::from_str(key);
        proof {
            lemma_entries_map_domain(self.recent_data@, key@);
        }
        match self.find_index(&key_string) {
            None => None,
            Some(i) => {
                proof {
                    lemma_entries_map_index(self.recent_data@, i as int);
                }
                Some(self.recent_data[i].1.get())
            },
        }
    }

    /// Appends `item` to `key`'s buffer, creating the buffer on the first
    /// push for that identity.  Never fails: the error type is kept for
    /// callers that guard the store behind a lock and must surface its
    /// failures.
    pub fn push(&mut self, key: &str, item: LogItem) -> (r: Result<(), StorageError>)
        requires
            old(self).inv(),
        ensures
            final(self).inv(),
            final(self).capacity() == old(self).capacity(),
            r is Ok,
            final(self).model() == store_pushed(
                old(self).model(),
                old(self).capacity(),
                key@,
                item@,
            ),
    {
        let key_string = String::from_str(key);
        proof {
            lemma_entries_map_domain(self.recent_data@, key@);
        }
        match self.find_index(&key_string) {
            Some(i) => {
                proof {
                    lemma_entries_map_index(self.recent_data@, i as int);
                }
                let ghost before = self.recent_data@;
                let entry = &mut self.recent_data[i];
                entry.1.push(item);
                proof {
                    assert(final(entry).0@ == key@);
                    lemma_entries_map_update(before, i as int, self.recent_data@);
                    assert(self.model() =~= store_pushed(
                        entries_map(before),
                        self.max_size as int,
                        key@,
                        item@,
                    ));
                }
            },
            None => {
                let mut ring = CollectedItems::new(self.max_size);
                ring.push(item);
                self.recent_data.push((key_string, ring));
                proof {
                    assert(self.recent_data@.drop_last() =~= old(self).recent_data@);
                    assert(self.model() =~= store_pushed(
                        old(self).model(),
                        self.max_size as int,
                        key@,
                        item@,
                    ));
                }
            },
        }
        Ok(())
    }

    /// Drops every identity's history.
    pub fn erase(&mut self)
        requires
            old(self).inv(),
        ensures
            final(self).inv(),
            final(self).capacity() == old(self).capacity(),
            final(self).model() == Map::<Seq<char>, RingModel>::empty(),
    {
        self.recent_data.clear();
    }
}

/// A key is in the association list's map exactly when some entry bears it.
proof fn lemma_entries_map_domain(s: Seq<(String, CollectedItems)>, key: Seq<char>)
    ensures
        entries_map(s).contains_key(key) <==> exists|i: int|
            0 <= i < s.len() && (#[trigger] s[i].0)@ == key,
    decreases s.len(),
{
    if s.len() > 0 {
        lemma_entries_map_domain(s.drop_last(), key);
        if s.last().0@ == key {
            assert(s[s.len() - 1].0@ == key);
        } else if entries_map(s).contains_key(key) {
            let i = choose|i: int| 0 <= i < s.drop_last().len() && (#[trigger] s.drop_last()[i].0)@ == key;
            assert(s[i].0@ == key);
        } else {
            assert forall|i: int| 0 <= i < s.len() implies (#[trigger] s[i].0)@ != key by {
                if i < s.len() - 1 {
                    assert(s.drop_last()[i].0@ != key);
                }
            }
        }
    }
}

/// With distinct keys, the map sends each entry's key to that entry's model.
proof fn lemma_entries_map_index(s: Seq<(String, CollectedItems)>, i: int)
    requires
        0 <= i < s.len(),
        forall|p: int, q: int|
            0 <= p < q < s.len() ==> (#[trigger] s[p].0)@ != (#[trigger] s[q].0)@,
    ensures
        entries_map(s).contains_key(s[i].0@),
        entries_map(s)[s[i].0@] == s[i].1.model(),
    decreases s.len(),
{
    if i == s.len() - 1 {
    } else {
        assert(s[i].0@ != s[s.len() - 1].0@);
        assert(s.drop_last()[i] == s[i]);
        lemma_entries_map_index(s.drop_last(), i);
    }
}

/// Replacing the value at one key (keys distinct, key unchanged) turns the
/// association list's map into the same map with that key re-inserted.
proof fn lemma_entries_map_update(
    before: Seq<(String, CollectedItems)>,
    i: int,
    after: Seq<(String, CollectedItems)>,
)
    requires
        0 <= i < before.len(),
        after.len() == before.len(),
        forall|j: int| 0 <= j < before.len() && j != i ==> after[j] == before[j],
        after[i].0@ == before[i].0@,
        forall|p: int, q: int|
            0 <= p < q < before.len() ==> (#[trigger] before[p].0)@ != (#[trigger] before[q].0)@,
    ensures
        entries_map(after) =~= entries_map(before).insert(before[i].0@, after[i].1.model()),
    decreases before.len(),
{
    lemma_entries_map_domain(before, before[i].0@);
    lemma_entries_map_domain(after, before[i].0@);
    if i == before.len() - 1 {
        assert(before.drop_last() =~= after.drop_last());
    } else {
        assert(after[before.len() - 1] == before[before.len() - 1]);
        lemma_entries_map_update(before.drop_last(), i, after.drop_last());
        assert(before.drop_last()[i] == before[i]);
        assert(before[i].0@ != before[before.len() - 1].0@);
    }
}

/// Where each of `items.len() <= c` pushes into a fresh buffer lands:
/// push number `j` (counting from 0) writes slot `(j + 1) % c`, so slots
/// `1 ..= items.len()` hold the items in order (slot 0 taking the last item
/// exactly when the buffer just wrapped), and every other slot still holds
/// the sentinel.
proof fn lemma_ring_fresh_state(c: int, items: Seq<LogItemV>)
    requires
        0 < c,
        items.len() <= c,
    ensures
        ({
            let m = ring_push_all(ring_new(c), items);
            &&& m.wf()
            &&& m.capacity == c
            &&& m.cursor == items.len() as int % c
            &&& forall|s: int| 1 <= s <= items.len() && s < c ==> m.slots[s] == items[s - 1]
            &&& items.len() == c ==> m.slots[0] == items[c - 1]
            &&& forall|s: int|
                0 <= s < c && (s == 0 || s > items.len()) && !(items.len() == c && s == 0)
                    ==> m.slots[s] == sentinel_item()
        }),
    decreases items.len(),
{
    if items.len() < c {
        vstd::arithmetic::div_mod::lemma_small_mod(items.len(), c as nat);
    } else {
        vstd::arithmetic::div_mod::lemma_mod_self_0(c);
    }
    if items.len() == 0 {
    } else {
        let k = items.len() as int;
        lemma_ring_fresh_state(c, items.drop_last());
        vstd::arithmetic::div_mod::lemma_small_mod((k - 1) as nat, c as nat);
        if k == c {
            vstd::arithmetic::div_mod::lemma_mod_self_0(c);
        }
    }
}

/// Law: after exactly `capacity` pushes into a fresh buffer, the snapshot
/// is precisely the pushed items, oldest first — in particular no slot
/// still holds the sentinel entry when no pushed item equals it.
pub proof fn lemma_ring_fill(c: int, items: Seq<LogItemV>)
    requires
        0 < c,
        items.len() == c,
    ensures
        ring_snapshot(ring_push_all(ring_new(c), items)) =~= items,
{
    let m = ring_push_all(ring_new(c), items);
    lemma_ring_fresh_state(c, items);
    vstd::arithmetic::div_mod::lemma_mod_self_0(c);
    assert forall|i: int| 0 <= i < c implies ring_snapshot(m)[i] == items[i] by {
        if i < c - 1 {
            vstd::arithmetic::div_mod::lemma_small_mod((i + 1) as nat, c as nat);
        } else {
            vstd::arithmetic::div_mod::lemma_mod_self_0(c);
        }
    }
}

/// Law: after `capacity + 1` pushes into a fresh buffer, the snapshot is
/// the pushed items with the oldest one dropped — the first item no longer
/// appears anywhere in it.
pub proof fn lemma_ring_evicts_oldest(c: int, items: Seq<LogItemV>)
    requires
        0 < c,
        items.len() == c + 1,
    ensures
        ring_snapshot(ring_push_all(ring_new(c), items)) =~= items.skip(1),
{
    let prefix = items.drop_last();
    let m0 = ring_push_all(ring_new(c), prefix);
    let m = ring_push_all(ring_new(c), items);
    lemma_ring_fresh_state(c, prefix);
    vstd::arithmetic::div_mod::lemma_mod_self_0(c);
    if c > 1 {
        vstd::arithmetic::div_mod::lemma_small_mod(1nat, c as nat);
    }
    assert(m == ring_push(m0, items.last()));
    assert forall|i: int| 0 <= i < c implies ring_snapshot(m)[i] == items.skip(1)[i] by {
        if c == 1 {
            vstd::arithmetic::div_mod::lemma_small_mod(0nat, 1nat);
        } else {
            let pos = (1 + 1 + i) % c;
            if 2 + i < c {
                vstd::arithmetic::div_mod::lemma_small_mod((2 + i) as nat, c as nat);
            } else if 2 + i == c {
                vstd::arithmetic::div_mod::lemma_mod_self_0(c);
            } else {
                vstd::arithmetic::div_mod::lemma_mod_add_multiples_vanish(2 + i - c, c);
                vstd::arithmetic::div_mod::lemma_small_mod((2 + i - c) as nat, c as nat);
            }
        }
    }
}

/// Law: the very first push for an identity lands in a fresh buffer whose
/// snapshot ends with that entry, all earlier positions still sentinels.
pub proof fn lemma_store_first_push(
    m: Map<Seq<char>, RingModel>,
    capacity: int,
    key: Seq<char>,
    item: LogItemV,
)
    requires
        0 < capacity,
        !m.contains_key(key),
    ensures
        ({
            let snap = ring_snapshot(store_pushed(m, capacity, key, item)[key]);
            &&& store_pushed(m, capacity, key, item).contains_key(key)
            &&& snap.len() == capacity
            &&& snap.last() == item
            &&& forall|i: int| 0 <= i < capacity - 1 ==> snap[i] == sentinel_item()
        }),
{
    let pushed = ring_push(ring_new(capacity), item);
    assert(store_pushed(m, capacity, key, item)[key] == pushed);
    lemma_ring_fresh_state(capacity, seq![item]);
    let snap = ring_snapshot(pushed);
    let c = capacity;
    if c > 1 {
        vstd::arithmetic::div_mod::lemma_small_mod(1nat, c as nat);
    }
    assert(pushed == ring_push_all(ring_new(c), seq![item])) by {
        assert(seq![item].drop_last() =~= Seq::<LogItemV>::empty());
    }
    if c == 1 {
        vstd::arithmetic::div_mod::lemma_mod_self_0(1);
        assert(snap[0] == pushed.slots[(0int + 1 + 0) % 1]);
        vstd::arithmetic::div_mod::lemma_small_mod(0nat, 1nat);
    } else {
        assert forall|i: int| 0 <= i < c implies snap[i] == (if i == c - 1 {
            item
        } else {
            sentinel_item()
        }) by {
            if 2 + i < c {
                vstd::arithmetic::div_mod::lemma_small_mod((2 + i) as nat, c as nat);
            } else if 2 + i == c {
                vstd::arithmetic::div_mod::lemma_mod_self_0(c);
            } else {
                vstd::arithmetic::div_mod::lemma_mod_add_multiples_vanish(2 + i - c, c);
                vstd::arithmetic::div_mod::lemma_small_mod((2 + i - c) as nat, c as nat);
            }
        }
    }
}

/// `(a + 1) % m` follows from `a % m` by stepping or wrapping.
proof fn lemma_mod_step(a: int, m: int)
    requires
        m > 0,
        a >= 0,
    ensures
        a % m < m - 1 ==> (a + 1) % m == a % m + 1,
        a % m == m - 1 ==> (a + 1) % m == 0,
{
    assert(a % m < m - 1 ==> (a + 1) % m == a % m + 1) by (nonlinear_arith)
        requires m > 0 && a >= 0;
    assert(a % m == m - 1 ==> (a + 1) % m == 0) by (nonlinear_arith)
        requires m > 0 && a >= 0;
}

} // verus!
